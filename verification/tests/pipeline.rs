use obr::hash_table::HashTable;
use obr::pipeline::{
    aggregate_records_fx, aggregate_records_std, aggregate_records_streaming,
    parse_records_bytes, parse_records_string, parse_records_unsafe, split_into_lines_basic,
    split_into_lines_simd, station_summary, StationGroup,
};
use obr::weather::{WeatherError, WeatherRecord};

fn stats_of(group: &StationGroup) -> (usize, f64, f64, f64) {
    let mut count = 0usize;
    let mut min = f64::INFINITY;
    let mut max = f64::NEG_INFINITY;
    let mut sum = 0.0f64;
    for text in &group.temperatures {
        let t: f64 = text.parse().unwrap();
        count += 1;
        min = min.min(t);
        max = max.max(t);
        sum += t;
    }
    (count, min, max, sum / count as f64)
}

fn table_group<'a>(
    table: &'a HashTable<String, StationGroup>,
    station: &str,
) -> &'a StationGroup {
    table.get(&station.to_string()).unwrap()
}

#[test]
fn test_splitters_agree() {
    let inputs: [&[u8]; 7] = [
        b"",
        b"\n",
        b"a",
        b"a\n",
        b"a\nb",
        b"\n\na\n\nb\n",
        b"line one\nline two\n\nline three",
    ];
    for data in inputs {
        let basic: Vec<&[u8]> = split_into_lines_basic(data);
        let simd: Vec<&[u8]> = split_into_lines_simd(data);
        assert_eq!(basic, simd);
    }
}

#[test]
fn test_split_skips_empty_lines() {
    let data = b"alpha\n\nbeta\n";
    let lines = split_into_lines_basic(data);
    assert_eq!(lines.len(), 2);
    assert_eq!(lines[0], &b"alpha"[..]);
    assert_eq!(lines[1], &b"beta"[..]);
}

#[test]
fn test_parser_equivalence() {
    let data = b"StationA;10.0\n  StationB  ;  -5.5  \nStationC;3e2\nStationD;nan";
    let lines = split_into_lines_simd(data);
    let by_string = parse_records_string(&lines).unwrap();
    let by_bytes = parse_records_bytes(&lines).unwrap();
    let by_trusted = parse_records_unsafe(&lines).unwrap();
    let project = |records: &Vec<WeatherRecord>| -> Vec<(String, String)> {
        records
            .iter()
            .map(|r| (r.station.clone(), r.temperature.clone()))
            .collect()
    };
    assert_eq!(project(&by_string), project(&by_bytes));
    assert_eq!(project(&by_string), project(&by_trusted));
    assert_eq!(by_string.len(), 4);
    assert_eq!(by_string[1].station, "StationB");
    assert_eq!(by_string[1].temperature, "-5.5");
}

#[test]
fn test_aggregation_two_stations() {
    let data = b"StationA;10.0\nStationB;-5.5\nStationA;30.0\n";
    let lines = split_into_lines_simd(data);
    let records = parse_records_string(&lines).unwrap();
    let table = aggregate_records_std(&records);
    assert_eq!(table.len(), 2);

    let (count_a, min_a, max_a, avg_a) = stats_of(table_group(&table, "StationA"));
    assert_eq!(count_a, 2);
    assert_eq!(min_a, 10.0);
    assert_eq!(max_a, 30.0);
    assert_eq!(avg_a, 20.0);

    let (count_b, min_b, max_b, avg_b) = stats_of(table_group(&table, "StationB"));
    assert_eq!(count_b, 1);
    assert_eq!(min_b, -5.5);
    assert_eq!(max_b, -5.5);
    assert_eq!(avg_b, -5.5);
}

#[test]
fn test_aggregation_backends_agree() {
    let data = b"n1;1.5\nn2;2.5\nn1;3.5\nn3;-1\nn2;0.25\n";
    let lines = split_into_lines_basic(data);
    let records = parse_records_bytes(&lines).unwrap();
    let std_table = aggregate_records_std(&records);
    let fx_map = aggregate_records_fx(&records);
    let records_again = parse_records_bytes(&lines).unwrap();
    let streamed = aggregate_records_streaming(records_again);

    assert_eq!(std_table.len(), fx_map.len());
    assert_eq!(std_table.len(), streamed.len());
    for station in ["n1", "n2", "n3"] {
        let a = table_group(&std_table, station);
        let b = fx_map.get(&station.to_string()).unwrap();
        let c = table_group(&streamed, station);
        assert_eq!(a.station_name, station);
        assert_eq!(b.station_name, station);
        assert_eq!(a.temperatures, b.temperatures);
        assert_eq!(a.temperatures, c.temperatures);
    }
}

#[test]
fn test_empty_input_yields_empty_table() {
    let data = b"";
    let lines = split_into_lines_simd(data);
    let records = parse_records_string(&lines).unwrap();
    assert!(records.is_empty());
    let table = aggregate_records_std(&records);
    assert_eq!(table.len(), 0);
    assert!(table.is_empty());
}

#[test]
fn test_blank_lines_only_yield_empty_table() {
    let data = b"\n   \n\t\n";
    let lines = split_into_lines_basic(data);
    let records = parse_records_string(&lines).unwrap();
    assert!(records.is_empty());
    let table = aggregate_records_std(&records);
    assert!(table.is_empty());
}

#[test]
fn test_bytes_parser_missing_semicolon_message() {
    let data = b"Station1 25.5";
    let lines = split_into_lines_simd(data);
    match parse_records_bytes(&lines).unwrap_err() {
        WeatherError::InvalidFormat(msg) => {
            assert!(msg.contains("No semicolon delimiter found"));
        }
        _ => panic!("Expected InvalidFormat error"),
    }
}

#[test]
fn test_bytes_parser_empty_station_message() {
    let data = b";25.5";
    let lines = split_into_lines_simd(data);
    match parse_records_bytes(&lines).unwrap_err() {
        WeatherError::InvalidFormat(msg) => {
            assert!(msg.contains("Weather station name cannot be empty"));
        }
        _ => panic!("Expected InvalidFormat error"),
    }
}

#[test]
fn test_string_parser_column_count_message() {
    let data = b"Station1;25.5;extra";
    let lines = split_into_lines_simd(data);
    match parse_records_string(&lines).unwrap_err() {
        WeatherError::InvalidFormat(msg) => {
            assert!(msg.contains("Found 3 columns"));
        }
        _ => panic!("Expected InvalidFormat error"),
    }
    // the delimiter-seeking parser treats the rest of the line as the
    // temperature field instead
    match parse_records_bytes(&lines).unwrap_err() {
        WeatherError::Parse(msg) => {
            assert!(msg.contains("Cannot parse temperature"));
            assert!(msg.contains("25.5;extra"));
        }
        _ => panic!("Expected Parse error"),
    }
}

#[test]
fn test_parser_preserves_record_order() {
    let data = b"b;2\na;1\nb;3";
    let lines = split_into_lines_basic(data);
    let records = parse_records_string(&lines).unwrap();
    let names: Vec<&str> = records.iter().map(|r| r.station.as_str()).collect();
    assert_eq!(names, vec!["b", "a", "b"]);
    let table = aggregate_records_std(&records);
    let group = table_group(&table, "b");
    assert_eq!(group.temperatures, vec!["2".to_string(), "3".to_string()]);
}

#[test]
fn test_station_summary() {
    let data = b"north;1\nsouth-east;2\nnorth;3\nwest;4";
    let lines = split_into_lines_basic(data);
    let records = parse_records_string(&lines).unwrap();
    let (total, unique, longest) = station_summary(&records);
    assert_eq!(total, 4);
    assert_eq!(unique, 3);
    assert_eq!(longest, "south-east");
}
