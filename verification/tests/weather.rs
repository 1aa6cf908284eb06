use obr::weather::{WeatherCsvReader, WeatherError, WeatherRecord};

fn reader_for(data: &str) -> WeatherCsvReader {
    WeatherCsvReader::from_bytes(data.as_bytes().to_vec())
}

fn temp_of(rec: &WeatherRecord) -> f64 {
    rec.temperature.parse::<f64>().unwrap()
}

#[test]
fn test_weather_record_creation() {
    let record = WeatherRecord::new("Station1".to_string(), "25.5".to_string());
    assert_eq!(record.station, "Station1");
    assert_eq!(temp_of(&record), 25.5);
}

#[test]
fn test_parse_valid_csv() {
    let csv_data = "Station1;25.5\nStation2;-10.2\nStation3;0.0";
    let reader = reader_for(csv_data);

    let records = reader.read_all().unwrap();
    assert_eq!(records.len(), 3);

    assert_eq!(records[0].station, "Station1");
    assert_eq!(temp_of(&records[0]), 25.5);

    assert_eq!(records[1].station, "Station2");
    assert_eq!(temp_of(&records[1]), -10.2);

    assert_eq!(records[2].station, "Station3");
    assert_eq!(temp_of(&records[2]), 0.0);
}

#[test]
fn test_parse_with_whitespace() {
    let csv_data = "  Station1  ;  25.5  \n  Station2  ;  -10.2  ";
    let reader = reader_for(csv_data);

    let records = reader.read_all().unwrap();
    assert_eq!(records.len(), 2);

    assert_eq!(records[0].station, "Station1");
    assert_eq!(temp_of(&records[0]), 25.5);
}

#[test]
fn test_parse_with_empty_lines() {
    let csv_data = "Station1;25.5\n\n\nStation2;-10.2\n\n";
    let reader = reader_for(csv_data);

    let records = reader.read_all().unwrap();
    assert_eq!(records.len(), 2);

    assert_eq!(records[0].station, "Station1");
    assert_eq!(records[1].station, "Station2");
}

#[test]
fn test_invalid_format_missing_semicolon() {
    let csv_data = "Station1 25.5";
    let reader = reader_for(csv_data);

    let result = reader.read_all();
    assert!(result.is_err());

    match result.unwrap_err() {
        WeatherError::InvalidFormat(msg) => {
            assert!(msg.contains("does not have exactly 2 columns"));
        }
        _ => panic!("Expected InvalidFormat error"),
    }
}

#[test]
fn test_invalid_format_too_many_columns() {
    let csv_data = "Station1;25.5;extra";
    let reader = reader_for(csv_data);

    let result = reader.read_all();
    assert!(result.is_err());

    match result.unwrap_err() {
        WeatherError::InvalidFormat(msg) => {
            assert!(msg.contains("Found 3 columns"));
        }
        _ => panic!("Expected InvalidFormat error"),
    }
}

#[test]
fn test_invalid_temperature() {
    let csv_data = "Station1;not_a_number";
    let reader = reader_for(csv_data);

    let result = reader.read_all();
    assert!(result.is_err());

    match result.unwrap_err() {
        WeatherError::Parse(msg) => {
            assert!(msg.contains("Cannot parse temperature"));
        }
        _ => panic!("Expected Parse error"),
    }
}

#[test]
fn test_empty_station_name() {
    let csv_data = ";25.5";
    let reader = reader_for(csv_data);

    let result = reader.read_all();
    assert!(result.is_err());

    match result.unwrap_err() {
        WeatherError::InvalidFormat(msg) => {
            assert!(msg.contains("Weather station name cannot be empty"));
        }
        _ => panic!("Expected InvalidFormat error"),
    }
}

#[test]
fn test_iterator() {
    let csv_data = "Station1;25.5\nStation2;-10.2";
    let reader = reader_for(csv_data);

    let mut count = 0;
    let mut iter = reader.records();
    while let Some(record) = iter.next() {
        let record = record.unwrap();
        count += 1;
        assert!(!record.station.is_empty());
    }
    assert_eq!(count, 2);
}

#[test]
fn test_error_carries_line_number() {
    let csv_data = "Station1;25.5\n\nStation2;bad\n";
    let reader = reader_for(csv_data);

    match reader.read_all().unwrap_err() {
        WeatherError::Parse(msg) => {
            assert!(msg.contains("Line 3"));
            assert!(msg.contains("'bad'"));
        }
        _ => panic!("Expected Parse error"),
    }
}

#[test]
fn test_iterator_reports_physical_line_numbers() {
    let csv_data = "\n\nStation1 25.5";
    let reader = reader_for(csv_data);
    let mut iter = reader.records();
    match iter.next() {
        Some(Err(WeatherError::InvalidFormat(msg))) => {
            assert!(msg.contains("Line 3"));
        }
        _ => panic!("Expected InvalidFormat error"),
    }
    assert!(iter.next().is_none());
}

#[test]
fn test_float_grammar_matches_std_parsing() {
    let candidates = [
        "25.5", "-10.2", "0.0", "5.", ".5", "+1", "-1", "1e5", "1E5", "1e+5", "1e-5", "3.25e2",
        ".5e1", "5.e1", "inf", "-inf", "+infinity", "nan", "NaN", "INF", "Infinity", "", ".",
        "+", "-", "e5", "1e", "1e+", "1..2", "1.2.3", "--5", "+-5", "1 2", "abc", "0x10",
        "in", "infin", "nana", "5e5e5",
    ];
    for text in candidates {
        let reader = reader_for(&format!("Station;{}", text));
        let parsed = reader.read_all();
        let std_ok = text.trim().parse::<f64>().is_ok() && !text.trim().is_empty();
        assert_eq!(
            parsed.is_ok(),
            std_ok,
            "grammar disagreement on {:?}",
            text
        );
    }
}

#[test]
fn test_error_from_io() {
    let io_error = std::io::Error::new(std::io::ErrorKind::NotFound, "missing");
    match WeatherError::from(io_error) {
        WeatherError::Io(_) => {}
        _ => panic!("Expected Io error"),
    }
}
