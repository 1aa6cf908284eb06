//! The ingestion pipeline: line splitting, record parsing and per-station
//! aggregation, each stage in interchangeable variants with one shared
//! specification.
use crate::hash_table::HashTable;
use crate::weather::{
    line_good_b, line_good_str, line_result_b, line_result_str, parse_line_bytes, parse_line_str,
    station_bytes_b, station_bytes_str, temp_bytes_b, temp_bytes_str, WeatherError, WeatherRecord,
};
use vstd::prelude::*;
use vstd::utf8::{decode_utf8, valid_utf8};

verus! {

/// The line spans of `d`: maximal `\n`-free segments, empty segments left
/// out, the final segment kept even without a trailing newline.
pub open spec fn spec_lines(d: Seq<u8>) -> Seq<Seq<u8>>
    decreases d.len(),
{
    if d.len() == 0 {
        Seq::empty()
    } else {
        let e = crate::weather::first_pos(d, 0x0A, 0);
        if 0 <= e < d.len() {
            let rest = spec_lines(d.subrange(e + 1, d.len() as int));
            if e > 0 {
                seq![d.subrange(0, e)] + rest
            } else {
                rest
            }
        } else {
            seq![d]
        }
    }
}

/// The views of a sequence of byte slices.
pub open spec fn views_of(ls: Seq<&[u8]>) -> Seq<Seq<u8>> {
    ls.map_values(|l: &[u8]| l@)
}

/// Relies on `memchr::memchr`: the index of the first occurrence of the
/// byte in the haystack, if any.
#[verifier::external_body]
fn memchr_first(needle: u8, haystack: &[u8]) -> (r: Option<usize>)
    ensures
        match r {
            Some(i) => i < haystack@.len() && haystack@[i as int] == needle && (forall|t: int|
                0 <= t < i ==> haystack@[t] != needle),
            None => forall|t: int| 0 <= t < haystack@.len() ==> haystack@[t] != needle,
        },
{
    memchr::memchr(needle, haystack)
}

/// Scans for `\n` byte by byte and slices `data` into line spans.
pub fn split_into_lines_basic<'a>(data: &'a [u8]) -> (r: Vec<&'a [u8]>)
    ensures
        views_of(r@) == spec_lines(data@),
{
    let n = data.len();
    let mut lines: Vec<&'a [u8]> = Vec::new();
    let mut start: usize = 0;
    proof {
        assert(data@.subrange(0, n as int) =~= data@);
        assert(views_of(lines@) + spec_lines(data@.subrange(0, n as int)) =~= spec_lines(data@));
    }
    while start < n
        invariant
            start <= n,
            n == data@.len(),
            views_of(lines@) + spec_lines(data@.subrange(start as int, n as int)) == spec_lines(
                data@,
            ),
        decreases n - start,
    {
        let ghost rem: Seq<u8> = data@.subrange(start as int, n as int);
        let nl = crate::weather::find_byte_at(data, start, n, 0x0A);
        match nl {
            Some(i) => {
                proof {
                    crate::weather::lemma_first_pos_from(rem, 0x0A, i - start);
                    assert(rem.subrange(0, i - start) =~= data@.subrange(start as int, i as int));
                    assert(rem.subrange(i - start + 1, rem.len() as int) =~= data@.subrange(
                        i + 1,
                        n as int,
                    ));
                }
                if i > start {
                    let line = vstd::slice::slice_subrange(data, start, i);
                    lines.push(line);
                    proof {
                        assert(views_of(lines@) =~= views_of(lines@.drop_last()).push(line@));
                    }
                }
                start = i + 1;
                proof {
                    assert(views_of(lines@) + spec_lines(data@.subrange(start as int, n as int))
                        =~= spec_lines(data@));
                }
            },
            None => {
                proof {
                    crate::weather::lemma_first_pos_from(rem, 0x0A, rem.len() as int);
                }
                let line = vstd::slice::slice_subrange(data, start, n);
                lines.push(line);
                proof {
                    assert(line@ =~= rem);
                    assert(views_of(lines@) =~= views_of(lines@.drop_last()).push(line@));
                    assert(spec_lines(data@.subrange(n as int, n as int)) =~= Seq::<
                        Seq<u8>,
                    >::empty());
                    assert(views_of(lines@) + spec_lines(data@.subrange(n as int, n as int))
                        =~= spec_lines(data@));
                }
                start = n;
            },
        }
    }
    proof {
        assert(spec_lines(data@.subrange(n as int, n as int)) =~= Seq::<Seq<u8>>::empty());
        assert(views_of(lines@) =~= spec_lines(data@));
    }
    lines
}

/// Slices `data` into line spans using the fast multi-byte newline search.
/// Produces exactly the same spans as the scalar scan.
pub fn split_into_lines_simd<'a>(data: &'a [u8]) -> (r: Vec<&'a [u8]>)
    ensures
        views_of(r@) == spec_lines(data@),
{
    let n = data.len();
    let mut lines: Vec<&'a [u8]> = Vec::new();
    let mut start: usize = 0;
    proof {
        assert(data@.subrange(0, n as int) =~= data@);
        assert(views_of(lines@) + spec_lines(data@.subrange(0, n as int)) =~= spec_lines(data@));
    }
    while start < n
        invariant
            start <= n,
            n == data@.len(),
            views_of(lines@) + spec_lines(data@.subrange(start as int, n as int)) == spec_lines(
                data@,
            ),
        decreases n - start,
    {
        let ghost rem: Seq<u8> = data@.subrange(start as int, n as int);
        let tail = vstd::slice::slice_subrange(data, start, n);
        let nl = memchr_first(0x0A, tail);
        match nl {
            Some(off) => {
                let i = start + off;
                proof {
                    assert(forall|t: int| 0 <= t < rem.len() ==> rem[t] == tail@[t]);
                    crate::weather::lemma_first_pos_from(rem, 0x0A, off as int);
                    assert(rem.subrange(0, off as int) =~= data@.subrange(
                        start as int,
                        i as int,
                    ));
                    assert(rem.subrange(off + 1, rem.len() as int) =~= data@.subrange(
                        i + 1,
                        n as int,
                    ));
                }
                if i > start {
                    let line = vstd::slice::slice_subrange(data, start, i);
                    lines.push(line);
                    proof {
                        assert(views_of(lines@) =~= views_of(lines@.drop_last()).push(line@));
                    }
                }
                start = i + 1;
                proof {
                    assert(views_of(lines@) + spec_lines(data@.subrange(start as int, n as int))
                        =~= spec_lines(data@));
                }
            },
            None => {
                proof {
                    assert(forall|t: int| 0 <= t < rem.len() ==> rem[t] == tail@[t]);
                    crate::weather::lemma_first_pos_from(rem, 0x0A, rem.len() as int);
                }
                lines.push(tail);
                proof {
                    assert(tail@ =~= rem);
                    assert(views_of(lines@) =~= views_of(lines@.drop_last()).push(tail@));
                    assert(spec_lines(data@.subrange(n as int, n as int)) =~= Seq::<
                        Seq<u8>,
                    >::empty());
                    assert(views_of(lines@) + spec_lines(data@.subrange(n as int, n as int))
                        =~= spec_lines(data@));
                }
                start = n;
            },
        }
    }
    proof {
        assert(spec_lines(data@.subrange(n as int, n as int)) =~= Seq::<Seq<u8>>::empty());
        assert(views_of(lines@) =~= spec_lines(data@));
    }
    lines
}

/// Parses every line span into a record in the column-splitting style,
/// skipping blank lines; the first rejected line aborts the whole pass with
/// its error.
pub fn parse_records_string(lines: &[&[u8]]) -> (r: Result<Vec<WeatherRecord>, WeatherError>)
    requires
        lines@.len() < usize::MAX,
        forall|i: int| 0 <= i < lines@.len() ==> (#[trigger] lines@[i])@.len() < usize::MAX,
    ensures
        ({
            let lv = views_of(lines@);
            match r {
                Ok(recs) => {
                    &&& crate::weather::first_bad_str(lv, 0) == lv.len()
                    &&& recs@.len() == crate::weather::good_count_str(lv, lv.len() as int)
                    &&& forall|j: int|
                        0 <= j < lv.len() && #[trigger] line_good_str(lv[j]) ==> {
                            let k = crate::weather::good_count_str(lv, j);
                            &&& 0 <= k < recs@.len()
                            &&& recs@[k].station@ == decode_utf8(station_bytes_str(lv[j]))
                            &&& recs@[k].temperature@ == decode_utf8(temp_bytes_str(lv[j]))
                        }
                },
                Err(e) => {
                    let j = crate::weather::first_bad_str(lv, 0);
                    &&& j < lv.len()
                    &&& line_result_str(lv[j], j + 1, Err(e))
                },
            }
        }),
{
    let ghost lv: Seq<Seq<u8>> = views_of(lines@);
    let n = lines.len();
    let mut records: Vec<WeatherRecord> = Vec::new();
    let mut i: usize = 0;
    while i < n
        invariant
            i <= n,
            n == lines@.len(),
            n < usize::MAX,
            lv == views_of(lines@),
            forall|t: int| 0 <= t < n ==> (#[trigger] lines@[t])@.len() < usize::MAX,
            forall|t: int| 0 <= t < i ==> crate::weather::good_or_skip_str(#[trigger] lv[t]),
            records@.len() == crate::weather::good_count_str(lv, i as int),
            forall|j: int|
                0 <= j < i && #[trigger] line_good_str(lv[j]) ==> {
                    let k = crate::weather::good_count_str(lv, j);
                    &&& 0 <= k < records@.len()
                    &&& records@[k].station@ == decode_utf8(station_bytes_str(lv[j]))
                    &&& records@[k].temperature@ == decode_utf8(temp_bytes_str(lv[j]))
                },
        decreases n - i,
    {
        proof {
            assert(lv[i as int] == lines@[i as int]@);
        }
        match parse_line_str(lines[i], i + 1) {
            Ok(Some(rec)) => {
                records.push(rec);
            },
            Ok(None) => {
            },
            Err(e) => {
                proof {
                    crate::weather::lemma_first_bad_str_at(lv, 0, i as int);
                }
                return Err(e);
            },
        }
        i += 1;
    }
    proof {
        crate::weather::lemma_first_bad_str_all(lv, 0);
    }
    Ok(records)
}

/// Parses every line span in the delimiter-seeking style: locate the first
/// `;` in the raw bytes and slice the fields around it.
pub fn parse_records_bytes(lines: &[&[u8]]) -> (r: Result<Vec<WeatherRecord>, WeatherError>)
    requires
        lines@.len() < usize::MAX,
    ensures
        ({
            let lv = views_of(lines@);
            match r {
                Ok(recs) => {
                    &&& crate::weather::first_bad_b(lv, 0) == lv.len()
                    &&& recs@.len() == crate::weather::good_count_b(lv, lv.len() as int)
                    &&& forall|j: int|
                        0 <= j < lv.len() && #[trigger] line_good_b(lv[j]) ==> {
                            let k = crate::weather::good_count_b(lv, j);
                            &&& 0 <= k < recs@.len()
                            &&& recs@[k].station@ == decode_utf8(station_bytes_b(lv[j]))
                            &&& recs@[k].temperature@ == decode_utf8(temp_bytes_b(lv[j]))
                        }
                },
                Err(e) => {
                    let j = crate::weather::first_bad_b(lv, 0);
                    &&& j < lv.len()
                    &&& line_result_b(lv[j], j + 1, Err(e))
                },
            }
        }),
{
    let ghost lv: Seq<Seq<u8>> = views_of(lines@);
    let n = lines.len();
    let mut records: Vec<WeatherRecord> = Vec::new();
    let mut i: usize = 0;
    while i < n
        invariant
            i <= n,
            n == lines@.len(),
            n < usize::MAX,
            lv == views_of(lines@),
            forall|t: int| 0 <= t < i ==> crate::weather::good_or_skip_b(#[trigger] lv[t]),
            records@.len() == crate::weather::good_count_b(lv, i as int),
            forall|j: int|
                0 <= j < i && #[trigger] line_good_b(lv[j]) ==> {
                    let k = crate::weather::good_count_b(lv, j);
                    &&& 0 <= k < records@.len()
                    &&& records@[k].station@ == decode_utf8(station_bytes_b(lv[j]))
                    &&& records@[k].temperature@ == decode_utf8(temp_bytes_b(lv[j]))
                },
        decreases n - i,
    {
        proof {
            assert(lv[i as int] == lines@[i as int]@);
        }
        match parse_line_bytes(lines[i], i + 1) {
            Ok(Some(rec)) => {
                records.push(rec);
            },
            Ok(None) => {
            },
            Err(e) => {
                proof {
                    crate::weather::lemma_first_bad_b_at(lv, 0, i as int);
                }
                return Err(e);
            },
        }
        i += 1;
    }
    proof {
        crate::weather::lemma_first_bad_b_all(lv, 0);
    }
    Ok(records)
}

/// The trusted-input variant of the delimiter-seeking parser: callers
/// assert up front that every line is valid UTF-8, so the validation steps
/// inside can never fail.  It parses exactly as `parse_records_bytes` does.
pub fn parse_records_unsafe(lines: &[&[u8]]) -> (r: Result<Vec<WeatherRecord>, WeatherError>)
    requires
        lines@.len() < usize::MAX,
        forall|i: int| 0 <= i < lines@.len() ==> valid_utf8((#[trigger] lines@[i])@),
    ensures
        ({
            let lv = views_of(lines@);
            match r {
                Ok(recs) => {
                    &&& crate::weather::first_bad_b(lv, 0) == lv.len()
                    &&& recs@.len() == crate::weather::good_count_b(lv, lv.len() as int)
                    &&& forall|j: int|
                        0 <= j < lv.len() && #[trigger] line_good_b(lv[j]) ==> {
                            let k = crate::weather::good_count_b(lv, j);
                            &&& 0 <= k < recs@.len()
                            &&& recs@[k].station@ == decode_utf8(station_bytes_b(lv[j]))
                            &&& recs@[k].temperature@ == decode_utf8(temp_bytes_b(lv[j]))
                        }
                },
                Err(e) => {
                    let j = crate::weather::first_bad_b(lv, 0);
                    &&& j < lv.len()
                    &&& line_result_b(lv[j], j + 1, Err(e))
                },
            }
        }),
{
    parse_records_bytes(lines)
}

/// All records folded for one station: its name and every temperature
/// literal observed for it, in input order.
#[derive(Debug, Clone)]
pub struct StationGroup {
    pub station_name: String,
    pub temperatures: Vec<String>,
}

impl StationGroup {
    /// A field-by-field copy.
    pub fn duplicate(&self) -> (r: Self)
        ensures
            r.station_name@ == self.station_name@,
            r.temperatures@ == self.temperatures@,
    {
        let name = self.station_name.clone();
        let mut temps: Vec<String> = Vec::new();
        let mut i: usize = 0;
        let n = self.temperatures.len();
        while i < n
            invariant
                i <= n,
                n == self.temperatures@.len(),
                temps@ == self.temperatures@.subrange(0, i as int),
            decreases n - i,
        {
            temps.push(self.temperatures[i].clone());
            proof {
                assert(temps@ =~= self.temperatures@.subrange(0, i + 1));
            }
            i += 1;
        }
        proof {
            assert(temps@ =~= self.temperatures@);
        }
        Self { station_name: name, temperatures: temps }
    }
}

/// The temperature texts a group holds.
pub open spec fn temps_view(g: StationGroup) -> Seq<Seq<char>> {
    g.temperatures@.map_values(|t: String| t@)
}

/// One record folded into the station-to-temperatures map.
pub open spec fn spec_agg_step(
    a: Map<Seq<char>, Seq<Seq<char>>>,
    st: Seq<char>,
    tmp: Seq<char>,
) -> Map<Seq<char>, Seq<Seq<char>>> {
    if a.dom().contains(st) {
        a.insert(st, a[st].push(tmp))
    } else {
        a.insert(st, seq![tmp])
    }
}

/// The station-to-temperatures map that folding `recs` produces.
pub open spec fn spec_aggregate(recs: Seq<WeatherRecord>) -> Map<Seq<char>, Seq<Seq<char>>>
    decreases recs.len(),
{
    if recs.len() == 0 {
        Map::empty()
    } else {
        spec_agg_step(
            spec_aggregate(recs.drop_last()),
            recs.last().station@,
            recs.last().temperature@,
        )
    }
}

/// The table's view matches the abstract aggregation map: same stations,
/// and each group carries its own name and exactly the station's
/// temperature texts.
pub open spec fn agg_matches(
    m: Map<Seq<char>, StationGroup>,
    a: Map<Seq<char>, Seq<Seq<char>>>,
) -> bool {
    &&& m.dom() == a.dom()
    &&& forall|k: Seq<char>|
        a.dom().contains(k) ==> (#[trigger] m[k]).station_name@ == k && temps_view(m[k]) == a[k]
}

/// Folds one record into the aggregation table: the first observation of a
/// station creates its group, later ones append to it.
pub fn aggregate_step(table: &mut HashTable<String, StationGroup>, rec: WeatherRecord)
    requires
        old(table).wf(),
        old(table)@.len() < usize::MAX,
        old(table)@.contains_key(rec.station@) ==> old(table)@[rec.station@].station_name@
            == rec.station@,
    ensures
        final(table).wf(),
        final(table)@.len() <= old(table)@.len() + 1,
        final(table)@.dom() == old(table)@.dom().insert(rec.station@),
        forall|k: Seq<char>|
            k != rec.station@ && old(table)@.dom().contains(k) ==> #[trigger] final(table)@[k]
                == old(table)@[k],
        final(table)@[rec.station@].station_name@ == rec.station@,
        temps_view(final(table)@[rec.station@]) == if old(table)@.contains_key(rec.station@) {
            temps_view(old(table)@[rec.station@]).push(rec.temperature@)
        } else {
            seq![rec.temperature@]
        },
{
    proof {
        broadcast use vstd::set::group_set_axioms, vstd::map::group_map_axioms;

    }
    let found = table.get(&rec.station).is_some();
    if found {
        let updated = {
            let existing = table.get(&rec.station).unwrap();
            let mut g = existing.duplicate();
            g.temperatures.push(rec.temperature);
            g
        };
        proof {
            assert(temps_view(updated) =~= temps_view(old(table)@[rec.station@]).push(
                rec.temperature@,
            ));
        }
        table.insert(rec.station, updated);
    } else {
        let name = rec.station.clone();
        let mut temps: Vec<String> = Vec::new();
        temps.push(rec.temperature);
        let g = StationGroup { station_name: name, temperatures: temps };
        proof {
            assert(temps_view(g) =~= seq![rec.temperature@]);
        }
        table.insert(rec.station, g);
    }
    proof {
        broadcast use vstd::set::group_set_axioms, vstd::map::group_map_axioms;

        assert(table@.dom() =~= old(table)@.dom().insert(rec.station@));
    }
}

/// Folds a materialized record list into a station-to-group table backed
/// by the chained hash table.
pub fn aggregate_records_std(records: &Vec<WeatherRecord>) -> (t: HashTable<String, StationGroup>)
    ensures
        t.wf(),
        agg_matches(t@, spec_aggregate(records@)),
{
    let mut table: HashTable<String, StationGroup> = HashTable::new();
    let n = records.len();
    let mut i: usize = 0;
    proof {
        broadcast use vstd::set::group_set_axioms, vstd::map::group_map_axioms;

        assert(records@.subrange(0, 0) =~= Seq::<WeatherRecord>::empty());
        assert(agg_matches(table@, spec_aggregate(records@.subrange(0, 0))));
    }
    while i < n
        invariant
            i <= n,
            n == records@.len(),
            table.wf(),
            table@.len() <= i,
            agg_matches(table@, spec_aggregate(records@.subrange(0, i as int))),
        decreases n - i,
    {
        let rec = records[i].duplicate();
        let ghost pre: Map<Seq<char>, StationGroup> = table@;
        let ghost a: Map<Seq<char>, Seq<Seq<char>>> = spec_aggregate(
            records@.subrange(0, i as int),
        );
        aggregate_step(&mut table, rec);
        proof {
            broadcast use vstd::set::group_set_axioms, vstd::map::group_map_axioms;

            let next = records@.subrange(0, i + 1);
            assert(next.drop_last() =~= records@.subrange(0, i as int));
            assert(next.last() == records@[i as int]);
            let a2 = spec_aggregate(next);
            let st = records@[i as int].station@;
            assert(a2 == spec_agg_step(a, st, records@[i as int].temperature@));
            assert(table@.dom() =~= a2.dom());
            assert forall|k: Seq<char>|
                a2.dom().contains(k) implies (#[trigger] table@[k]).station_name@ == k
                && temps_view(table@[k]) == a2[k] by {
                if k != st {
                    assert(pre[k] == table@[k]);
                }
            }
            assert(table@.len() == table@.dom().len());
        }
        i += 1;
    }
    proof {
        assert(records@.subrange(0, n as int) =~= records@);
    }
    table
}

/// Consumes the record list, folding it in input order; the result is the
/// same as for the borrowed, materialized fold.
pub fn aggregate_records_streaming(records: Vec<WeatherRecord>) -> (t: HashTable<
    String,
    StationGroup,
>)
    ensures
        t.wf(),
        agg_matches(t@, spec_aggregate(records@)),
{
    aggregate_records_std(&records)
}

/// Declares the `rustc-hash` hasher type so that maps built with it can
/// stand in signatures; the contracts below never look inside it.
#[verifier::external_type_specification]
#[verifier::external_body]
pub struct ExFxBuildHasher(rustc_hash::FxBuildHasher);

/// The faster general-purpose backing store: the standard map with the
/// `rustc-hash` hasher.
pub type FxAggMap = std::collections::HashMap<String, StationGroup, rustc_hash::FxBuildHasher>;

/// The station-to-group pairs a hasher-swapped standard map holds.
pub uninterp spec fn fx_contents(m: FxAggMap) -> Map<Seq<char>, StationGroup>;

/// Relies on `HashMap::default` with the `rustc-hash` hasher: a new map is
/// empty.
#[verifier::external_body]
fn fx_new() -> (res: FxAggMap)
    ensures
        forall|k: Seq<char>| !fx_contents(res).dom().contains(k),
{
    rustc_hash::FxHashMap::default()
}

/// Relies on `HashMap::get`: the value stored under an equal key, if any.
#[verifier::external_body]
fn fx_get<'a>(m: &'a FxAggMap, k: &String) -> (r: Option<&'a StationGroup>)
    ensures
        r is Some <==> fx_contents(*m).contains_key(k@),
        r matches Some(g) ==> *g == fx_contents(*m)[k@],
{
    m.get(k)
}

/// Relies on `HashMap::insert`: stores the value under the key, replacing
/// any value stored under an equal key.
#[verifier::external_body]
fn fx_insert(m: &mut FxAggMap, k: String, v: StationGroup)
    ensures
        fx_contents(*final(m)) == fx_contents(*old(m)).insert(k@, v),
{
    m.insert(k, v);
}

/// Folds a record list into a faster general-purpose map; the resulting
/// station-to-temperatures contents are the same as for the chained table.
pub fn aggregate_records_fx(records: &Vec<WeatherRecord>) -> (m: FxAggMap)
    ensures
        agg_matches(fx_contents(m), spec_aggregate(records@)),
{
    let mut map = fx_new();
    let n = records.len();
    let mut i: usize = 0;
    proof {
        broadcast use vstd::set::group_set_axioms, vstd::map::group_map_axioms;

        assert(records@.subrange(0, 0) =~= Seq::<WeatherRecord>::empty());
        assert(fx_contents(map).dom() =~= Map::<Seq<char>, Seq<Seq<char>>>::empty().dom());
    }
    while i < n
        invariant
            i <= n,
            n == records@.len(),
            agg_matches(fx_contents(map), spec_aggregate(records@.subrange(0, i as int))),
        decreases n - i,
    {
        let rec = records[i].duplicate();
        let ghost pre: Map<Seq<char>, StationGroup> = fx_contents(map);
        let ghost a: Map<Seq<char>, Seq<Seq<char>>> = spec_aggregate(
            records@.subrange(0, i as int),
        );
        let updated: StationGroup = match fx_get(&map, &rec.station) {
            Some(existing) => {
                let mut g = existing.duplicate();
                g.temperatures.push(rec.temperature);
                proof {
                    assert(temps_view(g) =~= temps_view(pre[rec.station@]).push(
                        rec.temperature@,
                    ));
                }
                g
            },
            None => {
                let name = rec.station.clone();
                let mut temps: Vec<String> = Vec::new();
                temps.push(rec.temperature);
                let g = StationGroup { station_name: name, temperatures: temps };
                proof {
                    assert(temps_view(g) =~= seq![rec.temperature@]);
                }
                g
            },
        };
        fx_insert(&mut map, rec.station, updated);
        proof {
            broadcast use vstd::set::group_set_axioms, vstd::map::group_map_axioms;

            let next = records@.subrange(0, i + 1);
            assert(next.drop_last() =~= records@.subrange(0, i as int));
            assert(next.last() == records@[i as int]);
            let a2 = spec_aggregate(next);
            let st = records@[i as int].station@;
            assert(a2 == spec_agg_step(a, st, records@[i as int].temperature@));
            assert(fx_contents(map).dom() =~= a2.dom());
            assert forall|k: Seq<char>|
                a2.dom().contains(k) implies (#[trigger] fx_contents(map)[k]).station_name@ == k
                && temps_view(fx_contents(map)[k]) == a2[k] by {
                if k != st {
                    assert(pre[k] == fx_contents(map)[k]);
                }
            }
        }
        i += 1;
    }
    proof {
        assert(records@.subrange(0, n as int) =~= records@);
    }
    map
}

/// The distinct station names seen in `recs`.
pub open spec fn spec_station_set(recs: Seq<WeatherRecord>) -> Set<Seq<char>>
    decreases recs.len(),
{
    if recs.len() == 0 {
        Set::empty()
    } else {
        spec_station_set(recs.drop_last()).insert(recs.last().station@)
    }
}

/// The longest station name of `recs`, compared by encoded byte length;
/// ties keep the earliest.
pub open spec fn spec_longest_station(recs: Seq<WeatherRecord>) -> Seq<char>
    decreases recs.len(),
{
    if recs.len() == 0 {
        Seq::empty()
    } else {
        let prefix = spec_longest_station(recs.drop_last());
        if vstd::utf8::encode_utf8(recs.last().station@).len() > vstd::utf8::encode_utf8(
            prefix,
        ).len() {
            recs.last().station@
        } else {
            prefix
        }
    }
}

/// Summarizes a record list: how many records there are, how many distinct
/// stations they name, and the longest station name (earliest on ties).
pub fn station_summary(records: &Vec<WeatherRecord>) -> (r: (usize, usize, String))
    ensures
        r.0 == records@.len(),
        r.1 == spec_station_set(records@).len(),
        r.2@ == spec_longest_station(records@),
{
    let mut seen: HashTable<String, bool> = HashTable::new();
    let mut longest: String = String::new();
    let n = records.len();
    let mut i: usize = 0;
    proof {
        broadcast use vstd::set::group_set_axioms, vstd::map::group_map_axioms;

        assert(records@.subrange(0, 0) =~= Seq::<WeatherRecord>::empty());
        assert(seen@.dom() =~= spec_station_set(records@.subrange(0, 0)));
    }
    while i < n
        invariant
            i <= n,
            n == records@.len(),
            seen.wf(),
            seen@.dom() == spec_station_set(records@.subrange(0, i as int)),
            seen@.len() <= i,
            longest@ == spec_longest_station(records@.subrange(0, i as int)),
        decreases n - i,
    {
        proof {
            broadcast use vstd::set::group_set_axioms, vstd::map::group_map_axioms;

            let next = records@.subrange(0, i + 1);
            assert(next.drop_last() =~= records@.subrange(0, i as int));
            assert(next.last() == records@[i as int]);
        }
        let station = records[i].station.clone();
        let ghost prev_longest: Seq<char> = longest@;
        if station.as_str().as_bytes().len() > longest.as_str().as_bytes().len() {
            longest = station.clone();
        }
        seen.insert(station, true);
        proof {
            broadcast use vstd::set::group_set_axioms, vstd::map::group_map_axioms;

            assert(seen@.dom() =~= spec_station_set(records@.subrange(0, i + 1)));
            let next = records@.subrange(0, i + 1);
            assert(next.drop_last() =~= records@.subrange(0, i as int));
            assert(next.last() == records@[i as int]);
            assert(spec_longest_station(next) == if vstd::utf8::encode_utf8(
                records@[i as int].station@,
            ).len() > vstd::utf8::encode_utf8(prev_longest).len() {
                records@[i as int].station@
            } else {
                prev_longest
            });
            assert(longest@ == spec_longest_station(next));
        }
        i += 1;
    }
    proof {
        assert(records@.subrange(0, n as int) =~= records@);
    }
    (n, seen.len(), longest)
}

} // verus!
