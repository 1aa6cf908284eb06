//! Weather observation records and the line-level parsing rules.
//!
//! A line of input is `station;temperature`.  Whitespace around each field
//! is ignored, the station name must be non-empty and the temperature must
//! be a decimal floating-point literal.  All structural work here is done
//! on raw bytes and verified; a record keeps the temperature as its
//! validated literal text, so that numeric evaluation stays with callers.
use vstd::prelude::*;
use vstd::string::StringExecFns;
use vstd::utf8::{decode_utf8, valid_utf8};

verus! {

/// One parsed observation: the station name and the validated temperature
/// literal exactly as it appeared (trimmed) on the line.
#[derive(Debug, Clone)]
pub struct WeatherRecord {
    pub station: String,
    pub temperature: String,
}

impl WeatherRecord {
    pub fn new(station: String, temperature: String) -> (r: Self)
        ensures
            r.station == station,
            r.temperature == temperature,
    {
        Self { station, temperature }
    }

    /// A field-by-field copy.
    pub fn duplicate(&self) -> (r: Self)
        ensures
            r.station@ == self.station@,
            r.temperature@ == self.temperature@,
    {
        Self { station: self.station.clone(), temperature: self.temperature.clone() }
    }
}

/// Declares the standard I/O error type so that `WeatherError` can carry
/// one; nothing in the library inspects it.
#[verifier::external_type_specification]
#[verifier::external_body]
pub struct ExIoError(std::io::Error);

/// What can go wrong while reading and parsing observations.
#[derive(Debug)]
pub enum WeatherError {
    Io(std::io::Error),
    Parse(String),
    InvalidFormat(String),
}

impl From<std::io::Error> for WeatherError {
    fn from(error: std::io::Error) -> (r: Self) {
        WeatherError::Io(error)
    }
}

impl vstd::std_specs::convert::FromSpecImpl<std::io::Error> for WeatherError {
    open spec fn obeys_from_spec() -> bool {
        true
    }

    open spec fn from_spec(error: std::io::Error) -> Self {
        WeatherError::Io(error)
    }
}

/// Whether `b` is an ASCII whitespace byte (the bytes that field trimming
/// removes).
pub open spec fn is_space(b: u8) -> bool {
    b == 0x20 || (0x09 <= b <= 0x0D)
}

fn is_space_byte(b: u8) -> (r: bool)
    ensures
        r == is_space(b),
{
    b == 0x20 || (0x09 <= b && b <= 0x0D)
}

/// The first index at or after `i` holding a non-whitespace byte, or the
/// length if there is none.
pub open spec fn next_non_space(s: Seq<u8>, i: int) -> int
    decreases s.len() - i,
{
    if i < 0 || i >= s.len() {
        s.len() as int
    } else if !is_space(s[i]) {
        i
    } else {
        next_non_space(s, i + 1)
    }
}

/// The end (exclusive) of the last non-whitespace byte strictly below `i`,
/// or 0 if there is none.
pub open spec fn prev_non_space_end(s: Seq<u8>, i: int) -> int
    decreases i,
{
    if i <= 0 {
        0
    } else if i > s.len() {
        prev_non_space_end(s, s.len() as int)
    } else if !is_space(s[i - 1]) {
        i
    } else {
        prev_non_space_end(s, i - 1)
    }
}

/// `s` with leading and trailing whitespace bytes removed.
pub open spec fn spec_trim(s: Seq<u8>) -> Seq<u8> {
    let a = next_non_space(s, 0);
    if a == s.len() {
        Seq::empty()
    } else {
        s.subrange(a, prev_non_space_end(s, s.len() as int))
    }
}

proof fn lemma_next_non_space_bounds(s: Seq<u8>, i: int)
    requires
        0 <= i <= s.len(),
    ensures
        i <= next_non_space(s, i) <= s.len(),
        forall|t: int| i <= t < next_non_space(s, i) ==> is_space(s[t]),
        next_non_space(s, i) < s.len() ==> !is_space(s[next_non_space(s, i)]),
    decreases s.len() - i,
{
    if i < s.len() && is_space(s[i]) {
        lemma_next_non_space_bounds(s, i + 1);
    }
}

proof fn lemma_prev_non_space_bounds(s: Seq<u8>, i: int)
    requires
        0 <= i <= s.len(),
    ensures
        0 <= prev_non_space_end(s, i) <= i,
        forall|t: int| prev_non_space_end(s, i) <= t < i ==> is_space(s[t]),
        prev_non_space_end(s, i) > 0 ==> !is_space(s[prev_non_space_end(s, i) - 1]),
    decreases i,
{
    if i > 0 && is_space(s[i - 1]) {
        lemma_prev_non_space_bounds(s, i - 1);
    }
}

/// If a non-whitespace byte exists at `a < i`, the backward scan stops
/// after it.
proof fn lemma_prev_past_non_space(s: Seq<u8>, i: int, a: int)
    requires
        0 <= a < i <= s.len(),
        !is_space(s[a]),
    ensures
        prev_non_space_end(s, i) > a,
    decreases i,
{
    if i - 1 > a && is_space(s[i - 1]) {
        lemma_prev_past_non_space(s, i - 1, a);
    }
}

/// Finds the bounds of `line[from..to]` after trimming whitespace:
/// `spec_trim` of that range is exactly `line[r.0..r.1]`.
fn trim_range(line: &[u8], from: usize, to: usize) -> (r: (usize, usize))
    requires
        from <= to <= line@.len(),
    ensures
        from <= r.0 <= r.1 <= to,
        spec_trim(line@.subrange(from as int, to as int)) == line@.subrange(
            r.0 as int,
            r.1 as int,
        ),
{
    let ghost sub: Seq<u8> = line@.subrange(from as int, to as int);
    let mut a: usize = from;
    while a < to && is_space_byte(line[a])
        invariant
            from <= a <= to <= line@.len(),
            sub == line@.subrange(from as int, to as int),
            next_non_space(sub, 0) == next_non_space(sub, a - from),
        decreases to - a,
    {
        proof {
            assert(sub[a - from] == line@[a as int]);
        }
        a += 1;
    }
    proof {
        lemma_next_non_space_bounds(sub, 0);
        if a < to {
            assert(sub[a - from] == line@[a as int]);
            assert(next_non_space(sub, a - from) == a - from);
        } else {
            assert(next_non_space(sub, a - from) == sub.len());
        }
    }
    if a == to {
        proof {
            assert(spec_trim(sub) =~= line@.subrange(to as int, to as int));
        }
        return (to, to);
    }
    let mut b: usize = to;
    while b > a && is_space_byte(line[b - 1])
        invariant
            from <= a < b + 1,
            b <= to <= line@.len(),
            a < to,
            sub == line@.subrange(from as int, to as int),
            prev_non_space_end(sub, sub.len() as int) == prev_non_space_end(sub, b - from),
        decreases b,
    {
        proof {
            assert(sub[b - from - 1] == line@[b - 1]);
        }
        b -= 1;
    }
    proof {
        assert(!is_space(sub[a - from]));
        lemma_prev_past_non_space(sub, sub.len() as int, a - from);
        lemma_prev_non_space_bounds(sub, b - from);
        assert(b > a);
        assert(sub[b - from - 1] == line@[b - 1]);
        assert(prev_non_space_end(sub, b - from) == b - from);
        assert(next_non_space(sub, 0) == a - from);
        assert(spec_trim(sub) =~= line@.subrange(a as int, b as int));
    }
    (a, b)
}

/// The index of the first occurrence of `needle` in `s[from..to]`, if any.
pub fn find_byte_at(s: &[u8], from: usize, to: usize, needle: u8) -> (r: Option<usize>)
    requires
        from <= to <= s@.len(),
    ensures
        match r {
            Some(i) => from <= i < to && s@[i as int] == needle && (forall|t: int|
                from <= t < i ==> s@[t] != needle),
            None => forall|t: int| from <= t < to ==> s@[t] != needle,
        },
{
    let mut i: usize = from;
    while i < to
        invariant
            from <= i <= to <= s@.len(),
            forall|t: int| from <= t < i ==> s@[t] != needle,
        decreases to - i,
    {
        if s[i] == needle {
            return Some(i);
        }
        i += 1;
    }
    None
}

/// The number of occurrences of `needle` in `s[from..to]`.
pub open spec fn count_byte(s: Seq<u8>, needle: u8) -> int
    decreases s.len(),
{
    if s.len() == 0 {
        0
    } else {
        count_byte(s.drop_last(), needle) + if s.last() == needle {
            1int
        } else {
            0int
        }
    }
}

fn count_byte_in(s: &[u8], from: usize, to: usize, needle: u8) -> (r: usize)
    requires
        from <= to <= s@.len(),
        to - from < usize::MAX,
    ensures
        r == count_byte(s@.subrange(from as int, to as int), needle),
        r <= to - from,
{
    let mut i: usize = from;
    let mut count: usize = 0;
    while i < to
        invariant
            from <= i <= to <= s@.len(),
            count == count_byte(s@.subrange(from as int, i as int), needle),
            count <= i - from,
        decreases to - i,
    {
        proof {
            let pre = s@.subrange(from as int, i as int);
            let post = s@.subrange(from as int, i + 1);
            assert(post.drop_last() =~= pre);
            assert(post.last() == s@[i as int]);
        }
        if s[i] == needle {
            count += 1;
        }
        i += 1;
    }
    count
}

/// Whether `b` is an ASCII decimal digit.
pub open spec fn is_digit(b: u8) -> bool {
    0x30 <= b <= 0x39
}

/// Whether every byte of `s` is a decimal digit.
pub open spec fn all_digits(s: Seq<u8>) -> bool {
    forall|i: int| 0 <= i < s.len() ==> is_digit(#[trigger] s[i])
}

fn all_digits_in(s: &[u8], from: usize, to: usize) -> (r: bool)
    requires
        from <= to <= s@.len(),
    ensures
        r == all_digits(s@.subrange(from as int, to as int)),
{
    let ghost sub: Seq<u8> = s@.subrange(from as int, to as int);
    let mut i: usize = from;
    while i < to
        invariant
            from <= i <= to <= s@.len(),
            sub == s@.subrange(from as int, to as int),
            forall|t: int| 0 <= t < i - from ==> is_digit(#[trigger] sub[t]),
        decreases to - i,
    {
        proof {
            assert(sub[i - from] == s@[i as int]);
        }
        if !(0x30 <= s[i] && s[i] <= 0x39) {
            proof {
                assert(!is_digit(sub[i - from]));
            }
            return false;
        }
        i += 1;
    }
    true
}

/// An ASCII upper-case letter folded to lower case; other bytes unchanged.
pub open spec fn low(b: u8) -> u8 {
    if 0x41 <= b <= 0x5A {
        (b + 0x20) as u8
    } else {
        b
    }
}

fn low_byte(b: u8) -> (r: u8)
    ensures
        r == low(b),
{
    if 0x41 <= b && b <= 0x5A {
        b + 0x20
    } else {
        b
    }
}

/// Case-insensitive `inf`.
pub open spec fn is_inf(s: Seq<u8>) -> bool {
    s.len() == 3 && low(s[0]) == 0x69 && low(s[1]) == 0x6E && low(s[2]) == 0x66
}

/// Case-insensitive `infinity`.
pub open spec fn is_infinity(s: Seq<u8>) -> bool {
    s.len() == 8 && low(s[0]) == 0x69 && low(s[1]) == 0x6E && low(s[2]) == 0x66 && low(s[3])
        == 0x69 && low(s[4]) == 0x6E && low(s[5]) == 0x69 && low(s[6]) == 0x74 && low(s[7]) == 0x79
}

/// Case-insensitive `nan`.
pub open spec fn is_nan(s: Seq<u8>) -> bool {
    s.len() == 3 && low(s[0]) == 0x6E && low(s[1]) == 0x61 && low(s[2]) == 0x6E
}

/// `s` without one leading `+` or `-`.
pub open spec fn strip_sign(s: Seq<u8>) -> Seq<u8> {
    if s.len() > 0 && (s[0] == 0x2B || s[0] == 0x2D) {
        s.subrange(1, s.len() as int)
    } else {
        s
    }
}

/// A mantissa: digits only, or digits with exactly one point and at least
/// one digit on one of its sides.
pub open spec fn is_mantissa(s: Seq<u8>) -> bool {
    (s.len() > 0 && all_digits(s)) || (exists|d: int|
        0 <= d < s.len() && s[d] == 0x2E && s.len() > 1 && all_digits(s.subrange(0, d))
            && all_digits(s.subrange(d + 1, s.len() as int)))
}

/// An exponent body: an optional sign followed by at least one digit.
pub open spec fn is_exponent(s: Seq<u8>) -> bool {
    strip_sign(s).len() > 0 && all_digits(strip_sign(s))
}

/// A number: a mantissa, optionally followed by `e`/`E` and an exponent.
pub open spec fn is_number(s: Seq<u8>) -> bool {
    is_mantissa(s) || (exists|e: int|
        0 <= e < s.len() && (s[e] == 0x65 || s[e] == 0x45) && is_mantissa(s.subrange(0, e))
            && is_exponent(s.subrange(e + 1, s.len() as int)))
}

/// A floating-point literal in the standard decimal syntax: an optional
/// sign, then `inf`, `infinity`, `nan` (case-insensitive) or a number with
/// an optional exponent.
pub open spec fn is_float_literal(s: Seq<u8>) -> bool {
    let b = strip_sign(s);
    is_inf(b) || is_infinity(b) || is_nan(b) || is_number(b)
}

/// Decides `is_mantissa` for `s[from..to]`.
fn mantissa_in(s: &[u8], from: usize, to: usize) -> (r: bool)
    requires
        from <= to <= s@.len(),
    ensures
        r == is_mantissa(s@.subrange(from as int, to as int)),
{
    let ghost sub: Seq<u8> = s@.subrange(from as int, to as int);
    match find_byte_at(s, from, to, 0x2E) {
        None => {
            proof {
                assert(forall|d: int| 0 <= d < sub.len() ==> #[trigger] sub[d] != 0x2E);
            }
            let r = to > from && all_digits_in(s, from, to);
            proof {
                if r {
                    assert(is_mantissa(sub));
                } else {
                    assert(!(sub.len() > 0 && all_digits(sub)));
                    assert(forall|d: int|
                        0 <= d < sub.len() ==> !(#[trigger] sub[d] == 0x2E && sub.len() > 1
                            && all_digits(sub.subrange(0, d)) && all_digits(
                            sub.subrange(d + 1, sub.len() as int),
                        )));
                    assert(!is_mantissa(sub));
                }
            }
            r
        },
        Some(d) => {
            let before = all_digits_in(s, from, d);
            let after = all_digits_in(s, d + 1, to);
            let r = before && after && to - from > 1;
            proof {
                let di = d - from;
                assert(sub[di] == 0x2E);
                assert(sub.subrange(0, di) =~= s@.subrange(from as int, d as int));
                assert(sub.subrange(di + 1, sub.len() as int) =~= s@.subrange(
                    d + 1,
                    to as int,
                ));
                assert(!is_digit(0x2E));
                assert(!(sub.len() > 0 && all_digits(sub)));
                if r {
                    assert(is_mantissa(sub));
                } else {
                    // any other candidate split point d2 must also be a
                    // point, and a point on one side of di refutes the
                    // all-digit checks
                    assert forall|d2: int|
                        0 <= d2 < sub.len() implies !(#[trigger] sub[d2] == 0x2E && sub.len() > 1
                        && all_digits(sub.subrange(0, d2)) && all_digits(
                        sub.subrange(d2 + 1, sub.len() as int),
                    )) by {
                        if sub[d2] == 0x2E && d2 != di {
                            if d2 < di {
                                assert(sub.subrange(d2 + 1, sub.len() as int)[di - d2 - 1]
                                    == 0x2E);
                            } else {
                                assert(sub.subrange(0, d2)[di] == 0x2E);
                            }
                        } else if d2 == di {
                            if !before {
                                assert(!all_digits(sub.subrange(0, d2)));
                            } else if !after {
                                assert(!all_digits(sub.subrange(d2 + 1, sub.len() as int)));
                            }
                        }
                    }
                    assert(!is_mantissa(sub));
                }
            }
            r
        },
    }
}

/// Decides `is_exponent` for `s[from..to]`.
fn exponent_in(s: &[u8], from: usize, to: usize) -> (r: bool)
    requires
        from <= to <= s@.len(),
    ensures
        r == is_exponent(s@.subrange(from as int, to as int)),
{
    let ghost sub: Seq<u8> = s@.subrange(from as int, to as int);
    let start: usize = if to > from && (s[from] == 0x2B || s[from] == 0x2D) {
        from + 1
    } else {
        from
    };
    proof {
        if to > from {
            assert(sub[0] == s@[from as int]);
        }
        assert(strip_sign(sub) =~= s@.subrange(start as int, to as int));
    }
    to > start && all_digits_in(s, start, to)
}

/// Without an exponent marker, a number is just a mantissa.
proof fn lemma_number_no_marker(body: Seq<u8>)
    requires
        forall|t: int| 0 <= t < body.len() ==> #[trigger] body[t] != 0x65 && body[t] != 0x45,
    ensures
        is_number(body) == is_mantissa(body),
{
}

/// A mantissa holds no exponent marker, so only the first marker can split
/// a number into mantissa and exponent.
proof fn lemma_number_split_unique(body: Seq<u8>, ei: int)
    requires
        0 <= ei < body.len(),
        body[ei] == 0x65 || body[ei] == 0x45,
        forall|t: int| 0 <= t < ei ==> #[trigger] body[t] != 0x65 && body[t] != 0x45,
        !(is_mantissa(body.subrange(0, ei)) && is_exponent(
            body.subrange(ei + 1, body.len() as int),
        )),
    ensures
        !is_number(body),
{
    assert(!is_digit(body[ei]));
    assert forall|e2: int|
        0 <= e2 < body.len() implies !((#[trigger] body[e2] == 0x65 || body[e2] == 0x45)
        && is_mantissa(body.subrange(0, e2)) && is_exponent(
        body.subrange(e2 + 1, body.len() as int),
    )) by {
        if (body[e2] == 0x65 || body[e2] == 0x45) && e2 != ei {
            assert(e2 > ei);
            let pre = body.subrange(0, e2);
            assert(pre[ei] == body[ei]);
            lemma_marker_refutes_mantissa(pre, ei);
        }
    }
    if is_mantissa(body) {
        lemma_marker_refutes_mantissa(body, ei);
    }
}

/// A sequence holding a non-digit, non-point byte is not a mantissa.
proof fn lemma_marker_refutes_mantissa(pre: Seq<u8>, ei: int)
    requires
        0 <= ei < pre.len(),
        !is_digit(pre[ei]),
        pre[ei] != 0x2E,
    ensures
        !is_mantissa(pre),
{
    assert(!all_digits(pre));
    assert forall|d: int|
        0 <= d < pre.len() implies !(#[trigger] pre[d] == 0x2E && pre.len() > 1 && all_digits(
        pre.subrange(0, d),
    ) && all_digits(pre.subrange(d + 1, pre.len() as int))) by {
        if pre[d] == 0x2E {
            assert(d != ei);
            if d < ei {
                assert(pre.subrange(d + 1, pre.len() as int)[ei - d - 1] == pre[ei]);
                assert(!all_digits(pre.subrange(d + 1, pre.len() as int)));
            } else {
                assert(pre.subrange(0, d)[ei] == pre[ei]);
                assert(!all_digits(pre.subrange(0, d)));
            }
        }
    }
}

/// Decides whether `s[from..to]` reads `inf`, `infinity` or `nan`,
/// case-insensitively.
fn inf_nan_in(s: &[u8], from: usize, to: usize) -> (r: bool)
    requires
        from <= to <= s@.len(),
    ensures
        r == {
            let body = s@.subrange(from as int, to as int);
            is_inf(body) || is_infinity(body) || is_nan(body)
        },
{
    let ghost body: Seq<u8> = s@.subrange(from as int, to as int);
    let n = to - from;
    if n == 3 {
        let c0 = low_byte(s[from]);
        let c1 = low_byte(s[from + 1]);
        let c2 = low_byte(s[from + 2]);
        proof {
            assert(body[0] == s@[from as int]);
            assert(body[1] == s@[from + 1]);
            assert(body[2] == s@[from + 2]);
        }
        (c0 == 0x69 && c1 == 0x6E && c2 == 0x66) || (c0 == 0x6E && c1 == 0x61 && c2 == 0x6E)
    } else if n == 8 {
        let c0 = low_byte(s[from]);
        let c1 = low_byte(s[from + 1]);
        let c2 = low_byte(s[from + 2]);
        let c3 = low_byte(s[from + 3]);
        let c4 = low_byte(s[from + 4]);
        let c5 = low_byte(s[from + 5]);
        let c6 = low_byte(s[from + 6]);
        let c7 = low_byte(s[from + 7]);
        proof {
            assert(body[0] == s@[from as int]);
            assert(body[1] == s@[from + 1]);
            assert(body[2] == s@[from + 2]);
            assert(body[3] == s@[from + 3]);
            assert(body[4] == s@[from + 4]);
            assert(body[5] == s@[from + 5]);
            assert(body[6] == s@[from + 6]);
            assert(body[7] == s@[from + 7]);
        }
        c0 == 0x69 && c1 == 0x6E && c2 == 0x66 && c3 == 0x69 && c4 == 0x6E && c5 == 0x69 && c6
            == 0x74 && c7 == 0x79
    } else {
        false
    }
}

/// Decides whether `s[from..to]` is a number with an optional exponent.
fn number_in(s: &[u8], from: usize, to: usize) -> (r: bool)
    requires
        from <= to <= s@.len(),
    ensures
        r == is_number(s@.subrange(from as int, to as int)),
{
    let ghost body: Seq<u8> = s@.subrange(from as int, to as int);
    let e_lo = find_byte_at(s, from, to, 0x65);
    let e_hi = find_byte_at(s, from, to, 0x45);
    let e_pos: Option<usize> = match (e_lo, e_hi) {
        (None, None) => None,
        (Some(a), None) => Some(a),
        (None, Some(b)) => Some(b),
        (Some(a), Some(b)) => if a < b {
            Some(a)
        } else {
            Some(b)
        },
    };
    match e_pos {
        None => {
            let r = mantissa_in(s, from, to);
            proof {
                assert(forall|t: int|
                    0 <= t < body.len() ==> #[trigger] body[t] != 0x65 && body[t] != 0x45);
                lemma_number_no_marker(body);
            }
            r
        },
        Some(e) => {
            let before = mantissa_in(s, from, e);
            let after = exponent_in(s, e + 1, to);
            let r = before && after;
            proof {
                let ei = e - from;
                assert(body[ei] == s@[e as int]);
                assert(body[ei] == 0x65 || body[ei] == 0x45);
                assert(body.subrange(0, ei) =~= s@.subrange(from as int, e as int));
                assert(body.subrange(ei + 1, body.len() as int) =~= s@.subrange(
                    e + 1,
                    to as int,
                ));
                assert(forall|t: int|
                    0 <= t < ei ==> #[trigger] body[t] != 0x65 && body[t] != 0x45);
                if r {
                    assert(is_number(body));
                } else {
                    lemma_number_split_unique(body, ei);
                }
            }
            r
        },
    }
}

/// Decides whether `s[from..to]` is a floating-point literal.
pub fn float_literal_in(s: &[u8], from: usize, to: usize) -> (r: bool)
    requires
        from <= to <= s@.len(),
    ensures
        r == is_float_literal(s@.subrange(from as int, to as int)),
{
    let ghost sub: Seq<u8> = s@.subrange(from as int, to as int);
    let start: usize = if to > from && (s[from] == 0x2B || s[from] == 0x2D) {
        from + 1
    } else {
        from
    };
    let ghost body: Seq<u8> = strip_sign(sub);
    proof {
        if to > from {
            assert(sub[0] == s@[from as int]);
        }
        assert(body =~= s@.subrange(start as int, to as int));
    }
    if inf_nan_in(s, start, to) {
        return true;
    }
    number_in(s, start, to)
}

/// The decimal digit characters of a non-negative number, most significant
/// first.
pub open spec fn spec_dec(n: int) -> Seq<char>
    decreases n,
{
    if n < 0 {
        Seq::empty()
    } else if n < 10 {
        seq![((n + 0x30) as u8) as char]
    } else {
        spec_dec(n / 10).push((((n % 10) + 0x30) as u8) as char)
    }
}

/// Relies on the standard decimal formatter for `usize`.
#[verifier::external_body]
fn fmt_usize(n: usize) -> (r: String)
    ensures
        r@ == spec_dec(n as int),
{
    format!("{}", n)
}

/// Relies on `String::from_utf8`: it succeeds exactly on valid UTF-8 input
/// and decodes it.
#[verifier::external_body]
fn bytes_to_string(s: &[u8], from: usize, to: usize) -> (r: Option<String>)
    requires
        from <= to <= s@.len(),
    ensures
        r is Some <==> valid_utf8(s@.subrange(from as int, to as int)),
        r matches Some(t) ==> t@ == decode_utf8(s@.subrange(from as int, to as int)),
{
    String::from_utf8(s[from..to].to_vec()).ok()
}

/// `"Line {n}: Invalid UTF-8 encoding"`
pub open spec fn msg_bad_utf8(n: int) -> Seq<char> {
    "Line "@ + spec_dec(n) + ": Invalid UTF-8 encoding"@
}

/// `"Line {n} does not have exactly 2 columns separated by ';'. Found {c} columns"`
pub open spec fn msg_columns(n: int, c: int) -> Seq<char> {
    "Line "@ + spec_dec(n) + " does not have exactly 2 columns separated by ';'. Found "@
        + spec_dec(c) + " columns"@
}

/// `"Line {n}: Weather station name cannot be empty"`
pub open spec fn msg_empty_station(n: int) -> Seq<char> {
    "Line "@ + spec_dec(n) + ": Weather station name cannot be empty"@
}

/// `"Line {n}: Cannot parse temperature '{t}' as a number"`
pub open spec fn msg_bad_temp(n: int, t: Seq<char>) -> Seq<char> {
    "Line "@ + spec_dec(n) + ": Cannot parse temperature '"@ + t + "' as a number"@
}

/// `"Line {n}: No semicolon delimiter found"`
pub open spec fn msg_no_semicolon(n: int) -> Seq<char> {
    "Line "@ + spec_dec(n) + ": No semicolon delimiter found"@
}

/// `"Line {n}: Invalid UTF-8 in station name"`
pub open spec fn msg_utf8_station(n: int) -> Seq<char> {
    "Line "@ + spec_dec(n) + ": Invalid UTF-8 in station name"@
}

/// `"Line {n}: Invalid UTF-8 in temperature"`
pub open spec fn msg_utf8_temp(n: int) -> Seq<char> {
    "Line "@ + spec_dec(n) + ": Invalid UTF-8 in temperature"@
}

fn build_msg2(prefix: &str, n: usize, suffix: &str) -> (r: String)
    ensures
        r@ == prefix@ + spec_dec(n as int) + suffix@,
{
    let num = fmt_usize(n);
    prefix.to_owned().concat(num.as_str()).concat(suffix)
}

fn build_msg4(prefix: &str, n: usize, mid: &str, t: &str, suffix: &str) -> (r: String)
    ensures
        r@ == prefix@ + spec_dec(n as int) + mid@ + t@ + suffix@,
{
    let num = fmt_usize(n);
    prefix.to_owned().concat(num.as_str()).concat(mid).concat(t).concat(suffix)
}

/// The index of the first occurrence of `b` at or after `i`, or the length
/// if there is none.
pub open spec fn first_pos(s: Seq<u8>, b: u8, i: int) -> int
    decreases s.len() - i,
{
    if i < 0 || i >= s.len() {
        s.len() as int
    } else if s[i] == b {
        i
    } else {
        first_pos(s, b, i + 1)
    }
}

proof fn lemma_first_pos_char(s: Seq<u8>, b: u8, p: int, i: int)
    requires
        0 <= i <= p <= s.len(),
        p < s.len() ==> s[p] == b,
        forall|t: int| i <= t < p ==> s[t] != b,
        p == s.len() ==> forall|t: int| i <= t < s.len() ==> s[t] != b,
    ensures
        first_pos(s, b, i) == p,
    decreases p - i,
{
    if i < p {
        lemma_first_pos_char(s, b, p, i + 1);
    }
}

/// Characterizes `first_pos` from the start of `s`: the witness index `p`
/// with no earlier occurrence is the first position.
pub proof fn lemma_first_pos_from(s: Seq<u8>, b: u8, p: int)
    requires
        0 <= p <= s.len(),
        p < s.len() ==> s[p] == b,
        forall|t: int| 0 <= t < p ==> s[t] != b,
        p == s.len() ==> forall|t: int| 0 <= t < s.len() ==> s[t] != b,
    ensures
        first_pos(s, b, 0) == p,
{
    lemma_first_pos_char(s, b, p, 0);
}

proof fn lemma_count_zero(s: Seq<u8>, b: u8)
    requires
        forall|t: int| 0 <= t < s.len() ==> s[t] != b,
    ensures
        count_byte(s, b) == 0,
    decreases s.len(),
{
    if s.len() > 0 {
        lemma_count_zero(s.drop_last(), b);
    }
}

proof fn lemma_count_nonneg(s: Seq<u8>, b: u8)
    ensures
        count_byte(s, b) >= 0,
    decreases s.len(),
{
    if s.len() > 0 {
        lemma_count_nonneg(s.drop_last(), b);
    }
}

/// The number of delimited columns of the trimmed line.
pub open spec fn line_cols(l: Seq<u8>) -> int {
    count_byte(spec_trim(l), 0x3B) + 1
}

/// The station field of a two-column line: the bytes before the semicolon,
/// trimmed.
pub open spec fn station_bytes_str(l: Seq<u8>) -> Seq<u8> {
    let t = spec_trim(l);
    spec_trim(t.subrange(0, first_pos(t, 0x3B, 0)))
}

/// The temperature field of a two-column line: the bytes after the
/// semicolon, trimmed.
pub open spec fn temp_bytes_str(l: Seq<u8>) -> Seq<u8> {
    let t = spec_trim(l);
    spec_trim(t.subrange(first_pos(t, 0x3B, 0) + 1, t.len() as int))
}

/// Whether the line is skipped by the column-splitting parser: it is empty,
/// or valid UTF-8 and blank after trimming.
pub open spec fn line_skip_str(l: Seq<u8>) -> bool {
    l.len() == 0 || (valid_utf8(l) && spec_trim(l).len() == 0)
}

/// Whether the line parses to a record under the column-splitting rules.
pub open spec fn line_good_str(l: Seq<u8>) -> bool {
    &&& l.len() > 0
    &&& valid_utf8(l)
    &&& spec_trim(l).len() > 0
    &&& line_cols(l) == 2
    &&& station_bytes_str(l).len() > 0
    &&& valid_utf8(station_bytes_str(l))
    &&& valid_utf8(temp_bytes_str(l))
    &&& is_float_literal(temp_bytes_str(l))
}

/// The exact outcome of the column-splitting per-line parser on `l`, as
/// line number `n`: a record, a silent skip, or one specific error.
pub open spec fn line_result_str(
    l: Seq<u8>,
    n: int,
    r: Result<Option<WeatherRecord>, WeatherError>,
) -> bool {
    match r {
        Ok(None) => line_skip_str(l),
        Ok(Some(rec)) => line_good_str(l) && rec.station@ == decode_utf8(station_bytes_str(l))
            && rec.temperature@ == decode_utf8(temp_bytes_str(l)),
        Err(e) => l.len() > 0 && if !valid_utf8(l) {
            e matches WeatherError::InvalidFormat(m) && m@ == msg_bad_utf8(n)
        } else if spec_trim(l).len() == 0 {
            false
        } else if line_cols(l) != 2 {
            e matches WeatherError::InvalidFormat(m) && m@ == msg_columns(n, line_cols(l))
        } else if station_bytes_str(l).len() == 0 {
            e matches WeatherError::InvalidFormat(m) && m@ == msg_empty_station(n)
        } else if !valid_utf8(station_bytes_str(l)) {
            e matches WeatherError::InvalidFormat(m) && m@ == msg_utf8_station(n)
        } else if !valid_utf8(temp_bytes_str(l)) {
            e matches WeatherError::InvalidFormat(m) && m@ == msg_utf8_temp(n)
        } else {
            !is_float_literal(temp_bytes_str(l)) && (e matches WeatherError::Parse(m) && m@
                == msg_bad_temp(n, decode_utf8(temp_bytes_str(l))))
        },
    }
}

/// Parses one line in the column-splitting style: validate the whole line
/// as UTF-8, trim it, split on `;` into exactly two columns, trim each
/// field, reject an empty station name, and check the temperature literal.
pub fn parse_line_str(line: &[u8], line_no: usize) -> (r: Result<
    Option<WeatherRecord>,
    WeatherError,
>)
    requires
        line@.len() < usize::MAX,
    ensures
        line_result_str(line@, line_no as int, r),
{
    let n = line.len();
    if n == 0 {
        return Ok(None);
    }
    let decoded = bytes_to_string(line, 0, n);
    proof {
        assert(line@.subrange(0, n as int) =~= line@);
    }
    if decoded.is_none() {
        return Err(WeatherError::InvalidFormat(build_msg2("Line ", line_no,
            ": Invalid UTF-8 encoding")));
    }
    let (ta, tb) = trim_range(line, 0, n);
    let ghost t: Seq<u8> = spec_trim(line@);
    proof {
        assert(t == line@.subrange(ta as int, tb as int));
    }
    if ta == tb {
        return Ok(None);
    }
    let semis = count_byte_in(line, ta, tb, 0x3B);
    if semis != 1 {
        proof {
            lemma_count_nonneg(t, 0x3B);
        }
        return Err(WeatherError::InvalidFormat(build_msg4("Line ", line_no,
            " does not have exactly 2 columns separated by ';'. Found ",
            fmt_usize(semis + 1).as_str(), " columns")));
    }
    let semi = match find_byte_at(line, ta, tb, 0x3B) {
        Some(p) => p,
        None => {
            // unreachable: the trimmed line counts exactly one semicolon
            proof {
                lemma_count_zero(t, 0x3B);
                assert(false);
            }
            return Ok(None);
        },
    };
    proof {
        lemma_first_pos_char(t, 0x3B, semi - ta, 0);
    }
    let (sa, sb) = trim_range(line, ta, semi);
    proof {
        assert(t.subrange(0, semi - ta) =~= line@.subrange(ta as int, semi as int));
        assert(station_bytes_str(line@) == line@.subrange(sa as int, sb as int));
    }
    if sa == sb {
        proof {
            assert(station_bytes_str(line@) =~= Seq::<u8>::empty());
        }
        return Err(WeatherError::InvalidFormat(build_msg2("Line ", line_no,
            ": Weather station name cannot be empty")));
    }
    let station = match bytes_to_string(line, sa, sb) {
        Some(st) => st,
        None => {
            return Err(WeatherError::InvalidFormat(build_msg2("Line ", line_no,
                ": Invalid UTF-8 in station name")));
        },
    };
    let (tc, td) = trim_range(line, semi + 1, tb);
    proof {
        assert(t.subrange(semi - ta + 1, t.len() as int) =~= line@.subrange(
            semi + 1,
            tb as int,
        ));
        assert(temp_bytes_str(line@) == line@.subrange(tc as int, td as int));
    }
    let temperature = match bytes_to_string(line, tc, td) {
        Some(tm) => tm,
        None => {
            return Err(WeatherError::InvalidFormat(build_msg2("Line ", line_no,
                ": Invalid UTF-8 in temperature")));
        },
    };
    if !float_literal_in(line, tc, td) {
        return Err(WeatherError::Parse(build_msg4("Line ", line_no,
            ": Cannot parse temperature '", temperature.as_str(), "' as a number")));
    }
    Ok(Some(WeatherRecord::new(station, temperature)))
}

/// The station field of the delimiter-seeking parser: everything before the
/// first semicolon, trimmed.
pub open spec fn station_bytes_b(l: Seq<u8>) -> Seq<u8> {
    spec_trim(l.subrange(0, first_pos(l, 0x3B, 0)))
}

/// The temperature field of the delimiter-seeking parser: everything after
/// the first semicolon, trimmed.
pub open spec fn temp_bytes_b(l: Seq<u8>) -> Seq<u8> {
    spec_trim(l.subrange(first_pos(l, 0x3B, 0) + 1, l.len() as int))
}

/// Whether the line parses to a record under the delimiter-seeking rules.
pub open spec fn line_good_b(l: Seq<u8>) -> bool {
    &&& l.len() > 0
    &&& first_pos(l, 0x3B, 0) < l.len()
    &&& first_pos(l, 0x3B, 0) != 0
    &&& valid_utf8(station_bytes_b(l))
    &&& valid_utf8(temp_bytes_b(l))
    &&& is_float_literal(temp_bytes_b(l))
}

/// The exact outcome of the delimiter-seeking per-line parser on `l`.
pub open spec fn line_result_b(
    l: Seq<u8>,
    n: int,
    r: Result<Option<WeatherRecord>, WeatherError>,
) -> bool {
    match r {
        Ok(None) => l.len() == 0,
        Ok(Some(rec)) => line_good_b(l) && rec.station@ == decode_utf8(station_bytes_b(l))
            && rec.temperature@ == decode_utf8(temp_bytes_b(l)),
        Err(e) => l.len() > 0 && if first_pos(l, 0x3B, 0) == l.len() {
            e matches WeatherError::InvalidFormat(m) && m@ == msg_no_semicolon(n)
        } else if first_pos(l, 0x3B, 0) == 0 {
            e matches WeatherError::InvalidFormat(m) && m@ == msg_empty_station(n)
        } else if !valid_utf8(station_bytes_b(l)) {
            e matches WeatherError::InvalidFormat(m) && m@ == msg_utf8_station(n)
        } else if !valid_utf8(temp_bytes_b(l)) {
            e matches WeatherError::InvalidFormat(m) && m@ == msg_utf8_temp(n)
        } else {
            !is_float_literal(temp_bytes_b(l)) && (e matches WeatherError::Parse(m) && m@
                == msg_bad_temp(n, decode_utf8(temp_bytes_b(l))))
        },
    }
}

/// Parses one line in the delimiter-seeking style: find the first `;` in
/// the raw bytes, slice the two fields, validate each as UTF-8, trim and
/// check the temperature literal.
pub fn parse_line_bytes(line: &[u8], line_no: usize) -> (r: Result<
    Option<WeatherRecord>,
    WeatherError,
>)
    ensures
        line_result_b(line@, line_no as int, r),
{
    let n = line.len();
    if n == 0 {
        return Ok(None);
    }
    let semi = match find_byte_at(line, 0, n, 0x3B) {
        Some(p) => p,
        None => {
            proof {
                lemma_first_pos_char(line@, 0x3B, n as int, 0);
            }
            return Err(WeatherError::InvalidFormat(build_msg2("Line ", line_no,
                ": No semicolon delimiter found")));
        },
    };
    proof {
        lemma_first_pos_char(line@, 0x3B, semi as int, 0);
    }
    if semi == 0 {
        return Err(WeatherError::InvalidFormat(build_msg2("Line ", line_no,
            ": Weather station name cannot be empty")));
    }
    let (sa, sb) = trim_range(line, 0, semi);
    proof {
        assert(station_bytes_b(line@) == line@.subrange(sa as int, sb as int));
    }
    let station = match bytes_to_string(line, sa, sb) {
        Some(st) => st,
        None => {
            return Err(WeatherError::InvalidFormat(build_msg2("Line ", line_no,
                ": Invalid UTF-8 in station name")));
        },
    };
    let (tc, td) = trim_range(line, semi + 1, n);
    proof {
        assert(temp_bytes_b(line@) == line@.subrange(tc as int, td as int));
    }
    let temperature = match bytes_to_string(line, tc, td) {
        Some(tm) => tm,
        None => {
            return Err(WeatherError::InvalidFormat(build_msg2("Line ", line_no,
                ": Invalid UTF-8 in temperature")));
        },
    };
    if !float_literal_in(line, tc, td) {
        return Err(WeatherError::Parse(build_msg4("Line ", line_no,
            ": Cannot parse temperature '", temperature.as_str(), "' as a number")));
    }
    Ok(Some(WeatherRecord::new(station, temperature)))
}

/// Whether the column-splitting parser accepts or silently skips the line.
pub open spec fn good_or_skip_str(l: Seq<u8>) -> bool {
    line_skip_str(l) || line_good_str(l)
}

/// How many of the first `upto` lines yield a record under the
/// column-splitting rules.
pub open spec fn good_count_str(ls: Seq<Seq<u8>>, upto: int) -> int
    decreases upto,
{
    if upto <= 0 {
        0
    } else {
        good_count_str(ls, upto - 1) + if line_good_str(ls[upto - 1]) {
            1int
        } else {
            0int
        }
    }
}

/// The index of the first line the column-splitting parser rejects, or the
/// length if it accepts them all.
pub open spec fn first_bad_str(ls: Seq<Seq<u8>>, i: int) -> int
    decreases ls.len() - i,
{
    if i < 0 || i >= ls.len() {
        ls.len() as int
    } else if good_or_skip_str(ls[i]) {
        first_bad_str(ls, i + 1)
    } else {
        i
    }
}

pub proof fn lemma_first_bad_str_all(ls: Seq<Seq<u8>>, i: int)
    requires
        0 <= i <= ls.len(),
        forall|t: int| i <= t < ls.len() ==> good_or_skip_str(#[trigger] ls[t]),
    ensures
        first_bad_str(ls, i) == ls.len(),
    decreases ls.len() - i,
{
    if i < ls.len() {
        lemma_first_bad_str_all(ls, i + 1);
    }
}

pub proof fn lemma_first_bad_str_at(ls: Seq<Seq<u8>>, i: int, j: int)
    requires
        0 <= i <= j < ls.len(),
        forall|t: int| i <= t < j ==> good_or_skip_str(#[trigger] ls[t]),
        !good_or_skip_str(ls[j]),
    ensures
        first_bad_str(ls, i) == j,
    decreases j - i,
{
    if i < j {
        lemma_first_bad_str_at(ls, i + 1, j);
    }
}

/// Whether the delimiter-seeking parser accepts or silently skips the line.
pub open spec fn good_or_skip_b(l: Seq<u8>) -> bool {
    l.len() == 0 || line_good_b(l)
}

/// How many of the first `upto` lines yield a record under the
/// delimiter-seeking rules.
pub open spec fn good_count_b(ls: Seq<Seq<u8>>, upto: int) -> int
    decreases upto,
{
    if upto <= 0 {
        0
    } else {
        good_count_b(ls, upto - 1) + if line_good_b(ls[upto - 1]) {
            1int
        } else {
            0int
        }
    }
}

/// The index of the first line the delimiter-seeking parser rejects, or
/// the length if it accepts them all.
pub open spec fn first_bad_b(ls: Seq<Seq<u8>>, i: int) -> int
    decreases ls.len() - i,
{
    if i < 0 || i >= ls.len() {
        ls.len() as int
    } else if good_or_skip_b(ls[i]) {
        first_bad_b(ls, i + 1)
    } else {
        i
    }
}

pub proof fn lemma_first_bad_b_all(ls: Seq<Seq<u8>>, i: int)
    requires
        0 <= i <= ls.len(),
        forall|t: int| i <= t < ls.len() ==> good_or_skip_b(#[trigger] ls[t]),
    ensures
        first_bad_b(ls, i) == ls.len(),
    decreases ls.len() - i,
{
    if i < ls.len() {
        lemma_first_bad_b_all(ls, i + 1);
    }
}

pub proof fn lemma_first_bad_b_at(ls: Seq<Seq<u8>>, i: int, j: int)
    requires
        0 <= i <= j < ls.len(),
        forall|t: int| i <= t < j ==> good_or_skip_b(#[trigger] ls[t]),
        !good_or_skip_b(ls[j]),
    ensures
        first_bad_b(ls, i) == j,
    decreases j - i,
{
    if i < j {
        lemma_first_bad_b_at(ls, i + 1, j);
    }
}

/// The physical lines of `d`: segments between `\n` bytes, empty segments
/// kept, the final segment kept when it is not empty.
pub open spec fn spec_phys_lines(d: Seq<u8>) -> Seq<Seq<u8>>
    decreases d.len(),
{
    if d.len() == 0 {
        Seq::empty()
    } else {
        let e = first_pos(d, 0x0A, 0);
        if 0 <= e < d.len() {
            seq![d.subrange(0, e)] + spec_phys_lines(d.subrange(e + 1, d.len() as int))
        } else {
            seq![d]
        }
    }
}

pub proof fn lemma_phys_lines_count(d: Seq<u8>)
    ensures
        spec_phys_lines(d).len() <= d.len(),
        forall|t: int|
            0 <= t < spec_phys_lines(d).len() ==> (#[trigger] spec_phys_lines(d)[t]).len()
                <= d.len(),
    decreases d.len(),
{
    if d.len() > 0 {
        let e = first_pos(d, 0x0A, 0);
        if 0 <= e < d.len() {
            lemma_phys_lines_count(d.subrange(e + 1, d.len() as int));
        }
    }
}

/// Slices `data` into its physical lines, keeping empty ones.
fn split_physical<'a>(data: &'a [u8]) -> (r: Vec<&'a [u8]>)
    ensures
        crate::pipeline::views_of(r@) == spec_phys_lines(data@),
{
    let n = data.len();
    let mut lines: Vec<&'a [u8]> = Vec::new();
    let mut start: usize = 0;
    proof {
        assert(data@.subrange(0, n as int) =~= data@);
        assert(crate::pipeline::views_of(lines@) + spec_phys_lines(
            data@.subrange(0, n as int),
        ) =~= spec_phys_lines(data@));
    }
    while start < n
        invariant
            start <= n,
            n == data@.len(),
            crate::pipeline::views_of(lines@) + spec_phys_lines(
                data@.subrange(start as int, n as int),
            ) == spec_phys_lines(data@),
        decreases n - start,
    {
        let ghost rem: Seq<u8> = data@.subrange(start as int, n as int);
        match find_byte_at(data, start, n, 0x0A) {
            Some(i) => {
                proof {
                    lemma_first_pos_from(rem, 0x0A, i - start);
                    assert(rem.subrange(0, i - start) =~= data@.subrange(start as int, i as int));
                    assert(rem.subrange(i - start + 1, rem.len() as int) =~= data@.subrange(
                        i + 1,
                        n as int,
                    ));
                }
                let line = vstd::slice::slice_subrange(data, start, i);
                lines.push(line);
                start = i + 1;
                proof {
                    assert(crate::pipeline::views_of(lines@) =~= crate::pipeline::views_of(
                        lines@.drop_last(),
                    ).push(line@));
                    assert(crate::pipeline::views_of(lines@) + spec_phys_lines(
                        data@.subrange(start as int, n as int),
                    ) =~= spec_phys_lines(data@));
                }
            },
            None => {
                proof {
                    lemma_first_pos_from(rem, 0x0A, rem.len() as int);
                }
                let line = vstd::slice::slice_subrange(data, start, n);
                lines.push(line);
                proof {
                    assert(line@ =~= rem);
                    assert(crate::pipeline::views_of(lines@) =~= crate::pipeline::views_of(
                        lines@.drop_last(),
                    ).push(line@));
                    assert(spec_phys_lines(data@.subrange(n as int, n as int)) =~= Seq::<
                        Seq<u8>,
                    >::empty());
                    assert(crate::pipeline::views_of(lines@) + spec_phys_lines(
                        data@.subrange(n as int, n as int),
                    ) =~= spec_phys_lines(data@));
                }
                start = n;
            },
        }
    }
    proof {
        assert(spec_phys_lines(data@.subrange(n as int, n as int)) =~= Seq::<Seq<u8>>::empty());
        assert(crate::pipeline::views_of(lines@) =~= spec_phys_lines(data@));
    }
    lines
}

/// Reads observations from an in-memory byte buffer, line by line.
pub struct WeatherCsvReader {
    data: Vec<u8>,
}

impl WeatherCsvReader {
    /// The raw bytes the reader scans.
    pub closed spec fn src(&self) -> Seq<u8> {
        self.data@
    }

    pub fn from_bytes(data: Vec<u8>) -> (r: Self)
        requires
            data@.len() < usize::MAX,
        ensures
            r.src() == data@,
    {
        Self { data }
    }

    /// Parses every line, skipping blank ones; the first rejected line
    /// aborts with its error, which carries its physical line number.
    pub fn read_all(self) -> (r: Result<Vec<WeatherRecord>, WeatherError>)
        requires
            self.src().len() < usize::MAX,
        ensures
            ({
                let ls = spec_phys_lines(self.src());
                match r {
                    Ok(recs) => {
                        &&& first_bad_str(ls, 0) == ls.len()
                        &&& recs@.len() == good_count_str(ls, ls.len() as int)
                        &&& forall|j: int|
                            0 <= j < ls.len() && #[trigger] line_good_str(ls[j]) ==> {
                                let k = good_count_str(ls, j);
                                &&& 0 <= k < recs@.len()
                                &&& recs@[k].station@ == decode_utf8(station_bytes_str(ls[j]))
                                &&& recs@[k].temperature@ == decode_utf8(temp_bytes_str(ls[j]))
                            }
                    },
                    Err(e) => {
                        let j = first_bad_str(ls, 0);
                        &&& j < ls.len()
                        &&& line_result_str(ls[j], j + 1, Err(e))
                    },
                }
            }),
    {
        let ghost ls: Seq<Seq<u8>> = spec_phys_lines(self.data@);
        let lines = split_physical(self.data.as_slice());
        proof {
            lemma_phys_lines_count(self.data@);
            assert(forall|t: int|
                0 <= t < lines@.len() ==> (#[trigger] lines@[t])@ == ls[t]);
        }
        let n = lines.len();
        let mut records: Vec<WeatherRecord> = Vec::new();
        let mut i: usize = 0;
        while i < n
            invariant
                i <= n,
                n == lines@.len(),
                n < usize::MAX,
                ls == crate::pipeline::views_of(lines@),
                ls == spec_phys_lines(self.src()),
                forall|t: int| 0 <= t < n ==> (#[trigger] lines@[t])@.len() < usize::MAX,
                forall|t: int| 0 <= t < i ==> good_or_skip_str(#[trigger] ls[t]),
                records@.len() == good_count_str(ls, i as int),
                forall|j: int|
                    0 <= j < i && #[trigger] line_good_str(ls[j]) ==> {
                        let k = good_count_str(ls, j);
                        &&& 0 <= k < records@.len()
                        &&& records@[k].station@ == decode_utf8(station_bytes_str(ls[j]))
                        &&& records@[k].temperature@ == decode_utf8(temp_bytes_str(ls[j]))
                    },
            decreases n - i,
        {
            proof {
                assert(ls[i as int] == lines@[i as int]@);
            }
            match parse_line_str(lines[i], i + 1) {
                Ok(Some(rec)) => {
                    records.push(rec);
                },
                Ok(None) => {
                },
                Err(e) => {
                    proof {
                        assert(!good_or_skip_str(ls[i as int]));
                        lemma_first_bad_str_at(ls, 0, i as int);
                    }
                    return Err(e);
                },
            }
            i += 1;
        }
        proof {
            lemma_first_bad_str_all(ls, 0);
        }
        Ok(records)
    }

    /// A streaming view over the same buffer.
    pub fn records<'a>(&'a self) -> (r: WeatherRecordIterator<'a>)
        requires
            self.src().len() < usize::MAX,
        ensures
            r.wf(),
            r.lines_left() == spec_phys_lines(self.src()),
            r.consumed() == 0,
    {
        WeatherRecordIterator::new(self.data.as_slice())
    }
}

/// The index of the first line at or after `i` that is not blank.
pub open spec fn next_active(ls: Seq<Seq<u8>>, i: int) -> int
    decreases ls.len() - i,
{
    if i < 0 || i >= ls.len() {
        ls.len() as int
    } else if line_skip_str(ls[i]) {
        next_active(ls, i + 1)
    } else {
        i
    }
}

/// Walks a byte buffer one record at a time, skipping blank lines and
/// counting every physical line for error messages.
pub struct WeatherRecordIterator<'a> {
    data: &'a [u8],
    pos: usize,
    line_number: usize,
}

impl<'a> WeatherRecordIterator<'a> {
    /// The physical lines not yet consumed.
    pub closed spec fn lines_left(&self) -> Seq<Seq<u8>> {
        spec_phys_lines(self.data@.subrange(self.pos as int, self.data@.len() as int))
    }

    /// How many physical lines have been consumed.
    pub closed spec fn consumed(&self) -> int {
        self.line_number as int
    }

    /// The scan position sits inside the buffer, and consumed plus pending
    /// lines fit the line counter.
    pub closed spec fn wf(&self) -> bool {
        &&& self.pos <= self.data@.len()
        &&& self.data@.len() < usize::MAX
        &&& self.line_number + self.lines_left().len() <= self.data@.len()
    }

    pub fn new(data: &'a [u8]) -> (r: Self)
        requires
            data@.len() < usize::MAX,
        ensures
            r.wf(),
            r.lines_left() == spec_phys_lines(data@),
            r.consumed() == 0,
    {
        proof {
            lemma_phys_lines_count(data@);
            assert(data@.subrange(0, data@.len() as int) =~= data@);
        }
        Self { data, pos: 0, line_number: 0 }
    }

    /// Yields the next record, the error of the next bad line, or nothing
    /// once every remaining line has been consumed.
    pub fn next(&mut self) -> (r: Option<Result<WeatherRecord, WeatherError>>)
        requires
            old(self).wf(),
        ensures
            final(self).wf(),
            ({
                let ls = old(self).lines_left();
                let j = next_active(ls, 0);
                match r {
                    None => {
                        &&& j == ls.len()
                        &&& final(self).lines_left().len() == 0
                    },
                    Some(inner) => {
                        &&& j < ls.len()
                        &&& final(self).consumed() == old(self).consumed() + j + 1
                        &&& final(self).lines_left() == ls.subrange(j + 1, ls.len() as int)
                        &&& (inner matches Ok(rec) ==> line_result_str(
                            ls[j],
                            old(self).consumed() + j + 1,
                            Ok(Some(rec)),
                        ))
                        &&& (inner matches Err(e) ==> line_result_str(
                            ls[j],
                            old(self).consumed() + j + 1,
                            Err(e),
                        ))
                    },
                }
            }),
    {
        let n = self.data.len();
        let ghost ls0: Seq<Seq<u8>> = old(self).lines_left();
        let mut skipped: usize = 0;
        while self.pos < n
            invariant
                self.data == old(self).data,
                ls0 == old(self).lines_left(),
                n == self.data@.len(),
                n < usize::MAX,
                self.pos <= n,
                self.line_number == old(self).line_number + skipped,
                skipped <= ls0.len(),
                self.line_number + self.lines_left().len() <= self.data@.len(),
                ls0.subrange(skipped as int, ls0.len() as int) == self.lines_left(),
                forall|t: int| 0 <= t < skipped ==> line_skip_str(#[trigger] ls0[t]),
                next_active(ls0, 0) == next_active(ls0, skipped as int),
            decreases n - self.pos,
        {
            let ghost rem: Seq<u8> = self.data@.subrange(self.pos as int, n as int);
            let ghost lsr: Seq<Seq<u8>> = self.lines_left();
            let line_end = match find_byte_at(self.data, self.pos, n, 0x0A) {
                Some(e) => e,
                None => n,
            };
            proof {
                if line_end < n {
                    lemma_first_pos_from(rem, 0x0A, line_end - self.pos);
                    assert(rem.subrange(0, line_end - self.pos) =~= self.data@.subrange(
                        self.pos as int,
                        line_end as int,
                    ));
                    assert(rem.subrange(line_end - self.pos + 1, rem.len() as int)
                        =~= self.data@.subrange(line_end + 1, n as int));
                } else {
                    lemma_first_pos_from(rem, 0x0A, rem.len() as int);
                    assert(rem.subrange(0, rem.len() as int) =~= rem);
                }
                assert(lsr.len() > 0);
                assert(lsr[0] == self.data@.subrange(self.pos as int, line_end as int));
            }
            let line = vstd::slice::slice_subrange(self.data, self.pos, line_end);
            let next_pos = if line_end < n {
                line_end + 1
            } else {
                n
            };
            let ghost lsr_rest: Seq<Seq<u8>> = spec_phys_lines(
                self.data@.subrange(next_pos as int, n as int),
            );
            proof {
                assert(lsr =~= seq![lsr[0]] + lsr_rest);
                assert(lsr.subrange(1, lsr.len() as int) =~= lsr_rest);
                assert(ls0.subrange(skipped as int, ls0.len() as int) == lsr);
                assert(ls0[skipped as int] == lsr[0]);
            }
            self.pos = next_pos;
            self.line_number = self.line_number + 1;
            match parse_line_str(line, self.line_number) {
                Ok(None) => {
                    proof {
                        assert(line_skip_str(ls0[skipped as int]));
                        assert(ls0.subrange(skipped + 1, ls0.len() as int) =~= lsr_rest);
                    }
                    skipped = skipped + 1;
                },
                Ok(Some(rec)) => {
                    proof {
                        assert(!line_skip_str(ls0[skipped as int]));
                        assert(next_active(ls0, skipped as int) == skipped);
                        assert(next_active(ls0, 0) == skipped);
                        assert(ls0.subrange(skipped + 1, ls0.len() as int) =~= lsr_rest);
                        assert(self.lines_left() == lsr_rest);
                        assert(self.line_number == old(self).line_number + skipped + 1);
                        assert(line_result_str(
                            ls0[skipped as int],
                            old(self).line_number + skipped + 1,
                            Ok(Some(rec)),
                        ));
                    }
                    return Some(Ok(rec));
                },
                Err(e) => {
                    proof {
                        assert(!line_skip_str(ls0[skipped as int]));
                        assert(next_active(ls0, skipped as int) == skipped);
                        assert(next_active(ls0, 0) == skipped);
                        assert(ls0.subrange(skipped + 1, ls0.len() as int) =~= lsr_rest);
                        assert(self.lines_left() == lsr_rest);
                        assert(self.line_number == old(self).line_number + skipped + 1);
                        assert(line_result_str(
                            ls0[skipped as int],
                            old(self).line_number + skipped + 1,
                            Err(e),
                        ));
                    }
                    return Some(Err(e));
                },
            }
        }
        proof {
            assert(self.lines_left().len() == 0);
            assert(skipped == ls0.len());
        }
        None
    }
}

proof fn lemma_nns_skip(s: Seq<u8>, i: int, j: int)
    requires
        0 <= i <= j <= s.len(),
        forall|t: int| i <= t < j ==> is_space(s[t]),
    ensures
        next_non_space(s, i) == next_non_space(s, j),
    decreases j - i,
{
    if i < j {
        lemma_nns_skip(s, i + 1, j);
    }
}

proof fn lemma_pns_skip(s: Seq<u8>, b: int, j: int)
    requires
        0 <= b <= j <= s.len(),
        forall|t: int| b <= t < j ==> is_space(s[t]),
    ensures
        prev_non_space_end(s, j) == prev_non_space_end(s, b),
    decreases j - b,
{
    if b < j {
        lemma_pns_skip(s, b, j - 1);
    }
}

/// Characterizes trimming: if everything outside `[a, b)` is whitespace and
/// the range is either empty (with the whole of `s` whitespace) or starts
/// and ends with non-whitespace, then trimming yields exactly `s[a..b]`.
proof fn lemma_trim_char(s: Seq<u8>, a: int, b: int)
    requires
        0 <= a <= b <= s.len(),
        forall|t: int| 0 <= t < a ==> is_space(s[t]),
        forall|t: int| b <= t < s.len() ==> is_space(s[t]),
        a == b ==> forall|t: int| 0 <= t < s.len() ==> is_space(s[t]),
        a < b ==> !is_space(s[a]) && !is_space(s[b - 1]),
    ensures
        spec_trim(s) == s.subrange(a, b),
{
    if a == b {
        lemma_nns_skip(s, 0, s.len() as int);
        assert(next_non_space(s, 0) == s.len());
        assert(spec_trim(s) =~= s.subrange(a, b));
    } else {
        lemma_nns_skip(s, 0, a);
        assert(next_non_space(s, a) == a);
        lemma_pns_skip(s, b, s.len() as int);
        assert(prev_non_space_end(s, b) == b);
        assert(spec_trim(s) == s.subrange(a, b));
    }
}

pub proof fn lemma_first_pos_bounds(s: Seq<u8>, b: u8, i: int)
    requires
        0 <= i <= s.len(),
    ensures
        i <= first_pos(s, b, i) <= s.len(),
        first_pos(s, b, i) < s.len() ==> s[first_pos(s, b, i)] == b,
        forall|t: int| i <= t < first_pos(s, b, i) ==> s[t] != b,
    decreases s.len() - i,
{
    if i < s.len() && s[i] != b {
        lemma_first_pos_bounds(s, b, i + 1);
    }
}

proof fn lemma_count_pos_exists(s: Seq<u8>, b: u8)
    requires
        count_byte(s, b) > 0,
    ensures
        first_pos(s, b, 0) < s.len(),
{
    lemma_first_pos_bounds(s, b, 0);
    if first_pos(s, b, 0) == s.len() {
        lemma_count_zero(s, b);
    }
}

/// The two safe parsers agree: a line that the column-splitting parser
/// accepts is accepted by the delimiter-seeking parser too, with the same
/// station and temperature fields.  Together with the parsers' contracts
/// this makes all three record parsers produce identical records on
/// well-formed input.
pub proof fn lemma_parser_agreement(l: Seq<u8>)
    requires
        line_good_str(l),
    ensures
        line_good_b(l),
        station_bytes_b(l) == station_bytes_str(l),
        temp_bytes_b(l) == temp_bytes_str(l),
{
    let t = spec_trim(l);
    let a = next_non_space(l, 0);
    let b = prev_non_space_end(l, l.len() as int);
    lemma_next_non_space_bounds(l, 0);
    lemma_prev_non_space_bounds(l, l.len() as int);
    assert(t.len() > 0);
    assert(a < l.len());
    lemma_prev_past_non_space(l, l.len() as int, a);
    assert(t == l.subrange(a, b));
    // the one semicolon of the trimmed line, located
    assert(count_byte(t, 0x3B) == 1);
    lemma_count_pos_exists(t, 0x3B);
    let fp_t = first_pos(t, 0x3B, 0);
    lemma_first_pos_bounds(t, 0x3B, 0);
    assert(t[fp_t] == 0x3B);
    // the raw line finds the same semicolon
    assert(!is_space(0x3B));
    assert forall|u: int| 0 <= u < a + fp_t implies l[u] != 0x3B by {
        if u < a {
            assert(is_space(l[u]));
        } else {
            assert(l[u] == t[u - a]);
        }
    }
    assert(l[a + fp_t] == t[fp_t]);
    lemma_first_pos_char(l, 0x3B, a + fp_t, 0);
    let fp_l = first_pos(l, 0x3B, 0);
    assert(fp_l == a + fp_t);
    assert(fp_l < l.len());
    // a semicolon at the very start would leave an empty station field
    assert(fp_l != 0) by {
        if a == 0 && fp_t == 0 {
            assert(station_bytes_str(l) == spec_trim(t.subrange(0, 0)));
            assert(t.subrange(0, 0).len() == 0);
            assert(station_bytes_str(l).len() == 0);
        }
    }
    // station: trimming the raw prefix equals trimming the trimmed prefix
    let st = station_bytes_str(l);
    let sa = next_non_space(t.subrange(0, fp_t), 0);
    let sb = prev_non_space_end(t.subrange(0, fp_t), fp_t);
    lemma_next_non_space_bounds(t.subrange(0, fp_t), 0);
    lemma_prev_non_space_bounds(t.subrange(0, fp_t), fp_t);
    assert(st.len() > 0);
    assert(sa < fp_t);
    lemma_prev_past_non_space(t.subrange(0, fp_t), fp_t, sa);
    assert(st == t.subrange(0, fp_t).subrange(sa, sb));
    assert forall|u: int| 0 <= u < a + sa implies is_space(#[trigger] l[u]) by {
        if u >= a {
            assert(l[u] == t.subrange(0, fp_t)[u - a]);
        }
    }
    assert(!is_space(l[a + sa]) && !is_space(l[a + sb - 1])) by {
        assert(l[a + sa] == t.subrange(0, fp_t)[sa]);
        assert(l[a + sb - 1] == t.subrange(0, fp_t)[sb - 1]);
    }
    assert forall|u: int| a + sb <= u < fp_l implies is_space(#[trigger] l[u]) by {
        assert(l[u] == t.subrange(0, fp_t)[u - a]);
    }
    lemma_trim_char(l.subrange(0, fp_l), a + sa, a + sb);
    assert(station_bytes_b(l) == l.subrange(0, fp_l).subrange(a + sa, a + sb));
    assert(station_bytes_b(l) =~= st);
    // temperature: trimming the raw suffix equals trimming the trimmed one
    let tp = temp_bytes_str(l);
    let tsub = t.subrange(fp_t + 1, t.len() as int);
    let ta = next_non_space(tsub, 0);
    let tb = prev_non_space_end(tsub, tsub.len() as int);
    lemma_next_non_space_bounds(tsub, 0);
    lemma_prev_non_space_bounds(tsub, tsub.len() as int);
    assert(tp.len() > 0) by {
        assert(is_float_literal(tp));
        if tp.len() == 0 {
            assert(strip_sign(tp) =~= tp);
        }
    }
    assert(ta < tsub.len());
    lemma_prev_past_non_space(tsub, tsub.len() as int, ta);
    assert(tp == tsub.subrange(ta, tb));
    let rsub = l.subrange(fp_l + 1, l.len() as int);
    assert forall|u: int| 0 <= u < ta implies is_space(#[trigger] rsub[u]) by {
        assert(rsub[u] == tsub[u]);
    }
    assert forall|u: int| tb <= u < rsub.len() implies is_space(#[trigger] rsub[u]) by {
        if u < tsub.len() {
            assert(rsub[u] == tsub[u]);
        } else {
            assert(rsub[u] == l[fp_l + 1 + u]);
            assert(fp_l + 1 + u >= b);
        }
    }
    assert(!is_space(rsub[ta]) && !is_space(rsub[tb - 1])) by {
        assert(rsub[ta] == tsub[ta]);
        assert(rsub[tb - 1] == tsub[tb - 1]);
    }
    lemma_trim_char(rsub, ta, tb);
    assert(temp_bytes_b(l) == rsub.subrange(ta, tb));
    assert(temp_bytes_b(l) =~= tp);
}

} // verus!
