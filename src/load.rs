use vstd::prelude::*;
use crate::record::{GeocoderError, Locations, Record};

verus! {

/// One row of the external source: the six fields of a record, the two
/// coordinates still as text (ASCII bytes, in degrees).
pub struct RawRow {
    pub lat: Vec<u8>,
    pub lon: Vec<u8>,
    pub name: String,
    pub admin1: String,
    pub admin2: String,
    pub admin3: String,
}

/// Byte `c` is an ASCII decimal digit.
pub open spec fn is_digit(c: u8) -> bool {
    48 <= c <= 57
}

/// The digit at position `i` of `f`, or 0 past its end.
pub open spec fn digit_at(f: Seq<u8>, i: int) -> int {
    if 0 <= i < f.len() {
        f[i] - 48
    } else {
        0
    }
}

/// The number written by the first `k` digits of `f`, padded with zeros
/// past its end.
pub open spec fn lead_value(f: Seq<u8>, k: int) -> int
    decreases k,
{
    if k <= 0 {
        0
    } else {
        10 * lead_value(f, k - 1) + digit_at(f, k - 1)
    }
}

/// The position of the first `.` in `b` at or after `i`, or the length of
/// `b` if there is none.
pub open spec fn first_dot(b: Seq<u8>, i: int) -> int
    decreases b.len() - i,
{
    if i >= b.len() {
        b.len() as int
    } else if b[i] == 46 {
        i
    } else {
        first_dot(b, i + 1)
    }
}

/// `b[lo..hi]` holds only digits.
pub open spec fn digits_between(b: Seq<u8>, lo: int, hi: int) -> bool {
    forall|i: int| lo <= i < hi ==> is_digit(#[trigger] b[i])
}

/// The magnitude `b` writes, in ten-millionths of a degree, if `b` is one
/// or more digits, optionally followed by `.` and one or more digits;
/// fractional digits past the seventh are dropped.
#[verifier::opaque]
pub open spec fn magnitude_units(b: Seq<u8>) -> Option<int> {
    let p = first_dot(b, 0);
    let frac = b.subrange(if p < b.len() { p + 1 } else { p }, b.len() as int);
    if p >= 1 && digits_between(b, 0, p) && digits_between(b, p + 1, b.len() as int) && (p
        < b.len() ==> p + 1 < b.len()) {
        Some(lead_value(b, p) * 10000000 + lead_value(frac, 7))
    } else {
        None
    }
}

/// A magnitude with its sign, if it fits an `i32`.
pub open spec fn apply_sign(m: Option<int>, neg: bool) -> Option<i32> {
    match m {
        Some(u) => {
            let v = if neg { -u } else { u };
            if i32::MIN <= v <= i32::MAX {
                Some(v as i32)
            } else {
                None
            }
        },
        None => None,
    }
}

/// The coordinate that `b` writes in degrees, in ten-millionths of a degree:
/// an optional `-` or `+` and then a magnitude; `None` where the text has
/// another shape or the value does not fit an `i32`.
pub open spec fn coordinate_units(b: Seq<u8>) -> Option<i32> {
    let signed = b.len() > 0 && (b[0] == 45 || b[0] == 43);
    apply_sign(
        magnitude_units(if signed { b.drop_first() } else { b }),
        b.len() > 0 && b[0] == 45,
    )
}

/// With no `.` in `b[j..k]`, the first `.` from `j` on is the first one
/// from `k` on.
proof fn lemma_first_dot_skip(b: Seq<u8>, j: int, k: int)
    requires
        0 <= j <= k <= b.len(),
        forall|t: int| j <= t < k ==> b[t] != 46,
    ensures
        first_dot(b, j) == first_dot(b, k),
    decreases k - j,
{
    if j < k {
        lemma_first_dot_skip(b, j + 1, k);
    }
}

/// The first `.` from `k` on lies between `k` and the end of `b`.
proof fn lemma_first_dot_range(b: Seq<u8>, k: int)
    requires
        0 <= k <= b.len(),
    ensures
        k <= first_dot(b, k) <= b.len(),
        first_dot(b, k) < b.len() ==> b[first_dot(b, k)] == 46,
    decreases b.len() - k,
{
    if k < b.len() && b[k] != 46 {
        lemma_first_dot_range(b, k + 1);
    }
}

/// A number written in digits is not negative.
proof fn lemma_lead_nonneg(f: Seq<u8>, k: int)
    requires
        forall|t: int| 0 <= t < k ==> #[trigger] digit_at(f, t) >= 0,
    ensures
        lead_value(f, k) >= 0,
    decreases k,
{
    if k > 0 {
        lemma_lead_nonneg(f, k - 1);
        assert(digit_at(f, k - 1) >= 0);
    }
}

/// Writing more digits never makes the number smaller.
proof fn lemma_lead_mono(f: Seq<u8>, j: int, k: int)
    requires
        0 <= j <= k,
        forall|t: int| 0 <= t < k ==> #[trigger] digit_at(f, t) >= 0,
    ensures
        lead_value(f, k) >= lead_value(f, j),
        lead_value(f, j) >= 0,
    decreases k - j,
{
    lemma_lead_nonneg(f, j);
    if j < k {
        lemma_lead_mono(f, j, k - 1);
        lemma_lead_nonneg(f, k - 1);
        assert(digit_at(f, k - 1) >= 0);
    }
}

/// Text whose whole part, read so far without meeting a `.`, already
/// exceeds 300 degrees writes no coordinate that fits an `i32`.
proof fn lemma_too_large(c: Seq<u8>, k: int, neg: bool)
    requires
        1 <= k <= c.len(),
        forall|t: int| 0 <= t < k ==> c[t] != 46,
        lead_value(c, k) > 300,
    ensures
        apply_sign(magnitude_units(c), neg) is None,
{
    reveal(magnitude_units);
    lemma_first_dot_skip(c, 0, k);
    lemma_first_dot_range(c, k);
    let p = first_dot(c, 0);
    if magnitude_units(c) is Some {
        assert forall|t: int| 0 <= t < p implies #[trigger] digit_at(c, t) >= 0 by {
            assert(is_digit(c[t]));
        }
        lemma_lead_mono(c, k, p);
        let frac = c.subrange(if p < c.len() { p + 1 } else { p }, c.len() as int);
        assert forall|t: int| 0 <= t < 7 implies #[trigger] digit_at(frac, t) >= 0 by {
            if t < frac.len() {
                assert(frac[t] == c[p + 1 + t]);
                assert(is_digit(c[p + 1 + t]));
            }
        }
        lemma_lead_mono(frac, 0, 7);
    }
}

/// A byte that is neither a digit nor a `.`, met before any `.`, leaves
/// the text without a magnitude.
proof fn lemma_stray_byte(c: Seq<u8>, k: int)
    requires
        0 <= k < c.len(),
        forall|t: int| 0 <= t < k ==> c[t] != 46,
        c[k] != 46,
        !is_digit(c[k]),
    ensures
        magnitude_units(c) is None,
{
    reveal(magnitude_units);
    lemma_first_dot_skip(c, 0, k + 1);
    lemma_first_dot_range(c, k + 1);
    assert(!digits_between(c, 0, first_dot(c, 0)));
}

/// Reads a coordinate written in degrees as ten-millionths of a degree: an
/// optional `-` or `+`, one or more digits, and optionally `.` with one or
/// more digits, of which those past the seventh are dropped. Any other text,
/// or a value that does not fit an `i32`, gives `None`.
pub fn parse_coordinate(text: &[u8]) -> (r: Option<i32>)
    ensures
        r == coordinate_units(text@),
{
    let n = text.len();
    let mut s: usize = 0;
    let mut neg = false;
    if n > 0 && (text[0] == 45 || text[0] == 43) {
        s = 1;
        neg = text[0] == 45;
    }
    let ghost c = text@.subrange(s as int, n as int);
    proof {
        if s == 1 {
            assert(c =~= text@.drop_first());
        } else {
            assert(c =~= text@);
        }
        assert(coordinate_units(text@) == apply_sign(magnitude_units(c), neg));
    }
    let mut i: usize = s;
    let mut whole: i64 = 0;
    while i < n && text[i] != 46
        invariant
            s <= i <= n,
            n == text@.len(),
            c == text@.subrange(s as int, n as int),
            digits_between(c, 0, i - s),
            forall|t: int| 0 <= t < i - s ==> c[t] != 46,
            whole == lead_value(c, i - s),
            0 <= whole <= 300,
            coordinate_units(text@) == apply_sign(magnitude_units(c), neg),
        decreases n - i,
    {
        let d = text[i];
        if d < 48 || d > 57 {
            proof {
                assert(c[i - s] == d);
                lemma_stray_byte(c, i - s);
            }
            return None;
        }
        whole = whole * 10 + (d - 48) as i64;
        proof {
            assert(c[i - s] == d);
            assert(digit_at(c, i - s) == d - 48);
        }
        if whole > 300 {
            proof {
                lemma_too_large(c, i - s + 1, neg);
            }
            return None;
        }
        i = i + 1;
    }
    proof {
        lemma_first_dot_skip(c, 0, i - s);
        lemma_first_dot_range(c, i - s);
        assert(first_dot(c, i - s) == i - s);
    }
    if i == s {
        proof {
            reveal(magnitude_units);
        }
        return None;
    }
    let mut frac: i64 = 0;
    if i < n {
        if i + 1 == n {
            proof {
                reveal(magnitude_units);
            }
            return None;
        }
        let mut j: usize = i + 1;
        while j < n
            invariant
                s <= i,
                i + 1 <= j <= n,
                n == text@.len(),
                c == text@.subrange(s as int, n as int),
                digits_between(c, i - s + 1, j - s),
                first_dot(c, 0) == i - s,
                coordinate_units(text@) == apply_sign(magnitude_units(c), neg),
            decreases n - j,
        {
            let d = text[j];
            if d < 48 || d > 57 {
                proof {
                    assert(c[j - s] == d);
                    assert(!is_digit(c[j - s]));
                    assert(!digits_between(c, i - s + 1, c.len() as int));
                    reveal(magnitude_units);
                }
                return None;
            }
            proof {
                assert(c[j - s] == d);
            }
            j = j + 1;
        }
        let ghost fs = c.subrange(i - s + 1, c.len() as int);
        let mut k: usize = 0;
        while k < 7
            invariant
                k <= 7,
                s <= i,
                i + 1 < n,
                n == text@.len(),
                c == text@.subrange(s as int, n as int),
                fs == c.subrange(i - s + 1, c.len() as int),
                digits_between(c, i - s + 1, c.len() as int),
                frac == lead_value(fs, k as int),
                0 <= frac < 10000000,
                k == 0 ==> frac == 0,
                k == 1 ==> frac < 10,
                k == 2 ==> frac < 100,
                k == 3 ==> frac < 1000,
                k == 4 ==> frac < 10000,
                k == 5 ==> frac < 100000,
                k == 6 ==> frac < 1000000,
            decreases 7 - k,
        {
            let d: i64 = if k < n - (i + 1) {
                proof {
                    assert(fs[k as int] == c[i - s + 1 + k]);
                    assert(is_digit(c[i - s + 1 + k]));
                }
                (text[i + 1 + k] - 48) as i64
            } else {
                0
            };
            assert(d == digit_at(fs, k as int));
            frac = frac * 10 + d;
            k = k + 1;
        }
    }
    proof {
        reveal(magnitude_units);
        if i == n {
            assert(c.subrange(c.len() as int, c.len() as int) =~= Seq::<u8>::empty());
            assert(lead_value(Seq::<u8>::empty(), 7) == 0) by {
                reveal_with_fuel(lead_value, 8);
            }
        }
    }
    let m: i64 = whole * 10000000 + frac;
    let v: i64 = if neg {
        -m
    } else {
        m
    };
    if v < -2147483648 || v > 2147483647 {
        return None;
    }
    Some(v as i32)
}

/// A row can be read as a record: both of its coordinates parse.
pub open spec fn row_ok(r: RawRow) -> bool {
    coordinate_units(r.lat@) is Some && coordinate_units(r.lon@) is Some
}

/// The record a readable row stands for.
pub open spec fn record_of(r: RawRow) -> Record {
    Record {
        lat: coordinate_units(r.lat@)->0,
        lon: coordinate_units(r.lon@)->0,
        name: r.name,
        admin1: r.admin1,
        admin2: r.admin2,
        admin3: r.admin3,
    }
}

impl Locations {
    /// Loads a dataset from rows of an external source, in input order.
    /// The first row that cannot be read fails the whole load, named by its
    /// position.
    pub fn from_rows(rows: &Vec<RawRow>) -> (r: Result<Locations, GeocoderError>)
        ensures
            r is Ok <==> forall|i: int| 0 <= i < rows@.len() ==> #[trigger] row_ok(rows@[i]),
            r matches Ok(l) ==> l@.len() == rows@.len() && forall|i: int|
                0 <= i < rows@.len() ==> #[trigger] l@[i] == record_of(rows@[i]),
            r matches Err(e) ==> e matches GeocoderError::DataFormat { row } && row < rows@.len()
                && !row_ok(rows@[row as int]) && forall|i: int|
                0 <= i < row ==> #[trigger] row_ok(rows@[i]),
    {
        let mut records: Vec<Record> = Vec::new();
        let mut i: usize = 0;
        while i < rows.len()
            invariant
                i <= rows@.len(),
                records@.len() == i,
                forall|j: int| 0 <= j < i ==> #[trigger] row_ok(rows@[j]),
                forall|j: int| 0 <= j < i ==> #[trigger] records@[j] == record_of(rows@[j]),
            decreases rows@.len() - i,
        {
            let row = &rows[i];
            let lat = parse_coordinate(row.lat.as_slice());
            let lon = parse_coordinate(row.lon.as_slice());
            match (lat, lon) {
                (Some(lat), Some(lon)) => {
                    records.push(
                        Record {
                            lat,
                            lon,
                            name: row.name.clone(),
                            admin1: row.admin1.clone(),
                            admin2: row.admin2.clone(),
                            admin3: row.admin3.clone(),
                        },
                    );
                },
                _ => {
                    assert(!row_ok(rows@[i as int]));
                    return Err(GeocoderError::DataFormat { row: i });
                },
            }
            i = i + 1;
        }
        Ok(Locations::from_records(records))
    }
}

} // verus!
