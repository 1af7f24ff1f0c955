use vstd::prelude::*;

verus! {

/// Number of coordinate units in one degree: coordinates are held as
/// ten-millionths of a degree, so every latitude and longitude fits an `i32`.
pub const UNITS_PER_DEGREE: i64 = 10000000;

/// A place: its coordinate and its name with three administrative regions,
/// ordered from more to less specific.
#[derive(Debug)]
pub struct Record {
    /// Latitude, in units of `1 / UNITS_PER_DEGREE` degree.
    pub lat: i32,
    /// Longitude, in units of `1 / UNITS_PER_DEGREE` degree.
    pub lon: i32,
    pub name: String,
    pub admin1: String,
    pub admin2: String,
    pub admin3: String,
}

impl Clone for Record {
    fn clone(&self) -> (r: Self)
        ensures
            r == *self,
    {
        Record {
            lat: self.lat,
            lon: self.lon,
            name: self.name.clone(),
            admin1: self.admin1.clone(),
            admin2: self.admin2.clone(),
            admin3: self.admin3.clone(),
        }
    }
}

/// The squared Euclidean distance from the query point `q` to a record,
/// over the raw coordinate values.
pub open spec fn sq_dist(q: Seq<i32>, r: Record) -> int {
    (q[0] - r.lat) * (q[0] - r.lat) + (q[1] - r.lon) * (q[1] - r.lon)
}

/// Record `i` is nearer to `q` than record `k`, or as near and earlier.
pub open spec fn no_farther(pts: Seq<Record>, q: Seq<i32>, i: int, k: int) -> bool {
    sq_dist(q, pts[i]) < sq_dist(q, pts[k]) || (sq_dist(q, pts[i]) == sq_dist(q, pts[k]) && i
        <= k)
}

/// Record `k` is the answer to a query at `q`: no record is nearer, and of
/// those as near none comes earlier.
pub open spec fn is_nearest(pts: Seq<Record>, q: Seq<i32>, k: int) -> bool {
    &&& 0 <= k < pts.len()
    &&& forall|m: int| 0 <= m < pts.len() ==> #[trigger] no_farther(pts, q, k, m)
}

/// The index that a linear scan over the first `n` records finds: it keeps
/// the first record of smallest distance.
pub open spec fn scan_nearest(pts: Seq<Record>, q: Seq<i32>, n: int) -> int
    decreases n,
{
    if n <= 1 {
        0
    } else {
        let k = scan_nearest(pts, q, n - 1);
        if sq_dist(q, pts[n - 1]) < sq_dist(q, pts[k]) {
            n - 1
        } else {
            k
        }
    }
}

/// The linear scan over the first `n` records lands on one of them that no
/// other of them beats.
pub proof fn lemma_scan_is_minimal(pts: Seq<Record>, q: Seq<i32>, n: int)
    requires
        1 <= n <= pts.len(),
    ensures
        0 <= scan_nearest(pts, q, n) < n,
        forall|m: int| 0 <= m < n ==> #[trigger] no_farther(pts, q, scan_nearest(pts, q, n), m),
    decreases n,
{
    if n > 1 {
        lemma_scan_is_minimal(pts, q, n - 1);
        let k = scan_nearest(pts, q, n - 1);
        let r = scan_nearest(pts, q, n);
        assert forall|m: int| 0 <= m < n implies #[trigger] no_farther(pts, q, r, m) by {
            if m < n - 1 {
                assert(no_farther(pts, q, k, m));
            }
        }
    }
}

/// Two records that both answer the same query are the same record.
pub proof fn lemma_nearest_unique(pts: Seq<Record>, q: Seq<i32>, a: int, b: int)
    requires
        is_nearest(pts, q, a),
        is_nearest(pts, q, b),
    ensures
        a == b,
{
    assert(no_farther(pts, q, a, b));
    assert(no_farther(pts, q, b, a));
}

/// A linear scan over the whole dataset finds exactly the record that
/// answers the query.
pub proof fn lemma_scan_finds_nearest(pts: Seq<Record>, q: Seq<i32>)
    requires
        pts.len() >= 1,
    ensures
        is_nearest(pts, q, scan_nearest(pts, q, pts.len() as int)),
{
    lemma_scan_is_minimal(pts, q, pts.len() as int);
}

/// Squared Euclidean distance from the query point to a record.
pub fn distance(q: &[i32; 2], r: &Record) -> (d: i128)
    ensures
        d == sq_dist(q@, *r),
{
    let dlat: i128 = q[0] as i128 - r.lat as i128;
    let dlon: i128 = q[1] as i128 - r.lon as i128;
    proof {
        assert(dlat * dlat <= 0x1_0000_0000_0000_0000) by (nonlinear_arith)
            requires
                -0x1_0000_0000 <= dlat <= 0x1_0000_0000,
        ;
        assert(dlon * dlon <= 0x1_0000_0000_0000_0000) by (nonlinear_arith)
            requires
                -0x1_0000_0000 <= dlon <= 0x1_0000_0000,
        ;
        assert(dlat * dlat >= 0) by (nonlinear_arith);
        assert(dlon * dlon >= 0) by (nonlinear_arith);
    }
    dlat * dlat + dlon * dlon
}

/// Errors of loading a dataset and of building an index over it.
#[derive(Debug, PartialEq, Eq, Structural)]
pub enum GeocoderError {
    /// The row at this position (counted from 0) cannot be read as a record.
    DataFormat { row: usize },
    /// An index was asked for over a dataset with no records.
    EmptyDataset,
}

/// The dataset: place records in input order, read-only once built.
pub struct Locations {
    records: Vec<Record>,
}

impl View for Locations {
    type V = Seq<Record>;

    closed spec fn view(&self) -> Seq<Record> {
        self.records@
    }
}

impl Locations {
    /// A dataset holding these records, in this order.
    pub fn from_records(records: Vec<Record>) -> (r: Locations)
        ensures
            r@ == records@,
    {
        Locations { records }
    }

    /// The records, in order.
    pub fn records_vec(&self) -> (r: &Vec<Record>)
        ensures
            r@ == self@,
    {
        &self.records
    }

    /// The position of the record nearest to `q` found by a linear scan,
    /// keeping the first of those equally near; `None` on an empty dataset.
    pub fn nearest_by_scan(&self, q: &[i32; 2]) -> (r: Option<usize>)
        ensures
            self@.len() == 0 <==> r is None,
            r matches Some(k) ==> k == scan_nearest(self@, q@, self@.len() as int),
            r matches Some(k) ==> is_nearest(self@, q@, k as int),
    {
        let n = self.records.len();
        if n == 0 {
            return None;
        }
        let mut best: usize = 0;
        let mut best_d = distance(q, &self.records[0]);
        let mut i: usize = 1;
        while i < n
            invariant
                1 <= i <= n,
                n == self@.len(),
                best == scan_nearest(self@, q@, i as int),
                best < i,
                best_d == sq_dist(q@, self@[best as int]),
            decreases n - i,
        {
            let d = distance(q, &self.records[i]);
            if d < best_d {
                best = i;
                best_d = d;
            }
            i = i + 1;
        }
        proof {
            lemma_scan_finds_nearest(self@, q@);
        }
        Some(best)
    }

    /// The number of records.
    pub fn len(&self) -> (r: usize)
        ensures
            r == self@.len(),
    {
        self.records.len()
    }

    /// The record at position `i`.
    pub fn get(&self, i: usize) -> (r: &Record)
        requires
            i < self@.len(),
        ensures
            *r == self@[i as int],
    {
        &self.records[i]
    }
}

} // verus!
