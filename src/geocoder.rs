use vstd::prelude::*;
use vstd::arithmetic::power2::{lemma2_to64, lemma_pow2_unfold, pow2};
use vstd::set_lib::{lemma_int_range, lemma_len_subset, set_int_range};
use crate::record::{
    distance, is_nearest, lemma_nearest_unique, lemma_scan_finds_nearest, no_farther, scan_nearest,
    sq_dist, GeocoderError, Locations, Record,
};

verus! {

/// The sort key of record `r`, held at position `i`, on an axis: its
/// coordinate there, ties broken by position.
pub open spec fn key_of(r: Record, i: usize, axis: int) -> (i32, usize) {
    (if axis == 0 { r.lat } else { r.lon }, i)
}

/// Lexicographic order of sort keys.
pub open spec fn key_le(a: (i32, usize), b: (i32, usize)) -> bool {
    a.0 < b.0 || (a.0 == b.0 && a.1 <= b.1)
}

/// The positions `ord[lo..hi]` form a valid subtree whose root splits on
/// `axis`: its root is the middle position `mid`, every position before it
/// holds a key no greater than the root's, every position after it a key no
/// smaller, and both sides are subtrees splitting on the other axis.
pub open spec fn kd_ok(pts: Seq<Record>, ord: Seq<usize>, lo: int, hi: int, axis: int) -> bool
    decreases hi - lo,
{
    if hi - lo <= 0 {
        true
    } else {
        let mid = lo + (hi - lo) / 2;
        &&& forall|j: int|
            lo <= j < mid ==> key_le(
                key_of(pts[#[trigger] ord[j] as int], ord[j], axis),
                key_of(pts[ord[mid] as int], ord[mid], axis),
            )
        &&& forall|j: int|
            mid < j < hi ==> key_le(
                key_of(pts[ord[mid] as int], ord[mid], axis),
                key_of(pts[#[trigger] ord[j] as int], ord[j], axis),
            )
        &&& kd_ok(pts, ord, lo, mid, 1 - axis)
        &&& kd_ok(pts, ord, mid + 1, hi, 1 - axis)
    }
}

/// Value `v` stands somewhere in `s[lo..hi]`.
pub open spec fn held_in(s: Seq<usize>, lo: int, hi: int, v: usize) -> bool {
    exists|k: int| lo <= k < hi && s[k] == v
}

/// The height of the subtree over `len` positions: the root takes the middle
/// one, the left side the `len / 2` before it and the right side the rest.
pub open spec fn tree_height(len: int) -> nat
    decreases len,
{
    if len <= 0 {
        0
    } else {
        let l = tree_height(len / 2);
        let r = tree_height(len - len / 2 - 1);
        1 + if l >= r { l } else { r }
    }
}

/// Median partitioning keeps the tree balanced: over fewer than `2^k`
/// records no path from the root is longer than `k` nodes, so the height is
/// at most one more than the base-2 logarithm of the number of records,
/// rounded up.
pub proof fn lemma_balanced(len: int, k: nat)
    requires
        0 <= len < pow2(k),
    ensures
        tree_height(len) <= k,
    decreases k,
{
    if len > 0 {
        if k == 0 {
            lemma2_to64();
        }
        lemma_pow2_unfold(k);
        lemma_balanced(len / 2, (k - 1) as nat);
        lemma_balanced(len - len / 2 - 1, (k - 1) as nat);
    }
}

/// Relies on `slice::sort_unstable`: it reorders the keys into ascending
/// order, which on pairs is lexicographic, keeping each key as often as it
/// was there.
#[verifier::external_body]
fn sort_keys(keys: &mut Vec<(i32, usize)>)
    ensures
        final(keys)@.len() == old(keys)@.len(),
        final(keys)@.to_multiset() == old(keys)@.to_multiset(),
        forall|a: int, b: int|
            0 <= a <= b < final(keys)@.len() ==> key_le(#[trigger] final(keys)@[a], #[trigger] final(keys)@[b]),
{
    keys.sort_unstable();
}

/// A subtree's validity depends only on the positions it spans.
proof fn lemma_kd_frame(pts: Seq<Record>, o1: Seq<usize>, o2: Seq<usize>, lo: int, hi: int, axis: int)
    requires
        0 <= lo,
        hi <= o1.len(),
        hi <= o2.len(),
        forall|j: int| lo <= j < hi ==> o1[j] == o2[j],
        kd_ok(pts, o1, lo, hi, axis),
    ensures
        kd_ok(pts, o2, lo, hi, axis),
    decreases hi - lo,
{
    if hi - lo > 0 {
        let mid = lo + (hi - lo) / 2;
        lemma_kd_frame(pts, o1, o2, lo, mid, 1 - axis);
        lemma_kd_frame(pts, o1, o2, mid + 1, hi, 1 - axis);
        assert forall|j: int| lo <= j < mid implies key_le(
            key_of(pts[#[trigger] o2[j] as int], o2[j], axis),
            key_of(pts[o2[mid] as int], o2[mid], axis),
        ) by {
            assert(o1[j] == o2[j]);
        }
        assert forall|j: int| mid < j < hi implies key_le(
            key_of(pts[o2[mid] as int], o2[mid], axis),
            key_of(pts[#[trigger] o2[j] as int], o2[j], axis),
        ) by {
            assert(o1[j] == o2[j]);
        }
    }
}


/// Every position of `s[lo..hi]` holds a record index below `n`.
pub open spec fn indices_below(s: Seq<usize>, lo: int, hi: int, n: int) -> bool {
    forall|j: int| lo <= j < hi ==> (#[trigger] s[j]) < n
}

/// `order[lo..hi]` is sorted by key on `axis`.
pub open spec fn sorted_on(pts: Seq<Record>, ord: Seq<usize>, lo: int, hi: int, axis: int) -> bool {
    forall|a: int, b: int|
        lo <= a <= b < hi ==> key_le(
            key_of(pts[#[trigger] ord[a] as int], ord[a], axis),
            key_of(pts[#[trigger] ord[b] as int], ord[b], axis),
        )
}

/// `o1` holds the same record indices as `o0` in `[lo, hi)`, and the same
/// values outside it.
pub open spec fn rearranged(o0: Seq<usize>, o1: Seq<usize>, lo: int, hi: int) -> bool {
    &&& o1.len() == o0.len()
    &&& forall|j: int| 0 <= j < o0.len() && !(lo <= j < hi) ==> #[trigger] o1[j] == o0[j]
    &&& forall|j: int| lo <= j < hi ==> held_in(o0, lo, hi, #[trigger] o1[j])
    &&& forall|k: int| lo <= k < hi ==> held_in(o1, lo, hi, #[trigger] o0[k])
}

/// Sorts the positions `order[lo..hi]` by key on `axis`.
fn sort_range(pts: &Vec<Record>, order: &mut Vec<usize>, lo: usize, hi: usize, axis: usize)
    requires
        lo <= hi <= old(order)@.len(),
        axis < 2,
        indices_below(old(order)@, 0, old(order)@.len() as int, pts@.len() as int),
    ensures
        rearranged(old(order)@, final(order)@, lo as int, hi as int),
        indices_below(final(order)@, 0, final(order)@.len() as int, pts@.len() as int),
        sorted_on(pts@, final(order)@, lo as int, hi as int, axis as int),
{
    let ghost o0 = order@;
    let mut keys: Vec<(i32, usize)> = Vec::new();
    let mut j: usize = lo;
    while j < hi
        invariant
            lo <= j <= hi,
            hi <= o0.len(),
            order@ == o0,
            axis < 2,
            indices_below(o0, 0, o0.len() as int, pts@.len() as int),
            keys@.len() == j - lo,
            forall|t: int|
                0 <= t < j - lo ==> #[trigger] keys@[t] == key_of(
                    pts@[o0[lo + t] as int],
                    o0[lo + t],
                    axis as int,
                ),
        decreases hi - j,
    {
        let i = order[j];
        let c = if axis == 0 {
            pts[i].lat
        } else {
            pts[i].lon
        };
        keys.push((c, i));
        j = j + 1;
    }
    let ghost k0 = keys@;
    sort_keys(&mut keys);
    let ghost k1 = keys@;
    proof {
        k0.to_multiset_ensures();
        k1.to_multiset_ensures();
        assert forall|t: int| 0 <= t < k1.len() implies exists|u: int|
            0 <= u < k0.len() && #[trigger] k1[t] == k0[u] by {
            assert(k1.contains(k1[t]));
            assert(k1.to_multiset().count(k1[t]) > 0);
            assert(k0.contains(k1[t]));
        }
        assert forall|u: int| 0 <= u < k0.len() implies exists|t: int|
            0 <= t < k1.len() && k1[t] == #[trigger] k0[u] by {
            assert(k0.contains(k0[u]));
            assert(k0.to_multiset().count(k0[u]) > 0);
            assert(k1.contains(k0[u]));
        }
    }
    let mut j: usize = lo;
    while j < hi
        invariant
            lo <= j <= hi,
            hi <= o0.len(),
            order@.len() == o0.len(),
            keys@ == k1,
            k1.len() == hi - lo,
            forall|i: int| 0 <= i < o0.len() && !(lo <= i < j) ==> #[trigger] order@[i] == o0[i],
            forall|i: int| lo <= i < j ==> #[trigger] order@[i] == k1[i - lo].1,
        decreases hi - j,
    {
        let v = keys[j - lo].1;
        order.set(j, v);
        j = j + 1;
    }
    let ghost o1 = order@;
    proof {
        assert forall|i: int| lo <= i < hi implies held_in(o0, lo as int, hi as int, #[trigger] o1[i])
            && k1[i - lo] == key_of(pts@[o1[i] as int], o1[i], axis as int) by {
            let u = choose|u: int| 0 <= u < k0.len() && k1[i - lo] == k0[u];
            assert(o0[lo + u] == o1[i]);
        }
        assert forall|k: int| lo <= k < hi implies held_in(o1, lo as int, hi as int, #[trigger] o0[k]) by {
            let t = choose|t: int| 0 <= t < k1.len() && k1[t] == k0[k - lo];
            assert(o1[lo + t] == o0[k]);
        }
        assert forall|i: int| 0 <= i < o1.len() implies (#[trigger] o1[i]) < pts@.len() by {
            if lo <= i < hi {
                let k = choose|k: int| lo <= k < hi && o0[k] == o1[i];
            }
        }
        assert forall|a: int, b: int| lo <= a <= b < hi implies key_le(
            key_of(pts@[#[trigger] o1[a] as int], o1[a], axis as int),
            key_of(pts@[#[trigger] o1[b] as int], o1[b], axis as int),
        ) by {
            assert(k1[a - lo] == key_of(pts@[o1[a] as int], o1[a], axis as int));
            assert(k1[b - lo] == key_of(pts@[o1[b] as int], o1[b], axis as int));
            assert(key_le(k1[a - lo], k1[b - lo]));
        }
    }
}

/// Sorting a range by key and then arranging each side of its median into
/// a subtree on the other axis yields a subtree over the whole range.
proof fn lemma_split_subtree(
    pts: Seq<Record>,
    o0: Seq<usize>,
    o1: Seq<usize>,
    o2: Seq<usize>,
    o3: Seq<usize>,
    lo: int,
    hi: int,
    axis: int,
)
    requires
        0 <= lo < hi <= o0.len(),
        rearranged(o0, o1, lo, hi),
        sorted_on(pts, o1, lo, hi, axis),
        rearranged(o1, o2, lo, lo + (hi - lo) / 2),
        rearranged(o2, o3, lo + (hi - lo) / 2 + 1, hi),
        kd_ok(pts, o2, lo, lo + (hi - lo) / 2, 1 - axis),
        kd_ok(pts, o3, lo + (hi - lo) / 2 + 1, hi, 1 - axis),
    ensures
        rearranged(o0, o3, lo, hi),
        kd_ok(pts, o3, lo, hi, axis),
{
    let m = lo + (hi - lo) / 2;
    assert(o3[m] == o1[m]);
    lemma_kd_frame(pts, o2, o3, lo, m, 1 - axis);
    assert forall|j: int| lo <= j < m implies key_le(
        key_of(pts[#[trigger] o3[j] as int], o3[j], axis),
        key_of(pts[o3[m] as int], o3[m], axis),
    ) by {
        assert(o3[j] == o2[j]);
        let k = choose|k: int| lo <= k < m && o1[k] == o2[j];
        assert(key_le(
            key_of(pts[o1[k] as int], o1[k], axis),
            key_of(pts[o1[m] as int], o1[m], axis),
        ));
    }
    assert forall|j: int| m < j < hi implies key_le(
        key_of(pts[o3[m] as int], o3[m], axis),
        key_of(pts[#[trigger] o3[j] as int], o3[j], axis),
    ) by {
        let k = choose|k: int| m + 1 <= k < hi && o2[k] == o3[j];
        assert(o2[k] == o1[k]);
        assert(key_le(
            key_of(pts[o1[m] as int], o1[m], axis),
            key_of(pts[o1[k] as int], o1[k], axis),
        ));
    }
    assert forall|j: int| lo <= j < hi implies held_in(o0, lo, hi, #[trigger] o3[j]) by {
        if j < m {
            let k = choose|k: int| lo <= k < m && o1[k] == o2[j];
            assert(o3[j] == o2[j]);
            assert(held_in(o0, lo, hi, o1[k]));
        } else if j == m {
            assert(held_in(o0, lo, hi, o1[m]));
        } else {
            let k = choose|k: int| m + 1 <= k < hi && o2[k] == o3[j];
            assert(o2[k] == o1[k]);
            assert(held_in(o0, lo, hi, o1[k]));
        }
    }
    assert forall|k: int| lo <= k < hi implies held_in(o3, lo, hi, #[trigger] o0[k]) by {
        assert(held_in(o1, lo, hi, o0[k]));
        let i = choose|i: int| lo <= i < hi && o1[i] == o0[k];
        if i < m {
            assert(held_in(o2, lo, m, o1[i]));
            let j = choose|j: int| lo <= j < m && o2[j] == o1[i];
            assert(o3[j] == o2[j]);
        } else if i == m {
            assert(o3[m] == o0[k]);
        } else {
            assert(o2[i] == o1[i]);
            assert(held_in(o3, m + 1, hi, o2[i]));
        }
    }
}

/// Arranges `order[lo..hi]` into a subtree splitting on `axis`: the positions
/// are sorted by key on that axis, the median becomes the root, and each side
/// is arranged in turn on the other axis. Positions outside the range are
/// left as they are, and the range keeps the same record indices.
fn build_range(pts: &Vec<Record>, order: &mut Vec<usize>, lo: usize, hi: usize, axis: usize)
    requires
        lo <= hi <= old(order)@.len(),
        axis < 2,
        indices_below(old(order)@, 0, old(order)@.len() as int, pts@.len() as int),
    ensures
        rearranged(old(order)@, final(order)@, lo as int, hi as int),
        indices_below(final(order)@, 0, final(order)@.len() as int, pts@.len() as int),
        kd_ok(pts@, final(order)@, lo as int, hi as int, axis as int),
    decreases hi - lo,
{
    if hi - lo <= 1 {
        proof {
            reveal_with_fuel(kd_ok, 2);
            assert forall|k: int| lo <= k < hi implies held_in(
                order@,
                lo as int,
                hi as int,
                #[trigger] order@[k],
            ) by {
                assert(order@[k] == order@[k]);
            }
        }
        return ;
    }
    let ghost o0 = order@;
    sort_range(pts, order, lo, hi, axis);
    let ghost o1 = order@;
    let mid = lo + (hi - lo) / 2;
    build_range(pts, order, lo, mid, 1 - axis);
    let ghost o2 = order@;
    build_range(pts, order, mid + 1, hi, 1 - axis);
    proof {
        lemma_split_subtree(pts@, o0, o1, o2, order@, lo as int, hi as int, axis as int);
    }
}

/// A point at least as far along an axis as the splitting value, beyond a
/// query on the other side, is at least as far from the query as the
/// splitting line is.
proof fn lemma_beyond_plane(q: int, s: int, p: int, other: int)
    requires
        q < s <= p || p <= s <= q,
    ensures
        (q - p) * (q - p) + other * other >= (q - s) * (q - s),
{
    assert((q - p) * (q - p) >= (q - s) * (q - s)) by (nonlinear_arith)
        requires
            q < s <= p || p <= s <= q,
    ;
    assert(other * other >= 0) by (nonlinear_arith);
}

/// `n` positions that hold every record index below `n` hold each of
/// them once.
proof fn lemma_covering_is_distinct(s: Seq<usize>, n: int)
    requires
        s.len() == n,
        n <= usize::MAX,
        forall|i: usize| i < n ==> #[trigger] held_in(s, 0, n, i),
    ensures
        s.no_duplicates(),
{
    let t = s.map_values(|x: usize| x as int);
    assert(set_int_range(0, n).subset_of(t.to_set())) by {
        assert forall|v: int| #[trigger] set_int_range(0, n).contains(v) implies t.to_set().contains(v) by {
            assert(held_in(s, 0, n, v as usize));
            let k = choose|k: int| 0 <= k < n && s[k] == v as usize;
            assert(t[k] == s[k] as int);
            assert(t.contains(v));
        }
    }
    lemma_int_range(0, n);
    t.lemma_cardinality_of_set();
    lemma_len_subset(set_int_range(0, n), t.to_set());
    t.lemma_no_dup_set_cardinality();
    assert forall|a: int, b: int| 0 <= a < s.len() && 0 <= b < s.len() && a != b implies s[a] != s[b] by {
        assert(t[a] != t[b]);
    }
}

/// The spatial index: a balanced two-dimensional tree over the records of a
/// dataset, built once and read-only afterwards.
///
/// The tree is held implicitly: `order` lists record indices so that each
/// range of it is a subtree whose root is its middle position, splitting on
/// latitude at even depths and on longitude at odd ones.
pub struct ReverseGeocoder {
    locations: Locations,
    order: Vec<usize>,
}

impl ReverseGeocoder {
    /// The records the index was built over, in dataset order.
    pub closed spec fn records(&self) -> Seq<Record> {
        self.locations@
    }

    /// The index is non-empty, its tree holds every record exactly once, and
    /// the tree is partitioned by median on alternating axes. As no record
    /// appears twice, keys are distinct: every record left of a node is
    /// strictly smaller on the node's axis, ties broken by dataset position.
    pub closed spec fn wf(&self) -> bool {
        let n = self.locations@.len();
        &&& n > 0
        &&& self.order@.len() == n
        &&& indices_below(self.order@, 0, n as int, n as int)
        &&& forall|i: usize| i < n ==> #[trigger] held_in(self.order@, 0, n as int, i)
        &&& self.order@.no_duplicates()
        &&& kd_ok(self.locations@, self.order@, 0, n as int, 0)
    }

    /// Builds the index over a dataset; fails on a dataset with no records.
    pub fn new(loc: Locations) -> (r: Result<ReverseGeocoder, GeocoderError>)
        ensures
            loc@.len() == 0 <==> r matches Err(GeocoderError::EmptyDataset),
            r is Err ==> loc@.len() == 0,
            r matches Ok(g) ==> g.wf() && g.records() == loc@,
    {
        let n = loc.len();
        if n == 0 {
            return Err(GeocoderError::EmptyDataset);
        }
        let mut order: Vec<usize> = Vec::new();
        let mut i: usize = 0;
        while i < n
            invariant
                i <= n,
                order@.len() == i,
                forall|j: int| 0 <= j < i ==> #[trigger] order@[j] == j,
            decreases n - i,
        {
            order.push(i);
            i = i + 1;
        }
        let ghost o0 = order@;
        build_range(loc.records_vec(), &mut order, 0, n, 0);
        let g = ReverseGeocoder { locations: loc, order };
        proof {
            assert forall|i: usize| i < n implies #[trigger] held_in(g.order@, 0, n as int, i) by {
                assert(o0[i as int] == i);
            }
            lemma_covering_is_distinct(g.order@, n as int);
        }
        Ok(g)
    }

    /// The dataset the index was built over.
    pub fn locations(&self) -> (r: &Locations)
        ensures
            r@ == self.records(),
    {
        &self.locations
    }

    /// Branch-and-bound descent over the subtree `order[lo..hi]` splitting on
    /// `axis`, starting from the best candidate found so far; it returns the
    /// candidate no farther than `best` nor than any record of the subtree.
    fn search_range(&self, q: &[i32; 2], lo: usize, hi: usize, axis: usize, best: (i128, usize)) -> (r: (i128, usize))
        requires
            self.wf(),
            lo <= hi <= self.order@.len(),
            axis < 2,
            kd_ok(self.locations@, self.order@, lo as int, hi as int, axis as int),
            best.1 < self.locations@.len(),
            best.0 == sq_dist(q@, self.locations@[best.1 as int]),
        ensures
            r.1 < self.locations@.len(),
            r.0 == sq_dist(q@, self.locations@[r.1 as int]),
            no_farther(self.locations@, q@, r.1 as int, best.1 as int),
            forall|j: int|
                lo <= j < hi ==> no_farther(self.locations@, q@, r.1 as int, #[trigger] self.order@[j] as int),
        decreases hi - lo,
    {
        if lo >= hi {
            return best;
        }
        let ghost pts = self.locations@;
        let ghost ord = self.order@;
        let mid = lo + (hi - lo) / 2;
        let m = self.order[mid];
        let rec = self.locations.get(m);
        let d = distance(q, rec);
        let mut cur = best;
        if d < cur.0 || (d == cur.0 && m < cur.1) {
            cur = (d, m);
        }
        let ghost c0 = cur;
        let qc: i32 = q[axis];
        let mc: i32 = if axis == 0 { rec.lat } else { rec.lon };
        let diff: i128 = qc as i128 - mc as i128;
        proof {
            assert(diff * diff <= 0x1_0000_0000_0000_0000) by (nonlinear_arith)
                requires
                    -0x1_0000_0000 <= diff <= 0x1_0000_0000,
            ;
            assert(diff * diff >= 0) by (nonlinear_arith);
        }
        let plane: i128 = diff * diff;
        if qc < mc {
            cur = self.search_range(q, lo, mid, 1 - axis, cur);
            if plane <= cur.0 {
                cur = self.search_range(q, mid + 1, hi, 1 - axis, cur);
            } else {
                proof {
                    assert forall|j: int| mid < j < hi implies no_farther(pts, q@, cur.1 as int, #[trigger] ord[j] as int) by {
                        let p = pts[ord[j] as int];
                        assert(key_le(key_of(pts[ord[mid as int] as int], ord[mid as int], axis as int),
                            key_of(p, ord[j], axis as int)));
                        if axis == 0 {
                            lemma_beyond_plane(q@[0] as int, mc as int, p.lat as int, q@[1] - p.lon);
                        } else {
                            lemma_beyond_plane(q@[1] as int, mc as int, p.lon as int, q@[0] - p.lat);
                        }
                    }
                }
            }
        } else {
            cur = self.search_range(q, mid + 1, hi, 1 - axis, cur);
            if plane <= cur.0 {
                cur = self.search_range(q, lo, mid, 1 - axis, cur);
            } else {
                proof {
                    assert forall|j: int| lo <= j < mid implies no_farther(pts, q@, cur.1 as int, #[trigger] ord[j] as int) by {
                        let p = pts[ord[j] as int];
                        assert(key_le(key_of(p, ord[j], axis as int),
                            key_of(pts[ord[mid as int] as int], ord[mid as int], axis as int)));
                        if axis == 0 {
                            lemma_beyond_plane(q@[0] as int, mc as int, p.lat as int, q@[1] - p.lon);
                        } else {
                            lemma_beyond_plane(q@[1] as int, mc as int, p.lon as int, q@[0] - p.lat);
                        }
                    }
                }
            }
        }
        assert(no_farther(pts, q@, cur.1 as int, m as int));
        cur
    }

    /// The position in the dataset of the record nearest to `q`: the one a
    /// linear scan for the smallest squared distance finds, the earliest of
    /// those equally near.
    pub fn nearest_index(&self, q: &[i32; 2]) -> (r: usize)
        requires
            self.wf(),
        ensures
            r == scan_nearest(self.records(), q@, self.records().len() as int),
            is_nearest(self.records(), q@, r as int),
    {
        let n = self.locations.len();
        let first = distance(q, self.locations.get(0));
        let r = self.search_range(q, 0, n, 0, (first, 0));
        proof {
            let pts = self.locations@;
            assert forall|k: int| 0 <= k < pts.len() implies #[trigger] no_farther(pts, q@, r.1 as int, k) by {
                assert(held_in(self.order@, 0, n as int, k as usize));
                let j = choose|j: int| 0 <= j < n && self.order@[j] == k as usize;
            }
            lemma_scan_finds_nearest(pts, q@);
            lemma_nearest_unique(pts, q@, r.1 as int, scan_nearest(pts, q@, pts.len() as int));
        }
        r.1
    }

    /// The record nearest to `q`, by squared Euclidean distance over the raw
    /// coordinates; of records equally near, the earliest in the dataset.
    /// A built index is never empty, so there always is one.
    pub fn search(&self, loc: &[i32; 2]) -> (r: Option<Record>)
        requires
            self.wf(),
        ensures
            r == Some(self.records()[scan_nearest(self.records(), loc@, self.records().len() as int)]),
    {
        let i = self.nearest_index(loc);
        Some(self.locations.get(i).clone())
    }
}

/// Two indexes built over the same records give every query the same
/// answer, ties included; in particular one index asked the same query twice
/// answers the same both times.
pub proof fn lemma_builds_agree(g1: ReverseGeocoder, g2: ReverseGeocoder, q: Seq<i32>)
    requires
        g1.wf(),
        g2.wf(),
        g1.records() == g2.records(),
    ensures
        scan_nearest(g1.records(), q, g1.records().len() as int) == scan_nearest(
            g2.records(),
            q,
            g2.records().len() as int,
        ),
        g1.records()[scan_nearest(g1.records(), q, g1.records().len() as int)] == g2.records()[scan_nearest(
            g2.records(),
            q,
            g2.records().len() as int,
        )],
{
}

/// Whatever the dataset, the answer is the record that a linear scan for
/// the smallest squared distance finds: none is nearer, and none as near
/// comes earlier.
pub proof fn lemma_answer_is_nearest(g: ReverseGeocoder, q: Seq<i32>)
    requires
        g.wf(),
    ensures
        is_nearest(g.records(), q, scan_nearest(g.records(), q, g.records().len() as int)),
{
    lemma_scan_finds_nearest(g.records(), q);
}

} // verus!
