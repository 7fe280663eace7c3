use vstd::prelude::*;
use crate::point::{Point, sq_dist, all_in_range, squared_distance};

verus! {

broadcast use vstd::seq_lib::group_to_multiset_ensures;

/// An unordered pair of distinct nodes, canonicalised so that `a < b`, with
/// the squared distance between their points.
#[derive(Clone, Copy, Debug, PartialEq, Eq, Structural)]
pub struct Edge {
    pub dist2: u128,
    pub a: usize,
    pub b: usize,
}

/// The total order of the catalog: by squared distance, then by the lower
/// index, then by the higher index.
pub open spec fn edge_lt(e: Edge, f: Edge) -> bool {
    ||| e.dist2 < f.dist2
    ||| (e.dist2 == f.dist2 && e.a < f.a)
    ||| (e.dist2 == f.dist2 && e.a == f.a && e.b < f.b)
}

/// The order on the index pair alone.
pub open spec fn pair_lt(e: Edge, f: Edge) -> bool {
    e.a < f.a || (e.a == f.a && e.b < f.b)
}

/// Non-decreasing in the catalog order.
pub open spec fn sorted(s: Seq<Edge>) -> bool {
    forall|i: int, j: int| 0 <= i < j < s.len() ==> !edge_lt(#[trigger] s[j], #[trigger] s[i])
}

/// Strictly increasing in the catalog order.
pub open spec fn strictly_sorted(s: Seq<Edge>) -> bool {
    forall|i: int, j: int| 0 <= i < j < s.len() ==> edge_lt(#[trigger] s[i], #[trigger] s[j])
}

/// `e` joins two distinct points of `pts`, lower index first, and carries
/// their squared distance.
pub open spec fn valid_edge(pts: Seq<Point>, e: Edge) -> bool {
    &&& e.a < e.b < pts.len()
    &&& e.dist2 == sq_dist(pts[e.a as int], pts[e.b as int])
}

/// Some edge of `es` joins `i` and `j`, lower index first.
pub open spec fn lists_pair(es: Seq<Edge>, i: int, j: int) -> bool {
    exists|k: int| 0 <= k < es.len() && (#[trigger] es[k]).a == i && es[k].b == j
}

/// `es` is the sorted edge catalog of `pts`: one edge per unordered pair of
/// nodes, strictly increasing in the catalog order.
pub open spec fn is_catalog(pts: Seq<Point>, es: Seq<Edge>) -> bool {
    &&& es.len() == pts.len() * (pts.len() - 1) / 2
    &&& forall|k: int| 0 <= k < es.len() ==> valid_edge(pts, #[trigger] es[k])
    &&& forall|i: int, j: int| 0 <= i < j < pts.len() ==> #[trigger] lists_pair(es, i, j)
    &&& strictly_sorted(es)
}

impl Edge {
    /// Whether `self` comes strictly before `other` in the catalog order.
    pub fn precedes(&self, other: &Edge) -> (r: bool)
        ensures
            r == edge_lt(*self, *other),
    {
        if self.dist2 != other.dist2 {
            self.dist2 < other.dist2
        } else if self.a != other.a {
            self.a < other.a
        } else {
            self.b < other.b
        }
    }
}

/// Merges two sorted runs into one sorted run holding both.
fn merge(l: &Vec<Edge>, r: &Vec<Edge>) -> (out: Vec<Edge>)
    requires
        sorted(l@),
        sorted(r@),
    ensures
        sorted(out@),
        out@.to_multiset() == l@.to_multiset().add(r@.to_multiset()),
{
    let mut out: Vec<Edge> = Vec::new();
    let mut i: usize = 0;
    let mut j: usize = 0;
    while i < l.len() || j < r.len()
        invariant
            i <= l.len(),
            j <= r.len(),
            sorted(l@),
            sorted(r@),
            sorted(out@),
            out@.len() == i + j,
            out@.to_multiset() == l@.subrange(0, i as int).to_multiset().add(
                r@.subrange(0, j as int).to_multiset(),
            ),
            forall|k: int|
                0 <= k < out@.len() ==> (i < l.len() ==> !edge_lt(l@[i as int], #[trigger] out@[k])),
            forall|k: int|
                0 <= k < out@.len() ==> (j < r.len() ==> !edge_lt(r@[j as int], #[trigger] out@[k])),
        decreases l.len() + r.len() - i - j,
    {
        let take_left = if i == l.len() {
            false
        } else if j == r.len() {
            true
        } else {
            !r[j].precedes(&l[i])
        };
        let ghost old_out = out@;
        if take_left {
            let e = l[i];
            assert(l@.subrange(0, i + 1) =~= l@.subrange(0, i as int).push(e));
            out.push(e);
            i = i + 1;
        } else {
            let e = r[j];
            assert(r@.subrange(0, j + 1) =~= r@.subrange(0, j as int).push(e));
            out.push(e);
            j = j + 1;
        }
        assert(out@ =~= old_out.push(out@.last()));
    }
    assert(l@.subrange(0, i as int) =~= l@);
    assert(r@.subrange(0, j as int) =~= r@);
    out
}

/// Sorts `v[lo..hi]` into a new vector, keeping every element.
fn merge_sort(v: &Vec<Edge>, lo: usize, hi: usize) -> (out: Vec<Edge>)
    requires
        lo <= hi <= v.len(),
    ensures
        sorted(out@),
        out@.to_multiset() == v@.subrange(lo as int, hi as int).to_multiset(),
    decreases hi - lo,
{
    if hi - lo <= 1 {
        let mut out: Vec<Edge> = Vec::new();
        if hi - lo == 1 {
            out.push(v[lo]);
        }
        assert(out@ =~= v@.subrange(lo as int, hi as int));
        out
    } else {
        let mid = lo + (hi - lo) / 2;
        let left = merge_sort(v, lo, mid);
        let right = merge_sort(v, mid, hi);
        proof {
            let s = v@.subrange(lo as int, hi as int);
            assert(s =~= v@.subrange(lo as int, mid as int) + v@.subrange(mid as int, hi as int));
            vstd::seq_lib::lemma_multiset_commutative(
                v@.subrange(lo as int, mid as int),
                v@.subrange(mid as int, hi as int),
            );
        }
        merge(&left, &right)
    }
}

/// Every edge between two distinct points, in order of the index pair, not
/// yet sorted by distance.
fn all_pairs(points: &Vec<Point>) -> (g: Vec<Edge>)
    requires
        all_in_range(points@),
    ensures
        2 * g@.len() == points@.len() * (points@.len() - 1),
        forall|k: int| 0 <= k < g@.len() ==> valid_edge(points@, #[trigger] g@[k]),
        forall|i: int, j: int| 0 <= i < j < points@.len() ==> #[trigger] lists_pair(g@, i, j),
        forall|k1: int, k2: int| 0 <= k1 < k2 < g@.len() ==> pair_lt(#[trigger] g@[k1], #[trigger] g@[k2]),
{
    let n = points.len();
    let mut g: Vec<Edge> = Vec::new();
    let mut i: usize = 0;
    while i < n
        invariant
            n == points@.len(),
            all_in_range(points@),
            i <= n,
            2 * g@.len() == i * (2 * n - i - 1),
            forall|k: int| 0 <= k < g@.len() ==> valid_edge(points@, #[trigger] g@[k]),
            forall|k: int| 0 <= k < g@.len() ==> (#[trigger] g@[k]).a < i,
            forall|a: int, b: int| 0 <= a < b < n && a < i ==> #[trigger] lists_pair(g@, a, b),
            forall|k1: int, k2: int| 0 <= k1 < k2 < g@.len() ==> pair_lt(#[trigger] g@[k1], #[trigger] g@[k2]),
        decreases n - i,
    {
        let mut j: usize = i + 1;
        while j < n
            invariant
                n == points@.len(),
                all_in_range(points@),
                i < n,
                i < j <= n,
                2 * g@.len() == i * (2 * n - i - 1) + 2 * (j - i - 1),
                forall|k: int| 0 <= k < g@.len() ==> valid_edge(points@, #[trigger] g@[k]),
                forall|k: int| 0 <= k < g@.len() ==> pair_lt(#[trigger] g@[k], Edge { dist2: 0, a: i, b: j }),
                forall|k: int| 0 <= k < g@.len() ==> (#[trigger] g@[k]).a <= i,
                forall|a: int, b: int| 0 <= a < b < n && (a < i || (a == i && b < j)) ==> #[trigger] lists_pair(g@, a, b),
                forall|k1: int, k2: int| 0 <= k1 < k2 < g@.len() ==> pair_lt(#[trigger] g@[k1], #[trigger] g@[k2]),
            decreases n - j,
        {
            let d = squared_distance(&points[i], &points[j]);
            let e = Edge { dist2: d, a: i, b: j };
            let ghost old_g = g@;
            g.push(e);
            proof {
                assert(g@[old_g.len() as int] == e);
                assert forall|a: int, b: int| 0 <= a < b < n && (a < i || (a == i && b < j + 1)) implies #[trigger] lists_pair(g@, a, b) by {
                    if a == i && b == j {
                        assert(g@[old_g.len() as int] == e);
                    } else {
                        assert(lists_pair(old_g, a, b));
                        let k = choose|k: int| 0 <= k < old_g.len() && (#[trigger] old_g[k]).a == a && old_g[k].b == b;
                        assert(g@[k] == old_g[k]);
                    }
                }
                assert(2 * g@.len() == i * (2 * n - i - 1) + 2 * (j + 1 - i - 1));
            }
            j = j + 1;
        }
        proof {
            assert(i * (2 * n - i - 1) + 2 * (n - i - 1) == (i + 1) * (2 * n - (i + 1) - 1)) by (nonlinear_arith);
        }
        i = i + 1;
    }
    proof {
        assert(n * (2 * n - n - 1) == n * (n - 1)) by (nonlinear_arith);
    }
    g
}

/// The sorted edge catalog of `points`: every unordered pair of distinct
/// nodes once, ordered by squared distance, then lower index, then higher
/// index.
pub fn edge_catalog(points: &Vec<Point>) -> (es: Vec<Edge>)
    requires
        all_in_range(points@),
    ensures
        is_catalog(points@, es@),
{
    let g = all_pairs(points);
    let es = merge_sort(&g, 0, g.len());
    proof {
        assert(g@.subrange(0, g@.len() as int) =~= g@);
        assert(g@.no_duplicates()) by {
            assert forall|k1: int, k2: int| 0 <= k1 < g@.len() && 0 <= k2 < g@.len() && k1 != k2 implies g@[k1] != g@[k2] by {
                if k1 < k2 {
                    assert(pair_lt(g@[k1], g@[k2]));
                } else {
                    assert(pair_lt(g@[k2], g@[k1]));
                }
            }
        }
        g@.lemma_multiset_has_no_duplicates();
        es@.lemma_multiset_has_no_duplicates_conv();
        assert(es@.len() == es@.to_multiset().len());
        assert(g@.len() == g@.to_multiset().len());
        assert(es@.len() == g@.len());
        let n = points@.len();
        assert(es@.len() == n * (n - 1) / 2);
        assert forall|k: int| 0 <= k < es@.len() implies valid_edge(points@, #[trigger] es@[k]) by {
            assert(es@.to_multiset().count(es@[k]) > 0);
            assert(g@.contains(es@[k]));
        }
        assert forall|i: int, j: int| 0 <= i < j < n implies #[trigger] lists_pair(es@, i, j) by {
            assert(lists_pair(g@, i, j));
            let k = choose|k: int| 0 <= k < g@.len() && (#[trigger] g@[k]).a == i && g@[k].b == j;
            assert(g@.to_multiset().count(g@[k]) > 0);
            assert(es@.contains(g@[k]));
        }
        assert forall|k1: int, k2: int| 0 <= k1 < k2 < es@.len() implies edge_lt(#[trigger] es@[k1], #[trigger] es@[k2]) by {
            assert(es@[k1] != es@[k2]);
        }
    }
    es
}

/// Edges of a catalog at equal distance stand in order of their index
/// pairs, lower index first, then higher.
pub proof fn lemma_ties_by_index(pts: Seq<Point>, es: Seq<Edge>, i: int, j: int)
    requires
        is_catalog(pts, es),
        0 <= i < j < es.len(),
        es[i].dist2 == es[j].dist2,
    ensures
        pair_lt(es[i], es[j]),
{
    assert(edge_lt(es[i], es[j]));
}

} // verus!
