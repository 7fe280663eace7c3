use vstd::prelude::*;
use crate::dsu::{DSU, same, is_labeling, num_classes, merged};
use crate::edge::{Edge, is_catalog, lists_pair, valid_edge, edge_catalog};
use crate::point::{Point, COORD_LIMIT, all_in_range};
use crate::report::{Reported, report};

verus! {

broadcast use vstd::seq_lib::seq_to_set_is_finite;

/// Whether the unions `ops`, applied in order to nodes that start apart,
/// put `i` and `j` in one component: each union joins the components of its
/// two nodes.
pub open spec fn joined(ops: Seq<(int, int)>, i: int, j: int) -> bool
    decreases ops.len(),
{
    if ops.len() == 0 {
        i == j
    } else {
        let prev = ops.drop_last();
        let x = ops.last().0;
        let y = ops.last().1;
        ||| joined(prev, i, j)
        ||| (joined(prev, i, x) && joined(prev, j, y))
        ||| (joined(prev, i, y) && joined(prev, j, x))
    }
}

/// The node pairs of a run of edges.
pub open spec fn edge_pairs(es: Seq<Edge>) -> Seq<(int, int)> {
    es.map_values(|e: Edge| (e.a as int, e.b as int))
}

/// Every edge joins two of the nodes `0..n`.
pub open spec fn edges_within(es: Seq<Edge>, n: int) -> bool {
    forall|k: int| 0 <= k < es.len() ==> (#[trigger] es[k]).a < n && es[k].b < n
}

/// The unions `ops` leave all of the nodes `0..n` in a single component.
pub open spec fn all_joined(ops: Seq<(int, int)>, n: int) -> bool {
    forall|i: int, j: int| 0 <= i < n && 0 <= j < n ==> #[trigger] joined(ops, i, j)
}

/// `p` labels the components that `ops` make of the nodes `0..n`.
pub open spec fn labels(p: Seq<int>, ops: Seq<(int, int)>, n: int) -> bool {
    &&& p.len() == n
    &&& is_labeling(p)
    &&& forall|i: int, j: int| 0 <= i < n && 0 <= j < n ==> (same(p, i, j) <==> #[trigger] joined(ops, i, j))
}

proof fn lemma_joined_refl(ops: Seq<(int, int)>, i: int)
    ensures
        joined(ops, i, i),
    decreases ops.len(),
{
    if ops.len() > 0 {
        lemma_joined_refl(ops.drop_last(), i);
    }
}

/// Any run of unions splits the nodes into components: `joined` is
/// reflexive, symmetric and transitive, so every node lies in exactly one.
pub proof fn lemma_joined_partition(ops: Seq<(int, int)>)
    ensures
        forall|i: int| #[trigger] joined(ops, i, i),
        forall|i: int, j: int| #[trigger] joined(ops, i, j) ==> joined(ops, j, i),
        forall|i: int, j: int, k: int|
            #[trigger] joined(ops, i, j) && #[trigger] joined(ops, j, k) ==> joined(ops, i, k),
    decreases ops.len(),
{
    if ops.len() > 0 {
        let prev = ops.drop_last();
        lemma_joined_partition(prev);
        let x = ops.last().0;
        let y = ops.last().1;
        assert forall|i: int, j: int, k: int|
            #[trigger] joined(ops, i, j) && #[trigger] joined(ops, j, k) implies joined(ops, i, k) by {
            // every relation in `prev` among the five nodes, for the solver
            let facts = seq![
                joined(prev, i, j),
                joined(prev, i, k),
                joined(prev, i, x),
                joined(prev, i, y),
                joined(prev, j, i),
                joined(prev, j, k),
                joined(prev, j, x),
                joined(prev, j, y),
                joined(prev, k, i),
                joined(prev, k, j),
                joined(prev, k, x),
                joined(prev, k, y),
                joined(prev, x, i),
                joined(prev, x, j),
                joined(prev, x, k),
                joined(prev, x, y),
                joined(prev, y, i),
                joined(prev, y, j),
                joined(prev, y, k),
                joined(prev, y, x),
            ];
            assert(facts.len() == 20);
        }
        assert forall|i: int| #[trigger] joined(ops, i, i) by {
            assert(joined(prev, i, i));
        }
        assert forall|i: int, j: int| #[trigger] joined(ops, i, j) implies joined(ops, j, i) by {
            if joined(prev, i, j) {
                assert(joined(prev, j, i));
            }
        }
    }
}

proof fn lemma_pair_joined(ops: Seq<(int, int)>, t: int)
    requires
        0 <= t < ops.len(),
    ensures
        joined(ops, ops[t].0, ops[t].1),
    decreases ops.len(),
{
    let prev = ops.drop_last();
    if t == ops.len() - 1 {
        lemma_joined_refl(prev, ops[t].0);
        lemma_joined_refl(prev, ops[t].1);
    } else {
        lemma_pair_joined(prev, t);
        assert(prev[t] == ops[t]);
    }
}

proof fn lemma_take_push(es: Seq<Edge>, k: int)
    requires
        0 <= k < es.len(),
    ensures
        edge_pairs(es.take(k + 1)) == edge_pairs(es.take(k)).push((es[k].a as int, es[k].b as int)),
        edge_pairs(es.take(k + 1)).drop_last() == edge_pairs(es.take(k)),
{
    assert(edge_pairs(es.take(k + 1)) =~= edge_pairs(es.take(k)).push((es[k].a as int, es[k].b as int)));
    assert(edge_pairs(es.take(k + 1)).drop_last() =~= edge_pairs(es.take(k)));
}

/// One more union keeps a labelling in step with the unions made so far.
proof fn lemma_label_step(p: Seq<int>, q: Seq<int>, es: Seq<Edge>, k: int, n: int)
    requires
        0 <= k < es.len(),
        es[k].a < n,
        es[k].b < n,
        labels(p, edge_pairs(es.take(k)), n),
        merged(p, es[k].a as int, es[k].b as int, q),
        is_labeling(q),
    ensures
        labels(q, edge_pairs(es.take(k + 1)), n),
{
    lemma_take_push(es, k);
    let prev = edge_pairs(es.take(k));
    let ops = edge_pairs(es.take(k + 1));
    let x = es[k].a as int;
    let y = es[k].b as int;
    assert(ops.last() == (x, y));
    assert forall|i: int, j: int| 0 <= i < n && 0 <= j < n implies (same(q, i, j) <==> #[trigger] joined(ops, i, j)) by {
        assert(same(q, i, j) == (same(p, i, j) || (same(p, i, x) && same(p, j, y)) || (same(p, i, y) && same(p, j, x))));
        assert(joined(prev, i, x) == same(p, i, x));
        assert(joined(prev, j, y) == same(p, j, y));
        assert(joined(prev, i, y) == same(p, i, y));
        assert(joined(prev, j, x) == same(p, j, x));
        assert(joined(prev, i, j) == same(p, i, j));
    }
}

/// One labelling with a single component exactly when every node shares it.
proof fn lemma_one_class(p: Seq<int>)
    requires
        p.len() >= 1,
    ensures
        num_classes(p) == 1 <==> (forall|i: int, j: int| 0 <= i < p.len() && 0 <= j < p.len() ==> #[trigger] same(p, i, j)),
{
    if forall|i: int, j: int| 0 <= i < p.len() && 0 <= j < p.len() ==> #[trigger] same(p, i, j) {
        assert(p.to_set() =~= set![p[0]]) by {
            assert(p.contains(p[0]));
            assert forall|v: int| p.contains(v) implies v == p[0] by {
                let i = choose|i: int| 0 <= i < p.len() && p[i] == v;
                assert(same(p, i, 0));
            }
        }
        assert(set![p[0]].len() == 1);
    } else {
        let (i, j) = choose|i: int, j: int| 0 <= i < p.len() && 0 <= j < p.len() && !#[trigger] same(p, i, j);
        assert(p.contains(p[i]) && p.contains(p[j]));
        assert(p.to_set().remove(p[i]).contains(p[j]));
        vstd::set_lib::lemma_set_empty_equivalency_len(p.to_set().remove(p[i]));
    }
}

/// A fresh forest over `n` nodes after `union` on each of the first `count`
/// edges, in order: every node has exactly one representative, and two nodes
/// share it exactly when a chain of those edges connects them.
pub fn connect_prefix(n: usize, edges: &Vec<Edge>, count: usize) -> (d: DSU)
    requires
        edges_within(edges@, n as int),
        count <= edges@.len(),
    ensures
        d.wf(),
        labels(d@, edge_pairs(edges@.take(count as int)), n as int),
{
    let mut d = DSU::new(n);
    let mut k: usize = 0;
    while k < count
        invariant
            edges_within(edges@, n as int),
            count <= edges@.len(),
            k <= count,
            d.wf(),
            labels(d@, edge_pairs(edges@.take(k as int)), n as int),
        decreases count - k,
    {
        let e = edges[k];
        let ghost p = d@;
        d.union(e.a, e.b);
        proof {
            d.lemma_labeling();
            lemma_label_step(p, d@, edges@, k as int, n as int);
        }
        k = k + 1;
    }
    d
}

/// `k` is where the run of edges first connects all of the nodes `0..n`:
/// the first `k + 1` edges leave one component, the first `k` do not.
pub open spec fn completes_at(es: Seq<Edge>, n: int, k: int) -> bool {
    &&& 0 <= k < es.len()
    &&& all_joined(edge_pairs(es.take(k + 1)), n)
    &&& !all_joined(edge_pairs(es.take(k)), n)
}

/// Every pair of nodes of a catalog is connected by the whole catalog.
proof fn lemma_catalog_connects(pts: Seq<Point>, es: Seq<Edge>, p: Seq<int>)
    requires
        is_catalog(pts, es),
        labels(p, edge_pairs(es.take(es.len() as int)), pts.len() as int),
    ensures
        all_joined(edge_pairs(es.take(es.len() as int)), pts.len() as int),
{
    let n = pts.len() as int;
    let ops = edge_pairs(es.take(es.len() as int));
    assert forall|i: int, j: int| 0 <= i < n && 0 <= j < n implies #[trigger] joined(ops, i, j) by {
        if i == j {
            lemma_joined_refl(ops, i);
        } else {
            let lo = if i < j { i } else { j };
            let hi = if i < j { j } else { i };
            assert(lists_pair(es, lo, hi));
            let k = choose|k: int| 0 <= k < es.len() && (#[trigger] es[k]).a == lo && es[k].b == hi;
            assert(ops[k] == (lo, hi));
            lemma_pair_joined(ops, k);
            assert(same(p, lo, hi));
        }
    }
}

/// The bottleneck edge of a catalog: the edge whose union, with the edges
/// taken in catalog order, first leaves all nodes in one component. `None`
/// when there are fewer than two points, and so no edge.
pub fn bottleneck_edge(points: &Vec<Point>, edges: &Vec<Edge>) -> (r: Option<Edge>)
    requires
        is_catalog(points@, edges@),
    ensures
        r is Some <==> points@.len() >= 2,
        r matches Some(e) ==> exists|k: int|
            completes_at(edges@, points@.len() as int, k) && edges@[k] == e,
{
    let n = points.len();
    let mut d = DSU::new(n);
    let mut comps: usize = n;
    let mut k: usize = 0;
    while k < edges.len()
        invariant
            n == points@.len(),
            is_catalog(points@, edges@),
            k <= edges@.len(),
            d.wf(),
            labels(d@, edge_pairs(edges@.take(k as int)), n as int),
            comps == num_classes(d@),
            n >= 2 ==> comps >= 2,
        decreases edges@.len() - k,
    {
        let e = edges[k];
        let ghost p = d@;
        proof {
            assert(valid_edge(points@, edges@[k as int]));
        }
        let joined_now = d.union(e.a, e.b);
        proof {
            d.lemma_labeling();
            lemma_label_step(p, d@, edges@, k as int, n as int);
        }
        if joined_now {
            comps = comps - 1;
            if comps == 1 {
                proof {
                    lemma_one_class(d@);
                    lemma_one_class(p);
                    assert(all_joined(edge_pairs(edges@.take(k + 1)), n as int));
                    assert(!all_joined(edge_pairs(edges@.take(k as int)), n as int)) by {
                        if all_joined(edge_pairs(edges@.take(k as int)), n as int) {
                            assert forall|i: int, j: int| 0 <= i < n && 0 <= j < n implies #[trigger] same(p, i, j) by {
                                assert(joined(edge_pairs(edges@.take(k as int)), i, j));
                            }
                        }
                    }
                    assert(completes_at(edges@, n as int, k as int));
                }
                return Some(e);
            }
        }
        k = k + 1;
    }
    proof {
        if n >= 2 {
            lemma_catalog_connects(points@, edges@, d@);
            assert forall|i: int, j: int| 0 <= i < n && 0 <= j < n implies #[trigger] same(d@, i, j) by {
                assert(joined(edge_pairs(edges@.take(k as int)), i, j));
            }
            lemma_one_class(d@);
        }
    }
    None
}

/// How many edges of the catalog the cluster query unions.
pub const CLUSTER_EDGES: usize = 1000;

/// The number of nodes `j < k` that `ops` put with `i`.
pub open spec fn count_joined(ops: Seq<(int, int)>, i: int, k: int) -> nat
    decreases k,
{
    if k <= 0 {
        0
    } else {
        count_joined(ops, i, k - 1) + if joined(ops, i, k - 1) { 1nat } else { 0nat }
    }
}

/// `i` is the lowest-numbered node of its component.
pub open spec fn first_of_class(ops: Seq<(int, int)>, i: int) -> bool {
    forall|j: int| 0 <= j < i ==> !#[trigger] joined(ops, i, j)
}

/// The size of each component that `ops` make of the nodes `0..n`, listed at
/// the component's lowest-numbered node, and 0 at every other node.
pub open spec fn class_sizes(ops: Seq<(int, int)>, n: int) -> Seq<int> {
    Seq::new(
        n as nat,
        |i: int| if first_of_class(ops, i) { count_joined(ops, i, n) as int } else { 0 },
    )
}

/// The three largest of `t` and `v`, largest first.
pub open spec fn insert3(t: (int, int, int), v: int) -> (int, int, int) {
    if v > t.0 {
        (v, t.0, t.1)
    } else if v > t.1 {
        (t.0, v, t.1)
    } else if v > t.2 {
        (t.0, t.1, v)
    } else {
        t
    }
}

/// The three largest entries of `s`, repeats counted, largest first; 0 fills
/// the places that `s` is too short for.
pub open spec fn top3(s: Seq<int>) -> (int, int, int)
    decreases s.len(),
{
    if s.len() == 0 {
        (0, 0, 0)
    } else {
        insert3(top3(s.drop_last()), s.last())
    }
}

/// A missing component counts as size 1.
pub open spec fn pad(v: int) -> int {
    if v == 0 {
        1
    } else {
        v
    }
}

/// The product of the three largest entries of `s`, with 1 for any missing.
pub open spec fn top3_product(s: Seq<int>) -> int {
    pad(top3(s).0) * pad(top3(s).1) * pad(top3(s).2)
}

/// The product of the three largest component sizes after the unions of the
/// first `cap` edges of `es` (all of them, if fewer) over the nodes `0..n`.
pub open spec fn cluster_product_value(es: Seq<Edge>, n: int, cap: int) -> int {
    let k = if es.len() < cap { es.len() as int } else { cap };
    top3_product(class_sizes(edge_pairs(es.take(k)), n))
}

/// The number of nodes `j < k` labelled `v`.
spec fn count_label(p: Seq<int>, v: int, k: int) -> nat
    decreases k,
{
    if k <= 0 {
        0
    } else {
        count_label(p, v, k - 1) + if p[k - 1] == v { 1nat } else { 0nat }
    }
}

proof fn lemma_count_label(p: Seq<int>, ops: Seq<(int, int)>, n: int, i: int, k: int)
    requires
        labels(p, ops, n),
        0 <= i < n,
        0 <= k <= n,
    ensures
        count_joined(ops, i, k) == count_label(p, p[i], k),
    decreases k,
{
    if k > 0 {
        lemma_count_label(p, ops, n, i, k - 1);
        assert(joined(ops, i, k - 1) == same(p, i, k - 1));
    }
}

proof fn lemma_catalog_small(n: int, m: int)
    requires
        n >= 0,
        m == n * (n - 1) / 2,
        m <= usize::MAX,
    ensures
        n <= 0x2_0000_0000,
{
    if n > 0x2_0000_0000 {
        assert(n * (n - 1) >= 0x2_0000_0000 * 0x2_0000_0000) by (nonlinear_arith)
            requires
                n > 0x2_0000_0000,
        ;
    }
}

/// The cluster product of a catalog: union the first `cap` edges (all of
/// them, if fewer), then multiply the sizes of the three largest components,
/// a missing one counting as 1. With at most one point this is 1.
pub fn cluster_product_capped(points: &Vec<Point>, edges: &Vec<Edge>, cap: usize) -> (r: Reported)
    requires
        is_catalog(points@, edges@),
    ensures
        r == Reported::of(cluster_product_value(edges@, points@.len() as int, cap as int)),
        points@.len() <= 1 ==> r == Reported::Normal(1),
{
    let n = points.len();
    let m = edges.len();
    proof {
        lemma_catalog_small(n as int, m as int);
        assert forall|k: int| 0 <= k < edges@.len() implies (#[trigger] edges@[k]).a < n && edges@[k].b < n by {
            assert(valid_edge(points@, edges@[k]));
        }
    }
    let count = if m < cap { m } else { cap };
    let mut d = connect_prefix(n, edges, count);
    let ghost p = d@;
    let ghost ops = edge_pairs(edges@.take(count as int));
    let ghost cs = class_sizes(ops, n as int);
    proof {
        d.lemma_labeling();
    }

    let mut cnt: Vec<usize> = Vec::new();
    let mut seen: Vec<bool> = Vec::new();
    let mut i: usize = 0;
    while i < n
        invariant
            i <= n,
            cnt@.len() == i,
            seen@.len() == i,
            forall|v: int| 0 <= v < i ==> #[trigger] cnt@[v] == 0,
            forall|v: int| 0 <= v < i ==> !#[trigger] seen@[v],
        decreases n - i,
    {
        cnt.push(0);
        seen.push(false);
        i = i + 1;
    }

    let mut i: usize = 0;
    while i < n
        invariant
            i <= n,
            n == p.len(),
            d.wf(),
            d@ == p,
            labels(p, ops, n as int),
            cnt@.len() == n,
            forall|v: int| 0 <= v < n ==> #[trigger] cnt@[v] == count_label(p, v, i as int),
            forall|v: int| 0 <= v < n ==> #[trigger] cnt@[v] <= i,
        decreases n - i,
    {
        let r = d.find(i);
        let c = cnt[r];
        cnt.set(r, c + 1);
        i = i + 1;
    }

    let mut sizes: Vec<usize> = Vec::new();
    let mut i: usize = 0;
    while i < n
        invariant
            i <= n,
            n == p.len(),
            d.wf(),
            d@ == p,
            labels(p, ops, n as int),
            cs == class_sizes(ops, n as int),
            cnt@.len() == n,
            seen@.len() == n,
            forall|v: int| 0 <= v < n ==> #[trigger] cnt@[v] == count_label(p, v, n as int),
            forall|v: int| 0 <= v < n ==> #[trigger] cnt@[v] <= n,
            forall|v: int| 0 <= v < n ==> (#[trigger] seen@[v] <==> exists|j: int| 0 <= j < i && p[j] == v),
            sizes@.len() == i,
            forall|j: int| 0 <= j < i ==> #[trigger] sizes@[j] == cs[j],
            forall|j: int| 0 <= j < i ==> #[trigger] sizes@[j] <= n,
        decreases n - i,
    {
        let r = d.find(i);
        proof {
            lemma_count_label(p, ops, n as int, i as int, n as int);
            if seen@[r as int] {
                let j = choose|j: int| 0 <= j < i && p[j] == r;
                assert(same(p, i as int, j));
                assert(joined(ops, i as int, j));
                assert(!first_of_class(ops, i as int));
            } else {
                assert forall|j: int| 0 <= j < i implies !#[trigger] joined(ops, i as int, j) by {
                    assert(!same(p, i as int, j));
                }
            }
        }
        if !seen[r] {
            seen.set(r, true);
            sizes.push(cnt[r]);
        } else {
            sizes.push(0);
        }
        i = i + 1;
    }

    let mut t0: usize = 0;
    let mut t1: usize = 0;
    let mut t2: usize = 0;
    let mut i: usize = 0;
    while i < n
        invariant
            i <= n,
            n <= 0x2_0000_0000,
            cs.len() == n,
            sizes@.len() == n,
            forall|j: int| 0 <= j < n ==> #[trigger] sizes@[j] == cs[j],
            forall|j: int| 0 <= j < n ==> #[trigger] sizes@[j] <= n,
            (t0 as int, t1 as int, t2 as int) == top3(cs.take(i as int)),
            t0 <= n,
            t1 <= n,
            t2 <= n,
        decreases n - i,
    {
        let v = sizes[i];
        assert(cs.take(i + 1).drop_last() =~= cs.take(i as int));
        if v > t0 {
            t2 = t1;
            t1 = t0;
            t0 = v;
        } else if v > t1 {
            t2 = t1;
            t1 = v;
        } else if v > t2 {
            t2 = v;
        }
        i = i + 1;
    }
    assert(cs.take(n as int) =~= cs);
    proof {
        if n == 1 {
            lemma_joined_refl(ops, 0);
            assert(count_joined(ops, 0, 1) == 1);
            assert(cs.drop_last() =~= Seq::<int>::empty());
        }
    }
    let a: u128 = if t0 == 0 { 1 } else { t0 as u128 };
    let b: u128 = if t1 == 0 { 1 } else { t1 as u128 };
    let c: u128 = if t2 == 0 { 1 } else { t2 as u128 };
    assert(a * b <= 0x4_0000_0000_0000_0000) by (nonlinear_arith)
        requires
            a <= 0x2_0000_0000,
            b <= 0x2_0000_0000,
    ;
    assert(a * b * c <= 0x8_0000_0000_0000_0000_0000_0000) by (nonlinear_arith)
        requires
            a * b <= 0x4_0000_0000_0000_0000,
            c <= 0x2_0000_0000,
    ;
    let prod: u128 = a * b * c;
    report(prod as i128)
}

/// The cluster product over the first `CLUSTER_EDGES` edges of the catalog.
pub fn cluster_product(points: &Vec<Point>, edges: &Vec<Edge>) -> (r: Reported)
    requires
        is_catalog(points@, edges@),
    ensures
        r == Reported::of(cluster_product_value(edges@, points@.len() as int, CLUSTER_EDGES as int)),
        points@.len() <= 1 ==> r == Reported::Normal(1),
{
    cluster_product_capped(points, edges, CLUSTER_EDGES)
}

/// The bottleneck value of a catalog: the product of the first coordinates
/// of the two ends of its bottleneck edge. `None` when there are fewer than
/// two points.
pub fn bottleneck_value(points: &Vec<Point>, edges: &Vec<Edge>) -> (r: Option<Reported>)
    requires
        is_catalog(points@, edges@),
    ensures
        r is Some <==> points@.len() >= 2,
        r matches Some(v) ==> exists|k: int|
            completes_at(edges@, points@.len() as int, k) && v == Reported::of(
                points@[edges@[k].a as int].x * points@[edges@[k].b as int].x,
            ),
{
    match bottleneck_edge(points, edges) {
        None => None,
        Some(e) => {
            proof {
                let k = choose|k: int| completes_at(edges@, points@.len() as int, k) && edges@[k] == e;
                assert(valid_edge(points@, edges@[k]));
            }
            let xa = points[e.a].x as i128;
            let xb = points[e.b].x as i128;
            assert(xa * xb <= 0x4000_0000_0000_0000_0000_0000_0000_0000 && xa * xb >= -0x4000_0000_0000_0000_0000_0000_0000_0000) by (nonlinear_arith)
                requires
                    -0x8000_0000_0000_0000 <= xa <= 0x8000_0000_0000_0000,
                    -0x8000_0000_0000_0000 <= xb <= 0x8000_0000_0000_0000,
            ;
            Some(report(xa * xb))
        },
    }
}

/// Both query results for one point set.
#[derive(Clone, Copy, Debug, PartialEq, Eq, Structural)]
pub struct Analysis {
    pub cluster_product: Reported,
    pub bottleneck: Option<Reported>,
}

/// Runs both queries over one catalog of `points`, each on a forest of its
/// own.
pub fn analyze(points: &Vec<Point>) -> (r: Analysis)
    requires
        all_in_range(points@),
    ensures
        exists|es: Seq<Edge>|
            is_catalog(points@, es) && r.cluster_product == Reported::of(
                cluster_product_value(es, points@.len() as int, CLUSTER_EDGES as int),
            ) && (r.bottleneck matches Some(v) ==> exists|k: int|
                completes_at(es, points@.len() as int, k) && v == Reported::of(
                    points@[es[k].a as int].x * points@[es[k].b as int].x,
                )),
        r.bottleneck is Some <==> points@.len() >= 2,
        points@.len() <= 1 ==> r.cluster_product == Reported::Normal(1),
{
    let edges = edge_catalog(points);
    let cluster_product = cluster_product(points, &edges);
    let bottleneck = bottleneck_value(points, &edges);
    Analysis { cluster_product, bottleneck }
}

/// Whether every coordinate is small enough for exact squared distances.
pub fn points_in_range(points: &Vec<Point>) -> (r: bool)
    ensures
        r == all_in_range(points@),
{
    let mut i: usize = 0;
    while i < points.len()
        invariant
            i <= points@.len(),
            forall|k: int| 0 <= k < i ==> (#[trigger] points@[k]).in_range(),
        decreases points@.len() - i,
    {
        let p = points[i];
        if !(-COORD_LIMIT <= p.x && p.x <= COORD_LIMIT && -COORD_LIMIT <= p.y && p.y <= COORD_LIMIT
            && -COORD_LIMIT <= p.z && p.z <= COORD_LIMIT) {
            return false;
        }
        i = i + 1;
    }
    true
}

} // verus!
