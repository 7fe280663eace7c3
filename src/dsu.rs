use vstd::prelude::*;

verus! {

broadcast use vstd::seq_lib::seq_to_set_is_finite;

/// A labelling of nodes `0..p.len()` by components: `p[i]` names the
/// component of node `i`, by one of its own members.
pub open spec fn is_labeling(p: Seq<int>) -> bool {
    forall|i: int| 0 <= i < p.len() ==> 0 <= #[trigger] p[i] < p.len() && p[p[i]] == p[i]
}

/// Nodes `i` and `j` lie in the same component.
pub open spec fn same(p: Seq<int>, i: int, j: int) -> bool {
    p[i] == p[j]
}

/// `q` is `p` with the components of `x` and `y` joined into one, and no
/// other change to which nodes share a component.
pub open spec fn merged(p: Seq<int>, x: int, y: int, q: Seq<int>) -> bool {
    &&& q.len() == p.len()
    &&& forall|i: int, j: int|
        0 <= i < p.len() && 0 <= j < p.len() ==> (#[trigger] same(q, i, j) <==> (same(p, i, j) || (
        same(p, i, x) && same(p, j, y)) || (same(p, i, y) && same(p, j, x))))
}

/// What one call of `union(x, y)` does, from labelling `p` to labelling `q`
/// with result `joined`: it joins the two components, and reports whether
/// they were apart; when they were not, nothing changes.
pub open spec fn union_outcome(p: Seq<int>, x: int, y: int, q: Seq<int>, joined: bool) -> bool {
    &&& merged(p, x, y, q)
    &&& joined == !same(p, x, y)
    &&& !joined ==> q == p
}

/// A second `union(x, y)` right after a first one reports nothing joined
/// and leaves every component as it was.
pub proof fn lemma_union_idempotent(
    p0: Seq<int>,
    p1: Seq<int>,
    p2: Seq<int>,
    x: int,
    y: int,
    first: bool,
    second: bool,
)
    requires
        0 <= x < p0.len(),
        0 <= y < p0.len(),
        union_outcome(p0, x, y, p1, first),
        union_outcome(p1, x, y, p2, second),
    ensures
        !second,
        p2 == p1,
{
    assert(same(p1, x, y));
}

/// The number of distinct components.
pub open spec fn num_classes(p: Seq<int>) -> nat {
    p.to_set().len()
}

/// Every node alone in its own component.
pub open spec fn singletons(n: nat) -> Seq<int> {
    Seq::new(n, |i: int| i)
}

/// `p` with every node of component `from` moved into component `to`.
pub open spec fn relabel(p: Seq<int>, from: int, to: int) -> Seq<int> {
    Seq::new(p.len(), |i: int| if p[i] == from { to } else { p[i] })
}

proof fn lemma_relabel_classes(p: Seq<int>, from: int, to: int)
    requires
        from != to,
        p.contains(from),
        p.contains(to),
    ensures
        relabel(p, from, to).to_set() == p.to_set().remove(from),
        num_classes(relabel(p, from, to)) + 1 == num_classes(p),
        num_classes(p) >= 2,
{
    let q = relabel(p, from, to);
    assert forall|v: int| q.to_set().contains(v) <==> p.to_set().remove(from).contains(v) by {
        if q.contains(v) {
            let i = choose|i: int| 0 <= i < q.len() && q[i] == v;
            if p[i] != from {
                assert(p[i] == v);
            }
        }
        if p.contains(v) && v != from {
            let i = choose|i: int| 0 <= i < p.len() && p[i] == v;
            assert(q[i] == v);
        }
    }
    assert(q.to_set() =~= p.to_set().remove(from));
    assert(p.to_set().contains(from));
    assert(p.to_set().remove(from).contains(to));
    vstd::set_lib::lemma_set_empty_equivalency_len(p.to_set().remove(from));
}

/// A disjoint-set forest over nodes `0..n`, with path compression and union
/// by rank.
pub struct DSU {
    parent: Vec<usize>,
    rank: Vec<usize>,
    /// The root of each node's tree.
    rep: Ghost<Seq<int>>,
    /// The number of successful unions so far.
    merges: Ghost<nat>,
}

impl View for DSU {
    type V = Seq<int>;

    /// The representative of each node.
    closed spec fn view(&self) -> Seq<int> {
        self.rep@
    }
}

impl DSU {
    pub closed spec fn wf(&self) -> bool {
        let n = self.parent@.len();
        &&& self.rank@.len() == n
        &&& self.rep@.len() == n
        &&& forall|i: int| 0 <= i < n ==> (#[trigger] self.parent@[i]) < n
        &&& forall|i: int| 0 <= i < n ==> 0 <= #[trigger] self.rep@[i] < n
        &&& forall|i: int| 0 <= i < n ==> self.parent@[#[trigger] self.rep@[i]] == self.rep@[i]
        &&& forall|i: int| 0 <= i < n && #[trigger] self.parent@[i] == i ==> self.rep@[i] == i
        &&& forall|i: int| 0 <= i < n ==> self.rep@[#[trigger] self.parent@[i] as int] == self.rep@[i]
        &&& forall|i: int|
            0 <= i < n && #[trigger] self.parent@[i] != i ==> self.rank@[i] < self.rank@[self.parent@[i] as int]
        &&& forall|i: int|
            0 <= i < n && #[trigger] self.parent@[i] != i ==> self.rank@[i] < self.rank@[self.rep@[i]]
        &&& forall|i: int| 0 <= i < n ==> #[trigger] self.rank@[i] <= self.merges@
        &&& self.merges@ + self.rep@.to_set().len() == n
    }

    /// A well-formed forest labels every node with exactly one component.
    pub proof fn lemma_labeling(&self)
        requires
            self.wf(),
        ensures
            is_labeling(self@),
    {
        assert forall|i: int| 0 <= i < self@.len() implies 0 <= #[trigger] self@[i] < self@.len()
            && self@[self@[i]] == self@[i] by {
            let r = self.rep@[i];
            assert(self.parent@[r] == r);
        }
    }

    /// `n` nodes, each in a component of its own.
    pub fn new(n: usize) -> (d: DSU)
        ensures
            d.wf(),
            d@ == singletons(n as nat),
            is_labeling(d@),
            num_classes(d@) == n,
    {
        let mut parent: Vec<usize> = Vec::new();
        let mut rank: Vec<usize> = Vec::new();
        let mut i: usize = 0;
        while i < n
            invariant
                i <= n,
                parent@.len() == i,
                rank@.len() == i,
                forall|k: int| 0 <= k < i ==> #[trigger] parent@[k] == k,
                forall|k: int| 0 <= k < i ==> #[trigger] rank@[k] == 0,
            decreases n - i,
        {
            parent.push(i);
            rank.push(0);
            i = i + 1;
        }
        let ghost rep = singletons(n as nat);
        proof {
            assert(rep.no_duplicates());
            rep.unique_seq_to_set();
        }
        let d = DSU { parent, rank, rep: Ghost(rep), merges: Ghost(0) };
        proof {
            d.lemma_labeling();
        }
        d
    }

    /// The number of nodes.
    pub fn len(&self) -> (r: usize)
        requires
            self.wf(),
        ensures
            r == self@.len(),
    {
        self.parent.len()
    }

    fn find_root(&mut self, x: usize) -> (r: usize)
        requires
            old(self).wf(),
            x < old(self).parent@.len(),
        ensures
            final(self).wf(),
            final(self).rep == old(self).rep,
            final(self).rank == old(self).rank,
            final(self).merges == old(self).merges,
            final(self).parent@.len() == old(self).parent@.len(),
            r == old(self).rep@[x as int],
        decreases old(self).merges@ - old(self).rank@[x as int],
    {
        let p = self.parent[x];
        if p == x {
            return x;
        }
        assert(self.rank@[p as int] <= self.merges@);
        let root = self.find_root(p);
        proof {
            let r = self.rep@[x as int];
            assert(self.parent@[r] == r);
        }
        self.parent.set(x, root);
        root
    }

    /// The representative of `x`'s component. Every node met on the way to
    /// the root is repointed at the root; no component changes.
    pub fn find(&mut self, x: usize) -> (r: usize)
        requires
            old(self).wf(),
            x < old(self)@.len(),
        ensures
            final(self).wf(),
            final(self)@ == old(self)@,
            r == old(self)@[x as int],
    {
        self.find_root(x)
    }

    /// Joins the components of `x` and `y`. Returns whether they were apart:
    /// the lower-rank root goes under the higher-rank one, and on equal ranks
    /// `y`'s root goes under `x`'s, whose rank then grows by one.
    pub fn union(&mut self, x: usize, y: usize) -> (joined: bool)
        requires
            old(self).wf(),
            x < old(self)@.len(),
            y < old(self)@.len(),
        ensures
            final(self).wf(),
            union_outcome(old(self)@, x as int, y as int, final(self)@, joined),
            joined ==> num_classes(final(self)@) + 1 == num_classes(old(self)@),
    {
        let px = self.find_root(x);
        let py = self.find_root(y);
        if px == py {
            return false;
        }
        let ghost p0 = self.rep@;
        proof {
            assert(p0.contains(px as int) && p0[x as int] == px);
            assert(p0.contains(py as int) && p0[y as int] == py);
            lemma_relabel_classes(p0, px as int, py as int);
            lemma_relabel_classes(p0, py as int, px as int);
            assert(self.parent@[px as int] == px);
            assert(self.parent@[py as int] == py);
        }
        let rx = self.rank[px];
        let ry = self.rank[py];
        let n = self.parent.len();
        assert(rx + 2 <= n);
        if rx < ry {
            self.parent.set(px, py);
            self.rep = Ghost(relabel(p0, px as int, py as int));
        } else if rx > ry {
            self.parent.set(py, px);
            self.rep = Ghost(relabel(p0, py as int, px as int));
        } else {
            self.parent.set(py, px);
            self.rank.set(px, rx + 1);
            self.rep = Ghost(relabel(p0, py as int, px as int));
        }
        self.merges = Ghost(self.merges@ + 1);
        proof {
            let q = self.rep@;
            assert forall|i: int, j: int| 0 <= i < p0.len() && 0 <= j < p0.len() implies (#[trigger] same(q, i, j) <==> (same(p0, i, j) || (
                same(p0, i, x as int) && same(p0, j, y as int)) || (same(p0, i, y as int) && same(p0, j, x as int)))) by {
            }
        }
        true
    }
}

} // verus!
