//! Walks in a directed multigraph, and what it means for one to be free of
//! cycles.

use vstd::prelude::*;

verus! {

/// Index of a node of a flow. It stays what it is while other nodes come and
/// go, and may be given to a later node once its own is removed.
#[derive(Clone, Copy, PartialEq, Eq, PartialOrd, Ord, Hash, Structural, Debug)]
pub struct NodeIx(pub u32);

impl NodeIx {
    pub fn new(index: u32) -> (r: Self)
        ensures
            r == NodeIx(index),
    {
        NodeIx(index)
    }

    pub fn index(self) -> (r: u32)
        ensures
            r == self.0,
    {
        self.0
    }
}

/// Index of an edge of a flow, stable as a [`NodeIx`] is.
#[derive(Clone, Copy, PartialEq, Eq, PartialOrd, Ord, Hash, Structural, Debug)]
pub struct EdgeIx(pub u32);

impl EdgeIx {
    pub fn new(index: u32) -> (r: Self)
        ensures
            r == EdgeIx(index),
    {
        EdgeIx(index)
    }

    pub fn index(self) -> (r: u32)
        ensures
            r == self.0,
    {
        self.0
    }
}

/// The two ends of an edge.
pub struct Ends {
    pub source: NodeIx,
    pub target: NodeIx,
}

/// Whether the edges `p`, taken in turn, lead from `from` to `to`. The empty
/// walk leads from a node to itself.
pub open spec fn is_walk(g: Map<EdgeIx, Ends>, p: Seq<EdgeIx>, from: NodeIx, to: NodeIx) -> bool {
    &&& forall|i: int| 0 <= i < p.len() ==> g.contains_key(#[trigger] p[i])
    &&& forall|i: int| 0 <= i < p.len() - 1 ==> g[#[trigger] p[i]].target == g[p[i + 1]].source
    &&& p.len() == 0 ==> from == to
    &&& p.len() > 0 ==> g[p[0]].source == from && g[p[p.len() - 1]].target == to
}

/// Whether some walk leads from `from` to `to`.
pub open spec fn reaches(g: Map<EdgeIx, Ends>, from: NodeIx, to: NodeIx) -> bool {
    exists|p: Seq<EdgeIx>| is_walk(g, p, from, to)
}

/// Whether no walk of one edge or more comes back to where it began.
pub open spec fn acyclic(g: Map<EdgeIx, Ends>) -> bool {
    forall|p: Seq<EdgeIx>, n: NodeIx| is_walk(g, p, n, n) ==> p.len() == 0
}

/// Whether some edge leads straight from `a` to `b`.
pub open spec fn adjacent(g: Map<EdgeIx, Ends>, a: NodeIx, b: NodeIx) -> bool {
    exists|e: EdgeIx| g.contains_key(e) && g[e].source == a && g[e].target == b
}

/// Whether some edge ends in `n`.
pub open spec fn has_parent(g: Map<EdgeIx, Ends>, n: NodeIx) -> bool {
    exists|e: EdgeIx| g.contains_key(e) && g[e].target == n
}

/// Whether some edge begins in `n`.
pub open spec fn has_child(g: Map<EdgeIx, Ends>, n: NodeIx) -> bool {
    exists|e: EdgeIx| g.contains_key(e) && g[e].source == n
}

/// Whether `order` lists the nodes `nodes`, each once, every edge's source
/// before its target.
pub open spec fn topological(g: Map<EdgeIx, Ends>, nodes: Set<NodeIx>, order: Seq<NodeIx>) -> bool {
    &&& order.no_duplicates()
    &&& forall|n: NodeIx| nodes.contains(n) <==> order.contains(n)
    &&& forall|e: EdgeIx, i: int, j: int|
        g.contains_key(e) && 0 <= i < order.len() && 0 <= j < order.len() && order[i] == g[e].source
            && order[j] == g[e].target ==> i < j
}

/// A part of a walk is a walk.
pub proof fn lemma_subwalk(g: Map<EdgeIx, Ends>, p: Seq<EdgeIx>, from: NodeIx, to: NodeIx, i: int, j: int)
    requires
        is_walk(g, p, from, to),
        0 <= i < j <= p.len(),
    ensures
        is_walk(g, p.subrange(i, j), g[p[i]].source, g[p[j - 1]].target),
{
    let q = p.subrange(i, j);
    assert forall|k: int| 0 <= k < q.len() implies g.contains_key(#[trigger] q[k]) by {
        assert(q[k] == p[i + k]);
    }
    assert forall|k: int| 0 <= k < q.len() - 1 implies g[#[trigger] q[k]].target == g[q[k + 1]].source by {
        assert(q[k] == p[i + k]);
        assert(q[k + 1] == p[i + k + 1]);
    }
}

/// Two walks that meet make one walk.
pub proof fn lemma_walk_join(
    g: Map<EdgeIx, Ends>,
    p: Seq<EdgeIx>,
    q: Seq<EdgeIx>,
    a: NodeIx,
    b: NodeIx,
    c: NodeIx,
)
    requires
        is_walk(g, p, a, b),
        is_walk(g, q, b, c),
    ensures
        is_walk(g, p + q, a, c),
{
    let r = p + q;
    if p.len() == 0 {
        assert(r =~= q);
    } else if q.len() == 0 {
        assert(r =~= p);
    } else {
        assert forall|k: int| 0 <= k < r.len() implies g.contains_key(#[trigger] r[k]) by {
            if k < p.len() {
                assert(r[k] == p[k]);
            } else {
                assert(r[k] == q[k - p.len()]);
            }
        }
        assert forall|k: int| 0 <= k < r.len() - 1 implies g[#[trigger] r[k]].target == g[r[k
            + 1]].source by {
            if k < p.len() - 1 {
                assert(r[k] == p[k]);
                assert(r[k + 1] == p[k + 1]);
            } else if k == p.len() - 1 {
                assert(r[k] == p[k]);
                assert(r[k + 1] == q[0]);
            } else {
                assert(r[k] == q[k - p.len()]);
                assert(r[k + 1] == q[k - p.len() + 1]);
            }
        }
        assert(r[0] == p[0]);
        assert(r[r.len() - 1] == q[q.len() - 1]);
    }
}

/// A walk in a graph is a walk in any graph that has its edges.
pub proof fn lemma_walk_in_larger(
    g: Map<EdgeIx, Ends>,
    h: Map<EdgeIx, Ends>,
    p: Seq<EdgeIx>,
    from: NodeIx,
    to: NodeIx,
)
    requires
        is_walk(g, p, from, to),
        forall|e: EdgeIx| #[trigger] g.contains_key(e) ==> h.contains_key(e) && h[e] == g[e],
    ensures
        is_walk(h, p, from, to),
{
    assert forall|k: int| 0 <= k < p.len() - 1 implies h[#[trigger] p[k]].target == h[p[k + 1]].source by {
        assert(g.contains_key(p[k]));
        assert(g.contains_key(p[k + 1]));
    }
    if p.len() > 0 {
        assert(g.contains_key(p[0]));
        assert(g.contains_key(p[p.len() - 1]));
    }
}

/// Taking edges away from a graph without cycles leaves one without.
pub proof fn lemma_acyclic_smaller(g: Map<EdgeIx, Ends>, h: Map<EdgeIx, Ends>)
    requires
        acyclic(g),
        forall|e: EdgeIx| #[trigger] h.contains_key(e) ==> g.contains_key(e) && g[e] == h[e],
    ensures
        acyclic(h),
{
    assert forall|p: Seq<EdgeIx>, n: NodeIx| is_walk(h, p, n, n) implies p.len() == 0 by {
        lemma_walk_in_larger(h, g, p, n, n);
    }
}

/// A walk in a graph with one more edge that never takes that edge is a walk
/// in the graph without it.
proof fn lemma_walk_avoiding(
    g: Map<EdgeIx, Ends>,
    e: EdgeIx,
    ends: Ends,
    p: Seq<EdgeIx>,
    from: NodeIx,
    to: NodeIx,
)
    requires
        !g.contains_key(e),
        is_walk(g.insert(e, ends), p, from, to),
        forall|k: int| 0 <= k < p.len() ==> p[k] != e,
    ensures
        is_walk(g, p, from, to),
{
    let h = g.insert(e, ends);
    assert forall|k: int| 0 <= k < p.len() implies g.contains_key(#[trigger] p[k]) by {
        assert(h.contains_key(p[k]));
    }
    assert forall|k: int| 0 <= k < p.len() - 1 implies g[#[trigger] p[k]].target == g[p[k + 1]].source by {
        assert(h[p[k]].target == h[p[k + 1]].source);
    }
}

/// The first place at or after `i` where the walk takes `e`, or the length of
/// the walk.
spec fn next_use(p: Seq<EdgeIx>, e: EdgeIx, i: int) -> int
    decreases p.len() - i,
{
    if i < 0 || i >= p.len() {
        p.len() as int
    } else if p[i] == e {
        i
    } else {
        next_use(p, e, i + 1)
    }
}

proof fn lemma_next_use(p: Seq<EdgeIx>, e: EdgeIx, i: int)
    requires
        0 <= i <= p.len(),
    ensures
        i <= next_use(p, e, i) <= p.len(),
        next_use(p, e, i) < p.len() ==> p[next_use(p, e, i)] == e,
        forall|k: int| i <= k < next_use(p, e, i) ==> p[k] != e,
    decreases p.len() - i,
{
    if i < p.len() && p[i] != e {
        lemma_next_use(p, e, i + 1);
    }
}

/// In a graph without cycles, a new edge from `a` to `b` closes a cycle only
/// if `a` could be reached from `b` before.
pub proof fn lemma_acyclic_insert(g: Map<EdgeIx, Ends>, e: EdgeIx, a: NodeIx, b: NodeIx)
    requires
        acyclic(g),
        !g.contains_key(e),
        !reaches(g, b, a),
    ensures
        acyclic(g.insert(e, Ends { source: a, target: b })),
{
    let ends = Ends { source: a, target: b };
    let h = g.insert(e, ends);
    assert forall|p: Seq<EdgeIx>, n: NodeIx| is_walk(h, p, n, n) implies p.len() == 0 by {
        if p.len() > 0 {
            lemma_next_use(p, e, 0);
            let i = next_use(p, e, 0);
            if i == p.len() {
                lemma_walk_avoiding(g, e, ends, p, n, n);
                assert(false);
            } else {
                // the walk after its first use of `e`, up to the next use or
                // its end, and then from its start up to that first use
                lemma_next_use(p, e, i + 1);
                let j = next_use(p, e, i + 1);
                if j < p.len() {
                    // b ... a between two uses of `e`
                    if i + 1 == j {
                        assert(h[p[i]].target == h[p[i + 1]].source);
                        assert(a == b);
                        assert(is_walk(g, Seq::<EdgeIx>::empty(), b, a));
                    } else {
                        lemma_subwalk(h, p, n, n, i + 1, j);
                        let q = p.subrange(i + 1, j);
                        assert(h[p[i]].target == h[p[i + 1]].source);
                        assert(h[p[j - 1]].target == h[p[j]].source);
                        assert forall|k: int| 0 <= k < q.len() implies q[k] != e by {
                            assert(q[k] == p[i + 1 + k]);
                        }
                        lemma_walk_avoiding(g, e, ends, q, b, a);
                    }
                    assert(reaches(g, b, a));
                } else {
                    // b ... n after the use, then n ... a before it
                    let tail = p.subrange(i + 1, p.len() as int);
                    let head = p.subrange(0, i);
                    if i + 1 < p.len() {
                        lemma_subwalk(h, p, n, n, i + 1, p.len() as int);
                        assert(h[p[i]].target == h[p[i + 1]].source);
                        assert forall|k: int| 0 <= k < tail.len() implies tail[k] != e by {
                            assert(tail[k] == p[i + 1 + k]);
                        }
                        lemma_walk_avoiding(g, e, ends, tail, b, n);
                    } else {
                        assert(b == n);
                        assert(tail.len() == 0);
                        assert(is_walk(g, tail, b, n));
                    }
                    if 0 < i {
                        lemma_subwalk(h, p, n, n, 0, i);
                        assert(h[p[i - 1]].target == h[p[i]].source);
                        assert forall|k: int| 0 <= k < head.len() implies head[k] != e by {
                            assert(head[k] == p[k]);
                        }
                        lemma_walk_avoiding(g, e, ends, head, n, a);
                    } else {
                        assert(a == n);
                        assert(head.len() == 0);
                        assert(is_walk(g, head, n, a));
                    }
                    lemma_walk_join(g, tail, head, b, n, a);
                    assert(reaches(g, b, a));
                }
                assert(false);
            }
        }
    }
}

/// A new edge from `a` to `b`, where `a` can be reached from `b`, closes a
/// cycle.
pub proof fn lemma_cycle_closed(g: Map<EdgeIx, Ends>, e: EdgeIx, a: NodeIx, b: NodeIx)
    requires
        !g.contains_key(e),
        reaches(g, b, a),
    ensures
        !acyclic(g.insert(e, Ends { source: a, target: b })),
{
    let ends = Ends { source: a, target: b };
    let h = g.insert(e, ends);
    let p = choose|p: Seq<EdgeIx>| is_walk(g, p, b, a);
    lemma_walk_in_larger(g, h, p, b, a);
    let one = seq![e];
    assert(is_walk(h, one, a, b));
    lemma_walk_join(h, one, p, a, b, a);
    assert((one + p).len() > 0);
}

/// Where two different nodes of a graph without cycles are joined by a walk
/// from `b` to `a`, the walk's ends have an edge each, and no edge leads
/// straight back from `a` to `b`.
pub proof fn lemma_reach_shape(g: Map<EdgeIx, Ends>, a: NodeIx, b: NodeIx)
    requires
        acyclic(g),
        a != b,
        reaches(g, b, a),
    ensures
        has_parent(g, a),
        has_child(g, b),
        !adjacent(g, a, b),
{
    let p = choose|p: Seq<EdgeIx>| is_walk(g, p, b, a);
    assert(p.len() > 0);
    assert(g.contains_key(p[0]));
    assert(g.contains_key(p[p.len() - 1]));
    if adjacent(g, a, b) {
        let e = choose|e: EdgeIx| g.contains_key(e) && g[e].source == a && g[e].target == b;
        let one = seq![e];
        assert(is_walk(g, one, a, b));
        lemma_walk_join(g, one, p, a, b, a);
        assert((one + p).len() > 0);
        assert(false);
    }
}

} // verus!
