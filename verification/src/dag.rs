//! The graph of a flow, as `daggy` keeps it, and what is taken on trust of
//! `daggy` and `petgraph`.

use vstd::prelude::*;
use daggy::petgraph::algo::toposort;
use daggy::petgraph::graph::{EdgeIndex, NodeIndex};
use daggy::stable_dag::StableDag;
use daggy::Walker;
use crate::flow::{Edge, Node};
use crate::graph::{acyclic, adjacent, has_child, has_parent, reaches, topological};
use crate::graph::{EdgeIx, Ends, NodeIx};

verus! {

/// A `StableDag` of the nodes and edges of one flow.
#[verifier::external_body]
pub struct Dag {
    inner: StableDag<Node, Edge, u32>,
}

/// An edge of a flow: where it begins and ends, and what it carries.
pub struct Link {
    pub ends: Ends,
    pub edge: Edge,
}

/// The nodes of a graph, each under its index.
pub uninterp spec fn dag_nodes(g: Dag) -> Map<NodeIx, Node>;

/// The edges of a graph, each under its index.
pub uninterp spec fn dag_links(g: Dag) -> Map<EdgeIx, Link>;

/// The edges that end in `n`, each with the node it comes from, in the order
/// in which the graph walks them.
pub uninterp spec fn dag_parents(g: Dag, n: NodeIx) -> Seq<(EdgeIx, NodeIx)>;

/// The edges that begin in `n`, each with the node it leads to, in the order
/// in which the graph walks them.
pub uninterp spec fn dag_children(g: Dag, n: NodeIx) -> Seq<(EdgeIx, NodeIx)>;

/// The edges of a graph without what they carry.
pub open spec fn shape(links: Map<EdgeIx, Link>) -> Map<EdgeIx, Ends> {
    links.map_values(|l: Link| l.ends)
}

/// The edges that do not touch `n`.
pub open spec fn detached(links: Map<EdgeIx, Link>, n: NodeIx) -> Map<EdgeIx, Link> {
    Map::new(
        |e: EdgeIx| links.contains_key(e) && links[e].ends.source != n && links[e].ends.target != n,
        |e: EdgeIx| links[e],
    )
}

/// A walk without its entries of edge `e`.
pub open spec fn without_edge(walk: Seq<(EdgeIx, NodeIx)>, e: EdgeIx) -> Seq<(EdgeIx, NodeIx)> {
    walk.filter(|p: (EdgeIx, NodeIx)| p.0 != e)
}

/// A walk without its entries of node `n`.
pub open spec fn without_node(walk: Seq<(EdgeIx, NodeIx)>, n: NodeIx) -> Seq<(EdgeIx, NodeIx)> {
    walk.filter(|p: (EdgeIx, NodeIx)| p.1 != n)
}

/// Whether `daggy` declines an edge from `a` to `b`: it looks for a way back
/// from `b` to `a` only where `a` has an edge coming in, `b` has one going
/// out and none leads from `a` to `b` yet.
pub open spec fn declined(g: Map<EdgeIx, Ends>, a: NodeIx, b: NodeIx) -> bool {
    has_parent(g, a) && has_child(g, b) && !adjacent(g, a, b) && reaches(g, b, a)
}

/// Whether there are fewer nodes than the index type has indices to give:
/// its last index `petgraph` keeps for itself.
pub open spec fn node_room(nodes: Map<NodeIx, Node>) -> bool {
    nodes.dom().finite() && nodes.len() < u32::MAX
}

/// As [`node_room`], for edges.
pub open spec fn link_room(links: Map<EdgeIx, Link>) -> bool {
    links.dom().finite() && links.len() < u32::MAX
}

/// `StableDag::new`: a graph without nodes and edges, and so without
/// anything to walk.
#[verifier::external_body]
pub(crate) fn dag_new() -> (r: Dag)
    ensures
        dag_nodes(r).dom() == Set::<NodeIx>::empty(),
        dag_links(r).dom() == Set::<EdgeIx>::empty(),
        forall|n: NodeIx| dag_parents(r, n).len() == 0 && dag_children(r, n).len() == 0,
{
    Dag { inner: StableDag::new() }
}

/// `StableDag::add_node`: the node goes under an index that was not in use,
/// and nothing else changes. The call panics where every index that can be
/// given is in use.
#[verifier::external_body]
pub(crate) fn dag_add_node(g: &mut Dag, node: Node) -> (r: NodeIx)
    requires
        node_room(dag_nodes(*old(g))),
    ensures
        !dag_nodes(*old(g)).contains_key(r),
        dag_nodes(*final(g)) == dag_nodes(*old(g)).insert(r, node),
        dag_links(*final(g)) == dag_links(*old(g)),
        forall|n: NodeIx| dag_parents(*final(g), n) == dag_parents(*old(g), n),
        forall|n: NodeIx| dag_children(*final(g), n) == dag_children(*old(g), n),
{
    NodeIx(g.inner.add_node(node).index() as u32)
}

/// `StableDag::remove_node`: takes the node out, with every edge that
/// touches it, and returns it; `None`, and no change, where there is no such
/// node. The walks of the other nodes lose the edges that touched it and
/// keep their order.
#[verifier::external_body]
pub(crate) fn dag_remove_node(g: &mut Dag, n: NodeIx) -> (r: Option<Node>)
    ensures
        r == (if dag_nodes(*old(g)).contains_key(n) {
            Some(dag_nodes(*old(g))[n])
        } else {
            None::<Node>
        }),
        dag_nodes(*final(g)) == dag_nodes(*old(g)).remove(n),
        r is Some ==> dag_links(*final(g)) == detached(dag_links(*old(g)), n),
        r is None ==> dag_links(*final(g)) == dag_links(*old(g)),
        dag_parents(*final(g), n).len() == 0 && dag_children(*final(g), n).len() == 0,
        forall|m: NodeIx| m != n ==> dag_parents(*final(g), m) == without_node(dag_parents(*old(g), m), n),
        forall|m: NodeIx|
            m != n ==> dag_children(*final(g), m) == without_node(dag_children(*old(g), m), n),
{
    g.inner.remove_node(NodeIndex::new(n.0 as usize))
}

/// `StableDag::add_edge` between two different nodes of the graph: `None`,
/// and no change, where the edge is declined; else the edge goes under an
/// index that was not in use, and to the front of the walks of its two ends,
/// and nothing else changes.
#[verifier::external_body]
pub(crate) fn dag_add_edge(g: &mut Dag, a: NodeIx, b: NodeIx, edge: Edge) -> (r: Option<EdgeIx>)
    requires
        dag_nodes(*old(g)).contains_key(a),
        dag_nodes(*old(g)).contains_key(b),
        a != b,
        link_room(dag_links(*old(g))),
    ensures
        r is None == declined(shape(dag_links(*old(g))), a, b),
        dag_nodes(*final(g)) == dag_nodes(*old(g)),
        r is None ==> dag_links(*final(g)) == dag_links(*old(g)),
        r is None ==> forall|n: NodeIx| dag_parents(*final(g), n) == dag_parents(*old(g), n),
        r is None ==> forall|n: NodeIx| dag_children(*final(g), n) == dag_children(*old(g), n),
        r matches Some(e) ==> !dag_links(*old(g)).contains_key(e) && dag_links(*final(g)) == dag_links(
            *old(g),
        ).insert(e, Link { ends: Ends { source: a, target: b }, edge }),
        r matches Some(e) ==> dag_children(*final(g), a) == seq![(e, b)] + dag_children(*old(g), a),
        r matches Some(e) ==> dag_parents(*final(g), b) == seq![(e, a)] + dag_parents(*old(g), b),
        r is Some ==> forall|n: NodeIx| n != a ==> dag_children(*final(g), n) == dag_children(*old(g), n),
        r is Some ==> forall|n: NodeIx| n != b ==> dag_parents(*final(g), n) == dag_parents(*old(g), n),
{
    match g.inner.add_edge(NodeIndex::new(a.0 as usize), NodeIndex::new(b.0 as usize), edge) {
        Ok(e) => Some(EdgeIx(e.index() as u32)),
        Err(_) => None,
    }
}

/// `StableDag::remove_edge`: takes the edge out and returns what it carried;
/// `None`, and no change, where there is no such edge. The walks lose the
/// edge and keep their order.
#[verifier::external_body]
pub(crate) fn dag_remove_edge(g: &mut Dag, e: EdgeIx) -> (r: Option<Edge>)
    ensures
        r == (if dag_links(*old(g)).contains_key(e) {
            Some(dag_links(*old(g))[e].edge)
        } else {
            None::<Edge>
        }),
        dag_nodes(*final(g)) == dag_nodes(*old(g)),
        dag_links(*final(g)) == dag_links(*old(g)).remove(e),
        forall|n: NodeIx| dag_parents(*final(g), n) == without_edge(dag_parents(*old(g), n), e),
        forall|n: NodeIx| dag_children(*final(g), n) == without_edge(dag_children(*old(g), n), e),
{
    g.inner.remove_edge(EdgeIndex::new(e.0 as usize))
}

/// `StableDag::node_weight`: the node under `n`, if there is one.
#[verifier::external_body]
pub(crate) fn dag_node(g: &Dag, n: NodeIx) -> (r: Option<&Node>)
    ensures
        r == (if dag_nodes(*g).contains_key(n) {
            Some(&dag_nodes(*g)[n])
        } else {
            None::<&Node>
        }),
{
    g.inner.node_weight(NodeIndex::new(n.0 as usize))
}

/// `StableDag::edge_weight`: what the edge under `e` carries, if there is
/// one.
#[verifier::external_body]
pub(crate) fn dag_edge(g: &Dag, e: EdgeIx) -> (r: Option<&Edge>)
    ensures
        r == (if dag_links(*g).contains_key(e) {
            Some(&dag_links(*g)[e].edge)
        } else {
            None::<&Edge>
        }),
{
    g.inner.edge_weight(EdgeIndex::new(e.0 as usize))
}

/// `StableDag::parents`, walked to its end: every edge that ends in `n`,
/// once, with the node it comes from.
#[verifier::external_body]
pub(crate) fn dag_parents_of(g: &Dag, n: NodeIx) -> (r: Vec<(EdgeIx, NodeIx)>)
    ensures
        r@ == dag_parents(*g, n),
        forall|i: int|
            0 <= i < r.len() ==> dag_links(*g).contains_key(#[trigger] r[i].0) && dag_links(
                *g,
            )[r[i].0].ends == (Ends { source: r[i].1, target: n }),
        forall|e: EdgeIx|
            dag_links(*g).contains_key(e) && dag_links(*g)[e].ends.target == n ==> exists|i: int|
                0 <= i < r.len() && #[trigger] r[i].0 == e,
        forall|i: int, j: int| 0 <= i < j < r.len() ==> r[i].0 != r[j].0,
{
    g.inner.parents(NodeIndex::new(n.0 as usize)).iter(&g.inner).map(
        |(e, p)| (EdgeIx(e.index() as u32), NodeIx(p.index() as u32)),
    ).collect()
}

/// `StableDag::children`, walked to its end: every edge that begins in `n`,
/// once, with the node it leads to.
#[verifier::external_body]
pub(crate) fn dag_children_of(g: &Dag, n: NodeIx) -> (r: Vec<(EdgeIx, NodeIx)>)
    ensures
        r@ == dag_children(*g, n),
        forall|i: int|
            0 <= i < r.len() ==> dag_links(*g).contains_key(#[trigger] r[i].0) && dag_links(
                *g,
            )[r[i].0].ends == (Ends { source: n, target: r[i].1 }),
        forall|e: EdgeIx|
            dag_links(*g).contains_key(e) && dag_links(*g)[e].ends.source == n ==> exists|i: int|
                0 <= i < r.len() && #[trigger] r[i].0 == e,
        forall|i: int, j: int| 0 <= i < j < r.len() ==> r[i].0 != r[j].0,
{
    g.inner.children(NodeIndex::new(n.0 as usize)).iter(&g.inner).map(
        |(e, c)| (EdgeIx(e.index() as u32), NodeIx(c.index() as u32)),
    ).collect()
}

/// `petgraph::algo::toposort`: for a graph without cycles, its nodes in an
/// order in which every edge leads forward; `None` for a graph with a cycle.
#[verifier::external_body]
pub(crate) fn dag_toposort(g: &Dag) -> (r: Option<Vec<NodeIx>>)
    ensures
        r is Some == acyclic(shape(dag_links(*g))),
        r matches Some(v) ==> topological(shape(dag_links(*g)), dag_nodes(*g).dom(), v@),
{
    match toposort(g.inner.graph(), None) {
        Ok(v) => Some(v.into_iter().map(|n| NodeIx(n.index() as u32)).collect()),
        Err(_) => None,
    }
}

} // verus!
