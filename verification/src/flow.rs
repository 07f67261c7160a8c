//! A flow: a directed graph without cycles of inputs, outputs and elements,
//! joined by typed edges, with the order in which its nodes are evaluated.

use vstd::prelude::*;
use crate::dag::{dag_add_edge, dag_add_node, dag_children_of, dag_edge, dag_new, dag_node};
use crate::dag::{dag_parents_of, dag_remove_edge, dag_remove_node, dag_toposort};
use crate::dag::{dag_children, dag_links, dag_nodes, dag_parents, detached, shape};
use crate::dag::{without_edge, without_node};
use crate::dag::{link_room, node_room, Dag, Link};
use crate::element::Element;
use crate::graph::{acyclic, reaches, topological, EdgeIx, Ends, NodeIx};
use crate::graph::{lemma_acyclic_insert, lemma_acyclic_smaller, lemma_reach_shape};
use crate::flow_store::FlowStore;
use crate::slot_map::{as_map, SlotMap};
use crate::slot_table::SlotTable;
use crate::value::{InputNo, OutputNo, Type};

verus! {

/// Why an edge was not added.
#[derive(Clone, Copy, PartialEq, Eq, PartialOrd, Ord, Structural, Debug)]
pub enum EdgeError {
    WouldCycle,
    TypeMismatch,
}

/// A node of a flow.
#[derive(Clone, Copy, Debug)]
#[allow(inconsistent_fields)]
pub enum Node {
    /// A signal-processing unit.
    Element(Element),
    /// An input slot of the flow: it has no edges coming in and hands what
    /// the flow is given for the slot to every edge that leaves it.
    Input { no: InputNo, ty: Type },
    /// An output slot of the flow: it has no edges going out and takes the
    /// mix of the edges that reach it.
    Output { no: OutputNo, ty: Type },
}

impl Node {
    /// Whether `flows` has the flow that a nested element names.
    pub open spec fn resolvable(self, flows: Map<u64, Flow>) -> bool {
        self matches Node::Element(e) ==> e.resolvable(flows)
    }

    /// The input slots with their types: those of the element; none for an
    /// input node; slot 0 for an output node.
    pub open spec fn input_list(self, flows: Map<u64, Flow>) -> Seq<(u32, Type)> {
        match self {
            Node::Element(e) => e.input_list(flows),
            Node::Input { .. } => Seq::empty(),
            Node::Output { ty, .. } => seq![(0u32, ty)],
        }
    }

    /// The output slots with their types: those of the element; slot 0 for
    /// an input node; none for an output node.
    pub open spec fn output_list(self, flows: Map<u64, Flow>) -> Seq<(u32, Type)> {
        match self {
            Node::Element(e) => e.output_list(flows),
            Node::Input { ty, .. } => seq![(0u32, ty)],
            Node::Output { .. } => Seq::empty(),
        }
    }

    /// The input slots, each with its type.
    pub open spec fn inputs(self, flows: Map<u64, Flow>) -> Map<u32, Type> {
        as_map(self.input_list(flows))
    }

    /// The output slots, each with its type.
    pub open spec fn outputs(self, flows: Map<u64, Flow>) -> Map<u32, Type> {
        as_map(self.output_list(flows))
    }

    pub fn input_types(&self, store: &FlowStore) -> (r: SlotMap<Type>)
        requires
            store.wf(),
            self.resolvable(store@),
        ensures
            r.wf(),
            r.entries() == self.input_list(store@),
            r@ == self.inputs(store@),
    {
        let r = match self {
            Node::Element(e) => e.input_types(store),
            Node::Input { .. } => SlotMap::new(),
            Node::Output { ty, .. } => {
                let mut m = SlotMap::new();
                m.insert(0, *ty);
                assert(m.entries() =~= self.input_list(store@));
                m
            },
        };
        proof {
            r.lemma_entries();
        }
        r
    }

    pub fn output_types(&self, store: &FlowStore) -> (r: SlotMap<Type>)
        requires
            store.wf(),
            self.resolvable(store@),
        ensures
            r.wf(),
            r.entries() == self.output_list(store@),
            r@ == self.outputs(store@),
    {
        let r = match self {
            Node::Element(e) => e.output_types(store),
            Node::Input { ty, .. } => {
                let mut m = SlotMap::new();
                m.insert(0, *ty);
                assert(m.entries() =~= self.output_list(store@));
                m
            },
            Node::Output { .. } => SlotMap::new(),
        };
        proof {
            r.lemma_entries();
        }
        r
    }
}

/// What an edge carries: the slot it leaves, the slot it enters and its
/// type, which is that of both slots.
#[derive(Clone, Copy, PartialEq, Eq, PartialOrd, Ord, Structural, Debug)]
pub struct Edge {
    pub output_no: OutputNo,
    pub input_no: InputNo,
    pub ty: Type,
}

/// A directed graph of nodes and typed edges that never holds a cycle.
pub struct Flow {
    graph: Dag,
    visit_order: Vec<NodeIx>,
    input_types: SlotTable,
    output_types: SlotTable,
}

impl Flow {
    /// The nodes, each under its index.
    pub closed spec fn nodes(&self) -> Map<NodeIx, Node> {
        dag_nodes(self.graph)
    }

    /// The edges, each under its index.
    pub closed spec fn links(&self) -> Map<EdgeIx, Link> {
        dag_links(self.graph)
    }

    /// The order in which the nodes are evaluated.
    pub closed spec fn order(&self) -> Seq<NodeIx> {
        self.visit_order@
    }

    /// The declared input slots with their types, in ascending order.
    pub closed spec fn input_list(&self) -> Seq<(u32, Type)> {
        self.input_types.listing()
    }

    /// The declared output slots with their types, in ascending order.
    pub closed spec fn output_list(&self) -> Seq<(u32, Type)> {
        self.output_types.listing()
    }

    /// The declared input slots, each with its type.
    pub closed spec fn inputs(&self) -> Map<u32, Type> {
        self.input_types@
    }

    /// The declared output slots, each with its type.
    pub closed spec fn outputs(&self) -> Map<u32, Type> {
        self.output_types@
    }

    /// The edges that end in `n`, each with its source, in the order in which
    /// the graph walks them.
    pub closed spec fn incoming(&self, n: NodeIx) -> Seq<(EdgeIx, NodeIx)> {
        dag_parents(self.graph, n)
    }

    /// The edges that begin in `n`, each with its target, in the order in
    /// which the graph walks them.
    pub closed spec fn outgoing(&self, n: NodeIx) -> Seq<(EdgeIx, NodeIx)> {
        dag_children(self.graph, n)
    }

    /// The edges that enter slot `no` of node `n`, in the order in which the
    /// graph walks them.
    pub open spec fn feeding(&self, n: NodeIx, no: InputNo) -> Seq<EdgeIx> {
        edges_of(entering(self.links(), self.incoming(n), no))
    }

    /// The edges that leave slot `no` of node `n`, in the order in which the
    /// graph walks them.
    pub open spec fn draining(&self, n: NodeIx, no: OutputNo) -> Seq<EdgeIx> {
        edges_of(leaving(self.links(), self.outgoing(n), no))
    }

    /// The two slot tables are in order.
    pub closed spec fn tables_wf(&self) -> bool {
        self.input_types.wf() && self.output_types.wf()
    }

    /// Whether `n` is the input node of the declared input slot `k`.
    pub open spec fn is_input_node(&self, n: NodeIx, k: u32) -> bool {
        self.nodes().contains_key(n) && self.nodes()[n] == (Node::Input {
            no: InputNo(k),
            ty: self.inputs()[k],
        })
    }

    /// Whether `n` is the output node of the declared output slot `k`.
    pub open spec fn is_output_node(&self, n: NodeIx, k: u32) -> bool {
        self.nodes().contains_key(n) && self.nodes()[n] == (Node::Output {
            no: OutputNo(k),
            ty: self.outputs()[k],
        })
    }

    /// Whether each declared input slot belongs to one input node, and each
    /// input node to its declared slot.
    pub open spec fn inputs_declared(&self) -> bool {
        &&& forall|n: NodeIx| #[trigger]
            self.nodes().contains_key(n) ==> (self.nodes()[n] matches Node::Input { no, ty }
                ==> self.inputs().contains_key(no.0) && self.inputs()[no.0] == ty)
        &&& forall|k: u32| #[trigger]
            self.inputs().contains_key(k) ==> exists|n: NodeIx| self.is_input_node(n, k)
        &&& forall|m: NodeIx, n: NodeIx|
            #![trigger self.nodes().contains_key(m), self.nodes().contains_key(n)]
            self.nodes().contains_key(m) && self.nodes().contains_key(n) && m != n ==> (
            self.nodes()[m] matches Node::Input { no: a, .. } ==> (self.nodes()[n] matches Node::Input {
                no: b,
                ..
            } ==> a != b))
    }

    /// As [`Flow::inputs_declared`], for the output slots.
    pub open spec fn outputs_declared(&self) -> bool {
        &&& forall|n: NodeIx| #[trigger]
            self.nodes().contains_key(n) ==> (self.nodes()[n] matches Node::Output { no, ty }
                ==> self.outputs().contains_key(no.0) && self.outputs()[no.0] == ty)
        &&& forall|k: u32| #[trigger]
            self.outputs().contains_key(k) ==> exists|n: NodeIx| self.is_output_node(n, k)
        &&& forall|m: NodeIx, n: NodeIx|
            #![trigger self.nodes().contains_key(m), self.nodes().contains_key(n)]
            self.nodes().contains_key(m) && self.nodes().contains_key(n) && m != n ==> (
            self.nodes()[m] matches Node::Output { no: a, .. } ==> (self.nodes()[n] matches Node::Output {
                no: b,
                ..
            } ==> a != b))
    }

    /// What holds of every flow: its edges join nodes of the flow and close
    /// no cycle, the evaluation order lists every node once and every edge
    /// leads forward in it, and the declared slots are those of the input and
    /// output nodes.
    pub open spec fn wf(&self) -> bool {
        &&& self.tables_wf()
        &&& self.nodes().dom().finite()
        &&& self.links().dom().finite()
        &&& self.inputs().dom().finite()
        &&& self.outputs().dom().finite()
        &&& forall|e: EdgeIx| #[trigger]
            self.links().contains_key(e) ==> self.nodes().contains_key(self.links()[e].ends.source)
                && self.nodes().contains_key(self.links()[e].ends.target)
        &&& acyclic(shape(self.links()))
        &&& topological(shape(self.links()), self.nodes().dom(), self.order())
        &&& self.inputs_declared()
        &&& self.outputs_declared()
    }

    /// Whether one more node can be added.
    pub open spec fn node_room(&self) -> bool {
        node_room(self.nodes())
    }

    /// Whether one more edge can be added.
    pub open spec fn link_room(&self) -> bool {
        link_room(self.links())
    }

    /// A flow without nodes.
    pub fn new() -> (r: Self)
        ensures
            r.wf(),
            r.nodes() == Map::<NodeIx, Node>::empty(),
            r.links() == Map::<EdgeIx, Link>::empty(),
            r.order() == Seq::<NodeIx>::empty(),
            r.inputs() == Map::<u32, Type>::empty(),
            r.outputs() == Map::<u32, Type>::empty(),
            r.input_list() == Seq::<(u32, Type)>::empty(),
            r.output_list() == Seq::<(u32, Type)>::empty(),
            forall|n: NodeIx| r.incoming(n).len() == 0 && r.outgoing(n).len() == 0,
    {
        let r = Flow {
            graph: dag_new(),
            visit_order: Vec::new(),
            input_types: SlotTable::new(),
            output_types: SlotTable::new(),
        };
        proof {
            assert(r.nodes() =~= Map::<NodeIx, Node>::empty());
            assert(r.links() =~= Map::<EdgeIx, Link>::empty());
            assert(shape(r.links()) =~= Map::<EdgeIx, Ends>::empty());
            assert forall|p: Seq<EdgeIx>, n: NodeIx|
                crate::graph::is_walk(shape(r.links()), p, n, n) implies p.len() == 0 by {
                if p.len() > 0 {
                    assert(shape(r.links()).contains_key(p[0]));
                }
            }
        }
        r
    }

    /// Sorts the nodes anew.
    fn update_visit_order(&mut self)
        requires
            acyclic(shape(old(self).links())),
        ensures
            topological(shape(final(self).links()), final(self).nodes().dom(), final(self).order()),
            final(self).graph == old(self).graph,
            final(self).input_types == old(self).input_types,
            final(self).output_types == old(self).output_types,
    {
        match dag_toposort(&self.graph) {
            Some(order) => {
                self.visit_order = order;
            },
            None => {},
        }
    }

    /// Whether the edges of each node are walked as in `other`.
    pub open spec fn same_walks(&self, other: &Flow) -> bool {
        forall|n: NodeIx| self.incoming(n) == other.incoming(n) && self.outgoing(n) == other.outgoing(n)
    }

    /// Whether the edges are walked as in `other`, but for the edge `e` from
    /// `a` to `b`, which is walked first among the edges that leave `a` and
    /// first among those that enter `b`.
    pub open spec fn walks_with(&self, other: &Flow, e: EdgeIx, a: NodeIx, b: NodeIx) -> bool {
        &&& self.outgoing(a) == seq![(e, b)] + other.outgoing(a)
        &&& self.incoming(b) == seq![(e, a)] + other.incoming(b)
        &&& forall|n: NodeIx| n != a ==> self.outgoing(n) == other.outgoing(n)
        &&& forall|n: NodeIx| n != b ==> self.incoming(n) == other.incoming(n)
    }

    /// Whether the edges are walked as in `other`, but for the edge `e`,
    /// which is walked no more.
    pub open spec fn walks_without_edge(&self, other: &Flow, e: EdgeIx) -> bool {
        forall|n: NodeIx|
            self.incoming(n) == without_edge(other.incoming(n), e) && self.outgoing(n) == without_edge(
                other.outgoing(n),
                e,
            )
    }

    /// Whether the edges are walked as in `other`, but for the edges of node
    /// `n`, which are walked no more.
    pub open spec fn walks_without_node(&self, other: &Flow, n: NodeIx) -> bool {
        &&& self.incoming(n).len() == 0
        &&& self.outgoing(n).len() == 0
        &&& forall|m: NodeIx|
            m != n ==> self.incoming(m) == without_node(other.incoming(m), n) && self.outgoing(m)
                == without_node(other.outgoing(m), n)
    }

    /// Whether `other` has the nodes, edges, walking orders, evaluation order
    /// and declared slots of this flow.
    pub open spec fn same_as(&self, other: &Flow) -> bool {
        &&& self.nodes() == other.nodes()
        &&& self.links() == other.links()
        &&& self.order() == other.order()
        &&& self.inputs() == other.inputs()
        &&& self.outputs() == other.outputs()
        &&& self.input_list() == other.input_list()
        &&& self.output_list() == other.output_list()
        &&& self.same_walks(other)
    }

    /// A map of the declared slots of `table`, in their order.
    fn slot_map(table: &SlotTable) -> (r: SlotMap<Type>)
        requires
            table.wf(),
        ensures
            r.wf(),
            r.entries() == table.listing(),
    {
        let mut r: SlotMap<Type> = SlotMap::new();
        let mut i: usize = 0;
        proof {
            table.lemma_listing();
        }
        while i < table.len()
            invariant
                table.wf(),
                crate::slot_table::ascending(table.listing()),
                r.wf(),
                i <= table.listing().len(),
                r.entries() == table.listing().subrange(0, i as int),
            decreases table.listing().len() - i,
        {
            let (k, ty) = table.entry_at(i);
            proof {
                r.lemma_entries();
                if r@.contains_key(k) {
                    let p = choose|p: int| 0 <= p < r.entries().len() && r.entries()[p].0 == k;
                    assert(table.listing()[p].0 < table.listing()[i as int].0);
                }
            }
            r.insert(k, ty);
            i += 1;
            assert(r.entries() =~= table.listing().subrange(0, i as int));
        }
        assert(table.listing().subrange(0, i as int) =~= table.listing());
        r
    }

    /// The declared input slots as a map that keeps their order.
    pub fn input_map(&self) -> (r: SlotMap<Type>)
        requires
            self.wf(),
        ensures
            r.wf(),
            r.entries() == self.input_list(),
    {
        Self::slot_map(&self.input_types)
    }

    /// The declared output slots as a map that keeps their order.
    pub fn output_map(&self) -> (r: SlotMap<Type>)
        requires
            self.wf(),
        ensures
            r.wf(),
            r.entries() == self.output_list(),
    {
        Self::slot_map(&self.output_types)
    }

    /// Adds a node and sorts the nodes anew.
    fn add_node(&mut self, node: Node) -> (r: NodeIx)
        requires
            old(self).node_room(),
            acyclic(shape(old(self).links())),
            forall|e: EdgeIx| #[trigger]
                old(self).links().contains_key(e) ==> old(self).nodes().contains_key(
                    old(self).links()[e].ends.source,
                ) && old(self).nodes().contains_key(old(self).links()[e].ends.target),
        ensures
            !old(self).nodes().contains_key(r),
            final(self).nodes() == old(self).nodes().insert(r, node),
            final(self).links() == old(self).links(),
            final(self).same_walks(old(self)),
            final(self).input_types == old(self).input_types,
            final(self).output_types == old(self).output_types,
            topological(shape(final(self).links()), final(self).nodes().dom(), final(self).order()),
            forall|e: EdgeIx| #[trigger]
                final(self).links().contains_key(e) ==> final(self).nodes().contains_key(
                    final(self).links()[e].ends.source,
                ) && final(self).nodes().contains_key(final(self).links()[e].ends.target),
    {
        let r = dag_add_node(&mut self.graph, node);
        self.update_visit_order();
        r
    }

    /// Adds an element node.
    pub fn add_element(&mut self, element: Element) -> (r: NodeIx)
        requires
            old(self).wf(),
            old(self).node_room(),
        ensures
            final(self).wf(),
            !old(self).nodes().contains_key(r),
            final(self).nodes() == old(self).nodes().insert(r, Node::Element(element)),
            final(self).links() == old(self).links(),
            final(self).same_walks(old(self)),
            final(self).inputs() == old(self).inputs(),
            final(self).outputs() == old(self).outputs(),
            final(self).input_list() == old(self).input_list(),
            final(self).output_list() == old(self).output_list(),
    {
        let r = self.add_node(Node::Element(element));
        proof {
            assert forall|k: u32| #[trigger] self.inputs().contains_key(k) implies exists|n: NodeIx| self.is_input_node(n, k) by {
                assert(old(self).inputs().contains_key(k));
                let n = choose|n: NodeIx| old(self).is_input_node(n, k);
                assert(self.is_input_node(n, k));
            }
            assert forall|k: u32| #[trigger] self.outputs().contains_key(k) implies exists|n: NodeIx| self.is_output_node(n, k) by {
                assert(old(self).outputs().contains_key(k));
                let n = choose|n: NodeIx| old(self).is_output_node(n, k);
                assert(self.is_output_node(n, k));
            }
        }
        r
    }

    /// Takes the node `node_ix` out, with every edge that touches it, and
    /// returns it. An input or output node takes its declared slot with it.
    pub fn remove_node(&mut self, node_ix: NodeIx) -> (r: Option<Node>)
        requires
            old(self).wf(),
        ensures
            final(self).wf(),
            r == (if old(self).nodes().contains_key(node_ix) {
                Some(old(self).nodes()[node_ix])
            } else {
                None::<Node>
            }),
            final(self).nodes() == old(self).nodes().remove(node_ix),
            r is Some ==> final(self).links() == detached(old(self).links(), node_ix),
            r is Some ==> final(self).walks_without_node(old(self), node_ix),
            r is None ==> final(self).same_as(old(self)),
            final(self).inputs() == (match r {
                Some(Node::Input { no, .. }) => old(self).inputs().remove(no.0),
                _ => old(self).inputs(),
            }),
            final(self).outputs() == (match r {
                Some(Node::Output { no, .. }) => old(self).outputs().remove(no.0),
                _ => old(self).outputs(),
            }),
    {
        let ghost before = *self;
        if dag_node(&self.graph, node_ix).is_none() {
            return None;
        }
        match dag_remove_node(&mut self.graph, node_ix) {
            Some(node) => {
                proof {
                    lemma_acyclic_smaller(shape(before.links()), shape(self.links()));
                    assert(self.links().dom().subset_of(before.links().dom()));
                    vstd::set_lib::lemma_len_subset(self.links().dom(), before.links().dom());
                }
                self.update_visit_order();
                match node {
                    Node::Input { no, .. } => {
                        self.input_types.remove(no.0);
                    },
                    Node::Output { no, .. } => {
                        self.output_types.remove(no.0);
                    },
                    _ => {},
                }
                proof {
                    assert forall|k: u32| #[trigger] self.inputs().contains_key(k) implies exists|
                        n: NodeIx,
                    | self.is_input_node(n, k) by {
                        assert(before.inputs().contains_key(k));
                        let n = choose|n: NodeIx| before.is_input_node(n, k);
                        assert(before.nodes().contains_key(node_ix));
                        assert(self.is_input_node(n, k));
                    }
                    assert forall|k: u32| #[trigger] self.outputs().contains_key(k) implies exists|
                        n: NodeIx,
                    | self.is_output_node(n, k) by {
                        assert(before.outputs().contains_key(k));
                        let n = choose|n: NodeIx| before.is_output_node(n, k);
                        assert(before.nodes().contains_key(node_ix));
                        assert(self.is_output_node(n, k));
                    }
                    assert forall|n: NodeIx| #[trigger] self.nodes().contains_key(n) implies (
                    self.nodes()[n] matches Node::Input { no, ty } ==> self.inputs().contains_key(no.0)
                        && self.inputs()[no.0] == ty) by {
                        assert(before.nodes().contains_key(n));
                        assert(before.nodes().contains_key(node_ix));
                    }
                    assert forall|n: NodeIx| #[trigger] self.nodes().contains_key(n) implies (
                    self.nodes()[n] matches Node::Output { no, ty } ==> self.outputs().contains_key(no.0)
                        && self.outputs()[no.0] == ty) by {
                        assert(before.nodes().contains_key(n));
                        assert(before.nodes().contains_key(node_ix));
                    }
                    assert forall|m: NodeIx, n: NodeIx|
                        #![trigger self.nodes().contains_key(m), self.nodes().contains_key(n)]
                        self.nodes().contains_key(m) && self.nodes().contains_key(n) && m != n implies (
                    self.nodes()[m] matches Node::Input { no: a, .. } ==> (
                    self.nodes()[n] matches Node::Input { no: b, .. } ==> a != b)) by {
                        assert(before.nodes().contains_key(m) && before.nodes().contains_key(n));
                    }
                    assert forall|m: NodeIx, n: NodeIx|
                        #![trigger self.nodes().contains_key(m), self.nodes().contains_key(n)]
                        self.nodes().contains_key(m) && self.nodes().contains_key(n) && m != n implies (
                    self.nodes()[m] matches Node::Output { no: a, .. } ==> (
                    self.nodes()[n] matches Node::Output { no: b, .. } ==> a != b)) by {
                        assert(before.nodes().contains_key(m) && before.nodes().contains_key(n));
                    }
                    assert forall|e: EdgeIx| #[trigger] self.links().contains_key(e) implies self.nodes().contains_key(
                        self.links()[e].ends.source,
                    ) && self.nodes().contains_key(self.links()[e].ends.target) by {
                        assert(before.links().contains_key(e));
                    }
                }
                Some(node)
            },
            None => None,
        }
    }

    /// Adds an edge from slot `output_no` of `source_node` to slot
    /// `input_no` of `target_node`. The edge gets the type of the two slots,
    /// which must be one type; an edge that would close a cycle is not
    /// added. A flow that gains no edge stays as it is.
    pub fn add_edge(
        &mut self,
        source_node: NodeIx,
        output_no: OutputNo,
        target_node: NodeIx,
        input_no: InputNo,
        store: &FlowStore,
    ) -> (r: Result<(EdgeIx, Type), EdgeError>)
        requires
            old(self).wf(),
            old(self).link_room(),
            store.wf(),
            old(self).nodes().contains_key(source_node),
            old(self).nodes().contains_key(target_node),
            old(self).nodes()[source_node].resolvable(store@),
            old(self).nodes()[target_node].resolvable(store@),
            old(self).nodes()[source_node].outputs(store@).contains_key(output_no.0),
            old(self).nodes()[target_node].inputs(store@).contains_key(input_no.0),
        ensures
            final(self).wf(),
            final(self).nodes() == old(self).nodes(),
            final(self).inputs() == old(self).inputs(),
            final(self).outputs() == old(self).outputs(),
            final(self).input_list() == old(self).input_list(),
            final(self).output_list() == old(self).output_list(),
            ({
                let ty = old(self).nodes()[source_node].outputs(store@)[output_no.0];
                let wanted = old(self).nodes()[target_node].inputs(store@)[input_no.0];
                let cycle = reaches(shape(old(self).links()), target_node, source_node);
                match r {
                    Err(EdgeError::TypeMismatch) => wanted != ty && final(self).same_as(old(self)),
                    Err(EdgeError::WouldCycle) => wanted == ty && cycle && final(self).same_as(old(self)),
                    Ok((e, t)) => wanted == ty && !cycle && t == ty && !old(self).links().contains_key(e)
                        && final(self).links() == old(self).links().insert(
                        e,
                        Link {
                            ends: Ends { source: source_node, target: target_node },
                            edge: Edge { output_no, input_no, ty },
                        },
                    ) && final(self).walks_with(old(self), e, source_node, target_node),
                }
            }),
    {
        let ghost before = *self;
        let ghost g = shape(self.links());
        let ty = *self.node(source_node).output_types(store).get(output_no.0).unwrap();
        let wanted = *self.node(target_node).input_types(store).get(input_no.0).unwrap();
        if wanted != ty {
            return Err(EdgeError::TypeMismatch);
        }
        if source_node == target_node {
            assert(crate::graph::is_walk(g, Seq::<EdgeIx>::empty(), target_node, source_node));
            return Err(EdgeError::WouldCycle);
        }
        let edge = Edge { output_no, input_no, ty };
        match dag_add_edge(&mut self.graph, source_node, target_node, edge) {
            Some(e) => {
                proof {
                    if reaches(g, target_node, source_node) {
                        lemma_reach_shape(g, source_node, target_node);
                    }
                    let ends = Ends { source: source_node, target: target_node };
                    assert(shape(self.links()) =~= g.insert(e, ends));
                    lemma_acyclic_insert(g, e, source_node, target_node);
                    assert forall|x: EdgeIx| #[trigger] self.links().contains_key(x) implies self.nodes().contains_key(
                        self.links()[x].ends.source,
                    ) && self.nodes().contains_key(self.links()[x].ends.target) by {
                        if x != e {
                            assert(before.links().contains_key(x));
                        }
                    }
                }
                self.update_visit_order();
                proof {
                    assert forall|k: u32| #[trigger] self.inputs().contains_key(k) implies exists|
                        n: NodeIx,
                    | self.is_input_node(n, k) by {
                        let n = choose|n: NodeIx| before.is_input_node(n, k);
                        assert(self.is_input_node(n, k));
                    }
                    assert forall|k: u32| #[trigger] self.outputs().contains_key(k) implies exists|
                        n: NodeIx,
                    | self.is_output_node(n, k) by {
                        let n = choose|n: NodeIx| before.is_output_node(n, k);
                        assert(self.is_output_node(n, k));
                    }
                }
                Ok((e, ty))
            },
            None => {
                proof {
                    assert forall|k: u32| #[trigger] self.inputs().contains_key(k) implies exists|
                        n: NodeIx,
                    | self.is_input_node(n, k) by {
                        let n = choose|n: NodeIx| before.is_input_node(n, k);
                        assert(self.is_input_node(n, k));
                    }
                    assert forall|k: u32| #[trigger] self.outputs().contains_key(k) implies exists|
                        n: NodeIx,
                    | self.is_output_node(n, k) by {
                        let n = choose|n: NodeIx| before.is_output_node(n, k);
                        assert(self.is_output_node(n, k));
                    }
                }
                Err(EdgeError::WouldCycle)
            },
        }
    }

    /// Takes the edge `edge` out and says whether there was one.
    pub fn remove_edge(&mut self, edge: EdgeIx) -> (r: bool)
        requires
            old(self).wf(),
        ensures
            final(self).wf(),
            r == old(self).links().contains_key(edge),
            !r ==> final(self).same_as(old(self)),
            r ==> final(self).walks_without_edge(old(self), edge),
            final(self).nodes() == old(self).nodes(),
            final(self).links() == old(self).links().remove(edge),
            final(self).inputs() == old(self).inputs(),
            final(self).outputs() == old(self).outputs(),
            final(self).input_list() == old(self).input_list(),
            final(self).output_list() == old(self).output_list(),
    {
        let ghost before = *self;
        if dag_edge(&self.graph, edge).is_none() {
            assert(self.links().remove(edge) =~= self.links());
            return false;
        }
        let removed = dag_remove_edge(&mut self.graph, edge);
        proof {
            lemma_acyclic_smaller(shape(before.links()), shape(self.links()));
            assert forall|x: EdgeIx| #[trigger] self.links().contains_key(x) implies self.nodes().contains_key(
                self.links()[x].ends.source,
            ) && self.nodes().contains_key(self.links()[x].ends.target) by {
                assert(before.links().contains_key(x));
            }
        }
        self.update_visit_order();
        proof {
            assert forall|k: u32| #[trigger] self.inputs().contains_key(k) implies exists|n: NodeIx|
                self.is_input_node(n, k) by {
                let n = choose|n: NodeIx| before.is_input_node(n, k);
                assert(self.is_input_node(n, k));
            }
            assert forall|k: u32| #[trigger] self.outputs().contains_key(k) implies exists|n: NodeIx|
                self.is_output_node(n, k) by {
                let n = choose|n: NodeIx| before.is_output_node(n, k);
                assert(self.is_output_node(n, k));
            }
        }
        true
    }

    /// The order in which the nodes are evaluated.
    pub fn visit_order(&self) -> (r: &Vec<NodeIx>)
        ensures
            r@ == self.order(),
    {
        &self.visit_order
    }

    /// The node under `node_ix`, which is a node of the flow.
    pub fn node(&self, node_ix: NodeIx) -> (r: &Node)
        requires
            self.nodes().contains_key(node_ix),
        ensures
            *r == self.nodes()[node_ix],
    {
        dag_node(&self.graph, node_ix).unwrap()
    }

    /// The node under `node_ix`, if there is one.
    pub fn get_node(&self, node_ix: NodeIx) -> (r: Option<&Node>)
        ensures
            r == (if self.nodes().contains_key(node_ix) {
                Some(&self.nodes()[node_ix])
            } else {
                None::<&Node>
            }),
    {
        dag_node(&self.graph, node_ix)
    }

    /// What the edge under `edge` carries, if there is one.
    pub fn get_edge(&self, edge: EdgeIx) -> (r: Option<&Edge>)
        ensures
            r == (if self.links().contains_key(edge) {
                Some(&self.links()[edge].edge)
            } else {
                None::<&Edge>
            }),
    {
        dag_edge(&self.graph, edge)
    }

    /// The edges that end in `node_ix`, each with its source.
    pub fn parents(&self, node_ix: NodeIx) -> (r: Vec<(EdgeIx, NodeIx)>)
        ensures
            r@ == self.incoming(node_ix),
            touching(self.links(), r@, node_ix, true),
    {
        let r = dag_parents_of(&self.graph, node_ix);
        assert forall|e: EdgeIx|
            self.links().contains_key(e) && self.links()[e].ends.target == node_ix implies exists|i: int|
            0 <= i < r@.len() && #[trigger] r@[i].0 == e by {
            let i = choose|i: int| 0 <= i < r.len() && #[trigger] r[i].0 == e;
            assert(r@[i].0 == e);
        }
        r
    }

    /// The edges that begin in `node_ix`, each with its target.
    pub fn children(&self, node_ix: NodeIx) -> (r: Vec<(EdgeIx, NodeIx)>)
        ensures
            r@ == self.outgoing(node_ix),
            touching(self.links(), r@, node_ix, false),
    {
        let r = dag_children_of(&self.graph, node_ix);
        assert forall|e: EdgeIx|
            self.links().contains_key(e) && self.links()[e].ends.source == node_ix implies exists|i: int|
            0 <= i < r@.len() && #[trigger] r@[i].0 == e by {
            let i = choose|i: int| 0 <= i < r.len() && #[trigger] r[i].0 == e;
            assert(r@[i].0 == e);
        }
        r
    }

    /// The edges that enter slot `input_no` of `node_ix`, each with its
    /// source.
    pub fn input_edges_with_node(&self, node_ix: NodeIx, input_no: InputNo) -> (r: Vec<
        (EdgeIx, NodeIx),
    >)
        ensures
            r@ == entering(self.links(), self.incoming(node_ix), input_no),
    {
        let all = self.parents(node_ix);
        let mut r: Vec<(EdgeIx, NodeIx)> = Vec::new();
        let mut i: usize = 0;
        while i < all.len()
            invariant
                i <= all.len(),
                r@ == entering(self.links(), all@.subrange(0, i as int), input_no),
            decreases all.len() - i,
        {
            let pair = all[i];
            proof {
                assert(all@.subrange(0, i + 1).drop_last() =~= all@.subrange(0, i as int));
                assert(all@.subrange(0, i + 1).last() == pair);
            }
            match dag_edge(&self.graph, pair.0) {
                Some(edge) => {
                    if edge.input_no == input_no {
                        r.push(pair);
                    }
                },
                None => {},
            }
            i += 1;
        }
        assert(all@.subrange(0, i as int) =~= all@);
        r
    }

    /// The edges that enter slot `input_no` of `node_ix`.
    pub fn input_edges(&self, node_ix: NodeIx, input_no: InputNo) -> (r: Vec<EdgeIx>)
        ensures
            r@ == self.feeding(node_ix, input_no),
    {
        let pairs = self.input_edges_with_node(node_ix, input_no);
        firsts(&pairs)
    }

    /// The edges that leave slot `output_no` of `node_ix`, each with its
    /// target.
    pub fn output_edges_with_node(&self, node_ix: NodeIx, output_no: OutputNo) -> (r: Vec<
        (EdgeIx, NodeIx),
    >)
        ensures
            r@ == leaving(self.links(), self.outgoing(node_ix), output_no),
    {
        let all = self.children(node_ix);
        let mut r: Vec<(EdgeIx, NodeIx)> = Vec::new();
        let mut i: usize = 0;
        while i < all.len()
            invariant
                i <= all.len(),
                r@ == leaving(self.links(), all@.subrange(0, i as int), output_no),
            decreases all.len() - i,
        {
            let pair = all[i];
            proof {
                assert(all@.subrange(0, i + 1).drop_last() =~= all@.subrange(0, i as int));
                assert(all@.subrange(0, i + 1).last() == pair);
            }
            match dag_edge(&self.graph, pair.0) {
                Some(edge) => {
                    if edge.output_no == output_no {
                        r.push(pair);
                    }
                },
                None => {},
            }
            i += 1;
        }
        assert(all@.subrange(0, i as int) =~= all@);
        r
    }

    /// The edges that leave slot `output_no` of `node_ix`.
    pub fn output_edges(&self, node_ix: NodeIx, output_no: OutputNo) -> (r: Vec<EdgeIx>)
        ensures
            r@ == self.draining(node_ix, output_no),
    {
        let pairs = self.output_edges_with_node(node_ix, output_no);
        firsts(&pairs)
    }

    /// The declared input slots with their types, in ascending order.
    pub fn input_types(&self) -> (r: Vec<(InputNo, Type)>)
        ensures
            r@.len() == self.input_list().len(),
            forall|i: int|
                0 <= i < r@.len() ==> r@[i] == (InputNo(self.input_list()[i].0), self.input_list()[i].1),
    {
        let mut r: Vec<(InputNo, Type)> = Vec::new();
        let mut i: usize = 0;
        while i < self.input_types.len()
            invariant
                i <= self.input_list().len(),
                r@.len() == i,
                forall|j: int|
                    0 <= j < i ==> r@[j] == (InputNo(self.input_list()[j].0), self.input_list()[j].1),
            decreases self.input_list().len() - i,
        {
            let (k, ty) = self.input_types.entry_at(i);
            r.push((InputNo(k), ty));
            i += 1;
        }
        r
    }

    /// The declared output slots with their types, in ascending order.
    pub fn output_types(&self) -> (r: Vec<(OutputNo, Type)>)
        ensures
            r@.len() == self.output_list().len(),
            forall|i: int|
                0 <= i < r@.len() ==> r@[i] == (OutputNo(self.output_list()[i].0), self.output_list()[i].1),
    {
        let mut r: Vec<(OutputNo, Type)> = Vec::new();
        let mut i: usize = 0;
        while i < self.output_types.len()
            invariant
                i <= self.output_list().len(),
                r@.len() == i,
                forall|j: int|
                    0 <= j < i ==> r@[j] == (OutputNo(self.output_list()[j].0), self.output_list()[j].1),
            decreases self.output_list().len() - i,
        {
            let (k, ty) = self.output_types.entry_at(i);
            r.push((OutputNo(k), ty));
            i += 1;
        }
        r
    }

    /// The numbers of the declared input slots, in ascending order.
    pub fn input_nos(&self) -> (r: Vec<InputNo>)
        ensures
            r@.len() == self.input_list().len(),
            forall|i: int| 0 <= i < r@.len() ==> r@[i] == InputNo(self.input_list()[i].0),
    {
        let mut r: Vec<InputNo> = Vec::new();
        let mut i: usize = 0;
        while i < self.input_types.len()
            invariant
                i <= self.input_list().len(),
                r@.len() == i,
                forall|j: int| 0 <= j < i ==> r@[j] == InputNo(self.input_list()[j].0),
            decreases self.input_list().len() - i,
        {
            r.push(InputNo(self.input_types.entry_at(i).0));
            i += 1;
        }
        r
    }

    /// The numbers of the declared output slots, in ascending order.
    pub fn output_nos(&self) -> (r: Vec<OutputNo>)
        ensures
            r@.len() == self.output_list().len(),
            forall|i: int| 0 <= i < r@.len() ==> r@[i] == OutputNo(self.output_list()[i].0),
    {
        let mut r: Vec<OutputNo> = Vec::new();
        let mut i: usize = 0;
        while i < self.output_types.len()
            invariant
                i <= self.output_list().len(),
                r@.len() == i,
                forall|j: int| 0 <= j < i ==> r@[j] == OutputNo(self.output_list()[j].0),
            decreases self.output_list().len() - i,
        {
            r.push(OutputNo(self.output_types.entry_at(i).0));
            i += 1;
        }
        r
    }

    /// Whether one more input slot can be declared.
    pub open spec fn input_room(&self) -> bool {
        self.inputs().len() <= u32::MAX
    }

    /// Whether one more output slot can be declared.
    pub open spec fn output_room(&self) -> bool {
        self.outputs().len() <= u32::MAX
    }

    /// Declares an input slot of type `ty` under the next free number and
    /// adds its node.
    pub fn add_input(&mut self, ty: Type) -> (r: (InputNo, NodeIx))
        requires
            old(self).wf(),
            old(self).node_room(),
            old(self).input_room(),
        ensures
            final(self).wf(),
            is_next_no(old(self).inputs(), r.0.0),
            !old(self).inputs().contains_key(r.0.0),
            !old(self).nodes().contains_key(r.1),
            final(self).nodes() == old(self).nodes().insert(r.1, Node::Input { no: r.0, ty }),
            final(self).links() == old(self).links(),
            final(self).same_walks(old(self)),
            final(self).inputs() == old(self).inputs().insert(r.0.0, ty),
            final(self).outputs() == old(self).outputs(),
            final(self).output_list() == old(self).output_list(),
    {
        proof {
            self.input_types.lemma_listing();
        }
        let no = next_no(&self.input_types);
        self.input_types.insert(no, ty);
        let ix = self.add_node(Node::Input { no: InputNo(no), ty });
        proof {
            assert forall|k: u32| #[trigger] self.inputs().contains_key(k) implies exists|n: NodeIx| self.is_input_node(n, k) by {
                if k == no {
                    assert(self.is_input_node(ix, k));
                } else {
                    assert(old(self).inputs().contains_key(k));
                    let n = choose|n: NodeIx| old(self).is_input_node(n, k);
                    assert(self.is_input_node(n, k));
                }
            }
            assert forall|k: u32| #[trigger] self.outputs().contains_key(k) implies exists|n: NodeIx| self.is_output_node(n, k) by {
                assert(old(self).outputs().contains_key(k));
                let n = choose|n: NodeIx| old(self).is_output_node(n, k);
                assert(self.is_output_node(n, k));
            }
            assert forall|n: NodeIx| #[trigger] self.nodes().contains_key(n) implies (
            self.nodes()[n] matches Node::Input { no, ty } ==> self.inputs().contains_key(no.0)
                && self.inputs()[no.0] == ty) by {
                if n != ix {
                    assert(old(self).nodes().contains_key(n));
                }
            }
            assert forall|m: NodeIx, n: NodeIx|
                #![trigger self.nodes().contains_key(m), self.nodes().contains_key(n)]
                self.nodes().contains_key(m) && self.nodes().contains_key(n) && m != n implies (
            self.nodes()[m] matches Node::Input { no: a, .. } ==> (self.nodes()[n] matches Node::Input {
                no: b,
                ..
            } ==> a != b)) by {
                if m != ix {
                    assert(old(self).nodes().contains_key(m));
                }
                if n != ix {
                    assert(old(self).nodes().contains_key(n));
                }
            }
        }
        (InputNo(no), ix)
    }

    /// Declares an output slot of type `ty` under the next free number and
    /// adds its node.
    pub fn add_output(&mut self, ty: Type) -> (r: (OutputNo, NodeIx))
        requires
            old(self).wf(),
            old(self).node_room(),
            old(self).output_room(),
        ensures
            final(self).wf(),
            is_next_no(old(self).outputs(), r.0.0),
            !old(self).outputs().contains_key(r.0.0),
            !old(self).nodes().contains_key(r.1),
            final(self).nodes() == old(self).nodes().insert(r.1, Node::Output { no: r.0, ty }),
            final(self).links() == old(self).links(),
            final(self).same_walks(old(self)),
            final(self).outputs() == old(self).outputs().insert(r.0.0, ty),
            final(self).inputs() == old(self).inputs(),
            final(self).input_list() == old(self).input_list(),
    {
        proof {
            self.output_types.lemma_listing();
        }
        let no = next_no(&self.output_types);
        self.output_types.insert(no, ty);
        let ix = self.add_node(Node::Output { no: OutputNo(no), ty });
        proof {
            assert forall|k: u32| #[trigger] self.outputs().contains_key(k) implies exists|n: NodeIx| self.is_output_node(n, k) by {
                if k == no {
                    assert(self.is_output_node(ix, k));
                } else {
                    assert(old(self).outputs().contains_key(k));
                    let n = choose|n: NodeIx| old(self).is_output_node(n, k);
                    assert(self.is_output_node(n, k));
                }
            }
            assert forall|k: u32| #[trigger] self.inputs().contains_key(k) implies exists|n: NodeIx| self.is_input_node(n, k) by {
                assert(old(self).inputs().contains_key(k));
                let n = choose|n: NodeIx| old(self).is_input_node(n, k);
                assert(self.is_input_node(n, k));
            }
            assert forall|n: NodeIx| #[trigger] self.nodes().contains_key(n) implies (
            self.nodes()[n] matches Node::Output { no, ty } ==> self.outputs().contains_key(no.0)
                && self.outputs()[no.0] == ty) by {
                if n != ix {
                    assert(old(self).nodes().contains_key(n));
                }
            }
            assert forall|m: NodeIx, n: NodeIx|
                #![trigger self.nodes().contains_key(m), self.nodes().contains_key(n)]
                self.nodes().contains_key(m) && self.nodes().contains_key(n) && m != n implies (
            self.nodes()[m] matches Node::Output { no: a, .. } ==> (self.nodes()[n] matches Node::Output {
                no: b,
                ..
            } ==> a != b)) by {
                if m != ix {
                    assert(old(self).nodes().contains_key(m));
                }
                if n != ix {
                    assert(old(self).nodes().contains_key(n));
                }
            }
        }
        (OutputNo(no), ix)
    }
}

/// Whether `walk` lists, each once, the edges of `links` that touch `n` with
/// their far ends: those that end in `n` where `inward`, else those that
/// begin in it.
pub open spec fn touching(
    links: Map<EdgeIx, Link>,
    walk: Seq<(EdgeIx, NodeIx)>,
    n: NodeIx,
    inward: bool,
) -> bool {
    &&& forall|i: int|
        0 <= i < walk.len() ==> links.contains_key(#[trigger] walk[i].0) && links[walk[i].0].ends == (
        if inward {
            Ends { source: walk[i].1, target: n }
        } else {
            Ends { source: n, target: walk[i].1 }
        })
    &&& forall|e: EdgeIx|
        links.contains_key(e) && (if inward {
            links[e].ends.target
        } else {
            links[e].ends.source
        }) == n ==> exists|i: int| 0 <= i < walk.len() && #[trigger] walk[i].0 == e
    &&& forall|i: int, j: int| 0 <= i < j < walk.len() ==> walk[i].0 != walk[j].0
}

/// Those of `walk` whose edge enters slot `no`, in their order.
pub open spec fn entering(links: Map<EdgeIx, Link>, walk: Seq<(EdgeIx, NodeIx)>, no: InputNo) -> Seq<
    (EdgeIx, NodeIx),
>
    decreases walk.len(),
{
    if walk.len() == 0 {
        Seq::empty()
    } else {
        let rest = entering(links, walk.drop_last(), no);
        let last = walk.last();
        if links.contains_key(last.0) && links[last.0].edge.input_no == no {
            rest.push(last)
        } else {
            rest
        }
    }
}

/// Those of `walk` whose edge leaves slot `no`, in their order.
pub open spec fn leaving(links: Map<EdgeIx, Link>, walk: Seq<(EdgeIx, NodeIx)>, no: OutputNo) -> Seq<
    (EdgeIx, NodeIx),
>
    decreases walk.len(),
{
    if walk.len() == 0 {
        Seq::empty()
    } else {
        let rest = leaving(links, walk.drop_last(), no);
        let last = walk.last();
        if links.contains_key(last.0) && links[last.0].edge.output_no == no {
            rest.push(last)
        } else {
            rest
        }
    }
}

/// The edges of a walk, without the nodes.
pub open spec fn edges_of(walk: Seq<(EdgeIx, NodeIx)>) -> Seq<EdgeIx> {
    Seq::new(walk.len(), |i: int| walk[i].0)
}

fn firsts(pairs: &Vec<(EdgeIx, NodeIx)>) -> (r: Vec<EdgeIx>)
    ensures
        r@ == edges_of(pairs@),
{
    let mut r: Vec<EdgeIx> = Vec::new();
    let mut i: usize = 0;
    while i < pairs.len()
        invariant
            i <= pairs.len(),
            r@.len() == i,
            forall|j: int| 0 <= j < i ==> r@[j] == pairs@[j].0,
        decreases pairs.len() - i,
    {
        r.push(pairs[i].0);
        i += 1;
    }
    assert(r@ =~= edges_of(pairs@));
    r
}

/// The `d`-th number after `start`, counting round from the largest to 0.
pub open spec fn nth_after(start: u32, d: nat) -> u32 {
    ((start + d) % 0x1_0000_0000) as u32
}

/// Whether `r` is the slot number that a new slot gets among `slots`: 0
/// where there are none; else the first number not in use that a scan finds
/// which goes up from the number after the largest one in use and, past the
/// largest number there is, on from 0.
pub open spec fn is_next_no(slots: Map<u32, Type>, r: u32) -> bool {
    if forall|k: u32| !slots.contains_key(k) {
        r == 0
    } else {
        exists|top: u32, d: nat|
            {
                &&& slots.contains_key(top)
                &&& forall|k: u32| slots.contains_key(k) ==> k <= top
                &&& d < 0x1_0000_0000
                &&& r == #[trigger] nth_after(top.wrapping_add(1), d)
                &&& !slots.contains_key(r)
                &&& forall|j: nat| j < d ==> slots.contains_key(#[trigger] nth_after(top.wrapping_add(1), j))
            }
    }
}

/// The number for a new slot among `types`: see [`is_next_no`].
pub fn next_no(types: &SlotTable) -> (r: u32)
    requires
        types.wf(),
        types.listing().len() <= u32::MAX,
    ensures
        is_next_no(types@, r),
        !types@.contains_key(r),
{
    proof {
        types.lemma_listing();
    }
    let ghost s = types.listing();
    match types.last_key() {
        None => {
            assert forall|k: u32| !types@.contains_key(k) by {
                if types@.contains_key(k) {
                    assert(crate::slot_map::listed(s, k));
                }
            }
            0
        },
        Some(top) => {
            if top < u32::MAX {
                assert(top.wrapping_add(1) == top + 1);
                assert(nth_after((top + 1) as u32, 0) == top + 1);
                assert(!types@.contains_key((top + 1) as u32));
                top + 1
            } else {
                assert(top.wrapping_add(1) == 0);
                let n = types.len();
                let mut i: usize = 0;
                proof {
                    crate::slot_table::lemma_entry(s, n - 1);
                    let p = crate::slot_map::place_of(s, top);
                    if p < n - 1 {
                        assert(s[p].0 < s[n - 1].0);
                    }
                    assert(s[n - 1].0 == u32::MAX);
                }
                while types.entry_at(i).0 as usize == i
                    invariant
                        s == types.listing(),
                        crate::slot_table::ascending(s),
                        n == s.len(),
                        0 < n <= u32::MAX,
                        s[n - 1].0 == u32::MAX,
                        i < n,
                        forall|j: int| 0 <= j < i ==> s[j].0 == j,
                    decreases n - i,
                {
                    proof {
                        if i == n - 1 {
                            assert(s[n - 1].0 == i);
                            assert(false);
                        }
                    }
                    i += 1;
                }
                proof {
                    // the numbers below `i` are in use, and `i` is not
                    assert forall|j: nat| j < i implies types@.contains_key(#[trigger] nth_after(0, j)) by {
                        assert(nth_after(0, j) == j);
                        crate::slot_table::lemma_entry(s, j as int);
                    }
                    if i > 0 {
                        assert(s[i - 1].0 < s[i as int].0);
                    }
                    assert(s[i as int].0 > i);
                    if types@.contains_key(i as u32) {
                        let p = crate::slot_map::place_of(s, i as u32);
                        if p < i {
                            assert(s[p].0 == p);
                        } else if p > i {
                            assert(s[i as int].0 < s[p].0);
                        }
                        assert(false);
                    }
                    assert(nth_after(0, i as nat) == i);
                    assert(types@.contains_key(top));
                }
                i as u32
            }
        },
    }
}

} // verus!
