//! The plan of a block: the operations on buffers that evaluate a flow, in
//! their order. The plan depends on the flows alone, not on what the buffers
//! hold.

use vstd::prelude::*;
use crate::element::Element;
use crate::flow::{Flow, Node};
use crate::flow_store::{FlowId, FlowStore};
use crate::graph::{EdgeIx, NodeIx};
use crate::prim_element::PrimElement;
use crate::slot_map::{as_map, distinct, listed, place_of, SlotMap};
use crate::value::{InputNo, OutputNo, Type};

verus! {

/// Where a buffer lies: on an edge of a flow of the store, or among the
/// output or input buffers that the caller holds.
#[derive(Clone, Copy, PartialEq, Eq, Structural, Debug)]
pub enum Place {
    Edge { flow: FlowId, edge: EdgeIx },
    Output(OutputNo),
    Input(InputNo),
}

/// One operation of a plan.
#[derive(Clone, Copy, Debug)]
pub enum Op {
    /// Bring the buffer to the length of the block.
    Resize { target: Place },
    /// Set the buffer to silence.
    Clear { target: Place },
    /// Make the target hold what the source holds.
    Copy { target: Place, source: Place },
    /// Mix the source into the target.
    Merge { target: Place, source: Place },
    /// Let the primitive at node `node` of flow `flow` compute, from the
    /// first edge that enters each of its input slots into the first edge
    /// that leaves each of its output slots.
    Prim { prim: PrimElement, flow: FlowId, node: NodeIx },
}

/// The place of edge `e` of flow `id`.
pub open spec fn on_edge(id: u64, e: EdgeIx) -> Place {
    Place::Edge { flow: FlowId(id), edge: e }
}

/// A mix of each of `edges`, in turn, into `target`.
pub open spec fn merges(target: Place, id: u64, edges: Seq<EdgeIx>) -> Seq<Op> {
    Seq::new(edges.len(), |i: int| Op::Merge { target, source: on_edge(id, edges[i]) })
}

/// For the edges that enter one input slot: the first is brought to length
/// and the others are mixed into it.
pub open spec fn gather_slot(id: u64, edges: Seq<EdgeIx>) -> Seq<Op> {
    if edges.len() == 0 {
        Seq::empty()
    } else {
        seq![Op::Resize { target: on_edge(id, edges[0]) }] + merges(
            on_edge(id, edges[0]),
            id,
            edges.subrange(1, edges.len() as int),
        )
    }
}

/// [`gather_slot`] for each input slot of `list`, in turn.
pub open spec fn gather(id: u64, flow: Flow, n: NodeIx, list: Seq<(u32, Type)>) -> Seq<Op>
    decreases list.len(),
{
    if list.len() == 0 {
        Seq::empty()
    } else {
        gather(id, flow, n, list.drop_last()) + gather_slot(id, flow.feeding(n, InputNo(list.last().0)))
    }
}

/// The input slots of `list` that some edge enters, each with the place of
/// the first such edge.
pub open spec fn bound_inputs(id: u64, flow: Flow, n: NodeIx, list: Seq<(u32, Type)>) -> Seq<
    (u32, Place),
>
    decreases list.len(),
{
    if list.len() == 0 {
        Seq::empty()
    } else {
        let rest = bound_inputs(id, flow, n, list.drop_last());
        let edges = flow.feeding(n, InputNo(list.last().0));
        if edges.len() > 0 {
            rest.push((list.last().0, on_edge(id, edges[0])))
        } else {
            rest
        }
    }
}

/// For each output slot of `list` that some edge leaves: the first such
/// edge is brought to length.
pub open spec fn prepare(id: u64, flow: Flow, n: NodeIx, list: Seq<(u32, Type)>) -> Seq<Op>
    decreases list.len(),
{
    if list.len() == 0 {
        Seq::empty()
    } else {
        let rest = prepare(id, flow, n, list.drop_last());
        let edges = flow.draining(n, OutputNo(list.last().0));
        if edges.len() > 0 {
            rest.push(Op::Resize { target: on_edge(id, edges[0]) })
        } else {
            rest
        }
    }
}

/// The output slots of `list` that some edge leaves, each with the place of
/// the first such edge.
pub open spec fn bound_outputs(id: u64, flow: Flow, n: NodeIx, list: Seq<(u32, Type)>) -> Seq<
    (u32, Place),
>
    decreases list.len(),
{
    if list.len() == 0 {
        Seq::empty()
    } else {
        let rest = bound_outputs(id, flow, n, list.drop_last());
        let edges = flow.draining(n, OutputNo(list.last().0));
        if edges.len() > 0 {
            rest.push((list.last().0, on_edge(id, edges[0])))
        } else {
            rest
        }
    }
}

/// Each of `rest`, in turn, is brought to length and made a copy of `head`.
pub open spec fn copies(id: u64, head: EdgeIx, rest: Seq<EdgeIx>) -> Seq<Op>
    decreases rest.len(),
{
    if rest.len() == 0 {
        Seq::empty()
    } else {
        copies(id, head, rest.drop_last()).push(Op::Resize { target: on_edge(id, rest.last()) }).push(
            Op::Copy { target: on_edge(id, rest.last()), source: on_edge(id, head) },
        )
    }
}

/// For the edges that leave one output slot: each but the first becomes a
/// copy of the first.
pub open spec fn spread_slot(id: u64, edges: Seq<EdgeIx>) -> Seq<Op> {
    if edges.len() == 0 {
        Seq::empty()
    } else {
        copies(id, edges[0], edges.subrange(1, edges.len() as int))
    }
}

/// [`spread_slot`] for each output slot of `list`, in turn.
pub open spec fn spread(id: u64, flow: Flow, n: NodeIx, list: Seq<(u32, Type)>) -> Seq<Op>
    decreases list.len(),
{
    if list.len() == 0 {
        Seq::empty()
    } else {
        spread(id, flow, n, list.drop_last()) + spread_slot(id, flow.draining(n, OutputNo(list.last().0)))
    }
}

/// An input node hands what the flow was given for its slot to every edge
/// that leaves it, or silence where the flow was given nothing.
pub open spec fn plan_input(id: u64, flow: Flow, n: NodeIx, no: InputNo, ins: Seq<(u32, Place)>) -> Seq<
    Op,
> {
    let edges = flow.draining(n, OutputNo(0));
    if listed(ins, no.0) {
        let source = as_map(ins)[no.0];
        Seq::new(edges.len(), |i: int| Op::Copy { target: on_edge(id, edges[i]), source })
    } else {
        Seq::new(edges.len(), |i: int| Op::Clear { target: on_edge(id, edges[i]) })
    }
}

/// An output node, where the flow was given a buffer for its slot, brings
/// it to length and fills it with the mix of the edges that reach the node,
/// or with silence where none does.
pub open spec fn plan_output(id: u64, flow: Flow, n: NodeIx, no: OutputNo, outs: Seq<(u32, Place)>) -> Seq<
    Op,
> {
    let edges = flow.feeding(n, InputNo(0));
    if listed(outs, no.0) {
        let target = as_map(outs)[no.0];
        seq![Op::Resize { target }] + (if edges.len() == 0 {
            seq![Op::Clear { target }]
        } else {
            seq![Op::Copy { target, source: on_edge(id, edges[0]) }] + merges(
                target,
                id,
                edges.subrange(1, edges.len() as int),
            )
        })
    } else {
        Seq::empty()
    }
}

/// The plan of flow `id` for the output and input places `outs` and `ins`,
/// `None` where a nested flow is missing or flows are nested deeper than
/// `fuel`: every given output is brought to length, then the nodes are
/// taken in their evaluation order.
pub open spec fn plan_flow(
    flows: Map<u64, Flow>,
    fuel: nat,
    id: u64,
    outs: Seq<(u32, Place)>,
    ins: Seq<(u32, Place)>,
) -> Option<Seq<Op>>
    decreases fuel, 0nat, 0nat,
{
    if fuel == 0 || !flows.contains_key(id) {
        None
    } else {
        match plan_nodes(flows, (fuel - 1) as nat, id, flows[id].order(), outs, ins) {
            Some(body) => Some(Seq::new(outs.len(), |i: int| Op::Resize { target: outs[i].1 }) + body),
            None => None,
        }
    }
}

/// The plans of the nodes `order` of flow `id`, one after the other.
pub open spec fn plan_nodes(
    flows: Map<u64, Flow>,
    fuel: nat,
    id: u64,
    order: Seq<NodeIx>,
    outs: Seq<(u32, Place)>,
    ins: Seq<(u32, Place)>,
) -> Option<Seq<Op>>
    decreases fuel, 2nat, order.len(),
{
    if order.len() == 0 {
        Some(Seq::empty())
    } else {
        match (
            plan_nodes(flows, fuel, id, order.drop_last(), outs, ins),
            plan_node(flows, fuel, id, order.last(), outs, ins),
        ) {
            (Some(a), Some(b)) => Some(a + b),
            _ => None,
        }
    }
}

/// The plan of node `n` of flow `id`. An element gathers the mix of each
/// input slot on the slot's first edge, brings the first edge of each output
/// slot to length, computes, and spreads what it computed to the other
/// edges of each output slot. A nested flow computes by its own plan, with
/// those first edges for its outputs and inputs.
pub open spec fn plan_node(
    flows: Map<u64, Flow>,
    fuel: nat,
    id: u64,
    n: NodeIx,
    outs: Seq<(u32, Place)>,
    ins: Seq<(u32, Place)>,
) -> Option<Seq<Op>>
    decreases fuel, 1nat, 0nat,
{
    let flow = flows[id];
    if !flow.nodes().contains_key(n) {
        None
    } else {
        match flow.nodes()[n] {
            Node::Input { no, .. } => Some(plan_input(id, flow, n, no, ins)),
            Node::Output { no, .. } => Some(plan_output(id, flow, n, no, outs)),
            Node::Element(e) => {
                if !e.resolvable(flows) {
                    None
                } else {
                    let inner = match e {
                        Element::Prim(prim) => Some(seq![Op::Prim { prim, flow: FlowId(id), node: n }]),
                        Element::Flow(f) => plan_flow(
                            flows,
                            fuel,
                            f.0,
                            bound_outputs(id, flow, n, e.output_list(flows)),
                            bound_inputs(id, flow, n, e.input_list(flows)),
                        ),
                    };
                    match inner {
                        Some(ops) => Some(
                            gather(id, flow, n, e.input_list(flows)) + prepare(
                                id,
                                flow,
                                n,
                                e.output_list(flows),
                            ) + ops + spread(id, flow, n, e.output_list(flows)),
                        ),
                        None => None,
                    }
                }
            },
        }
    }
}

/// The bound input slots are among the slots of the list.
pub proof fn lemma_bound_inputs(id: u64, flow: Flow, n: NodeIx, list: Seq<(u32, Type)>)
    ensures
        forall|k: u32| listed(bound_inputs(id, flow, n, list), k) ==> listed(list, k),
    decreases list.len(),
{
    if list.len() > 0 {
        let prev = list.drop_last();
        lemma_bound_inputs(id, flow, n, prev);
        let b = bound_inputs(id, flow, n, list);
        assert forall|k: u32| listed(b, k) implies listed(list, k) by {
            let p = place_of(b, k);
            assert(0 <= p < b.len() && b[p].0 == k);
            let rest = bound_inputs(id, flow, n, prev);
            if p < rest.len() {
                assert(rest[p] == b[p]);
                assert(listed(rest, k));
                assert(listed(prev, k));
                let q = place_of(prev, k);
                assert(0 <= q < prev.len() && prev[q].0 == k);
                assert(list[q] == prev[q]);
            } else {
                assert(b[p].0 == list.last().0);
                assert(list[list.len() - 1].0 == k);
            }
        }
    }
}

/// The bound output slots are among the slots of the list.
pub proof fn lemma_bound_outputs(id: u64, flow: Flow, n: NodeIx, list: Seq<(u32, Type)>)
    ensures
        forall|k: u32| listed(bound_outputs(id, flow, n, list), k) ==> listed(list, k),
    decreases list.len(),
{
    if list.len() > 0 {
        let prev = list.drop_last();
        lemma_bound_outputs(id, flow, n, prev);
        let b = bound_outputs(id, flow, n, list);
        assert forall|k: u32| listed(b, k) implies listed(list, k) by {
            let p = place_of(b, k);
            assert(0 <= p < b.len() && b[p].0 == k);
            let rest = bound_outputs(id, flow, n, prev);
            if p < rest.len() {
                assert(rest[p] == b[p]);
                assert(listed(rest, k));
                assert(listed(prev, k));
                let q = place_of(prev, k);
                assert(0 <= q < prev.len() && prev[q].0 == k);
                assert(list[q] == prev[q]);
            } else {
                assert(b[p].0 == list.last().0);
                assert(list[list.len() - 1].0 == k);
            }
        }
    }
}

/// Appends to `ops` the mix of each of `edges[from..]` into `target`.
fn push_merges(ops: &mut Vec<Op>, target: Place, id: FlowId, edges: &Vec<EdgeIx>, from: usize)
    requires
        from <= edges.len(),
    ensures
        final(ops)@ == old(ops)@ + merges(target, id.0, edges@.subrange(from as int, edges.len() as int)),
{
    let ghost before = ops@;
    let ghost tail = edges@.subrange(from as int, edges.len() as int);
    let mut i: usize = from;
    while i < edges.len()
        invariant
            from <= i <= edges.len(),
            tail == edges@.subrange(from as int, edges.len() as int),
            ops@ == before + merges(target, id.0, tail).subrange(0, i - from),
        decreases edges.len() - i,
    {
        ops.push(Op::Merge { target, source: Place::Edge { flow: id, edge: edges[i] } });
        i += 1;
        assert(ops@ =~= before + merges(target, id.0, tail).subrange(0, i - from));
    }
    assert(merges(target, id.0, tail).subrange(0, i - from) =~= merges(target, id.0, tail));
}

/// Appends to `ops` what [`gather_slot`] lists.
fn push_gather_slot(ops: &mut Vec<Op>, id: FlowId, edges: &Vec<EdgeIx>)
    ensures
        final(ops)@ == old(ops)@ + gather_slot(id.0, edges@),
{
    if edges.len() > 0 {
        let target = Place::Edge { flow: id, edge: edges[0] };
        ops.push(Op::Resize { target });
        push_merges(ops, target, id, edges, 1);
        assert(ops@ =~= old(ops)@ + gather_slot(id.0, edges@));
    } else {
        assert(ops@ =~= old(ops)@ + gather_slot(id.0, edges@));
    }
}

/// Appends to `ops` what [`spread_slot`] lists.
fn push_spread_slot(ops: &mut Vec<Op>, id: FlowId, edges: &Vec<EdgeIx>)
    ensures
        final(ops)@ == old(ops)@ + spread_slot(id.0, edges@),
{
    let ghost before = ops@;
    if edges.len() > 0 {
        let head = edges[0];
        let ghost rest = edges@.subrange(1, edges.len() as int);
        let mut i: usize = 1;
        assert(rest.subrange(0, 0) =~= Seq::<EdgeIx>::empty());
        assert(ops@ =~= before + copies(id.0, head, rest.subrange(0, 0)));
        while i < edges.len()
            invariant
                1 <= i <= edges.len(),
                head == edges@[0],
                rest == edges@.subrange(1, edges.len() as int),
                ops@ == before + copies(id.0, head, rest.subrange(0, i - 1)),
            decreases edges.len() - i,
        {
            let target = Place::Edge { flow: id, edge: edges[i] };
            ops.push(Op::Resize { target });
            ops.push(Op::Copy { target, source: Place::Edge { flow: id, edge: head } });
            proof {
                assert(rest.subrange(0, i as int).drop_last() =~= rest.subrange(0, i - 1));
                assert(rest.subrange(0, i as int).last() == edges@[i as int]);
                assert(ops@ =~= before + copies(id.0, head, rest.subrange(0, i as int)));
            }
            i += 1;
        }
        assert(rest.subrange(0, i - 1) =~= rest);
    } else {
        assert(ops@ =~= before + spread_slot(id.0, edges@));
    }
}

/// Appends to `ops` what [`plan_input`] lists.
fn push_input(ops: &mut Vec<Op>, id: FlowId, flow: &Flow, n: NodeIx, no: InputNo, ins: &SlotMap<Place>)
    requires
        ins.wf(),
    ensures
        final(ops)@ == old(ops)@ + plan_input(id.0, *flow, n, no, ins.entries()),
{
    let ghost before = ops@;
    let ghost want = plan_input(id.0, *flow, n, no, ins.entries());
    let edges = flow.output_edges(n, OutputNo(0));
    proof {
        ins.lemma_entries();
    }
    let source = match ins.get(no.0) {
        Some(place) => Some(*place),
        None => None,
    };
    let mut i: usize = 0;
    while i < edges.len()
        invariant
            i <= edges.len(),
            edges@ == flow.draining(n, OutputNo(0)),
            want == plan_input(id.0, *flow, n, no, ins.entries()),
            want.len() == edges.len(),
            ins@ == as_map(ins.entries()),
            source == (if ins@.contains_key(no.0) {
                Some(ins@[no.0])
            } else {
                None::<Place>
            }),
            ops@ == before + want.subrange(0, i as int),
        decreases edges.len() - i,
    {
        let target = Place::Edge { flow: id, edge: edges[i] };
        match source {
            Some(source) => {
                ops.push(Op::Copy { target, source });
            },
            None => {
                ops.push(Op::Clear { target });
            },
        }
        i += 1;
        assert(ops@ =~= before + want.subrange(0, i as int));
    }
    assert(want.subrange(0, i as int) =~= want);
}

/// Appends to `ops` what [`plan_output`] lists.
fn push_output(ops: &mut Vec<Op>, id: FlowId, flow: &Flow, n: NodeIx, no: OutputNo, outs: &SlotMap<Place>)
    requires
        outs.wf(),
    ensures
        final(ops)@ == old(ops)@ + plan_output(id.0, *flow, n, no, outs.entries()),
{
    let ghost before = ops@;
    proof {
        outs.lemma_entries();
    }
    match outs.get(no.0) {
        Some(place) => {
            let target = *place;
            ops.push(Op::Resize { target });
            let edges = flow.input_edges(n, InputNo(0));
            if edges.len() == 0 {
                ops.push(Op::Clear { target });
            } else {
                ops.push(Op::Copy { target, source: Place::Edge { flow: id, edge: edges[0] } });
                push_merges(ops, target, id, &edges, 1);
            }
            assert(ops@ =~= before + plan_output(id.0, *flow, n, no, outs.entries()));
        },
        None => {
            assert(ops@ =~= before + plan_output(id.0, *flow, n, no, outs.entries()));
        },
    }
}

/// Appends to `ops` what [`gather`] lists for the input slots `types` of
/// node `n`, and returns the places that [`bound_inputs`] lists.
fn push_gather(ops: &mut Vec<Op>, id: FlowId, flow: &Flow, n: NodeIx, types: &SlotMap<Type>) -> (r:
    SlotMap<Place>)
    requires
        types.wf(),
    ensures
        r.wf(),
        r.entries() == bound_inputs(id.0, *flow, n, types.entries()),
        final(ops)@ == old(ops)@ + gather(id.0, *flow, n, types.entries()),
{
    let ghost before = ops@;
    let ghost list = types.entries();
    let mut r: SlotMap<Place> = SlotMap::new();
    let mut i: usize = 0;
    proof {
        types.lemma_entries();
        assert(list.subrange(0, 0) =~= Seq::<(u32, Type)>::empty());
        assert(ops@ =~= before + gather(id.0, *flow, n, list.subrange(0, 0)));
    }
    while i < types.len()
        invariant
            types.wf(),
            list == types.entries(),
            distinct(list),
            i <= list.len(),
            r.wf(),
            r.entries() == bound_inputs(id.0, *flow, n, list.subrange(0, i as int)),
            ops@ == before + gather(id.0, *flow, n, list.subrange(0, i as int)),
        decreases list.len() - i,
    {
        let no = types.key_at(i);
        let edges = flow.input_edges(n, InputNo(no));
        let ghost sofar = ops@;
        push_gather_slot(ops, id, &edges);
        proof {
            let prefix = list.subrange(0, i as int);
            let next = list.subrange(0, i + 1);
            assert(next.drop_last() =~= prefix);
            assert(next.last() == list[i as int]);
            assert(ops@ =~= before + gather(id.0, *flow, n, next));
            lemma_bound_inputs(id.0, *flow, n, prefix);
            r.lemma_entries();
            if r@.contains_key(no) {
                assert(listed(r.entries(), no));
                assert(listed(prefix, no));
                let q = place_of(prefix, no);
                assert(list[q].0 == list[i as int].0);
            }
        }
        if edges.len() > 0 {
            r.insert(no, Place::Edge { flow: id, edge: edges[0] });
        }
        i += 1;
    }
    assert(list.subrange(0, i as int) =~= list);
    r
}

/// Appends to `ops` what [`prepare`] lists for the output slots `types` of
/// node `n`, and returns the places that [`bound_outputs`] lists.
fn push_prepare(ops: &mut Vec<Op>, id: FlowId, flow: &Flow, n: NodeIx, types: &SlotMap<Type>) -> (r:
    SlotMap<Place>)
    requires
        types.wf(),
    ensures
        r.wf(),
        r.entries() == bound_outputs(id.0, *flow, n, types.entries()),
        final(ops)@ == old(ops)@ + prepare(id.0, *flow, n, types.entries()),
{
    let ghost before = ops@;
    let ghost list = types.entries();
    let mut r: SlotMap<Place> = SlotMap::new();
    let mut i: usize = 0;
    proof {
        types.lemma_entries();
        assert(list.subrange(0, 0) =~= Seq::<(u32, Type)>::empty());
        assert(ops@ =~= before + prepare(id.0, *flow, n, list.subrange(0, 0)));
    }
    while i < types.len()
        invariant
            types.wf(),
            list == types.entries(),
            distinct(list),
            i <= list.len(),
            r.wf(),
            r.entries() == bound_outputs(id.0, *flow, n, list.subrange(0, i as int)),
            ops@ == before + prepare(id.0, *flow, n, list.subrange(0, i as int)),
        decreases list.len() - i,
    {
        let no = types.key_at(i);
        let edges = flow.output_edges(n, OutputNo(no));
        proof {
            let prefix = list.subrange(0, i as int);
            let next = list.subrange(0, i + 1);
            assert(next.drop_last() =~= prefix);
            assert(next.last() == list[i as int]);
            lemma_bound_outputs(id.0, *flow, n, prefix);
            r.lemma_entries();
            if r@.contains_key(no) {
                assert(listed(r.entries(), no));
                assert(listed(prefix, no));
                let q = place_of(prefix, no);
                assert(list[q].0 == list[i as int].0);
            }
        }
        if edges.len() > 0 {
            let target = Place::Edge { flow: id, edge: edges[0] };
            ops.push(Op::Resize { target });
            r.insert(no, target);
            assert(ops@ =~= before + prepare(id.0, *flow, n, list.subrange(0, i + 1)));
        } else {
            assert(ops@ =~= before + prepare(id.0, *flow, n, list.subrange(0, i + 1)));
        }
        i += 1;
    }
    assert(list.subrange(0, i as int) =~= list);
    r
}

/// The places that [`bound_inputs`] lists for the input slots `types` of
/// node `n`, or, where `outward`, those that [`bound_outputs`] lists for the
/// output slots `types`.
pub fn bind(id: FlowId, flow: &Flow, n: NodeIx, types: &SlotMap<Type>, outward: bool) -> (r: SlotMap<
    Place,
>)
    requires
        types.wf(),
    ensures
        r.wf(),
        r.entries() == (if outward {
            bound_outputs(id.0, *flow, n, types.entries())
        } else {
            bound_inputs(id.0, *flow, n, types.entries())
        }),
{
    let ghost list = types.entries();
    let mut r: SlotMap<Place> = SlotMap::new();
    let mut i: usize = 0;
    proof {
        types.lemma_entries();
        assert(list.subrange(0, 0) =~= Seq::<(u32, Type)>::empty());
    }
    while i < types.len()
        invariant
            types.wf(),
            list == types.entries(),
            distinct(list),
            i <= list.len(),
            r.wf(),
            r.entries() == (if outward {
                bound_outputs(id.0, *flow, n, list.subrange(0, i as int))
            } else {
                bound_inputs(id.0, *flow, n, list.subrange(0, i as int))
            }),
        decreases list.len() - i,
    {
        let no = types.key_at(i);
        let edges = if outward {
            flow.output_edges(n, OutputNo(no))
        } else {
            flow.input_edges(n, InputNo(no))
        };
        proof {
            let prefix = list.subrange(0, i as int);
            let next = list.subrange(0, i + 1);
            assert(next.drop_last() =~= prefix);
            assert(next.last() == list[i as int]);
            lemma_bound_outputs(id.0, *flow, n, prefix);
            lemma_bound_inputs(id.0, *flow, n, prefix);
            r.lemma_entries();
            if r@.contains_key(no) {
                assert(listed(r.entries(), no));
                assert(listed(prefix, no));
                let q = place_of(prefix, no);
                assert(list[q].0 == list[i as int].0);
            }
        }
        if edges.len() > 0 {
            r.insert(no, Place::Edge { flow: id, edge: edges[0] });
        }
        i += 1;
    }
    assert(list.subrange(0, i as int) =~= list);
    r
}

/// Appends to `ops` what [`spread`] lists for the output slots `types` of
/// node `n`.
fn push_spread(ops: &mut Vec<Op>, id: FlowId, flow: &Flow, n: NodeIx, types: &SlotMap<Type>)
    requires
        types.wf(),
    ensures
        final(ops)@ == old(ops)@ + spread(id.0, *flow, n, types.entries()),
{
    let ghost before = ops@;
    let ghost list = types.entries();
    let mut i: usize = 0;
    proof {
        assert(list.subrange(0, 0) =~= Seq::<(u32, Type)>::empty());
        assert(ops@ =~= before + spread(id.0, *flow, n, list.subrange(0, 0)));
    }
    while i < types.len()
        invariant
            types.wf(),
            list == types.entries(),
            i <= list.len(),
            ops@ == before + spread(id.0, *flow, n, list.subrange(0, i as int)),
        decreases list.len() - i,
    {
        let no = types.key_at(i);
        let edges = flow.output_edges(n, OutputNo(no));
        push_spread_slot(ops, id, &edges);
        proof {
            let prefix = list.subrange(0, i as int);
            let next = list.subrange(0, i + 1);
            assert(next.drop_last() =~= prefix);
            assert(next.last() == list[i as int]);
            assert(ops@ =~= before + spread(id.0, *flow, n, next));
        }
        i += 1;
    }
    assert(list.subrange(0, i as int) =~= list);
}

/// A plan of some nodes begins with the plan of the first of them.
pub proof fn lemma_plan_prefix(
    flows: Map<u64, Flow>,
    fuel: nat,
    id: u64,
    order: Seq<NodeIx>,
    outs: Seq<(u32, Place)>,
    ins: Seq<(u32, Place)>,
    k: int,
)
    requires
        0 <= k <= order.len(),
        plan_nodes(flows, fuel, id, order.subrange(0, k), outs, ins) is None,
    ensures
        plan_nodes(flows, fuel, id, order, outs, ins) is None,
    decreases order.len() - k,
{
    if k < order.len() {
        assert(order.subrange(0, k + 1).drop_last() =~= order.subrange(0, k));
        lemma_plan_prefix(flows, fuel, id, order, outs, ins, k + 1);
    } else {
        assert(order.subrange(0, k) =~= order);
    }
}

/// Appends to `ops` the plan of flow `id` and returns `true`, or returns
/// `false` where there is none.
fn push_flow(
    ops: &mut Vec<Op>,
    store: &FlowStore,
    fuel: usize,
    id: FlowId,
    outs: &SlotMap<Place>,
    ins: &SlotMap<Place>,
) -> (r: bool)
    requires
        store.wf(),
        outs.wf(),
        ins.wf(),
    ensures
        r == plan_flow(store@, fuel as nat, id.0, outs.entries(), ins.entries()) is Some,
        r ==> final(ops)@ == old(ops)@ + plan_flow(
            store@,
            fuel as nat,
            id.0,
            outs.entries(),
            ins.entries(),
        )->0,
    decreases fuel, 0nat, 0nat,
{
    if fuel == 0 {
        return false;
    }
    let flow = match store.get(id) {
        Some(flow) => flow,
        None => {
            return false;
        },
    };
    let ghost before = ops@;
    let ghost head = Seq::new(outs.entries().len(), |i: int| Op::Resize { target: outs.entries()[i].1 });
    let mut i: usize = 0;
    while i < outs.len()
        invariant
            i <= outs.entries().len(),
            head == Seq::new(outs.entries().len(), |i: int| Op::Resize { target: outs.entries()[i].1 }),
            ops@ == before + head.subrange(0, i as int),
        decreases outs.entries().len() - i,
    {
        ops.push(Op::Resize { target: *outs.value_at(i) });
        i += 1;
        assert(ops@ =~= before + head.subrange(0, i as int));
    }
    assert(head.subrange(0, i as int) =~= head);
    let order = flow.visit_order();
    let ghost rest = (fuel - 1) as nat;
    let ghost o = outs.entries();
    let ghost n = ins.entries();
    let mut k: usize = 0;
    proof {
        assert(order@.subrange(0, 0) =~= Seq::<NodeIx>::empty());
        assert(ops@ =~= before + head + Seq::<Op>::empty());
    }
    while k < order.len()
        invariant
            store.wf(),
            outs.wf(),
            ins.wf(),
            o == outs.entries(),
            n == ins.entries(),
            store@.contains_key(id.0),
            *flow == store@[id.0],
            order@ == flow.order(),
            rest == fuel - 1,
            k <= order.len(),
            plan_nodes(store@, rest, id.0, order@.subrange(0, k as int), o, n) is Some,
            ops@ == before + head + plan_nodes(store@, rest, id.0, order@.subrange(0, k as int), o, n)->0,
        decreases order.len() - k,
    {
        let ghost sofar = ops@;
        let done = push_node(ops, store, fuel - 1, id, flow, order[k], outs, ins);
        proof {
            let prefix = order@.subrange(0, k as int);
            let next = order@.subrange(0, k + 1);
            assert(next.drop_last() =~= prefix);
            assert(next.last() == order@[k as int]);
            if !done {
                assert(plan_nodes(store@, rest, id.0, next, o, n) is None);
                lemma_plan_prefix(store@, rest, id.0, order@, o, n, k + 1);
            } else {
                assert(ops@ =~= before + head + plan_nodes(store@, rest, id.0, next, o, n)->0);
            }
        }
        if !done {
            return false;
        }
        k += 1;
    }
    proof {
        assert(order@.subrange(0, k as int) =~= order@);
        assert(ops@ =~= before + (head + plan_nodes(store@, rest, id.0, order@, o, n)->0));
    }
    true
}

/// Appends to `ops` the plan of node `n` of the flow `flow`, which is flow
/// `id` of the store, and returns `true`, or returns `false` where there is
/// none.
fn push_node(
    ops: &mut Vec<Op>,
    store: &FlowStore,
    fuel: usize,
    id: FlowId,
    flow: &Flow,
    n: NodeIx,
    outs: &SlotMap<Place>,
    ins: &SlotMap<Place>,
) -> (r: bool)
    requires
        store.wf(),
        outs.wf(),
        ins.wf(),
        store@.contains_key(id.0),
        *flow == store@[id.0],
    ensures
        r == plan_node(store@, fuel as nat, id.0, n, outs.entries(), ins.entries()) is Some,
        r ==> final(ops)@ == old(ops)@ + plan_node(
            store@,
            fuel as nat,
            id.0,
            n,
            outs.entries(),
            ins.entries(),
        )->0,
    decreases fuel, 1nat, 0nat,
{
    let ghost before = ops@;
    match flow.get_node(n) {
        None => false,
        Some(Node::Input { no, .. }) => {
            push_input(ops, id, flow, n, *no, ins);
            true
        },
        Some(Node::Output { no, .. }) => {
            push_output(ops, id, flow, n, *no, outs);
            true
        },
        Some(Node::Element(e)) => {
            let known = match e {
                Element::Flow(f) => store.contains(*f),
                Element::Prim(_) => true,
            };
            if !known {
                return false;
            }
            let in_types = e.input_types(store);
            let out_types = e.output_types(store);
            let in_places = push_gather(ops, id, flow, n, &in_types);
            let out_places = push_prepare(ops, id, flow, n, &out_types);
            let ghost ready = ops@;
            match e {
                Element::Prim(prim) => {
                    ops.push(Op::Prim { prim: *prim, flow: id, node: n });
                    assert(ops@ =~= ready + seq![Op::Prim { prim: *prim, flow: id, node: n }]);
                },
                Element::Flow(f) => {
                    if !push_flow(ops, store, fuel, *f, &out_places, &in_places) {
                        return false;
                    }
                },
            }
            let ghost computed = ops@;
            push_spread(ops, id, flow, n, &out_types);
            proof {
                let a = gather(id.0, *flow, n, e.input_list(store@));
                let b = prepare(id.0, *flow, n, e.output_list(store@));
                let d = spread(id.0, *flow, n, e.output_list(store@));
                let c = computed.subrange(ready.len() as int, computed.len() as int);
                assert(computed =~= ready + c);
                assert(ops@ =~= before + (a + b + c + d));
            }
            true
        },
    }
}

/// The places that stand for the caller's buffers of the slots of
/// `buffers`: its output buffers where `outward`, else its input buffers.
pub open spec fn outer_places<V>(buffers: Seq<(u32, V)>, outward: bool) -> Seq<(u32, Place)> {
    Seq::new(
        buffers.len(),
        |i: int|
            (
                buffers[i].0,
                if outward {
                    Place::Output(OutputNo(buffers[i].0))
                } else {
                    Place::Input(InputNo(buffers[i].0))
                },
            ),
    )
}

/// The places that stand for the caller's buffers.
fn outer<V>(buffers: &SlotMap<V>, outward: bool) -> (r: SlotMap<Place>)
    requires
        buffers.wf(),
    ensures
        r.wf(),
        r.entries() == outer_places(buffers.entries(), outward),
{
    let ghost want = outer_places(buffers.entries(), outward);
    let mut r: SlotMap<Place> = SlotMap::new();
    let mut i: usize = 0;
    proof {
        buffers.lemma_entries();
    }
    while i < buffers.len()
        invariant
            buffers.wf(),
            distinct(buffers.entries()),
            want == outer_places(buffers.entries(), outward),
            i <= buffers.entries().len(),
            r.wf(),
            r.entries() == want.subrange(0, i as int),
        decreases buffers.entries().len() - i,
    {
        let no = buffers.key_at(i);
        proof {
            r.lemma_entries();
            if r@.contains_key(no) {
                let q = place_of(r.entries(), no);
                assert(want[q].0 == buffers.entries()[q].0);
            }
        }
        let place = if outward {
            Place::Output(OutputNo(no))
        } else {
            Place::Input(InputNo(no))
        };
        r.insert(no, place);
        i += 1;
        assert(r.entries() =~= want.subrange(0, i as int));
    }
    assert(want.subrange(0, i as int) =~= want);
    r
}

/// The plan of a block of flow `id` for a caller that holds output buffers
/// for the slots `output` and input buffers for the slots `input`. Flows
/// may be nested as deep as there are flows.
pub open spec fn plan_of<V>(flows: Map<u64, Flow>, id: u64, output: Seq<(u32, V)>, input: Seq<(u32, V)>) -> Option<
    Seq<Op>,
> {
    plan_flow(flows, flows.len(), id, outer_places(output, true), outer_places(input, false))
}

impl FlowStore {
    /// The plan of a block of flow `id`: see [`plan_of`]. There is none
    /// where the flow, or a flow nested in it, is not in the store, or where
    /// a flow is nested in itself.
    pub fn plan<V>(&self, id: FlowId, output: &SlotMap<V>, input: &SlotMap<V>) -> (r: Option<Vec<Op>>)
        requires
            self.wf(),
            output.wf(),
            input.wf(),
        ensures
            match r {
                Some(ops) => plan_of(self@, id.0, output.entries(), input.entries()) == Some(ops@),
                None => plan_of(self@, id.0, output.entries(), input.entries()) is None,
            },
    {
        let outs = outer(output, true);
        let ins = outer(input, false);
        let mut ops: Vec<Op> = Vec::new();
        let fuel = self.len();
        if push_flow(&mut ops, self, fuel, id, &outs, &ins) {
            assert(ops@ =~= plan_of(self@, id.0, output.entries(), input.entries())->0);
            Some(ops)
        } else {
            None
        }
    }
}

} // verus!
