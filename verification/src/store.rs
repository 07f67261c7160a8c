//! The store: flows, their buffers and the states of their primitives, kept
//! in step. Every change of a flow goes through it.

use vstd::prelude::*;
use crate::arena::index_limit;
use crate::buffer::Buffer;
use crate::dag::{detached, Link};
use crate::element::Element;
use crate::engine::{ran, Halt};
use crate::flow::{is_next_no, EdgeError, Edge, Flow, Node};
use crate::flow_store::{is_next_id, FlowId, FlowStore};
use crate::graph::{reaches, EdgeIx, Ends, NodeIx};
use crate::prim_element::{can_make, PrimElement, PrimProcessor};
use crate::processor::{Processor, ProcessorStore};
use crate::schedule::{plan_of, Op};
use crate::slot_map::SlotMap;
use crate::value::{InputNo, OutputNo, Type, F32};

verus! {

/// Flows, with a buffer for each of their edges and a state for each
/// primitive that their nodes use.
pub struct Store {
    flows: FlowStore,
    processors: ProcessorStore,
}

impl Store {
    /// The flows.
    pub closed spec fn flows(&self) -> FlowStore {
        self.flows
    }

    /// The buffers and the states.
    pub closed spec fn procs(&self) -> ProcessorStore {
        self.processors
    }

    /// The flow `id`, which is in the store.
    pub open spec fn flow(&self, id: FlowId) -> Flow {
        self.flows()@[id.0]
    }

    /// The buffers of flow `id`, which is in the store, each under its edge.
    pub open spec fn buffers(&self, id: FlowId) -> Map<EdgeIx, Buffer> {
        self.procs().processors()[id.0].buffers()
    }

    /// How many buffers flow `id`, which is in the store, has.
    pub open spec fn buffer_count(&self, id: FlowId) -> nat {
        self.procs().processors()[id.0].count()
    }

    /// What holds of every store: its flows are in order, each flow has its
    /// processor and each processor its flow, and the buffers of a flow are
    /// those of its edges.
    pub open spec fn wf(&self) -> bool {
        &&& self.flows().wf()
        &&& self.procs().wf()
        &&& self.flows()@.dom() == self.procs().processors().dom()
        &&& forall|id: u64| #[trigger]
            self.flows()@.contains_key(id) ==> self.procs().processors()[id].buffers().dom()
                == self.flows()@[id].links().dom()
    }

    /// Whether one more flow can be added.
    pub open spec fn room(&self) -> bool {
        self.flows().room() && self.procs().room()
    }

    /// Whether one more edge can be added to flow `id`.
    pub open spec fn edge_room(&self, id: FlowId) -> bool {
        self.flow(id).link_room() && self.procs().processors()[id.0].room()
    }

    pub fn new() -> (r: Store)
        ensures
            r.wf(),
            r.flows()@ == Map::<u64, Flow>::empty(),
            forall|prim: PrimElement| r.procs().uses(prim) == 0,
    {
        Self { flows: FlowStore::new(), processors: ProcessorStore::new() }
    }

    pub fn flow_store(&self) -> (r: &FlowStore)
        ensures
            *r == self.flows(),
    {
        &self.flows
    }

    pub fn processor_store(&self) -> (r: &ProcessorStore)
        ensures
            *r == self.procs(),
    {
        &self.processors
    }

    /// Adds an empty flow, with its processor.
    pub fn add_flow(&mut self) -> (r: FlowId)
        requires
            old(self).wf(),
            old(self).room(),
        ensures
            final(self).wf(),
            is_next_id(old(self).flows()@, old(self).flows().cursor(), r.0),
            final(self).flows().cursor() == r.0.wrapping_add(1),
            !old(self).flows()@.contains_key(r.0),
            final(self).flows()@.dom() == old(self).flows()@.dom().insert(r.0),
            forall|id: u64|
                old(self).flows()@.contains_key(id) ==> final(self).flows()@[id] == old(self).flows()@[id]
                    && final(self).procs().processors()[id] == old(self).procs().processors()[id],
            final(self).flow(r).nodes() == Map::<NodeIx, Node>::empty(),
            final(self).flow(r).links() == Map::<EdgeIx, Link>::empty(),
            forall|n: NodeIx| final(self).flow(r).incoming(n).len() == 0 && final(self).flow(r).outgoing(n).len() == 0,
            final(self).flow(r).inputs() == Map::<u32, Type>::empty(),
            final(self).flow(r).outputs() == Map::<u32, Type>::empty(),
            final(self).buffers(r) == Map::<EdgeIx, Buffer>::empty(),
            final(self).buffer_count(r) == 0,
            forall|prim: PrimElement|
                final(self).procs().uses(prim) == old(self).procs().uses(prim) && final(self).procs().state(
                    prim,
                ) == old(self).procs().state(prim),
    {
        let flow_id = self.flows.add(Flow::new());
        self.processors.add(flow_id);
        proof {
            assert(self.flows()@.dom() =~= old(self).flows()@.dom().insert(flow_id.0));
            assert(self.procs().processors().dom() =~= self.procs().processors().remove(flow_id.0).dom().insert(
                flow_id.0,
            ));
            assert forall|id: u64| #[trigger] self.flows()@.contains_key(id) implies self.procs().processors()[id].buffers().dom()
                == self.flows()@[id].links().dom() by {
                if id != flow_id.0 {
                    assert(old(self).flows()@.contains_key(id));
                    assert(self.procs().processors().remove(flow_id.0)[id] == self.procs().processors()[id]);
                }
            }
            assert forall|id: u64| old(self).flows()@.contains_key(id) implies self.flows()@[id] == old(self).flows()@[id] && self.procs().processors()[id] == old(self).procs().processors()[id] by {
                assert(self.procs().processors().remove(flow_id.0)[id] == self.procs().processors()[id]);
            }
        }
        flow_id
    }

    /// Takes the flow `flow_id`, which is in the store, out of it, with its
    /// processor.
    pub fn remove_flow(&mut self, flow_id: FlowId) -> (r: (Flow, Processor))
        requires
            old(self).wf(),
            old(self).flows()@.contains_key(flow_id.0),
        ensures
            final(self).wf(),
            r.0 == old(self).flow(flow_id),
            r.1 == old(self).procs().processors()[flow_id.0],
            final(self).flows()@ == old(self).flows()@.remove(flow_id.0),
            final(self).procs().processors() == old(self).procs().processors().remove(flow_id.0),
            forall|prim: PrimElement|
                final(self).procs().uses(prim) == old(self).procs().uses(prim) && final(self).procs().state(
                    prim,
                ) == old(self).procs().state(prim),
    {
        let flow = self.flows.remove(flow_id);
        let processor = self.processors.remove(flow_id);
        proof {
            assert(self.flows()@.dom() =~= self.procs().processors().dom());
            assert forall|id: u64| #[trigger] self.flows()@.contains_key(id) implies self.procs().processors()[id].buffers().dom()
                == self.flows()@[id].links().dom() by {
                assert(old(self).flows()@.contains_key(id));
            }
        }
        (flow.unwrap(), processor.unwrap())
    }

    /// Whether this store differs from `other` at most in flow `id` and its
    /// buffers.
    pub open spec fn kept_but(&self, other: &Store, id: FlowId) -> bool {
        &&& self.flows()@.dom() == other.flows()@.dom()
        &&& self.procs().processors().dom() == other.procs().processors().dom()
        &&& forall|k: u64|
            k != id.0 && #[trigger] other.flows()@.contains_key(k) ==> self.flows()@[k] == other.flows()@[k]
                && self.procs().processors()[k] == other.procs().processors()[k]
    }

    /// Whether the primitives other than those of descriptor `prim` are used
    /// by as many nodes, and are in the same state, as in `other`.
    pub open spec fn states_kept_but(&self, other: &Store, prim: PrimElement) -> bool {
        forall|q: PrimElement|
            !q.same(prim) ==> self.procs().uses(q) == other.procs().uses(q) && self.procs().state(q)
                == other.procs().state(q)
    }

    /// Whether every primitive is used by as many nodes, and is in the same
    /// state, as in `other`.
    pub open spec fn states_kept(&self, other: &Store) -> bool {
        forall|q: PrimElement|
            self.procs().uses(q) == other.procs().uses(q) && self.procs().state(q) == other.procs().state(
                q,
            )
    }

    /// Adds an element node to flow `flow_id`. A primitive is counted as
    /// used once more; its state is made with its first use.
    pub fn add_element(&mut self, flow_id: FlowId, element: Element) -> (r: NodeIx)
        requires
            old(self).wf(),
            old(self).flows()@.contains_key(flow_id.0),
            old(self).flow(flow_id).node_room(),
            element matches Element::Prim(p) ==> can_make(p) && old(self).procs().uses(p) <= u32::MAX,
        ensures
            final(self).wf(),
            final(self).kept_but(old(self), flow_id),
            !old(self).flow(flow_id).nodes().contains_key(r),
            final(self).flow(flow_id).nodes() == old(self).flow(flow_id).nodes().insert(
                r,
                Node::Element(element),
            ),
            final(self).flow(flow_id).links() == old(self).flow(flow_id).links(),
            final(self).flow(flow_id).same_walks(&old(self).flow(flow_id)),
            final(self).flow(flow_id).inputs() == old(self).flow(flow_id).inputs(),
            final(self).flow(flow_id).outputs() == old(self).flow(flow_id).outputs(),
            final(self).procs().processors() == old(self).procs().processors(),
            match element {
                Element::Prim(p) => final(self).procs().uses(p) == old(self).procs().uses(p) + 1 && final(self).states_kept_but(old(self), p) && (old(self).procs().uses(p) > 0 ==> final(self).procs().state(p) == old(self).procs().state(p)) && final(self).procs().state(p) is Some,
                Element::Flow(_) => final(self).states_kept(old(self)),
            },
    {
        if let Element::Prim(pe_id) = element {
            self.processors.use_prim_element_processor(pe_id);
        }
        let r = self.flows.get_mut(flow_id).unwrap().add_element(element);
        proof {
            assert(self.flows()@.dom() =~= old(self).flows()@.dom());
            assert forall|id: u64| #[trigger] self.flows()@.contains_key(id) implies self.flows()@[id].wf()
                && self.procs().processors()[id].buffers().dom() == self.flows()@[id].links().dom() by {
                assert(old(self).flows()@.contains_key(id));
            }
        }
        r
    }

    /// Declares an input slot of type `ty` of flow `flow_id` under the next
    /// free number and adds its node.
    pub fn add_input(&mut self, flow_id: FlowId, ty: Type) -> (r: (InputNo, NodeIx))
        requires
            old(self).wf(),
            old(self).flows()@.contains_key(flow_id.0),
            old(self).flow(flow_id).node_room(),
            old(self).flow(flow_id).input_room(),
        ensures
            final(self).wf(),
            final(self).kept_but(old(self), flow_id),
            final(self).states_kept(old(self)),
            final(self).procs().processors() == old(self).procs().processors(),
            is_next_no(old(self).flow(flow_id).inputs(), r.0.0),
            !old(self).flow(flow_id).inputs().contains_key(r.0.0),
            !old(self).flow(flow_id).nodes().contains_key(r.1),
            final(self).flow(flow_id).nodes() == old(self).flow(flow_id).nodes().insert(
                r.1,
                Node::Input { no: r.0, ty },
            ),
            final(self).flow(flow_id).links() == old(self).flow(flow_id).links(),
            final(self).flow(flow_id).same_walks(&old(self).flow(flow_id)),
            final(self).flow(flow_id).inputs() == old(self).flow(flow_id).inputs().insert(r.0.0, ty),
            final(self).flow(flow_id).outputs() == old(self).flow(flow_id).outputs(),
    {
        let r = self.flows.get_mut(flow_id).unwrap().add_input(ty);
        proof {
            assert(self.flows()@.dom() =~= old(self).flows()@.dom());
            assert forall|id: u64| #[trigger] self.flows()@.contains_key(id) implies self.flows()@[id].wf()
                && self.procs().processors()[id].buffers().dom() == self.flows()@[id].links().dom() by {
                assert(old(self).flows()@.contains_key(id));
            }
        }
        r
    }

    /// Declares an output slot of type `ty` of flow `flow_id` under the next
    /// free number and adds its node.
    pub fn add_output(&mut self, flow_id: FlowId, ty: Type) -> (r: (OutputNo, NodeIx))
        requires
            old(self).wf(),
            old(self).flows()@.contains_key(flow_id.0),
            old(self).flow(flow_id).node_room(),
            old(self).flow(flow_id).output_room(),
        ensures
            final(self).wf(),
            final(self).kept_but(old(self), flow_id),
            final(self).states_kept(old(self)),
            final(self).procs().processors() == old(self).procs().processors(),
            is_next_no(old(self).flow(flow_id).outputs(), r.0.0),
            !old(self).flow(flow_id).outputs().contains_key(r.0.0),
            !old(self).flow(flow_id).nodes().contains_key(r.1),
            final(self).flow(flow_id).nodes() == old(self).flow(flow_id).nodes().insert(
                r.1,
                Node::Output { no: r.0, ty },
            ),
            final(self).flow(flow_id).links() == old(self).flow(flow_id).links(),
            final(self).flow(flow_id).same_walks(&old(self).flow(flow_id)),
            final(self).flow(flow_id).outputs() == old(self).flow(flow_id).outputs().insert(r.0.0, ty),
            final(self).flow(flow_id).inputs() == old(self).flow(flow_id).inputs(),
    {
        let r = self.flows.get_mut(flow_id).unwrap().add_output(ty);
        proof {
            assert(self.flows()@.dom() =~= old(self).flows()@.dom());
            assert forall|id: u64| #[trigger] self.flows()@.contains_key(id) implies self.flows()@[id].wf()
                && self.procs().processors()[id].buffers().dom() == self.flows()@[id].links().dom() by {
                assert(old(self).flows()@.contains_key(id));
            }
        }
        r
    }

    /// Adds an edge to flow `flow_id`, from slot `output_no` of `source` to
    /// slot `input_no` of `target`, and makes its buffer. The slots must be
    /// of one type, which the edge gets, and the edge must close no cycle;
    /// else the store stays as it is. While the edge is added the flow is
    /// out of the store, so its nodes cannot nest the flow itself.
    pub fn add_edge(
        &mut self,
        flow_id: FlowId,
        source: NodeIx,
        output_no: OutputNo,
        target: NodeIx,
        input_no: InputNo,
    ) -> (r: Result<(EdgeIx, Type), EdgeError>)
        requires
            old(self).wf(),
            old(self).flows()@.contains_key(flow_id.0),
            old(self).edge_room(flow_id),
            old(self).flow(flow_id).nodes().contains_key(source),
            old(self).flow(flow_id).nodes().contains_key(target),
            old(self).flow(flow_id).nodes()[source].resolvable(old(self).flows()@.remove(flow_id.0)),
            old(self).flow(flow_id).nodes()[target].resolvable(old(self).flows()@.remove(flow_id.0)),
            old(self).flow(flow_id).nodes()[source].outputs(
                old(self).flows()@.remove(flow_id.0),
            ).contains_key(output_no.0),
            old(self).flow(flow_id).nodes()[target].inputs(
                old(self).flows()@.remove(flow_id.0),
            ).contains_key(input_no.0),
        ensures
            final(self).wf(),
            final(self).kept_but(old(self), flow_id),
            final(self).states_kept(old(self)),
            final(self).flow(flow_id).nodes() == old(self).flow(flow_id).nodes(),
            final(self).flow(flow_id).inputs() == old(self).flow(flow_id).inputs(),
            final(self).flow(flow_id).outputs() == old(self).flow(flow_id).outputs(),
            ({
                let rest = old(self).flows()@.remove(flow_id.0);
                let ty = old(self).flow(flow_id).nodes()[source].outputs(rest)[output_no.0];
                let wanted = old(self).flow(flow_id).nodes()[target].inputs(rest)[input_no.0];
                let cycle = reaches(crate::dag::shape(old(self).flow(flow_id).links()), target, source);
                match r {
                    Err(EdgeError::TypeMismatch) => wanted != ty,
                    Err(EdgeError::WouldCycle) => wanted == ty && cycle,
                    Ok((e, t)) => wanted == ty && !cycle && t == ty && !old(self).flow(
                        flow_id,
                    ).links().contains_key(e) && final(self).flow(flow_id).links() == old(self).flow(
                        flow_id,
                    ).links().insert(
                        e,
                        Link {
                            ends: Ends { source, target },
                            edge: Edge { output_no, input_no, ty },
                        },
                    ) && final(self).flow(flow_id).walks_with(&old(self).flow(flow_id), e, source, target)
                        && final(self).buffers(flow_id).contains_key(e) && final(self).buffers(flow_id)[e]@
                        == crate::buffer::Contents::fresh(ty) && final(self).buffers(flow_id).remove(e)
                        == old(self).buffers(flow_id) && final(self).buffer_count(flow_id) == old(
                        self,
                    ).buffer_count(flow_id) + 1,
                }
            }),
            r is Err ==> final(self).flow(flow_id).same_as(&old(self).flow(flow_id)) && final(self).procs().processors() == old(self).procs().processors(),
    {
        proof {
            self.flows.lemma_bounded();
        }
        let mut flow = self.flows.remove(flow_id).unwrap();
        proof {
            assert(self.flows()@.dom().finite());
            assert(self.flows()@.len() < index_limit());
        }
        let r = flow.add_edge(source, output_no, target, input_no, &self.flows);
        self.flows.restore(flow_id, flow);
        match r {
            Ok((edge_ix, ty)) => {
                assert(old(self).flows()@.contains_key(flow_id.0));
                assert(!old(self).buffers(flow_id).contains_key(edge_ix));
                self.processors.processor_mut(flow_id).unwrap().add_edge(edge_ix, ty);
            },
            Err(_) => {},
        }
        proof {
            assert(self.flows()@.dom() =~= old(self).flows()@.dom());
            assert(self.procs().processors().dom() =~= old(self).procs().processors().dom());
            assert forall|id: u64| #[trigger] self.flows()@.contains_key(id) implies self.flows()@[id].wf()
                && self.procs().processors()[id].wf() && self.procs().processors()[id].buffers().dom()
                == self.flows()@[id].links().dom() by {
                assert(old(self).flows()@.contains_key(id));
                assert(old(self).procs().processors().contains_key(id));
                if id == flow_id.0 {
                    match r {
                        Ok((e, _)) => {
                            assert(self.buffers(flow_id).dom() =~= self.buffers(flow_id).remove(e).dom().insert(
                                e,
                            ));
                            assert(self.flow(flow_id).links().dom() =~= old(self).flow(
                                flow_id,
                            ).links().dom().insert(e));
                        },
                        Err(_) => {},
                    }
                }
            }
            if r is Err {
                assert(self.procs().processors() =~= old(self).procs().processors());
            }
        }
        r
    }

    /// Takes the edge `edge_ix` out of flow `flow_id`, with its buffer, and
    /// says whether there was such an edge.
    pub fn remove_edge(&mut self, flow_id: FlowId, edge_ix: EdgeIx) -> (r: bool)
        requires
            old(self).wf(),
            old(self).flows()@.contains_key(flow_id.0),
        ensures
            final(self).wf(),
            final(self).kept_but(old(self), flow_id),
            final(self).states_kept(old(self)),
            r == old(self).flow(flow_id).links().contains_key(edge_ix),
            r ==> final(self).flow(flow_id).walks_without_edge(&old(self).flow(flow_id), edge_ix),
            !r ==> final(self).flow(flow_id).same_as(&old(self).flow(flow_id)),
            final(self).flow(flow_id).nodes() == old(self).flow(flow_id).nodes(),
            final(self).flow(flow_id).links() == old(self).flow(flow_id).links().remove(edge_ix),
            final(self).flow(flow_id).inputs() == old(self).flow(flow_id).inputs(),
            final(self).flow(flow_id).outputs() == old(self).flow(flow_id).outputs(),
            final(self).buffers(flow_id) == old(self).buffers(flow_id).remove(edge_ix),
            !final(self).buffers(flow_id).contains_key(edge_ix),
            final(self).buffer_count(flow_id) == old(self).buffer_count(flow_id) - (if r {
                1int
            } else {
                0int
            }),
    {
        assert(old(self).procs().processors().contains_key(flow_id.0));
        self.processors.processor_mut(flow_id).unwrap().remove_edge(edge_ix);
        let r = self.flows.get_mut(flow_id).unwrap().remove_edge(edge_ix);
        proof {
            assert(self.flows()@.dom() =~= old(self).flows()@.dom());
            assert(self.procs().processors().dom() =~= old(self).procs().processors().dom());
            assert forall|id: u64| #[trigger] self.flows()@.contains_key(id) implies self.flows()@[id].wf()
                && self.procs().processors()[id].wf() && self.procs().processors()[id].buffers().dom()
                == self.flows()@[id].links().dom() by {
                assert(old(self).flows()@.contains_key(id));
                assert(old(self).procs().processors().contains_key(id));
                if id == flow_id.0 {
                    assert(self.buffers(flow_id).dom() =~= self.flow(flow_id).links().dom());
                }
            }
        }
        r
    }

    /// Drops the buffers of the edges `edges` of flow `flow_id`.
    fn drop_buffers(&mut self, flow_id: FlowId, edges: &Vec<(EdgeIx, NodeIx)>)
        requires
            old(self).procs().wf(),
            old(self).procs().processors().contains_key(flow_id.0),
        ensures
            final(self).procs().wf(),
            final(self).flows() == old(self).flows(),
            final(self).states_kept(old(self)),
            final(self).procs().processors().dom() == old(self).procs().processors().dom(),
            forall|k: u64|
                k != flow_id.0 && #[trigger] old(self).procs().processors().contains_key(k) ==> final(self).procs().processors()[k] == old(self).procs().processors()[k],
            forall|e: EdgeIx|
                final(self).buffers(flow_id).contains_key(e) <==> old(self).buffers(flow_id).contains_key(e)
                    && !exists|i: int| 0 <= i < edges@.len() && (#[trigger] edges@[i]).0 == e,
            final(self).buffer_count(flow_id) <= old(self).buffer_count(flow_id),
    {
        let mut i: usize = 0;
        while i < edges.len()
            invariant
                i <= edges.len(),
                self.procs().wf(),
                self.flows() == old(self).flows(),
                self.states_kept(old(self)),
                self.procs().processors().dom() == old(self).procs().processors().dom(),
                old(self).procs().processors().contains_key(flow_id.0),
                forall|k: u64|
                    k != flow_id.0 && #[trigger] old(self).procs().processors().contains_key(k)
                        ==> self.procs().processors()[k] == old(self).procs().processors()[k],
                forall|e: EdgeIx|
                    self.buffers(flow_id).contains_key(e) <==> old(self).buffers(flow_id).contains_key(e)
                        && !exists|j: int| 0 <= j < i && (#[trigger] edges@[j]).0 == e,
                self.buffer_count(flow_id) <= old(self).buffer_count(flow_id),
            decreases edges.len() - i,
        {
            let ghost before = self.buffers(flow_id);
            let edge = edges[i].0;
            self.processors.processor_mut(flow_id).unwrap().remove_edge(edge);
            proof {
                assert(self.procs().processors().dom() =~= old(self).procs().processors().dom());
                assert forall|k: u64| #[trigger] self.procs().processors().contains_key(k) implies self.procs().processors()[k].wf() by {}
                assert forall|e: EdgeIx|
                    self.buffers(flow_id).contains_key(e) <==> old(self).buffers(flow_id).contains_key(e)
                        && !exists|j: int| 0 <= j < i + 1 && (#[trigger] edges@[j]).0 == e by {
                    assert(self.buffers(flow_id) == before.remove(edge));
                    if e == edge {
                        assert(edges@[i as int].0 == e);
                    }
                    if exists|j: int| 0 <= j < i + 1 && (#[trigger] edges@[j]).0 == e {
                        let j = choose|j: int| 0 <= j < i + 1 && (#[trigger] edges@[j]).0 == e;
                        if j < i {
                            assert(!before.contains_key(e));
                        }
                    }
                }
            }
            i += 1;
        }
    }

    /// Takes the node `node_ix` out of flow `flow_id`, with the edges that
    /// touch it and their buffers, and returns it. An input or output node
    /// takes its declared slot with it; a primitive is counted as used once
    /// less, and with its last use its state goes.
    pub fn remove_node(&mut self, flow_id: FlowId, node_ix: NodeIx) -> (r: Option<Node>)
        requires
            old(self).wf(),
            old(self).flows()@.contains_key(flow_id.0),
        ensures
            final(self).wf(),
            final(self).kept_but(old(self), flow_id),
            r == (if old(self).flow(flow_id).nodes().contains_key(node_ix) {
                Some(old(self).flow(flow_id).nodes()[node_ix])
            } else {
                None::<Node>
            }),
            final(self).flow(flow_id).nodes() == old(self).flow(flow_id).nodes().remove(node_ix),
            r is Some ==> final(self).flow(flow_id).links() == detached(
                old(self).flow(flow_id).links(),
                node_ix,
            ),
            r is Some ==> final(self).flow(flow_id).walks_without_node(&old(self).flow(flow_id), node_ix),
            r is None ==> final(self).flow(flow_id).same_as(&old(self).flow(flow_id)),
            final(self).flow(flow_id).inputs() == (match r {
                Some(Node::Input { no, .. }) => old(self).flow(flow_id).inputs().remove(no.0),
                _ => old(self).flow(flow_id).inputs(),
            }),
            final(self).flow(flow_id).outputs() == (match r {
                Some(Node::Output { no, .. }) => old(self).flow(flow_id).outputs().remove(no.0),
                _ => old(self).flow(flow_id).outputs(),
            }),
            forall|e: EdgeIx|
                final(self).buffers(flow_id).contains_key(e) <==> #[trigger] old(self).buffers(
                    flow_id,
                ).contains_key(e) && old(self).flow(flow_id).links()[e].ends.source != node_ix && old(self).flow(flow_id).links()[e].ends.target != node_ix,
            final(self).buffer_count(flow_id) <= old(self).buffer_count(flow_id),
            match r {
                Some(Node::Element(Element::Prim(p))) => final(self).states_kept_but(old(self), p) && final(self).procs().uses(p) == (if old(self).procs().uses(p) > 0 {
                    old(self).procs().uses(p) - 1
                } else {
                    0
                }),
                _ => final(self).states_kept(old(self)),
            },
    {
        let ghost links = old(self).flow(flow_id).links();
        let flow = self.flows.get(flow_id).unwrap();
        let parents = flow.parents(node_ix);
        let children = flow.children(node_ix);
        assert(old(self).procs().processors().contains_key(flow_id.0));
        self.drop_buffers(flow_id, &parents);
        let ghost half = *self;
        self.drop_buffers(flow_id, &children);
        let ghost dropped = *self;
        let r = self.flows.get_mut(flow_id).unwrap().remove_node(node_ix);
        let ghost removed = *self;
        match r {
            Some(Node::Element(Element::Prim(pe_id))) => {
                if self.processors.in_use(pe_id) {
                    self.processors.free_prim_element_processor(pe_id);
                }
            },
            _ => {},
        }
        proof {
            assert(self.flows()@.dom() =~= old(self).flows()@.dom());
            assert(self.procs().processors() == dropped.procs().processors());
            assert forall|e: EdgeIx|
                self.buffers(flow_id).contains_key(e) <==> #[trigger] old(self).buffers(flow_id).contains_key(
                    e,
                ) && links[e].ends.source != node_ix && links[e].ends.target != node_ix by {
                assert(old(self).buffers(flow_id).dom() == links.dom());
                if old(self).buffers(flow_id).contains_key(e) {
                    assert(links.contains_key(e));
                    if links[e].ends.target == node_ix {
                        let i = choose|i: int| 0 <= i < parents@.len() && #[trigger] parents@[i].0 == e;
                        assert(parents@[i].0 == e);
                    }
                    if links[e].ends.source == node_ix {
                        let i = choose|i: int| 0 <= i < children@.len() && #[trigger] children@[i].0 == e;
                        assert(children@[i].0 == e);
                    }
                    if exists|i: int| 0 <= i < parents@.len() && (#[trigger] parents@[i]).0 == e {
                        let i = choose|i: int| 0 <= i < parents@.len() && (#[trigger] parents@[i]).0 == e;
                        assert(links[parents@[i].0].ends.target == node_ix);
                    }
                    if exists|i: int| 0 <= i < children@.len() && (#[trigger] children@[i]).0 == e {
                        let i = choose|i: int| 0 <= i < children@.len() && (#[trigger] children@[i]).0 == e;
                        assert(links[children@[i].0].ends.source == node_ix);
                    }
                }
            }
            if r is None {
                // no edge touches what is no node
                assert forall|e: EdgeIx| #[trigger] links.contains_key(e) implies links[e].ends.source
                    != node_ix && links[e].ends.target != node_ix by {
                    assert(old(self).flow(flow_id).nodes().contains_key(links[e].ends.source));
                    assert(old(self).flow(flow_id).nodes().contains_key(links[e].ends.target));
                }
            }
            assert forall|id: u64| #[trigger] self.flows()@.contains_key(id) implies self.flows()@[id].wf()
                && self.procs().processors()[id].buffers().dom() == self.flows()@[id].links().dom() by {
                assert(old(self).flows()@.contains_key(id));
                assert(old(self).procs().processors().contains_key(id));
                if id == flow_id.0 {
                    assert forall|e: EdgeIx|
                        self.buffers(flow_id).contains_key(e) <==> self.flow(flow_id).links().contains_key(
                            e,
                        ) by {
                        assert(old(self).buffers(flow_id).dom() == links.dom());
                        assert(old(self).buffers(flow_id).contains_key(e) == links.contains_key(e));
                        if r is None {
                            if links.contains_key(e) {
                                assert(links[e].ends.source != node_ix && links[e].ends.target != node_ix);
                            }
                        }
                    }
                    assert(self.buffers(flow_id).dom() =~= self.flow(flow_id).links().dom());
                } else {
                    assert(half.procs().processors()[id] == old(self).procs().processors()[id]);
                    assert(dropped.procs().processors()[id] == half.procs().processors()[id]);
                }
            }
            assert forall|k: u64|
                k != flow_id.0 && #[trigger] old(self).flows()@.contains_key(k) implies self.flows()@[k]
                == old(self).flows()@[k] && self.procs().processors()[k] == old(self).procs().processors()[k] by {
                assert(old(self).procs().processors().contains_key(k));
                assert(half.procs().processors()[k] == old(self).procs().processors()[k]);
                assert(dropped.procs().processors()[k] == half.procs().processors()[k]);
            }
        }
        r
    }

    /// The plan of a block of flow `flow_id` for a caller that holds the
    /// output buffers `output` and the input buffers `input`: see
    /// [`plan_of`]. There is none where the flow, or a flow nested in it, is
    /// not in the store, or where a flow is nested in itself.
    pub fn plan(&self, flow_id: FlowId, output: &SlotMap<Buffer>, input: &SlotMap<Buffer>) -> (r: Option<
        Vec<Op>,
    >)
        requires
            self.wf(),
            output.wf(),
            input.wf(),
        ensures
            match r {
                Some(ops) => plan_of(self.flows()@, flow_id.0, output.entries(), input.entries()) == Some(
                    ops@,
                ),
                None => plan_of(self.flows()@, flow_id.0, output.entries(), input.entries()) is None,
            },
    {
        self.flows.plan(flow_id, output, input)
    }

    /// Runs the plan `ops` from operation `from` on, for a block of
    /// `buffer_sz` samples: see [`ProcessorStore::run`].
    pub fn run(
        &mut self,
        ops: &Vec<Op>,
        from: usize,
        output: &mut SlotMap<Buffer>,
        input: &SlotMap<Buffer>,
        buffer_sz: usize,
    ) -> (r: Halt)
        requires
            old(self).wf(),
            old(output).wf(),
            input.wf(),
        ensures
            final(self).wf(),
            final(self).flows() == old(self).flows(),
            final(self).procs().alike(&old(self).procs()),
            final(output).wf(),
            final(output).keys() == old(output).keys(),
            (final(self).procs().board_with(final(output)@, input@), r) == ran(
                old(self).procs(),
                old(self).flows()@,
                old(self).procs().board_with(old(output)@, input@),
                ops@,
                from as nat,
                buffer_sz as nat,
            ),
    {
        let r = self.processors.run(&self.flows, ops, from, output, input, buffer_sz);
        proof {
            self.procs().lemma_same_edges(&old(self).procs());
            assert forall|id: u64| #[trigger] self.flows()@.contains_key(id) implies self.procs().processors()[id].buffers().dom()
                == self.flows()@[id].links().dom() by {
                assert(self.procs().processors().contains_key(id));
            }
        }
        r
    }

    /// Plans a block of `buffer_sz` samples of flow `flow_id` and runs the
    /// plan from its beginning. `None` where there is no plan; else the plan
    /// and where its run halted, so that the run can be taken up from there.
    pub fn compute_outplace(
        &mut self,
        flow_id: FlowId,
        output: &mut SlotMap<Buffer>,
        input: &SlotMap<Buffer>,
        buffer_sz: usize,
    ) -> (r: Option<(Vec<Op>, Halt)>)
        requires
            old(self).wf(),
            old(output).wf(),
            input.wf(),
        ensures
            final(self).wf(),
            final(self).flows() == old(self).flows(),
            final(self).procs().alike(&old(self).procs()),
            final(output).wf(),
            final(output).keys() == old(output).keys(),
            match r {
                Some((ops, halt)) => plan_of(
                    old(self).flows()@,
                    flow_id.0,
                    old(output).entries(),
                    input.entries(),
                ) == Some(ops@) && (final(self).procs().board_with(final(output)@, input@), halt) == ran(
                    old(self).procs(),
                    old(self).flows()@,
                    old(self).procs().board_with(old(output)@, input@),
                    ops@,
                    0,
                    buffer_sz as nat,
                ),
                None => plan_of(old(self).flows()@, flow_id.0, old(output).entries(), input.entries())
                    is None && *final(self) == *old(self) && *final(output) == *old(output),
            },
    {
        match self.plan(flow_id, output, input) {
            Some(ops) => {
                let halt = self.run(&ops, 0, output, input, buffer_sz);
                Some((ops, halt))
            },
            None => None,
        }
    }

    /// The buffer of edge `edge_ix` of flow `flow_id`, if there is one.
    pub fn buffer(&self, flow_id: FlowId, edge_ix: EdgeIx) -> (r: Option<&Buffer>)
        requires
            self.wf(),
        ensures
            r == (if self.procs().board().contains_key((flow_id, edge_ix)) {
                Some(&self.procs().board()[(flow_id, edge_ix)])
            } else {
                None::<&Buffer>
            }),
    {
        self.processors.buffer(flow_id, edge_ix)
    }

    /// Puts `*buffer` in the place of the buffer of edge `edge_ix` of flow
    /// `flow_id` and hands that one out in `*buffer`, if there is one. This
    /// is how the float unit takes a buffer to work on and brings it back.
    pub fn swap_buffer(&mut self, flow_id: FlowId, edge_ix: EdgeIx, buffer: &mut Buffer) -> (r: bool)
        requires
            old(self).wf(),
        ensures
            final(self).wf(),
            final(self).flows() == old(self).flows(),
            final(self).procs().alike(&old(self).procs()),
            r == old(self).procs().board().contains_key((flow_id, edge_ix)),
            r ==> *final(buffer) == old(self).procs().board()[(flow_id, edge_ix)] && final(self).procs().board() == old(self).procs().board().insert((flow_id, edge_ix), *old(buffer)),
            !r ==> *final(buffer) == *old(buffer) && final(self).procs().board() == old(self).procs().board(),
    {
        let r = self.processors.swap(flow_id, edge_ix, buffer);
        proof {
            assert(self.procs().board().dom() =~= old(self).procs().board().dom());
            self.procs().lemma_same_edges(&old(self).procs());
            assert forall|id: u64| #[trigger] self.flows()@.contains_key(id) implies self.procs().processors()[id].buffers().dom()
                == self.flows()@[id].links().dom() by {
                assert(self.procs().processors().contains_key(id));
            }
        }
        r
    }

    /// The phase that the oscillator of descriptor `prim` has run up to, if
    /// such an oscillator is in use.
    pub fn phase(&self, prim: PrimElement) -> (r: Option<F32>)
        requires
            self.wf(),
        ensures
            r == (match self.procs().state(prim) {
                Some(PrimProcessor::SineOscF32(osc)) => Some(osc.phase()),
                _ => None::<F32>,
            }),
    {
        self.processors.phase(prim)
    }

    /// The sample rate of the oscillator of descriptor `prim`, if such an
    /// oscillator is in use.
    pub fn sample_rate(&self, prim: PrimElement) -> (r: Option<u64>)
        requires
            self.wf(),
        ensures
            r == (match self.procs().state(prim) {
                Some(PrimProcessor::SineOscF32(osc)) => Some(osc.rate()),
                _ => None::<u64>,
            }),
    {
        self.processors.sample_rate(prim)
    }

    /// Takes the phase that the float unit has run the oscillator of
    /// descriptor `prim` up to, and says whether there is such an
    /// oscillator.
    pub fn set_phase(&mut self, prim: PrimElement, phase: F32) -> (r: bool)
        requires
            old(self).wf(),
        ensures
            final(self).wf(),
            final(self).flows() == old(self).flows(),
            final(self).procs().processors() == old(self).procs().processors(),
            forall|q: PrimElement| final(self).procs().uses(q) == old(self).procs().uses(q),
            forall|q: PrimElement|
                !q.same(prim) ==> final(self).procs().state(q) == old(self).procs().state(q),
            r == (old(self).procs().state(prim) matches Some(PrimProcessor::SineOscF32(_))),
            !r ==> final(self).procs().state(prim) == old(self).procs().state(prim),
            r ==> (match (final(self).procs().state(prim), old(self).procs().state(prim)) {
                (Some(PrimProcessor::SineOscF32(osc)), Some(PrimProcessor::SineOscF32(was))) => osc.phase()
                    == phase && osc.rate() == was.rate(),
                _ => false,
            }),
    {
        self.processors.set_phase(prim, phase)
    }
}

} // verus!
