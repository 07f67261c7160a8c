//! The arena of flows: every flow of a store under its identifier, so that a
//! flow can hold another by naming it.

use vstd::prelude::*;
use crate::arena::{index_limit, Arena};
use crate::element::Element;
use crate::flow::{Flow, Node};
use crate::graph::NodeIx;
use crate::prim_element::PrimElement;

verus! {

/// The identifier of a flow in its store.
#[derive(Clone, Copy, PartialEq, Eq, PartialOrd, Ord, Structural, Debug)]
pub struct FlowId(pub u64);

/// The flows of a store.
pub struct FlowStore {
    flows: Arena<Flow>,
    next_id: u64,
}

impl View for FlowStore {
    type V = Map<u64, Flow>;

    closed spec fn view(&self) -> Map<u64, Flow> {
        self.flows@
    }
}

/// The `d`-th identifier after `start`, counting round from the largest to
/// 0.
pub open spec fn nth_id(start: u64, d: nat) -> u64 {
    ((start + d) % 0x1_0000_0000_0000_0000) as u64
}

/// The identifiers `start`, and the `d - 1` after it.
pub open spec fn span(start: u64, d: nat) -> Set<u64> {
    Set::new(|k: u64| exists|j: nat| j < d && k == #[trigger] nth_id(start, j))
}

/// A run of `d` identifiers has `d` members, as long as it does not come
/// round to its start.
pub proof fn lemma_span(start: u64, d: nat)
    requires
        d <= 0x1_0000_0000_0000_0000,
    ensures
        span(start, d).finite(),
        span(start, d).len() == d,
    decreases d,
{
    if d == 0 {
        assert(span(start, d) =~= Set::<u64>::empty());
    } else {
        let e = (d - 1) as nat;
        lemma_span(start, e);
        let k = nth_id(start, e);
        assert(!span(start, e).contains(k)) by {
            if span(start, e).contains(k) {
                let j = choose|j: nat| j < e && k == #[trigger] nth_id(start, j);
                assert((start + j) % 0x1_0000_0000_0000_0000 == (start + e) % 0x1_0000_0000_0000_0000);
                assert(false);
            }
        }
        assert(span(start, d) =~= span(start, e).insert(k)) by {
            assert forall|x: u64| span(start, d).contains(x) <==> span(start, e).insert(k).contains(x) by {
                if span(start, d).contains(x) {
                    let j = choose|j: nat| j < d && x == #[trigger] nth_id(start, j);
                    if j < e {
                        assert(span(start, e).contains(x));
                    }
                }
                if span(start, e).contains(x) {
                    let j = choose|j: nat| j < e && x == #[trigger] nth_id(start, j);
                    assert(j < d);
                }
                if x == k {
                    assert(e < d && x == nth_id(start, e));
                }
            }
        }
    }
}

impl FlowStore {
    /// The arena is in order.
    pub closed spec fn arena_wf(&self) -> bool {
        self.flows.wf()
    }

    /// The identifier at which the search for a free one begins.
    pub closed spec fn cursor(&self) -> u64 {
        self.next_id
    }

    /// Every flow of the store is a flow in order.
    pub open spec fn wf(&self) -> bool {
        &&& self.arena_wf()
        &&& forall|id: u64| #[trigger] self@.contains_key(id) ==> self@[id].wf()
    }

    /// Whether one more flow can be added.
    pub open spec fn room(&self) -> bool {
        self@.dom().finite() && self@.len() < index_limit()
    }

    /// A store in order is finite and within the limit of its index.
    pub proof fn lemma_bounded(&self)
        requires
            self.arena_wf(),
        ensures
            self@.dom().finite(),
            self@.len() <= index_limit(),
    {
        self.flows.lemma_bounded();
    }

    pub fn new() -> (r: FlowStore)
        ensures
            r.wf(),
            r@ == Map::<u64, Flow>::empty(),
    {
        Self { flows: Arena::new(), next_id: 0 }
    }

    pub fn get(&self, id: FlowId) -> (r: Option<&Flow>)
        requires
            self.arena_wf(),
        ensures
            r == (if self@.contains_key(id.0) {
                Some(&self@[id.0])
            } else {
                None::<&Flow>
            }),
    {
        self.flows.get(id.0)
    }

    /// The number of flows.
    pub fn len(&self) -> (r: usize)
        requires
            self.arena_wf(),
        ensures
            self@.dom().finite(),
            r == self@.len(),
    {
        self.flows.len()
    }

    pub fn contains(&self, id: FlowId) -> (r: bool)
        ensures
            r == self@.contains_key(id.0),
    {
        self.flows.contains_key(id.0)
    }

    pub fn get_mut(&mut self, id: FlowId) -> (r: Option<&mut Flow>)
        requires
            old(self).arena_wf(),
        ensures
            final(self).arena_wf(),
            final(self).cursor() == old(self).cursor(),
            match r {
                Some(flow) => old(self)@.contains_key(id.0) && *flow == old(self)@[id.0] && final(self)@
                    == old(self)@.insert(id.0, *final(flow)),
                None => !old(self)@.contains_key(id.0) && final(self)@ == old(self)@,
            },
    {
        self.flows.get_mut(id.0)
    }

    /// Puts `flow` into the store under the next free identifier.
    pub fn add(&mut self, flow: Flow) -> (r: FlowId)
        requires
            old(self).wf(),
            old(self).room(),
            flow.wf(),
        ensures
            final(self).wf(),
            is_next_id(old(self)@, old(self).cursor(), r.0),
            !old(self)@.contains_key(r.0),
            final(self)@ == old(self)@.insert(r.0, flow),
            final(self).cursor() == r.0.wrapping_add(1),
    {
        let next_id = self.gen_next_id();
        self.flows.insert(next_id, flow);
        FlowId(next_id)
    }

    /// Takes the flow `id` out of the store.
    pub fn remove(&mut self, id: FlowId) -> (r: Option<Flow>)
        requires
            old(self).wf(),
        ensures
            final(self).wf(),
            final(self).cursor() == old(self).cursor(),
            r == (if old(self)@.contains_key(id.0) {
                Some(old(self)@[id.0])
            } else {
                None::<Flow>
            }),
            final(self)@ == old(self)@.remove(id.0),
    {
        let r = self.flows.remove(id.0);
        proof {
            assert forall|k: u64| #[trigger] self@.contains_key(k) implies self@[k].wf() by {
                assert(old(self)@.contains_key(k));
            }
        }
        r
    }

    /// Puts back a flow that was taken out with [`FlowStore::remove`].
    pub fn restore(&mut self, id: FlowId, flow: Flow)
        requires
            old(self).wf(),
            old(self).room(),
            !old(self)@.contains_key(id.0),
            flow.wf(),
        ensures
            final(self).wf(),
            final(self).cursor() == old(self).cursor(),
            final(self)@ == old(self)@.insert(id.0, flow),
    {
        self.flows.insert(id.0, flow);
    }

    /// The first identifier not in use, searched from the cursor upward and,
    /// past the largest identifier, on from 0. The cursor moves behind it.
    fn gen_next_id(&mut self) -> (r: u64)
        requires
            old(self).arena_wf(),
            old(self).room(),
        ensures
            is_next_id(old(self)@, old(self).cursor(), r),
            !old(self)@.contains_key(r),
            final(self)@ == old(self)@,
            final(self).flows == old(self).flows,
            final(self).cursor() == r.wrapping_add(1),
    {
        let ghost start = self.next_id;
        let ghost d: nat = 0;
        let n = self.flows.len();
        proof {
            lemma_span(start, 0);
        }
        while self.flows.contains_key(self.next_id)
            invariant
                self.flows == old(self).flows,
                self.flows@.dom().finite(),
                n == self.flows@.len(),
                d <= n,
                self.next_id == nth_id(start, d),
                forall|j: nat| j < d ==> self.flows@.contains_key(#[trigger] nth_id(start, j)),
            decreases n - d,
        {
            proof {
                lemma_span(start, d + 1);
                assert(span(start, d + 1).subset_of(self.flows@.dom())) by {
                    assert forall|k: u64| span(start, d + 1).contains(k) implies self.flows@.dom().contains(
                        k,
                    ) by {
                        let j = choose|j: nat| j < d + 1 && k == #[trigger] nth_id(start, j);
                        if j == d {
                        }
                    }
                }
                vstd::set_lib::lemma_len_subset(span(start, d + 1), self.flows@.dom());
                d = d + 1;
            }
            self.next_id = self.next_id.wrapping_add(1);
        }
        let id = self.next_id;
        self.next_id = self.next_id.wrapping_add(1);
        assert(id == nth_id(start, d));
        id
    }
}

/// Whether `r` is the identifier that a new flow gets: the first one not in
/// use that a scan finds which goes up from `cursor` and, past the largest
/// identifier, on from 0.
pub open spec fn is_next_id(flows: Map<u64, Flow>, cursor: u64, r: u64) -> bool {
    exists|d: nat|
        {
            &&& d < 0x1_0000_0000_0000_0000
            &&& r == #[trigger] nth_id(cursor, d)
            &&& !flows.contains_key(r)
            &&& forall|j: nat| j < d ==> flows.contains_key(#[trigger] nth_id(cursor, j))
        }
}

/// The descriptors of the primitives of `flow`, one for each element node
/// in the evaluation order of the flow, the nodes of a nested flow in place
/// of the node that nests it. `None` where a nested flow is not among
/// `flows` or flows are nested deeper than `fuel`.
pub open spec fn prims_in(flows: Map<u64, Flow>, fuel: nat, flow: Flow) -> Option<Seq<PrimElement>>
    decreases fuel, 2nat, 0nat,
{
    prims_among(flows, fuel, flow, flow.order())
}

/// [`prims_in`] for the nodes `order` of `flow`, one after the other.
pub open spec fn prims_among(flows: Map<u64, Flow>, fuel: nat, flow: Flow, order: Seq<NodeIx>) -> Option<
    Seq<PrimElement>,
>
    decreases fuel, 1nat, order.len(),
{
    if order.len() == 0 {
        Some(Seq::empty())
    } else {
        match (prims_among(flows, fuel, flow, order.drop_last()), prims_at(flows, fuel, flow, order.last())) {
            (Some(a), Some(b)) => Some(a + b),
            _ => None,
        }
    }
}

/// [`prims_in`] for the node `n` of `flow`.
pub open spec fn prims_at(flows: Map<u64, Flow>, fuel: nat, flow: Flow, n: NodeIx) -> Option<
    Seq<PrimElement>,
>
    decreases fuel, 0nat, 0nat,
{
    if !flow.nodes().contains_key(n) {
        None
    } else {
        match flow.nodes()[n] {
            Node::Element(Element::Prim(p)) => Some(seq![p]),
            Node::Element(Element::Flow(f)) => if fuel == 0 || !flows.contains_key(f.0) {
                None
            } else {
                prims_in(flows, (fuel - 1) as nat, flows[f.0])
            },
            _ => Some(Seq::empty()),
        }
    }
}

/// Where some nodes have no list of primitives, the nodes after them do not
/// mend it.
proof fn lemma_prims_prefix(flows: Map<u64, Flow>, fuel: nat, flow: Flow, order: Seq<NodeIx>, k: int)
    requires
        0 <= k <= order.len(),
        prims_among(flows, fuel, flow, order.subrange(0, k)) is None,
    ensures
        prims_among(flows, fuel, flow, order) is None,
    decreases order.len() - k,
{
    if k < order.len() {
        assert(order.subrange(0, k + 1).drop_last() =~= order.subrange(0, k));
        lemma_prims_prefix(flows, fuel, flow, order, k + 1);
    } else {
        assert(order.subrange(0, k) =~= order);
    }
}

/// Appends to `found` what [`prims_in`] lists and returns `true`, or returns
/// `false` where it lists nothing.
fn push_prims(found: &mut Vec<PrimElement>, store: &FlowStore, fuel: usize, flow: &Flow) -> (r: bool)
    requires
        store.wf(),
    ensures
        r == prims_in(store@, fuel as nat, *flow) is Some,
        r ==> final(found)@ == old(found)@ + prims_in(store@, fuel as nat, *flow)->0,
    decreases fuel, 2nat,
{
    let ghost before = found@;
    let order = flow.visit_order();
    let mut k: usize = 0;
    proof {
        assert(order@.subrange(0, 0) =~= Seq::<NodeIx>::empty());
        assert(found@ =~= before + Seq::<PrimElement>::empty());
    }
    while k < order.len()
        invariant
            store.wf(),
            order@ == flow.order(),
            k <= order.len(),
            prims_among(store@, fuel as nat, *flow, order@.subrange(0, k as int)) is Some,
            found@ == before + prims_among(store@, fuel as nat, *flow, order@.subrange(0, k as int))->0,
        decreases order.len() - k,
    {
        let n = order[k];
        let ghost sofar = found@;
        let ghost at = prims_at(store@, fuel as nat, *flow, n);
        let mut done = false;
        match flow.get_node(n) {
            None => {},
            Some(Node::Element(Element::Prim(p))) => {
                found.push(*p);
                done = true;
                assert(found@ =~= sofar + seq![*p]);
            },
            Some(Node::Element(Element::Flow(f))) => {
                if fuel > 0 {
                    match store.get(*f) {
                        Some(nested) => {
                            done = push_prims(found, store, fuel - 1, nested);
                        },
                        None => {},
                    }
                }
            },
            Some(Node::Input { .. }) => {
                done = true;
                assert(found@ =~= sofar + Seq::<PrimElement>::empty());
            },
            Some(Node::Output { .. }) => {
                done = true;
                assert(found@ =~= sofar + Seq::<PrimElement>::empty());
            },
        }
        assert(done == at is Some);
        assert(done ==> found@ == sofar + at->0);
        proof {
            let prefix = order@.subrange(0, k as int);
            let next = order@.subrange(0, k + 1);
            assert(next.drop_last() =~= prefix);
            assert(next.last() == n);
            if !done {
                assert(prims_among(store@, fuel as nat, *flow, next) is None);
                lemma_prims_prefix(store@, fuel as nat, *flow, order@, k + 1);
            } else {
                assert(found@ =~= before + prims_among(store@, fuel as nat, *flow, next)->0);
            }
        }
        if !done {
            return false;
        }
        k += 1;
    }
    proof {
        assert(order@.subrange(0, k as int) =~= order@);
    }
    true
}

impl Flow {
    /// The descriptors of the primitives of this flow, those of the flows
    /// nested in it among them: see [`prims_in`]. Flows may be nested as
    /// deep as there are flows in `flow_store`.
    pub fn prim_elements(&self, flow_store: &FlowStore) -> (r: Option<Vec<PrimElement>>)
        requires
            flow_store.wf(),
        ensures
            match r {
                Some(found) => prims_in(flow_store@, flow_store@.len(), *self) == Some(found@),
                None => prims_in(flow_store@, flow_store@.len(), *self) is None,
            },
    {
        let mut found: Vec<PrimElement> = Vec::new();
        let fuel = flow_store.len();
        if push_prims(&mut found, flow_store, fuel, self) {
            assert(found@ =~= prims_in(flow_store@, flow_store@.len(), *self)->0);
            Some(found)
        } else {
            None
        }
    }
}

} // verus!
