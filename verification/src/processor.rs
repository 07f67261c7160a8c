//! The buffers of the flows of a store, one per edge, and the states of the
//! primitives in use.

use vstd::prelude::*;
use crate::arena::{index_limit, Arena};
use crate::buffer::{Buffer, Contents};
use crate::flow_store::FlowId;
use crate::graph::EdgeIx;
use crate::prim_element::{can_make, mk_prim_element_processor, PrimElement, PrimProcessor};
use crate::buffer::contents;
use crate::prim_element::Outcome;
use crate::slot_map::SlotMap;
use crate::value::{Type, F32};

verus! {

/// The buffers of an arena, each under the edge whose index is its key.
pub open spec fn by_edge(m: Map<u64, Buffer>) -> Map<EdgeIx, Buffer> {
    Map::new(|e: EdgeIx| m.contains_key(e.0 as u64), |e: EdgeIx| m[e.0 as u64])
}

proof fn lemma_by_edge(m: Map<u64, Buffer>, e: EdgeIx)
    ensures
        by_edge(m.remove(e.0 as u64)) == by_edge(m).remove(e),
        forall|b: Buffer| #[trigger] by_edge(m.insert(e.0 as u64, b)) == by_edge(m).insert(e, b),
{
    assert(by_edge(m.remove(e.0 as u64)) =~= by_edge(m).remove(e));
    assert forall|b: Buffer| #[trigger] by_edge(m.insert(e.0 as u64, b)) == by_edge(m).insert(e, b) by {
        assert(by_edge(m.insert(e.0 as u64, b)) =~= by_edge(m).insert(e, b));
    }
}

/// The buffers of one flow: one for each of its edges.
pub struct Processor {
    buffers: Arena<Buffer>,
}

impl Processor {
    /// The arena is in order.
    pub closed spec fn wf(&self) -> bool {
        self.buffers.wf()
    }

    /// The buffers, each under the edge that it belongs to.
    pub closed spec fn buffers(&self) -> Map<EdgeIx, Buffer> {
        by_edge(self.buffers@)
    }

    /// How many buffers there are. This counts what [`Processor::buffers`]
    /// holds.
    pub closed spec fn count(&self) -> nat {
        self.buffers@.len()
    }

    /// Whether one more buffer can be added.
    pub open spec fn room(&self) -> bool {
        self.count() < index_limit()
    }

    /// Says whether each of `buffers` whose slot `types` declares is of the
    /// type declared.
    pub fn check_buffer_types(buffers: &SlotMap<Buffer>, types: &SlotMap<Type>) -> (r: bool)
        requires
            buffers.wf(),
            types.wf(),
        ensures
            r == forall|k: u32|
                buffers@.contains_key(k) && types@.contains_key(k) ==> (#[trigger] buffers@[k])@.has_type(
                    types@[k],
                ),
    {
        let mut i: usize = 0;
        proof {
            buffers.lemma_entries();
        }
        while i < buffers.len()
            invariant
                buffers.wf(),
                types.wf(),
                i <= buffers.entries().len(),
                forall|j: int|
                    0 <= j < i && types@.contains_key(buffers.entries()[j].0) ==> (
                    #[trigger] buffers.entries()[j]).1@.has_type(types@[buffers.entries()[j].0]),
            decreases buffers.entries().len() - i,
        {
            let k = buffers.key_at(i);
            match types.get(k) {
                Some(ty) => {
                    if !buffers.value_at(i).test_type(*ty) {
                        return false;
                    }
                },
                None => {},
            }
            i += 1;
        }
        proof {
            assert forall|k: u32| buffers@.contains_key(k) && types@.contains_key(k) implies (
            #[trigger] buffers@[k])@.has_type(types@[k]) by {
                let j = choose|j: int| 0 <= j < buffers.entries().len() && buffers.entries()[j].0 == k;
                assert(buffers.entries()[j].1@.has_type(types@[k]));
            }
        }
        true
    }

    /// Says whether each sampled buffer of `buffers` has `sz` samples.
    pub fn check_buffer_sz(buffers: &SlotMap<Buffer>, sz: usize) -> (r: bool)
        requires
            buffers.wf(),
        ensures
            r == forall|k: u32|
                buffers@.contains_key(k) ==> ((#[trigger] buffers@[k])@ matches Contents::Sampled(s)
                    ==> s.len() == sz),
    {
        let mut i: usize = 0;
        proof {
            buffers.lemma_entries();
        }
        while i < buffers.len()
            invariant
                buffers.wf(),
                i <= buffers.entries().len(),
                forall|j: int|
                    0 <= j < i ==> ((#[trigger] buffers.entries()[j]).1@ matches Contents::Sampled(s)
                        ==> s.len() == sz),
            decreases buffers.entries().len() - i,
        {
            let k = buffers.key_at(i);
            match buffers.value_at(i) {
                Buffer::Sampled(x) => {
                    if x.len() != sz {
                        return false;
                    }
                },
                Buffer::Event(_) => {},
            }
            i += 1;
        }
        proof {
            assert forall|k: u32| buffers@.contains_key(k) implies ((
            #[trigger] buffers@[k])@ matches Contents::Sampled(s) ==> s.len() == sz) by {
                let j = choose|j: int| 0 <= j < buffers.entries().len() && buffers.entries()[j].0 == k;
                assert(buffers.entries()[j].1@ matches Contents::Sampled(s) ==> s.len() == sz);
            }
        }
        true
    }

    pub fn new() -> (r: Self)
        ensures
            r.wf(),
            r.buffers() == Map::<EdgeIx, Buffer>::empty(),
            r.count() == 0,
    {
        let r = Self { buffers: Arena::new() };
        assert(r.buffers() =~= Map::<EdgeIx, Buffer>::empty());
        r
    }

    /// The buffer of `edge_ix`, if there is one.
    pub fn buffer(&self, edge_ix: EdgeIx) -> (r: Option<&Buffer>)
        requires
            self.wf(),
        ensures
            r == (if self.buffers().contains_key(edge_ix) {
                Some(&self.buffers()[edge_ix])
            } else {
                None::<&Buffer>
            }),
    {
        self.buffers.get(edge_ix.0 as u64)
    }

    /// The buffer of `edge_ix`, to be changed, if there is one.
    pub fn buffer_mut(&mut self, edge_ix: EdgeIx) -> (r: Option<&mut Buffer>)
        requires
            old(self).wf(),
        ensures
            final(self).wf(),
            final(self).count() == old(self).count(),
            final(self).buffers().dom() == old(self).buffers().dom(),
            match r {
                Some(b) => old(self).buffers().contains_key(edge_ix) && *b == old(self).buffers()[edge_ix]
                    && final(self).buffers() == old(self).buffers().insert(edge_ix, *final(b)),
                None => !old(self).buffers().contains_key(edge_ix) && final(self).buffers() == old(
                    self,
                ).buffers(),
            },
    {
        proof {
            lemma_by_edge(self.buffers@, edge_ix);
            self.buffers.lemma_bounded();
        }
        self.buffers.get_mut(edge_ix.0 as u64)
    }

    /// Makes the buffer of a new edge of type `ty`.
    pub fn add_edge(&mut self, edge_ix: EdgeIx, ty: Type)
        requires
            old(self).wf(),
            old(self).room(),
            !old(self).buffers().contains_key(edge_ix),
        ensures
            final(self).wf(),
            final(self).buffers().contains_key(edge_ix),
            final(self).buffers()[edge_ix]@ == Contents::fresh(ty),
            final(self).buffers().remove(edge_ix) == old(self).buffers(),
            final(self).count() == old(self).count() + 1,
    {
        self.put(edge_ix, Buffer::new(ty));
        assert(self.buffers().remove(edge_ix) =~= old(self).buffers());
    }

    /// Drops the buffer of `edge_ix` and says whether there was one.
    pub fn remove_edge(&mut self, edge_ix: EdgeIx) -> (r: bool)
        requires
            old(self).wf(),
        ensures
            final(self).wf(),
            r == old(self).buffers().contains_key(edge_ix),
            final(self).buffers() == old(self).buffers().remove(edge_ix),
            final(self).count() == old(self).count() - (if r { 1int } else { 0int }),
    {
        self.take(edge_ix).is_some()
    }

    /// Takes the buffer of `edge_ix` out, if there is one.
    pub fn take(&mut self, edge_ix: EdgeIx) -> (r: Option<Buffer>)
        requires
            old(self).wf(),
        ensures
            final(self).wf(),
            r == (if old(self).buffers().contains_key(edge_ix) {
                Some(old(self).buffers()[edge_ix])
            } else {
                None::<Buffer>
            }),
            final(self).buffers() == old(self).buffers().remove(edge_ix),
            final(self).count() == old(self).count() - (if r is Some { 1int } else { 0int }),
    {
        proof {
            self.buffers.lemma_bounded();
            lemma_by_edge(self.buffers@, edge_ix);
        }
        let r = self.buffers.remove(edge_ix.0 as u64);
        proof {
            self.buffers.lemma_bounded();
        }
        r
    }

    /// Puts a buffer under `edge_ix`, which has none.
    pub fn put(&mut self, edge_ix: EdgeIx, buffer: Buffer)
        requires
            old(self).wf(),
            old(self).room(),
            !old(self).buffers().contains_key(edge_ix),
        ensures
            final(self).wf(),
            final(self).buffers() == old(self).buffers().insert(edge_ix, buffer),
            final(self).count() == old(self).count() + 1,
    {
        proof {
            self.buffers.lemma_bounded();
            lemma_by_edge(self.buffers@, edge_ix);
        }
        self.buffers.insert(edge_ix.0 as u64, buffer);
        proof {
            self.buffers.lemma_bounded();
        }
    }
}

/// Every buffer of some processors, under its flow and edge.
pub open spec fn board_of(processors: Map<u64, Processor>) -> Map<(FlowId, EdgeIx), Buffer> {
    Map::new(
        |k: (FlowId, EdgeIx)|
            processors.contains_key(k.0.0) && processors[k.0.0].buffers().contains_key(k.1),
        |k: (FlowId, EdgeIx)| processors[k.0.0].buffers()[k.1],
    )
}

/// A processor that gets a new buffer for an edge that it has a buffer for
/// changes the board at that edge alone.
proof fn lemma_board_insert(processors: Map<u64, Processor>, flow_id: FlowId, edge_ix: EdgeIx)
    ensures
        forall|p: Processor, b: Buffer|
            #![trigger board_of(processors.insert(flow_id.0, p)), processors[flow_id.0].buffers().insert(edge_ix, b)]
            processors.contains_key(flow_id.0) && processors[flow_id.0].buffers().contains_key(edge_ix)
                && p.buffers() == processors[flow_id.0].buffers().insert(edge_ix, b) ==> board_of(
                processors.insert(flow_id.0, p),
            ) == board_of(processors).insert((flow_id, edge_ix), b),
        forall|p: Processor|
            #![trigger board_of(processors.insert(flow_id.0, p))]
            processors.contains_key(flow_id.0) && p.buffers() == processors[flow_id.0].buffers()
                ==> board_of(processors.insert(flow_id.0, p)) == board_of(processors),
{
    assert forall|p: Processor, b: Buffer|
        #![trigger board_of(processors.insert(flow_id.0, p)), processors[flow_id.0].buffers().insert(edge_ix, b)]
        processors.contains_key(flow_id.0) && processors[flow_id.0].buffers().contains_key(edge_ix)
            && p.buffers() == processors[flow_id.0].buffers().insert(edge_ix, b) implies board_of(
        processors.insert(flow_id.0, p),
    ) == board_of(processors).insert((flow_id, edge_ix), b) by {
        let after = board_of(processors.insert(flow_id.0, p));
        let want = board_of(processors).insert((flow_id, edge_ix), b);
        assert forall|k: (FlowId, EdgeIx)| after.contains_key(k) == want.contains_key(k) by {
            if k.0.0 == flow_id.0 {
                assert(k.0 == flow_id);
            }
        }
        assert forall|k: (FlowId, EdgeIx)| after.contains_key(k) implies after[k] == want[k] by {
            if k.0.0 == flow_id.0 {
                assert(k.0 == flow_id);
            }
        }
        assert(after =~= want);
    }
    assert forall|p: Processor|
        #![trigger board_of(processors.insert(flow_id.0, p))]
        processors.contains_key(flow_id.0) && p.buffers()
            == processors[flow_id.0].buffers() implies board_of(processors.insert(flow_id.0, p))
        == board_of(processors) by {
        assert(board_of(processors.insert(flow_id.0, p)) =~= board_of(processors));
    }
}

/// A processor that is put in the place of one with buffers for the same
/// edges leaves the edges of the board as they are.
proof fn lemma_board_dom(processors: Map<u64, Processor>, flow_id: FlowId)
    ensures
        forall|p: Processor|
            #![trigger processors.insert(flow_id.0, p)]
            processors.contains_key(flow_id.0) && p.buffers().dom() == processors[flow_id.0].buffers().dom()
                ==> board_of(processors.insert(flow_id.0, p)).dom() == board_of(processors).dom(),
{
    assert forall|p: Processor|
        #![trigger processors.insert(flow_id.0, p)]
        processors.contains_key(flow_id.0) && p.buffers().dom()
            == processors[flow_id.0].buffers().dom() implies board_of(
        processors.insert(flow_id.0, p),
    ).dom() == board_of(processors).dom() by {
        let after = board_of(processors.insert(flow_id.0, p));
        let before = board_of(processors);
        assert forall|k: (FlowId, EdgeIx)| after.contains_key(k) == before.contains_key(k) by {
            if k.0.0 == flow_id.0 {
                assert(p.buffers().dom().contains(k.1) == processors[flow_id.0].buffers().dom().contains(k.1));
            }
        }
        assert(after.dom() =~= before.dom());
    }
}

/// A primitive in use: its descriptor, its state, and how many nodes use it
/// beyond the first.
pub struct PrimEntry {
    prim: PrimElement,
    processor: PrimProcessor,
    extra: u32,
}

/// Whether entry `i` of `entries` is the one of descriptor `prim`.
spec fn holds(entries: Seq<PrimEntry>, prim: PrimElement, i: int) -> bool {
    0 <= i < entries.len() && entries[i].prim.same(prim)
}

/// Whether no two entries have equal descriptors, and each state is one of
/// its descriptor.
spec fn registry_wf(entries: Seq<PrimEntry>) -> bool {
    &&& forall|i: int, j: int|
        0 <= i < j < entries.len() ==> !(#[trigger] entries[i]).prim.same((#[trigger] entries[j]).prim)
    &&& forall|i: int| 0 <= i < entries.len() ==> (#[trigger] entries[i]).processor.serves(entries[i].prim)
}

/// The entry of a descriptor is the only one that holds it.
proof fn lemma_one_entry(entries: Seq<PrimEntry>, prim: PrimElement, i: int, j: int)
    requires
        registry_wf(entries),
        holds(entries, prim, i),
        holds(entries, prim, j),
    ensures
        i == j,
{
    crate::prim_element::lemma_same_descriptor(entries[i].prim, prim, entries[j].prim);
    crate::prim_element::lemma_same_descriptor(entries[j].prim, prim, entries[i].prim);
    crate::prim_element::lemma_same_descriptor(prim, entries[j].prim, entries[i].prim);
    crate::prim_element::lemma_same_descriptor(prim, entries[i].prim, entries[j].prim);
    if i < j {
        assert(!entries[i].prim.same(entries[j].prim));
    } else if j < i {
        assert(!entries[j].prim.same(entries[i].prim));
    }
}

/// A state of one descriptor is a state of every equal one.
proof fn lemma_serves(p: PrimProcessor, a: PrimElement, b: PrimElement)
    requires
        p.serves(a),
        a.same(b),
    ensures
        p.serves(b),
{
    match (p, a, b) {
        (
            PrimProcessor::Constant(c),
            PrimElement::Constant { value: v, .. },
            PrimElement::Constant { value: w, .. },
        ) => {
            crate::value::lemma_same_value(c.value(), v, w);
        },
        _ => {},
    }
}

/// The buffers of every flow of a store, and the states of the primitives
/// that its nodes use.
pub struct ProcessorStore {
    processors: Arena<Processor>,
    prim_element_processors: Vec<PrimEntry>,
}

impl ProcessorStore {
    /// The buffers of each flow, under the flow's identifier.
    pub closed spec fn processors(&self) -> Map<u64, Processor> {
        self.processors@
    }

    /// The arena and the registry are in order.
    pub closed spec fn sound(&self) -> bool {
        self.processors.wf() && registry_wf(self.prim_element_processors@)
    }

    /// The store is in order, and so is every processor in it.
    pub open spec fn wf(&self) -> bool {
        &&& self.sound()
        &&& forall|id: u64| #[trigger] self.processors().contains_key(id) ==> self.processors()[id].wf()
    }

    /// Whether one more processor can be added.
    pub open spec fn room(&self) -> bool {
        self.processors().dom().finite() && self.processors().len() < index_limit()
    }

    /// Whether this store has processors for the same flows as `other`,
    /// each with buffers for the same edges and as many of them, and has the
    /// primitives in the same states, used by as many nodes.
    pub open spec fn alike(&self, other: &ProcessorStore) -> bool {
        &&& self.processors().dom() == other.processors().dom()
        &&& self.board().dom() == other.board().dom()
        &&& forall|id: u64| #[trigger]
            self.processors().contains_key(id) ==> self.processors()[id].count()
                == other.processors()[id].count()
        &&& forall|prim: PrimElement|
            self.state(prim) == other.state(prim) && self.uses(prim) == other.uses(prim)
    }

    /// Every buffer of the store, under its flow and edge.
    pub open spec fn board(&self) -> Map<(FlowId, EdgeIx), Buffer> {
        board_of(self.processors())
    }

    /// How many nodes use the primitive of descriptor `prim`.
    pub closed spec fn uses(&self, prim: PrimElement) -> nat {
        let entries = self.prim_element_processors@;
        if exists|i: int| holds(entries, prim, i) {
            (entries[choose|i: int| holds(entries, prim, i)].extra + 1) as nat
        } else {
            0
        }
    }

    /// The state of the primitive of descriptor `prim`, if it is in use.
    pub closed spec fn state(&self, prim: PrimElement) -> Option<PrimProcessor> {
        let entries = self.prim_element_processors@;
        if exists|i: int| holds(entries, prim, i) {
            Some(entries[choose|i: int| holds(entries, prim, i)].processor)
        } else {
            None
        }
    }

    /// Where two stores have processors for the same flows and buffers for
    /// the same edges, each of their processors has buffers for the same
    /// edges.
    pub proof fn lemma_same_edges(&self, other: &ProcessorStore)
        requires
            self.processors().dom() == other.processors().dom(),
            self.board().dom() == other.board().dom(),
        ensures
            forall|id: u64| #[trigger]
                self.processors().contains_key(id) ==> self.processors()[id].buffers().dom()
                    == other.processors()[id].buffers().dom(),
    {
        assert forall|id: u64| #[trigger] self.processors().contains_key(id) implies self.processors()[id].buffers().dom()
            == other.processors()[id].buffers().dom() by {
            assert(other.processors().contains_key(id));
            assert forall|e: EdgeIx|
                self.processors()[id].buffers().contains_key(e)
                    == other.processors()[id].buffers().contains_key(e) by {
                let k = (FlowId(id), e);
                assert(self.board().dom().contains(k) == other.board().dom().contains(k));
                assert(self.board().contains_key(k) == self.processors()[id].buffers().contains_key(e));
                assert(other.board().contains_key(k) == other.processors()[id].buffers().contains_key(e));
            }
            assert(self.processors()[id].buffers().dom() =~= other.processors()[id].buffers().dom());
        }
    }

    /// Equal descriptors have one state and one count, and a state in use
    /// is one of its descriptor.
    pub proof fn lemma_shared(&self, a: PrimElement, b: PrimElement)
        requires
            self.sound(),
            a.same(b),
        ensures
            self.uses(a) == self.uses(b),
            self.state(a) == self.state(b),
            self.uses(a) > 0 <==> self.state(a) is Some,
            self.state(a) matches Some(p) ==> p.serves(a),
    {
        let entries = self.prim_element_processors@;
        assert forall|i: int| holds(entries, a, i) <==> holds(entries, b, i) by {
            if 0 <= i < entries.len() {
                crate::prim_element::lemma_same_descriptor(entries[i].prim, a, b);
                crate::prim_element::lemma_same_descriptor(a, b, a);
                crate::prim_element::lemma_same_descriptor(entries[i].prim, b, a);
            }
        }
        if exists|i: int| holds(entries, a, i) {
            let i = choose|i: int| holds(entries, a, i);
            let j = choose|j: int| holds(entries, b, j);
            assert(holds(entries, b, i));
            lemma_one_entry(entries, b, i, j);
            // the state serves the entry's descriptor, which equals `a`
            let e = entries[i];
            assert(e.processor.serves(e.prim));
            lemma_serves(e.processor, e.prim, a);
        }
    }

    pub fn new() -> (r: Self)
        ensures
            r.wf(),
            r.processors() == Map::<u64, Processor>::empty(),
            forall|prim: PrimElement| r.uses(prim) == 0,
    {
        Self { processors: Arena::new(), prim_element_processors: Vec::new() }
    }

    /// The processor of flow `flow_id`, which has one.
    pub fn processor(&self, flow_id: FlowId) -> (r: &Processor)
        requires
            self.wf(),
            self.processors().contains_key(flow_id.0),
        ensures
            *r == self.processors()[flow_id.0],
    {
        self.processors.get(flow_id.0).unwrap()
    }

    /// The processor of flow `flow_id`, if it has one.
    pub fn get(&self, flow_id: FlowId) -> (r: Option<&Processor>)
        requires
            self.wf(),
        ensures
            r == (if self.processors().contains_key(flow_id.0) {
                Some(&self.processors()[flow_id.0])
            } else {
                None::<&Processor>
            }),
    {
        self.processors.get(flow_id.0)
    }

    /// The processor of flow `flow_id`, to be changed, if it has one.
    pub fn processor_mut(&mut self, flow_id: FlowId) -> (r: Option<&mut Processor>)
        requires
            old(self).sound(),
        ensures
            final(self).sound(),
            final(self).processors().dom() == old(self).processors().dom(),
            forall|prim: PrimElement| final(self).uses(prim) == old(self).uses(prim),
            forall|prim: PrimElement| final(self).state(prim) == old(self).state(prim),
            match r {
                Some(p) => old(self).processors().contains_key(flow_id.0) && *p == old(
                    self,
                ).processors()[flow_id.0] && final(self).processors() == old(self).processors().insert(
                    flow_id.0,
                    *final(p),
                ),
                None => !old(self).processors().contains_key(flow_id.0) && final(self).processors()
                    == old(self).processors(),
            },
    {
        self.processors.get_mut(flow_id.0)
    }

    /// Makes the processor of a new flow.
    pub fn add(&mut self, flow_id: FlowId)
        requires
            old(self).wf(),
            old(self).room(),
            !old(self).processors().contains_key(flow_id.0),
        ensures
            final(self).wf(),
            final(self).processors().contains_key(flow_id.0),
            final(self).processors()[flow_id.0].buffers() == Map::<EdgeIx, Buffer>::empty(),
            final(self).processors()[flow_id.0].count() == 0,
            final(self).processors().remove(flow_id.0) == old(self).processors(),
            forall|prim: PrimElement| final(self).uses(prim) == old(self).uses(prim),
            forall|prim: PrimElement| final(self).state(prim) == old(self).state(prim),
    {
        self.processors.insert(flow_id.0, Processor::new());
        proof {
            assert(self.processors().remove(flow_id.0) =~= old(self).processors());
            assert forall|id: u64| #[trigger] self.processors().contains_key(id) implies self.processors()[id].wf() by {
                if id != flow_id.0 {
                    assert(old(self).processors().contains_key(id));
                }
            }
        }
    }

    /// Takes the processor of flow `flow_id` out, if it has one.
    pub fn remove(&mut self, flow_id: FlowId) -> (r: Option<Processor>)
        requires
            old(self).wf(),
        ensures
            final(self).wf(),
            r == (if old(self).processors().contains_key(flow_id.0) {
                Some(old(self).processors()[flow_id.0])
            } else {
                None::<Processor>
            }),
            final(self).processors() == old(self).processors().remove(flow_id.0),
            forall|prim: PrimElement| final(self).uses(prim) == old(self).uses(prim),
            forall|prim: PrimElement| final(self).state(prim) == old(self).state(prim),
    {
        let r = self.processors.remove(flow_id.0);
        proof {
            assert forall|id: u64| #[trigger] self.processors().contains_key(id) implies self.processors()[id].wf() by {
                assert(old(self).processors().contains_key(id));
            }
        }
        r
    }

    /// The buffer of edge `edge_ix` of flow `flow_id`, if there is one.
    pub fn buffer(&self, flow_id: FlowId, edge_ix: EdgeIx) -> (r: Option<&Buffer>)
        requires
            self.wf(),
        ensures
            r == (if self.board().contains_key((flow_id, edge_ix)) {
                Some(&self.board()[(flow_id, edge_ix)])
            } else {
                None::<&Buffer>
            }),
    {
        match self.processors.get(flow_id.0) {
            Some(p) => {
                assert(self.processors().contains_key(flow_id.0));
                p.buffer(edge_ix)
            },
            None => None,
        }
    }

    /// The buffer of edge `edge_ix` of flow `flow_id`, to be changed, if
    /// there is one.
    pub fn buffer_mut(&mut self, flow_id: FlowId, edge_ix: EdgeIx) -> (r: Option<&mut Buffer>)
        requires
            old(self).wf(),
        ensures
            final(self).wf(),
            final(self).alike(old(self)),
            match r {
                Some(b) => old(self).board().contains_key((flow_id, edge_ix)) && *b == old(
                    self,
                ).board()[(flow_id, edge_ix)] && final(self).board() == old(self).board().insert(
                    (flow_id, edge_ix),
                    *final(b),
                ),
                None => !old(self).board().contains_key((flow_id, edge_ix)) && final(self).board()
                    == old(self).board(),
            },
    {
        proof {
            lemma_board_insert(old(self).processors(), flow_id, edge_ix);
            lemma_board_dom(old(self).processors(), flow_id);
        }
        match self.processors.get_mut(flow_id.0) {
            Some(p) => p.buffer_mut(edge_ix),
            None => None,
        }
    }

    /// Puts `*buffer` in the place of the buffer of edge `edge_ix` of flow
    /// `flow_id` and hands that one out in `*buffer`, if there is one.
    pub fn swap(&mut self, flow_id: FlowId, edge_ix: EdgeIx, buffer: &mut Buffer) -> (r: bool)
        requires
            old(self).wf(),
        ensures
            final(self).wf(),
            final(self).alike(old(self)),
            r == old(self).board().contains_key((flow_id, edge_ix)),
            r ==> *final(buffer) == old(self).board()[(flow_id, edge_ix)] && final(self).board() == old(
                self,
            ).board().insert((flow_id, edge_ix), *old(buffer)),
            !r ==> *final(buffer) == *old(buffer) && final(self).board() == old(self).board(),
    {
        match self.buffer_mut(flow_id, edge_ix) {
            Some(b) => {
                core::mem::swap(b, buffer);
                true
            },
            None => false,
        }
    }

    /// The place of the entry of descriptor `prim`.
    fn find(&self, prim: PrimElement) -> (r: Option<usize>)
        ensures
            match r {
                Some(i) => holds(self.prim_element_processors@, prim, i as int),
                None => forall|i: int| !holds(self.prim_element_processors@, prim, i),
            },
    {
        let mut i: usize = 0;
        while i < self.prim_element_processors.len()
            invariant
                i <= self.prim_element_processors.len(),
                forall|j: int| 0 <= j < i ==> !holds(self.prim_element_processors@, prim, j),
            decreases self.prim_element_processors.len() - i,
        {
            if self.prim_element_processors[i].prim == prim {
                return Some(i);
            }
            i += 1;
        }
        None
    }

    /// Lets the primitive of descriptor `prim` compute one block as far as
    /// it goes without rounding arithmetic, if the primitive is in use.
    pub fn compute_outplace_prim(
        &mut self,
        prim_element_id: PrimElement,
        output: &mut SlotMap<Buffer>,
        input: &SlotMap<Buffer>,
        buffer_sz: usize,
    ) -> (r: Option<Outcome>)
        requires
            old(self).wf(),
            old(output).wf(),
            input.wf(),
        ensures
            final(self).wf(),
            final(self).processors() == old(self).processors(),
            final(self).alike(old(self)),
            final(output).wf(),
            final(output).keys() == old(output).keys(),
            match old(self).state(prim_element_id) {
                Some(state) => r == Some(state.outcome(contents(old(output)@), contents(input@)))
                    && contents(final(output)@) == state.output(
                    contents(old(output)@),
                    contents(input@),
                    buffer_sz as nat,
                ),
                None => r is None && *final(output) == *old(output),
            },
    {
        match self.find(prim_element_id) {
            Some(i) => {
                proof {
                    let entries = self.prim_element_processors@;
                    let c = choose|c: int| holds(entries, prim_element_id, c);
                    lemma_one_entry(entries, prim_element_id, i as int, c);
                }
                let r = self.prim_element_processors[i].processor.compute_outplace(output, input, buffer_sz);
                proof {
                    assert(self.prim_element_processors@ =~= old(self).prim_element_processors@);
                    assert(self.processors == old(self).processors);
                    assert(self.sound());
                    assert(self.processors() == old(self).processors());
                }
                Some(r)
            },
            None => None,
        }
    }

    /// The phase that the oscillator of descriptor `prim` has run up to, if
    /// such an oscillator is in use.
    pub fn phase(&self, prim: PrimElement) -> (r: Option<F32>)
        requires
            self.sound(),
        ensures
            r == (match self.state(prim) {
                Some(PrimProcessor::SineOscF32(osc)) => Some(osc.phase()),
                _ => None::<F32>,
            }),
    {
        match self.find(prim) {
            Some(i) => {
                proof {
                    let entries = self.prim_element_processors@;
                    let c = choose|c: int| holds(entries, prim, c);
                    lemma_one_entry(entries, prim, i as int, c);
                }
                match &self.prim_element_processors[i].processor {
                    PrimProcessor::SineOscF32(osc) => Some(osc.current_phase()),
                    _ => None,
                }
            },
            None => None,
        }
    }

    /// The sample rate of the oscillator of descriptor `prim`, if such an
    /// oscillator is in use.
    pub fn sample_rate(&self, prim: PrimElement) -> (r: Option<u64>)
        requires
            self.sound(),
        ensures
            r == (match self.state(prim) {
                Some(PrimProcessor::SineOscF32(osc)) => Some(osc.rate()),
                _ => None::<u64>,
            }),
    {
        match self.find(prim) {
            Some(i) => {
                proof {
                    let entries = self.prim_element_processors@;
                    let c = choose|c: int| holds(entries, prim, c);
                    lemma_one_entry(entries, prim, i as int, c);
                }
                match &self.prim_element_processors[i].processor {
                    PrimProcessor::SineOscF32(osc) => Some(osc.sample_rate()),
                    _ => None,
                }
            },
            None => None,
        }
    }

    /// Takes the phase that the float unit has run the oscillator of
    /// descriptor `prim` up to, and says whether there is such an
    /// oscillator.
    pub fn set_phase(&mut self, prim: PrimElement, phase: F32) -> (r: bool)
        requires
            old(self).sound(),
        ensures
            final(self).sound(),
            final(self).processors() == old(self).processors(),
            forall|q: PrimElement| final(self).uses(q) == old(self).uses(q),
            forall|q: PrimElement| !q.same(prim) ==> final(self).state(q) == old(self).state(q),
            r == (old(self).state(prim) matches Some(PrimProcessor::SineOscF32(_))),
            !r ==> final(self).state(prim) == old(self).state(prim),
            r ==> (match (final(self).state(prim), old(self).state(prim)) {
                (Some(PrimProcessor::SineOscF32(osc)), Some(PrimProcessor::SineOscF32(was))) => osc.phase()
                    == phase && osc.rate() == was.rate(),
                _ => false,
            }),
    {
        let ghost before = self.prim_element_processors@;
        match self.find(prim) {
            Some(i) => {
                proof {
                    let c = choose|c: int| holds(before, prim, c);
                    lemma_one_entry(before, prim, i as int, c);
                }
                let r = match &mut self.prim_element_processors[i].processor {
                    PrimProcessor::SineOscF32(osc) => {
                        osc.set_phase(phase);
                        true
                    },
                    _ => false,
                };
                proof {
                    let after = self.prim_element_processors@;
                    assert forall|q: PrimElement, j: int| holds(after, q, j) == holds(before, q, j) by {}
                    assert(registry_wf(after));
                    assert(holds(after, prim, i as int));
                    let c = choose|c: int| holds(after, prim, c);
                    lemma_one_entry(after, prim, i as int, c);
                    assert forall|q: PrimElement| self.uses(q) == old(self).uses(q) by {
                        if exists|j: int| holds(before, q, j) {
                            let j = choose|j: int| holds(before, q, j);
                            assert(holds(after, q, j));
                            let k = choose|k: int| holds(after, q, k);
                            lemma_one_entry(after, q, j, k);
                        } else {
                            assert forall|j: int| !holds(after, q, j) by {
                                assert(!holds(before, q, j));
                            }
                        }
                    }
                    assert forall|q: PrimElement| !q.same(prim) implies self.state(q) == old(self).state(
                        q,
                    ) by {
                        if exists|j: int| holds(before, q, j) {
                            let j = choose|j: int| holds(before, q, j);
                            assert(holds(after, q, j));
                            let k = choose|k: int| holds(after, q, k);
                            lemma_one_entry(after, q, j, k);
                            if j == i {
                                crate::prim_element::lemma_same_descriptor(q, before[j].prim, prim);
                                crate::prim_element::lemma_same_descriptor(before[j].prim, q, q);
                            }
                        } else {
                            assert forall|j: int| !holds(after, q, j) by {
                                assert(!holds(before, q, j));
                            }
                        }
                    }
                }
                r
            },
            None => false,
        }
    }

    /// How many nodes use the primitive of descriptor `prim`.
    pub fn use_count(&self, prim: PrimElement) -> (r: u64)
        requires
            self.sound(),
        ensures
            r == self.uses(prim),
    {
        match self.find(prim) {
            Some(i) => {
                proof {
                    let entries = self.prim_element_processors@;
                    let c = choose|c: int| holds(entries, prim, c);
                    lemma_one_entry(entries, prim, i as int, c);
                }
                self.prim_element_processors[i].extra as u64 + 1
            },
            None => 0,
        }
    }

    /// Whether some node uses the primitive of descriptor `prim`.
    pub fn in_use(&self, prim: PrimElement) -> (r: bool)
        ensures
            r == (self.uses(prim) > 0),
    {
        self.find(prim).is_some()
    }

    /// Counts one more node that uses the primitive of descriptor `prim`.
    /// The first use makes its state; later ones share it.
    pub fn use_prim_element_processor(&mut self, prim_element_id: PrimElement)
        requires
            old(self).sound(),
            can_make(prim_element_id),
            old(self).uses(prim_element_id) <= u32::MAX,
        ensures
            final(self).sound(),
            final(self).processors() == old(self).processors(),
            final(self).uses(prim_element_id) == old(self).uses(prim_element_id) + 1,
            old(self).uses(prim_element_id) > 0 ==> final(self).state(prim_element_id) == old(self).state(
                prim_element_id,
            ),
            final(self).state(prim_element_id) matches Some(p) && p.serves(prim_element_id),
            forall|q: PrimElement|
                !q.same(prim_element_id) ==> final(self).uses(q) == old(self).uses(q) && final(self).state(
                    q,
                ) == old(self).state(q),
    {
        let ghost before = self.prim_element_processors@;
        let prim = prim_element_id;
        match self.find(prim) {
            Some(i) => {
                proof {
                    let c = choose|c: int| holds(before, prim, c);
                    lemma_one_entry(before, prim, i as int, c);
                }
                let had = self.prim_element_processors[i].extra;
                self.prim_element_processors[i].extra = had + 1;
                proof {
                    let after = self.prim_element_processors@;
                    assert forall|q: PrimElement, j: int| holds(after, q, j) == holds(before, q, j) by {}
                    assert(registry_wf(after));
                    assert(holds(after, prim, i as int));
                    let c = choose|c: int| holds(after, prim, c);
                    lemma_one_entry(after, prim, i as int, c);
                    assert forall|q: PrimElement| !q.same(prim) implies self.uses(q) == old(self).uses(q)
                        && self.state(q) == old(self).state(q) by {
                        if exists|j: int| holds(before, q, j) {
                            let j = choose|j: int| holds(before, q, j);
                            assert(holds(after, q, j));
                            let k = choose|k: int| holds(after, q, k);
                            lemma_one_entry(after, q, j, k);
                            if j == i {
                                crate::prim_element::lemma_same_descriptor(q, before[j].prim, prim);
                                crate::prim_element::lemma_same_descriptor(before[j].prim, q, q);
                            }
                        } else {
                            assert forall|j: int| !holds(after, q, j) by {
                                assert(!holds(before, q, j));
                            }
                        }
                    }
                }
            },
            None => {
                let processor = mk_prim_element_processor(prim);
                self.prim_element_processors.push(PrimEntry { prim, processor, extra: 0 });
                proof {
                    let after = self.prim_element_processors@;
                    let n = before.len() as int;
                    crate::prim_element::lemma_same_descriptor(prim, prim, prim);
                    assert forall|i: int, j: int| 0 <= i < j < after.len() implies !(
                    #[trigger] after[i]).prim.same((#[trigger] after[j]).prim) by {
                        if j == n {
                            assert(!holds(before, prim, i));
                        } else {
                            assert(!before[i].prim.same(before[j].prim));
                        }
                    }
                    assert(holds(after, prim, n));
                    let c = choose|c: int| holds(after, prim, c);
                    lemma_one_entry(after, prim, n, c);
                    assert forall|q: PrimElement| !q.same(prim) implies self.uses(q) == old(self).uses(q)
                        && self.state(q) == old(self).state(q) by {
                        crate::prim_element::lemma_same_descriptor(prim, q, prim);
                        assert forall|j: int| holds(after, q, j) == holds(before, q, j) by {}
                        if exists|j: int| holds(before, q, j) {
                            let j = choose|j: int| holds(before, q, j);
                            assert(holds(after, q, j));
                            let k = choose|k: int| holds(after, q, k);
                            lemma_one_entry(after, q, j, k);
                        } else {
                            assert forall|j: int| !holds(after, q, j) by {
                                assert(!holds(before, q, j));
                            }
                        }
                    }
                }
            },
        }
    }

    /// Counts one node less that uses the primitive of descriptor `prim`,
    /// which some node uses. With its last use its state goes.
    pub fn free_prim_element_processor(&mut self, prim_element_id: PrimElement)
        requires
            old(self).sound(),
            old(self).uses(prim_element_id) > 0,
        ensures
            final(self).sound(),
            final(self).processors() == old(self).processors(),
            final(self).uses(prim_element_id) == old(self).uses(prim_element_id) - 1,
            old(self).uses(prim_element_id) > 1 ==> final(self).state(prim_element_id) == old(self).state(
                prim_element_id,
            ),
            forall|q: PrimElement|
                !q.same(prim_element_id) ==> final(self).uses(q) == old(self).uses(q) && final(self).state(
                    q,
                ) == old(self).state(q),
    {
        let ghost before = self.prim_element_processors@;
        let prim = prim_element_id;
        match self.find(prim) {
            Some(i) => {
                proof {
                    let c = choose|c: int| holds(before, prim, c);
                    lemma_one_entry(before, prim, i as int, c);
                }
                let had = self.prim_element_processors[i].extra;
                if had == 0 {
                    let gone = self.prim_element_processors.swap_remove(i);
                    proof {
                        let after = self.prim_element_processors@;
                        let last = before.len() - 1;
                        assert forall|j: int| 0 <= j < after.len() implies after[j] == (if j == i {
                            before[last]
                        } else {
                            before[j]
                        }) by {}
                        assert forall|a: int, b: int| 0 <= a < b < after.len() implies !(
                        #[trigger] after[a]).prim.same((#[trigger] after[b]).prim) by {
                            let left = if a == i { last } else { a };
                            let right = if b == i { last } else { b };
                            if left < right {
                                assert(!before[left].prim.same(before[right].prim));
                            } else {
                                assert(!before[right].prim.same(before[left].prim));
                                crate::prim_element::lemma_same_descriptor(
                                    before[left].prim,
                                    before[right].prim,
                                    before[left].prim,
                                );
                            }
                        }
                        assert forall|j: int| !holds(after, prim, j) by {
                            if holds(after, prim, j) {
                                let j0 = if j == i { last } else { j };
                                lemma_one_entry(before, prim, i as int, j0);
                            }
                        }
                        assert forall|q: PrimElement| !q.same(prim) implies self.uses(q) == old(
                            self,
                        ).uses(q) && self.state(q) == old(self).state(q) by {
                            if exists|j: int| holds(before, q, j) {
                                let j = choose|j: int| holds(before, q, j);
                                if j == i {
                                    crate::prim_element::lemma_same_descriptor(q, before[j].prim, prim);
                                    crate::prim_element::lemma_same_descriptor(before[j].prim, q, q);
                                    assert(false);
                                }
                                let j1 = if j == last { i as int } else { j };
                                assert(holds(after, q, j1));
                                let k = choose|k: int| holds(after, q, k);
                                lemma_one_entry(after, q, j1, k);
                            } else {
                                assert forall|j: int| !holds(after, q, j) by {
                                    let j0 = if j == i { last } else { j };
                                    assert(!holds(before, q, j0));
                                }
                            }
                        }
                    }
                } else {
                    self.prim_element_processors[i].extra = had - 1;
                    proof {
                        let after = self.prim_element_processors@;
                        assert forall|q: PrimElement, j: int| holds(after, q, j) == holds(before, q, j) by {}
                        assert(registry_wf(after));
                        assert(holds(after, prim, i as int));
                        let c = choose|c: int| holds(after, prim, c);
                        lemma_one_entry(after, prim, i as int, c);
                        assert forall|q: PrimElement| !q.same(prim) implies self.uses(q) == old(
                            self,
                        ).uses(q) && self.state(q) == old(self).state(q) by {
                            if exists|j: int| holds(before, q, j) {
                                let j = choose|j: int| holds(before, q, j);
                                assert(holds(after, q, j));
                                let k = choose|k: int| holds(after, q, k);
                                lemma_one_entry(after, q, j, k);
                                if j == i {
                                    crate::prim_element::lemma_same_descriptor(q, before[j].prim, prim);
                                    crate::prim_element::lemma_same_descriptor(before[j].prim, q, q);
                                }
                            } else {
                                assert forall|j: int| !holds(after, q, j) by {
                                    assert(!holds(before, q, j));
                                }
                            }
                        }
                    }
                }
            },
            None => {},
        }
    }
}

} // verus!
