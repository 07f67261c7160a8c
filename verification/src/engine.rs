//! Running a plan: what each operation does to the buffers, and where the
//! float unit has to step in.

use vstd::prelude::*;
use crate::buffer::{contents, Buffer, Contents};
use crate::flow::Flow;
use crate::flow_store::FlowId;
use crate::graph::EdgeIx;
use crate::prim_element::Outcome;
use crate::processor::ProcessorStore;
use crate::schedule::{Op, Place};
use crate::flow_store::FlowStore;
use crate::prim_element::{PrimElement, PrimProcessor};
use crate::schedule::{bind, bound_inputs, bound_outputs};
use crate::slot_map::{as_map, distinct, listed, place_of, SlotMap};

verus! {

/// What all the buffers hold that a plan can reach: those on the edges of
/// the store, and the caller's output and input buffers.
pub struct Board {
    pub edges: Map<(FlowId, EdgeIx), Contents>,
    pub outputs: Map<u32, Contents>,
    pub inputs: Map<u32, Contents>,
}

/// The contents of the buffers of the edges.
pub open spec fn edge_contents(board: Map<(FlowId, EdgeIx), Buffer>) -> Map<(FlowId, EdgeIx), Contents> {
    board.map_values(|b: Buffer| b@)
}

impl Board {
    /// What a plan reads at `place`: an edge or an input of the caller.
    pub open spec fn read(self, place: Place) -> Option<Contents> {
        match place {
            Place::Edge { flow, edge } => if self.edges.contains_key((flow, edge)) {
                Some(self.edges[(flow, edge)])
            } else {
                None
            },
            Place::Input(no) => if self.inputs.contains_key(no.0) {
                Some(self.inputs[no.0])
            } else {
                None
            },
            Place::Output(_) => None,
        }
    }

    /// What lies at `place` where a plan may write: an edge or an output of
    /// the caller.
    pub open spec fn held(self, place: Place) -> Option<Contents> {
        match place {
            Place::Edge { flow, edge } => if self.edges.contains_key((flow, edge)) {
                Some(self.edges[(flow, edge)])
            } else {
                None
            },
            Place::Output(no) => if self.outputs.contains_key(no.0) {
                Some(self.outputs[no.0])
            } else {
                None
            },
            Place::Input(_) => None,
        }
    }

    /// The board with `c` at `place`.
    pub open spec fn write(self, place: Place, c: Contents) -> Board {
        match place {
            Place::Edge { flow, edge } => Board { edges: self.edges.insert((flow, edge), c), ..self },
            Place::Output(no) => Board { outputs: self.outputs.insert(no.0, c), ..self },
            Place::Input(_) => self,
        }
    }
}

/// What one buffer becomes when another is copied or mixed into it, and how
/// far that got. A copy always goes through. A mix of two kinds is a fault;
/// a mix that rounds is left to the float unit.
pub open spec fn combined(target: Contents, source: Contents, mix: bool) -> (Contents, Outcome) {
    if !mix {
        (source, Outcome::Done)
    } else if !target.same_kind(source) {
        (target, Outcome::Fault)
    } else if target.rounds() {
        (target, Outcome::Pending)
    } else {
        (target.mixed(source), Outcome::Done)
    }
}

fn combine(target: &mut Buffer, source: &Buffer, mix: bool) -> (r: Outcome)
    ensures
        (final(target)@, r) == combined(old(target)@, source@, mix),
{
    if !mix {
        target.clone_from(source);
        Outcome::Done
    } else if !target.same_kind(source) {
        Outcome::Fault
    } else if target.merge(source) {
        Outcome::Done
    } else {
        Outcome::Pending
    }
}

/// The board and the outcome after a buffer was brought to length, or
/// cleared.
pub open spec fn shaped(board: Board, target: Place, sz: nat, clear: bool) -> (Board, Outcome) {
    match board.held(target) {
        Some(c) => (
            board.write(
                target,
                if clear {
                    c.cleared()
                } else {
                    c.resized(sz)
                },
            ),
            Outcome::Done,
        ),
        None => (board, Outcome::Fault),
    }
}

/// The board and the outcome after `source` was copied or mixed into
/// `target`. Both have to be there, and a buffer is not mixed into itself.
pub open spec fn joined(board: Board, target: Place, source: Place, mix: bool) -> (Board, Outcome) {
    match (board.held(target), board.read(source)) {
        (Some(t), Some(s)) => if target == source {
            (
                board,
                if mix {
                    Outcome::Fault
                } else {
                    Outcome::Done
                },
            )
        } else {
            (board.write(target, combined(t, s, mix).0), combined(t, s, mix).1)
        },
        _ => (board, Outcome::Fault),
    }
}

/// The flow and edge of a place on an edge.
pub open spec fn key_of(place: Place) -> (FlowId, EdgeIx) {
    match place {
        Place::Edge { flow, edge } => (flow, edge),
        _ => (FlowId(0), EdgeIx(0)),
    }
}

/// Whether the buffers at `places` can be handed to a primitive: each lies
/// on an edge that has a buffer, and no place comes twice.
pub open spec fn lendable<B>(edges: Map<(FlowId, EdgeIx), B>, places: Seq<(u32, Place)>) -> bool {
    &&& forall|i: int|
        0 <= i < places.len() ==> (#[trigger] places[i]).1 is Edge && edges.contains_key(
            key_of(places[i].1),
        )
    &&& forall|i: int, j: int|
        0 <= i < j < places.len() ==> (#[trigger] places[i]).1 != (#[trigger] places[j]).1
}

/// Whether edge `k` is one of `places`.
pub open spec fn touched(places: Seq<(u32, Place)>, k: (FlowId, EdgeIx)) -> bool {
    exists|i: int| 0 <= i < places.len() && key_of((#[trigger] places[i]).1) == k
}

/// The contents at `places`, each under its slot.
pub open spec fn lent(edges: Map<(FlowId, EdgeIx), Contents>, places: Seq<(u32, Place)>) -> Map<
    u32,
    Contents,
> {
    Map::new(|k: u32| listed(places, k), |k: u32| edges[key_of(places[place_of(places, k)].1)])
}

/// The edges after the buffers at `places` came back holding `result`, slot
/// by slot.
pub open spec fn returned(
    edges: Map<(FlowId, EdgeIx), Contents>,
    places: Seq<(u32, Place)>,
    result: Map<u32, Contents>,
) -> Map<(FlowId, EdgeIx), Contents> {
    Map::new(
        |k: (FlowId, EdgeIx)| edges.contains_key(k),
        |k: (FlowId, EdgeIx)|
            if touched(places, k) {
                result[places[choose|i: int|
                    0 <= i < places.len() && key_of((#[trigger] places[i]).1) == k].0]
            } else {
                edges[k]
            },
    )
}

/// The edges and the outcome after the primitive of descriptor `prim` at
/// node `node` of flow `flow` computed: a fault where the primitive is not
/// in use, the flow is missing or a buffer is; else the first edge of each
/// output slot holds what the primitive made of it, given the first edge of
/// each input slot.
pub open spec fn computed(
    state: Option<PrimProcessor>,
    flows: Map<u64, Flow>,
    edges: Map<(FlowId, EdgeIx), Contents>,
    prim: PrimElement,
    flow: FlowId,
    node: crate::graph::NodeIx,
    sz: nat,
) -> (Map<(FlowId, EdgeIx), Contents>, Outcome) {
    match state {
        None => (edges, Outcome::Fault),
        Some(state) => {
            if !flows.contains_key(flow.0) {
                (edges, Outcome::Fault)
            } else {
                let outs = bound_outputs(flow.0, flows[flow.0], node, prim.output_list());
                let ins = bound_inputs(flow.0, flows[flow.0], node, prim.input_list());
                if !lendable(edges, outs + ins) {
                    (edges, Outcome::Fault)
                } else {
                    let given = lent(edges, outs);
                    let taken = lent(edges, ins);
                    (returned(edges, outs, state.output(given, taken, sz)), state.outcome(given, taken))
                }
            }
        }
    }
}

impl ProcessorStore {
    /// Says whether the buffers at the places of `outs` and `ins` can be
    /// handed to a primitive.
    fn can_lend(&self, outs: &SlotMap<Place>, ins: &SlotMap<Place>) -> (r: bool)
        requires
            self.wf(),
        ensures
            r == lendable(self.board(), outs.entries() + ins.entries()),
    {
        let ghost all = outs.entries() + ins.entries();
        let mut line: Vec<Place> = Vec::new();
        let mut a: usize = 0;
        while a < outs.len()
            invariant
                a <= outs.entries().len(),
                line@.len() == a,
                forall|x: int| 0 <= x < a ==> line@[x] == outs.entries()[x].1,
            decreases outs.entries().len() - a,
        {
            line.push(*outs.value_at(a));
            a += 1;
        }
        let mut b: usize = 0;
        while b < ins.len()
            invariant
                a == outs.entries().len(),
                b <= ins.entries().len(),
                line@.len() == a + b,
                forall|x: int| 0 <= x < a ==> line@[x] == outs.entries()[x].1,
                forall|x: int| 0 <= x < b ==> line@[a + x] == ins.entries()[x].1,
            decreases ins.entries().len() - b,
        {
            line.push(*ins.value_at(b));
            b += 1;
        }
        assert forall|x: int| 0 <= x < all.len() implies line@[x] == (#[trigger] all[x]).1 by {
            if x >= a {
                assert(line@[a + (x - a)] == ins.entries()[x - a].1);
            }
        }
        let n = line.len();
        let mut i: usize = 0;
        while i < n
            invariant
                self.wf(),
                all == outs.entries() + ins.entries(),
                n == all.len(),
                n == line@.len(),
                forall|x: int| 0 <= x < all.len() ==> line@[x] == (#[trigger] all[x]).1,
                i <= n,
                forall|x: int|
                    0 <= x < i ==> (#[trigger] all[x]).1 is Edge && self.board().contains_key(
                        key_of(all[x].1),
                    ),
                forall|x: int, y: int| 0 <= x < y < i ==> (#[trigger] all[x]).1 != (#[trigger] all[y]).1,
            decreases n - i,
        {
            let place = line[i];
            assert(place == all[i as int].1);
            match place {
                Place::Edge { flow, edge } => {
                    if self.buffer(flow, edge).is_none() {
                        return false;
                    }
                },
                _ => {
                    return false;
                },
            }
            let mut j: usize = 0;
            while j < i
                invariant
                    self.wf(),
                    all == outs.entries() + ins.entries(),
                    n == all.len(),
                    n == line@.len(),
                    forall|x: int| 0 <= x < all.len() ==> line@[x] == (#[trigger] all[x]).1,
                    i < n,
                    j <= i,
                    place == all[i as int].1,
                    forall|x: int| 0 <= x < j ==> (#[trigger] all[x]).1 != place,
                decreases i - j,
            {
                let other = line[j];
                assert(other == all[j as int].1);
                if other == place {
                    return false;
                }
                j += 1;
            }
            i += 1;
        }
        true
    }

    /// Hands out the buffers at `places`, each under its slot. Placeholders
    /// lie in their places until they come back.
    fn lend(&mut self, places: &SlotMap<Place>) -> (r: SlotMap<Buffer>)
        requires
            old(self).wf(),
            places.wf(),
            lendable(old(self).board(), places.entries()),
        ensures
            final(self).wf(),
            final(self).alike(old(self)),
            forall|k: (FlowId, EdgeIx)|
                final(self).board().contains_key(k) && !touched(places.entries(), k) ==> final(self).board()[k] == old(self).board()[k],
            r.wf(),
            r.entries().len() == places.entries().len(),
            forall|i: int|
                0 <= i < places.entries().len() ==> #[trigger] r.entries()[i] == (
                    places.entries()[i].0,
                    old(self).board()[key_of(places.entries()[i].1)],
                ),
    {
        let ghost list = places.entries();
        let mut r: SlotMap<Buffer> = SlotMap::new();
        let mut i: usize = 0;
        proof {
            places.lemma_entries();
        }
        while i < places.len()
            invariant
                self.wf(),
                places.wf(),
                list == places.entries(),
                distinct(list),
                lendable(old(self).board(), list),
                i <= list.len(),
                self.alike(old(self)),
                forall|k: (FlowId, EdgeIx)|
                    self.board().contains_key(k) && !touched(list.subrange(0, i as int), k)
                        ==> self.board()[k] == old(self).board()[k],
                r.wf(),
                r.entries().len() == i,
                forall|j: int|
                    0 <= j < i ==> #[trigger] r.entries()[j] == (
                        list[j].0,
                        old(self).board()[key_of(list[j].1)],
                    ),
            decreases list.len() - i,
        {
            let slot = places.key_at(i);
            let place = *places.value_at(i);
            let ghost before = self.board();
            let ghost had = r.entries();
            proof {
                r.lemma_entries();
                if r@.contains_key(slot) {
                    let q = place_of(r.entries(), slot);
                    assert(r.entries()[q].0 == list[q].0);
                    assert(list[q].0 != list[i as int].0);
                }
                assert(list[i as int].1 is Edge);
                let k = key_of(place);
                if touched(list.subrange(0, i as int), k) {
                    let j = choose|j: int|
                        0 <= j < i && key_of((#[trigger] list.subrange(0, i as int)[j]).1) == k;
                    assert(list[j].1 is Edge);
                    assert(list[j].1 != list[i as int].1);
                }
            }
            match place {
                Place::Edge { flow, edge } => {
                    let mut b = Buffer::new(crate::value::Type::Event(crate::value::PrimType::U32));
                    let found = self.swap(flow, edge, &mut b);
                    assert(found);
                    r.insert(slot, b);
                },
                _ => {},
            }
            proof {
                assert(self.board().dom() =~= old(self).board().dom());
                assert forall|k: (FlowId, EdgeIx)|
                    self.board().contains_key(k) && !touched(
                        list.subrange(0, i + 1),
                        k,
                    ) implies self.board()[k] == old(self).board()[k] by {
                    if k == key_of(place) {
                        assert(list.subrange(0, i + 1)[i as int] == list[i as int]);
                        assert(touched(list.subrange(0, i + 1), k));
                    }
                    if touched(list.subrange(0, i as int), k) {
                        let j = choose|j: int|
                            0 <= j < i && key_of((#[trigger] list.subrange(0, i as int)[j]).1) == k;
                        assert(list.subrange(0, i + 1)[j] == list[j]);
                    }
                }
                assert(r.entries() == had.push((slot, before[key_of(place)])));
            }
            i += 1;
        }
        proof {
            assert(list.subrange(0, i as int) =~= list);
        }
        r
    }

    /// Puts the buffers of `buffers` back in the places of `places`, slot
    /// by slot.
    fn give_back(&mut self, places: &SlotMap<Place>, buffers: SlotMap<Buffer>)
        requires
            old(self).wf(),
            places.wf(),
            lendable(old(self).board(), places.entries()),
            buffers.entries().len() == places.entries().len(),
        ensures
            final(self).wf(),
            final(self).alike(old(self)),
            forall|k: (FlowId, EdgeIx)|
                final(self).board().contains_key(k) && !touched(places.entries(), k) ==> final(self).board()[k] == old(self).board()[k],
            forall|i: int|
                0 <= i < places.entries().len() ==> final(self).board()[key_of(
                    (#[trigger] places.entries()[i]).1,
                )] == buffers.entries()[i].1,
    {
        let ghost list = places.entries();
        let ghost all = buffers.entries();
        let mut items = buffers.into_entries();
        let mut i: usize = items.len();
        while i > 0
            invariant
                self.wf(),
                places.wf(),
                list == places.entries(),
                lendable(old(self).board(), list),
                all.len() == list.len(),
                i <= list.len(),
                items@ == all.subrange(0, i as int),
                self.alike(old(self)),
                forall|k: (FlowId, EdgeIx)|
                    self.board().contains_key(k) && !touched(list, k) ==> self.board()[k] == old(self).board()[k],
                forall|j: int|
                    i <= j < list.len() ==> self.board()[key_of((#[trigger] list[j]).1)] == all[j].1,
            decreases i,
        {
            i -= 1;
            let place = *places.value_at(i);
            let ghost before = self.board();
            match items.pop() {
                Some((_, mut b)) => {
                    assert(b == all[i as int].1);
                    match place {
                        Place::Edge { flow, edge } => {
                            assert(list[i as int].1 is Edge);
                            let found = self.swap(flow, edge, &mut b);
                            assert(found);
                        },
                        _ => {
                            assert(list[i as int].1 is Edge);
                        },
                    }
                },
                None => {},
            }
            proof {
                assert(items@ =~= all.subrange(0, i as int));
                assert(self.board().dom() =~= old(self).board().dom());
                assert(self.board() == before.insert(key_of(place), all[i as int].1));
                assert forall|k: (FlowId, EdgeIx)|
                    self.board().contains_key(k) && !touched(list, k) implies self.board()[k] == old(self).board()[k] by {
                    if k == key_of(place) {
                        assert(key_of(list[i as int].1) == k);
                    }
                }
                assert forall|j: int| i <= j < list.len() implies self.board()[key_of(
                    (#[trigger] list[j]).1,
                )] == all[j].1 by {
                    if j > i {
                        assert(list[i as int].1 is Edge && list[j].1 is Edge);
                        assert(list[i as int].1 != list[j].1);
                    }
                }
            }
        }
    }

    /// The board of this store and the caller's buffers.
    pub open spec fn board_with(&self, output: Map<u32, Buffer>, input: Map<u32, Buffer>) -> Board {
        Board { edges: edge_contents(self.board()), outputs: contents(output), inputs: contents(input) }
    }

    /// Brings the buffer at `target` to the length of the block, or clears
    /// it.
    fn shape(&mut self, output: &mut SlotMap<Buffer>, target: Place, buffer_sz: usize, clear: bool) -> (r:
        Outcome)
        requires
            old(self).wf(),
            old(output).wf(),
        ensures
            final(self).wf(),
            final(output).wf(),
            final(output).keys() == old(output).keys(),
            final(self).alike(old(self)),
            forall|input: Map<u32, Buffer>|
                (#[trigger] final(self).board_with(final(output)@, input), r) == shaped(
                    old(self).board_with(old(output)@, input),
                    target,
                    buffer_sz as nat,
                    clear,
                ),
    {
        let r = match target {
            Place::Edge { flow, edge } => {
                match self.buffer_mut(flow, edge) {
                    Some(b) => {
                        if clear {
                            b.clear();
                        } else {
                            b.update_size(buffer_sz);
                        }
                        Outcome::Done
                    },
                    None => Outcome::Fault,
                }
            },
            Place::Output(no) => {
                match output.get_mut(no.0) {
                    Some(b) => {
                        if clear {
                            b.clear();
                        } else {
                            b.update_size(buffer_sz);
                        }
                        Outcome::Done
                    },
                    None => Outcome::Fault,
                }
            },
            Place::Input(_) => Outcome::Fault,
        };
        proof {
            assert forall|input: Map<u32, Buffer>|
                (#[trigger] self.board_with(output@, input), r) == shaped(
                    old(self).board_with(old(output)@, input),
                    target,
                    buffer_sz as nat,
                    clear,
                ) by {
                let before = old(self).board_with(old(output)@, input);
                let after = self.board_with(output@, input);
                let want = shaped(before, target, buffer_sz as nat, clear).0;
                assert(after.edges =~= want.edges);
                assert(after.outputs =~= want.outputs);
            }
            assert(self.board().dom() =~= old(self).board().dom());
        }
        r
    }

    /// Copies or mixes the buffer at `source` into the one at `target`.
    fn join(
        &mut self,
        output: &mut SlotMap<Buffer>,
        input: &SlotMap<Buffer>,
        target: Place,
        source: Place,
        mix: bool,
    ) -> (r: Outcome)
        requires
            old(self).wf(),
            old(output).wf(),
            input.wf(),
        ensures
            final(self).wf(),
            final(output).wf(),
            final(output).keys() == old(output).keys(),
            final(self).alike(old(self)),
            (final(self).board_with(final(output)@, input@), r) == joined(
                old(self).board_with(old(output)@, input@),
                target,
                source,
                mix,
            ),
    {
        let ghost before = old(self).board_with(old(output)@, input@);
        let ghost want = joined(before, target, source, mix);
        let r = match source {
            Place::Output(_) => Outcome::Fault,
            Place::Input(no) => {
                match input.get(no.0) {
                    None => Outcome::Fault,
                    Some(s) => {
                        match target {
                            Place::Input(_) => Outcome::Fault,
                            Place::Output(a) => {
                                match output.get_mut(a.0) {
                                    Some(t) => combine(t, s, mix),
                                    None => Outcome::Fault,
                                }
                            },
                            Place::Edge { flow, edge } => {
                                match self.buffer_mut(flow, edge) {
                                    Some(t) => combine(t, s, mix),
                                    None => Outcome::Fault,
                                }
                            },
                        }
                    },
                }
            },
            Place::Edge { flow: sf, edge: se } => {
                match target {
                    Place::Input(_) => Outcome::Fault,
                    Place::Output(a) => {
                        match self.buffer(sf, se) {
                            None => Outcome::Fault,
                            Some(s) => {
                                match output.get_mut(a.0) {
                                    Some(t) => combine(t, s, mix),
                                    None => Outcome::Fault,
                                }
                            },
                        }
                    },
                    Place::Edge { flow: tf, edge: te } => {
                        if tf == sf && te == se {
                            if self.buffer(tf, te).is_none() || mix {
                                Outcome::Fault
                            } else {
                                Outcome::Done
                            }
                        } else {
                            let mut t = Buffer::new(crate::value::Type::Event(crate::value::PrimType::U32));
                            if !self.swap(tf, te, &mut t) {
                                Outcome::Fault
                            } else {
                                let ghost lent = self.board();
                                let r = match self.buffer(sf, se) {
                                    Some(s) => combine(&mut t, s, mix),
                                    None => Outcome::Fault,
                                };
                                let back = self.swap(tf, te, &mut t);
                                proof {
                                    assert(back);
                                    assert(self.board() =~= old(self).board().insert((tf, te), self.board()[(tf, te)]));
                                }
                                r
                            }
                        }
                    },
                }
            },
        };
        proof {
            let after = self.board_with(output@, input@);
            assert(after.edges =~= want.0.edges);
            assert(after.outputs =~= want.0.outputs);
            assert(self.board().dom() =~= old(self).board().dom());
        }
        r
    }

    /// Lets the primitive of descriptor `prim` at node `node` of flow
    /// `flow_id` compute one block as far as it goes without rounding
    /// arithmetic.
    fn compute_prim(
        &mut self,
        flows: &FlowStore,
        prim: PrimElement,
        flow_id: FlowId,
        node: crate::graph::NodeIx,
        buffer_sz: usize,
    ) -> (r: Outcome)
        requires
            old(self).wf(),
            flows.wf(),
        ensures
            final(self).wf(),
            final(self).alike(old(self)),
            (edge_contents(final(self).board()), r) == computed(
                old(self).state(prim),
                flows@,
                edge_contents(old(self).board()),
                prim,
                flow_id,
                node,
                buffer_sz as nat,
            ),
    {
        proof {
            self.lemma_shared(prim, prim);
        }
        if !self.in_use(prim) {
            return Outcome::Fault;
        }
        let flow = match flows.get(flow_id) {
            Some(flow) => flow,
            None => {
                return Outcome::Fault;
            },
        };
        let out_types = prim.output_types();
        let in_types = prim.input_types();
        let outs = bind(flow_id, flow, node, &out_types, true);
        let ins = bind(flow_id, flow, node, &in_types, false);
        let ghost o = outs.entries();
        let ghost n = ins.entries();
        let ghost board0 = self.board();
        let ghost edges0 = edge_contents(board0);
        proof {
            assert(edges0.dom() =~= board0.dom());
            assert(lendable(board0, o + n) == lendable(edges0, o + n));
        }
        if !self.can_lend(&outs, &ins) {
            return Outcome::Fault;
        }
        proof {
            assert forall|i: int| 0 <= i < o.len() implies (#[trigger] o[i]).1 is Edge && board0.contains_key(
                key_of(o[i].1),
            ) by {
                assert((o + n)[i] == o[i]);
            }
            assert forall|i: int, j: int| 0 <= i < j < o.len() implies (#[trigger] o[i]).1 != (
            #[trigger] o[j]).1 by {
                assert((o + n)[i] == o[i] && (o + n)[j] == o[j]);
            }
            assert forall|i: int| 0 <= i < n.len() implies (#[trigger] n[i]).1 is Edge && board0.contains_key(
                key_of(n[i].1),
            ) by {
                assert((o + n)[o.len() + i] == n[i]);
            }
            assert forall|i: int, j: int| 0 <= i < j < n.len() implies (#[trigger] n[i]).1 != (
            #[trigger] n[j]).1 by {
                assert((o + n)[o.len() + i] == n[i] && (o + n)[o.len() + j] == n[j]);
            }
            assert forall|i: int, j: int| 0 <= i < o.len() && 0 <= j < n.len() implies key_of(
                (#[trigger] o[i]).1,
            ) != key_of((#[trigger] n[j]).1) by {
                assert((o + n)[i] == o[i] && (o + n)[o.len() + j] == n[j]);
                assert((o + n)[i].1 != (o + n)[o.len() + j].1);
            }
        }
        let mut out_map = self.lend(&outs);
        let ghost board1 = self.board();
        let in_map = self.lend(&ins);
        let ghost board2 = self.board();
        let ghost given = contents(out_map@);
        let ghost taken = contents(in_map@);
        proof {
            outs.lemma_entries();
            ins.lemma_entries();
            out_map.lemma_entries();
            in_map.lemma_entries();
            assert forall|k: u32| listed(o, k) == listed(out_map.entries(), k) by {
                if listed(o, k) {
                    let p = place_of(o, k);
                    assert(out_map.entries()[p].0 == k);
                }
                if listed(out_map.entries(), k) {
                    let p = place_of(out_map.entries(), k);
                    assert(o[p].0 == k);
                }
            }
            assert forall|k: u32| listed(n, k) == listed(in_map.entries(), k) by {
                if listed(n, k) {
                    let p = place_of(n, k);
                    assert(in_map.entries()[p].0 == k);
                }
                if listed(in_map.entries(), k) {
                    let p = place_of(in_map.entries(), k);
                    assert(n[p].0 == k);
                }
            }
            assert forall|k: u32| listed(o, k) implies given[k] == #[trigger] lent(edges0, o)[k] by {
                let p = place_of(o, k);
                let q = place_of(out_map.entries(), k);
                assert(out_map.entries()[p].0 == k);
                if p != q {
                    assert(out_map.entries()[p].0 == out_map.entries()[q].0);
                }
            }
            assert(given =~= lent(edges0, o));
            assert forall|k: u32| listed(n, k) implies taken[k] == #[trigger] lent(edges0, n)[k] by {
                let p = place_of(n, k);
                let q = place_of(in_map.entries(), k);
                assert(in_map.entries()[p].0 == k);
                if p != q {
                    assert(in_map.entries()[p].0 == in_map.entries()[q].0);
                }
                assert(n[p].1 is Edge);
                if touched(o, key_of(n[p].1)) {
                    let i = choose|i: int| 0 <= i < o.len() && key_of((#[trigger] o[i]).1) == key_of(n[p].1);
                    assert(key_of(o[i].1) != key_of(n[p].1));
                }
            }
            assert(taken =~= lent(edges0, n));
        }
        let done = self.compute_outplace_prim(prim, &mut out_map, &in_map, buffer_sz);
        let ghost state = old(self).state(prim)->0;
        let ghost result = state.output(given, taken, buffer_sz as nat);
        proof {
            out_map.lemma_entries();
            assert(contents(out_map@) == result);
            assert(out_map.keys().len() == o.len());
            assert forall|i: int| 0 <= i < o.len() implies (#[trigger] out_map.entries()[i]).0 == o[i].0 by {
                assert(out_map.keys()[i] == out_map.entries()[i].0);
            }
            assert(lendable(self.board(), n));
        }
        let ghost back = out_map.entries();
        self.give_back(&ins, in_map);
        let ghost board3 = self.board();
        proof {
            assert(lendable(self.board(), o));
        }
        self.give_back(&outs, out_map);
        proof {
            let after = edge_contents(self.board());
            let want = returned(edges0, o, result);
            assert(after.dom() =~= want.dom());
            assert forall|k: (FlowId, EdgeIx)| after.contains_key(k) implies after[k] == want[k] by {
                if touched(o, k) {
                    let i = choose|i: int| 0 <= i < o.len() && key_of((#[trigger] o[i]).1) == k;
                    assert(self.board()[key_of(o[i].1)] == back[i].1);
                    assert(back[i].0 == o[i].0);
                    assert(contents(as_map(back))[back[i].0] == back[i].1@);
                } else if touched(n, k) {
                    let j = choose|j: int| 0 <= j < n.len() && key_of((#[trigger] n[j]).1) == k;
                    assert(board3[key_of(n[j].1)] == in_map.entries()[j].1);
                    assert(board1[k] == board0[k]);
                } else {
                    assert(board1[k] == board0[k]);
                    assert(board2[k] == board1[k]);
                    assert(board3[k] == board2[k]);
                }
            }
            assert(after =~= want);
        }
        match done {
            Some(outcome) => outcome,
            None => Outcome::Fault,
        }
    }

    /// Does one operation of a plan.
    fn step(
        &mut self,
        flows: &FlowStore,
        output: &mut SlotMap<Buffer>,
        input: &SlotMap<Buffer>,
        op: &Op,
        buffer_sz: usize,
    ) -> (r: Outcome)
        requires
            old(self).wf(),
            flows.wf(),
            old(output).wf(),
            input.wf(),
        ensures
            final(self).wf(),
            final(output).wf(),
            final(output).keys() == old(output).keys(),
            final(self).alike(old(self)),
            (final(self).board_with(final(output)@, input@), r) == stepped(
                *old(self),
                flows@,
                old(self).board_with(old(output)@, input@),
                *op,
                buffer_sz as nat,
            ),
    {
        match op {
            Op::Resize { target } => self.shape(output, *target, buffer_sz, false),
            Op::Clear { target } => self.shape(output, *target, buffer_sz, true),
            Op::Copy { target, source } => self.join(output, input, *target, *source, false),
            Op::Merge { target, source } => self.join(output, input, *target, *source, true),
            Op::Prim { prim, flow, node } => self.compute_prim(flows, *prim, *flow, *node, buffer_sz),
        }
    }

    /// Runs the plan `ops` from operation `from` on, for a block of
    /// `buffer_sz` samples, until it is through or an operation cannot be
    /// done here, and says where it halted: see [`ran`].
    ///
    /// Where it halts on [`Outcome::Pending`], the float unit has to finish
    /// the operation at which it halted: for a mix, add the samples of the
    /// source to those of the target; for a primitive, compute the samples
    /// of its output. The plan is then run on from the next operation.
    pub fn run(
        &mut self,
        flows: &FlowStore,
        ops: &Vec<Op>,
        from: usize,
        output: &mut SlotMap<Buffer>,
        input: &SlotMap<Buffer>,
        buffer_sz: usize,
    ) -> (r: Halt)
        requires
            old(self).wf(),
            flows.wf(),
            old(output).wf(),
            input.wf(),
        ensures
            final(self).wf(),
            final(output).wf(),
            final(output).keys() == old(output).keys(),
            final(self).alike(old(self)),
            (final(self).board_with(final(output)@, input@), r) == ran(
                *old(self),
                flows@,
                old(self).board_with(old(output)@, input@),
                ops@,
                from as nat,
                buffer_sz as nat,
            ),
    {
        let ghost states = *old(self);
        let ghost start = old(self).board_with(old(output)@, input@);
        let mut pc: usize = from;
        while pc < ops.len()
            invariant
                self.wf(),
                flows.wf(),
                output.wf(),
                input.wf(),
                output.keys() == old(output).keys(),
                self.alike(old(self)),
                states == *old(self),
                start == old(self).board_with(old(output)@, input@),
                from <= pc,
                ran(states, flows@, self.board_with(output@, input@), ops@, pc as nat, buffer_sz as nat)
                    == ran(states, flows@, start, ops@, from as nat, buffer_sz as nat),
            decreases ops.len() - pc,
        {
            let ghost here = self.board_with(output@, input@);
            let ghost now = *self;
            let outcome = self.step(flows, output, input, &ops[pc], buffer_sz);
            proof {
                lemma_states(now, states, flows@, here, ops@[pc as int], buffer_sz as nat);
                let (next, o) = stepped(states, flows@, here, ops@[pc as int], buffer_sz as nat);
                assert(next == self.board_with(output@, input@) && o == outcome);
                assert((pc as nat) as usize == pc);
                if o != Outcome::Done {
                    assert(ran(states, flows@, here, ops@, pc as nat, buffer_sz as nat) == (
                        next,
                        Halt { at: pc, outcome: o },
                    ));
                } else {
                    assert(ran(states, flows@, here, ops@, pc as nat, buffer_sz as nat) == ran(
                        states,
                        flows@,
                        next,
                        ops@,
                        (pc + 1) as nat,
                        buffer_sz as nat,
                    ));
                }
            }
            if outcome != Outcome::Done {
                return Halt { at: pc, outcome };
            }
            pc += 1;
        }
        Halt { at: pc, outcome: Outcome::Done }
    }
}

/// Where a run halted, and why.
pub struct Halt {
    /// The operation at which the run halted: the length of the plan where
    /// it is through, else an operation of the plan.
    pub at: usize,
    /// [`Outcome::Done`] where the plan is through; [`Outcome::Pending`]
    /// where the float unit has to finish the operation `at`;
    /// [`Outcome::Fault`] where that operation cannot be done.
    pub outcome: Outcome,
}

/// The board and the outcome after one operation, with the primitives in
/// the states that they have in `origin`.
pub open spec fn stepped(
    origin: ProcessorStore,
    flows: Map<u64, Flow>,
    board: Board,
    op: Op,
    sz: nat,
) -> (Board, Outcome) {
    match op {
        Op::Resize { target } => shaped(board, target, sz, false),
        Op::Clear { target } => shaped(board, target, sz, true),
        Op::Copy { target, source } => joined(board, target, source, false),
        Op::Merge { target, source } => joined(board, target, source, true),
        Op::Prim { prim, flow, node } => {
            let (edges, outcome) = computed(origin.state(prim), flows, board.edges, prim, flow, node, sz);
            (Board { edges, ..board }, outcome)
        },
    }
}

/// The board after the operations of `ops` from `from` on were done in turn
/// up to the first that did not go through, and where and why that halted:
/// at the end of the plan, all done, or at an operation that is pending or
/// faulty.
pub open spec fn ran(
    origin: ProcessorStore,
    flows: Map<u64, Flow>,
    board: Board,
    ops: Seq<Op>,
    from: nat,
    sz: nat,
) -> (Board, Halt)
    decreases ops.len() - from,
{
    if from >= ops.len() {
        (board, Halt { at: from as usize, outcome: Outcome::Done })
    } else {
        let (next, outcome) = stepped(origin, flows, board, ops[from as int], sz);
        if outcome == Outcome::Done {
            ran(origin, flows, next, ops, from + 1, sz)
        } else {
            (next, Halt { at: from as usize, outcome })
        }
    }
}

/// A step depends on the states only through the state of its primitive.
proof fn lemma_states(
    a: ProcessorStore,
    b: ProcessorStore,
    flows: Map<u64, Flow>,
    board: Board,
    op: Op,
    sz: nat,
)
    requires
        forall|q: PrimElement| a.state(q) == b.state(q),
    ensures
        stepped(a, flows, board, op, sz) == stepped(b, flows, board, op, sz),
{
}

/// Fan-in is a mix. Where two sources of one kind reach a target, the plan
/// brings the target to length, copies the first source and mixes the
/// second in. For integers and events the run goes through and leaves the
/// mix of the two in the target: the sum, sample by sample, of two sampled
/// sources. For a kind that rounds it halts at the mix, with the first
/// source in the target, for the float unit to add the second.
pub proof fn lemma_fan_in_is_a_mix(
    origin: ProcessorStore,
    flows: Map<u64, Flow>,
    board: Board,
    target: Place,
    first: Place,
    second: Place,
    sz: nat,
)
    requires
        board.held(target) is Some,
        board.read(first) is Some,
        board.read(second) is Some,
        target != first,
        target != second,
        board.read(first)->0.same_kind(board.read(second)->0),
    ensures
        ({
            let a = board.read(first)->0;
            let b = board.read(second)->0;
            let ops = seq![
                Op::Resize { target },
                Op::Copy { target, source: first },
                Op::Merge { target, source: second },
            ];
            let (after, halt) = ran(origin, flows, board, ops, 0, sz);
            if a.rounds() {
                halt == (Halt { at: 2, outcome: Outcome::Pending }) && after.held(target) == Some(a)
            } else {
                halt == (Halt { at: 3, outcome: Outcome::Done }) && after.held(target) == Some(a.mixed(b))
            }
        }),
{
    let ops = seq![
        Op::Resize { target },
        Op::Copy { target, source: first },
        Op::Merge { target, source: second },
    ];
    reveal_with_fuel(ran, 4);
    let one = stepped(origin, flows, board, ops[0], sz).0;
    assert(one.read(first) == board.read(first));
    assert(one.read(second) == board.read(second));
    let two = stepped(origin, flows, one, ops[1], sz).0;
    assert(two.held(target) == board.read(first));
    assert(two.read(second) == board.read(second));
}

/// Fan-out is a copy. A copy leaves what the source holds in the target,
/// and leaves the source, and every place but the target, as it was: the
/// two buffers are then each its own.
pub proof fn lemma_fan_out_is_a_copy(board: Board, target: Place, source: Place, other: Place)
    requires
        board.held(target) is Some,
        board.read(source) is Some,
        other != target,
    ensures
        joined(board, target, source, false).1 == Outcome::Done,
        joined(board, target, source, false).0.held(target) == board.read(source),
        joined(board, target, source, false).0.read(other) == board.read(other),
        joined(board, target, source, false).0.held(other) == board.held(other),
        target != source ==> joined(board, target, source, false).0.read(source) == board.read(source),
{
}

/// What is written to one place changes no other.
pub proof fn lemma_write_elsewhere(board: Board, place: Place, c: Contents, other: Place)
    requires
        other != place,
    ensures
        board.write(place, c).held(other) == board.held(other),
        board.write(place, c).read(other) == board.read(other),
{
}

} // verus!
