//! What an element node of a flow holds.

use vstd::prelude::*;
use vstd::std_specs::cmp::PartialEqSpecImpl;
use crate::flow::Flow;
use crate::flow_store::{FlowId, FlowStore};
use crate::slot_map::SlotMap;
use crate::value::{InputNo, OutputNo, Type};
use crate::prim_element::PrimElement;

verus! {

/// The payload of an element node: a primitive, or another flow of the same
/// store, named by its identifier.
#[derive(Clone, Copy, Debug)]
pub enum Element {
    Flow(FlowId),
    Prim(PrimElement),
}

impl Element {
    /// Equality of elements: the same flow, or primitives of equal
    /// descriptors.
    pub open spec fn same(self, other: Element) -> bool {
        match (self, other) {
            (Element::Flow(a), Element::Flow(b)) => a == b,
            (Element::Prim(a), Element::Prim(b)) => a.same(b),
            _ => false,
        }
    }
}

impl Element {
    /// Whether `flows` has the flow that a nested element names.
    pub open spec fn resolvable(self, flows: Map<u64, Flow>) -> bool {
        self matches Element::Flow(f) ==> flows.contains_key(f.0)
    }

    /// The input slots with their types: those of the primitive, or the
    /// declared input slots of the nested flow, in ascending order.
    pub open spec fn input_list(self, flows: Map<u64, Flow>) -> Seq<(u32, Type)> {
        match self {
            Element::Flow(f) => flows[f.0].input_list(),
            Element::Prim(p) => p.input_list(),
        }
    }

    /// The output slots with their types, as [`Element::input_list`].
    pub open spec fn output_list(self, flows: Map<u64, Flow>) -> Seq<(u32, Type)> {
        match self {
            Element::Flow(f) => flows[f.0].output_list(),
            Element::Prim(p) => p.output_list(),
        }
    }

    pub fn input_types(&self, store: &FlowStore) -> (r: SlotMap<Type>)
        requires
            store.wf(),
            self.resolvable(store@),
        ensures
            r.wf(),
            r.entries() == self.input_list(store@),
    {
        match self {
            Element::Flow(flow) => store.get(*flow).unwrap().input_map(),
            Element::Prim(prim) => prim.input_types(),
        }
    }

    pub fn output_types(&self, store: &FlowStore) -> (r: SlotMap<Type>)
        requires
            store.wf(),
            self.resolvable(store@),
        ensures
            r.wf(),
            r.entries() == self.output_list(store@),
    {
        match self {
            Element::Flow(flow) => store.get(*flow).unwrap().output_map(),
            Element::Prim(prim) => prim.output_types(),
        }
    }

    /// The numbers of the input slots, in the order of
    /// [`Element::input_list`].
    pub fn input_nos(&self, store: &FlowStore) -> (r: Vec<InputNo>)
        requires
            store.wf(),
            self.resolvable(store@),
        ensures
            r@.len() == self.input_list(store@).len(),
            forall|i: int| 0 <= i < r@.len() ==> r@[i] == InputNo(self.input_list(store@)[i].0),
    {
        let types = self.input_types(store);
        let mut r: Vec<InputNo> = Vec::new();
        let mut i: usize = 0;
        while i < types.len()
            invariant
                types.wf(),
                i <= types.entries().len(),
                r@.len() == i,
                forall|j: int| 0 <= j < i ==> r@[j] == InputNo(types.entries()[j].0),
            decreases types.entries().len() - i,
        {
            r.push(InputNo(types.key_at(i)));
            i += 1;
        }
        r
    }

    /// The numbers of the output slots, in the order of
    /// [`Element::output_list`].
    pub fn output_nos(&self, store: &FlowStore) -> (r: Vec<OutputNo>)
        requires
            store.wf(),
            self.resolvable(store@),
        ensures
            r@.len() == self.output_list(store@).len(),
            forall|i: int| 0 <= i < r@.len() ==> r@[i] == OutputNo(self.output_list(store@)[i].0),
    {
        let types = self.output_types(store);
        let mut r: Vec<OutputNo> = Vec::new();
        let mut i: usize = 0;
        while i < types.len()
            invariant
                types.wf(),
                i <= types.entries().len(),
                r@.len() == i,
                forall|j: int| 0 <= j < i ==> r@[j] == OutputNo(types.entries()[j].0),
            decreases types.entries().len() - i,
        {
            r.push(OutputNo(types.key_at(i)));
            i += 1;
        }
        r
    }
}

impl PartialEq for Element {
    fn eq(&self, other: &Self) -> (r: bool) {
        match (self, other) {
            (Element::Flow(a), Element::Flow(b)) => a.0 == b.0,
            (Element::Prim(a), Element::Prim(b)) => *a == *b,
            _ => false,
        }
    }
}

impl PartialEqSpecImpl for Element {
    open spec fn obeys_eq_spec() -> bool {
        true
    }

    open spec fn eq_spec(&self, other: &Self) -> bool {
        self.same(*other)
    }
}

impl Eq for Element {}

} // verus!
