//! The leaf algorithms of a flow: what they are, which slots they have, and
//! the state that each keeps from block to block.

pub mod constant;
pub mod pure;
pub mod sine_osc;

use vstd::prelude::*;
use vstd::std_specs::cmp::PartialEqSpecImpl;
use crate::buffer::{contents, Buffer, Contents};
use crate::prim_element::constant::{constant_outcome, constant_output, Constant};
use crate::prim_element::sine_osc::{sine_outcome, sine_output, SineOscF32};
use crate::slot_map::SlotMap;
use crate::value::{PrimType, Type, Value};

verus! {

/// How far a step of the evaluation got.
#[derive(Clone, Copy, PartialEq, Eq, Structural, Debug)]
pub enum Outcome {
    /// All of it is done.
    Done,
    /// What needs no rounding is done; the rest is the float unit's.
    Pending,
    /// A buffer is not of the kind that its connection promises. Nothing was
    /// changed.
    Fault,
}

/// What a primitive is, apart from its running state. Nodes whose
/// descriptors are equal share one state.
#[derive(Clone, Copy, Debug)]
pub enum PrimElement {
    SineOscF32 { f_nyq: u64 },
    Constant { value: Value, f_nyq: u64 },
}

impl PrimElement {
    /// Equality of descriptors: the same algorithm with equal parameters,
    /// scalars compared as [`Value::same`] has it.
    pub open spec fn same(self, other: PrimElement) -> bool {
        match (self, other) {
            (PrimElement::SineOscF32 { f_nyq: a }, PrimElement::SineOscF32 { f_nyq: b }) => a == b,
            (
                PrimElement::Constant { value: v, f_nyq: a },
                PrimElement::Constant { value: w, f_nyq: b },
            ) => v.same(w) && a == b,
            _ => false,
        }
    }
}

impl PrimElement {
    /// The input slots with their types: a sine oscillator takes its
    /// frequency on slot 0, a constant takes nothing.
    pub open spec fn input_list(self) -> Seq<(u32, Type)> {
        match self {
            PrimElement::SineOscF32 { f_nyq } => seq![(0u32, Type::Sampled { ty: PrimType::F32, f_nyq })],
            PrimElement::Constant { .. } => Seq::empty(),
        }
    }

    /// The output slots with their types: both kinds give their signal on
    /// slot 0, a constant in the kind of its value.
    pub open spec fn output_list(self) -> Seq<(u32, Type)> {
        match self {
            PrimElement::SineOscF32 { f_nyq } => seq![(0u32, Type::Sampled { ty: PrimType::F32, f_nyq })],
            PrimElement::Constant { value, f_nyq } => seq![
                (0u32, Type::Sampled { ty: value.kind(), f_nyq }),
            ],
        }
    }

    pub fn input_types(&self) -> (r: SlotMap<Type>)
        ensures
            r.wf(),
            r.entries() == self.input_list(),
    {
        let mut r = SlotMap::new();
        match *self {
            PrimElement::SineOscF32 { f_nyq } => {
                r.insert(0, Type::Sampled { ty: PrimType::F32, f_nyq });
                assert(r.entries() =~= self.input_list());
            },
            PrimElement::Constant { .. } => {},
        }
        r
    }

    pub fn output_types(&self) -> (r: SlotMap<Type>)
        ensures
            r.wf(),
            r.entries() == self.output_list(),
    {
        let mut r = SlotMap::new();
        match *self {
            PrimElement::SineOscF32 { f_nyq } => {
                r.insert(0, Type::Sampled { ty: PrimType::F32, f_nyq });
            },
            PrimElement::Constant { value, f_nyq } => {
                r.insert(0, Type::Sampled { ty: value.Type(), f_nyq });
            },
        }
        assert(r.entries() =~= self.output_list());
        r
    }
}

/// Equality of descriptors is an equivalence relation.
pub proof fn lemma_same_descriptor(a: PrimElement, b: PrimElement, c: PrimElement)
    ensures
        a.same(a),
        a.same(b) ==> b.same(a),
        a.same(b) && b.same(c) ==> a.same(c),
{
}

impl PartialEq for PrimElement {
    fn eq(&self, other: &Self) -> (r: bool) {
        match (self, other) {
            (PrimElement::SineOscF32 { f_nyq: a }, PrimElement::SineOscF32 { f_nyq: b }) => *a == *b,
            (
                PrimElement::Constant { value: v, f_nyq: a },
                PrimElement::Constant { value: w, f_nyq: b },
            ) => *v == *w && *a == *b,
            _ => false,
        }
    }
}

impl PartialEqSpecImpl for PrimElement {
    open spec fn obeys_eq_spec() -> bool {
        true
    }

    open spec fn eq_spec(&self, other: &Self) -> bool {
        self.same(*other)
    }
}

impl Eq for PrimElement {}

/// The running state of a primitive.
pub enum PrimProcessor {
    SineOscF32(SineOscF32),
    Constant(Constant),
}

impl PrimProcessor {
    /// Whether this is a state of a primitive of descriptor `prim`: an
    /// oscillator of its sample rate, or a constant of an equal value.
    pub open spec fn serves(&self, prim: PrimElement) -> bool {
        match (self, prim) {
            (PrimProcessor::SineOscF32(osc), PrimElement::SineOscF32 { f_nyq }) => osc.rate() == 2 * f_nyq,
            (PrimProcessor::Constant(c), PrimElement::Constant { value, .. }) => c.value().same(value),
            _ => false,
        }
    }

    /// What the primitive decides for given outputs and inputs.
    pub open spec fn outcome(&self, output: Map<u32, Contents>, input: Map<u32, Contents>) -> Outcome {
        match self {
            PrimProcessor::SineOscF32(_) => sine_outcome(output, input),
            PrimProcessor::Constant(c) => constant_outcome(c.value(), output),
        }
    }

    /// The outputs after that decision.
    pub open spec fn output(&self, output: Map<u32, Contents>, input: Map<u32, Contents>, sz: nat) -> Map<
        u32,
        Contents,
    > {
        match self {
            PrimProcessor::SineOscF32(_) => sine_output(output, input, sz),
            PrimProcessor::Constant(c) => constant_output(c.value(), output, sz),
        }
    }

    /// Evaluates one block of `buffer_sz` samples as far as it goes without
    /// rounding arithmetic.
    pub fn compute_outplace(
        &mut self,
        output: &mut SlotMap<Buffer>,
        input: &SlotMap<Buffer>,
        buffer_sz: usize,
    ) -> (r: Outcome)
        requires
            old(output).wf(),
            input.wf(),
        ensures
            final(output).wf(),
            final(output).keys() == old(output).keys(),
            *final(self) == *old(self),
            r == old(self).outcome(contents(old(output)@), contents(input@)),
            contents(final(output)@) == old(self).output(
                contents(old(output)@),
                contents(input@),
                buffer_sz as nat,
            ),
    {
        match self {
            PrimProcessor::SineOscF32(osc) => osc.compute_outplace(output, input, buffer_sz),
            PrimProcessor::Constant(c) => c.compute_outplace(output, input, buffer_sz),
        }
    }
}

/// Whether a state can be made for `prim`: the sample rate of an oscillator,
/// twice its Nyquist frequency, has to fit the machine word.
pub open spec fn can_make(prim: PrimElement) -> bool {
    prim matches PrimElement::SineOscF32 { f_nyq } ==> f_nyq <= u64::MAX / 2
}

/// The state in which a primitive of descriptor `prim` begins.
pub fn mk_prim_element_processor(prim_element_id: PrimElement) -> (r: PrimProcessor)
    requires
        can_make(prim_element_id),
    ensures
        r.serves(prim_element_id),
        r matches PrimProcessor::SineOscF32(osc) ==> osc.phase() == crate::value::F32(0),
{
    match prim_element_id {
        PrimElement::SineOscF32 { f_nyq } => PrimProcessor::SineOscF32(SineOscF32::new(f_nyq)),
        PrimElement::Constant { value, .. } => {
            proof {
                crate::value::lemma_same_value(value, value, value);
            }
            PrimProcessor::Constant(Constant::new(value))
        },
    }
}

} // verus!
