//! Primitives without state that combine two signals sample by sample.

use vstd::prelude::*;
use crate::buffer::{constant, contents, Buffer, Contents, Samples};
use crate::prim_element::Outcome;
use crate::slot_map::SlotMap;
use crate::value::{PrimType, F32};

verus! {

/// Whether `c` is a sampled signal of single-precision numbers.
pub open spec fn is_signal(c: Contents) -> bool {
    c.sampled_ty() == Some(PrimType::F32)
}

/// What a primitive of two operands decides: nothing without its output
/// slot 0; a fault where that output, or an operand of two that are both
/// connected, is no single-precision signal; the float unit's turn where
/// both operands are connected; else a cleared output.
pub open spec fn pointwise_outcome(output: Map<u32, Contents>, input: Map<u32, Contents>) -> Outcome {
    if !output.contains_key(0) {
        Outcome::Done
    } else if !is_signal(output[0]) {
        Outcome::Fault
    } else if input.contains_key(0) && input.contains_key(1) {
        if is_signal(input[0]) && is_signal(input[1]) {
            Outcome::Pending
        } else {
            Outcome::Fault
        }
    } else {
        Outcome::Done
    }
}

/// The outputs after that decision: on a fault as they were; else output 0
/// brought to `sz` samples and, where an operand is not connected, cleared.
pub open spec fn pointwise_output(output: Map<u32, Contents>, input: Map<u32, Contents>, sz: nat) -> Map<
    u32,
    Contents,
> {
    if !output.contains_key(0) {
        output
    } else {
        match pointwise_outcome(output, input) {
            Outcome::Fault => output,
            Outcome::Pending => output.insert(0, output[0].resized(sz)),
            Outcome::Done => output.insert(0, output[0].resized(sz).cleared()),
        }
    }
}

/// A cleared single-precision signal of `sz` samples is `sz` zeros.
pub proof fn lemma_cleared_signal(c: Contents, sz: nat)
    requires
        is_signal(c),
    ensures
        c.resized(sz).cleared() == Contents::Sampled(Samples::F32(constant(sz, F32(0)))),
        is_signal(c.resized(sz)),
{
    match c {
        Contents::Sampled(Samples::F32(s)) => {
            assert(constant(crate::buffer::resized(s, sz).len(), F32(0)) =~= constant(sz, F32(0)));
        },
        _ => {},
    }
}

fn pointwise(output: &mut SlotMap<Buffer>, input: &SlotMap<Buffer>, buffer_sz: usize) -> (r: Outcome)
    requires
        old(output).wf(),
        input.wf(),
    ensures
        final(output).wf(),
        final(output).keys() == old(output).keys(),
        r == pointwise_outcome(contents(old(output)@), contents(input@)),
        contents(final(output)@) == pointwise_output(
            contents(old(output)@),
            contents(input@),
            buffer_sz as nat,
        ),
{
    let both = input.contains_key(0) && input.contains_key(1);
    let operands = if both {
        input.get(0).unwrap().sampled_ty() == Some(PrimType::F32) && input.get(1).unwrap().sampled_ty()
            == Some(PrimType::F32)
    } else {
        true
    };
    let ghost before = output@;
    let r = match output.get_mut(0) {
        None => Outcome::Done,
        Some(y) => {
            if y.sampled_ty() != Some(PrimType::F32) {
                Outcome::Fault
            } else if both {
                if operands {
                    y.update_size(buffer_sz);
                    Outcome::Pending
                } else {
                    Outcome::Fault
                }
            } else {
                y.update_size(buffer_sz);
                y.clear();
                Outcome::Done
            }
        },
    };
    proof {
        assert(contents(output@) =~= pointwise_output(contents(before), contents(input@), buffer_sz as nat));
    }
    r
}

/// The product of two single-precision signals.
pub struct MultiplyF32;

impl MultiplyF32 {
    pub fn new() -> Self {
        MultiplyF32
    }

    /// Decides what is to be done for a block of `buffer_sz` samples and
    /// does what needs no rounding. Where it returns
    /// [`Outcome::Pending`], output 0 has `buffer_sz` samples and awaits the
    /// products of the samples of inputs 0 and 1.
    pub fn compute_outplace(
        &mut self,
        output: &mut SlotMap<Buffer>,
        input: &SlotMap<Buffer>,
        buffer_sz: usize,
    ) -> (r: Outcome)
        requires
            old(output).wf(),
            input.wf(),
        ensures
            final(output).wf(),
            final(output).keys() == old(output).keys(),
            r == pointwise_outcome(contents(old(output)@), contents(input@)),
            contents(final(output)@) == pointwise_output(
                contents(old(output)@),
                contents(input@),
                buffer_sz as nat,
            ),
    {
        pointwise(output, input, buffer_sz)
    }
}

/// The sum of two single-precision signals.
pub struct AddF32;

impl AddF32 {
    pub fn new() -> Self {
        AddF32
    }

    /// As [`MultiplyF32::compute_outplace`], with sums for products.
    pub fn compute_outplace(
        &mut self,
        output: &mut SlotMap<Buffer>,
        input: &SlotMap<Buffer>,
        buffer_sz: usize,
    ) -> (r: Outcome)
        requires
            old(output).wf(),
            input.wf(),
        ensures
            final(output).wf(),
            final(output).keys() == old(output).keys(),
            r == pointwise_outcome(contents(old(output)@), contents(input@)),
            contents(final(output)@) == pointwise_output(
                contents(old(output)@),
                contents(input@),
                buffer_sz as nat,
            ),
    {
        pointwise(output, input, buffer_sz)
    }
}

/// A primitive of two operands with only one of them connected gives a
/// signal of zeros, as long as the block, whatever its output held.
pub proof fn lemma_unconnected_operand_clears(
    output: Map<u32, Contents>,
    input: Map<u32, Contents>,
    sz: nat,
)
    requires
        output.contains_key(0),
        is_signal(output[0]),
        !input.contains_key(0) || !input.contains_key(1),
    ensures
        pointwise_outcome(output, input) == Outcome::Done,
        pointwise_output(output, input, sz)[0] == Contents::Sampled(
            Samples::F32(constant(sz, F32(0))),
        ),
{
    lemma_cleared_signal(output[0], sz);
}

} // verus!
