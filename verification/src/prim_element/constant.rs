//! A source that gives one value for ever.

use vstd::prelude::*;
use crate::buffer::{contents, Buffer, Contents};
use crate::prim_element::Outcome;
use crate::slot_map::SlotMap;
use crate::value::Value;

verus! {

/// The state of a constant source: its value.
pub struct Constant {
    value: Value,
}

/// What a constant source decides: nothing without its output slot 0; a
/// fault where that output is no sampled signal of the value's kind; else a
/// filled output.
pub open spec fn constant_outcome(value: Value, output: Map<u32, Contents>) -> Outcome {
    if output.contains_key(0) && output[0].sampled_ty() != Some(value.kind()) {
        Outcome::Fault
    } else {
        Outcome::Done
    }
}

/// The outputs after that decision: on a fault as they were; else output 0
/// brought to `sz` samples, each of them `value`.
pub open spec fn constant_output(value: Value, output: Map<u32, Contents>, sz: nat) -> Map<
    u32,
    Contents,
> {
    if output.contains_key(0) && output[0].sampled_ty() == Some(value.kind()) {
        output.insert(0, output[0].resized(sz).filled(value))
    } else {
        output
    }
}

impl Constant {
    /// The value that the source gives.
    pub closed spec fn value(&self) -> Value {
        self.value
    }

    pub fn new(value: Value) -> (r: Self)
        ensures
            r.value() == value,
    {
        Self { value }
    }

    /// Fills output 0 with `buffer_sz` samples of the value. The inputs are
    /// not looked at.
    pub fn compute_outplace(
        &mut self,
        output: &mut SlotMap<Buffer>,
        input: &SlotMap<Buffer>,
        buffer_sz: usize,
    ) -> (r: Outcome)
        requires
            old(output).wf(),
        ensures
            final(output).wf(),
            final(output).keys() == old(output).keys(),
            *final(self) == *old(self),
            r == constant_outcome(old(self).value(), contents(old(output)@)),
            contents(final(output)@) == constant_output(
                old(self).value(),
                contents(old(output)@),
                buffer_sz as nat,
            ),
    {
        let ghost before = output@;
        let value = self.value;
        let r = match output.get_mut(0) {
            None => Outcome::Done,
            Some(y) => {
                if y.sampled_ty() != Some(value.Type()) {
                    Outcome::Fault
                } else {
                    y.update_size(buffer_sz);
                    y.fill(value);
                    Outcome::Done
                }
            },
        };
        proof {
            assert(contents(output@) =~= constant_output(value, contents(before), buffer_sz as nat));
        }
        r
    }
}

} // verus!
