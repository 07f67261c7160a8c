//! A sine oscillator: the part of it that needs no rounding arithmetic.

use vstd::prelude::*;
use crate::buffer::{contents, Buffer, Contents};
use crate::prim_element::pure::is_signal;
use crate::prim_element::Outcome;
use crate::slot_map::SlotMap;
use crate::value::{PrimType, F32};

verus! {

/// The state of a sine oscillator: the phase it has run up to, in turns, and
/// its sample rate.
pub struct SineOscF32 {
    current_phase: F32,
    fs: u64,
}

/// What a sine oscillator decides: nothing without its output slot 0; a
/// fault where that output, or a connected frequency input, is no
/// single-precision signal; the float unit's turn where the frequency is
/// connected; else a cleared output.
pub open spec fn sine_outcome(output: Map<u32, Contents>, input: Map<u32, Contents>) -> Outcome {
    if !output.contains_key(0) {
        Outcome::Done
    } else if !is_signal(output[0]) {
        Outcome::Fault
    } else if input.contains_key(0) {
        if is_signal(input[0]) {
            Outcome::Pending
        } else {
            Outcome::Fault
        }
    } else {
        Outcome::Done
    }
}

/// The outputs after that decision: on a fault as they were; else output 0
/// brought to `sz` samples and, where the frequency is not connected,
/// cleared.
pub open spec fn sine_output(output: Map<u32, Contents>, input: Map<u32, Contents>, sz: nat) -> Map<
    u32,
    Contents,
> {
    if !output.contains_key(0) {
        output
    } else {
        match sine_outcome(output, input) {
            Outcome::Fault => output,
            Outcome::Pending => output.insert(0, output[0].resized(sz)),
            Outcome::Done => output.insert(0, output[0].resized(sz).cleared()),
        }
    }
}

impl SineOscF32 {
    /// The phase run up to, in turns.
    pub closed spec fn phase(&self) -> F32 {
        self.current_phase
    }

    /// The sample rate: twice the Nyquist frequency.
    pub closed spec fn rate(&self) -> u64 {
        self.fs
    }

    /// An oscillator at phase zero for signals of Nyquist frequency `f_nyq`.
    pub fn new(f_nyq: u64) -> (r: Self)
        requires
            f_nyq <= u64::MAX / 2,
        ensures
            r.phase() == F32(0),
            r.rate() == 2 * f_nyq,
    {
        Self { current_phase: F32(0), fs: f_nyq * 2 }
    }

    pub fn current_phase(&self) -> (r: F32)
        ensures
            r == self.phase(),
    {
        self.current_phase
    }

    pub fn sample_rate(&self) -> (r: u64)
        ensures
            r == self.rate(),
    {
        self.fs
    }

    /// Takes the phase that the float unit has run up to at the end of a
    /// block.
    pub fn set_phase(&mut self, phase: F32)
        ensures
            final(self).phase() == phase,
            final(self).rate() == old(self).rate(),
    {
        self.current_phase = phase;
    }

    /// Decides what is to be done for a block of `buffer_sz` samples and
    /// does what needs no rounding. Where it returns
    /// [`Outcome::Pending`], output 0 has `buffer_sz` samples and awaits the
    /// sines: for each sample of input 0 the phase goes on by that frequency
    /// over the sample rate, and the output is the sine of the phase in
    /// turns. The phase itself is left for the float unit to set.
    pub fn compute_outplace(
        &mut self,
        output: &mut SlotMap<Buffer>,
        input: &SlotMap<Buffer>,
        buffer_sz: usize,
    ) -> (r: Outcome)
        requires
            old(output).wf(),
            input.wf(),
        ensures
            final(output).wf(),
            final(output).keys() == old(output).keys(),
            *final(self) == *old(self),
            r == sine_outcome(contents(old(output)@), contents(input@)),
            contents(final(output)@) == sine_output(
                contents(old(output)@),
                contents(input@),
                buffer_sz as nat,
            ),
    {
        let driven = input.contains_key(0);
        let frequency = if driven {
            input.get(0).unwrap().sampled_ty() == Some(PrimType::F32)
        } else {
            true
        };
        let ghost before = output@;
        let r = match output.get_mut(0) {
            None => Outcome::Done,
            Some(y) => {
                if y.sampled_ty() != Some(PrimType::F32) {
                    Outcome::Fault
                } else if driven {
                    if frequency {
                        y.update_size(buffer_sz);
                        Outcome::Pending
                    } else {
                        Outcome::Fault
                    }
                } else {
                    y.update_size(buffer_sz);
                    y.clear();
                    Outcome::Done
                }
            },
        };
        proof {
            assert(contents(output@) =~= sine_output(contents(before), contents(input@), buffer_sz as nat));
        }
        r
    }
}

} // verus!
