//! The pinned observer the engine queries for input: it records every
//! (absolute sample index, input state) pair handed out during stepping.

use vstd::prelude::*;

use crate::input::Input;

verus! {

/// Records the input value the engine reads at each sample it asks about.
///
/// The engine sees this object only through an opaque callback target, so
/// the caller that hands it out must keep it at a stable address for the
/// whole run; the library itself never moves it once the step driver owns
/// it. The accumulated list is meant to be read only after stepping has
/// fully stopped.
pub struct InputGetter {
    /// The input state reported for every query of the current step call.
    pub input: Input,
    /// Samples elapsed before the current engine call began.
    pub sample_count: u64,
    /// Every (absolute sample index, input) pair queried so far, in
    /// chronological order.
    pub input_samples: Vec<(u64, Input)>,
}

impl InputGetter {
    /// The record is in chronological (non-decreasing sample index) order.
    pub open spec fn wf(self) -> bool {
        forall|i: int, j: int|
            0 <= i <= j < self.input_samples@.len() ==> self.input_samples@[i].0
                <= self.input_samples@[j].0
    }

    /// A fresh recorder: neutral input, clock at zero, nothing recorded.
    pub fn new() -> (r: InputGetter)
        ensures
            r.input.bits == 0,
            r.sample_count == 0,
            r.input_samples@ == Seq::<(u64, Input)>::empty(),
            r.wf(),
    {
        let r = InputGetter { input: Input::empty(), sample_count: 0, input_samples: Vec::new() };
        proof {
            assert(r.input_samples@ =~= Seq::<(u64, Input)>::empty());
        }
        r
    }

    /// Set the input the engine will be shown until it is set again.
    pub fn set_input(&mut self, input: Input)
        ensures
            final (self).input == input,
            final (self).sample_count == old(self).sample_count,
            final (self).input_samples@ == old(self).input_samples@,
    {
        self.input = input;
    }

    /// Record one engine query at `sample_offset` samples into the current
    /// engine call and return the packed input bits the engine expects.
    ///
    /// The query joins the record at the absolute index
    /// `sample_count + sample_offset`; queries must arrive in
    /// chronological order.
    pub fn record_query(&mut self, sample_offset: u32) -> (r: u32)
        requires
            old(self).wf(),
            old(self).sample_count + sample_offset <= u64::MAX,
            old(self).input_samples@.len() > 0 ==> old(self).input_samples@.last().0 <= old(
                self,
            ).sample_count + sample_offset,
        ensures
            final (self).input == old(self).input,
            final (self).sample_count == old(self).sample_count,
            final (self).input_samples@ == old(self).input_samples@.push(
                ((old(self).sample_count + sample_offset) as u64, old(self).input),
            ),
            r == old(self).input.bits as u32,
            final (self).wf(),
    {
        let index: u64 = self.sample_count + sample_offset as u64;
        self.input_samples.push((index, self.input));
        self.input.bits() as u32
    }

    /// Advance the sample clock by the samples one engine call produced.
    pub fn advance_clock(&mut self, samples: u32)
        requires
            old(self).sample_count + samples <= u64::MAX,
        ensures
            final (self).input == old(self).input,
            final (self).sample_count == old(self).sample_count + samples,
            final (self).input_samples@ == old(self).input_samples@,
    {
        self.sample_count = self.sample_count + samples as u64;
    }

    /// A copy of every (sample index, input) pair recorded so far.
    pub fn get_input_samples(&self) -> (r: Vec<(u64, Input)>)
        ensures
            r@ == self.input_samples@,
    {
        let mut out: Vec<(u64, Input)> = Vec::new();
        let mut i: usize = 0;
        while i < self.input_samples.len()
            invariant
                0 <= i <= self.input_samples@.len(),
                out@ == self.input_samples@.subrange(0, i as int),
            decreases self.input_samples@.len() - i,
        {
            out.push(self.input_samples[i]);
            i = i + 1;
            proof {
                assert(out@ =~= self.input_samples@.subrange(0, i as int));
            }
        }
        proof {
            assert(out@ =~= self.input_samples@);
        }
        out
    }
}

} // verus!
