//! The step driver: normalizes the engine's variable-length run calls into
//! a consistent per-logical-frame cadence.
//!
//! The engine itself lives behind an opaque native handle that this
//! library never touches; the caller runs the engine and feeds every run
//! result back into this state machine, which decides how many samples to
//! request next and when a logical frame is complete.

use vstd::prelude::*;

use crate::input::Input;
use crate::recorder::InputGetter;

verus! {

/// The nominal sample count of one logical frame.
pub const SAMPLES_PER_FRAME: u32 = 35112;

/// How many extra logical frames of neutral input a run appends after the
/// recorded sequence ends, to flush trailing engine queries.
pub const FLUSH_FRAMES: u32 = 1000;

/// The cadence policy, fixed at construction.
#[derive(Clone, Copy, PartialEq, Eq, Structural)]
pub enum Cadence {
    /// Accept the engine's own frame boundary: one run call per logical
    /// frame, no overflow carried.
    Legacy,
    /// Keep running until a full nominal frame of samples has elapsed,
    /// carrying the remainder into the next logical frame.
    Exact,
}

/// Where the driver stands inside the current logical frame.
#[derive(Clone, Copy, PartialEq, Eq, Structural)]
pub enum StepPhase {
    /// A frame is underway: run results are still being accumulated.
    AccumulatingOverflow,
    /// The current frame is finished; the next step may begin.
    FrameComplete,
}

/// Drives the engine one logical frame per step and owns the sample clock.
pub struct StepDriver {
    /// The cadence policy chosen at construction.
    pub cadence: Cadence,
    /// The state of the current logical frame.
    pub phase: StepPhase,
    /// Samples run beyond the start of the current nominal frame.
    pub overflow_samples: u32,
    /// Completed logical frames.
    pub frame: u64,
    /// The pinned recorder the engine queries during run calls.
    pub input_getter: InputGetter,
}

impl StepDriver {
    /// The driver's invariant: the recorder is chronological, the carried
    /// overflow stays below one nominal frame, legacy cadence never
    /// carries, and under exact cadence the sample clock always equals
    /// whole frames plus the carried overflow.
    pub open spec fn wf(self) -> bool {
        &&& self.input_getter.wf()
        &&& self.overflow_samples < SAMPLES_PER_FRAME
        &&& (self.cadence is Legacy ==> self.overflow_samples == 0)
        &&& (self.cadence is Exact ==> self.input_getter.sample_count == self.frame
            * SAMPLES_PER_FRAME + self.overflow_samples)
    }

    /// A fresh driver with the chosen cadence and a fresh recorder.
    pub fn new(equal_length_frames: bool) -> (r: StepDriver)
        ensures
            r.wf(),
            r.cadence == (if equal_length_frames {
                Cadence::Exact
            } else {
                Cadence::Legacy
            }),
            r.phase is FrameComplete,
            r.overflow_samples == 0,
            r.frame == 0,
            r.input_getter.input.bits == 0,
            r.input_getter.sample_count == 0,
            r.input_getter.input_samples@ == Seq::<(u64, Input)>::empty(),
    {
        StepDriver {
            cadence: if equal_length_frames {
                Cadence::Exact
            } else {
                Cadence::Legacy
            },
            phase: StepPhase::FrameComplete,
            overflow_samples: 0,
            frame: 0,
            input_getter: InputGetter::new(),
        }
    }

    /// Begin one logical frame: the engine will be shown `input` for every
    /// query until the frame completes.
    pub fn begin_step(&mut self, input: Input)
        requires
            old(self).wf(),
            old(self).phase is FrameComplete,
        ensures
            final (self).wf(),
            final (self).phase is AccumulatingOverflow,
            final (self).cadence == old(self).cadence,
            final (self).overflow_samples == old(self).overflow_samples,
            final (self).frame == old(self).frame,
            final (self).input_getter.input == input,
            final (self).input_getter.sample_count == old(self).input_getter.sample_count,
            final (self).input_getter.input_samples@ == old(self).input_getter.input_samples@,
    {
        self.input_getter.set_input(input);
        self.phase = StepPhase::AccumulatingOverflow;
    }

    /// How many samples to request from the engine's next run call:
    /// whatever is left of the current nominal frame.
    pub fn request_samples(&self) -> (r: u32)
        requires
            self.wf(),
        ensures
            r == SAMPLES_PER_FRAME - self.overflow_samples,
            0 < r <= SAMPLES_PER_FRAME,
    {
        SAMPLES_PER_FRAME - self.overflow_samples
    }

    /// Fold one engine run result into the frame: the engine produced
    /// `emusamples` samples (it may stop short of the request at its own
    /// internal frame boundary, or overshoot by less than the shortfall of
    /// a whole further frame). Advances the sample clock, then either
    /// completes the logical frame or keeps accumulating, per the cadence.
    pub fn apply_run(&mut self, emusamples: u32)
        requires
            old(self).wf(),
            old(self).phase is AccumulatingOverflow,
            old(self).input_getter.sample_count + emusamples <= u64::MAX,
            old(self).overflow_samples + emusamples < 2 * SAMPLES_PER_FRAME,
            old(self).frame < u64::MAX,
        ensures
            final (self).wf(),
            final (self).cadence == old(self).cadence,
            final (self).input_getter.input == old(self).input_getter.input,
            final (self).input_getter.input_samples@ == old(self).input_getter.input_samples@,
            final (self).input_getter.sample_count == old(self).input_getter.sample_count
                + emusamples,
            old(self).cadence is Legacy ==> {
                &&& final (self).phase is FrameComplete
                &&& final (self).overflow_samples == 0
                &&& final (self).frame == old(self).frame + 1
            },
            old(self).cadence is Exact && old(self).overflow_samples + emusamples
                >= SAMPLES_PER_FRAME ==> {
                &&& final (self).phase is FrameComplete
                &&& final (self).overflow_samples == old(self).overflow_samples + emusamples
                    - SAMPLES_PER_FRAME
                &&& final (self).frame == old(self).frame + 1
            },
            old(self).cadence is Exact && old(self).overflow_samples + emusamples
                < SAMPLES_PER_FRAME ==> {
                &&& final (self).phase is AccumulatingOverflow
                &&& final (self).overflow_samples == old(self).overflow_samples + emusamples
                &&& final (self).frame == old(self).frame
            },
    {
        self.overflow_samples = self.overflow_samples + emusamples;
        self.input_getter.advance_clock(emusamples);
        match self.cadence {
            Cadence::Legacy => {
                self.overflow_samples = 0;
                self.frame = self.frame + 1;
                self.phase = StepPhase::FrameComplete;
            },
            Cadence::Exact => {
                if self.overflow_samples >= SAMPLES_PER_FRAME {
                    self.overflow_samples = self.overflow_samples - SAMPLES_PER_FRAME;
                    self.frame = self.frame + 1;
                    self.phase = StepPhase::FrameComplete;
                }
            },
        }
    }

    /// Whether the current logical frame is complete.
    pub fn frame_complete(&self) -> (r: bool)
        ensures
            r == (self.phase is FrameComplete),
    {
        match self.phase {
            StepPhase::FrameComplete => true,
            StepPhase::AccumulatingOverflow => false,
        }
    }

    /// A copy of every (sample index, input) pair recorded so far.
    pub fn get_input_samples(&self) -> (r: Vec<(u64, Input)>)
        ensures
            r@ == self.input_getter.input_samples@,
    {
        self.input_getter.get_input_samples()
    }
}

/// Under exact cadence the carried overflow always stays below one nominal
/// frame, and the cumulative sample count differs from
/// `frame * SAMPLES_PER_FRAME` by exactly that overflow — i.e. it is within
/// one frame's tolerance of whole frames.
pub proof fn lemma_exact_cadence_bounds(d: StepDriver)
    requires
        d.wf(),
        d.cadence is Exact,
    ensures
        0 <= d.overflow_samples < SAMPLES_PER_FRAME,
        d.input_getter.sample_count == d.frame * SAMPLES_PER_FRAME + d.overflow_samples,
{
}

/// Under legacy cadence the overflow is zero after every step (and indeed
/// at every point the driver is observable).
pub proof fn lemma_legacy_no_overflow(d: StepDriver)
    requires
        d.wf(),
        d.cadence is Legacy,
    ensures
        d.overflow_samples == 0,
{
}

} // verus!
