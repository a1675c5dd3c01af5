//! The closed set of module kinds the verified engine can evaluate.
//!
//! Every module has a fixed input/output/knob arity and a `step` operation
//! that consumes exactly `inputs()` samples and returns exactly `outputs()`
//! samples per tick. A NaN input means "no patch feeds this port, or its
//! source has not produced a value yet this tick"; each kind decides how to
//! interpret it. Kinds with real-time audio ports buffer stereo frames for
//! the audio pipeline instead of touching a device themselves.
//!
//! Contracts are stated over [`ModuleV`], the mathematical image of a
//! module, in which audio buffers are sequences.

use vstd::prelude::*;

use crate::sample::{Frame, Sample, NAN_BITS};
use crate::timebase::StepType;

verus! {

/// One signal-processing module.
#[derive(Clone, Debug)]
pub enum Module {
    /// No inputs, one output: always produces `value`.
    Constant { value: Sample },
    /// One input, one output: repeats its input, NaN included.
    PassThrough,
    /// One input, one output: repeats its input, with `value` in place of
    /// NaN.
    Fallback { value: Sample },
    /// No inputs, one output, one knob: produces the knob's current value.
    Control { value: Sample },
    /// Two inputs (left, right), no outputs: buffers one stereo frame per
    /// Key or Audio step; an unpatched right channel doubles the left.
    AudioOut { buffer: Vec<Frame> },
    /// No inputs, one output: replays captured samples queued by the audio
    /// pipeline, one per step, NaN when the queue is dry.
    AudioIn { queue: Vec<Sample> },
}

/// The mathematical image of a [`Module`]: the same kinds, with buffers as
/// sequences.
#[verifier::ext_equal]
pub enum ModuleV {
    Constant { value: Sample },
    PassThrough,
    Fallback { value: Sample },
    Control { value: Sample },
    AudioOut { buffer: Seq<Frame> },
    AudioIn { queue: Seq<Sample> },
}

impl View for Module {
    type V = ModuleV;

    open spec fn view(&self) -> ModuleV {
        match self {
            Module::Constant { value } => ModuleV::Constant { value: *value },
            Module::PassThrough => ModuleV::PassThrough,
            Module::Fallback { value } => ModuleV::Fallback { value: *value },
            Module::Control { value } => ModuleV::Control { value: *value },
            Module::AudioOut { buffer } => ModuleV::AudioOut { buffer: buffer@ },
            Module::AudioIn { queue } => ModuleV::AudioIn { queue: queue@ },
        }
    }
}

impl ModuleV {
    /// Number of input ports, fixed for the module's lifetime.
    pub open spec fn spec_inputs(self) -> usize {
        match self {
            ModuleV::Constant { .. } => 0,
            ModuleV::PassThrough => 1,
            ModuleV::Fallback { .. } => 1,
            ModuleV::Control { .. } => 0,
            ModuleV::AudioOut { .. } => 2,
            ModuleV::AudioIn { .. } => 0,
        }
    }

    /// Number of output ports, fixed for the module's lifetime.
    pub open spec fn spec_outputs(self) -> usize {
        match self {
            ModuleV::Constant { .. } => 1,
            ModuleV::PassThrough => 1,
            ModuleV::Fallback { .. } => 1,
            ModuleV::Control { .. } => 1,
            ModuleV::AudioOut { .. } => 0,
            ModuleV::AudioIn { .. } => 1,
        }
    }

    /// Number of knobs, fixed for the module's lifetime.
    pub open spec fn spec_knobs(self) -> usize {
        match self {
            ModuleV::Control { .. } => 1,
            _ => 0,
        }
    }

    /// The module after knob `i` is set to `v`.
    pub open spec fn spec_set_knob(self, i: int, v: Sample) -> ModuleV {
        match self {
            ModuleV::Control { .. } => if i == 0 {
                ModuleV::Control { value: v }
            } else {
                self
            },
            _ => self,
        }
    }

    /// The knob values, one per knob.
    pub open spec fn spec_get_knobs(self) -> Seq<Sample> {
        match self {
            ModuleV::Control { value } => seq![value],
            _ => Seq::empty(),
        }
    }

    /// The module state after one step at rate `st` with inputs `ins`.
    pub open spec fn spec_stepped(self, st: StepType, ins: Seq<Sample>) -> ModuleV {
        match self {
            ModuleV::AudioOut { buffer } => if st is Video {
                self
            } else {
                ModuleV::AudioOut {
                    buffer: buffer.push(
                        Frame {
                            left: ins[0],
                            right: if ins[1].spec_is_nan() {
                                ins[0]
                            } else {
                                ins[1]
                            },
                        },
                    ),
                }
            },
            ModuleV::AudioIn { queue } => if queue.len() > 0 {
                ModuleV::AudioIn { queue: queue.drop_first() }
            } else {
                self
            },
            _ => self,
        }
    }

    /// The samples one step returns, exactly one per output port.
    pub open spec fn spec_step_out(self, st: StepType, ins: Seq<Sample>) -> Seq<Sample> {
        match self {
            ModuleV::Constant { value } => seq![value],
            ModuleV::PassThrough => seq![ins[0]],
            ModuleV::Fallback { value } => seq![
                if ins[0].spec_is_nan() {
                    value
                } else {
                    ins[0]
                },
            ],
            ModuleV::Control { value } => seq![value],
            ModuleV::AudioOut { .. } => Seq::empty(),
            ModuleV::AudioIn { queue } => seq![
                if queue.len() > 0 {
                    queue[0]
                } else {
                    Sample { bits: NAN_BITS }
                },
            ],
        }
    }

    /// The module state after its audio buffer is drained.
    pub open spec fn spec_drained(self) -> ModuleV {
        match self {
            ModuleV::AudioOut { .. } => ModuleV::AudioOut { buffer: Seq::empty() },
            _ => self,
        }
    }

    /// The stereo frames draining hands to the audio pipeline.
    pub open spec fn spec_drain_frames(self) -> Seq<Frame> {
        match self {
            ModuleV::AudioOut { buffer } => buffer,
            _ => Seq::empty(),
        }
    }

    /// The module state after captured samples `ai` are appended.
    pub open spec fn spec_extended(self, ai: Seq<Sample>) -> ModuleV {
        match self {
            ModuleV::AudioIn { queue } => ModuleV::AudioIn { queue: queue + ai },
            _ => self,
        }
    }

    /// The module state after its exit hook: buffers forgotten, parameters
    /// kept.
    pub open spec fn spec_exited(self) -> ModuleV {
        match self {
            ModuleV::AudioOut { .. } => ModuleV::AudioOut { buffer: Seq::empty() },
            ModuleV::AudioIn { .. } => ModuleV::AudioIn { queue: Seq::empty() },
            _ => self,
        }
    }

    /// Stepping, knob changes, draining, appending input and the exit hook
    /// never change a module's arity.
    pub proof fn lemma_arity_stable(self, st: StepType, ins: Seq<Sample>, i: int, v: Sample, ai: Seq<Sample>)
        ensures
            self.spec_stepped(st, ins).spec_inputs() == self.spec_inputs(),
            self.spec_stepped(st, ins).spec_outputs() == self.spec_outputs(),
            self.spec_stepped(st, ins).spec_knobs() == self.spec_knobs(),
            self.spec_set_knob(i, v).spec_inputs() == self.spec_inputs(),
            self.spec_set_knob(i, v).spec_outputs() == self.spec_outputs(),
            self.spec_set_knob(i, v).spec_knobs() == self.spec_knobs(),
            self.spec_drained().spec_inputs() == self.spec_inputs(),
            self.spec_drained().spec_outputs() == self.spec_outputs(),
            self.spec_drained().spec_knobs() == self.spec_knobs(),
            self.spec_extended(ai).spec_inputs() == self.spec_inputs(),
            self.spec_extended(ai).spec_outputs() == self.spec_outputs(),
            self.spec_extended(ai).spec_knobs() == self.spec_knobs(),
            self.spec_exited().spec_inputs() == self.spec_inputs(),
            self.spec_exited().spec_outputs() == self.spec_outputs(),
            self.spec_exited().spec_knobs() == self.spec_knobs(),
    {
    }
}

impl Module {
    /// Number of input ports.
    pub fn inputs(&self) -> (n: usize)
        ensures
            n == self@.spec_inputs(),
    {
        match self {
            Module::Constant { .. } => 0,
            Module::PassThrough => 1,
            Module::Fallback { .. } => 1,
            Module::Control { .. } => 0,
            Module::AudioOut { .. } => 2,
            Module::AudioIn { .. } => 0,
        }
    }

    /// Number of output ports.
    pub fn outputs(&self) -> (n: usize)
        ensures
            n == self@.spec_outputs(),
    {
        match self {
            Module::Constant { .. } => 1,
            Module::PassThrough => 1,
            Module::Fallback { .. } => 1,
            Module::Control { .. } => 1,
            Module::AudioOut { .. } => 0,
            Module::AudioIn { .. } => 1,
        }
    }

    /// Number of knobs.
    pub fn knobs(&self) -> (n: usize)
        ensures
            n == self@.spec_knobs(),
    {
        match self {
            Module::Control { .. } => 1,
            _ => 0,
        }
    }

    /// Evaluate the module once for tick time `time` at rate `st`.
    pub fn step(&mut self, _time: u64, st: StepType, ins: &Vec<Sample>) -> (louts: Vec<Sample>)
        requires
            ins@.len() == old(self)@.spec_inputs(),
        ensures
            final(self)@ =~= old(self)@.spec_stepped(st, ins@),
            louts@ =~= old(self)@.spec_step_out(st, ins@),
            louts@.len() == old(self)@.spec_outputs(),
    {
        match self {
            Module::Constant { value } => {
                let mut louts: Vec<Sample> = Vec::new();
                louts.push(*value);
                louts
            },
            Module::PassThrough => {
                let mut louts: Vec<Sample> = Vec::new();
                louts.push(ins[0]);
                louts
            },
            Module::Fallback { value } => {
                let mut louts: Vec<Sample> = Vec::new();
                if ins[0].is_nan() {
                    louts.push(*value);
                } else {
                    louts.push(ins[0]);
                }
                louts
            },
            Module::Control { value } => {
                let mut louts: Vec<Sample> = Vec::new();
                louts.push(*value);
                louts
            },
            Module::AudioOut { buffer } => {
                if !matches!(st, StepType::Video) {
                    let left = ins[0];
                    let right = if ins[1].is_nan() {
                        ins[0]
                    } else {
                        ins[1]
                    };
                    buffer.push(Frame { left, right });
                }
                Vec::new()
            },
            Module::AudioIn { queue } => {
                let mut louts: Vec<Sample> = Vec::new();
                if queue.len() > 0 {
                    let v = queue.remove(0);
                    proof {
                        assert(old(self)@->AudioIn_queue.remove(0) =~= old(
                            self,
                        )@->AudioIn_queue.drop_first());
                    }
                    louts.push(v);
                } else {
                    louts.push(Sample::nan());
                }
                louts
            },
        }
    }

    /// Set knob `i` to `v`.
    pub fn set_knob(&mut self, i: usize, v: Sample)
        requires
            i < old(self)@.spec_knobs(),
        ensures
            final(self)@ =~= old(self)@.spec_set_knob(i as int, v),
    {
        match self {
            Module::Control { value } => {
                *value = v;
            },
            _ => {
            },
        }
    }

    /// The knob values, one per knob.
    pub fn get_knobs(&self) -> (ks: Vec<Sample>)
        ensures
            ks@ =~= self@.spec_get_knobs(),
    {
        match self {
            Module::Control { value } => {
                let mut ks: Vec<Sample> = Vec::new();
                ks.push(*value);
                ks
            },
            _ => Vec::new(),
        }
    }

    /// Hand the buffered stereo frames to the pipeline and forget them.
    pub fn drain_audio_buffer(&mut self) -> (frames: Vec<Frame>)
        ensures
            final(self)@ =~= old(self)@.spec_drained(),
            frames@ =~= old(self)@.spec_drain_frames(),
    {
        match self {
            Module::AudioOut { buffer } => {
                let n = buffer.len();
                let mut frames: Vec<Frame> = Vec::new();
                let mut i: usize = 0;
                while i < n
                    invariant
                        n == buffer@.len(),
                        0 <= i <= n,
                        frames@ == buffer@.take(i as int),
                    decreases n - i,
                {
                    frames.push(buffer[i]);
                    proof {
                        assert(buffer@.take(i + 1) =~= buffer@.take(i as int).push(
                            buffer@[i as int],
                        ));
                    }
                    i = i + 1;
                }
                proof {
                    assert(buffer@.take(n as int) =~= buffer@);
                }
                buffer.clear();
                frames
            },
            _ => Vec::new(),
        }
    }

    /// Append captured input samples for later replay.
    pub fn extend_audio_buffer(&mut self, ai: &Vec<Sample>)
        ensures
            final(self)@ =~= old(self)@.spec_extended(ai@),
    {
        match self {
            Module::AudioIn { queue } => {
                let n = ai.len();
                let mut i: usize = 0;
                while i < n
                    invariant
                        n == ai@.len(),
                        0 <= i <= n,
                        queue@ == old(self)@->AudioIn_queue + ai@.take(i as int),
                    decreases n - i,
                {
                    queue.push(ai[i]);
                    proof {
                        assert(old(self)@->AudioIn_queue + ai@.take(i + 1) =~= (old(
                            self,
                        )@->AudioIn_queue + ai@.take(i as int)).push(ai@[i as int]));
                    }
                    i = i + 1;
                }
                proof {
                    assert(ai@.take(n as int) =~= ai@);
                }
            },
            _ => {
            },
        }
    }

    /// Run the module's exit hook, as on rack teardown or reload.
    pub fn exit(&mut self)
        ensures
            final(self)@ =~= old(self)@.spec_exited(),
    {
        match self {
            Module::AudioOut { buffer } => {
                buffer.clear();
            },
            Module::AudioIn { queue } => {
                queue.clear();
            },
            _ => {
            },
        }
    }
}

} // verus!
