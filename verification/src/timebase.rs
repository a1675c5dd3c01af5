//! The multi-rate time base driving the scheduler.
//!
//! Three nested rates are multiplexed from one outer frame: exactly one
//! Key step, then `sample_rate / frame_rate - 1` further Audio steps, and
//! in the video-capable mode each Audio step subdivides into Video
//! sub-steps. The clock is seeded once by the embedder from an external
//! elapsed-time source and thereafter advances purely by computed deltas,
//! one delta per step, decoupled from render jitter. The per-step delta
//! is an exact rational number of seconds.

use vstd::prelude::*;
use vstd::string::StringSliceAdditionalSpecFns;

verus! {

/// The rate at which one tick runs: every outer frame performs one Key
/// step, then further Audio steps, which in video-capable mode subdivide
/// into Video sub-steps.
#[derive(Clone, Copy, Debug, PartialEq, Eq, Structural)]
pub enum StepType {
    Key,
    Audio,
    Video,
}

/// How many Video sub-steps one Audio step subdivides into.
pub const VIDEO_SUBSTEPS: u64 = 4;

/// The rate mode a rack runs in, chosen by its configuration.
#[derive(Clone, Copy, Debug, PartialEq, Eq, Structural)]
pub enum RackMode {
    /// One Key step per outer frame.
    Key,
    /// One Key step, then Audio steps up to the device rate.
    Audio,
    /// As Audio, with Video sub-steps interleaved.
    Video,
}

/// One Audio step of the video-capable plan with its Video sub-steps:
/// the first Audio step of a frame carries one sub-step fewer, since the
/// Key step takes the place of the first.
pub open spec fn video_group(first: bool) -> Seq<StepType> {
    if first {
        seq![StepType::Audio, StepType::Video, StepType::Video]
    } else {
        seq![StepType::Audio, StepType::Video, StepType::Video, StepType::Video]
    }
}

/// The video-capable plan after the Key step: `groups` Audio steps, each
/// with its Video sub-steps.
pub open spec fn video_plan(groups: int) -> Seq<StepType>
    decreases groups,
{
    if groups <= 0 {
        Seq::empty()
    } else {
        video_plan(groups - 1) + video_group(groups == 1)
    }
}

/// The sequence of steps of one outer frame, given the mode and the
/// number of audio steps per frame (`sample_rate / frame_rate`).
pub open spec fn plan_spec(mode: RackMode, audio_steps: int) -> Seq<StepType> {
    let rest = if audio_steps >= 1 {
        audio_steps - 1
    } else {
        0
    };
    match mode {
        RackMode::Key => seq![StepType::Key],
        RackMode::Audio => seq![StepType::Key] + Seq::new(rest as nat, |i: int| StepType::Audio),
        RackMode::Video => seq![StepType::Key] + video_plan(rest),
    }
}

/// In Audio mode one outer frame is exactly one Key step followed by
/// `audio_steps - 1` Audio steps.
pub proof fn lemma_audio_mode_frame(audio_steps: int)
    requires
        audio_steps >= 1,
    ensures
        plan_spec(RackMode::Audio, audio_steps).len() == audio_steps,
        plan_spec(RackMode::Audio, audio_steps)[0] == StepType::Key,
        forall|i: int|
            1 <= i < audio_steps ==> plan_spec(RackMode::Audio, audio_steps)[i] == StepType::Audio,
{
}

/// The three mode names have pairwise different byte strings.
proof fn lemma_mode_literals_distinct()
    ensures
        "Key".spec_bytes() != "Audio".spec_bytes(),
        "Key".spec_bytes() != "Video".spec_bytes(),
        "Audio".spec_bytes() != "Video".spec_bytes(),
{
    broadcast use vstd::string::is_ascii_spec_bytes;

    reveal_strlit("Key");
    reveal_strlit("Audio");
    reveal_strlit("Video");
    assert(vstd::string::is_ascii("Key"));
    assert(vstd::string::is_ascii("Audio"));
    assert(vstd::string::is_ascii("Video"));
    assert("Key".spec_bytes().len() == 3);
    assert("Audio".spec_bytes()[0] == 'A' as u8);
    assert("Video".spec_bytes()[0] == 'V' as u8);
}

/// Whether two byte strings are equal.
fn bytes_eq(a: &[u8], b: &[u8]) -> (r: bool)
    ensures
        r == (a@ == b@),
{
    let n = a.len();
    if n != b.len() {
        proof {
            assert(a@.len() != b@.len());
        }
        return false;
    }
    let mut i: usize = 0;
    while i < n
        invariant
            n == a@.len() == b@.len(),
            0 <= i <= n,
            forall|j: int| 0 <= j < i ==> a@[j] == b@[j],
        decreases n - i,
    {
        if a[i] != b[i] {
            return false;
        }
        i = i + 1;
    }
    proof {
        assert(a@ =~= b@);
    }
    true
}

impl RackMode {
    /// The mode named by a rack configuration: `"Key"`, `"Audio"` or
    /// `"Video"`. Any other name is unknown, a fatal configuration error
    /// for the embedder; an absent name means Audio, which is the
    /// embedder's part to supply.
    pub fn from_name(s: &str) -> (r: Option<RackMode>)
        ensures
            r == Some(RackMode::Key) <==> s.spec_bytes() == "Key".spec_bytes(),
            r == Some(RackMode::Audio) <==> s.spec_bytes() == "Audio".spec_bytes(),
            r == Some(RackMode::Video) <==> s.spec_bytes() == "Video".spec_bytes(),
            r is None <==> !(s.spec_bytes() == "Key".spec_bytes() || s.spec_bytes()
                == "Audio".spec_bytes() || s.spec_bytes() == "Video".spec_bytes()),
    {
        proof {
            lemma_mode_literals_distinct();
        }
        let bs = s.as_bytes();
        if bytes_eq(bs, "Key".as_bytes()) {
            Some(RackMode::Key)
        } else if bytes_eq(bs, "Audio".as_bytes()) {
            Some(RackMode::Audio)
        } else if bytes_eq(bs, "Video".as_bytes()) {
            Some(RackMode::Video)
        } else {
            None
        }
    }
}

/// The free-running clock and frame planner: which steps one outer frame
/// performs, and by what exact fraction of a second each advances the
/// clock.
pub struct TimeBase {
    pub mode: RackMode,
    pub sample_rate: u32,
    pub frame_rate: u32,
    /// Steps taken since the seed; the elapsed time past the seed is
    /// `ticks` times the per-step delta.
    pub ticks: u64,
}

impl TimeBase {
    /// Both rates must be positive.
    pub open spec fn wf(self) -> bool {
        self.sample_rate >= 1 && self.frame_rate >= 1
    }

    /// The number of audio steps per outer frame.
    pub open spec fn spec_audio_steps(self) -> int {
        self.sample_rate as int / self.frame_rate as int
    }

    pub fn new(mode: RackMode, sample_rate: u32, frame_rate: u32) -> (r: TimeBase)
        requires
            sample_rate >= 1,
            frame_rate >= 1,
        ensures
            r.wf(),
            r.mode == mode,
            r.sample_rate == sample_rate,
            r.frame_rate == frame_rate,
            r.ticks == 0,
    {
        TimeBase { mode, sample_rate, frame_rate, ticks: 0 }
    }

    /// The exact fraction of a second, numerator over denominator, by
    /// which every step of this time base advances the clock.
    pub fn step_delta_seconds(&self) -> (r: (u64, u64))
        requires
            self.wf(),
        ensures
            r.0 == 1,
            r.1 >= 1,
            match self.mode {
                RackMode::Key => r.1 == self.frame_rate,
                RackMode::Audio => r.1 == self.sample_rate,
                RackMode::Video => r.1 == VIDEO_SUBSTEPS * self.sample_rate,
            },
    {
        match self.mode {
            RackMode::Key => (1, self.frame_rate as u64),
            RackMode::Audio => (1, self.sample_rate as u64),
            RackMode::Video => (1, VIDEO_SUBSTEPS * (self.sample_rate as u64)),
        }
    }

    /// The steps of one outer frame, in order.
    pub fn frame_plan(&self) -> (plan: Vec<StepType>)
        requires
            self.wf(),
        ensures
            plan@ == plan_spec(self.mode, self.spec_audio_steps()),
    {
        let audio_steps = self.sample_rate / self.frame_rate;
        let mut plan: Vec<StepType> = Vec::new();
        plan.push(StepType::Key);
        let rest: u32 = if audio_steps >= 1 {
            audio_steps - 1
        } else {
            0
        };
        match self.mode {
            RackMode::Key => {
                proof {
                    assert(plan@ =~= plan_spec(self.mode, self.spec_audio_steps()));
                }
            },
            RackMode::Audio => {
                let mut g: u32 = 0;
                while g < rest
                    invariant
                        0 <= g <= rest,
                        plan@.len() == 1 + g,
                        plan@[0] == StepType::Key,
                        forall|i: int| 1 <= i < plan@.len() ==> plan@[i] == StepType::Audio,
                    decreases rest - g,
                {
                    plan.push(StepType::Audio);
                    g = g + 1;
                }
                proof {
                    assert(plan@ =~= plan_spec(self.mode, self.spec_audio_steps()));
                }
            },
            RackMode::Video => {
                let mut g: u32 = 0;
                while g < rest
                    invariant
                        0 <= g <= rest,
                        plan@ == seq![StepType::Key] + video_plan(g as int),
                    decreases rest - g,
                {
                    plan.push(StepType::Audio);
                    if g > 0 {
                        plan.push(StepType::Video);
                    }
                    plan.push(StepType::Video);
                    plan.push(StepType::Video);
                    proof {
                        assert(video_plan(g + 1) == video_plan(g as int) + video_group(g == 0));
                        assert(plan@ =~= seq![StepType::Key] + video_plan(g + 1));
                    }
                    g = g + 1;
                }
                proof {
                    assert(plan@ =~= plan_spec(self.mode, self.spec_audio_steps()));
                }
            },
        }
        plan
    }

    /// Advance the clock by `steps` deltas.
    pub fn advance(&mut self, steps: u64)
        requires
            old(self).ticks + steps <= u64::MAX,
        ensures
            *final(self) == (TimeBase { ticks: (old(self).ticks + steps) as u64, ..*old(self) }),
    {
        self.ticks = self.ticks + steps;
    }
}

} // verus!
