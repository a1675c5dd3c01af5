use vince::timebase::{RackMode, StepType, TimeBase};

#[test]
fn audio_mode_frame_at_device_rate() {
    // sample_rate 44100, frame_rate 60: exactly 1 Key step and 734
    // further Audio steps per outer frame.
    let tb = TimeBase::new(RackMode::Audio, 44100, 60);
    let plan = tb.frame_plan();
    assert_eq!(plan.len(), 735);
    assert_eq!(plan[0], StepType::Key);
    assert!(plan[1..].iter().all(|st| *st == StepType::Audio));
    // Each step advances the clock by exactly 1/44100 s.
    assert_eq!(tb.step_delta_seconds(), (1, 44100));
}

#[test]
fn key_mode_frame_is_one_step() {
    let tb = TimeBase::new(RackMode::Key, 44100, 60);
    assert_eq!(tb.frame_plan(), vec![StepType::Key]);
    assert_eq!(tb.step_delta_seconds(), (1, 60));
}

#[test]
fn video_mode_interleaves_sub_steps() {
    // Four audio steps per frame: the Key step stands in for the first
    // sub-step of the first group, so that group carries one Video step
    // fewer.
    let tb = TimeBase::new(RackMode::Video, 4, 1);
    let plan = tb.frame_plan();
    let a = StepType::Audio;
    let v = StepType::Video;
    assert_eq!(
        plan,
        vec![StepType::Key, a, v, v, a, v, v, v, a, v, v, v]
    );
    assert_eq!(tb.step_delta_seconds(), (1, 16));
}

#[test]
fn frame_rate_above_sample_rate_degenerates_to_key_step() {
    let tb = TimeBase::new(RackMode::Audio, 30, 60);
    assert_eq!(tb.frame_plan(), vec![StepType::Key]);
}

#[test]
fn clock_advances_one_delta_per_step() {
    let mut tb = TimeBase::new(RackMode::Audio, 44100, 60);
    let plan = tb.frame_plan();
    tb.advance(plan.len() as u64);
    assert_eq!(tb.ticks, 735);
    // After 60 frames the clock has advanced 60 * 735 deltas of
    // 1/44100 s: exactly one second.
    for _ in 1..60 {
        tb.advance(735);
    }
    assert_eq!(tb.ticks, 44100);
}

#[test]
fn mode_names_parse() {
    assert_eq!(RackMode::from_name("Key"), Some(RackMode::Key));
    assert_eq!(RackMode::from_name("Audio"), Some(RackMode::Audio));
    assert_eq!(RackMode::from_name("Video"), Some(RackMode::Video));
    // An unknown mode is a fatal configuration error for the embedder.
    assert_eq!(RackMode::from_name("key"), None);
    assert_eq!(RackMode::from_name(""), None);
    assert_eq!(RackMode::from_name("Stereo"), None);
}
