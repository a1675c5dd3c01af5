use vince::module::Module;
use vince::sample::{Frame, Sample, NAN_BITS};
use vince::timebase::StepType;

fn s(x: f32) -> Sample {
    Sample::from_bits(x.to_bits())
}

fn nan() -> Sample {
    Sample::from_bits(NAN_BITS)
}

#[test]
fn nan_sentinel_is_nan() {
    assert!(nan().is_nan());
    assert!(!s(0.0).is_nan());
    assert!(!s(-1.5).is_nan());
    assert!(Sample::from_bits(f32::NAN.to_bits()).is_nan());
}

#[test]
fn arities_are_fixed() {
    let c = Module::Constant { value: s(1.0) };
    assert_eq!((c.inputs(), c.outputs(), c.knobs()), (0, 1, 0));
    let p = Module::PassThrough;
    assert_eq!((p.inputs(), p.outputs(), p.knobs()), (1, 1, 0));
    let fb = Module::Fallback { value: s(1.0) };
    assert_eq!((fb.inputs(), fb.outputs(), fb.knobs()), (1, 1, 0));
    let k = Module::Control { value: s(1.0) };
    assert_eq!((k.inputs(), k.outputs(), k.knobs()), (0, 1, 1));
    let ao = Module::AudioOut { buffer: Vec::new() };
    assert_eq!((ao.inputs(), ao.outputs(), ao.knobs()), (2, 0, 0));
    let ai = Module::AudioIn { queue: Vec::new() };
    assert_eq!((ai.inputs(), ai.outputs(), ai.knobs()), (0, 1, 0));
}

#[test]
fn step_returns_one_value_per_output() {
    let mut c = Module::Constant { value: s(4.0) };
    assert_eq!(c.step(0, StepType::Key, &vec![]), vec![s(4.0)]);
    let mut ao = Module::AudioOut { buffer: Vec::new() };
    assert_eq!(ao.step(0, StepType::Key, &vec![s(0.0), s(0.0)]), vec![]);
}

#[test]
fn pass_through_repeats_nan() {
    let mut p = Module::PassThrough;
    let out = p.step(0, StepType::Key, &vec![nan()]);
    assert!(out[0].is_nan());
}

#[test]
fn fallback_replaces_nan_only() {
    let mut fb = Module::Fallback { value: s(9.0) };
    assert_eq!(fb.step(0, StepType::Key, &vec![nan()]), vec![s(9.0)]);
    assert_eq!(fb.step(1, StepType::Key, &vec![s(2.0)]), vec![s(2.0)]);
}

#[test]
fn control_reflects_its_knob() {
    let mut k = Module::Control { value: s(1.0) };
    assert_eq!(k.step(0, StepType::Key, &vec![]), vec![s(1.0)]);
    k.set_knob(0, s(6.0));
    assert_eq!(k.get_knobs(), vec![s(6.0)]);
    assert_eq!(k.step(1, StepType::Key, &vec![]), vec![s(6.0)]);
}

#[test]
fn audio_out_buffers_stereo_frames() {
    let mut ao = Module::AudioOut { buffer: Vec::new() };
    ao.step(0, StepType::Audio, &vec![s(0.5), s(0.25)]);
    // An unpatched right channel doubles the left.
    ao.step(1, StepType::Audio, &vec![s(0.5), nan()]);
    // Video sub-steps do not buffer.
    ao.step(2, StepType::Video, &vec![s(0.5), s(0.5)]);
    let frames = ao.drain_audio_buffer();
    assert_eq!(
        frames,
        vec![
            Frame { left: s(0.5), right: s(0.25) },
            Frame { left: s(0.5), right: s(0.5) },
        ]
    );
    assert!(ao.drain_audio_buffer().is_empty());
}

#[test]
fn audio_in_replays_captured_samples() {
    let mut ai = Module::AudioIn { queue: Vec::new() };
    ai.extend_audio_buffer(&vec![s(0.1), s(0.2)]);
    assert_eq!(ai.step(0, StepType::Audio, &vec![]), vec![s(0.1)]);
    assert_eq!(ai.step(1, StepType::Audio, &vec![]), vec![s(0.2)]);
    assert!(ai.step(2, StepType::Audio, &vec![])[0].is_nan());
}

#[test]
fn exit_forgets_buffers() {
    let mut ao = Module::AudioOut { buffer: Vec::new() };
    ao.step(0, StepType::Audio, &vec![s(0.5), s(0.5)]);
    ao.exit();
    assert!(ao.drain_audio_buffer().is_empty());
    let mut ai = Module::AudioIn { queue: Vec::new() };
    ai.extend_audio_buffer(&vec![s(0.1)]);
    ai.exit();
    assert!(ai.step(0, StepType::Audio, &vec![])[0].is_nan());
}
