use vince::key::ModuleKey;
use vince::module::Module;
use vince::outs::Outs;
use vince::patch::Patches;
use vince::address::AddressError;
use vince::rack::{build_inputs, PatchLoadError, Rack, RackError};
use vince::sample::Sample;
use vince::timebase::StepType;

fn s(x: f32) -> Sample {
    Sample::from_bits(x.to_bits())
}

fn constant_generator_feeds_pass_through() -> Rack {
    let mut rack = Rack::new();
    rack.add_module(1, Module::Constant { value: s(5.0) }).unwrap();
    rack.add_module(2, Module::PassThrough).unwrap();
    rack.add_patch(ModuleKey::output(1, 0), ModuleKey::input(2, 0)).unwrap();
    rack
}

#[test]
fn constant_to_pass_through_one_tick() {
    let mut rack = constant_generator_feeds_pass_through();
    rack.step(0, StepType::Key);
    assert_eq!(rack.output_value(ModuleKey::output(1, 0)), Some(s(5.0)));
    assert_eq!(rack.output_value(ModuleKey::output(2, 0)), Some(s(5.0)));
}

#[test]
fn self_feedback_reads_previous_tick() {
    let mut rack = Rack::new();
    rack.add_module(1, Module::Fallback { value: s(2.5) }).unwrap();
    rack.add_patch(ModuleKey::output(1, 0), ModuleKey::input(1, 0)).unwrap();

    // First tick: the input has no value yet, so the module sees NaN and
    // produces its fallback.
    rack.step(0, StepType::Key);
    assert_eq!(rack.output_value(ModuleKey::output(1, 0)), Some(s(2.5)));

    // Second tick: the module sees the cached value of the previous tick.
    rack.outs.insert(ModuleKey::output(1, 0), s(7.0));
    rack.step(1, StepType::Key);
    assert_eq!(rack.output_value(ModuleKey::output(1, 0)), Some(s(7.0)));
}

#[test]
fn unpatched_input_is_nan() {
    let mut patches = Patches::new();
    patches.insert(ModuleKey::output(1, 0), ModuleKey::input(2, 0));
    let mut outs = Outs::new();
    outs.insert(ModuleKey::output(1, 0), s(5.0));
    let v = build_inputs(&patches, &outs, 2, 2);
    assert_eq!(v.len(), 2);
    assert_eq!(v[0], s(5.0));
    assert!(v[1].is_nan());
}

#[test]
fn module_with_no_patches_at_all_sees_nan() {
    // A pass-through with one declared input and no inbound patch reads
    // the NaN sentinel every tick: its output is NaN and gets purged.
    let mut rack = Rack::new();
    rack.add_module(1, Module::PassThrough).unwrap();
    rack.step(0, StepType::Key);
    assert_eq!(rack.output_value(ModuleKey::output(1, 0)), None);

    // A fallback module in the same position turns the sentinel into its
    // fallback value, not into zero.
    let mut rack = Rack::new();
    rack.add_module(1, Module::Fallback { value: s(4.5) }).unwrap();
    rack.step(0, StepType::Key);
    assert_eq!(rack.output_value(ModuleKey::output(1, 0)), Some(s(4.5)));
}

#[test]
fn knob_only_module_steps_with_the_sources() {
    // A patch into a knob alone does not make its owner wait for the
    // source: the owner steps in the source pass and the modulation is
    // visible from its next step.
    let mut rack = Rack::new();
    rack.add_module(1, Module::Fallback { value: s(2.0) }).unwrap();
    rack.add_module(2, Module::Control { value: s(1.0) }).unwrap();
    rack.add_patch(ModuleKey::output(1, 0), ModuleKey::knob(2, 0)).unwrap();
    rack.step(0, StepType::Key);
    assert_eq!(rack.output_value(ModuleKey::output(2, 0)), Some(s(1.0)));
    assert_eq!(rack.get_module(2).unwrap().get_knobs(), vec![s(2.0)]);
    rack.step(1, StepType::Key);
    assert_eq!(rack.output_value(ModuleKey::output(2, 0)), Some(s(2.0)));
}

#[test]
fn fan_out_delivers_identical_values() {
    let mut rack = Rack::new();
    rack.add_module(1, Module::Constant { value: s(5.0) }).unwrap();
    rack.add_module(2, Module::PassThrough).unwrap();
    rack.add_module(3, Module::PassThrough).unwrap();
    rack.add_patch(ModuleKey::output(1, 0), ModuleKey::input(2, 0)).unwrap();
    rack.add_patch(ModuleKey::output(1, 0), ModuleKey::input(3, 0)).unwrap();
    rack.step(0, StepType::Key);
    let a = rack.output_value(ModuleKey::output(2, 0));
    let b = rack.output_value(ModuleKey::output(3, 0));
    assert_eq!(a, Some(s(5.0)));
    assert_eq!(a, b);
}

#[test]
fn knob_feedback_visible_from_next_step() {
    let mut rack = Rack::new();
    rack.add_module(1, Module::Constant { value: s(3.0) }).unwrap();
    rack.add_module(2, Module::Control { value: s(1.0) }).unwrap();
    rack.add_patch(ModuleKey::output(1, 0), ModuleKey::knob(2, 0)).unwrap();

    // The owner steps before the feedback pass: this tick still shows the
    // old knob value.
    rack.step(0, StepType::Key);
    assert_eq!(rack.output_value(ModuleKey::output(2, 0)), Some(s(1.0)));
    // After the tick the knob already holds the source's value...
    assert_eq!(rack.get_module(2).unwrap().get_knobs(), vec![s(3.0)]);
    // ...and the owner's next step reflects it.
    rack.step(1, StepType::Key);
    assert_eq!(rack.output_value(ModuleKey::output(2, 0)), Some(s(3.0)));
}

#[test]
fn pure_cycle_terminates_and_purges_nan() {
    let mut rack = Rack::new();
    rack.add_module(1, Module::PassThrough).unwrap();
    rack.add_module(2, Module::PassThrough).unwrap();
    rack.add_patch(ModuleKey::output(1, 0), ModuleKey::input(2, 0)).unwrap();
    rack.add_patch(ModuleKey::output(2, 0), ModuleKey::input(1, 0)).unwrap();
    rack.step(0, StepType::Key);
    // Both modules stepped on NaN and produced NaN, which is purged.
    assert_eq!(rack.output_value(ModuleKey::output(1, 0)), None);
    assert_eq!(rack.output_value(ModuleKey::output(2, 0)), None);
}

#[test]
fn cycle_with_fallback_warms_up() {
    let mut rack = Rack::new();
    rack.add_module(1, Module::Fallback { value: s(1.0) }).unwrap();
    rack.add_module(2, Module::PassThrough).unwrap();
    rack.add_patch(ModuleKey::output(1, 0), ModuleKey::input(2, 0)).unwrap();
    rack.add_patch(ModuleKey::output(2, 0), ModuleKey::input(1, 0)).unwrap();
    rack.step(0, StepType::Key);
    assert_eq!(rack.output_value(ModuleKey::output(1, 0)), Some(s(1.0)));
    assert_eq!(rack.output_value(ModuleKey::output(2, 0)), Some(s(1.0)));
}

#[test]
fn non_nan_outputs_persist_across_ticks() {
    let mut rack = constant_generator_feeds_pass_through();
    rack.step(0, StepType::Key);
    rack.step(1, StepType::Key);
    assert_eq!(rack.output_value(ModuleKey::output(2, 0)), Some(s(5.0)));
}

#[test]
fn duplicate_module_id_is_rejected() {
    let mut rack = Rack::new();
    rack.add_module(1, Module::PassThrough).unwrap();
    assert_eq!(
        rack.add_module(1, Module::Constant { value: s(0.0) }),
        Err(RackError::DuplicateId)
    );
}

#[test]
fn patch_endpoints_are_validated() {
    let mut rack = Rack::new();
    rack.add_module(1, Module::Constant { value: s(0.0) }).unwrap();
    rack.add_module(2, Module::PassThrough).unwrap();
    assert_eq!(
        rack.add_patch(ModuleKey::output(9, 0), ModuleKey::input(2, 0)),
        Err(RackError::UnknownSourceModule)
    );
    assert_eq!(
        rack.add_patch(ModuleKey::input(1, 0), ModuleKey::input(2, 0)),
        Err(RackError::SourceNotOutput)
    );
    assert_eq!(
        rack.add_patch(ModuleKey::output(1, 3), ModuleKey::input(2, 0)),
        Err(RackError::SourceNotOutput)
    );
    assert_eq!(
        rack.add_patch(ModuleKey::output(1, 0), ModuleKey::input(9, 0)),
        Err(RackError::UnknownDestinationModule)
    );
    assert_eq!(
        rack.add_patch(ModuleKey::output(1, 0), ModuleKey::output(2, 0)),
        Err(RackError::DestinationNotInputOrKnob)
    );
    assert_eq!(
        rack.add_patch(ModuleKey::output(1, 0), ModuleKey::knob(2, 0)),
        Err(RackError::DestinationNotInputOrKnob)
    );
}

#[test]
fn patches_load_from_addresses() {
    let mut rack = Rack::new();
    rack.add_module(1, Module::Constant { value: s(5.0) }).unwrap();
    rack.add_module(2, Module::PassThrough).unwrap();
    rack.add_patch_by_address("1M0O", "2M0I").unwrap();
    rack.step(0, StepType::Key);
    assert_eq!(rack.output_value(ModuleKey::output(2, 0)), Some(s(5.0)));

    assert_eq!(
        rack.add_patch_by_address("nope", "2M0I"),
        Err(PatchLoadError::BadSourceAddress(AddressError::MissingSeparator))
    );
    assert_eq!(
        rack.add_patch_by_address("1M0O", "2MxI"),
        Err(PatchLoadError::BadDestinationAddress(AddressError::InvalidIndex))
    );
    assert_eq!(
        rack.add_patch_by_address("1M0O", "9M0I"),
        Err(PatchLoadError::BadEndpoints(RackError::UnknownDestinationModule))
    );
}

#[test]
fn inserting_a_patch_twice_keeps_one_edge() {
    let mut rack = Rack::new();
    rack.add_module(1, Module::Constant { value: s(0.0) }).unwrap();
    rack.add_module(2, Module::PassThrough).unwrap();
    rack.add_patch(ModuleKey::output(1, 0), ModuleKey::input(2, 0)).unwrap();
    rack.add_patch(ModuleKey::output(1, 0), ModuleKey::input(2, 0)).unwrap();
    assert_eq!(rack.patches.len(), 1);
}

#[test]
fn exit_clears_outputs_and_buffers() {
    let mut rack = Rack::new();
    rack.add_module(1, Module::Constant { value: s(0.5) }).unwrap();
    rack.add_module(2, Module::AudioOut { buffer: Vec::new() }).unwrap();
    rack.add_patch(ModuleKey::output(1, 0), ModuleKey::input(2, 0)).unwrap();
    rack.step(0, StepType::Audio);
    assert!(rack.output_value(ModuleKey::output(1, 0)).is_some());
    rack.exit();
    assert_eq!(rack.output_value(ModuleKey::output(1, 0)), None);
    let frames = rack.drain_audio_buffers();
    assert!(frames.iter().all(|f| f.is_empty()));
}

#[test]
fn captured_audio_reaches_audio_in_modules() {
    let mut rack = Rack::new();
    rack.add_module(1, Module::AudioIn { queue: Vec::new() }).unwrap();
    rack.extend_audio_inputs(&vec![s(0.25), s(0.75)]);
    rack.step(0, StepType::Audio);
    assert_eq!(rack.output_value(ModuleKey::output(1, 0)), Some(s(0.25)));
    rack.step(1, StepType::Audio);
    assert_eq!(rack.output_value(ModuleKey::output(1, 0)), Some(s(0.75)));
    // A dry queue yields NaN, which the purge removes.
    rack.step(2, StepType::Audio);
    assert_eq!(rack.output_value(ModuleKey::output(1, 0)), None);
}
