//! Core of a modular audio/video synthesizer: a patchable graph of signal
//! modules evaluated once per tick, a multi-rate time base driving the ticks,
//! and the buffering half of a real-time audio pipeline.
//!
//! Signal values travel as raw IEEE-754 single-precision bit patterns
//! ([`sample::Sample`]); the engine never does arithmetic on them, it only
//! routes them and tests for the NaN "unconnected" sentinel, so the whole
//! scheduler is expressible over plain integers.

pub mod address;
pub mod key;
pub mod module;
pub mod outs;
pub mod patch;
pub mod pipeline;
pub mod rack;
pub mod sample;
pub mod timebase;
