//! A small real-time audio synthesis core: a phase-accumulating sine
//! oscillator with a typed parametric store, a node graph that mixes
//! oscillators additively into a designated master node, and the block-render
//! helpers that a device callback drives (control-value coalescing, channel
//! interleaving, sample-format conversion).
//!
//! All signal arithmetic is fixed point: one full-scale sample is `UNIT`
//! (a million sample units), and one cycle of oscillator phase is
//! `PHASE_ONE` phase ticks. The thin process wrapper that talks to a real
//! audio device converts these integers to the device's native sample type
//! at the boundary, and nowhere else.

pub mod engine;
pub mod graph;
pub mod node;
pub mod osc;
