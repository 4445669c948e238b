//! Core of a modular, real-time audio synthesis engine.
//!
//! The engine hosts a dynamically reconfigurable graph of signal-processing
//! modules whose outputs are wired to other modules' inputs or parameters.
//! Samples are fixed-point integers: `SAMPLE_UNIT` stands for 1.0, and every
//! arithmetic step saturates at `SAMPLE_MAX`, so all sample values stay in
//! range and every quantum is a pure function of the previous state.
use vstd::prelude::*;

pub mod sample;
pub mod audio_buffer;
pub mod audio_output;
pub mod audio_input;
pub mod edge_detector;
pub mod rng;
pub mod barrier;
pub mod rw_lock;
pub mod audio_param;
pub mod module;
pub mod module_store;
pub mod ring;
pub mod engine;

verus! {

/// Number of samples processed as one unit (one quantum).
pub const QUANTUM_SIZE: usize = 128;

/// Depth of each module output's buffer ring: one write buffer, one read buffer.
pub const AUDIO_OUTPUT_NUM_BUFFERS: usize = 2;

/// Depth of the stereo output ring shared with the audio consumer, in quanta.
pub const NUM_OUTPUT_BUFFERS: usize = 16;

/// Samples per second.
pub const SAMPLE_RATE: usize = 44100;

/// Length of the linear ramp a parameter follows after a target change,
/// in samples (10 ms at 44.1 kHz).
pub const PARAMETER_SMOOTHING_SAMPLES: i64 = 441;

/// Fixed-point scale: this sample value stands for 1.0.
pub const SAMPLE_UNIT: i64 = 65536;

/// Largest magnitude a sample may take; arithmetic saturates here.
pub const SAMPLE_MAX: i64 = 0x8000_0000;

} // verus!
