//! Sample-accurate scheduling for many short-lived, time-bounded oscillators
//! ("timed waves") stored in a compact run-length-encoded packing.
//!
//! A [`packer::TimedWavePacker`] accumulates waves into six parallel arrays;
//! a [`pack::PackedTimedWaves`] is a read-only scheduling view over those
//! arrays that scans time windows in order and tells a [`player::Player`] how
//! far playback may proceed before the set of live waves changes.
//!
//! Waveform coefficients are opaque 32-bit words to this crate: the engine
//! only moves them around, grouped by run lengths. Evaluating a wave into
//! actual samples is numeric work left to the caller.

pub mod laws;
pub mod model;
pub mod pack;
pub mod packer;
pub mod player;
pub mod multipoly;
pub mod wave;

pub use multipoly::MultiPoly;
pub use pack::PackedTimedWaves;
pub use packer::TimedWavePacker;
pub use player::PlaySegment;
pub use player::Player;
pub use wave::TimedWave;
pub use wave::Wave;
