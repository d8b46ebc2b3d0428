//! A sample-playback engine for a pipe-organ-like polyphonic instrument.
//!
//! The engine keeps a keyed store of decoded WAV samples, spawns one voice
//! per sounding note, and mixes the voices into an interleaved output
//! buffer.  All amplitudes, envelopes and playback positions are held in
//! fixed-point integers: amplitudes in Q24 (`1 << 24` is full scale) and
//! positions and pitch ratios in Q32 (`1 << 32` is one frame).

pub mod bytes;
pub mod fixed;
pub mod wav;
pub mod sample;
pub mod store;
pub mod voice;
pub mod engine;
