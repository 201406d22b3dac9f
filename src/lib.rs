//! Lossless loudness adjustment for compressed audio.
//!
//! - `bits`, `frame`, `gain`: the MPEG Layer III frame scan and the
//!   `global_gain` fields, changed in place with saturation or wrapping.
//! - `ape`, `undo`: the APEv2 tag at the end of a file, and the step count
//!   kept in it so that a change can be taken back.
//! - `mp4`: ReplayGain values in the metadata tree of an MP4 file, with the
//!   box sizes and chunk offsets that follow from a change of its length.
//! - `loudness`, `steps`, `clipping`: the loudness histogram of ReplayGain
//!   analysis, gains in steps and hundredths of a dB, and the headroom check.

pub mod bits;
pub mod frame;
pub mod gain;
pub mod ape;
pub mod undo;
pub mod mp4;
pub mod loudness;
pub mod steps;
pub mod clipping;
