//! Verified core of an audio editing back end: channel layout and
//! interleaving, the decisions of the decoding loop, frame-range edits
//! (trim, fades), resampling chunk plans, waveform overview ranges, and the
//! filter and export-format grammars. Sample arithmetic (gains, filters,
//! resampling) works on floating point and is supplied by the caller.
pub mod audio;
pub mod decode;
pub mod export;
pub mod ops;
pub mod waveform;
mod text;
