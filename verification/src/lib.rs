//! Merging lossless audio tracks into one stream, splitting such a stream
//! back into tracks along a cue sheet, and checking that no sample was lost.
pub mod audio;
pub mod commands;
pub mod cue;
pub mod error;
pub mod text;
pub mod track_msf;
