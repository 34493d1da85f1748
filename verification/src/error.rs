//! The failures of merging, splitting and verifying.
use vstd::prelude::*;

verus! {

/// Why an operation stopped. Every failure ends the operation at once.
#[derive(Debug, Clone, Copy, PartialEq, Eq, Structural)]
pub enum Error {
    /// The file's extension names no supported container.
    UnsupportedFormat,
    /// The sheet text is no cue sheet.
    MalformedDescriptor,
    /// An index position is no timecode of the form `mm:ss:ff`, or a track
    /// starts too late for one.
    InvalidTimecode,
    /// A `DURATION` comment carries no unsigned number.
    MalformedAnnotation,
    /// A track has no index 01.
    MissingStartIndex,
    /// A container does not say how many samples it holds.
    MissingSampleCount,
    /// The samples written differ from the samples read.
    VerificationMismatch,
    /// A file name pattern was given and a track has no performer.
    MissingPerformer,
    /// There are more boundaries than tracks in the sheet.
    MissingTrack,
    /// A boundary does not fit: it lies before its predecessor, beyond the
    /// end of the stream, or beyond what 64 bits can count.
    BoundaryOutOfRange,
    /// The boundaries ask for more samples than the stream holds.
    SourceExhausted,
}

} // verus!
