//! The error kinds of the analysis pipeline.
//!
//! Every error is fatal only to the file it concerns; a batch carries on with
//! its other files. Each variant records exactly one failure cause so that a
//! caller can report it, and so that contracts can say precisely when each
//! one is returned.

use vstd::prelude::*;

verus! {

/// Why a VLQ segment failed to decode.
#[derive(Debug, Clone, Copy, PartialEq, Eq, Structural)]
pub enum VlqError {
    /// A character outside the 64-symbol base64 alphabet.
    InvalidChar,
    /// The continuation bit was still set on the segment's final character.
    Unterminated,
    /// The segment decoded to a number of fields other than 4 or 5.
    WrongFieldCount,
}

/// Why the mapping table could not be walked against the generated file:
/// the map contradicts the file (or itself).
#[derive(Debug, Clone, Copy, PartialEq, Eq, Structural)]
pub enum AnalyzeError {
    /// A mapping names a generated line that the file does not have.
    LineOutOfRange,
    /// A mapping's source index is not a valid index into `sources`.
    SourceOutOfRange,
    /// A mapping's end column precedes its start column.
    ColumnUnderflow,
    /// An attributed byte count does not fit in 32 bits.
    ByteCountOverflow,
}

/// Everything that can go wrong while analyzing one generated file.
#[derive(Debug)]
pub enum MapError {
    /// The generated file has no lines at all.
    EmptyFile,
    /// The last line is not a `//# sourceMappingURL=` directive.
    UnsupportedFormat,
    /// A data-URI directive without a `base64,` marker.
    MissingBase64Marker,
    /// The base64 payload of a data-URI directive did not decode.
    InvalidBase64,
    /// The referenced external map file could not be read; holds the message
    /// of the underlying I/O failure.
    ExternalMapIo(String),
    /// The source map JSON was malformed or of the wrong shape; holds a
    /// description of the mismatch.
    Json(String),
    /// A segment of the `mappings` string did not decode.
    Vlq(VlqError),
    /// The mapping table contradicts the generated file.
    Analyze(AnalyzeError),
}

impl MapError {
    /// A short, fixed description of the error kind.
    pub fn describe(&self) -> (r: &'static str)
        ensures
            r@.len() > 0,
    {
        proof {
            reveal_strlit("the file is empty");
            reveal_strlit("the last line is not a sourceMappingURL directive");
            reveal_strlit("the data URI holds no base64 marker");
            reveal_strlit("the base64 payload is invalid");
            reveal_strlit("the external map file could not be read");
            reveal_strlit("the source map JSON is malformed or of the wrong shape");
            reveal_strlit("a VLQ segment did not decode");
            reveal_strlit("the mapping table contradicts the generated file");
        }
        match self {
            MapError::EmptyFile => "the file is empty",
            MapError::UnsupportedFormat => "the last line is not a sourceMappingURL directive",
            MapError::MissingBase64Marker => "the data URI holds no base64 marker",
            MapError::InvalidBase64 => "the base64 payload is invalid",
            MapError::ExternalMapIo(_) => "the external map file could not be read",
            MapError::Json(_) => "the source map JSON is malformed or of the wrong shape",
            MapError::Vlq(_) => "a VLQ segment did not decode",
            MapError::Analyze(_) => "the mapping table contradicts the generated file",
        }
    }
}

} // verus!
