//! The ways in which encoding or decoding can fail.

use vstd::prelude::*;

verus! {

/// Failures reported by the codec.
#[derive(Debug, Clone, Copy, PartialEq, Eq, Structural)]
pub enum CodecError {
    /// The input is shorter than a header, or does not start with the magic bytes.
    MalformedHeader,
    /// More than seven bits were requested for the remainder of a codeword.
    InvalidRemainderWidth,
    /// The chunk size is not a positive multiple of eight, or a chunk cannot
    /// hold the longest codeword.
    IncompatibleChunkSize,
    /// The payload does not decode to exactly `width * height` values.
    PixelCountMismatch,
}

impl CodecError {
    /// A short description of the failure.
    pub fn message(&self) -> (text: &'static str)
        ensures
            text@ == error_text(*self)@,
    {
        match self {
            CodecError::MalformedHeader => "malformed header",
            CodecError::InvalidRemainderWidth => "the remainder width must be at most 7 bits",
            CodecError::IncompatibleChunkSize => "incompatible chunk size",
            CodecError::PixelCountMismatch => "the payload does not hold width * height pixels",
        }
    }
}

/// The text that describes `e`.
pub open spec fn error_text(e: CodecError) -> &'static str {
    match e {
        CodecError::MalformedHeader => "malformed header",
        CodecError::InvalidRemainderWidth => "the remainder width must be at most 7 bits",
        CodecError::IncompatibleChunkSize => "incompatible chunk size",
        CodecError::PixelCountMismatch => "the payload does not hold width * height pixels",
    }
}

} // verus!
