//! The failures that end an encode or a decode.

use vstd::prelude::*;

verus! {

/// Why an operation of the coder stopped. Every variant is terminal: the coder
/// never retries and never hands out a partial result.
#[derive(Clone, Copy, Debug, PartialEq, Eq, Structural)]
pub enum CodecError {
    /// The input holds no byte, so no probability can be derived.
    EmptyInput,
    /// A symbol that no entry of the table covers.
    UnknownSymbol,
    /// The coding range has no room left for the symbol at hand.
    RangeCollapse,
    /// The artifact is malformed: the header is cut short or inconsistent,
    /// or a digit byte of the stream is no digit.
    CorruptHeader,
    /// The stream does not hold what the header promises: it ends too
    /// early, or its last bytes are not the flush value of its digits.
    TruncatedStream,
}

impl CodecError {
    /// The name of the failure, as shown to a user.
    pub fn describe(&self) -> (text: &'static str)
        ensures
            text@ == Self::description(*self),
    {
        match self {
            CodecError::EmptyInput => "empty input",
            CodecError::UnknownSymbol => "unknown symbol",
            CodecError::RangeCollapse => "range collapse",
            CodecError::CorruptHeader => "corrupt header",
            CodecError::TruncatedStream => "truncated stream",
        }
    }

    /// What `describe` returns for each failure.
    pub open spec fn description(e: CodecError) -> Seq<char> {
        match e {
            CodecError::EmptyInput => "empty input"@,
            CodecError::UnknownSymbol => "unknown symbol"@,
            CodecError::RangeCollapse => "range collapse"@,
            CodecError::CorruptHeader => "corrupt header"@,
            CodecError::TruncatedStream => "truncated stream"@,
        }
    }
}

} // verus!
