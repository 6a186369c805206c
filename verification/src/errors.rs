//! The error taxonomy of the extractor.

use vstd::prelude::*;

verus! {

/// Everything that can end the producer side of a run early.
///
/// The structural variants are fatal to extraction: the partially filled
/// document buffer is discarded and no further documents are produced.
/// `InvalidUtf8Document` is raised only when a completed document buffer is
/// converted to text for hand-off.  `PipelineAborted` does not come from
/// extraction at all: it is raised to the producer when a backpressure wait
/// times out while the crash flag is set, and tells a genuinely full queue
/// apart from one nobody will ever drain again.
#[derive(Clone, Copy, Debug, PartialEq, Eq, Structural)]
pub enum ParseError {
    /// The input ended where the grammar still required a byte.
    UnexpectedEndOfInput,
    /// A value was expected but the next byte can start no value.
    InvalidTokenStart,
    /// An object key was not followed by `:`.
    InvalidKeyValueSeparator,
    /// An array element was followed by neither `,` nor `]`.
    InvalidArrayTerminator,
    /// An object member was followed by neither `,` nor `}`.
    UnexpectedDocumentTerminator,
    /// An unescaped byte below 0x20 appeared inside a string.
    ControlCharacterInString,
    /// A bare token was demanded where zero token bytes matched.
    EmptyToken,
    /// Wrapped-array mode, but the first non-whitespace byte was not `[`.
    ExpectedArrayStart,
    /// A completed document buffer was not valid UTF-8.
    InvalidUtf8Document,
    /// A backpressure wait timed out while the crash flag was set: a
    /// consumer died, so the producer stops feeding new work.
    PipelineAborted,
}

} // verus!
