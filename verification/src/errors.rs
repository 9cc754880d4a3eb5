//! The error taxonomy of the parser.
//!
//! Configuration errors come from the constructor, protocol violations and
//! resource-limit errors from feeding bytes, and the terminal-state error from
//! feeding a parser that already reached its end state.  Every error is fatal
//! to its parser instance; nothing is retried internally.

use vstd::prelude::*;

verus! {

#[derive(Clone, Copy, Debug, PartialEq, Eq, Structural)]
pub enum MultipartError {
    /// The boundary handed to the constructor is empty or longer than 70 bytes.
    InvalidBoundaryLength,
    /// The constructor was asked for a header charset other than `"utf-8"`.
    UnsupportedCharset,
    /// Bytes were fed after the parser reached its end state.
    TerminalState,
    /// Feeding the chunk would push the buffered input over the configured
    /// maximum size.
    SizeExceeded,
    /// A bare `LF` appeared where the wire format demands `CRLF`.
    InvalidLineBreak,
    /// A header line carries no `:` separator.
    MalformedHeader,
    /// A header line's name or value is not valid UTF-8.
    InvalidUtf8,
    /// A parameter segment of an options-style header value has no `=`.
    MalformedHeaderValue,
    /// A part's header block carries no `Content-Disposition` header.
    MissingContentDisposition,
    /// The `Content-Disposition` token of a part is not `form-data`.
    InvalidContentDisposition,
    /// The `Content-Disposition` header has no `name` parameter.
    MissingNameParameter,
    /// Body bytes arrived while no part was checked out for mutation.
    MissingCurrentPart,
}

} // verus!
