use vstd::prelude::*;

verus! {

/// Why a parse or a text decode failed.
#[derive(Debug, Clone, Copy, PartialEq, Eq, Structural)]
pub enum ParseError {
    /// Fewer bytes are available than a field requires.
    InsufficientBytes,
    /// A decoded value does not fit the type that the record gives it.
    InvalidEncoding,
    /// Payload bytes are not valid UTF-8 where text was asked for.
    InvalidText,
}

} // verus!
