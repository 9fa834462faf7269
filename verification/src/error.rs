use vstd::prelude::*;

verus! {

/// A frame carried a tag byte outside the recognized set; the offending byte
/// is kept for diagnostics.
#[derive(Clone, Copy, Debug, PartialEq, Eq, Structural)]
pub struct UnknownMessageType(pub u8);

/// A frame's length exceeded the ceiling for its message class; the observed
/// length is kept.
#[derive(Clone, Copy, Debug, PartialEq, Eq, Structural)]
pub struct MessageTooLarge(pub usize);

/// Error taxonomy shared by the native binary codec and the compat codec.
#[derive(Clone, Copy, Debug, PartialEq, Eq, Structural)]
pub enum BitswapError {
    /// A message tag byte outside the recognized set.
    UnknownMessage(UnknownMessageType),
    /// A frame longer than the applicable ceiling.
    TooLarge(MessageTooLarge),
    /// Structurally inconsistent input: a malformed identifier, a dangling
    /// token-table index, or an overlong length encoding.
    InvalidData,
    /// Fewer bytes available than a declared length requires.
    UnexpectedEnd,
    /// A length value that does not fit the wire integer type.
    InvalidInput,
}

} // verus!
