//! What can stop a decode or an encode.
use vstd::prelude::*;

verus! {

/// The kinds of failure of the codec.
#[derive(Clone, Copy, Debug, PartialEq, Eq, Structural)]
pub enum ErrorKind {
    /// The stream ended in the middle of a field.
    ShortRead,
    /// A field descriptor has unknown flags or a bit width outside 1..=32.
    BadDescriptor,
    /// A message needed a delta decoder table entry that is not there.
    UnknownDdtKey,
    /// A user message id has no registration.
    UnknownUserMessage,
    /// A state-changing message reached the read-only decoder.
    ImmutableViolation,
    /// A value does not fit the width or count that the wire allows for it.
    EncodeOverflow,
    /// A value does not have the kind that its field descriptor asks for.
    ValueMismatch,
    /// An engine message type that this codec has no layout for.
    UnsupportedMessage,
}

/// A failure of `decode`: its kind, and the byte offset of the message that failed.
#[derive(Clone, Copy, Debug, PartialEq, Eq, Structural)]
pub struct ParseError {
    pub kind: ErrorKind,
    pub offset: usize,
}

} // verus!
