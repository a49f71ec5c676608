use vstd::prelude::*;

verus! {

/// Why an encode or a decode gave up.
#[derive(Clone, Copy, Debug, PartialEq, Eq, Structural)]
pub enum TlvError {
    /// The input ended before the bytes or frames that were asked for.
    TruncatedInput,
    /// A field that must be on the wire has no frame; the tag is the field's.
    MissingField(u8),
    /// The bytes are there but are not a value of the type that was asked for.
    InvalidEncoding,
    /// The stream underneath failed. The in-memory codec never returns this
    /// itself: it is here for callers that feed it from a real stream.
    IoFailure,
    /// The value does not fit the width of the length or count that precedes it.
    ValueTooLarge,
}

} // verus!
