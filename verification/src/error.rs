//! The error taxonomy of the decoder. Decoding aborts at the first
//! failure; no partial result is ever returned.

use vstd::prelude::*;

verus! {

/// Why a buffer was rejected by the decoder.
#[derive(Debug, Clone, Copy, PartialEq, Eq, Structural)]
pub enum DecodeError {
    /// A tuple count byte exceeded 250, or a table's declared
    /// `array_size + hash_size` does not fit in 32 bits.
    CountExceeded,
    /// A tag byte matched none of the six type sigils.
    UnknownTypeTag,
    /// A string payload was not valid UTF-8.
    InvalidUtf8,
    /// The buffer ended before the structure being parsed was complete.
    UnexpectedEndOfInput,
    /// A table key position held the NIL tag.
    NilKeyDisallowed,
    /// A table key position held a NUMBER payload with a NaN bit pattern.
    NaNKeyDisallowed,
}

} // verus!
