use vstd::prelude::*;

verus! {

/// Why a value could not be encoded or decoded.
#[derive(Debug, Clone, Copy, PartialEq, Eq, Structural)]
pub enum Error {
    /// Fewer bytes remained than a fixed-width read needs; holds how many were missing.
    ExpectedBytes(u32),
    /// A decoded tag or flag lay outside `start..=end`.
    ExpectedRange { start: u64, end: u64 },
    /// The bytes of a text value were not valid UTF-8.
    InvalidUtf8,
    /// A container's length does not fit in the length prefix (or, when decoding, in a `usize`).
    TooLarge { needed_bytes: u32, max_bytes: u32 },
    /// A decoded 32-bit value is not a Unicode scalar value.
    InvalidChar,
}

} // verus!
