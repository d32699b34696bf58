//! Errors of decoding and encoding.
use vstd::prelude::*;

verus! {

/// Why a message could not be decoded.
#[derive(Debug, Clone, Copy, PartialEq, Eq)]
pub enum DecodeError {
    /// The bytes end before the fixed header and magic cookie do.
    NotEnoughBytes,
    /// The magic cookie is not 99.130.83.99; the value read is given,
    /// most significant byte first, with a description.
    InvalidData(u32, &'static str),
}

/// Why a message could not be encoded.
#[derive(Debug, Clone, Copy, PartialEq, Eq, Structural)]
pub enum EncodeError {
    /// The options do not fit in the given size, even after the `file` and
    /// `sname` fields are used for options.
    MessageTooLarge { max_len: usize },
}

} // verus!
