//! What can go wrong between raw bytes and per-user totals.

use vstd::prelude::*;

verus! {

/// Why a buffer is not a record.
#[derive(Clone, Copy, Debug, PartialEq, Eq, Structural)]
pub enum DecodeError {
    /// The buffer is not exactly as long as the tag and the record together.
    BadLength,
    /// A byte that stands for an enumeration or a flag has no such meaning.
    BadField,
}

/// Why a query gave no totals.
#[derive(Clone, Copy, Debug, PartialEq, Eq, Structural)]
pub enum RainError {
    /// One of the buffers is not a record.
    Decode(DecodeError),
    /// A user's total does not fit in 64 bits.
    ArithmeticOverflow,
}

} // verus!
