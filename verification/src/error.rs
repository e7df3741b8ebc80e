//! The errors of the log store and of the ledger.

use vstd::prelude::*;

verus! {

/// What can go wrong in the log store and in the ledger that is kept on it.
#[derive(Debug, Clone, Copy, PartialEq, Eq, Structural)]
pub enum Error {
    /// The store was poisoned by an earlier failure on its file, or the page
    /// to be written would end beyond the greatest file offset.
    Io,
    /// The encoder produced no bytes for a row.
    Serialization,
    /// The encoded row, with its length prefix, does not fit in one slot, or
    /// the tail page has no slot left for it.
    RowTooLarge,
    /// The page has no free slot, or the payload is too long for a slot.
    NoSpace,
    /// A debit would take the balance below what the limit allows.
    InsufficientLimit,
    /// The new balance does not fit in 64 bits.
    ArithmeticOverflow,
}

} // verus!
