//! The rules of the service that answers for the accounts: which accounts
//! there are, and what a request is answered with.

use vstd::prelude::*;

verus! {

/// The status of an answer that carries what was asked for.
pub const OK: u16 = 200;

/// The status of an answer to a request for an account that does not exist.
pub const NOT_FOUND: u16 = 404;

/// The status of an answer to a transaction that was not made.
pub const UNPROCESSABLE_ENTITY: u16 = 422;

/// The limit of the account with number `id`, for the five accounts that
/// there are.
pub open spec fn limit_for(id: u8) -> Option<i64> {
    if id == 1 {
        Some(100_000i64)
    } else if id == 2 {
        Some(80_000i64)
    } else if id == 3 {
        Some(1_000_000i64)
    } else if id == 4 {
        Some(10_000_000i64)
    } else if id == 5 {
        Some(500_000i64)
    } else {
        None
    }
}

/// The limit of the account with number `id`, or `None` where there is no
/// such account.
pub fn limit_of(id: u8) -> (limit: Option<i64>)
    ensures
        limit == limit_for(id),
{
    match id {
        1 => Some(100_000),
        2 => Some(80_000),
        3 => Some(1_000_000),
        4 => Some(10_000_000),
        5 => Some(500_000),
        _ => None,
    }
}

/// The status that a request for a transaction is answered with: not found
/// where the account does not exist, whatever became of the transaction;
/// else unprocessable where the transaction was not made, for whatever
/// reason; else ok.
pub fn transaction_status(known: bool, made: bool) -> (status: u16)
    ensures
        status == if !known {
            NOT_FOUND
        } else if !made {
            UNPROCESSABLE_ENTITY
        } else {
            OK
        },
{
    if !known {
        NOT_FOUND
    } else if !made {
        UNPROCESSABLE_ENTITY
    } else {
        OK
    }
}

/// The status that a request for a statement is answered with: ok for an
/// account that exists, and not found otherwise.
pub fn statement_status(known: bool) -> (status: u16)
    ensures
        status == if known {
            OK
        } else {
            NOT_FOUND
        },
{
    if known {
        OK
    } else {
        NOT_FOUND
    }
}

} // verus!
