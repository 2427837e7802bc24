//! An access-accounting ledger: callers pay a fixed price per access unit,
//! the ledger credits their balance, and a separate operation debits one
//! unit per use.

pub mod ledger;
pub mod trace;
