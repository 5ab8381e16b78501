//! A ledger of client accounts driven by a stream of payment events:
//! deposits, withdrawals, disputes, resolves and chargebacks.
//!
//! `transaction` decodes the fields of one event and renders amounts as text;
//! `engine` applies events to the accounts; `text` holds the character-level
//! helpers both rely on.
use vstd::prelude::*;

pub mod engine;
pub mod text;
pub mod transaction;

verus! {

} // verus!
