//! A test-driven-development ratchet: a ledger records each tracked test as
//! pending or passing; a run of the suite may promote pending tests and add
//! new failing ones, but a test may not pass on its first appearance, regress
//! or vanish, and the commit history must show every test pending first.
//!
//! - `status`: the ledger and its entries.
//! - `ratchet`: the evaluation of a run against the ledger and the history.
//! - `history`: the ledger's snapshots in the commit history and the rule
//!   that each test's first recorded state was pending.
//! - `json`: the ledger's saved form.
//! - `runner`: test outcomes read from the harness's events.
//! - `errors`: the report shown to the user.
//! - `text`: character-level helpers.

use vstd::prelude::*;

pub mod status;
pub mod text;
pub mod runner;
pub mod ratchet;
pub mod history;
pub mod errors;
pub mod json;

verus! {

} // verus!
