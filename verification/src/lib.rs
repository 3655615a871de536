//! Consensus and state-tracking core of a single-node blockchain ledger.
//!
//! The crate accepts candidate blocks, validates them against chain rules
//! (linkage, hash integrity, proof-of-work difficulty), maintains the set of
//! unspent transaction outputs (UTXO), and resolves competing chain branches
//! by re-applying transactions along the winning branch, with
//! rollback-on-failure guarantees.

pub mod digest;
pub mod transaction;
pub mod utxo;
pub mod block;
pub mod difficulty;
pub mod chain;
