//! A deterministic, verified test double for a sharded chain node: an epoch
//! index over block ancestry and a replay-protected transfer ledger.
pub mod account;
pub mod chunk;
pub mod encoding;
pub mod epoch;
pub mod hash;
pub mod header;
pub mod runtime;
pub mod schedule;
pub mod snapshot;
pub mod table;
