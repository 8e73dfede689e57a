//! Verified in-memory storage engine for a Raft consensus core.
//!
//! The library models the durable state a replication core relies on:
//! a truncatable, range-queryable log of entries, the applied state
//! machine with its membership, the persisted hard state (term and
//! vote), and the current compacting snapshot.  Every operation's
//! behaviour is stated in its contract and proved.

pub mod laws;
pub mod store;
pub mod types;
