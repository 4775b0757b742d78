//! Durable-storage contract for a Raft consensus node.
//!
//! The `storage` module defines the capability set a concrete store must
//! implement, together with the derived reconciliation algorithms (membership
//! resolution, initial-state recovery, strict log-range queries) that are
//! written once against that capability set. The `mem_store` module provides
//! an in-memory store satisfying the contract, and the `laws` module states
//! the guarantees that relate several operations — determinism of the
//! reconciliation results, and what a sequence of snapshot installations
//! leaves behind.

pub mod errors;
pub mod laws;
pub mod mem_store;
pub mod storage;
pub mod types;
