//! An in-memory transaction pool for a blockchain node.
//!
//! The pool accepts candidate transactions, validates them against a snapshot
//! of persistent state, maintains a dependency graph between resident
//! transactions, resolves collisions between transactions that claim the same
//! inputs, enforces multi-dimensional capacity limits by eviction, and
//! extracts gas-bounded, dependency-respecting batches for block production.

pub mod assoc;
pub mod balances;
pub mod collision_manager;
pub mod config;
pub mod error;
pub mod messages;
pub mod off_chain;
pub mod peer_report;
pub mod protocols;
pub mod pool;
pub mod ratio;
pub mod selection_algorithms;
pub mod state_view;
pub mod storage;
pub mod types;
