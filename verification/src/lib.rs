//! Core of a Bitcoin light client: 256-bit arithmetic, block headers and
//! proof-of-work rules, a checksummed header log, a work-weighted block tree
//! with reorganisation, a filter-header cache, the header synchronisation
//! state machine, and the engine that keeps the three in step.

pub mod arena;
pub mod engine;
pub mod filter;
pub mod handle;
pub mod hash;
pub mod header;
pub mod index;
pub mod laws;
pub mod network;
pub mod pow;
pub mod prune;
pub mod rules;
pub mod store;
pub mod sync;
pub mod tree;
pub mod uint256;
