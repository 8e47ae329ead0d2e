//! Verifiable compression core for a chain indexer.
//!
//! The crate turns raw chain entities (accounts, blocks, transactions) into
//! compressed, commitment-bearing records, maintains a Merkle authentication
//! tree over their digests, checks zero-knowledge proofs over stored records,
//! and drives a sequential, checkpointed indexing loop over a storage
//! contract.

pub mod codec;
pub mod commitment;
pub mod config;
pub mod error;
pub mod field;
pub mod indexer;
pub mod instruction;
pub mod merkle;
pub mod metrics;
pub mod poseidon;
pub mod records;
pub mod storage;
pub mod zk;
