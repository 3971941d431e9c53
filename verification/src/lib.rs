//! An Ethereum 2.0 execution environment: the byte formats of transactions
//! and state proofs, the processing of a data blob against a pre-state root,
//! the storage layout of deployed contracts, and an engine that frames
//! blobs, with their contracts proved.

pub mod bytes;
pub mod contracts;
pub mod ee;
pub mod engine;
pub mod interface;
pub mod kernel;
pub mod merkle_tree;
pub mod node;
pub mod tree_index;
