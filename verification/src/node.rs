//! The execution environment that runs inside the shard: it reads a state
//! proof and a batch of transactions, and calls the contracts they address.
pub mod error;
pub mod memory;
pub mod state;
pub mod process;

use vstd::prelude::*;

verus! {

/// The height of the address layer in the state tree of the environment.
pub const TREE_HEIGHT: u32 = 2;

} // verus!
