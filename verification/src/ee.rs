//! The execution environment as first laid out: account state behind a
//! trait, and call transactions with sender, nonce and signature.
use crate::node::process::{blob_processable, blob_result, blob_verdict, BlobError, Invocation};
use vstd::prelude::*;

pub mod error;
pub mod state;
pub mod transaction;

verus! {

/// The height of the address layer in the state tree of this environment.
pub const TREE_HEIGHT: u32 = 4;

/// Computes the post-state root of a data blob against `pre_state_root`:
/// the blob holds a four-byte proof offset `T`, `T` bytes of transaction
/// data, then the proof. The proof must yield `pre_state_root` and hold the
/// code of every recipient. The answer is the module calls the transactions
/// ask for, in order, and the post-state root.
pub fn process_data_blob(blob: &[u8], pre_state_root: &[u8; 32]) -> (r: (Vec<Invocation>, [u8; 32]))
    requires
        blob_processable(blob@, *pre_state_root, TREE_HEIGHT as nat),
    ensures
        blob_result(blob@, TREE_HEIGHT as nat, r.0@, r.1),
        r.1 == *pre_state_root,
{
    crate::node::process::process_data_blob(blob, pre_state_root, TREE_HEIGHT)
}

/// Processes a data blob where it can be processed (see `process_data_blob`),
/// and otherwise answers the first reason it cannot.
pub fn try_process_data_blob(blob: &[u8], pre_state_root: &[u8; 32]) -> (r: Result<
    (Vec<Invocation>, [u8; 32]),
    BlobError,
>)
    ensures
        match blob_verdict(blob@, *pre_state_root, TREE_HEIGHT as nat) {
            Err(e) => r == Err::<(Vec<Invocation>, [u8; 32]), BlobError>(e),
            Ok(_) => r matches Ok((calls, post)) && blob_result(blob@, TREE_HEIGHT as nat, calls@, post)
                && post == *pre_state_root,
        },
{
    crate::node::process::try_process_data_blob(blob, pre_state_root, TREE_HEIGHT)
}

} // verus!
