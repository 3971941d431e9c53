use vstd::prelude::*;

verus! {

/// Why the state could not answer.
#[derive(Debug, PartialEq)]
pub enum Error<A> {
    /// The proof holds nothing for this address.
    MissingProof(A),
    /// The proof lacks the node with this general index.
    MissingNode(u128),
}

} // verus!
