use std::collections::BTreeMap;
use vstd::prelude::*;

verus! {

/// A contract that can be deployed: its compiled code, and the storage that
/// deploys it.
pub trait Contract: Sized {
    /// The compiled code.
    spec fn code_view(&self) -> Seq<u8>;

    /// The storage of the contract can be laid out.
    spec fn mappable(&self) -> bool;

    /// The storage that deploys the contract, by subtree index.
    spec fn storage(&self) -> Map<u128, [u8; 32]>;

    /// The compiled code.
    fn bytecode(&self) -> (b: &[u8])
        ensures
            b@ == self.code_view(),
    ;

    /// The storage that deploys the contract.
    fn to_map(&self) -> (m: BTreeMap<u128, [u8; 32]>)
        requires
            self.mappable(),
        ensures
            m@ == self.storage(),
    ;
}

} // verus!
