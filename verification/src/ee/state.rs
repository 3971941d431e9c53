use crate::ee::error::Error;
use vstd::prelude::*;

verus! {

/// Account state: code and storage slots, kept per address.
pub trait State<A, K, V> {
    /// The root of the whole state.
    fn root(&mut self) -> Result<V, Error<A>>;

    /// The code deployed at `address`.
    fn code(&self, address: &A) -> Result<&[u8], Error<A>>;

    /// Deploys `code` at `address`.
    fn deploy(&mut self, address: A, code: &[u8]) -> Result<(), Error<A>>;

    /// The value stored under `key` for `address`.
    fn get(&self, address: &A, key: &K) -> Option<&V>;

    /// Stores `value` under `key` for `address`, answering what it held.
    fn set(&mut self, address: &A, key: K, value: V) -> Result<Option<V>, Error<A>>;
}

} // verus!
