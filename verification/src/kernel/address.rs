use vstd::prelude::*;

verus! {

/// Number of bytes in an address.
pub const ADDRESS_SIZE: usize = 20;

/// An account address: `ADDRESS_SIZE` raw bytes.
#[derive(Clone, Copy, Debug, PartialEq, Eq)]
pub struct Address(pub(crate) [u8; ADDRESS_SIZE]);

impl View for Address {
    type V = Seq<u8>;

    closed spec fn view(&self) -> Seq<u8> {
        self.0@
    }
}

impl Address {
    pub fn new(t: [u8; ADDRESS_SIZE]) -> (a: Self)
        ensures
            a@ == t@,
    {
        Address(t)
    }

    /// The address whose bytes are all zero.
    pub fn zero() -> (a: Self)
        ensures
            a@ == Seq::new(ADDRESS_SIZE as nat, |i: int| 0u8),
    {
        let a = Address([0u8; ADDRESS_SIZE]);
        assert(a@ =~= Seq::new(ADDRESS_SIZE as nat, |i: int| 0u8));
        a
    }
}

} // verus!
