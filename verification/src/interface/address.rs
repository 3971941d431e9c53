use vstd::prelude::*;
use vstd::std_specs::convert::FromSpecImpl;
use vstd::std_specs::convert::TryFromSpecImpl;

verus! {

/// Number of bytes in an address.
pub const ADDRESS_SIZE: usize = 1;

/// The smallest key of the address range: `2^(8 * ADDRESS_SIZE)`.
pub const FIRST_ADDRESS: u128 = 256;

/// The largest key accepted as an address: `2^(8 * (ADDRESS_SIZE + 1))`.
pub const LAST_ADDRESS: u128 = 65536;

/// An account address: `ADDRESS_SIZE` raw bytes.
#[derive(Clone, Copy, Debug, PartialEq, Eq)]
pub struct Address([u8; ADDRESS_SIZE]);

impl View for Address {
    type V = Seq<u8>;

    closed spec fn view(&self) -> Seq<u8> {
        self.0@
    }
}

/// The bytes of an address always number `ADDRESS_SIZE`.
pub broadcast proof fn lemma_address_len(a: Address)
    ensures
        #[trigger] a@.len() == ADDRESS_SIZE,
{
}

/// Two addresses are the same value exactly when their bytes are.
pub proof fn lemma_address_ext(a: Address, b: Address)
    requires
        a@ == b@,
    ensures
        a == b,
{
    assert(a.0@ =~= b.0@);
    assert(a.0 == b.0);
}

/// The key of the general index at which an address's subtree is rooted.
pub open spec fn address_key(a: Address) -> u128 {
    (FIRST_ADDRESS + a@[0]) as u128
}

/// The address that a key names, if it lies in the address range.
pub open spec fn address_of_key(k: u128) -> Result<Address, u8> {
    if FIRST_ADDRESS <= k <= LAST_ADDRESS {
        Ok(address_from_byte((k % 256) as u8))
    } else {
        Err(0)
    }
}

/// The address made of one given byte.
pub closed spec fn address_from_byte(b: u8) -> Address {
    Address([b])
}

/// The address made of one byte holds that byte.
pub broadcast proof fn lemma_address_from_byte(b: u8)
    ensures
        #[trigger] address_from_byte(b)@ == seq![b],
{
    assert(address_from_byte(b)@ =~= seq![b]);
}

/// Converting an address to its key and back gives the same address.
pub proof fn lemma_address_key_roundtrip(a: Address)
    ensures
        address_of_key(address_key(a)) == Ok::<Address, u8>(a),
{
    lemma_address_from_byte(a@[0]);
    lemma_address_len(a);
    let b = address_from_byte((address_key(a) % 256) as u8);
    assert(b@ =~= a@);
    lemma_address_ext(b, a);
}

/// A key in the lower part of the address range, up to the key of the last
/// one-byte address, converts to an address and back to itself.
pub proof fn lemma_key_address_roundtrip(k: u128)
    requires
        FIRST_ADDRESS <= k < FIRST_ADDRESS + 256,
    ensures
        address_of_key(k) is Ok,
        address_key(address_of_key(k)->Ok_0) == k,
{
    lemma_address_from_byte((k % 256) as u8);
}

impl Address {
    pub fn new(t: [u8; ADDRESS_SIZE]) -> (a: Self)
        ensures
            a@ == t@,
    {
        Address(t)
    }

    /// The address whose bytes are all zero.
    pub fn zero() -> (a: Self)
        ensures
            a@ == seq![0u8],
    {
        let a = Address([0u8; ADDRESS_SIZE]);
        assert(a@ =~= seq![0u8]);
        a
    }

    /// The address whose single byte is one.
    pub fn one() -> (a: Self)
        ensures
            a@ == seq![1u8],
    {
        let a = Address([1u8; ADDRESS_SIZE]);
        assert(a@ =~= seq![1u8]);
        a
    }

    /// The raw bytes of the address.
    pub fn as_bytes(&self) -> (b: &[u8; ADDRESS_SIZE])
        ensures
            b@ == self@,
    {
        &self.0
    }
}

impl TryFrom<u128> for Address {
    type Error = u8;

    fn try_from(k: u128) -> (r: Result<Self, Self::Error>) {
        if k >= FIRST_ADDRESS && k <= LAST_ADDRESS {
            let byte: u8 = (k % 256) as u8;
            Ok(Address([byte]))
        } else {
            Err(0)
        }
    }
}

impl TryFromSpecImpl<u128> for Address {
    open spec fn obeys_try_from_spec() -> bool {
        true
    }

    open spec fn try_from_spec(k: u128) -> Result<Self, u8> {
        address_of_key(k)
    }
}

impl From<Address> for u128 {
    fn from(a: Address) -> (k: Self) {
        FIRST_ADDRESS + (a.0[0] as u128)
    }
}

impl FromSpecImpl<Address> for u128 {
    open spec fn obeys_from_spec() -> bool {
        true
    }

    open spec fn from_spec(a: Address) -> u128 {
        address_key(a)
    }
}

} // verus!
