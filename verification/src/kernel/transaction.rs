use crate::bytes::{copy_range, le_value, read_array, read_le};
use crate::kernel::address::{Address, ADDRESS_SIZE};
use vstd::prelude::*;

verus! {

/// The length field: the first four bytes, little-endian.
pub open spec fn kernel_tx_length(s: Seq<u8>) -> nat {
    le_value(s.take(4))
}

/// `s` starts with a whole transaction: a length prefix, then `length`
/// bytes that hold the 20-byte recipient followed by the call data.
pub open spec fn kernel_tx_wf(s: Seq<u8>) -> bool {
    &&& s.len() >= 4
    &&& kernel_tx_length(s) >= ADDRESS_SIZE
    &&& 4 + kernel_tx_length(s) <= s.len()
}

/// A transaction read from its serialized form: a four-byte little-endian
/// length, the recipient, then the call data.
#[derive(Debug, PartialEq)]
pub struct Transaction {
    length: u32,
    to: Address,
    data: Vec<u8>,
}

impl View for Transaction {
    /// The length field, the recipient's bytes and the call data.
    type V = (u32, Seq<u8>, Seq<u8>);

    closed spec fn view(&self) -> (u32, Seq<u8>, Seq<u8>) {
        (self.length, self.to@, self.data@)
    }
}

impl Transaction {
    /// Reads the transaction at the front of `bytes`.
    pub fn from_ptr(bytes: &[u8]) -> (tx: Transaction)
        requires
            kernel_tx_wf(bytes@),
        ensures
            tx@ == (
                kernel_tx_length(bytes@) as u32,
                bytes@.subrange(4, 4 + ADDRESS_SIZE),
                bytes@.subrange(4 + ADDRESS_SIZE, 4 + kernel_tx_length(bytes@) as int),
            ),
    {
        proof {
            crate::bytes::lemma_le_value_bound(bytes@.take(4));
            crate::bytes::lemma_pow256_values();
            assert(bytes@.subrange(0, 4) =~= bytes@.take(4));
        }
        let length = read_le(bytes, 0, 4) as u32;
        assert(bytes@.len() == bytes.len());
        let end: usize = 4 + length as usize;
        let to = Address::new(read_array(bytes, 4));
        let data = copy_range(bytes, 4 + ADDRESS_SIZE, end);
        Transaction { length, to, data }
    }

    /// The length field: the size of the recipient and the call data together.
    pub fn length(&self) -> (l: u32)
        ensures
            l == self@.0,
    {
        self.length
    }

    /// The recipient.
    pub fn to(&self) -> (a: &Address)
        ensures
            a@ == self@.1,
    {
        &self.to
    }

    /// The call data.
    pub fn data(&self) -> (d: &[u8])
        ensures
            d@ == self@.2,
    {
        self.data.as_slice()
    }
}

} // verus!
