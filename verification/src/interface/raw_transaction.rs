use crate::bytes::{copy_range, le_value, read_le};
use crate::interface::address::{address_from_byte, lemma_address_from_byte, Address, ADDRESS_SIZE};
use vstd::prelude::*;

verus! {

/// What a serialized transaction says: its length, its recipient and its
/// call data.
pub struct RawTransactionView {
    pub length: u32,
    pub to: Address,
    pub data: Seq<u8>,
}

/// The length field: the first four bytes, little-endian.
pub open spec fn raw_tx_length(s: Seq<u8>) -> nat {
    le_value(s.take(4))
}

/// `s` starts with a whole transaction: a length prefix, then `length`
/// bytes that hold the recipient followed by the call data.
pub open spec fn raw_tx_wf(s: Seq<u8>) -> bool {
    &&& s.len() >= 4
    &&& raw_tx_length(s) >= ADDRESS_SIZE
    &&& 4 + raw_tx_length(s) <= s.len()
}

/// The number of bytes that the transaction at the front of `s` occupies.
pub open spec fn raw_tx_size(s: Seq<u8>) -> nat {
    4 + raw_tx_length(s)
}

/// The transaction that a well-formed `s` starts with.
pub open spec fn parse_raw_tx(s: Seq<u8>) -> RawTransactionView {
    RawTransactionView {
        length: raw_tx_length(s) as u32,
        to: address_from_byte(s[4]),
        data: s.subrange(4 + ADDRESS_SIZE, 4 + raw_tx_length(s) as int),
    }
}

/// A transaction read from its serialized form.
#[derive(Debug, PartialEq)]
pub struct RawTransaction {
    length: u32,
    to: Address,
    data: Vec<u8>,
}

impl View for RawTransaction {
    type V = RawTransactionView;

    closed spec fn view(&self) -> RawTransactionView {
        RawTransactionView { length: self.length, to: self.to, data: self.data@ }
    }
}

impl RawTransaction {
    /// Reads the transaction at the front of `bytes`.
    pub fn from_ptr(bytes: &[u8]) -> (tx: Self)
        requires
            raw_tx_wf(bytes@),
        ensures
            tx@ == parse_raw_tx(bytes@),
    {
        proof {
            crate::bytes::lemma_le_value_bound(bytes@.take(4));
            crate::bytes::lemma_pow256_values();
            assert(bytes@.subrange(0, 4) =~= bytes@.take(4));
        }
        let length = read_le(bytes, 0, 4) as u32;
        assert(length == raw_tx_length(bytes@));
        assert(bytes@.len() == bytes.len());
        let end: usize = 4 + length as usize;
        let to = Address::new([bytes[4]]);
        let data = copy_range(bytes, 4 + ADDRESS_SIZE, end);
        proof {
            lemma_address_from_byte(bytes@[4]);
            assert(to@ =~= address_from_byte(bytes@[4])@);
            crate::interface::address::lemma_address_ext(to, address_from_byte(bytes@[4]));
        }
        RawTransaction { length, to, data }
    }

    /// The length field: the size of the recipient and the call data together.
    pub fn length(&self) -> (l: u32)
        ensures
            l == self@.length,
    {
        self.length
    }

    /// The recipient.
    pub fn to(&self) -> (a: &Address)
        ensures
            *a == self@.to,
    {
        &self.to
    }

    /// The call data.
    pub fn data(&self) -> (d: &[u8])
        ensures
            d@ == self@.data,
    {
        self.data.as_slice()
    }
}

} // verus!

verus! {

/// `s` is a sequence of whole transactions, back to back.
pub open spec fn tx_stream_wf(s: Seq<u8>) -> bool
    decreases s.len(),
{
    if s.len() == 0 {
        true
    } else if !raw_tx_wf(s) {
        false
    } else {
        tx_stream_wf(s.skip(raw_tx_size(s) as int))
    }
}

/// The transactions that `s` holds, in order.
pub open spec fn tx_stream(s: Seq<u8>) -> Seq<RawTransactionView>
    decreases s.len(),
{
    if s.len() == 0 || !raw_tx_wf(s) {
        Seq::empty()
    } else {
        seq![parse_raw_tx(s)] + tx_stream(s.skip(raw_tx_size(s) as int))
    }
}

} // verus!
