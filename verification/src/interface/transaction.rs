use crate::bytes::{append_all, le_encode, lemma_le_roundtrip, lemma_pow256_values, push_le};
use crate::interface::address::{
    address_from_byte, lemma_address_ext, lemma_address_from_byte, lemma_address_len, Address,
    ADDRESS_SIZE,
};
use crate::interface::raw_transaction::{parse_raw_tx, raw_tx_size, raw_tx_wf, RawTransactionView};
use vstd::prelude::*;

verus! {

/// The length field of a transaction: recipient and call data together,
/// kept to 32 bits.
pub open spec fn tx_len(data_len: nat) -> u32 {
    ((ADDRESS_SIZE + data_len) % 0x1_0000_0000) as u32
}

/// The serialized form: the length field in four little-endian bytes, the
/// recipient's bytes, then the call data.
pub open spec fn tx_bytes(to: Address, data: Seq<u8>) -> Seq<u8> {
    le_encode(tx_len(data.len()) as nat, 4) + to@ + data
}

/// A transaction to send to a contract.
pub struct Transaction {
    to: Address,
    data: Vec<u8>,
}

impl View for Transaction {
    type V = (Address, Seq<u8>);

    closed spec fn view(&self) -> (Address, Seq<u8>) {
        (self.to, self.data@)
    }
}

impl Transaction {
    pub fn new(to: Address, data: Vec<u8>) -> (tx: Self)
        ensures
            tx@ == (to, data@),
    {
        Self { to, data }
    }

    /// The size of the recipient and the call data together.
    pub fn len(&self) -> (l: u32)
        ensures
            l == tx_len(self@.1.len()),
    {
        let total: u128 = ADDRESS_SIZE as u128 + self.data.len() as u128;
        (total % 0x1_0000_0000) as u32
    }

    /// The serialized transaction.
    pub fn to_bytes(&self) -> (b: Vec<u8>)
        ensures
            b@ == tx_bytes(self@.0, self@.1),
    {
        let mut ret: Vec<u8> = Vec::new();
        push_le(&mut ret, self.len() as u128, 4);
        append_all(&mut ret, self.to.as_bytes());
        append_all(&mut ret, self.data.as_slice());
        assert(ret@ =~= tx_bytes(self@.0, self@.1));
        ret
    }
}

/// A serialized transaction reads back as the transaction that was written:
/// its bytes form one whole transaction, whose length field, recipient and
/// call data are those of the one written, as long as the length field does not
/// wrap around.
pub proof fn lemma_serialized_transaction_reads_back(to: Address, data: Seq<u8>)
    requires
        ADDRESS_SIZE + data.len() < 0x1_0000_0000,
    ensures
        raw_tx_wf(tx_bytes(to, data)),
        raw_tx_size(tx_bytes(to, data)) == tx_bytes(to, data).len(),
        parse_raw_tx(tx_bytes(to, data)) == (RawTransactionView {
            length: tx_len(data.len()),
            to,
            data,
        }),
{
    let l = tx_len(data.len());
    let s = tx_bytes(to, data);
    lemma_pow256_values();
    lemma_le_roundtrip(l as nat, 4);
    lemma_address_len(to);
    assert(s.take(4) =~= le_encode(l as nat, 4));
    assert(s.subrange(4 + ADDRESS_SIZE, 4 + l as int) =~= data);
    lemma_address_from_byte(s[4]);
    assert(address_from_byte(s[4])@ =~= to@);
    lemma_address_ext(address_from_byte(s[4]), to);
}

} // verus!
