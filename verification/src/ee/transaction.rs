use crate::bytes::{le_encode, le_value, lemma_le_value_bound, lemma_pow256_values, read_array, read_le};
use vstd::prelude::*;

verus! {

/// An account address: 20 bytes.
pub type Address = [u8; 20];

/// Byte offsets within a serialized call.
pub const CALL_FROM: usize = 20;

pub const CALL_NONCE: usize = 40;

pub const CALL_SIGNATURE: usize = 48;

pub const CALL_DATA_LENGTH: usize = 144;

pub const CALL_DATA: usize = 148;

/// What a serialized call says: the header fields, and the bytes the call
/// is read from, whose call data is read where it is used.
pub struct CallView {
    pub to: Seq<u8>,
    pub from: Seq<u8>,
    pub nonce: u64,
    pub signature: Seq<u8>,
    pub data_length: u32,
    pub bytes: Seq<u8>,
}

/// The length of the call data: four little-endian bytes at offset 144.
pub open spec fn call_data_length(s: Seq<u8>) -> nat {
    le_value(s.subrange(CALL_DATA_LENGTH as int, CALL_DATA as int))
}

/// The call whose header `s` starts with: recipient, sender, nonce,
/// signature and data length; the data follows the header.
pub open spec fn parse_call(s: Seq<u8>) -> CallView {
    CallView {
        to: s.subrange(0, CALL_FROM as int),
        from: s.subrange(CALL_FROM as int, CALL_NONCE as int),
        nonce: le_value(s.subrange(CALL_NONCE as int, CALL_SIGNATURE as int)) as u64,
        signature: s.subrange(CALL_SIGNATURE as int, CALL_DATA_LENGTH as int),
        data_length: call_data_length(s) as u32,
        bytes: s,
    }
}

/// A call laid out field by field reads back as those fields: the recipient
/// is the first twenty bytes as they stand, then the sender, the nonce in
/// eight little-endian bytes, the signature, the data length in four
/// little-endian bytes, and the data right after the header.
pub proof fn lemma_call_layout_reads_back(
    to: Seq<u8>,
    from: Seq<u8>,
    nonce: u64,
    signature: Seq<u8>,
    data_length: u32,
    data: Seq<u8>,
)
    requires
        to.len() == 20,
        from.len() == 20,
        signature.len() == 96,
    ensures
        ({
            let s = to + from + le_encode(nonce as nat, 8) + signature + le_encode(
                data_length as nat,
                4,
            ) + data;
            let c = parse_call(s);
            &&& c.to == to
            &&& c.from == from
            &&& c.nonce == nonce
            &&& c.signature == signature
            &&& c.data_length == data_length
            &&& c.bytes.subrange(CALL_DATA as int, CALL_DATA + data.len()) == data
        }),
{
    lemma_pow256_values();
    crate::bytes::lemma_le_roundtrip(nonce as nat, 8);
    crate::bytes::lemma_le_roundtrip(data_length as nat, 4);
    let n = le_encode(nonce as nat, 8);
    let l = le_encode(data_length as nat, 4);
    let s = to + from + n + signature + l + data;
    assert(s.subrange(0, 20) =~= to);
    assert(s.subrange(20, 40) =~= from);
    assert(s.subrange(40, 48) =~= n);
    assert(s.subrange(48, 144) =~= signature);
    assert(s.subrange(144, 148) =~= l);
    assert(s.subrange(148, 148 + data.len() as int) =~= data);
}

/// The transaction type: four little-endian bytes at the front.
pub open spec fn tx_type(s: Seq<u8>) -> nat {
    le_value(s.take(4))
}

/// A serialized transaction.
#[derive(Debug, PartialEq)]
pub enum Transaction<'a> {
    Deploy(Deploy),
    Call(Call<'a>),
}

/// A deployment.
#[derive(Debug, PartialEq)]
pub struct Deploy;

/// A call of a contract: its header, read from the bytes it keeps.
#[derive(Clone, Debug, PartialEq)]
pub struct Call<'a> {
    to: Address,
    from: Address,
    nonce: u64,
    signature: [u8; 96],
    data_length: u32,
    bytes: &'a [u8],
}

impl<'a> View for Call<'a> {
    type V = CallView;

    closed spec fn view(&self) -> CallView {
        CallView {
            to: self.to@,
            from: self.from@,
            nonce: self.nonce,
            signature: self.signature@,
            data_length: self.data_length,
            bytes: self.bytes@,
        }
    }
}

impl<'a> Transaction<'a> {
    /// Reads the transaction at the front of `bytes`. Only calls (type 1)
    /// are read; deployments are not.
    pub fn from_ptr(bytes: &'a [u8]) -> (tx: Transaction<'a>)
        requires
            bytes@.len() >= 4 + CALL_DATA,
            tx_type(bytes@) == 1,
        ensures
            tx matches Transaction::Call(c) && c@ == parse_call(bytes@.skip(4)),
    {
        let rest = &bytes[4..bytes.len()];
        assert(rest@ =~= bytes@.skip(4));
        Transaction::Call(Call::new(rest))
    }

    /// The length of a call transaction: 144 plus the length of the call.
    pub fn length(&self) -> (l: u32)
        requires
            self is Call,
            144 + 148 + self->Call_0@.data_length <= u32::MAX,
        ensures
            l == 144 + 148 + self->Call_0@.data_length,
    {
        match self {
            Transaction::Call(c) => 144 + c.length(),
            Transaction::Deploy(_) => {
                proof {
                    assert(false);
                }
                0
            },
        }
    }
}

impl<'a> Call<'a> {
    /// Reads the header of the call at the front of `bytes`; the call data
    /// is read where it is used.
    pub fn new(bytes: &'a [u8]) -> (c: Call<'a>)
        requires
            bytes@.len() >= CALL_DATA,
        ensures
            c@ == parse_call(bytes@),
    {
        proof {
            lemma_le_value_bound(bytes@.subrange(CALL_DATA_LENGTH as int, CALL_DATA as int));
            lemma_le_value_bound(bytes@.subrange(CALL_NONCE as int, CALL_SIGNATURE as int));
            lemma_pow256_values();
        }
        let data_length = read_le(bytes, CALL_DATA_LENGTH, 4) as u32;
        Call {
            to: read_array(bytes, 0),
            from: read_array(bytes, CALL_FROM),
            nonce: read_le(bytes, CALL_NONCE, 8) as u64,
            signature: read_array(bytes, CALL_SIGNATURE),
            data_length,
            bytes,
        }
    }

    /// The length of the serialized call: 148 plus the data length.
    pub fn length(&self) -> (l: u32)
        requires
            148 + self@.data_length <= u32::MAX,
        ensures
            l == 148 + self@.data_length,
    {
        148 + self.data_length
    }

    /// The recipient.
    pub fn to(&self) -> (a: &Address)
        ensures
            a@ == self@.to,
    {
        &self.to
    }

    /// The sender.
    pub fn from(&self) -> (a: &Address)
        ensures
            a@ == self@.from,
    {
        &self.from
    }

    /// The sender's nonce.
    pub fn nonce(&self) -> (n: u64)
        ensures
            n == self@.nonce,
    {
        self.nonce
    }

    /// The signature over the call.
    pub fn signature(&self) -> (s: &[u8; 96])
        ensures
            s@ == self@.signature,
    {
        &self.signature
    }

    /// The call data: `data_length` bytes after the header, which the bytes
    /// the call was read from must hold.
    pub fn data(&self) -> (d: &[u8])
        requires
            CALL_DATA + self@.data_length <= self@.bytes.len(),
        ensures
            d@ == self@.bytes.subrange(CALL_DATA as int, CALL_DATA + self@.data_length),
    {
        assert(self.bytes@.len() == self.bytes.len());
        let end: usize = CALL_DATA + self.data_length as usize;
        &self.bytes[CALL_DATA..end]
    }
}

} // verus!
