//! Contracts that can be deployed, and the storage layout they are
//! deployed with.
use crate::bytes::{le_encode, le_value};
use vstd::prelude::*;

pub mod hello_world;
pub mod wallet;

verus! {

/// The 32-byte leaf that holds `n`: its four little-endian bytes, then zeros.
pub open spec fn value_bytes(n: u32) -> Seq<u8> {
    le_encode(n as nat, 4) + Seq::new(28, |i: int| 0u8)
}

/// The leaf that holds `n` reads back as `n` when taken as a sixteen-byte
/// little-endian length, as the code length mix-in is read.
pub proof fn lemma_value_reads_back(n: u32)
    ensures
        le_value(value_bytes(n).take(16)) == n,
{
    crate::bytes::lemma_pow256_values();
    crate::bytes::lemma_le_roundtrip(n as nat, 4);
    assert(value_bytes(n).take(16) =~= le_encode(n as nat, 4) + Seq::new(12, |i: int| 0u8));
    crate::bytes::lemma_le_value_zero_tail(le_encode(n as nat, 4), 12);
}

/// The leaf that holds `n`.
pub open spec fn value_array(n: u32) -> [u8; 32] {
    choose|a: [u8; 32]| a@ == value_bytes(n)
}

/// The leaf holding the number `n`, as the storage of a contract keeps it.
pub fn u32_to_value(n: u32) -> (v: [u8; 32])
    ensures
        v@ == value_bytes(n),
        v == value_array(n),
{
    let v: [u8; 32] = [
        (n % 256) as u8,
        ((n / 256) % 256) as u8,
        ((n / 0x1_0000) % 256) as u8,
        ((n / 0x100_0000) % 256) as u8,
        0, 0, 0, 0, 0, 0, 0, 0, 0, 0, 0, 0, 0, 0,
        0, 0, 0, 0, 0, 0, 0, 0, 0, 0, 0, 0, 0, 0,
    ];
    proof {
        reveal_with_fuel(le_encode, 5);
        assert(v@ =~= value_bytes(n));
        let a = value_array(n);
        assert(a@ == value_bytes(n));
        assert(a =~= v);
    }
    v
}

} // verus!
