//! The proof store of the `oof` crate: a map from general indices to
//! 32-byte nodes.
use oof::Error as OofError;
use oof::Oof as ProofStore;
use crate::bytes::le_encode;
use std::collections::BTreeMap;
use vstd::prelude::*;

verus! {

#[verifier::external_type_specification]
#[verifier::external_body]
pub struct ExOof(ProofStore);

#[verifier::external_type_specification]
#[verifier::external_body]
pub struct ExOofError(OofError);

/// The nodes that an `oof::Oof` holds, by general index.
pub uninterp spec fn oof_entries(m: ProofStore) -> Map<u128, [u8; 32]>;

/// What `oof::Oof::root` leaves behind and answers, given the nodes it
/// starts from: it hashes missing parents up to the root (general index 1),
/// and answers the root node, or fails where a sibling is missing.
pub uninterp spec fn oof_root_outcome(entries: Map<u128, [u8; 32]>) -> (
    Map<u128, [u8; 32]>,
    Option<[u8; 32]>,
);

/// `ks` lists the keys of `entries` in ascending order, each once.
pub open spec fn keys_ascending(ks: Seq<u128>, entries: Map<u128, [u8; 32]>) -> bool {
    &&& forall|i: int, j: int| 0 <= i < j < ks.len() ==> ks[i] < ks[j]
    &&& forall|k: u128| entries.contains_key(k) <==> ks.contains(k)
}

/// `b` lays out the nodes of `entries` in the order `ks`: their number in
/// four little-endian bytes (wrapped to 32 bits), each key in sixteen
/// little-endian bytes, then each node's 32 bytes, in the same order.
pub open spec fn laid_out(b: Seq<u8>, ks: Seq<u128>, entries: Map<u128, [u8; 32]>) -> bool {
    let n = ks.len();
    &&& b.len() == 4 + 48 * n
    &&& b.take(4) == le_encode(n % 0x1_0000_0000, 4)
    &&& forall|i: int|
        0 <= i < n ==> #[trigger] b.subrange(4 + 16 * i, 20 + 16 * i) == le_encode(ks[i] as nat, 16)
    &&& forall|i: int|
        0 <= i < n ==> #[trigger] b.subrange(4 + 16 * n + 32 * i, 36 + 16 * n + 32 * i)
            == entries[ks[i]]@
}

/// `b` is what `oof::Oof::to_bytes` writes for `entries`: the nodes laid
/// out in ascending key order.
pub open spec fn oof_layout(b: Seq<u8>, entries: Map<u128, [u8; 32]>) -> bool {
    exists|ks: Seq<u128>| keys_ascending(ks, entries) && laid_out(b, ks, entries)
}

/// The map that inserting `keys[i] => values[i]` for each `i` in order
/// builds: a later pair wins over an earlier one with the same key.
pub open spec fn pairs_map(keys: Seq<u128>, values: Seq<[u8; 32]>) -> Map<u128, [u8; 32]>
    decreases keys.len(),
{
    if keys.len() == 0 {
        Map::empty()
    } else {
        pairs_map(keys.drop_last(), values).insert(
            keys.last(),
            values[keys.len() - 1],
        )
    }
}

/// Wraps `oof::Oof::new`, which inserts `keys[i] => values[i]` into an
/// empty map for each index of `keys`, in order. It indexes `values` with
/// every index of `keys`, so `values` must be at least as long.
#[verifier::external_body]
pub fn oof_new(keys: &[u128], values: &[[u8; 32]]) -> (m: ProofStore)
    requires
        keys@.len() <= values@.len(),
    ensures
        oof_entries(m) == pairs_map(keys@, values@),
{
    ProofStore::new(keys, values)
}

/// Wraps `oof::Oof::from_map`, which keeps the given map as its nodes.
#[verifier::external_body]
pub fn oof_from_map(map: BTreeMap<u128, [u8; 32]>) -> (m: ProofStore)
    ensures
        oof_entries(m) == map@,
{
    ProofStore::from_map(map)
}

/// Wraps `oof::Oof::get`: the node at `key`, if there is one.
#[verifier::external_body]
pub fn oof_get(m: &ProofStore, key: u128) -> (r: Option<&[u8; 32]>)
    ensures
        r is Some <==> oof_entries(*m).contains_key(key),
        r matches Some(v) ==> *v == oof_entries(*m)[key],
{
    m.get(&key)
}

/// Wraps `oof::Oof::set`: it removes the parent of `key` (general index
/// `key / 2`), whose hash the new node makes stale, then inserts the node and
/// answers what `key` held after that removal.
#[verifier::external_body]
pub fn oof_set(m: &mut ProofStore, key: u128, value: [u8; 32]) -> (r: Option<[u8; 32]>)
    ensures
        oof_entries(*final(m)) == oof_entries(*old(m)).remove(key / 2).insert(key, value),
        r == oof_entries(*old(m)).remove(key / 2).get(key),
{
    m.set(key, value)
}

/// Wraps `oof::Oof::root`. Its outcome is named by `oof_root_outcome`; the
/// source shows that an answered root is the node it leaves at index 1, and
/// that once `refresh` has gone through, every node above index 1 has its
/// sibling and its parent, so computing the root again changes nothing and
/// answers the same root.
#[verifier::external_body]
pub fn oof_root(m: &mut ProofStore) -> (r: Result<[u8; 32], OofError>)
    ensures
        oof_entries(*final(m)) == oof_root_outcome(oof_entries(*old(m))).0,
        r is Ok <==> oof_root_outcome(oof_entries(*old(m))).1 is Some,
        r matches Ok(v) ==> oof_root_outcome(oof_entries(*old(m))).1 == Some(v),
        r matches Ok(v) ==> oof_entries(*final(m)).contains_key(1) && oof_entries(
            *final(m),
        )[1] == v,
        r matches Ok(v) ==> oof_root_outcome(oof_entries(*final(m))) == (
            oof_entries(*final(m)),
            Some(v),
        ),
{
    match m.root() {
        Ok(v) => Ok(*v),
        Err(e) => Err(e),
    }
}

/// Wraps `oof::Oof::to_bytes`, which walks its `BTreeMap` in ascending key
/// order and writes the number of nodes as a `u32` in little-endian bytes,
/// every key's `to_le_bytes`, then every node's bytes.
#[verifier::external_body]
pub fn oof_to_bytes(m: &ProofStore) -> (b: Vec<u8>)
    ensures
        oof_layout(b@, oof_entries(*m)),
{
    m.to_bytes()
}

} // verus!
