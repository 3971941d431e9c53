use crate::bytes::{le_encode, le_value, lemma_le_value_bound, lemma_pow256_values, read_le};
use crate::interface::address::{address_from_byte, address_key, Address};
use crate::node::error::Error;
use crate::node::memory::{
    keys_ascending, laid_out, oof_entries, oof_get, oof_layout, oof_new, oof_root,
    oof_root_outcome, oof_set, pairs_map,
};
use crate::tree_index::{
    bonsai_next_power_of_two, exp2, first_leaf, floor_log2, last_power_of_two, lemma_exp2_127,
    lemma_exp2_mono,
    lemma_floor_log2_exp2, log2, next_power_of_two, subtree_index_to_general,
    subtree_to_general,
};
use oof::Error as OofError;
use oof::Oof as ProofStore;
use vstd::prelude::*;
use vstd::std_specs::convert::FromSpecImpl;

verus! {

/// Subtree index, within a contract's subtree, of the root of its code.
pub const CODE_ROOT_INDEX: u128 = 6;

/// Subtree index, within a contract's subtree, of its code length mix-in.
pub const CODE_LEN_INDEX: u128 = 7;

/// A state store: contract code and storage slots, kept per address.
pub trait State<K, V>: Sized {
    /// The code stored for `address`, or why it cannot be read.
    spec fn spec_code(&self, address: Address) -> Result<Seq<u8>, Error<Address>>;

    /// Reading the code of `address` stays within the index arithmetic.
    spec fn code_readable(&self, address: Address) -> bool;

    /// The value stored under `key` for `address`.
    spec fn spec_get(&self, address: Address, key: K) -> Option<V>;

    /// `key` names a storage slot of `address` within the index arithmetic.
    spec fn slot_in_range(&self, address: Address, key: K) -> bool;

    /// The root of the whole state.
    fn root(&mut self) -> Result<V, Error<Address>>;

    /// The code deployed at `address`.
    fn code(&self, address: &Address) -> (r: Result<Vec<u8>, Error<Address>>)
        requires
            self.code_readable(*address),
        ensures
            match r {
                Ok(c) => self.spec_code(*address) == Ok::<Seq<u8>, Error<Address>>(c@),
                Err(e) => self.spec_code(*address) == Err::<Seq<u8>, Error<Address>>(e),
            },
    ;

    /// The value stored under `key` for `address`.
    fn get(&self, address: &Address, key: &K) -> (r: Option<&V>)
        requires
            self.slot_in_range(*address, *key),
        ensures
            r is Some <==> self.spec_get(*address, *key) is Some,
            r matches Some(v) ==> self.spec_get(*address, *key) == Some(*v),
    ;

    /// Stores `value` under `key` for `address`; a later read gives it back.
    fn set(&mut self, address: &Address, key: K, value: V) -> (r: Result<Option<V>, Error<Address>>)
        requires
            old(self).slot_in_range(*address, key),
        ensures
            final(self).spec_get(*address, key) == Some(value),
    ;
}

/// The number of 32-byte chunks that `len` bytes take.
pub open spec fn chunk_count(len: nat) -> nat {
    len / 32 + if len % 32 == 0 { 0nat } else { 1nat }
}

/// The general index of the first chunk of `len` bytes stored under `root`:
/// the first leaf of a subtree just deep enough for all the chunks.
pub open spec fn first_chunk_index(root: nat, len: nat) -> nat {
    root * next_power_of_two(chunk_count(len))
}

/// The code chunks fill the first leaves of the smallest power-of-two
/// subtree under `root` that holds them all: the first chunk is the first
/// leaf `root * 2^d` at depth `d`, with `2^d` chunks of room and, below
/// depth `d`, too little.
pub proof fn lemma_first_chunk_is_first_leaf(root: nat, len: nat) -> (d: nat)
    ensures
        first_chunk_index(root, len) == root * exp2(d),
        chunk_count(len) <= exp2(d),
        d > 0 ==> exp2((d - 1) as nat) < chunk_count(len),
{
    let c = chunk_count(len);
    if c <= 1 {
        assert(exp2(0) == 1);
        0
    } else {
        let f = floor_log2((c - 1) as nat);
        crate::tree_index::lemma_floor_log2_bounds((c - 1) as nat);
        assert(exp2(f + 1) == 2 * exp2(f));
        f + 1
    }
}

/// Reading `len` bytes under `root` stays within the index arithmetic.
pub open spec fn bytes_readable(root: nat, len: nat) -> bool {
    &&& len >= 1
    &&& chunk_count(len) <= exp2(127)
    &&& first_chunk_index(root, len) + chunk_count(len) <= u128::MAX
}

/// The first of the chunks `first + i`, `from <= i < count`, that `nodes`
/// lacks.
pub open spec fn first_missing(nodes: Map<u128, [u8; 32]>, first: nat, from: nat, count: nat) -> Option<nat>
    decreases count - from,
{
    if from >= count {
        None
    } else if !nodes.contains_key((first + from) as u128) {
        Some(from)
    } else {
        first_missing(nodes, first, from + 1, count)
    }
}

/// The `len` bytes that the chunks from `first` on hold, in order.
pub open spec fn chunk_bytes(nodes: Map<u128, [u8; 32]>, first: nat, len: nat) -> Seq<u8> {
    Seq::new(len, |t: int| nodes[(first + t / 32) as u128]@[t % 32])
}

/// What reading `len` bytes under `root` gives: the bytes, or the first
/// missing chunk.
pub open spec fn read_bytes(nodes: Map<u128, [u8; 32]>, root: nat, len: nat) -> Result<Seq<u8>, Error<Address>> {
    let first = first_chunk_index(root, len);
    match first_missing(nodes, first, 0, chunk_count(len)) {
        Some(i) => Err(Error::MissingNode((first + i) as u128)),
        None => Ok(chunk_bytes(nodes, first, len)),
    }
}

/// The general index of the root of `address`'s subtree in a tree of the
/// given height.
pub open spec fn address_root_index(height: nat, address: Address) -> nat {
    exp2(height) + address_key(address) as nat
}

/// Distinct addresses have their subtrees rooted at distinct general
/// indices, whatever the height of the address layer.
pub proof fn lemma_address_roots_distinct(height: nat, a: Address, b: Address)
    requires
        a@ != b@,
    ensures
        address_root_index(height, a) != address_root_index(height, b),
{
    crate::interface::address::lemma_address_len(a);
    crate::interface::address::lemma_address_len(b);
    if a@[0] == b@[0] {
        assert(a@ =~= b@);
    }
}

/// The length that a code length mix-in holds: its first 16 bytes,
/// little-endian.
pub open spec fn mixin_length(node: [u8; 32]) -> nat {
    le_value(node@.take(16))
}

/// What reading the code of `address` gives.
pub open spec fn read_code(nodes: Map<u128, [u8; 32]>, height: nat, address: Address) -> Result<Seq<u8>, Error<Address>> {
    let root = address_root_index(height, address);
    let len_index = subtree_to_general(root, CODE_LEN_INDEX as nat);
    if !nodes.contains_key(len_index as u128) {
        Err(Error::MissingNode(len_index as u128))
    } else {
        read_bytes(
            nodes,
            subtree_to_general(root, CODE_ROOT_INDEX as nat),
            mixin_length(nodes[len_index as u128]),
        )
    }
}

/// Reading the code of `address` stays within the index arithmetic.
pub open spec fn code_in_range(nodes: Map<u128, [u8; 32]>, height: nat, address: Address) -> bool {
    let root = address_root_index(height, address);
    let len_index = subtree_to_general(root, CODE_LEN_INDEX as nat);
    &&& height < 128
    &&& root * CODE_LEN_INDEX <= u128::MAX
    &&& nodes.contains_key(len_index as u128) ==> bytes_readable(
        subtree_to_general(root, CODE_ROOT_INDEX as nat),
        mixin_length(nodes[len_index as u128]),
    )
}

/// The general index of storage slot `key` of `address`.
pub open spec fn slot_index(address: Address, key: u128) -> nat {
    subtree_to_general(address_key(address) as nat, key as nat)
}

/// The slots of an address form a binary tree rooted at its key: slot 1 is
/// the address key itself, and the children of slot `k` are the slots `2k`
/// and `2k + 1`. So slot 5 of the address with key 259 is 1037.
pub proof fn lemma_slots_form_subtree(address: Address, k: u128)
    requires
        k >= 1,
        2 * k + 1 <= u128::MAX,
    ensures
        slot_index(address, 1) == address_key(address),
        slot_index(address, (2 * k) as u128) == 2 * slot_index(address, k),
        slot_index(address, (2 * k + 1) as u128) == 2 * slot_index(address, k) + 1,
{
    let r = address_key(address) as nat;
    assert(r >= 256);
    assert(floor_log2(1) == 0);
    assert(exp2(0) == 1);
    assert(last_power_of_two(1) == 1);
    assert((r - 1) * 1 == r - 1) by (nonlinear_arith);
    let kk = k as nat;
    assert(floor_log2(2 * kk) == 1 + floor_log2(kk)) by {
        assert((2 * kk) / 2 == kk);
    }
    assert(floor_log2(2 * kk + 1) == 1 + floor_log2(kk)) by {
        assert((2 * kk + 1) / 2 == kk);
    }
    let p = exp2(floor_log2(kk));
    assert(exp2(1 + floor_log2(kk)) == 2 * p);
    assert(last_power_of_two(2 * kk) == 2 * p);
    assert(last_power_of_two(2 * kk + 1) == 2 * p);
    assert(last_power_of_two(kk) == p);
    assert((r - 1) * (2 * p) == 2 * ((r - 1) * p)) by (nonlinear_arith);
    assert((r - 1) * p >= 0) by (nonlinear_arith)
        requires
            r >= 1,
    ;
}

/// The nodes after storing `value` in slot `key` of `address`: the slot's
/// node is written and its parent, whose hash it makes stale, removed.
pub open spec fn set_nodes(
    nodes: Map<u128, [u8; 32]>,
    address: Address,
    key: u128,
    value: [u8; 32],
) -> Map<u128, [u8; 32]> {
    let i = slot_index(address, key);
    nodes.remove((i / 2) as u128).insert(i as u128, value)
}

/// Storing a value in a slot and then reading that slot gives the value back;
/// a slot whose node is neither the written node nor its parent reads as
/// before.
pub proof fn lemma_get_after_set(
    nodes: Map<u128, [u8; 32]>,
    address: Address,
    key: u128,
    value: [u8; 32],
    other: Address,
    other_key: u128,
)
    ensures
        set_nodes(nodes, address, key, value).get(slot_index(address, key) as u128) == Some(value),
        ({
            let i = slot_index(address, key) as u128;
            let j = slot_index(other, other_key) as u128;
            j != i && j != (slot_index(address, key) / 2) as u128 ==> set_nodes(
                nodes,
                address,
                key,
                value,
            ).get(j) == nodes.get(j)
        }),
{
}

/// Code stored chunk by chunk in the leaves where reading looks for it reads
/// back whole.
pub proof fn lemma_read_bytes_of_chunks(nodes: Map<u128, [u8; 32]>, root: nat, code: Seq<u8>)
    requires
        code.len() >= 1,
        first_chunk_index(root, code.len()) + chunk_count(code.len()) <= u128::MAX,
        forall|j: nat|
            j < chunk_count(code.len()) ==> {
                &&& #[trigger] nodes.contains_key(
                    (first_chunk_index(root, code.len()) + j) as u128,
                )
                &&& nodes[(first_chunk_index(root, code.len()) + j) as u128]@
                    == crate::contracts::wallet::chunk_of(code, j as int)
            },
    ensures
        read_bytes(nodes, root, code.len()) == Ok::<Seq<u8>, Error<Address>>(code),
{
    let first = first_chunk_index(root, code.len());
    let count = chunk_count(code.len());
    assert forall|j: nat| j < count implies nodes.contains_key(#[trigger] ((first + j) as u128)) by {
        assert(nodes.contains_key((first_chunk_index(root, code.len()) + j) as u128));
    }
    lemma_first_missing(nodes, first, 0, count, count);
    assert forall|t: int| 0 <= t < code.len() implies #[trigger] chunk_bytes(
        nodes,
        first,
        code.len(),
    )[t] == code[t] by {
        let j = (t / 32) as nat;
        assert(j < count);
        assert(32 * j + t % 32 == t);
        assert(nodes.contains_key((first + j) as u128));
    }
    assert(chunk_bytes(nodes, first, code.len()) =~= code);
}

/// What the proof blob holds: node count, then the keys, then the values.
pub open spec fn blob_count(s: Seq<u8>) -> nat {
    le_value(s.take(4))
}

pub open spec fn blob_wf(s: Seq<u8>) -> bool {
    s.len() >= 4 && 4 + 48 * blob_count(s) <= s.len()
}

pub open spec fn blob_key(s: Seq<u8>, i: int) -> u128 {
    le_value(s.subrange(4 + 16 * i, 20 + 16 * i)) as u128
}

pub open spec fn blob_value(s: Seq<u8>, i: int) -> Seq<u8> {
    let base = 4 + 16 * blob_count(s);
    s.subrange(base + 32 * i, base + 32 * i + 32)
}

/// The nodes that the first `n` key/value pairs of the blob define, a later
/// pair winning over an earlier one with the same key.
pub open spec fn blob_nodes_upto(s: Seq<u8>, n: nat) -> Map<u128, Seq<u8>>
    decreases n,
{
    if n == 0 {
        Map::empty()
    } else {
        blob_nodes_upto(s, (n - 1) as nat).insert(
            blob_key(s, n - 1),
            blob_value(s, n - 1),
        )
    }
}

pub open spec fn blob_nodes(s: Seq<u8>) -> Map<u128, Seq<u8>> {
    blob_nodes_upto(s, blob_count(s))
}

/// The nodes, each taken by its bytes.
pub open spec fn node_views(m: Map<u128, [u8; 32]>) -> Map<u128, Seq<u8>> {
    Map::new(|k: u128| m.contains_key(k), |k: u128| m[k]@)
}

/// The nodes whose bytes `v` gives.
pub open spec fn node_arrays(v: Map<u128, Seq<u8>>) -> Map<u128, [u8; 32]> {
    Map::new(|k: u128| v.contains_key(k), |k: u128| choose|a: [u8; 32]| a@ == v[k])
}

/// Nodes are determined by their bytes.
pub proof fn lemma_node_arrays(m: Map<u128, [u8; 32]>)
    ensures
        node_arrays(node_views(m)) == m,
{
    assert forall|k: u128| m.contains_key(k) implies #[trigger] node_arrays(node_views(m))[k]
        == m[k] by {
        let a = choose|a: [u8; 32]| a@ == node_views(m)[k];
        assert(m[k]@ == node_views(m)[k]);
        assert(a@ == m[k]@);
        assert(a =~= m[k]);
    }
    assert(node_arrays(node_views(m)) =~= m);
}

/// The first `n` pairs of a whole proof read the same with bytes after it.
proof fn lemma_nodes_upto_with_trailing_bytes(s: Seq<u8>, z: Seq<u8>, n: nat)
    requires
        blob_wf(s),
        n <= blob_count(s),
    ensures
        blob_nodes_upto(s + z, n) == blob_nodes_upto(s, n),
    decreases n,
{
    assert((s + z).take(4) =~= s.take(4));
    if n > 0 {
        lemma_nodes_upto_with_trailing_bytes(s, z, (n - 1) as nat);
        let i = n - 1;
        let c = blob_count(s);
        assert((s + z).subrange(4 + 16 * i, 20 + 16 * i) =~= s.subrange(4 + 16 * i, 20 + 16 * i));
        assert((s + z).subrange(4 + 16 * c + 32 * i, 4 + 16 * c + 32 * i + 32) =~= s.subrange(
            4 + 16 * c + 32 * i,
            4 + 16 * c + 32 * i + 32,
        ));
    }
}

/// Bytes after the announced keys and values never make a proof unwhole,
/// and are not read: the proof gives the same nodes with them.
pub proof fn lemma_proof_trailing_bytes(s: Seq<u8>, z: Seq<u8>)
    requires
        blob_wf(s),
    ensures
        blob_wf(s + z),
        blob_nodes(s + z) == blob_nodes(s),
{
    assert((s + z).take(4) =~= s.take(4));
    lemma_nodes_upto_with_trailing_bytes(s, z, blob_count(s));
}

/// The first `j` pairs of a layout in key order `ks` give the nodes of
/// `entries` at the first `j` keys.
proof fn lemma_layout_prefix(b: Seq<u8>, ks: Seq<u128>, entries: Map<u128, [u8; 32]>, j: nat)
    requires
        j <= ks.len(),
        forall|i: int| 0 <= i < ks.len() ==> #[trigger] blob_key(b, i) == ks[i],
        forall|i: int| 0 <= i < ks.len() ==> #[trigger] blob_value(b, i) == entries[ks[i]]@,
    ensures
        blob_nodes_upto(b, j) == Map::new(
            |k: u128| ks.take(j as int).contains(k),
            |k: u128| entries[k]@,
        ),
    decreases j,
{
    if j > 0 {
        lemma_layout_prefix(b, ks, entries, (j - 1) as nat);
        assert(blob_key(b, j - 1) == ks[j - 1]);
        assert(blob_value(b, j - 1) == entries[ks[j - 1]]@);
        let prev = ks.take(j - 1);
        let cur = ks.take(j as int);
        assert forall|k: u128| cur.contains(k) <==> (prev.contains(k) || k == ks[j - 1]) by {
            if cur.contains(k) {
                let i = choose|i: int| 0 <= i < cur.len() && cur[i] == k;
                if i < j - 1 {
                    assert(prev[i] == k);
                }
            }
            if prev.contains(k) {
                let i = choose|i: int| 0 <= i < prev.len() && prev[i] == k;
                assert(cur[i] == k);
            }
            if k == ks[j - 1] {
                assert(cur[j - 1] == k);
            }
        }
        assert(blob_nodes_upto(b, j) =~= Map::new(
            |k: u128| ks.take(j as int).contains(k),
            |k: u128| entries[k]@,
        ));
    }
}

/// What `oof::Oof::to_bytes` writes reads back, as a proof, as the nodes it
/// was written from, as long as their number fits in 32 bits.
pub proof fn lemma_layout_reads_back(b: Seq<u8>, entries: Map<u128, [u8; 32]>)
    requires
        oof_layout(b, entries),
        entries.dom().len() < 0x1_0000_0000,
    ensures
        blob_wf(b),
        node_arrays(blob_nodes(b)) == entries,
{
    let ks = choose|ks: Seq<u128>| keys_ascending(ks, entries) && laid_out(b, ks, entries);
    let n = ks.len();
    assert(ks.no_duplicates()) by {
        assert forall|i: int, j: int| 0 <= i < ks.len() && 0 <= j < ks.len() && i != j implies ks[i]
            != ks[j] by {
            if i < j {
                assert(ks[i] < ks[j]);
            } else {
                assert(ks[j] < ks[i]);
            }
        }
    }
    ks.unique_seq_to_set();
    assert(ks.to_set() =~= entries.dom());
    lemma_pow256_values();
    crate::bytes::lemma_le_roundtrip(n, 4);
    assert(blob_count(b) == n);
    assert forall|i: int| 0 <= i < ks.len() implies #[trigger] blob_key(b, i) == ks[i] by {
        assert(b.subrange(4 + 16 * i, 20 + 16 * i) == le_encode(ks[i] as nat, 16));
        crate::bytes::lemma_le_roundtrip(ks[i] as nat, 16);
    }
    assert forall|i: int| 0 <= i < ks.len() implies #[trigger] blob_value(b, i) == entries[ks[i]]@ by {
        assert(b.subrange(4 + 16 * n + 32 * i, 36 + 16 * n + 32 * i) == entries[ks[i]]@);
    }
    lemma_layout_prefix(b, ks, entries, n);
    assert(ks.take(n as int) =~= ks);
    assert(blob_nodes(b) =~= node_views(entries));
    lemma_node_arrays(entries);
}

/// The abstract state of an `Oof`: its nodes and the height of the
/// address layer.
pub struct OofView {
    pub nodes: Map<u128, [u8; 32]>,
    pub height: u32,
}

/// The state as a proof store: the nodes of the state tree that a
/// transaction batch touches, and the height of the address layer.
pub struct Oof {
    mem: ProofStore,
    height: u32,
}

impl View for Oof {
    type V = OofView;

    closed spec fn view(&self) -> OofView {
        OofView { nodes: oof_entries(self.mem), height: self.height }
    }
}

proof fn lemma_pairs_views(s: Seq<u8>, keys: Seq<u128>, values: Seq<[u8; 32]>, n: nat)
    requires
        n <= keys.len(),
        n <= values.len(),
        forall|i: int| 0 <= i < n ==> keys[i] == blob_key(s, i),
        forall|i: int| 0 <= i < n ==> #[trigger] values[i]@ == blob_value(s, i),
    ensures
        node_views(pairs_map(keys.take(n as int), values)) == blob_nodes_upto(s, n),
    decreases n,
{
    if n > 0 {
        lemma_pairs_views(s, keys, values, (n - 1) as nat);
        assert(keys.take(n as int).drop_last() =~= keys.take(n - 1));
        let prev = pairs_map(keys.take(n - 1), values);
        assert(values[n - 1]@ == blob_value(s, n - 1));
        assert(node_views(pairs_map(keys.take(n as int), values)) =~= node_views(prev).insert(
            blob_key(s, n - 1),
            blob_value(s, n - 1),
        ));
    } else {
        assert(node_views(pairs_map(keys.take(0), values)) =~= Map::empty());
    }
}

/// `next_power_of_two(n)` is `2^e` for the `e` that `floor_log2` gives back.
proof fn lemma_next_power_of_two(n: nat)
    requires
        n <= exp2(127),
    ensures
        next_power_of_two(n) == exp2(floor_log2(next_power_of_two(n))),
        floor_log2(next_power_of_two(n)) <= 127,
        next_power_of_two(n) >= n,
        next_power_of_two(n) >= 1,
{
    if n <= 1 {
        reveal_with_fuel(exp2, 1);
        lemma_floor_log2_exp2(0);
    } else {
        let f = floor_log2((n - 1) as nat);
        crate::tree_index::lemma_floor_log2_bounds((n - 1) as nat);
        lemma_floor_log2_exp2(f + 1);
        if f >= 127 {
            lemma_exp2_mono(127, f);
        }
        assert(next_power_of_two(n) == exp2(f + 1));
    }
}

/// The chunk scan finds the first missing chunk, or none.
proof fn lemma_first_missing(nodes: Map<u128, [u8; 32]>, first: nat, from: nat, i: nat, count: nat)
    requires
        from <= i <= count,
        forall|j: nat| from <= j < i ==> nodes.contains_key(#[trigger] ((first + j) as u128)),
    ensures
        i == count ==> first_missing(nodes, first, from, count) is None,
        i < count && !nodes.contains_key((first + i) as u128) ==> first_missing(
            nodes,
            first,
            from,
            count,
        ) == Some(i),
    decreases i - from,
{
    if from < i {
        assert(nodes.contains_key((first + from) as u128));
        lemma_first_missing(nodes, first, from + 1, i, count);
    }
}

impl Oof {
    /// Reads a proof blob: a four-byte little-endian node count, then that
    /// many 16-byte little-endian keys, then as many 32-byte values.
    pub fn from_raw(data: &[u8], height: u32) -> (o: Self)
        requires
            blob_wf(data@),
        ensures
            node_views(o@.nodes) == blob_nodes(data@),
            o@.nodes == node_arrays(blob_nodes(data@)),
            o@.height == height,
    {
        proof {
            lemma_le_value_bound(data@.take(4));
            lemma_pow256_values();
            assert(data@.subrange(0, 4) =~= data@.take(4));
        }
        let count: usize = read_le(data, 0, 4) as usize;
        assert(count == blob_count(data@));
        assert(data@.len() == data.len());
        let mut keys: Vec<u128> = Vec::new();
        let mut values: Vec<[u8; 32]> = Vec::new();
        let mut i: usize = 0;
        while i < count
            invariant
                blob_wf(data@),
                data@.len() == data.len(),
                count == blob_count(data@),
                i <= count,
                keys@.len() == i,
                values@.len() == i,
                forall|j: int| 0 <= j < i ==> keys@[j] == blob_key(data@, j),
                forall|j: int| 0 <= j < i ==> #[trigger] values@[j]@ == blob_value(data@, j),
            decreases count - i,
        {
            let key = read_le(data, 4 + 16 * i, 16);
            let base: usize = 4 + 16 * count + 32 * i;
            let mut value = [0u8; 32];
            let mut t: usize = 0;
            while t < 32
                invariant
                    base + 32 <= data@.len(),
                    data@.len() == data.len(),
                    t <= 32,
                    forall|u: int| 0 <= u < t ==> #[trigger] value@[u] == data@[base + u],
                decreases 32 - t,
            {
                value[t] = data[base + t];
                t = t + 1;
            }
            assert(value@ =~= blob_value(data@, i as int));
            keys.push(key);
            values.push(value);
            i = i + 1;
        }
        let mem = oof_new(keys.as_slice(), values.as_slice());
        proof {
            lemma_pairs_views(data@, keys@, values@, count as nat);
            assert(keys@.take(count as int) =~= keys@);
            lemma_node_arrays(oof_entries(mem));
        }
        Self { mem, height }
    }

    /// The general index at which the subtree of `address` is rooted.
    pub fn address_root(&self, address: Address) -> (r: u128)
        requires
            self@.height < 128,
        ensures
            r == address_root_index(self@.height as nat, address),
    {
        proof {
            lemma_exp2_127();
            lemma_exp2_mono(self.height as nat, 127);
            crate::interface::address::lemma_address_len(address);
        }
        first_leaf(1, self.height as u128) + u128::from(address)
    }

    /// Whether reading the code of `address` stays within the index
    /// arithmetic.
    pub fn can_read_code(&self, address: &Address) -> (b: bool)
        ensures
            b == code_in_range(self@.nodes, self@.height as nat, *address),
    {
        if self.height >= 128 {
            return false;
        }
        let root = self.address_root(*address);
        if root.checked_mul(CODE_LEN_INDEX).is_none() {
            return false;
        }
        let len_index = subtree_index_to_general(root, CODE_LEN_INDEX);
        match oof_get(&self.mem, len_index) {
            None => true,
            Some(raw_mixin) => {
                proof {
                    lemma_le_value_bound(raw_mixin@.take(16));
                    lemma_pow256_values();
                    assert(raw_mixin@.subrange(0, 16) =~= raw_mixin@.take(16));
                }
                let len = read_le(raw_mixin, 0, 16);
                if len == 0 {
                    return false;
                }
                let code_root = subtree_index_to_general(root, CODE_ROOT_INDEX);
                let chunks: u128 = len / 32 + if len % 32 == 0 {
                    0
                } else {
                    1
                };
                proof {
                    lemma_exp2_127();
                }
                if chunks > 0x8000_0000_0000_0000_0000_0000_0000_0000 {
                    return false;
                }
                let width = bonsai_next_power_of_two(chunks);
                match code_root.checked_mul(width) {
                    None => false,
                    Some(first) => first.checked_add(chunks).is_some(),
                }
            },
        }
    }

    /// Reads `len` bytes stored in 32-byte chunks under `root`: the chunks
    /// are the first leaves of the subtree of `root` that is just deep enough
    /// for all of them; the last one may be cut short.
    pub fn get_bytes(&self, root: u128, len: u128) -> (r: Result<Vec<u8>, Error<Address>>)
        requires
            bytes_readable(root as nat, len as nat),
        ensures
            match r {
                Ok(b) => read_bytes(self@.nodes, root as nat, len as nat) == Ok::<Seq<u8>, Error<Address>>(b@),
                Err(e) => read_bytes(self@.nodes, root as nat, len as nat) == Err::<Seq<u8>, Error<Address>>(e),
            },
    {
        let ghost nodes = self@.nodes;
        let chunks: u128 = len / 32 + if len % 32 == 0 {
            0
        } else {
            1
        };
        proof {
            lemma_next_power_of_two(chunks as nat);
        }
        let depth = log2(bonsai_next_power_of_two(chunks));
        let first_chunk = first_leaf(root, depth);
        let ghost first = first_chunk as nat;
        assert(first == first_chunk_index(root as nat, len as nat));
        let mut bytes: Vec<u8> = Vec::new();
        let mut i: u128 = 0;
        while i < chunks
            invariant
                nodes == self@.nodes,
                chunks == chunk_count(len as nat),
                len >= 1,
                first == first_chunk,
                first == first_chunk_index(root as nat, len as nat),
                first + chunks <= u128::MAX,
                i <= chunks,
                32 * i <= len,
                forall|j: nat| j < i ==> nodes.contains_key(#[trigger] ((first + j) as u128)),
                bytes@ == chunk_bytes(nodes, first, 32 * i as nat),
            decreases chunks - i,
        {
            let index = first_chunk + i;
            match oof_get(&self.mem, index) {
                None => {
                    proof {
                        lemma_first_missing(nodes, first, 0, i as nat, chunks as nat);
                    }
                    return Err(Error::MissingNode(index));
                },
                Some(value) => {
                    let take: usize = if i == chunks - 1 && len % 32 != 0 {
                        (len % 32) as usize
                    } else {
                        32
                    };
                    let ghost before = bytes@;
                    let mut t: usize = 0;
                    while t < take
                        invariant
                            take <= 32,
                            t <= take,
                            bytes@ == before + value@.take(t as int),
                        decreases take - t,
                    {
                        bytes.push(value[t]);
                        t = t + 1;
                        assert(bytes@ =~= before + value@.take(t as int));
                    }
                    proof {
                        let n = (32 * i + take) as nat;
                        assert(bytes@ =~= chunk_bytes(nodes, first, n));
                    }
                    if take < 32 {
                        proof {
                            assert(i + 1 == chunks);
                            lemma_first_missing(nodes, first, 0, (i + 1) as nat, chunks as nat);
                            assert(32 * i + take == len);
                        }
                        return Ok(bytes);
                    }
                },
            }
            i = i + 1;
        }
        proof {
            lemma_first_missing(nodes, first, 0, chunks as nat, chunks as nat);
        }
        Ok(bytes)
    }
}

impl From<OofError> for Error<Address> {
    fn from(e: OofError) -> (r: Self) {
        let zero = Address::zero();
        proof {
            crate::interface::address::lemma_address_from_byte(0);
            crate::interface::address::lemma_address_ext(zero, address_from_byte(0));
        }
        Error::MissingProof(zero)
    }
}

impl FromSpecImpl<OofError> for Error<Address> {
    open spec fn obeys_from_spec() -> bool {
        true
    }

    /// A failed root names no address yet: it is charged to the zero
    /// address.
    open spec fn from_spec(e: OofError) -> Self {
        Error::MissingProof(address_from_byte(0))
    }
}

/// What asking for the root of nodes `m` answers.
pub open spec fn root_result(m: Map<u128, [u8; 32]>) -> Result<[u8; 32], Error<Address>> {
    match oof_root_outcome(m).1 {
        Some(v) => Ok(v),
        None => Err(Error::MissingProof(address_from_byte(0))),
    }
}

impl State<u128, [u8; 32]> for Oof {
    open spec fn spec_code(&self, address: Address) -> Result<Seq<u8>, Error<Address>> {
        read_code(self@.nodes, self@.height as nat, address)
    }

    open spec fn code_readable(&self, address: Address) -> bool {
        code_in_range(self@.nodes, self@.height as nat, address)
    }

    open spec fn spec_get(&self, address: Address, key: u128) -> Option<[u8; 32]> {
        self@.nodes.get(slot_index(address, key) as u128)
    }

    open spec fn slot_in_range(&self, address: Address, key: u128) -> bool {
        address_key(address) * key <= u128::MAX
    }

    fn root(&mut self) -> (r: Result<[u8; 32], Error<Address>>)
        ensures
            final(self)@.nodes == oof_root_outcome(old(self)@.nodes).0,
            final(self)@.height == old(self)@.height,
            r == root_result(old(self)@.nodes),
            r is Ok ==> oof_root_outcome(final(self)@.nodes).0 == final(self)@.nodes,
            r is Ok ==> root_result(final(self)@.nodes) == r,
    {
        match oof_root(&mut self.mem) {
            Ok(v) => Ok(v),
            Err(e) => Err(Error::from(e)),
        }
    }

    fn code(&self, address: &Address) -> (r: Result<Vec<u8>, Error<Address>>) {
        let root = self.address_root(*address);
        let index = subtree_index_to_general(root, CODE_LEN_INDEX);
        let raw_mixin = match oof_get(&self.mem, index) {
            Some(v) => v,
            None => {
                return Err(Error::MissingNode(index));
            },
        };
        proof {
            lemma_le_value_bound(raw_mixin@.take(16));
            lemma_pow256_values();
            assert(raw_mixin@.subrange(0, 16) =~= raw_mixin@.take(16));
        }
        let len = read_le(raw_mixin, 0, 16);
        proof {
            crate::interface::address::lemma_address_len(*address);
            assert(root * CODE_ROOT_INDEX <= u128::MAX);
        }
        self.get_bytes(subtree_index_to_general(root, CODE_ROOT_INDEX), len)
    }

    fn get(&self, address: &Address, key: &u128) -> (r: Option<&[u8; 32]>) {
        proof {
            crate::interface::address::lemma_address_len(*address);
        }
        let key = subtree_index_to_general(u128::from(*address), *key);
        oof_get(&self.mem, key)
    }

    fn set(&mut self, address: &Address, key: u128, value: [u8; 32]) -> (r: Result<
        Option<[u8; 32]>,
        Error<Address>,
    >)
        ensures
            final(self)@.nodes == set_nodes(old(self)@.nodes, *address, key, value),
            final(self)@.height == old(self)@.height,
            r == Ok::<Option<[u8; 32]>, Error<Address>>(
                old(self)@.nodes.remove((slot_index(*address, key) / 2) as u128).get(
                    slot_index(*address, key) as u128,
                ),
            ),
    {
        proof {
            crate::interface::address::lemma_address_len(*address);
        }
        let key = subtree_index_to_general(u128::from(*address), key);
        Ok(oof_set(&mut self.mem, key, value))
    }
}

} // verus!
