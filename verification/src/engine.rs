//! A test harness that deploys contracts into a state proof and frames
//! transactions into a data blob for the execution environment.
use crate::bytes::{append_all, le_encode, push_le};
use crate::interface::address::{address_key, lemma_address_len, Address, ADDRESS_SIZE};
use crate::interface::contract::Contract;
use crate::interface::raw_transaction::{
    parse_raw_tx, raw_tx_length, raw_tx_size, tx_stream, tx_stream_wf, RawTransactionView,
};
use crate::interface::transaction::{
    lemma_serialized_transaction_reads_back, tx_bytes, tx_len, Transaction,
};
use crate::merkle_tree::{
    tree_fill_subtree, tree_from_map, tree_subtree_filled, tree_to_map, tree_trim, tree_trimmed,
};
use crate::node::memory::{
    oof_entries, oof_from_map, oof_layout, oof_root, oof_root_outcome, oof_to_bytes,
};
use crate::node::process::{
    blob_framed, blob_pre_nodes, blob_proof, blob_proof_offset, blob_transactions, blob_verdict,
    BlobError,
};
use crate::node::state::{lemma_layout_reads_back, root_result};
use crate::node::error::Error;
use crate::tree_index::{
    exp2, exp2_u128, floor_log2, lemma_exp2_mono, lemma_subtree_to_general_injective,
    lemma_subtree_to_general_le, log2, subtree_index_to_general, subtree_to_general,
};
use oof::Oof as ProofStore;
use std::collections::BTreeMap;
use vstd::prelude::*;
use vstd::std_specs::btree::spec_btree_map_iter;
use vstd::std_specs::iter::IteratorSpec;

verus! {

broadcast use vstd::std_specs::btree::group_btree_axioms;

/// The nodes of `m` moved into the subtree rooted at the general index
/// `root`: the node at subtree index `k` goes to the general index of `k`
/// under `root`.
pub open spec fn remap(m: Map<u128, [u8; 32]>, root: nat) -> Map<u128, [u8; 32]> {
    Map::new(
        |g: u128| exists|k: u128| #[trigger] m.contains_key(k) && g == subtree_to_general(root, k as nat),
        |g: u128| m[choose|k: u128| #[trigger] m.contains_key(k) && g == subtree_to_general(root, k as nat)],
    )
}

/// Every node of `m` can be moved under `root` within 128 bits.
pub open spec fn remap_fits(m: Map<u128, [u8; 32]>, root: nat) -> bool {
    forall|k: u128| #[trigger] m.contains_key(k) ==> root * k <= u128::MAX
}

/// Inserts the nodes of `nodes`, moved under `root`, into `mem`; answers
/// whether they all fit in 128 bits, and leaves `mem` so only where they do.
fn remap_into(mem: &mut BTreeMap<u128, [u8; 32]>, nodes: &BTreeMap<u128, [u8; 32]>, root: u128) -> (ok: bool)
    requires
        root >= 1,
    ensures
        ok == remap_fits(nodes@, root as nat),
        ok ==> final(mem)@ == old(mem)@.union_prefer_right(remap(nodes@, root as nat)),
{
    let ghost base = mem@;
    let ghost m = nodes@;
    for pair in it: nodes.iter()
        invariant
            root >= 1,
            m == nodes@,
            it.seq() == spec_btree_map_iter(nodes).remaining(),
            forall|j: int|
                #![trigger spec_btree_map_iter(nodes).remaining()[j]]
                0 <= j < it.index() ==> root * *spec_btree_map_iter(nodes).remaining()[j].0 <= u128::MAX,
            forall|j: int|
                #![trigger spec_btree_map_iter(nodes).remaining()[j]]
                0 <= j < it.index() ==> {
                    let k = *spec_btree_map_iter(nodes).remaining()[j].0;
                    &&& mem@.contains_key(subtree_to_general(root as nat, k as nat) as u128)
                    &&& mem@[subtree_to_general(root as nat, k as nat) as u128] == m[k]
                },
            forall|g: u128| #[trigger]
                mem@.contains_key(g) ==> base.contains_key(g) || exists|j: int|
                    0 <= j < it.index() && g == subtree_to_general(
                        root as nat,
                        *spec_btree_map_iter(nodes).remaining()[j].0 as nat,
                    ),
            forall|g: u128|
                #[trigger] base.contains_key(g) && !(exists|j: int|
                    0 <= j < it.index() && g == subtree_to_general(
                        root as nat,
                        *spec_btree_map_iter(nodes).remaining()[j].0 as nat,
                    )) ==> mem@.contains_key(g) && mem@[g] == base[g],
    {
        let (key, value) = pair;
        let ghost s = spec_btree_map_iter(nodes).remaining();
        let ghost i = it.index();
        assert(*key == *s[i].0 && *value == *s[i].1);
        assert(m.contains_key(*s[i].0));
        assert(m[*s[i].0] == *s[i].1);
        if root.checked_mul(*key).is_none() {
            return false;
        }
        let g = subtree_index_to_general(root, *key);
        let ghost before = mem@;
        mem.insert(g, *value);
        proof {
            assert forall|j: int| #![trigger s[j]] 0 <= j < i + 1 implies {
                let k = *s[j].0;
                &&& mem@.contains_key(subtree_to_general(root as nat, k as nat) as u128)
                &&& mem@[subtree_to_general(root as nat, k as nat) as u128] == m[k]
            } by {
                if j < i {
                    let k = *s[j].0;
                    lemma_subtree_to_general_le(root as nat, k as nat);
                    assert(before.contains_key(subtree_to_general(root as nat, k as nat) as u128));
                    if subtree_to_general(root as nat, k as nat) == g {
                        lemma_subtree_to_general_injective(root as nat, k as nat, *key as nat);
                        assert(k == *key);
                    }
                }
            }
        }
    }
    proof {
        let s = spec_btree_map_iter(nodes).remaining();
        let r = remap(m, root as nat);
        assert forall|k: u128| m.contains_key(k) implies root * k <= u128::MAX by {
            assert(s.contains((&k, &m[k])));
        }
        assert forall|g: u128| #[trigger] r.contains_key(g) implies mem@.contains_key(g) && mem@[g] == r[g] by {
            let k = choose|k: u128| #[trigger] m.contains_key(k) && g == subtree_to_general(root as nat, k as nat);
            assert(s.contains((&k, &m[k])));
            let j = choose|j: int| 0 <= j < s.len() && s[j] == (&k, &m[k]);
            assert(mem@.contains_key(subtree_to_general(root as nat, *s[j].0 as nat) as u128));
        }
        assert forall|g: u128| #[trigger] mem@.contains_key(g) implies base.union_prefer_right(r).contains_key(g) by {
            if !base.contains_key(g) {
                let j = choose|j: int| 0 <= j < s.len() && g == subtree_to_general(root as nat, *s[j].0 as nat);
                assert(m.contains_key(*s[j].0));
            }
        }
        assert forall|g: u128| #[trigger] base.contains_key(g) && !r.contains_key(g) implies mem@.contains_key(g) && mem@[g] == base[g] by {
            if exists|j: int| 0 <= j < s.len() && g == subtree_to_general(root as nat, *s[j].0 as nat) {
                let j = choose|j: int| 0 <= j < s.len() && g == subtree_to_general(root as nat, *s[j].0 as nat);
                assert(m.contains_key(*s[j].0));
            }
        }
        assert(mem@ =~= base.union_prefer_right(r));
    }
    true
}

/// The node of 32 zero bytes.
pub open spec fn zero_node() -> [u8; 32] {
    choose|a: [u8; 32]| a@ == Seq::new(32, |i: int| 0u8)
}

fn zeros() -> (z: [u8; 32])
    ensures
        z == zero_node(),
{
    let z = [0u8; 32];
    proof {
        let a = zero_node();
        assert(z@ =~= Seq::new(32, |i: int| 0u8));
        assert(a@ == Seq::new(32, |i: int| 0u8));
        assert(a =~= z);
    }
    z
}

/// The general index of the first node of the address layer: the largest
/// power of two not above `max_address`.
pub open spec fn address_layer(max_address: nat) -> nat {
    exp2(floor_log2(max_address))
}

/// The address layer is the largest power of two not above `max_address`:
/// it is `2^d` for some `d`, with `2^d <= max_address < 2^(d + 1)`. Each
/// contract is rooted at that power plus its address key.
pub proof fn lemma_address_layer_power_of_two(max_address: nat) -> (d: nat)
    requires
        max_address >= 1,
    ensures
        address_layer(max_address) == exp2(d),
        exp2(d) <= max_address < 2 * exp2(d),
{
    crate::tree_index::lemma_floor_log2_bounds(max_address);
    floor_log2(max_address)
}

/// The general index at which the contract at `address` is rooted.
pub open spec fn contract_root(layer: nat, address: Address) -> nat {
    layer + address_key(address) as nat
}

/// The nodes of a contract's subtree: its storage, hashed up to its root.
pub open spec fn contract_nodes<T: Contract>(c: T) -> Map<u128, [u8; 32]> {
    tree_subtree_filled(c.storage(), 1, 1, zero_node())
}

/// The nodes of all deployed contracts, each moved under its address; a
/// later contract wins where two share a node.
pub open spec fn deployed_nodes<T: Contract>(cs: Seq<(Address, T)>, layer: nat) -> Map<u128, [u8; 32]>
    decreases cs.len(),
{
    if cs.len() == 0 {
        Map::empty()
    } else {
        deployed_nodes(cs.drop_last(), layer).union_prefer_right(
            remap(contract_nodes(cs.last().1), contract_root(layer, cs.last().0)),
        )
    }
}

/// Every deployed contract's nodes can be moved under its address within
/// 128 bits.
pub open spec fn deployed_fit<T: Contract>(cs: Seq<(Address, T)>, layer: nat) -> bool {
    forall|i: int|
        0 <= i < cs.len() ==> remap_fits(
            contract_nodes(#[trigger] cs[i].1),
            contract_root(layer, cs[i].0),
        )
}

/// The nodes of the state proof: the deployed contracts hashed up to the
/// state root, with the inner nodes that have children pruned.
pub open spec fn proof_nodes<T: Contract>(cs: Seq<(Address, T)>, layer: nat) -> Map<u128, [u8; 32]> {
    tree_trimmed(tree_subtree_filled(deployed_nodes(cs, layer), 1, 2, zero_node()))
}

/// The proof offset of a blob: the byte length of the transaction data,
/// that is four bytes of length field plus the length field's value, summed
/// over the transactions.
pub open spec fn txs_length(txs: Seq<Transaction>) -> nat
    decreases txs.len(),
{
    if txs.len() == 0 {
        0
    } else {
        txs_length(txs.drop_last()) + 4 + tx_len(txs.last()@.1.len()) as nat
    }
}

/// No transaction's length field wraps around.
pub open spec fn txs_unwrapped(txs: Seq<Transaction>) -> bool {
    forall|i: int| 0 <= i < txs.len() ==> ADDRESS_SIZE + (#[trigger] txs[i])@.1.len() < 0x1_0000_0000
}

/// What reading a serialized transaction gives.
pub open spec fn tx_view(t: Transaction) -> RawTransactionView {
    RawTransactionView { length: tx_len(t@.1.len()), to: t@.0, data: t@.1 }
}

/// The transactions serialized back to back.
pub open spec fn txs_bytes(txs: Seq<Transaction>) -> Seq<u8>
    decreases txs.len(),
{
    if txs.len() == 0 {
        Seq::empty()
    } else {
        txs_bytes(txs.drop_last()) + tx_bytes(txs.last()@.0, txs.last()@.1)
    }
}

/// Deploys contracts and frames transactions for the execution environment.
pub struct Engine<T: Contract> {
    contracts: Vec<(Address, T)>,
    max_address: u128,
}

impl<T: Contract> View for Engine<T> {
    type V = (Seq<(Address, T)>, u128);

    closed spec fn view(&self) -> (Seq<(Address, T)>, u128) {
        (self.contracts@, self.max_address)
    }
}

impl<T: Contract> Engine<T> {
    /// An engine with no contracts, for addresses up to `max_address`,
    /// whose `log2` must stay below the bit width of an address.
    pub fn new(max_address: u128) -> (e: Self)
        requires
            max_address >= 1,
            floor_log2(max_address as nat) < ADDRESS_SIZE * 8,
        ensures
            e@.0.len() == 0,
            e@.1 == max_address,
    {
        Self { contracts: Vec::new(), max_address }
    }

    /// Deploys `contract` at the zero address, and answers that address.
    pub fn deploy(&mut self, contract: T) -> (a: Address)
        ensures
            a@ == seq![0u8],
            final(self)@.0 == old(self)@.0.push((a, contract)),
            final(self)@.1 == old(self)@.1,
    {
        let address = Address::zero();
        self.contracts.push((address, contract));
        address
    }

    /// The state proof of the deployed contracts, or `None` where a node of
    /// a contract cannot be moved under its address within 128 bits.
    pub fn state_proof(&self) -> (r: Option<ProofStore>)
        requires
            self@.1 >= 1,
            floor_log2(self@.1 as nat) < ADDRESS_SIZE * 8,
            forall|i: int| 0 <= i < self@.0.len() ==> (#[trigger] self@.0[i]).1.mappable(),
        ensures
            r is Some <==> deployed_fit(self@.0, address_layer(self@.1 as nat)),
            r matches Some(p) ==> oof_entries(p) == proof_nodes(self@.0, address_layer(self@.1 as nat)),
    {
        let ghost cs = self@.0;
        let mut mem = BTreeMap::<u128, [u8; 32]>::new();
        proof {
            lemma_exp2_mono(floor_log2(self@.1 as nat), 8);
            reveal_with_fuel(exp2, 9);
        }
        let layer: u128 = exp2_u128(log2(self.max_address));
        let ghost l = layer as nat;
        let mut i: usize = 0;
        while i < self.contracts.len()
            invariant
                cs == self@.0,
                l == layer,
                l == address_layer(self@.1 as nat),
                layer <= 256,
                forall|i: int| 0 <= i < cs.len() ==> (#[trigger] cs[i]).1.mappable(),
                i <= cs.len(),
                mem@ == deployed_nodes(cs.take(i as int), l),
                deployed_fit(cs.take(i as int), l),
            decreases cs.len() - i,
        {
            let entry = &self.contracts[i];
            let address = entry.0;
            let storage = entry.1.to_map();
            proof {
                lemma_address_len(address);
            }
            let index: u128 = layer + u128::from(address);
            let mut tree = tree_from_map(storage);
            proof {
                reveal_with_fuel(exp2, 2);
            }
            tree_fill_subtree(&mut tree, 1, 1, &zeros());
            let filled = tree_to_map(tree);
            let ok = remap_into(&mut mem, &filled, index);
            proof {
                assert(cs.take(i + 1).drop_last() =~= cs.take(i as int));
                assert(cs.take(i + 1).last() == cs[i as int]);
            }
            if !ok {
                proof {
                    assert(!remap_fits(contract_nodes(cs[i as int].1), contract_root(l, cs[i as int].0)));
                }
                return None;
            }
            proof {
                assert forall|j: int| 0 <= j < i + 1 implies remap_fits(
                    contract_nodes(#[trigger] cs.take(i + 1)[j].1),
                    contract_root(l, cs.take(i + 1)[j].0),
                ) by {
                    if j < i {
                        assert(cs.take(i + 1)[j] == cs.take(i as int)[j]);
                    }
                }
            }
            i = i + 1;
        }
        proof {
            assert(cs.take(i as int) =~= cs);
        }
        let mut tree = tree_from_map(mem);
        proof {
            reveal_with_fuel(exp2, 3);
        }
        tree_fill_subtree(&mut tree, 1, 2, &zeros());
        let trimmed = tree_trim(tree);
        Some(oof_from_map(tree_to_map(trimmed)))
    }

    /// The data blob for `txs` and the pre-state root it must be run
    /// against: the proof offset (the byte length of the serialized
    /// transactions) in four little-endian bytes, the transactions, then the
    /// state proof. `None` where the offset overflows 32 bits, the proof
    /// cannot be built, or it yields no root.
    pub fn blob(&self, txs: Vec<Transaction>) -> (r: Option<(Vec<u8>, [u8; 32])>)
        requires
            self@.1 >= 1,
            floor_log2(self@.1 as nat) < ADDRESS_SIZE * 8,
            forall|i: int| 0 <= i < self@.0.len() ==> (#[trigger] self@.0[i]).1.mappable(),
        ensures
            ({
                let layer = address_layer(self@.1 as nat);
                let nodes = proof_nodes(self@.0, layer);
                &&& r is Some <==> {
                    &&& txs_length(txs@) <= u32::MAX
                    &&& deployed_fit(self@.0, layer)
                    &&& oof_root_outcome(nodes).1 is Some
                }
                &&& r matches Some((data, root)) ==> {
                    &&& data@ == le_encode(txs_length(txs@), 4) + txs_bytes(txs@) + data@.skip(
                        4 + txs_bytes(txs@).len() as int,
                    )
                    &&& oof_layout(data@.skip(4 + txs_bytes(txs@).len() as int), nodes)
                    &&& root == oof_root_outcome(nodes).1->Some_0
                }
            }),
    {
        let mut tx_len: u32 = 0;
        let mut i: usize = 0;
        while i < txs.len()
            invariant
                i <= txs@.len(),
                tx_len == txs_length(txs@.take(i as int)),
            decreases txs@.len() - i,
        {
            proof {
                assert(txs@.take(i + 1).drop_last() =~= txs@.take(i as int));
            }
            let size = match tx_len.checked_add(4) {
                Some(t) => t,
                None => {
                    proof {
                        lemma_txs_length_grows(txs@, (i + 1) as nat);
                    }
                    return None;
                },
            };
            match size.checked_add(txs[i].len()) {
                Some(t) => {
                    tx_len = t;
                },
                None => {
                    proof {
                        lemma_txs_length_grows(txs@, (i + 1) as nat);
                    }
                    return None;
                },
            }
            i = i + 1;
        }
        proof {
            assert(txs@.take(i as int) =~= txs@);
        }
        let mut data: Vec<u8> = Vec::new();
        push_le(&mut data, tx_len as u128, 4);
        let mut j: usize = 0;
        while j < txs.len()
            invariant
                j <= txs@.len(),
                data@ == le_encode(tx_len as nat, 4) + txs_bytes(txs@.take(j as int)),
            decreases txs@.len() - j,
        {
            let bytes = txs[j].to_bytes();
            append_all(&mut data, bytes.as_slice());
            proof {
                assert(txs@.take(j + 1).drop_last() =~= txs@.take(j as int));
            }
            j = j + 1;
        }
        proof {
            assert(txs@.take(j as int) =~= txs@);
        }
        let mut proof_store = match self.state_proof() {
            Some(p) => p,
            None => {
                return None;
            },
        };
        let proof_bytes = oof_to_bytes(&proof_store);
        let ghost head = data@;
        append_all(&mut data, proof_bytes.as_slice());
        proof {
            crate::bytes::lemma_pow256_values();
            crate::bytes::lemma_le_roundtrip(tx_len as nat, 4);
            assert(head.len() == 4 + txs_bytes(txs@).len());
            assert(data@.skip(4 + txs_bytes(txs@).len() as int) =~= proof_bytes@);
        }
        match oof_root(&mut proof_store) {
            Ok(root) => Some((data, root)),
            Err(_) => None,
        }
    }
}

/// The length field never shrinks as transactions are added.
proof fn lemma_txs_length_grows(txs: Seq<Transaction>, n: nat)
    requires
        n <= txs.len(),
    ensures
        txs_length(txs.take(n as int)) <= txs_length(txs),
    decreases txs.len() - n,
{
    if n < txs.len() {
        lemma_txs_length_grows(txs, n + 1);
        assert(txs.take(n + 1 as int).drop_last() =~= txs.take(n as int));
    } else {
        assert(txs.take(n as int) =~= txs);
    }
}

/// The transactions serialized back to back: the first one, then the rest.
proof fn lemma_txs_bytes_front(txs: Seq<Transaction>)
    requires
        txs.len() > 0,
    ensures
        txs_bytes(txs) == tx_bytes(txs[0]@.0, txs[0]@.1) + txs_bytes(txs.drop_first()),
    decreases txs.len(),
{
    if txs.len() == 1 {
        assert(txs.drop_first() =~= Seq::<Transaction>::empty());
        assert(txs.drop_last() =~= Seq::<Transaction>::empty());
        assert(txs_bytes(txs.drop_last()) == Seq::<u8>::empty());
        assert(txs_bytes(txs.drop_first()) == Seq::<u8>::empty());
        assert(txs_bytes(txs) =~= tx_bytes(txs[0]@.0, txs[0]@.1) + txs_bytes(txs.drop_first()));
    } else {
        lemma_txs_bytes_front(txs.drop_last());
        assert(txs.drop_last().drop_first() =~= txs.drop_first().drop_last());
        assert(txs.drop_first().last() == txs.last());
        assert(txs.drop_last()[0] == txs[0]);
        assert(txs_bytes(txs) =~= tx_bytes(txs[0]@.0, txs[0]@.1) + txs_bytes(txs.drop_first()));
    }
}

/// Without wrapping length fields, the proof offset is the byte length of
/// the serialized transactions.
proof fn lemma_txs_length_is_size(txs: Seq<Transaction>)
    requires
        txs_unwrapped(txs),
    ensures
        txs_length(txs) == txs_bytes(txs).len(),
    decreases txs.len(),
{
    if txs.len() > 0 {
        let last = txs.last();
        assert(txs_unwrapped(txs.drop_last())) by {
            assert forall|i: int| 0 <= i < txs.drop_last().len() implies ADDRESS_SIZE + (
            #[trigger] txs.drop_last()[i])@.1.len() < 0x1_0000_0000 by {
                assert(txs.drop_last()[i] == txs[i]);
            }
        }
        lemma_txs_length_is_size(txs.drop_last());
        assert(ADDRESS_SIZE + txs[txs.len() - 1]@.1.len() < 0x1_0000_0000);
        lemma_address_len(last@.0);
        crate::bytes::lemma_pow256_values();
        crate::bytes::lemma_le_roundtrip(tx_len(last@.1.len()) as nat, 4);
    }
}

/// The serialized transactions read back, one by one, as the transactions.
proof fn lemma_txs_stream(txs: Seq<Transaction>)
    requires
        txs_unwrapped(txs),
    ensures
        tx_stream_wf(txs_bytes(txs)),
        tx_stream(txs_bytes(txs)) == txs.map_values(|t: Transaction| tx_view(t)),
    decreases txs.len(),
{
    if txs.len() == 0 {
        assert(txs_bytes(txs) == Seq::<u8>::empty());
        assert(txs.map_values(|t: Transaction| tx_view(t)) =~= Seq::<RawTransactionView>::empty());
    } else {
        let rest = txs.drop_first();
        assert(txs_unwrapped(rest)) by {
            assert forall|i: int| 0 <= i < rest.len() implies ADDRESS_SIZE + (#[trigger] rest[i])@.1.len()
                < 0x1_0000_0000 by {
                assert(rest[i] == txs[i + 1]);
            }
        }
        lemma_txs_stream(rest);
        lemma_txs_bytes_front(txs);
        let t0 = tx_bytes(txs[0]@.0, txs[0]@.1);
        assert(ADDRESS_SIZE + txs[0]@.1.len() < 0x1_0000_0000);
        lemma_serialized_transaction_reads_back(txs[0]@.0, txs[0]@.1);
        let s = t0 + txs_bytes(rest);
        assert(s.take(4) =~= t0.take(4));
        let size = raw_tx_size(t0);
        assert(s.skip(size as int) =~= txs_bytes(rest));
        assert(parse_raw_tx(s) == parse_raw_tx(t0)) by {
            assert(s.subrange(4 + ADDRESS_SIZE, 4 + raw_tx_length(s) as int) =~= t0.subrange(
                4 + ADDRESS_SIZE,
                4 + raw_tx_length(t0) as int,
            ));
        }
        assert(tx_stream(s) == seq![parse_raw_tx(s)] + tx_stream(s.skip(raw_tx_size(s) as int)));
        assert(txs.map_values(|t: Transaction| tx_view(t)) =~= seq![tx_view(txs[0])]
            + rest.map_values(|t: Transaction| tx_view(t)));
    }
}

/// A blob that the engine frames reads back: its proof offset is the byte
/// length of the serialized transactions, which read back one by one as the
/// transactions that were framed, and what follows them is the proof. This
/// holds as long as no transaction's length field wraps around.
pub proof fn lemma_transactions_framing(txs: Seq<Transaction>, proof_bytes: Seq<u8>)
    requires
        txs_unwrapped(txs),
        txs_length(txs) <= u32::MAX,
    ensures
        ({
            let data = le_encode(txs_length(txs), 4) + txs_bytes(txs) + proof_bytes;
            &&& blob_proof_offset(data) == txs_bytes(txs).len()
            &&& blob_transactions(data) == txs_bytes(txs)
            &&& blob_proof(data) == proof_bytes
            &&& tx_stream_wf(blob_transactions(data))
            &&& tx_stream(blob_transactions(data)) == txs.map_values(|t: Transaction| tx_view(t))
        }),
{
    lemma_txs_length_is_size(txs);
    lemma_txs_stream(txs);
    crate::bytes::lemma_pow256_values();
    crate::bytes::lemma_le_roundtrip(txs_length(txs), 4);
    let data = le_encode(txs_length(txs), 4) + txs_bytes(txs) + proof_bytes;
    assert(data.take(4) =~= le_encode(txs_length(txs), 4));
    assert(blob_transactions(data) =~= txs_bytes(txs));
    assert(blob_proof(data) =~= proof_bytes);
}

/// A blob framed as `Engine::blob` frames it is read back by the node: the
/// proof offset lands on the proof, the transactions read back as the ones
/// that were framed, the proof yields the nodes it was written from and the
/// root that was answered with it, so the blob is neither cut short nor
/// refused for its pre-state root. This holds as long as no transaction's
/// length field wraps around and the node count fits in 32 bits.
pub proof fn lemma_blob_round_trip(
    txs: Seq<Transaction>,
    proof_bytes: Seq<u8>,
    nodes: Map<u128, [u8; 32]>,
    root: [u8; 32],
    height: nat,
)
    requires
        txs_unwrapped(txs),
        txs_length(txs) <= u32::MAX,
        oof_layout(proof_bytes, nodes),
        nodes.dom().len() < 0x1_0000_0000,
        oof_root_outcome(nodes).1 == Some(root),
    ensures
        ({
            let data = le_encode(txs_length(txs), 4) + txs_bytes(txs) + proof_bytes;
            &&& blob_framed(data)
            &&& tx_stream(blob_transactions(data)) == txs.map_values(|t: Transaction| tx_view(t))
            &&& blob_pre_nodes(data) == nodes
            &&& root_result(blob_pre_nodes(data)) == Ok::<[u8; 32], Error<Address>>(root)
            &&& blob_verdict(data, root, height) != Err::<(), BlobError>(BlobError::Truncated)
            &&& blob_verdict(data, root, height) != Err::<(), BlobError>(BlobError::RootMismatch)
        }),
{
    lemma_transactions_framing(txs, proof_bytes);
    lemma_layout_reads_back(proof_bytes, nodes);
    let data = le_encode(txs_length(txs), 4) + txs_bytes(txs) + proof_bytes;
    crate::bytes::lemma_pow256_values();
    crate::bytes::lemma_le_roundtrip(txs_length(txs), 4);
    assert(data.len() >= 4);
    assert(blob_proof(data) == proof_bytes);
    assert(blob_framed(data));
    assert(blob_pre_nodes(data) == nodes);
}

} // verus!
