use crate::contracts::{u32_to_value, value_array};
use crate::interface::contract::Contract;
use crate::merkle_tree::{
    bytes_depth, in_subtree, kept_by_insert, tree_bytes_inserted, tree_insert, tree_insert_bytes,
    tree_new, tree_nodes, tree_to_map,
};
use crate::tree_index::{
    exp2, floor_log2, lemma_exp2_127, lemma_exp2_mono, lemma_floor_log2_bounds,
    lemma_floor_log2_exp2, next_power_of_two,
};
use std::collections::BTreeMap;
use vstd::prelude::*;

verus! {

/// The storage that deploys a hello-world contract with the given code: the
/// data root (2) holds zero, the length mix-in (7) the code's length, and the
/// code is inserted as bytes under the code root (6).
pub open spec fn hello_world_map(code: Seq<u8>) -> Map<u128, [u8; 32]> {
    tree_bytes_inserted(
        Map::empty().insert(2, value_array(0)).insert(
            7,
            value_array((code.len() % 0x1_0000_0000) as u32),
        ),
        6,
        code,
    )
}

/// No node of the subtree under the code root (6) is a fixed leaf of the
/// storage or a child of one.
proof fn lemma_outside_code_subtree(k: nat)
    requires
        k == 2 || k == 4 || k == 5 || k == 7 || k == 14 || k == 15,
    ensures
        !in_subtree(k, 6),
{
    if in_subtree(k, 6) {
        let l = choose|l: nat| 6 * #[trigger] exp2(l) <= k < (6 + 1) * exp2(l);
        reveal_with_fuel(exp2, 3);
        if l >= 2 {
            lemma_exp2_mono(2, l);
        }
        assert(false);
    }
}

/// A contract that prints "hello world" and returns 42.
#[derive(Clone)]
pub struct HelloWorld {
    bytecode: Vec<u8>,
}

impl View for HelloWorld {
    type V = Seq<u8>;

    closed spec fn view(&self) -> Seq<u8> {
        self.bytecode@
    }
}

impl HelloWorld {
    /// The contract with the given compiled code.
    pub fn new(bytecode: Vec<u8>) -> (h: Self)
        ensures
            h@ == bytecode@,
    {
        Self { bytecode }
    }
}

/// The leaves of code shorter than `2^64` bytes lie at a depth that leaves
/// room for any subtree root below 8.
proof fn lemma_bytes_depth_bound(len: nat)
    requires
        16 < len < 0x1_0000_0000_0000_0000,
    ensures
        len <= exp2(127),
        7 * exp2(bytes_depth(len)) <= u128::MAX,
{
    let f = floor_log2((len - 1) as nat);
    crate::tree_index::lemma_exp2_bytes(8);
    crate::bytes::lemma_pow256_values();
    lemma_exp2_127();
    lemma_floor_log2_bounds((len - 1) as nat);
    if f >= 64 {
        lemma_exp2_mono(64, f);
    }
    lemma_exp2_mono(64, 127);
    assert(next_power_of_two(len) == exp2(f + 1));
    crate::tree_index::lemma_exp2_split5(0);
    reveal_with_fuel(exp2, 2);
    if f < 4 {
        lemma_exp2_mono(f, 3);
        assert(exp2(3) == 8);
    }
    assert(f + 1 >= 5);
    crate::tree_index::lemma_exp2_split5((f + 1 - 5) as nat);
    assert(next_power_of_two(len) / 32 == exp2((f + 1 - 5) as nat));
    lemma_floor_log2_exp2((f + 1 - 5) as nat);
    lemma_exp2_mono((f + 1 - 5) as nat, 60);
    crate::tree_index::lemma_exp2_split5(60);
}

impl Contract for HelloWorld {
    open spec fn code_view(&self) -> Seq<u8> {
        self@
    }

    open spec fn mappable(&self) -> bool {
        self@.len() > 16
    }

    open spec fn storage(&self) -> Map<u128, [u8; 32]> {
        hello_world_map(self@)
    }

    fn bytecode(&self) -> (b: &[u8]) {
        self.bytecode.as_slice()
    }

    /// Inserting the code under the code root keeps the fixed leaves: the
    /// data root (2) holds zero and the length mix-in (7) the code's length.
    fn to_map(&self) -> (m: BTreeMap<u128, [u8; 32]>)
        ensures
            m@.contains_key(2),
            m@[2] == value_array(0),
            m@.contains_key(7),
            m@[7] == value_array((self@.len() % 0x1_0000_0000) as u32),
    {
        let len = self.bytecode.len() as u128;
        let mut tree = tree_new();
        tree_insert(&mut tree, 2, u32_to_value(0));
        tree_insert(&mut tree, 7, u32_to_value((len % 0x1_0000_0000) as u32));
        proof {
            lemma_bytes_depth_bound(self@.len());
        }
        proof {
            lemma_outside_code_subtree(2);
            lemma_outside_code_subtree(4);
            lemma_outside_code_subtree(5);
            lemma_outside_code_subtree(7);
            lemma_outside_code_subtree(14);
            lemma_outside_code_subtree(15);
            assert(kept_by_insert(tree_nodes(tree), 2, 6));
            assert(kept_by_insert(tree_nodes(tree), 7, 6));
        }
        let ghost before = tree_nodes(tree);
        tree_insert_bytes(&mut tree, 6, self.bytecode.clone());
        assert(tree_nodes(tree)[2] == before[2]);
        assert(tree_nodes(tree)[7] == before[7]);
        tree_to_map(tree)
    }
}

} // verus!
