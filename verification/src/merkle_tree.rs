//! The binary trees of the `arborist` crate: maps from general indices to
//! 32-byte nodes, with operations that fill in and prune hashes.
use crate::tree_index::{exp2, floor_log2, next_power_of_two};
use std::collections::BTreeMap;
use vstd::prelude::*;

verus! {

#[verifier::external_type_specification]
#[verifier::external_body]
pub struct ExTree(arborist::Tree);

/// The nodes that an `arborist::Tree` holds, by general index.
pub uninterp spec fn tree_nodes(t: arborist::Tree) -> Map<u128, [u8; 32]>;

/// The nodes after `arborist::Tree::insert_bytes(rooted_at, bytes)`: the
/// bytes in 32-byte leaves under `rooted_at`, the subtree hashed up to it,
/// and the inner nodes that have children pruned.
pub uninterp spec fn tree_bytes_inserted(
    nodes: Map<u128, [u8; 32]>,
    rooted_at: u128,
    bytes: Seq<u8>,
) -> Map<u128, [u8; 32]>;

/// `k` is `root` or lies below it: at some depth `l` under `root`, whose
/// nodes run from `root * 2^l` to `(root + 1) * 2^l - 1`.
pub open spec fn in_subtree(k: nat, root: nat) -> bool {
    exists|l: nat| root * #[trigger] exp2(l) <= k < (root + 1) * exp2(l)
}

/// The node at `k` lies outside the subtree of `rooted_at`, and so do its
/// two children, which `nodes` does not hold: inserting bytes under
/// `rooted_at` neither writes it nor prunes it.
pub open spec fn kept_by_insert(nodes: Map<u128, [u8; 32]>, k: u128, rooted_at: u128) -> bool {
    &&& nodes.contains_key(k)
    &&& 2 * k + 1 <= u128::MAX
    &&& !nodes.contains_key((2 * k) as u128)
    &&& !nodes.contains_key((2 * k + 1) as u128)
    &&& !in_subtree(k as nat, rooted_at as nat)
    &&& !in_subtree(2 * k as nat, rooted_at as nat)
    &&& !in_subtree((2 * k + 1) as nat, rooted_at as nat)
}

/// The nodes after `arborist::Tree::fill_subtree(root, depth, default)`:
/// every missing node between the leaves present at `depth` below `root` and
/// `root` is added, siblings as hashes of `default`, parents as hashes of
/// their children.
pub uninterp spec fn tree_subtree_filled(
    nodes: Map<u128, [u8; 32]>,
    root: u128,
    depth: u32,
    default: [u8; 32],
) -> Map<u128, [u8; 32]>;

/// The nodes after `arborist::Tree::trim`: each node that has a child is
/// removed.
pub uninterp spec fn tree_trimmed(nodes: Map<u128, [u8; 32]>) -> Map<u128, [u8; 32]>;

/// The depth below the root of the leaves that `len` bytes take in
/// `insert_bytes`: `log2` of the length rounded up to a power of two, in
/// 32-byte chunks.
pub open spec fn bytes_depth(len: nat) -> nat {
    floor_log2(next_power_of_two(len) / 32)
}

/// Wraps `arborist::Tree::new`: a tree with no nodes.
#[verifier::external_body]
pub fn tree_new() -> (fresh: arborist::Tree)
    ensures
        tree_nodes(fresh) =~= Map::empty(),
{
    arborist::Tree::new()
}

/// Wraps `arborist::Tree::insert`: a map insertion, answering what the key
/// held.
#[verifier::external_body]
pub fn tree_insert(t: &mut arborist::Tree, key: u128, value: [u8; 32]) -> (r: Option<[u8; 32]>)
    ensures
        tree_nodes(*final(t)) == tree_nodes(*old(t)).insert(key, value),
        r == tree_nodes(*old(t)).get(key),
{
    t.insert(key, value)
}

/// Wraps `arborist::Tree::insert_bytes`. It takes `log2` of the padded
/// length in chunks, which fails for 16 bytes or fewer, and hashes a subtree
/// whose last leaf `rooted_at * 2^d + 2^d - 1` must fit in 128 bits. The
/// leaves it writes and the nodes `fill_subtree` adds all lie in the subtree
/// of `rooted_at`, and the pruning removes only nodes with a child present,
/// so a node that `kept_by_insert` describes stays as it was; the rest of the
/// result is named.
#[verifier::external_body]
pub fn tree_insert_bytes(t: &mut arborist::Tree, rooted_at: u128, bytes: Vec<u8>)
    requires
        bytes@.len() > 16,
        bytes@.len() <= exp2(127),
        (rooted_at + 1) * exp2(bytes_depth(bytes@.len())) <= u128::MAX,
    ensures
        tree_nodes(*final(t)) == tree_bytes_inserted(tree_nodes(*old(t)), rooted_at, bytes@),
        forall|k: u128|
            kept_by_insert(tree_nodes(*old(t)), k, rooted_at) ==> tree_nodes(
                *final(t),
            ).contains_key(k) && #[trigger] tree_nodes(*final(t))[k] == tree_nodes(*old(t))[k],
{
    t.insert_bytes(rooted_at, bytes)
}

/// Wraps `arborist::Tree::fill_subtree`. It walks the leaves from
/// `root * 2^depth` to `root * 2^depth + 2^depth - 1`, which must fit in 128
/// bits.
#[verifier::external_body]
pub fn tree_fill_subtree(t: &mut arborist::Tree, root: u128, depth: u32, default: &[u8; 32])
    requires
        root >= 1,
        depth < 128,
        (root + 1) * exp2(depth as nat) <= u128::MAX,
    ensures
        tree_nodes(*final(t)) == tree_subtree_filled(tree_nodes(*old(t)), root, depth, *default),
{
    t.fill_subtree(root, depth, default)
}

/// Wraps `arborist::Tree::trim`.
#[verifier::external_body]
pub fn tree_trim(t: arborist::Tree) -> (r: arborist::Tree)
    ensures
        tree_nodes(r) == tree_trimmed(tree_nodes(t)),
{
    t.trim()
}

/// Wraps `From<BTreeMap> for arborist::Tree`: the map becomes the nodes.
#[verifier::external_body]
pub fn tree_from_map(m: BTreeMap<u128, [u8; 32]>) -> (t: arborist::Tree)
    ensures
        tree_nodes(t) == m@,
{
    arborist::Tree::from(m)
}

/// Wraps `From<arborist::Tree> for BTreeMap`: the nodes become the map.
#[verifier::external_body]
pub fn tree_to_map(t: arborist::Tree) -> (m: BTreeMap<u128, [u8; 32]>)
    ensures
        m@ == tree_nodes(t),
{
    BTreeMap::from(t)
}

} // verus!
