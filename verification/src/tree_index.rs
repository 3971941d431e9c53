//! Index arithmetic for perfect binary trees, as the `bonsai` crate computes
//! it. Nodes carry general indices: the root is 1 and node `i` has children
//! `2i` and `2i + 1`.
use vstd::prelude::*;

verus! {

/// `2^n`.
pub open spec fn exp2(n: nat) -> nat
    decreases n,
{
    if n == 0 {
        1
    } else {
        2 * exp2((n - 1) as nat)
    }
}

/// `floor(log2(n))` for `n >= 1`, and zero below.
pub open spec fn floor_log2(n: nat) -> nat
    decreases n,
{
    if n <= 1 {
        0
    } else {
        1 + floor_log2(n / 2)
    }
}

/// The largest power of two not above `n`, or zero for zero.
pub open spec fn last_power_of_two(n: nat) -> nat {
    if n == 0 {
        0
    } else {
        exp2(floor_log2(n))
    }
}

/// The smallest power of two not below `n` (one for zero).
pub open spec fn next_power_of_two(n: nat) -> nat {
    if n <= 1 {
        1
    } else {
        2 * exp2(floor_log2((n - 1) as nat))
    }
}

/// The general index of the node that has index `index` in the subtree
/// rooted at the general index `root`.
pub open spec fn subtree_to_general(root: nat, index: nat) -> nat {
    (index + (root - 1) * last_power_of_two(index)) as nat
}

/// Wraps `bonsai::log2`: it returns `127 - n.leading_zeros()`, the position
/// of the highest set bit, that is `floor(log2(n))`. For `n == 0` it
/// subtracts past zero, so zero is left out.
#[verifier::external_body]
pub fn log2(n: u128) -> (r: u128)
    requires
        n >= 1,
    ensures
        r == floor_log2(n as nat),
{
    bonsai::log2(n)
}

/// Wraps `bonsai::first_leaf`: `root * (1 << depth)`, the leftmost node
/// `depth` levels below `root`. The shift and the product must not overflow.
#[verifier::external_body]
pub fn first_leaf(root: u128, depth: u128) -> (r: u128)
    requires
        depth < 128,
        root * exp2(depth as nat) <= u128::MAX,
    ensures
        r == root * exp2(depth as nat),
{
    bonsai::first_leaf(root, depth)
}

/// Wraps `bonsai::next_power_of_two`: it sets every bit below the highest
/// set bit of `n - 1` and adds one. `n == 0` subtracts past zero and
/// `n > 2^127` overflows, so both are left out.
#[verifier::external_body]
pub fn bonsai_next_power_of_two(n: u128) -> (r: u128)
    requires
        1 <= n <= exp2(127),
    ensures
        r == next_power_of_two(n as nat),
{
    bonsai::next_power_of_two(n)
}

/// Wraps `bonsai::subtree_index_to_general`, which computes
/// `root * index - (root - 1) * (index - last_power_of_two(index))`, that is
/// `index + (root - 1) * last_power_of_two(index)`. The root must be a node
/// (at least one) and `root * index` must not overflow.
#[verifier::external_body]
pub fn subtree_index_to_general(root: u128, index: u128) -> (r: u128)
    requires
        root >= 1,
        root * index <= u128::MAX,
    ensures
        r == subtree_to_general(root as nat, index as nat),
{
    bonsai::subtree_index_to_general(root, index)
}

/// Wraps `u128::checked_next_power_of_two`: the smallest power of two not
/// below `n` (one for zero), or `None` where that does not fit in 128 bits.
#[verifier::external_body]
pub fn checked_next_power_of_two(n: u128) -> (r: Option<u128>)
    ensures
        n <= exp2(127) ==> r == Some(next_power_of_two(n as nat) as u128),
        n > exp2(127) ==> r is None,
{
    n.checked_next_power_of_two()
}

} // verus!

verus! {

/// `2^e`, computed.
pub fn exp2_u128(e: u128) -> (r: u128)
    requires
        e < 128,
    ensures
        r == exp2(e as nat),
{
    let mut r: u128 = 1;
    let mut i: u128 = 0;
    while i < e
        invariant
            i <= e < 128,
            r == exp2(i as nat),
        decreases e - i,
    {
        proof {
            lemma_exp2_mono((i + 1) as nat, 127);
            lemma_exp2_127();
        }
        r = r * 2;
        i = i + 1;
    }
    r
}

pub proof fn lemma_exp2_127()
    ensures
        exp2(127) == 0x8000_0000_0000_0000_0000_0000_0000_0000,
{
    lemma_exp2_bytes(16);
    crate::bytes::lemma_pow256_values();
    assert(exp2(128) == 2 * exp2(127));
}

/// Eight factors of two make one factor of 256.
pub proof fn lemma_exp2_bytes(k: nat)
    ensures
        exp2(8 * k) == crate::bytes::pow256(k),
    decreases k,
{
    if k > 0 {
        lemma_exp2_bytes((k - 1) as nat);
        let a = (8 * (k - 1)) as nat;
        reveal_with_fuel(exp2, 9);
        assert(exp2(a + 8) == 2 * exp2(a + 7));
        assert(exp2(a + 7) == 2 * exp2(a + 6));
        assert(exp2(a + 6) == 2 * exp2(a + 5));
        assert(exp2(a + 5) == 2 * exp2(a + 4));
        assert(exp2(a + 4) == 2 * exp2(a + 3));
        assert(exp2(a + 3) == 2 * exp2(a + 2));
        assert(exp2(a + 2) == 2 * exp2(a + 1));
        assert(exp2(a + 1) == 2 * exp2(a));
        assert(8 * k == a + 8);
    }
}

pub proof fn lemma_exp2_mono(a: nat, b: nat)
    requires
        a <= b,
    ensures
        exp2(a) <= exp2(b),
    decreases b,
{
    if a < b {
        lemma_exp2_mono(a, (b - 1) as nat);
    }
}

pub proof fn lemma_exp2_pos(a: nat)
    ensures
        exp2(a) >= 1,
    decreases a,
{
    if a > 0 {
        lemma_exp2_pos((a - 1) as nat);
    }
}

/// `floor_log2` inverts `exp2`.
pub proof fn lemma_floor_log2_exp2(e: nat)
    ensures
        floor_log2(exp2(e)) == e,
        last_power_of_two(exp2(e)) == exp2(e),
    decreases e,
{
    lemma_exp2_pos(e);
    if e > 0 {
        lemma_exp2_pos((e - 1) as nat);
        lemma_floor_log2_exp2((e - 1) as nat);
        assert(exp2(e) / 2 == exp2((e - 1) as nat));
    }
}

/// `2^floor_log2(n) <= n < 2^(floor_log2(n) + 1)` for `n >= 1`.
pub proof fn lemma_floor_log2_bounds(n: nat)
    requires
        n >= 1,
    ensures
        exp2(floor_log2(n)) <= n < 2 * exp2(floor_log2(n)),
    decreases n,
{
    if n > 1 {
        lemma_floor_log2_bounds(n / 2);
    }
}

/// Splitting off `k` factors of two: `2^(a + k) == 2^a * 2^k`, shown
/// for the constant factors that index arithmetic needs.
pub proof fn lemma_exp2_split5(a: nat)
    ensures
        exp2(a + 5) == 32 * exp2(a),
{
    reveal_with_fuel(exp2, 6);
    assert(exp2(a + 5) == 2 * exp2(a + 4));
    assert(exp2(a + 4) == 2 * exp2(a + 3));
    assert(exp2(a + 3) == 2 * exp2(a + 2));
    assert(exp2(a + 2) == 2 * exp2(a + 1));
    assert(exp2(a + 1) == 2 * exp2(a));
}

} // verus!

verus! {

/// Distinct subtree indices name distinct general indices.
pub proof fn lemma_subtree_to_general_injective(root: nat, a: nat, b: nat)
    requires
        root >= 1,
        subtree_to_general(root, a) == subtree_to_general(root, b),
    ensures
        a == b,
{
    if a == 0 || b == 0 {
        assert(last_power_of_two(0) == 0);
        assert((root - 1) * 0 == 0) by (nonlinear_arith);
        assert(subtree_to_general(root, 0) == 0);
        if a != 0 {
            lemma_exp2_pos(floor_log2(a));
            assert((root - 1) * last_power_of_two(a) >= 0) by (nonlinear_arith)
                requires
                    root >= 1,
            ;
        }
        if b != 0 {
            lemma_exp2_pos(floor_log2(b));
            assert((root - 1) * last_power_of_two(b) >= 0) by (nonlinear_arith)
                requires
                    root >= 1,
            ;
        }
    } else {
        let da = floor_log2(a);
        let db = floor_log2(b);
        lemma_floor_log2_bounds(a);
        lemma_floor_log2_bounds(b);
        if da < db {
            lemma_general_range_below(root, a, b);
        } else if db < da {
            lemma_general_range_below(root, b, a);
        } else {
            assert(last_power_of_two(a) == last_power_of_two(b));
        }
    }
}

/// A node at a shallower level of a subtree has a smaller general index.
proof fn lemma_general_range_below(root: nat, a: nat, b: nat)
    requires
        root >= 1,
        a >= 1,
        b >= 1,
        floor_log2(a) < floor_log2(b),
    ensures
        subtree_to_general(root, a) < subtree_to_general(root, b),
{
    let da = floor_log2(a);
    let db = floor_log2(b);
    lemma_floor_log2_bounds(a);
    lemma_floor_log2_bounds(b);
    let pa = exp2(da);
    let pb = exp2(db);
    lemma_exp2_mono(da + 1, db);
    assert(exp2(da + 1) == 2 * pa);
    // a + (root - 1) * pa < (root + 1) * pa <= root * 2 * pa <= root * pb
    assert(a + (root - 1) * pa < root * pb) by (nonlinear_arith)
        requires
            a < 2 * pa,
            2 * pa <= pb,
            root >= 1,
            pa >= 1,
    ;
    assert(root * pb <= b + (root - 1) * pb) by (nonlinear_arith)
        requires
            pb <= b,
            root >= 1,
    ;
}

} // verus!

verus! {

/// A general index is at most `root * index`.
pub proof fn lemma_subtree_to_general_le(root: nat, index: nat)
    requires
        root >= 1,
    ensures
        subtree_to_general(root, index) <= root * index,
{
    if index > 0 {
        lemma_floor_log2_bounds(index);
        let p = last_power_of_two(index);
        assert((root - 1) * p <= (root - 1) * index) by (nonlinear_arith)
            requires
                p <= index,
                root >= 1,
        ;
        assert(index + (root - 1) * index == root * index) by (nonlinear_arith);
    } else {
        assert((root - 1) * 0 == 0) by (nonlinear_arith);
    }
}

} // verus!
