use crate::bytes::le_value;
use crate::contracts::{u32_to_value, value_bytes};
use crate::interface::address::Address;
use crate::interface::contract::Contract;
use crate::tree_index::{
    checked_next_power_of_two, exp2, exp2_u128, floor_log2, lemma_exp2_127, lemma_exp2_mono,
    lemma_exp2_pos, lemma_exp2_split5, lemma_floor_log2_bounds, lemma_floor_log2_exp2, log2,
    next_power_of_two, subtree_index_to_general, subtree_to_general,
};
use std::collections::BTreeMap;
use vstd::prelude::*;

verus! {

broadcast use vstd::std_specs::btree::group_btree_axioms;

/// The `j`-th 32-byte chunk of `code`, padded with zeros past its end.
pub open spec fn chunk_of(code: Seq<u8>, j: int) -> Seq<u8> {
    Seq::new(32, |t: int| if 32 * j + t < code.len() { code[32 * j + t] } else { 0u8 })
}

/// The number of leaves that hold the code: its length rounded up to a
/// power of two, in 32-byte chunks.
pub open spec fn wallet_leaf_count(len: nat) -> nat {
    next_power_of_two(len) / 32
}

/// The subtree index of the leaf that holds the first code chunk.
pub open spec fn wallet_first_leaf(len: nat) -> nat {
    subtree_to_general(6, exp2((floor_log2(wallet_leaf_count(len)) - 1) as nat))
}

/// `m` is the storage of a wallet whose code is `code`: the data root (2)
/// holds zero, the length mix-in (7) holds the code's length, and the code
/// chunks fill `wallet_leaf_count` consecutive leaves from
/// `wallet_first_leaf`, zero chunks padding the count up. A chunk leaf wins
/// over the length mix-in where the two share an index.
pub open spec fn wallet_storage(m: Map<u128, [u8; 32]>, code: Seq<u8>) -> bool {
    let first = wallet_first_leaf(code.len());
    let n = wallet_leaf_count(code.len());
    &&& forall|k: u128| #[trigger]
        m.contains_key(k) <==> (k == 2 || k == 7 || (first <= k < first + n))
    &&& forall|k: u128| first <= k < first + n ==> #[trigger] m[k]@ == chunk_of(code, k - first)
    &&& !(first <= 7 < first + n) ==> m[7]@ == value_bytes((code.len() % 0x1_0000_0000) as u32)
    &&& m[2]@ == value_bytes(0)
}

/// The storage built so far: the two fixed leaves and the first `j` chunks.
spec fn wallet_partial(m: Map<u128, [u8; 32]>, code: Seq<u8>, first: nat, j: nat) -> bool {
    &&& forall|k: u128| #[trigger]
        m.contains_key(k) <==> (k == 2 || k == 7 || (first <= k < first + j))
    &&& forall|k: u128| first <= k < first + j ==> #[trigger] m[k]@ == chunk_of(code, k - first)
    &&& !(first <= 7 < first + j) ==> m[7]@ == value_bytes((code.len() % 0x1_0000_0000) as u32)
    &&& m[2]@ == value_bytes(0)
}

/// A code determines its wallet storage.
pub proof fn lemma_wallet_storage_unique(m1: Map<u128, [u8; 32]>, m2: Map<u128, [u8; 32]>, code: Seq<u8>)
    requires
        wallet_storage(m1, code),
        wallet_storage(m2, code),
    ensures
        m1 == m2,
{
    let first = wallet_first_leaf(code.len());
    let n = wallet_leaf_count(code.len());
    assert forall|k: u128| m1.contains_key(k) implies m1[k] == m2[k] by {
        if first <= k < first + n {
            assert(m1[k]@ == m2[k]@);
        } else if k == 7 {
            assert(m1[k]@ == m2[k]@);
        } else {
            assert(k == 2);
            assert(m1[k]@ == m2[k]@);
        }
        assert(m1[k] =~= m2[k]);
    }
    assert(m1 =~= m2);
}

/// The bytes of the `n` chunk leaves of `m` from key `first` on, in key
/// order.
pub open spec fn stored_chunks(m: Map<u128, [u8; 32]>, first: nat, n: nat) -> Seq<u8> {
    Seq::new(32 * n, |t: int| m[(first + t / 32) as u128]@[t % 32])
}

/// The code reads back from the wallet storage: the length mix-in holds the
/// code's length as a sixteen-byte little-endian number, and the chunk
/// leaves, taken in key order, hold the code followed by zeros. For code of
/// at most 64 bytes the second chunk sits on the length mix-in, so the
/// length is not kept.
pub proof fn lemma_wallet_reads_back(m: Map<u128, [u8; 32]>, code: Seq<u8>)
    requires
        wallet_storage(m, code),
        64 < code.len() <= u32::MAX,
    ensures
        le_value(m[7]@.take(16)) == code.len(),
        ({
            let bytes = stored_chunks(m, wallet_first_leaf(code.len()), wallet_leaf_count(code.len()));
            &&& bytes.len() >= code.len()
            &&& bytes.take(code.len() as int) == code
            &&& forall|t: int| code.len() <= t < bytes.len() ==> bytes[t] == 0u8
        }),
{
    let len = code.len();
    lemma_wallet_layout(len);
    let first = wallet_first_leaf(len);
    let n = wallet_leaf_count(len);
    let p = (floor_log2((len - 1) as nat) + 1) as nat;
    lemma_floor_log2_bounds((len - 1) as nat);
    reveal_with_fuel(exp2, 7);
    if floor_log2((len - 1) as nat) < 6 {
        lemma_exp2_mono(floor_log2((len - 1) as nat), 5);
    }
    lemma_exp2_mono(2, (p - 5) as nat);
    assert(n >= 4);
    assert(!(first <= 7 < first + n));
    crate::contracts::lemma_value_reads_back((len % 0x1_0000_0000) as u32);
    let bytes = stored_chunks(m, first, n);
    assert forall|t: int| 0 <= t < bytes.len() implies bytes[t] == (if t < len { code[t] } else { 0u8 }) by {
        let j = t / 32;
        assert(0 <= j < n);
        assert(32 * j + t % 32 == t);
        let k = (first + j) as u128;
        assert(first <= k < first + n);
        assert(m[k]@ == chunk_of(code, k - first));
    }
    assert(bytes.take(len as int) =~= code);
}

/// The wallet storage for `code`.
pub open spec fn wallet_map(code: Seq<u8>) -> Map<u128, [u8; 32]> {
    choose|m: Map<u128, [u8; 32]>| wallet_storage(m, code)
}

/// The wallet contract: its compiled code, and the address it may be
/// deployed at.
#[derive(Clone)]
pub struct Wallet {
    address: Option<Address>,
    bytecode: Vec<u8>,
}

impl View for Wallet {
    type V = Seq<u8>;

    closed spec fn view(&self) -> Seq<u8> {
        self.bytecode@
    }
}

impl Wallet {
    /// A wallet with the given compiled code, not yet deployed.
    pub fn new(bytecode: Vec<u8>) -> (w: Self)
        ensures
            w@ == bytecode@,
    {
        Self { address: None, bytecode }
    }

    /// Lays out the storage that deploys this wallet. The code must span
    /// more than one 32-byte chunk: for shorter code the chunk depth is zero
    /// or below.
    fn build_storage(&self) -> (m: BTreeMap<u128, [u8; 32]>)
        requires
            self@.len() > 32,
        ensures
            wallet_storage(m@, self@),
    {
        let bytecode = self.bytecode.as_slice();
        let ghost code = bytecode@;
        let len: u128 = bytecode.len() as u128;
        let chunks: u128 = len / 32 + if len % 32 == 0 {
            0
        } else {
            1
        };
        proof {
            lemma_wallet_layout(len as nat);
            lemma_exp2_127();
        }
        let padded_len = checked_next_power_of_two(len).unwrap();
        let depth = log2(padded_len / 32);
        let half = exp2_u128(depth - 1);
        let first: u128 = subtree_index_to_general(6, half);
        let leaves: u128 = padded_len / 32;
        let ghost n = leaves as nat;
        assert(first == 3 * n);

        let mut map = BTreeMap::<u128, [u8; 32]>::new();
        map.insert(2, u32_to_value(0));
        map.insert(7, u32_to_value((len % 0x1_0000_0000) as u32));

        let mut j: u128 = 0;
        while j < chunks
            invariant
                code == bytecode@,
                len == code.len(),
                len <= usize::MAX,
                len < 0x1_0000_0000_0000_0000,
                chunks == len / 32 + if len % 32 == 0 { 0int } else { 1int },
                first == 3 * n,
                n * 32 >= len,
                chunks <= n < 0x1_0000_0000_0000_0000,
                j <= chunks,
                first == wallet_first_leaf(code.len()),
                wallet_partial(map@, code, first as nat, j as nat),
            decreases chunks - j,
        {
            let begin: usize = (32 * j) as usize;
            let end: usize = if 32 * j + 32 < len {
                (32 * j + 32) as usize
            } else {
                len as usize
            };
            let mut buf = [0u8; 32];
            let mut t: usize = 0;
            while t < end - begin
                invariant
                    begin < end <= bytecode@.len(),
                    end - begin <= 32,
                    t <= end - begin,
                    begin == 32 * j,
                    end == if 32 * j + 32 < len { 32 * j + 32 } else { len as int },
                    forall|u: int| 0 <= u < 32 ==> #[trigger] buf@[u] == (if u < t { bytecode@[begin + u] } else { 0u8 }),
                decreases end - begin - t,
            {
                buf[t] = bytecode[begin + t];
                t = t + 1;
            }
            assert(buf@ =~= chunk_of(code, j as int));
            map.insert(first + j, buf);
            j = j + 1;
        }

        while j < leaves
            invariant
                len == code.len(),
                chunks == len / 32 + if len % 32 == 0 { 0int } else { 1int },
                first == 3 * n,
                leaves == n,
                n < 0x1_0000_0000_0000_0000,
                chunks <= j <= n,
                first == wallet_first_leaf(code.len()),
                wallet_partial(map@, code, first as nat, j as nat),
            decreases leaves - j,
        {
            let buf = [0u8; 32];
            assert(buf@ =~= chunk_of(code, j as int));
            map.insert(first + j, buf);
            j = j + 1;
        }
        map
    }
}

/// The index arithmetic of the wallet layout for a code length in
/// `(32, 2^64)`: the padded length is `2^p` with `6 <= p <= 64`, there are
/// `n = 2^(p - 5)` leaves, and the first of them is `3n`.
proof fn lemma_wallet_layout(len: nat)
    requires
        32 < len < 0x1_0000_0000_0000_0000,
    ensures
        ({
            let p = (floor_log2((len - 1) as nat) + 1) as nat;
            let n = wallet_leaf_count(len);
            &&& 6 <= p <= 64
            &&& next_power_of_two(len) == exp2(p)
            &&& n == exp2((p - 5) as nat)
            &&& floor_log2(n) == p - 5
            &&& wallet_first_leaf(len) == 3 * n
            &&& n * 32 >= len
            &&& n <= 0x8000_0000_0000_0000
            &&& exp2((p - 6) as nat) < 0x8000_0000_0000_0000
        }),
{
    let f = floor_log2((len - 1) as nat);
    let p = (f + 1) as nat;
    crate::tree_index::lemma_exp2_bytes(8);
    crate::bytes::lemma_pow256_values();
    lemma_floor_log2_bounds((len - 1) as nat);
    reveal_with_fuel(exp2, 2);
    lemma_exp2_split5(0);
    if f < 5 {
        lemma_exp2_mono(p, 5);
    }
    if f >= 64 {
        lemma_exp2_mono(64, f);
    }
    assert(6 <= p <= 64);
    assert(exp2(p) == 2 * exp2(f));
    lemma_exp2_split5((p - 5) as nat);
    let n = exp2((p - 5) as nat);
    assert(exp2(p) == 32 * n);
    assert(wallet_leaf_count(len) == n);
    lemma_floor_log2_exp2((p - 5) as nat);
    lemma_floor_log2_exp2((p - 6) as nat);
    lemma_exp2_pos((p - 6) as nat);
    assert(n == 2 * exp2((p - 6) as nat));
    lemma_exp2_mono((p - 5) as nat, 59);
    lemma_exp2_split5(59);
    lemma_exp2_mono((p - 6) as nat, 58);
    lemma_exp2_split5(58);
}

impl Contract for Wallet {
    open spec fn code_view(&self) -> Seq<u8> {
        self@
    }

    open spec fn mappable(&self) -> bool {
        self@.len() > 32
    }

    open spec fn storage(&self) -> Map<u128, [u8; 32]> {
        wallet_map(self@)
    }

    fn bytecode(&self) -> (b: &[u8]) {
        self.bytecode.as_slice()
    }

    fn to_map(&self) -> (m: BTreeMap<u128, [u8; 32]>)
        ensures
            wallet_storage(m@, self@),
    {
        let m = self.build_storage();
        proof {
            lemma_wallet_storage_unique(m@, wallet_map(self@), self@);
        }
        m
    }
}

} // verus!
