use vstd::prelude::*;

verus! {

/// `256^n`, the number of values that `n` bytes can hold.
pub open spec fn pow256(n: nat) -> nat
    decreases n,
{
    if n == 0 {
        1
    } else {
        256 * pow256((n - 1) as nat)
    }
}

/// The number that the bytes `s` encode in little-endian order.
pub open spec fn le_value(s: Seq<u8>) -> nat
    decreases s.len(),
{
    if s.len() == 0 {
        0
    } else {
        (s[0] + 256 * le_value(s.drop_first())) as nat
    }
}

/// The `n` little-endian bytes of `x`, dropping what does not fit.
pub open spec fn le_encode(x: nat, n: nat) -> Seq<u8>
    decreases n,
{
    if n == 0 {
        Seq::empty()
    } else {
        seq![(x % 256) as u8] + le_encode(x / 256, (n - 1) as nat)
    }
}

pub proof fn lemma_pow256_values()
    ensures
        pow256(1) == 0x100,
        pow256(2) == 0x1_0000,
        pow256(4) == 0x1_0000_0000,
        pow256(8) == 0x1_0000_0000_0000_0000,
        pow256(16) == 0x1_0000_0000_0000_0000_0000_0000_0000_0000,
{
    reveal_with_fuel(pow256, 17);
}

/// Little-endian bytes never encode more than their width allows.
pub proof fn lemma_le_value_bound(s: Seq<u8>)
    ensures
        le_value(s) < pow256(s.len()),
    decreases s.len(),
{
    if s.len() > 0 {
        lemma_le_value_bound(s.drop_first());
    }
}

/// Encoding a value that fits yields `n` bytes that decode to it.
pub proof fn lemma_le_roundtrip(x: nat, n: nat)
    requires
        x < pow256(n),
    ensures
        le_encode(x, n).len() == n,
        le_value(le_encode(x, n)) == x,
    decreases n,
{
    if n > 0 {
        lemma_le_roundtrip(x / 256, (n - 1) as nat);
        let e = le_encode(x, n);
        assert(e.drop_first() =~= le_encode(x / 256, (n - 1) as nat));
    }
}

/// Trailing zero bytes do not change a little-endian number.
pub proof fn lemma_le_value_zero_tail(s: Seq<u8>, k: nat)
    ensures
        le_value(s + Seq::new(k, |i: int| 0u8)) == le_value(s),
    decreases s.len() + k,
{
    let z = Seq::new(k, |i: int| 0u8);
    if s.len() == 0 {
        if k > 0 {
            let z1 = Seq::new((k - 1) as nat, |i: int| 0u8);
            assert((s + z).drop_first() =~= Seq::<u8>::empty() + z1);
            lemma_le_value_zero_tail(Seq::<u8>::empty(), (k - 1) as nat);
        }
        assert(s + z =~= z);
    } else {
        assert((s + z).drop_first() =~= s.drop_first() + z);
        lemma_le_value_zero_tail(s.drop_first(), k);
    }
}

/// Reads the `n` bytes of `s` from `off` as a little-endian number.
pub fn read_le(s: &[u8], off: usize, n: usize) -> (v: u128)
    requires
        n <= 16,
        off + n <= s@.len(),
    ensures
        v == le_value(s@.subrange(off as int, off + n)),
{
    proof {
        lemma_pow256_values();
    }
    let mut v: u128 = 0;
    let mut i: usize = n;
    while i > 0
        invariant
            n <= 16,
            off + n <= s@.len(),
            s@.len() == s.len(),
            pow256(16) == 0x1_0000_0000_0000_0000_0000_0000_0000_0000,
            i <= n,
            v == le_value(s@.subrange(off + i, off + n)),
            v < pow256((n - i) as nat),
        decreases i,
    {
        i = i - 1;
        let b = s[off + i];
        let ghost rest = s@.subrange(off + i + 1, off + n);
        proof {
            assert(s@.subrange(off + i, off + n).drop_first() =~= rest);
            lemma_pow256_mono((n - i) as nat, 16);
            assert(pow256((n - i) as nat) == 256 * pow256((n - i - 1) as nat));
            assert(v * 256 + b < pow256((n - i) as nat));
        }
        v = v * 256 + b as u128;
    }
    v
}

pub proof fn lemma_pow256_mono(a: nat, b: nat)
    requires
        a <= b,
    ensures
        pow256(a) <= pow256(b),
    decreases b,
{
    if a < b {
        lemma_pow256_mono(a, (b - 1) as nat);
    }
}

/// Appends the `n` little-endian bytes of `x` to `out`.
pub fn push_le(out: &mut Vec<u8>, x: u128, n: usize)
    ensures
        final(out)@ == old(out)@ + le_encode(x as nat, n as nat),
{
    let mut cur: u128 = x;
    let mut i: usize = 0;
    while i < n
        invariant
            i <= n,
            out@ + le_encode(cur as nat, (n - i) as nat) == old(out)@ + le_encode(x as nat, n as nat),
        decreases n - i,
    {
        let ghost before = out@;
        out.push((cur % 256) as u8);
        proof {
            assert(le_encode(cur as nat, (n - i) as nat) =~= seq![(cur % 256) as u8] + le_encode((cur / 256) as nat, (n - i - 1) as nat));
            assert(out@ + le_encode((cur / 256) as nat, (n - i - 1) as nat) =~= before + le_encode(cur as nat, (n - i) as nat));
        }
        cur = cur / 256;
        i = i + 1;
    }
    assert(out@ =~= out@ + le_encode(cur as nat, 0));
}

} // verus!

verus! {

/// A fresh vector holding `s[from..to]`.
pub fn copy_range(s: &[u8], from: usize, to: usize) -> (v: Vec<u8>)
    requires
        from <= to <= s@.len(),
    ensures
        v@ == s@.subrange(from as int, to as int),
{
    let mut v: Vec<u8> = Vec::new();
    let mut i: usize = from;
    while i < to
        invariant
            from <= i <= to <= s@.len(),
            v@ == s@.subrange(from as int, i as int),
        decreases to - i,
    {
        v.push(s[i]);
        i = i + 1;
        assert(v@ =~= s@.subrange(from as int, i as int));
    }
    v
}

/// Appends all of `src` to `out`.
pub fn append_all(out: &mut Vec<u8>, src: &[u8])
    ensures
        final(out)@ == old(out)@ + src@,
{
    let mut i: usize = 0;
    while i < src.len()
        invariant
            i <= src@.len(),
            out@ == old(out)@ + src@.subrange(0, i as int),
        decreases src@.len() - i,
    {
        out.push(src[i]);
        i = i + 1;
        assert(out@ =~= old(out)@ + src@.subrange(0, i as int));
    }
    assert(src@.subrange(0, src@.len() as int) =~= src@);
}

} // verus!

verus! {

/// The `N` bytes of `s` from `off`, as an array.
pub fn read_array<const N: usize>(s: &[u8], off: usize) -> (a: [u8; N])
    requires
        off + N <= s@.len(),
    ensures
        a@ == s@.subrange(off as int, off + N),
{
    let mut a = [0u8; N];
    let mut t: usize = 0;
    while t < N
        invariant
            off + N <= s@.len(),
            s@.len() == s.len(),
            t <= N,
            a@.len() == N,
            forall|u: int| 0 <= u < t ==> #[trigger] a@[u] == s@[off + u],
        decreases N - t,
    {
        a[t] = s[off + t];
        t = t + 1;
    }
    assert(a@ =~= s@.subrange(off as int, off + N));
    a
}

} // verus!
