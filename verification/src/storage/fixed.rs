//! Unsigned integers as a fixed number of little-endian bytes.

use vstd::prelude::*;

verus! {

/// How many values fit in `n` bytes.
pub open spec fn pow256(n: nat) -> nat
    decreases n,
{
    if n == 0 {
        1
    } else {
        256 * pow256((n - 1) as nat)
    }
}

/// The `n` low-order bytes of `v`, the lowest first.
pub open spec fn le_bytes(v: nat, n: nat) -> Seq<u8>
    decreases n,
{
    if n == 0 {
        Seq::empty()
    } else {
        seq![(v % 256) as u8] + le_bytes(v / 256, (n - 1) as nat)
    }
}

/// The number whose bytes are `s`, the lowest first.
pub open spec fn le_value(s: Seq<u8>) -> nat
    decreases s.len(),
{
    if s.len() == 0 {
        0
    } else {
        s[0] as nat + 256 * le_value(s.skip(1))
    }
}

/// The sizes that the records use.
pub proof fn lemma_pow256_values()
    ensures
        pow256(1) == 0x100,
        pow256(2) == 0x1_0000,
        pow256(4) == 0x1_0000_0000,
        pow256(8) == 0x1_0000_0000_0000_0000,
{
    reveal_with_fuel(pow256, 9);
}

/// Writing a number and reading it back gives the number, if it fits.
pub proof fn lemma_le_roundtrip(v: nat, n: nat)
    requires
        v < pow256(n),
    ensures
        le_bytes(v, n).len() == n,
        le_value(le_bytes(v, n)) == v,
    decreases n,
{
    if n > 0 {
        lemma_le_roundtrip(v / 256, (n - 1) as nat);
        let s = le_bytes(v, n);
        assert(s.skip(1) =~= le_bytes(v / 256, (n - 1) as nat));
    }
}

/// A written number takes as many bytes as asked for.
pub proof fn lemma_le_bytes_len(v: nat, n: nat)
    ensures
        le_bytes(v, n).len() == n,
    decreases n,
{
    if n > 0 {
        lemma_le_bytes_len(v / 256, (n - 1) as nat);
    }
}

/// A number read from `n` bytes fits in `n` bytes, and writing it gives the bytes back.
pub proof fn lemma_le_value_bound(s: Seq<u8>)
    ensures
        le_value(s) < pow256(s.len()),
        le_bytes(le_value(s), s.len()) == s,
    decreases s.len(),
{
    if s.len() > 0 {
        lemma_le_value_bound(s.skip(1));
        assert(s =~= seq![s[0]] + s.skip(1));
    } else {
        assert(s =~= Seq::empty());
    }
}

/// One more high-order byte adds that byte times its weight.
proof fn lemma_le_value_push(s: Seq<u8>, b: u8)
    ensures
        le_value(s.push(b)) == le_value(s) + b * pow256(s.len()),
    decreases s.len(),
{
    if s.len() == 0 {
        assert(s.push(b).skip(1) =~= Seq::empty());
        assert(le_value(Seq::<u8>::empty()) == 0);
        assert(pow256(0) == 1);
        assert(b * pow256(s.len()) == b) by (nonlinear_arith)
            requires
                pow256(s.len()) == 1,
        ;
    } else {
        assert(s.push(b).skip(1) =~= s.skip(1).push(b));
        lemma_le_value_push(s.skip(1), b);
        let p = pow256((s.len() - 1) as nat);
        assert(256 * (b * p) == b * (256 * p)) by (nonlinear_arith);
        assert(pow256(s.len()) == 256 * p);
    }
}

/// Appends the `n` low-order bytes of `v`, the lowest first.
pub fn push_le(buf: &mut Vec<u8>, v: u64, n: usize)
    ensures
        final(buf)@ == old(buf)@ + le_bytes(v as nat, n as nat),
{
    let mut rest: u64 = v;
    let mut i: usize = 0;
    let ghost start = buf@;
    assert(start + le_bytes(v as nat, n as nat) =~= buf@ + le_bytes(v as nat, n as nat));
    while i < n
        invariant
            i <= n,
            start + le_bytes(v as nat, n as nat) == buf@ + le_bytes(rest as nat, (n - i) as nat),
        decreases n - i,
    {
        let ghost before = buf@;
        buf.push((rest % 256) as u8);
        proof {
            let tail = le_bytes(rest as nat / 256, (n - i - 1) as nat);
            assert(before + (seq![(rest % 256) as u8] + tail) =~= before.push((rest % 256) as u8)
                + tail);
        }
        rest = rest / 256;
        i = i + 1;
    }
    assert(buf@ + le_bytes(rest as nat, 0) =~= buf@);
}

/// The number in the `n` bytes at `at`.
pub fn read_le(s: &[u8], at: usize, n: usize) -> (v: u64)
    requires
        n <= 8,
        at + n <= s@.len(),
    ensures
        v == le_value(s@.subrange(at as int, at + n)),
        v < pow256(n as nat),
{
    let ghost whole = s@.subrange(at as int, at + n);
    let len: usize = s.len();
    let mut v: u64 = 0;
    let mut weight: u64 = 1;
    let mut i: usize = 0;
    while i < n
        invariant
            i <= n <= 8,
            at + n <= len == s@.len(),
            whole == s@.subrange(at as int, at + n),
            v == le_value(whole.take(i as int)),
            v < pow256(i as nat),
            i < n ==> weight == pow256(i as nat),
        decreases n - i,
    {
        let b: u8 = s[at + i];
        proof {
            assert(whole[i as int] == b);
            assert(whole.take(i + 1) =~= whole.take(i as int).push(b));
            lemma_le_value_push(whole.take(i as int), b);
            lemma_le_value_bound(whole.take(i + 1));
            reveal_with_fuel(pow256, 9);
            assert(b * weight <= 255 * weight) by (nonlinear_arith)
                requires
                    b <= 255,
            ;
            assert(0 <= b * weight) by (nonlinear_arith);
        }
        v = v + b as u64 * weight;
        i = i + 1;
        if i < n {
            weight = weight * 256;
        }
    }
    proof {
        assert(whole.take(n as int) =~= whole);
    }
    v
}

} // verus!
