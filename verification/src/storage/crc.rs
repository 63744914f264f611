//! CRC-32C (Castagnoli), computed bit by bit with the reflected polynomial.

use vstd::prelude::*;

verus! {

/// One bit of the division: shift right, and subtract the polynomial where a bit fell out.
pub open spec fn crc_step(c: u32) -> u32 {
    if c & 1 != 0 {
        (c >> 1) ^ 0x82F63B78
    } else {
        c >> 1
    }
}

/// `n` bits of the division.
pub open spec fn crc_steps(c: u32, n: nat) -> u32
    decreases n,
{
    if n == 0 {
        c
    } else {
        crc_step(crc_steps(c, (n - 1) as nat))
    }
}

/// Takes in one byte.
pub open spec fn crc_byte(c: u32, b: u8) -> u32 {
    crc_steps(c ^ (b as u32), 8)
}

/// Takes in a byte string.
pub open spec fn crc_fold(c: u32, s: Seq<u8>) -> u32
    decreases s.len(),
{
    if s.len() == 0 {
        c
    } else {
        crc_byte(crc_fold(c, s.drop_last()), s.last())
    }
}

/// The CRC-32C of a byte string.
pub open spec fn crc32c_of(s: Seq<u8>) -> u32 {
    crc_fold(0xFFFF_FFFF, s) ^ 0xFFFF_FFFF
}

/// The CRC-32C of `data`.
pub fn crc32c(data: &[u8]) -> (r: u32)
    ensures
        r == crc32c_of(data@),
{
    let mut crc: u32 = 0xFFFF_FFFF;
    let mut i: usize = 0;
    while i < data.len()
        invariant
            i <= data@.len(),
            crc == crc_fold(0xFFFF_FFFF, data@.take(i as int)),
        decreases data@.len() - i,
    {
        let ghost before = crc;
        crc = crc ^ (data[i] as u32);
        let ghost mixed = crc;
        let mut j: usize = 0;
        while j < 8
            invariant
                j <= 8,
                crc == crc_steps(mixed, j as nat),
            decreases 8 - j,
        {
            if crc & 1 != 0 {
                crc = (crc >> 1) ^ 0x82F63B78;
            } else {
                crc = crc >> 1;
            }
            j = j + 1;
        }
        proof {
            let t = data@.take(i + 1);
            assert(t.drop_last() =~= data@.take(i as int));
            assert(t.last() == data@[i as int]);
        }
        i = i + 1;
    }
    assert(data@.take(data@.len() as int) =~= data@);
    crc ^ 0xFFFF_FFFF
}

proof fn lemma_steps_injective(a: u32, b: u32, n: nat)
    requires
        a != b,
    ensures
        crc_steps(a, n) != crc_steps(b, n),
    decreases n,
{
    if n > 0 {
        lemma_steps_injective(a, b, (n - 1) as nat);
        let x = crc_steps(a, (n - 1) as nat);
        let y = crc_steps(b, (n - 1) as nat);
        assert(x != y ==> (if x & 1 != 0 {
            (x >> 1) ^ 0x82F63B78
        } else {
            x >> 1
        }) != (if y & 1 != 0 {
            (y >> 1) ^ 0x82F63B78
        } else {
            y >> 1
        })) by (bit_vector);
    }
}

proof fn lemma_byte_injective(a: u32, b: u32, x: u8, y: u8)
    requires
        (a != b && x == y) || (a == b && x != y),
    ensures
        crc_byte(a, x) != crc_byte(b, y),
{
    let u = x as u32;
    let v = y as u32;
    assert(((a != b && u == v) || (a == b && u != v)) ==> a ^ u != b ^ v) by (bit_vector);
    lemma_steps_injective(a ^ u, b ^ v, 8);
}

proof fn lemma_fold_update(c: u32, s: Seq<u8>, i: int, x: u8)
    requires
        0 <= i < s.len(),
        s[i] != x,
    ensures
        crc_fold(c, s.update(i, x)) != crc_fold(c, s),
    decreases s.len(),
{
    let t = s.update(i, x);
    let n = s.len() - 1;
    if i == n {
        assert(t.drop_last() =~= s.drop_last());
        lemma_byte_injective(
            crc_fold(c, s.drop_last()),
            crc_fold(c, s.drop_last()),
            t.last(),
            s.last(),
        );
    } else {
        assert(t.drop_last() =~= s.drop_last().update(i, x));
        lemma_fold_update(c, s.drop_last(), i, x);
        lemma_byte_injective(
            crc_fold(c, t.drop_last()),
            crc_fold(c, s.drop_last()),
            s.last(),
            s.last(),
        );
    }
}

/// Changing one byte of a byte string changes its checksum.
pub proof fn law_crc_sees_a_changed_byte(s: Seq<u8>, i: int, x: u8)
    requires
        0 <= i < s.len(),
        s[i] != x,
    ensures
        crc32c_of(s.update(i, x)) != crc32c_of(s),
{
    lemma_fold_update(0xFFFF_FFFF, s, i, x);
    let a = crc_fold(0xFFFF_FFFF, s.update(i, x));
    let b = crc_fold(0xFFFF_FFFF, s);
    assert(a != b ==> a ^ 0xFFFF_FFFF != b ^ 0xFFFF_FFFF) by (bit_vector);
}

} // verus!
