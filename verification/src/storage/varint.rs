//! Variable-length integers: base-128 digits, the lowest first, with the high bit of a byte
//! set where another byte follows.

use vstd::prelude::*;

verus! {

/// How many values `n` base-128 digits can tell apart.
pub open spec fn pow128(n: nat) -> nat
    decreases n,
{
    if n == 0 {
        1
    } else {
        128 * pow128((n - 1) as nat)
    }
}

/// The number whose base-128 digits are the low seven bits of each byte, the lowest first.
pub open spec fn base128_value(s: Seq<u8>) -> nat
    decreases s.len(),
{
    if s.len() == 0 {
        0
    } else {
        (s[0] % 128) as nat + 128 * base128_value(s.skip(1))
    }
}

/// How many bytes a varint at the start of `s` takes, if it ends within `limit` bytes.
pub open spec fn varint_end(s: Seq<u8>, limit: nat) -> Option<nat>
    decreases limit,
{
    if limit == 0 || s.len() == 0 {
        None
    } else if s[0] < 128 {
        Some(1)
    } else {
        match varint_end(s.skip(1), (limit - 1) as nat) {
            Some(n) => Some(n + 1),
            None => None,
        }
    }
}

/// `v` in exactly `n` base-128 digits: more bytes than it needs, where `n` is large.
pub open spec fn overlong(v: nat, n: nat) -> Seq<u8>
    decreases n,
{
    if n == 0 {
        Seq::empty()
    } else if n == 1 {
        seq![(v % 128) as u8]
    } else {
        seq![(v % 128 + 128) as u8] + overlong(v / 128, (n - 1) as nat)
    }
}

/// `v` in as few base-128 digits as it needs.
pub open spec fn varint_bytes(v: nat) -> Seq<u8>
    decreases v,
{
    if v < 128 {
        seq![v as u8]
    } else {
        seq![(v % 128 + 128) as u8] + varint_bytes(v / 128)
    }
}

/// What decoding a varint at the start of `s` gives: the value, whose bits beyond the 64th are
/// dropped, and the number of bytes read.
pub open spec fn varint_decoded(s: Seq<u8>) -> Option<(u64, nat)> {
    match varint_end(s, 10) {
        Some(n) => Some(
            ((base128_value(s.take(n as int)) % 0x1_0000_0000_0000_0000) as u64, n),
        ),
        None => None,
    }
}

/// The weights that the decoders reach.
pub proof fn lemma_pow128_values()
    ensures
        pow128(5) == 0x8_0000_0000,
        pow128(9) == 0x8000_0000_0000_0000,
        pow128(10) == 128 * 0x8000_0000_0000_0000,
{
    reveal_with_fuel(pow128, 11);
}

/// One more digit adds that digit times its weight.
proof fn lemma_base128_push(s: Seq<u8>, b: u8)
    ensures
        base128_value(s.push(b)) == base128_value(s) + (b % 128) * pow128(s.len()),
    decreases s.len(),
{
    if s.len() == 0 {
        assert(s.push(b).skip(1) =~= Seq::empty());
        assert(base128_value(Seq::<u8>::empty()) == 0);
        assert(pow128(0) == 1);
        assert((b % 128) * pow128(s.len()) == b % 128) by (nonlinear_arith)
            requires
                pow128(s.len()) == 1,
        ;
    } else {
        assert(s.push(b).skip(1) =~= s.skip(1).push(b));
        lemma_base128_push(s.skip(1), b);
        let p = pow128((s.len() - 1) as nat);
        let d = (b % 128) as nat;
        assert(128 * (d * p) == d * (128 * p)) by (nonlinear_arith);
        assert(pow128(s.len()) == 128 * p);
    }
}

/// `n` digits make less than `pow128(n)`.
pub proof fn lemma_base128_bound(s: Seq<u8>)
    ensures
        base128_value(s) < pow128(s.len()),
    decreases s.len(),
{
    if s.len() > 0 {
        lemma_base128_bound(s.skip(1));
    }
}

/// An overlong varint has `n` bytes, holds its value, and ends where it should whatever follows.
pub proof fn lemma_overlong(v: nat, n: nat, rest: Seq<u8>, limit: nat)
    requires
        1 <= n <= limit,
        v < pow128(n),
    ensures
        overlong(v, n).len() == n,
        base128_value(overlong(v, n)) == v,
        varint_end(overlong(v, n) + rest, limit) == Some(n),
    decreases n,
{
    let s = overlong(v, n);
    if n == 1 {
        assert(pow128(1) == 128 * pow128(0));
        assert(s.skip(1) =~= Seq::empty());
        assert(base128_value(Seq::<u8>::empty()) == 0);
    } else {
        lemma_overlong(v / 128, (n - 1) as nat, rest, (limit - 1) as nat);
        assert(s.skip(1) =~= overlong(v / 128, (n - 1) as nat));
        assert((s + rest).skip(1) =~= overlong(v / 128, (n - 1) as nat) + rest);
    }
}

/// A minimal varint of a number with at most `n` digits has at most `n` bytes, holds its value,
/// and ends where it should whatever follows.
pub proof fn lemma_varint_bytes(v: nat, n: nat, rest: Seq<u8>)
    requires
        1 <= n,
        v < pow128(n),
    ensures
        1 <= varint_bytes(v).len() <= n,
        base128_value(varint_bytes(v)) == v,
        varint_end(varint_bytes(v) + rest, n) == Some(varint_bytes(v).len()),
    decreases n,
{
    let s = varint_bytes(v);
    if v < 128 {
        assert(s.skip(1) =~= Seq::empty());
        assert(base128_value(Seq::<u8>::empty()) == 0);
    } else {
        if n == 1 {
            assert(pow128(1) == 128 * pow128(0));
        }
        lemma_varint_bytes(v / 128, (n - 1) as nat, rest);
        assert(s.skip(1) =~= varint_bytes(v / 128));
        assert((s + rest).skip(1) =~= varint_bytes(v / 128) + rest);
    }
}

/// A varint that ends within the bytes that are there ends there whatever follows them.
pub proof fn lemma_varint_end_bound(s: Seq<u8>, limit: nat)
    ensures
        varint_end(s, limit) matches Some(n) ==> 1 <= n <= s.len() && n <= limit,
    decreases limit,
{
    if limit > 0 && s.len() > 0 && s[0] >= 128 {
        lemma_varint_end_bound(s.skip(1), (limit - 1) as nat);
    }
}

/// Encodes a u32 as a 5-byte overlong varint.
/// 5 bytes of 7 bits are enough for any u32; the last byte only contributes 4 bits.
pub fn encode_overlong_u32(v: u32) -> (r: [u8; 5])
    ensures
        r@ == overlong(v as nat, 5),
{
    let d0: u8 = (v % 128) as u8;
    let d1: u8 = (v / 0x80 % 128) as u8;
    let d2: u8 = (v / 0x4000 % 128) as u8;
    let d3: u8 = (v / 0x20_0000 % 128) as u8;
    let d4: u8 = (v / 0x1000_0000) as u8;
    let r: [u8; 5] = [d0 + 128, d1 + 128, d2 + 128, d3 + 128, d4];
    proof {
        reveal_with_fuel(overlong, 6);
        let n = v as nat;
        assert(n / 128 / 128 == n / 0x4000);
        assert(n / 0x4000 / 128 == n / 0x20_0000);
        assert(n / 0x20_0000 / 128 == n / 0x1000_0000);
        assert(r@ =~= overlong(n, 5));
    }
    r
}

/// Decodes a fixed 5-byte overlong varint.
pub fn decode_overlong_u32(buf: &[u8]) -> (r: Option<u32>)
    ensures
        buf@.len() < 5 ==> r is None,
        buf@.len() >= 5 ==> r == Some((base128_value(buf@.take(5)) % 0x1_0000_0000) as u32),
{
    if buf.len() < 5 {
        return None;
    }
    let mut v: u64 = 0;
    let mut weight: u64 = 1;
    let mut i: usize = 0;
    while i < 5
        invariant
            i <= 5 <= buf@.len(),
            v == base128_value(buf@.take(i as int)),
            weight == pow128(i as nat),
        decreases 5 - i,
    {
        let b: u8 = buf[i];
        proof {
            assert(buf@.take(i + 1) =~= buf@.take(i as int).push(b));
            lemma_base128_push(buf@.take(i as int), b);
            lemma_base128_bound(buf@.take(i + 1));
            reveal_with_fuel(pow128, 7);
            let d = (b % 128) as nat;
            assert(0 <= d * weight <= 127 * weight) by (nonlinear_arith)
                requires
                    d <= 127,
            ;
        }
        v = v + (b % 128) as u64 * weight;
        weight = weight * 128;
        i = i + 1;
    }
    Some((v % 0x1_0000_0000) as u32)
}

/// Encodes a u64 as a 10-byte overlong varint.
/// 10 bytes of 7 bits are enough for any u64; the last byte only contributes 1 bit.
pub fn encode_overlong_u64(v: u64) -> (r: [u8; 10])
    ensures
        r@ == overlong(v as nat, 10),
{
    let v1: u64 = v / 128;
    let v2: u64 = v1 / 128;
    let v3: u64 = v2 / 128;
    let v4: u64 = v3 / 128;
    let v5: u64 = v4 / 128;
    let v6: u64 = v5 / 128;
    let v7: u64 = v6 / 128;
    let v8: u64 = v7 / 128;
    let v9: u64 = v8 / 128;
    let r: [u8; 10] = [
        (v % 128 + 128) as u8,
        (v1 % 128 + 128) as u8,
        (v2 % 128 + 128) as u8,
        (v3 % 128 + 128) as u8,
        (v4 % 128 + 128) as u8,
        (v5 % 128 + 128) as u8,
        (v6 % 128 + 128) as u8,
        (v7 % 128 + 128) as u8,
        (v8 % 128 + 128) as u8,
        v9 as u8,
    ];
    proof {
        assert(overlong(v9 as nat, 1) =~= seq![r@[9]]);
        assert(overlong(v8 as nat, 2) =~= seq![r@[8], r@[9]]);
        assert(overlong(v7 as nat, 3) =~= seq![r@[7], r@[8], r@[9]]);
        assert(overlong(v6 as nat, 4) =~= seq![r@[6], r@[7], r@[8], r@[9]]);
        assert(overlong(v5 as nat, 5) =~= r@.skip(5));
        assert(overlong(v4 as nat, 6) =~= r@.skip(4));
        assert(overlong(v3 as nat, 7) =~= r@.skip(3));
        assert(overlong(v2 as nat, 8) =~= r@.skip(2));
        assert(overlong(v1 as nat, 9) =~= r@.skip(1));
        assert(overlong(v as nat, 10) =~= r@);
    }
    r
}

/// Decodes a fixed 10-byte overlong varint.
pub fn decode_overlong_u64(buf: &[u8]) -> (r: Option<u64>)
    ensures
        buf@.len() < 10 ==> r is None,
        buf@.len() >= 10 ==> r == Some(
            (base128_value(buf@.take(10)) % 0x1_0000_0000_0000_0000) as u64,
        ),
{
    if buf.len() < 10 {
        return None;
    }
    let mut v: u64 = 0;
    let mut weight: u64 = 1;
    let mut i: usize = 0;
    while i < 9
        invariant
            i <= 9,
            10 <= buf@.len(),
            v == base128_value(buf@.take(i as int)),
            weight == pow128(i as nat),
        decreases 9 - i,
    {
        let b: u8 = buf[i];
        proof {
            lemma_digit_step(buf@, i as int, weight);
        }
        v = v + (b % 128) as u64 * weight;
        weight = weight * 128;
        i = i + 1;
    }
    let b: u8 = buf[9];
    proof {
        lemma_last_digit(buf@);
    }
    Some(v + (b % 2) as u64 * 0x8000_0000_0000_0000)
}

/// Adding the next of the first nine digits keeps within 64 bits.
proof fn lemma_digit_step(s: Seq<u8>, i: int, weight: u64)
    requires
        0 <= i < 9,
        i < s.len(),
        weight == pow128(i as nat),
    ensures
        base128_value(s.take(i + 1)) == base128_value(s.take(i)) + (s[i] % 128) * weight,
        base128_value(s.take(i + 1)) < 0x8000_0000_0000_0000,
        0 <= (s[i] % 128) * weight < 0x8000_0000_0000_0000,
        weight * 128 <= 0x8000_0000_0000_0000,
        weight * 128 == pow128((i + 1) as nat),
{
    let b = s[i];
    assert(s.take(i + 1) =~= s.take(i).push(b));
    lemma_base128_push(s.take(i), b);
    lemma_base128_bound(s.take(i + 1));
    lemma_pow128_values();
    lemma_pow128_monotone((i + 1) as nat, 9);
    let d = (b % 128) as nat;
    assert(0 <= d * weight <= 127 * weight) by (nonlinear_arith)
        requires
            d <= 127,
    ;
}

proof fn lemma_pow128_monotone(a: nat, b: nat)
    requires
        a <= b,
    ensures
        0 < pow128(a) <= pow128(b),
    decreases b,
{
    if a < b {
        lemma_pow128_monotone(a, (b - 1) as nat);
    } else if a > 0 {
        lemma_pow128_monotone((a - 1) as nat, (a - 1) as nat);
    }
}

/// Of a tenth digit only the lowest bit fits in 64 bits.
proof fn lemma_last_digit(s: Seq<u8>)
    requires
        s.len() >= 10,
    ensures
        base128_value(s.take(9)) < 0x8000_0000_0000_0000,
        base128_value(s.take(10)) % 0x1_0000_0000_0000_0000 == base128_value(s.take(9)) + (s[9] % 2)
            * 0x8000_0000_0000_0000,
{
    assert(s.take(10) =~= s.take(9).push(s[9]));
    lemma_base128_push(s.take(9), s[9]);
    lemma_base128_bound(s.take(9));
    lemma_pow128_values();
    let d = (s[9] % 128) as int;
    let h = base128_value(s.take(9)) as int;
    assert(d == (d / 2) * 2 + d % 2);
    assert(d % 2 == s[9] % 2);
    assert(h + d * 0x8000_0000_0000_0000 == (h + (d % 2) * 0x8000_0000_0000_0000) + (d / 2)
        * 0x1_0000_0000_0000_0000);
}

/// Encodes a u64 as a standard minimal varint.
pub fn encode_varint(v: u64) -> (r: Vec<u8>)
    ensures
        r@ == varint_bytes(v as nat),
{
    let mut buf: Vec<u8> = Vec::with_capacity(10);
    let mut rest: u64 = v;
    assert(buf@ + varint_bytes(rest as nat) =~= varint_bytes(v as nat));
    while rest >= 0x80
        invariant
            buf@ + varint_bytes(rest as nat) == varint_bytes(v as nat),
        decreases rest,
    {
        let ghost before = buf@;
        let b: u8 = (rest % 128 + 128) as u8;
        buf.push(b);
        assert(before + (seq![b] + varint_bytes(rest as nat / 128)) =~= before.push(b)
            + varint_bytes(rest as nat / 128));
        rest = rest / 128;
    }
    let ghost before = buf@;
    buf.push(rest as u8);
    assert(buf@ =~= before + varint_bytes(rest as nat));
    buf
}

/// Decodes a standard varint from the start of `buf`.
pub fn decode_varint(buf: &[u8]) -> (r: Option<(u64, usize)>)
    ensures
        match r {
            Some((v, n)) => varint_decoded(buf@) == Some((v, n as nat)),
            None => varint_decoded(buf@) is None,
        },
{
    let mut value: u64 = 0;
    let mut weight: u64 = 1;
    let mut i: usize = 0;
    assert(buf@.skip(0) =~= buf@);
    while i < buf.len() && i < 9
        invariant
            i <= 9,
            i <= buf@.len(),
            value == base128_value(buf@.take(i as int)),
            value < 0x8000_0000_0000_0000,
            weight == pow128(i as nat),
            varint_end(buf@, 10) == (match varint_end(buf@.skip(i as int), (10 - i) as nat) {
                Some(n) => Some(n + i as nat),
                None => None,
            }),
        decreases 9 - i,
    {
        let b: u8 = buf[i];
        proof {
            lemma_digit_step(buf@, i as int, weight);
            assert(buf@.skip(i as int).skip(1) =~= buf@.skip(i + 1));
        }
        value = value + (b % 128) as u64 * weight;
        if b < 128 {
            return Some((value, i + 1));
        }
        weight = weight * 128;
        i = i + 1;
    }
    if i < buf.len() {
        let b: u8 = buf[i];
        assert(buf@.skip(9).skip(1) =~= buf@.skip(10));
        assert(varint_end(buf@.skip(10), 0) is None);
        if b < 128 {
            proof {
                lemma_last_digit(buf@);
            }
            return Some((value + (b % 2) as u64 * 0x8000_0000_0000_0000, 10));
        }
    }
    None
}

/// Encoding a u32 overlong and decoding it gives the number back.
pub proof fn law_overlong_u32_roundtrip(v: u32)
    ensures
        overlong(v as nat, 5).len() == 5,
        base128_value(overlong(v as nat, 5)) % 0x1_0000_0000 == v,
{
    lemma_pow128_values();
    lemma_overlong(v as nat, 5, Seq::empty(), 5);
}

/// Encoding a u64 overlong and decoding it gives the number back.
pub proof fn law_overlong_u64_roundtrip(v: u64)
    ensures
        overlong(v as nat, 10).len() == 10,
        base128_value(overlong(v as nat, 10)) % 0x1_0000_0000_0000_0000 == v,
{
    lemma_pow128_values();
    lemma_overlong(v as nat, 10, Seq::empty(), 10);
}

/// A standard decoder reads an overlong varint, taking all of its bytes, whatever follows.
pub proof fn law_overlong_is_a_varint(v: u64, n: nat, rest: Seq<u8>)
    requires
        1 <= n <= 10,
        v < pow128(n),
    ensures
        varint_decoded(overlong(v as nat, n) + rest) == Some((v, n)),
{
    let s = overlong(v as nat, n);
    lemma_overlong(v as nat, n, rest, 10);
    assert((s + rest).take(n as int) =~= s);
}

/// Encoding a minimal varint and decoding it gives the number back and takes all of its bytes,
/// whatever follows.
pub proof fn law_varint_roundtrip(v: u64, rest: Seq<u8>)
    ensures
        varint_decoded(varint_bytes(v as nat) + rest) == Some((v, varint_bytes(v as nat).len())),
        1 <= varint_bytes(v as nat).len() <= 10,
{
    lemma_pow128_values();
    let s = varint_bytes(v as nat);
    lemma_varint_bytes(v as nat, 10, rest);
    assert((s + rest).take(s.len() as int) =~= s);
}

} // verus!
