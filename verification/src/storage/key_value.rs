//! The key-value message, decoded field by field with the protobuf decoders of `prost`.

use crate::bytes::copy_bytes;
use crate::storage::varint::{
    base128_value, lemma_overlong, lemma_pow128_values, lemma_varint_bytes, lemma_varint_end_bound,
    overlong, pow128, varint_bytes, varint_end,
};
use crate::storage::wal::{int_field, key_field, kv_message, mod_revision_field, value_field};
use vstd::prelude::*;

verus! {

/// A protobuf varint at the start of `s`: its value, which must fit in 64 bits, and what
/// follows it.
pub open spec fn wire_varint(s: Seq<u8>) -> Option<(u64, Seq<u8>)> {
    match varint_end(s, 10) {
        None => None,
        Some(n) => {
            let v = base128_value(s.take(n as int));
            if v < 0x1_0000_0000_0000_0000 {
                Some((v as u64, s.skip(n as int)))
            } else {
                None
            }
        },
    }
}

/// A field key at the start of `s`: the number of the field, its wire type, and what follows.
pub open spec fn field_key(s: Seq<u8>) -> Option<(u32, u8, Seq<u8>)> {
    match wire_varint(s) {
        None => None,
        Some((k, rest)) => if k < 0x1_0000_0000 && k % 8 <= 5 && k / 8 >= 1 {
            Some(((k / 8) as u32, (k % 8) as u8, rest))
        } else {
            None
        },
    }
}

/// Bytes behind their length at the start of `s`, and what follows them.
pub open spec fn length_delimited(s: Seq<u8>) -> Option<(Seq<u8>, Seq<u8>)> {
    match wire_varint(s) {
        None => None,
        Some((len, rest)) => if len <= rest.len() {
            Some((rest.take(len as int), rest.skip(len as int)))
        } else {
            None
        },
    }
}

/// How deep groups may be nested in each other.
pub const GROUP_DEPTH: u32 = 100;

/// What follows a field that is of no interest, where groups may still be nested this deep.
pub open spec fn skipped(wire: u8, tag: u32, s: Seq<u8>, depth: nat) -> Option<Seq<u8>>
    decreases s.len(), 1int,
{
    if depth == 0 {
        None
    } else if wire == 0 {
        match wire_varint(s) {
            Some((_, rest)) => Some(rest),
            None => None,
        }
    } else if wire == 1 {
        if s.len() >= 8 {
            Some(s.skip(8))
        } else {
            None
        }
    } else if wire == 2 {
        match length_delimited(s) {
            Some((_, rest)) => Some(rest),
            None => None,
        }
    } else if wire == 3 {
        skipped_group(tag, s, depth)
    } else if wire == 5 {
        if s.len() >= 4 {
            Some(s.skip(4))
        } else {
            None
        }
    } else {
        None
    }
}

/// What follows the fields of a group and its end, which bears the number of the group.
pub open spec fn skipped_group(tag: u32, s: Seq<u8>, depth: nat) -> Option<Seq<u8>>
    decreases s.len(), 0int,
{
    match field_key(s) {
        Some((inner, wire, t)) if t.len() < s.len() => if wire == 4 {
            if inner == tag {
                Some(t)
            } else {
                None
            }
        } else {
            match skipped(wire, inner, t, (depth - 1) as nat) {
                Some(rest) if rest.len() < s.len() => skipped_group(tag, rest, depth),
                _ => None,
            }
        },
        _ => None,
    }
}

/// What follows a field that is of no interest.
pub open spec fn skipped_field(wire: u8, tag: u32, s: Seq<u8>) -> Option<Seq<u8>> {
    skipped(wire, tag, s, GROUP_DEPTH as nat)
}

/// What follows a field is no longer than what was there.
proof fn lemma_skipped_shrinks(wire: u8, tag: u32, s: Seq<u8>, depth: nat)
    ensures
        skipped(wire, tag, s, depth) matches Some(rest) ==> rest.len() <= s.len(),
    decreases s.len(), 1int,
{
    lemma_field_key_shrinks(s);
    if wire == 3 {
        lemma_group_shrinks(tag, s, depth);
    }
}

proof fn lemma_group_shrinks(tag: u32, s: Seq<u8>, depth: nat)
    ensures
        skipped_group(tag, s, depth) matches Some(rest) ==> rest.len() <= s.len(),
    decreases s.len(), 0int,
{
    if let Some((inner, wire, t)) = field_key(s) {
        if t.len() < s.len() && wire != 4 {
            if let Some(rest) = skipped(wire, inner, t, (depth - 1) as nat) {
                if rest.len() < s.len() {
                    lemma_group_shrinks(tag, rest, depth);
                }
            }
        }
    }
}

/// Calls `prost::encoding::decode_key`: reads a field key, which is a varint that fits in 32
/// bits, with the wire type (at most five) in its low three bits and the number of the field
/// (at least one) in the others.
#[verifier::external_body]
fn read_field_key(buf: &[u8]) -> (r: Option<(u32, u8, &[u8])>)
    ensures
        match r {
            Some((tag, wire, rest)) => field_key(buf@) == Some((tag, wire, rest@)),
            None => field_key(buf@) is None,
        },
{
    let mut rest = buf;
    match prost::encoding::decode_key(&mut rest) {
        Ok((tag, wire)) => Some((tag, wire as u8, rest)),
        Err(_) => None,
    }
}

/// Calls `prost::encoding::int64::merge`: of a field whose wire type is that of a varint, reads
/// the varint, whose 64 bits are those of the number; refuses other wire types.
#[verifier::external_body]
fn read_int64(wire: u8, buf: &[u8]) -> (r: Option<(i64, &[u8])>)
    requires
        wire <= 5,
    ensures
        match r {
            Some((v, rest)) => wire == 0 && (wire_varint(buf@) matches Some((u, t)) && v == u as i64
                && t == rest@),
            None => wire != 0 || wire_varint(buf@) is None,
        },
{
    let mut rest = buf;
    let mut value: i64 = 0;
    let wire = prost::encoding::WireType::try_from(u64::from(wire)).ok()?;
    let ctx = prost::encoding::DecodeContext::default();
    match prost::encoding::int64::merge(wire, &mut value, &mut rest, ctx) {
        Ok(()) => Some((value, rest)),
        Err(_) => None,
    }
}

/// Calls `prost::encoding::bytes::merge`: of a field whose wire type is length-delimited, reads
/// a length and that many bytes; refuses other wire types.
#[verifier::external_body]
fn read_bytes(wire: u8, buf: &[u8]) -> (r: Option<(Vec<u8>, &[u8])>)
    requires
        wire <= 5,
    ensures
        match r {
            Some((v, rest)) => wire == 2 && length_delimited(buf@) == Some((v@, rest@)),
            None => wire != 2 || length_delimited(buf@) is None,
        },
{
    let mut rest = buf;
    let mut value: Vec<u8> = Vec::new();
    let wire = prost::encoding::WireType::try_from(u64::from(wire)).ok()?;
    let ctx = prost::encoding::DecodeContext::default();
    match prost::encoding::bytes::merge(wire, &mut value, &mut rest, ctx) {
        Ok(()) => Some((value, rest)),
        Err(_) => None,
    }
}

/// Calls `prost::encoding::skip_field`: passes over a varint, over four or eight bytes, over bytes
/// behind their length, or over the fields of a group up to its end, as the wire type says;
/// refuses the end of a group that was not begun, and groups that are nested too deep.
#[verifier::external_body]
fn skip_field(wire: u8, tag: u32, buf: &[u8]) -> (r: Option<&[u8]>)
    requires
        wire <= 5,
    ensures
        match r {
            Some(rest) => skipped_field(wire, tag, buf@) == Some(rest@),
            None => skipped_field(wire, tag, buf@) is None,
        },
{
    let mut rest = buf;
    let wire = prost::encoding::WireType::try_from(u64::from(wire)).ok()?;
    let ctx = prost::encoding::DecodeContext::default();
    match prost::encoding::skip_field(wire, tag, &mut rest, ctx) {
        Ok(()) => Some(rest),
        Err(_) => None,
    }
}

/// What a key-value message says.
#[verifier::ext_equal]
pub struct KeyValueView {
    pub key: Seq<u8>,
    pub create_revision: i64,
    pub mod_revision: i64,
    pub version: i64,
    pub value: Seq<u8>,
    pub lease: i64,
}

/// A key with its value and what the store knows of it.
#[derive(Debug)]
pub struct KeyValue {
    pub key: Vec<u8>,
    pub create_revision: i64,
    pub mod_revision: i64,
    pub version: i64,
    pub value: Vec<u8>,
    pub lease: i64,
}

impl View for KeyValue {
    type V = KeyValueView;

    open spec fn view(&self) -> KeyValueView {
        KeyValueView {
            key: self.key@,
            create_revision: self.create_revision,
            mod_revision: self.mod_revision,
            version: self.version,
            value: self.value@,
            lease: self.lease,
        }
    }
}

impl Clone for KeyValue {
    fn clone(&self) -> (r: Self)
        ensures
            r@ == self@,
    {
        KeyValue {
            key: copy_bytes(&self.key),
            create_revision: self.create_revision,
            mod_revision: self.mod_revision,
            version: self.version,
            value: copy_bytes(&self.value),
            lease: self.lease,
        }
    }
}

/// The message without any field.
pub open spec fn empty_key_value() -> KeyValueView {
    KeyValueView {
        key: Seq::empty(),
        create_revision: 0,
        mod_revision: 0,
        version: 0,
        value: Seq::empty(),
        lease: 0,
    }
}

/// A message with one more field, whose contents begin `s`, and what follows the field.
pub open spec fn with_field(kv: KeyValueView, tag: u32, wire: u8, s: Seq<u8>) -> Option<
    (KeyValueView, Seq<u8>),
> {
    if tag == 1 || tag == 5 {
        match length_delimited(s) {
            Some((v, rest)) if wire == 2 => Some(
                (
                    if tag == 1 {
                        KeyValueView { key: v, ..kv }
                    } else {
                        KeyValueView { value: v, ..kv }
                    },
                    rest,
                ),
            ),
            _ => None,
        }
    } else if tag == 2 || tag == 3 || tag == 4 || tag == 6 {
        match wire_varint(s) {
            Some((u, rest)) if wire == 0 => Some(
                (
                    if tag == 2 {
                        KeyValueView { create_revision: u as i64, ..kv }
                    } else if tag == 3 {
                        KeyValueView { mod_revision: u as i64, ..kv }
                    } else if tag == 4 {
                        KeyValueView { version: u as i64, ..kv }
                    } else {
                        KeyValueView { lease: u as i64, ..kv }
                    },
                    rest,
                ),
            ),
            _ => None,
        }
    } else {
        match skipped_field(wire, tag, s) {
            Some(rest) => Some((kv, rest)),
            None => None,
        }
    }
}

/// A message with all the fields in `s`. The last field of a number counts.
pub open spec fn with_fields(kv: KeyValueView, s: Seq<u8>) -> Option<KeyValueView>
    decreases s.len(),
{
    if s.len() == 0 {
        Some(kv)
    } else {
        match field_key(s) {
            None => None,
            Some((tag, wire, t)) => match with_field(kv, tag, wire, t) {
                Some((kv2, rest)) if rest.len() < s.len() => with_fields(kv2, rest),
                _ => None,
            },
        }
    }
}

/// What decoding a message gives.
pub open spec fn decoded_kv(s: Seq<u8>) -> Option<KeyValueView> {
    with_fields(empty_key_value(), s)
}

proof fn lemma_field_key_shrinks(s: Seq<u8>)
    ensures
        field_key(s) matches Some((_, wire, rest)) ==> rest.len() < s.len() && wire <= 5,
        wire_varint(s) matches Some((_, rest)) ==> rest.len() < s.len(),
        length_delimited(s) matches Some((_, rest)) ==> rest.len() < s.len(),
{
    lemma_varint_end_bound(s, 10);
}

impl KeyValue {
    /// Decodes a message.
    pub fn decode(buf: &[u8]) -> (r: Option<KeyValue>)
        ensures
            match r {
                Some(kv) => decoded_kv(buf@) == Some(kv@),
                None => decoded_kv(buf@) is None,
            },
    {
        let mut kv = KeyValue {
            key: Vec::new(),
            create_revision: 0,
            mod_revision: 0,
            version: 0,
            value: Vec::new(),
            lease: 0,
        };
        assert(kv@ =~= empty_key_value());
        let mut rest = buf;
        while rest.len() > 0
            invariant
                with_fields(kv@, rest@) == decoded_kv(buf@),
            decreases rest@.len(),
        {
            let ghost at = rest@;
            let ghost before = kv@;
            proof {
                lemma_field_key_shrinks(at);
            }
            match read_field_key(rest) {
                None => {
                    return None;
                },
                Some((tag, wire, tail)) => {
                    proof {
                        lemma_field_key_shrinks(tail@);
                        lemma_skipped_shrinks(wire, tag, tail@, GROUP_DEPTH as nat);
                    }
                    if tag == 1 || tag == 5 {
                        match read_bytes(wire, tail) {
                            None => {
                                return None;
                            },
                            Some((v, t)) => {
                                if tag == 1 {
                                    kv.key = v;
                                } else {
                                    kv.value = v;
                                }
                                rest = t;
                            },
                        }
                    } else if tag == 2 || tag == 3 || tag == 4 || tag == 6 {
                        match read_int64(wire, tail) {
                            None => {
                                return None;
                            },
                            Some((v, t)) => {
                                if tag == 2 {
                                    kv.create_revision = v;
                                } else if tag == 3 {
                                    kv.mod_revision = v;
                                } else if tag == 4 {
                                    kv.version = v;
                                } else {
                                    kv.lease = v;
                                }
                                rest = t;
                            },
                        }
                    } else {
                        match skip_field(wire, tag, tail) {
                            None => {
                                return None;
                            },
                            Some(t) => {
                                rest = t;
                            },
                        }
                    }
                    assert(with_field(before, tag, wire, tail@) == Some((kv@, rest@)));
                },
            }
        }
        Some(kv)
    }
}

/// A one-byte field key.
proof fn lemma_field_key(b: u8, rest: Seq<u8>)
    requires
        8 <= b < 128,
        b % 8 <= 5,
    ensures
        field_key(seq![b] + rest) == Some(((b / 8) as u32, (b % 8) as u8, rest)),
{
    let s = seq![b] + rest;
    assert(s.take(1).skip(1) =~= Seq::empty());
    assert(base128_value(s.take(1).skip(1)) == 0);
    assert(s.skip(1) =~= rest);
    assert(varint_end(s, 10) == Some(1nat));
}

/// A minimal varint is read back.
proof fn lemma_wire_varint(v: u64, rest: Seq<u8>)
    ensures
        wire_varint(varint_bytes(v as nat) + rest) == Some((v, rest)),
{
    let d = varint_bytes(v as nat);
    lemma_pow128_values();
    lemma_varint_bytes(v as nat, 10, rest);
    assert((d + rest).take(d.len() as int) =~= d);
    assert((d + rest).skip(d.len() as int) =~= rest);
}

/// An overlong varint is read back.
proof fn lemma_wire_overlong(v: u64, n: nat, rest: Seq<u8>)
    requires
        1 <= n <= 10,
        v < pow128(n),
    ensures
        wire_varint(overlong(v as nat, n) + rest) == Some((v, rest)),
{
    let d = overlong(v as nat, n);
    lemma_overlong(v as nat, n, rest, 10);
    assert((d + rest).take(d.len() as int) =~= d);
    assert((d + rest).skip(d.len() as int) =~= rest);
}

proof fn lemma_int_field(kv: KeyValueView, tag: u8, v: i64, rest: Seq<u8>)
    requires
        tag == 0x10 || tag == 0x20 || tag == 0x30,
    ensures
        with_fields(kv, int_field(tag, v) + rest) == with_fields(
            if tag == 0x10 {
                KeyValueView { create_revision: v, ..kv }
            } else if tag == 0x20 {
                KeyValueView { version: v, ..kv }
            } else {
                KeyValueView { lease: v, ..kv }
            },
            rest,
        ),
{
    let s = int_field(tag, v) + rest;
    let t = varint_bytes(v as u64 as nat) + rest;
    assert(s =~= seq![tag] + t);
    lemma_field_key(tag, t);
    lemma_wire_varint(v as u64, rest);
    assert((v as u64) as i64 == v) by (bit_vector);
}

proof fn lemma_key_field(kv: KeyValueView, key: Seq<u8>, rest: Seq<u8>)
    requires
        key.len() < 0x1_0000_0000,
    ensures
        with_fields(kv, key_field(key) + rest) == with_fields(KeyValueView { key, ..kv }, rest),
{
    lemma_pow128_values();
    let t = overlong(key.len(), 5) + (key + rest);
    assert(key_field(key) + rest =~= seq![0x0au8] + t);
    lemma_field_key(0x0a, t);
    lemma_wire_overlong(key.len() as u64, 5, key + rest);
    assert((key + rest).take(key.len() as int) =~= key);
    assert((key + rest).skip(key.len() as int) =~= rest);
}

proof fn lemma_mod_revision_field(kv: KeyValueView, mod_revision: i64, rest: Seq<u8>)
    ensures
        with_fields(kv, mod_revision_field(mod_revision) + rest) == with_fields(
            KeyValueView { mod_revision, ..kv },
            rest,
        ),
{
    lemma_pow128_values();
    let t = overlong(mod_revision as u64 as nat, 10) + rest;
    assert(mod_revision_field(mod_revision) + rest =~= seq![0x18u8] + t);
    lemma_field_key(0x18, t);
    lemma_wire_overlong(mod_revision as u64, 10, rest);
    assert((mod_revision as u64) as i64 == mod_revision) by (bit_vector);
}

proof fn lemma_value_field(kv: KeyValueView, value: Seq<u8>, rest: Seq<u8>)
    requires
        value.len() < 0x1_0000_0000,
    ensures
        with_fields(kv, value_field(value) + rest) == with_fields(
            KeyValueView { value, ..kv },
            rest,
        ),
{
    lemma_pow128_values();
    let t = overlong(value.len(), 5) + (value + rest);
    assert(value_field(value) + rest =~= seq![0x2au8] + t);
    lemma_field_key(0x2a, t);
    lemma_wire_overlong(value.len() as u64, 5, value + rest);
    assert((value + rest).take(value.len() as int) =~= value);
    assert((value + rest).skip(value.len() as int) =~= rest);
}

/// Decoding an encoded key-value message gives back each of its fields.
pub proof fn law_key_value_roundtrip(
    key: Seq<u8>,
    value: Seq<u8>,
    create_revision: i64,
    mod_revision: i64,
    version: i64,
    lease: i64,
)
    requires
        key.len() < 0x1_0000_0000,
        value.len() < 0x1_0000_0000,
    ensures
        decoded_kv(kv_message(key, value, create_revision, mod_revision, version, lease)) == Some(
            (KeyValueView { key, create_revision, mod_revision, version, value, lease }),
        ),
{
    reveal(kv_message);
    let kv0 = empty_key_value();
    let kv1 = KeyValueView { key, ..kv0 };
    let kv2 = KeyValueView { create_revision, ..kv1 };
    let kv3 = KeyValueView { mod_revision, ..kv2 };
    let kv4 = KeyValueView { version, ..kv3 };
    let kv5 = KeyValueView { value, ..kv4 };
    let s6 = int_field(0x30, lease);
    let s5 = value_field(value) + s6;
    let s4 = int_field(0x20, version) + s5;
    let s3 = mod_revision_field(mod_revision) + s4;
    let s2 = int_field(0x10, create_revision) + s3;

    lemma_key_field(kv0, key, s2);
    lemma_int_field(kv1, 0x10, create_revision, s3);
    lemma_mod_revision_field(kv2, mod_revision, s4);
    lemma_int_field(kv3, 0x20, version, s5);
    lemma_value_field(kv4, value, s6);
    assert(s6 + Seq::<u8>::empty() =~= s6);
    lemma_int_field(kv5, 0x30, lease, Seq::empty());
    assert(with_fields(KeyValueView { lease, ..kv5 }, Seq::empty()) == Some(
        KeyValueView { lease, ..kv5 },
    ));
}

} // verus!
