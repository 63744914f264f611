//! The write-ahead log: how a key-value change is laid out in bytes and read back.

use crate::bytes::{copy_bytes, push_bytes};
use crate::storage::crc::crc32c_of;
use crate::storage::fixed::{le_bytes, le_value, lemma_pow256_values, push_le, read_le};
use crate::storage::varint::{
    base128_value, lemma_varint_end_bound, overlong, varint_bytes, varint_decoded,
};
use vstd::prelude::*;
use vstd::slice::slice_subrange;

pub use crate::storage::crc::crc32c;
pub use crate::storage::legacy::{WalRecord, MAGIC};
pub use crate::storage::varint::{
    decode_overlong_u32, decode_overlong_u64, decode_varint, encode_overlong_u32,
    encode_overlong_u64, encode_varint,
};

verus! {

/// Flag of a record that deletes its key.
pub const DELETED: u8 = 0x01;

/// Flag of a record that creates its key.
pub const IS_CREATE: u8 = 0x02;

/// Flag of a record whose key is attached to a lease.
pub const HAS_LEASE: u8 = 0x04;

/// flags(1) + key_offset(2) + mod_rev_offset(2) + rec_len(4)
pub const KV_HEADER_SIZE: usize = 9;

pub const KV_CRC_SIZE: usize = 4;

/// What kind of trouble a record that cannot be read is in.
#[derive(Debug, Clone, Copy, PartialEq, Eq, Structural)]
pub enum ErrorKind {
    UnexpectedEof,
    InvalidData,
}

/// Why a record cannot be read.
#[derive(Debug, Clone, Copy, PartialEq, Eq, Structural)]
pub enum WalError {
    /// Fewer bytes than a header and a checksum take.
    RecordTooShort,
    /// The record claims to be shorter than a header and a checksum.
    RecLenTooSmall,
    /// The record claims to go on past the bytes that are there.
    RecordPastBuffer,
    /// The checksum does not belong to the bytes.
    CrcMismatch,
    /// The key or the revision would lie outside the record.
    OffsetOutOfBounds,
    /// Fewer bytes than the header of the older format takes.
    ShortRecord,
    /// The record does not begin as records of the older format do.
    BadMagic,
    /// The key and value go on past the bytes that are there.
    TruncatedPayload,
    /// The lease goes on past the bytes that are there.
    TruncatedLease,
}

impl WalError {
    /// The kind of trouble.
    pub fn kind(&self) -> (r: ErrorKind)
        ensures
            r == ErrorKind::InvalidData <==> (*self == WalError::RecLenTooSmall || *self
                == WalError::CrcMismatch || *self == WalError::OffsetOutOfBounds || *self
                == WalError::BadMagic),
    {
        match self {
            WalError::RecLenTooSmall
            | WalError::CrcMismatch
            | WalError::OffsetOutOfBounds
            | WalError::BadMagic => ErrorKind::InvalidData,
            _ => ErrorKind::UnexpectedEof,
        }
    }

    /// The text that describes the error.
    pub open spec fn text(&self) -> Seq<char> {
        match self {
            WalError::RecordTooShort => "record too short"@,
            WalError::RecLenTooSmall => "rec_len too small"@,
            WalError::RecordPastBuffer => "record extends past buffer"@,
            WalError::CrcMismatch => "CRC mismatch"@,
            WalError::OffsetOutOfBounds => "offset out of bounds"@,
            WalError::ShortRecord => "short record"@,
            WalError::BadMagic => "bad magic"@,
            WalError::TruncatedPayload => "truncated payload"@,
            WalError::TruncatedLease => "truncated lease"@,
        }
    }

    /// A description for people.
    pub fn message(&self) -> (r: &'static str)
        ensures
            r@ == self.text(),
    {
        match self {
            WalError::RecordTooShort => "record too short",
            WalError::RecLenTooSmall => "rec_len too small",
            WalError::RecordPastBuffer => "record extends past buffer",
            WalError::CrcMismatch => "CRC mismatch",
            WalError::OffsetOutOfBounds => "offset out of bounds",
            WalError::ShortRecord => "short record",
            WalError::BadMagic => "bad magic",
            WalError::TruncatedPayload => "truncated payload",
            WalError::TruncatedLease => "truncated lease",
        }
    }
}

/// Each error says what is wrong with the record.
pub proof fn law_errors_say_what_is_wrong(e: WalError)
    ensures
        e is RecordTooShort ==> e.text() == "record too short"@,
        e is RecLenTooSmall ==> e.text() == "rec_len too small"@,
        e is RecordPastBuffer ==> e.text() == "record extends past buffer"@,
        e is CrcMismatch ==> e.text() == "CRC mismatch"@,
        e is OffsetOutOfBounds ==> e.text() == "offset out of bounds"@,
        e is ShortRecord ==> e.text() == "short record"@,
        e is BadMagic ==> e.text() == "bad magic"@,
        e is TruncatedPayload ==> e.text() == "truncated payload"@,
        e is TruncatedLease ==> e.text() == "truncated lease"@,
{
}

// ── The key-value message ─────────────────────────────────────────

/// A field that holds an integer: its tag, then the number as a minimal varint.
pub open spec fn int_field(tag: u8, v: i64) -> Seq<u8> {
    seq![tag] + varint_bytes(v as u64 as nat)
}

/// The key field: its tag, the length as a five-byte varint, the key.
pub open spec fn key_field(key: Seq<u8>) -> Seq<u8> {
    seq![0x0au8] + overlong(key.len() % 0x1_0000_0000, 5) + key
}

/// The revision field: its tag, then the revision as a ten-byte varint.
pub open spec fn mod_revision_field(mod_revision: i64) -> Seq<u8> {
    seq![0x18u8] + overlong(mod_revision as u64 as nat, 10)
}

/// The value field: its tag, the length as a five-byte varint, the value.
pub open spec fn value_field(value: Seq<u8>) -> Seq<u8> {
    seq![0x2au8] + overlong(value.len() % 0x1_0000_0000, 5) + value
}

/// The whole message: key, creation revision, revision, version, value and lease, in the
/// order of their field numbers.
#[verifier::opaque]
pub open spec fn kv_message(
    key: Seq<u8>,
    value: Seq<u8>,
    create_revision: i64,
    mod_revision: i64,
    version: i64,
    lease: i64,
) -> Seq<u8> {
    key_field(key) + (int_field(0x10, create_revision) + (mod_revision_field(mod_revision) + (
    int_field(0x20, version) + (value_field(value) + int_field(0x30, lease)))))
}

/// Where the length of the key begins in a message.
pub open spec fn key_position() -> nat {
    1
}

/// Where the digits of the revision begin in a message.
pub open spec fn mod_revision_position(key: Seq<u8>, create_revision: i64) -> nat {
    key_field(key).len() + int_field(0x10, create_revision).len() + 1
}

fn push_int_field(buf: &mut Vec<u8>, tag: u8, v: i64)
    ensures
        final(buf)@ == old(buf)@ + int_field(tag, v),
{
    let ghost start = buf@;
    buf.push(tag);
    let digits = encode_varint(v as u64);
    push_bytes(buf, &digits);
    assert(buf@ =~= start + int_field(tag, v));
}

/// Encodes a key-value message with fixed-width varints for the lengths of the key and the value
/// and for the revision. Gives the bytes and where, past their tags, the varints of the length of
/// the key and of the revision begin.
pub fn encode_kv(
    key: &[u8],
    value: &[u8],
    create_revision: i64,
    mod_revision: i64,
    version: i64,
    lease: i64,
) -> (r: (Vec<u8>, u16, u16))
    ensures
        r.0@ == kv_message(key@, value@, create_revision, mod_revision, version, lease),
        r.1 == key_position(),
        r.2 == mod_revision_position(key@, create_revision) % 0x1_0000,
{
    let mut buf: Vec<u8> = Vec::new();

    buf.push(0x0a);
    let key_offset: u16 = 1;
    let key_len: u32 = (key.len() as u64 % 0x1_0000_0000) as u32;
    push_bytes(&mut buf, encode_overlong_u32(key_len).as_slice());
    push_bytes(&mut buf, key);
    assert(buf@ =~= key_field(key@));

    push_int_field(&mut buf, 0x10, create_revision);

    let ghost before = buf@;
    buf.push(0x18);
    let mod_rev_offset: u16 = (buf.len() as u64 % 0x1_0000) as u16;
    push_bytes(&mut buf, encode_overlong_u64(mod_revision as u64).as_slice());
    assert(buf@ =~= before + mod_revision_field(mod_revision));

    push_int_field(&mut buf, 0x20, version);

    let ghost before = buf@;
    buf.push(0x2a);
    let value_len: u32 = (value.len() as u64 % 0x1_0000_0000) as u32;
    push_bytes(&mut buf, encode_overlong_u32(value_len).as_slice());
    push_bytes(&mut buf, value);
    assert(buf@ =~= before + value_field(value@));

    push_int_field(&mut buf, 0x30, lease);

    proof {
        reveal(kv_message);
        assert(buf@ =~= kv_message(key@, value@, create_revision, mod_revision, version, lease));
    }
    (buf, key_offset, mod_rev_offset)
}

/// The key that a length at `ofs` announces, if it lies within the bytes.
pub open spec fn key_read(kv: Seq<u8>, ofs: nat) -> Option<Seq<u8>> {
    if ofs >= kv.len() {
        None
    } else {
        match varint_decoded(kv.skip(ofs as int)) {
            None => None,
            Some((len, n)) => if ofs + n + len <= kv.len() {
                Some(kv.subrange((ofs + n) as int, ofs + n + len))
            } else {
                None
            },
        }
    }
}

/// The revision in the ten digits at `ofs`, if they lie within the bytes.
pub open spec fn mod_revision_read(kv: Seq<u8>, ofs: nat) -> Option<i64> {
    if ofs + 10 > kv.len() {
        None
    } else {
        Some(
            (base128_value(kv.subrange(ofs as int, (ofs + 10) as int))
                % 0x1_0000_0000_0000_0000) as u64
                as i64,
        )
    }
}

/// Reads the key of a message whose length begins at `key_offset`.
pub fn read_key_from_kv(kv_bytes: &[u8], key_offset: u16) -> (r: Option<&[u8]>)
    ensures
        match r {
            Some(k) => key_read(kv_bytes@, key_offset as nat) == Some(k@),
            None => key_read(kv_bytes@, key_offset as nat) is None,
        },
{
    let ofs: usize = key_offset as usize;
    if ofs >= kv_bytes.len() {
        return None;
    }
    let tail = slice_subrange(kv_bytes, ofs, kv_bytes.len());
    proof {
        assert(tail@ =~= kv_bytes@.skip(ofs as int));
        lemma_varint_end_bound(tail@, 10);
    }
    match decode_varint(tail) {
        None => None,
        Some((key_len, n)) => {
            let start: usize = ofs + n;
            if key_len > (kv_bytes.len() - start) as u64 {
                return None;
            }
            Some(slice_subrange(kv_bytes, start, start + key_len as usize))
        },
    }
}

/// Reads the revision of a message whose digits begin at `mod_rev_offset`.
pub fn read_mod_revision_from_kv(kv_bytes: &[u8], mod_rev_offset: u16) -> (r: Option<i64>)
    ensures
        r == mod_revision_read(kv_bytes@, mod_rev_offset as nat),
{
    let ofs: usize = mod_rev_offset as usize;
    if kv_bytes.len() < 10 || ofs > kv_bytes.len() - 10 {
        return None;
    }
    let digits = slice_subrange(kv_bytes, ofs, ofs + 10);
    assert(digits@.take(10) =~= digits@);
    match decode_overlong_u64(digits) {
        Some(v) => Some(v as i64),
        None => None,
    }
}

// ── Records ───────────────────────────────────────────────────────

/// What a record holds.
#[verifier::ext_equal]
pub struct KvWalRecordView {
    pub flags: u8,
    pub kv_bytes: Seq<u8>,
    pub key_offset: u16,
    pub mod_rev_offset: u16,
    pub rec_len: u32,
    pub crc: u32,
}

/// A record of the log.
///
/// Layout on disk:
///   `[flags(1) | key_offset(2) | mod_rev_offset(2) | rec_len(4) | kv_bytes(N) | crc32(4)]`
///
/// `kv_bytes` is a key-value message whose key and revision are found through the header's
/// offsets.
#[derive(Debug)]
pub struct KvWalRecord {
    pub flags: u8,
    pub kv_bytes: Vec<u8>,
    pub key_offset: u16,
    pub mod_rev_offset: u16,
    pub rec_len: u32,
    pub crc: u32,
}

impl View for KvWalRecord {
    type V = KvWalRecordView;

    open spec fn view(&self) -> KvWalRecordView {
        KvWalRecordView {
            flags: self.flags,
            kv_bytes: self.kv_bytes@,
            key_offset: self.key_offset,
            mod_rev_offset: self.mod_rev_offset,
            rec_len: self.rec_len,
            crc: self.crc,
        }
    }
}

/// The first bytes of a record.
pub open spec fn header_bytes(flags: u8, key_offset: u16, mod_rev_offset: u16, rec_len: u32) -> Seq<
    u8,
> {
    seq![flags] + le_bytes(key_offset as nat, 2) + le_bytes(mod_rev_offset as nat, 2) + le_bytes(
        rec_len as nat,
        4,
    )
}

impl KvWalRecordView {
    /// The bytes that the checksum covers.
    pub open spec fn body(self) -> Seq<u8> {
        header_bytes(self.flags, self.key_offset, self.mod_rev_offset, self.rec_len)
            + self.kv_bytes
    }

    /// The record as it stands in the log.
    #[verifier::opaque]
    pub open spec fn bytes(self) -> Seq<u8> {
        self.body() + le_bytes(self.crc as nat, 4)
    }

    /// The length, the checksum and the offsets belong to the bytes: what a reader accepts.
    pub open spec fn valid(self) -> bool {
        &&& self.rec_len == KV_HEADER_SIZE + self.kv_bytes.len() + KV_CRC_SIZE
        &&& self.crc == crc32c_of(self.body())
        &&& self.key_offset < self.kv_bytes.len()
        &&& self.mod_rev_offset + 10 <= self.kv_bytes.len()
    }

    /// The key that the record is about.
    pub open spec fn key(self) -> Option<Seq<u8>> {
        key_read(self.kv_bytes, self.key_offset as nat)
    }

    /// The revision that the record was written at.
    pub open spec fn mod_revision(self) -> Option<i64> {
        mod_revision_read(self.kv_bytes, self.mod_rev_offset as nat)
    }

    /// The revision as the store counts it; zero where there is none.
    pub open spec fn revision(self) -> u64 {
        match self.mod_revision() {
            Some(r) => r as u64,
            None => 0,
        }
    }

    /// Whether the record deletes its key.
    pub open spec fn deletes(self) -> bool {
        self.flags & DELETED != 0
    }
}

/// The record around a message: with the length and the checksum that belong to it.
pub open spec fn record_around(
    flags: u8,
    kv_bytes: Seq<u8>,
    key_offset: u16,
    mod_rev_offset: u16,
) -> KvWalRecordView {
    let rec_len = ((kv_bytes.len() + 13) % 0x1_0000_0000) as u32;
    KvWalRecordView {
        flags,
        kv_bytes,
        key_offset,
        mod_rev_offset,
        rec_len,
        crc: crc32c_of(header_bytes(flags, key_offset, mod_rev_offset, rec_len) + kv_bytes),
    }
}

/// The record of one change.
pub open spec fn new_record(
    flags: u8,
    key: Seq<u8>,
    value: Seq<u8>,
    create_revision: i64,
    mod_revision: i64,
    version: i64,
    lease: i64,
) -> KvWalRecordView {
    record_around(
        flags,
        kv_message(key, value, create_revision, mod_revision, version, lease),
        key_position() as u16,
        (mod_revision_position(key, create_revision) % 0x1_0000) as u16,
    )
}

/// What reading a record at the start of `data` gives.
#[verifier::opaque]
pub open spec fn parse_record(data: Seq<u8>) -> Result<KvWalRecordView, WalError> {
    let rec_len = le_value(data.subrange(5, 9));
    let rec = KvWalRecordView {
        flags: data[0],
        kv_bytes: data.subrange(9, rec_len - 4),
        key_offset: le_value(data.subrange(1, 3)) as u16,
        mod_rev_offset: le_value(data.subrange(3, 5)) as u16,
        rec_len: rec_len as u32,
        crc: le_value(data.subrange(rec_len - 4, rec_len as int)) as u32,
    };
    if data.len() < 13 {
        Err(WalError::RecordTooShort)
    } else if rec_len < 13 {
        Err(WalError::RecLenTooSmall)
    } else if rec_len > data.len() {
        Err(WalError::RecordPastBuffer)
    } else if crc32c_of(data.take(rec_len - 4)) != rec.crc {
        Err(WalError::CrcMismatch)
    } else if rec.key_offset >= rec.kv_bytes.len() || rec.mod_rev_offset + 10
        > rec.kv_bytes.len() {
        Err(WalError::OffsetOutOfBounds)
    } else {
        Ok(rec)
    }
}

fn push_header(buf: &mut Vec<u8>, flags: u8, key_offset: u16, mod_rev_offset: u16, rec_len: u32)
    ensures
        final(buf)@ == old(buf)@ + header_bytes(flags, key_offset, mod_rev_offset, rec_len),
{
    let ghost start = buf@;
    buf.push(flags);
    push_le(buf, key_offset as u64, 2);
    push_le(buf, mod_rev_offset as u64, 2);
    push_le(buf, rec_len as u64, 4);
    assert(buf@ =~= start + header_bytes(flags, key_offset, mod_rev_offset, rec_len));
}

impl KvWalRecord {
    /// A record from its components: the message, the offsets, the length and the checksum
    /// are computed.
    pub fn new(
        flags: u8,
        key: &[u8],
        value: &[u8],
        create_revision: i64,
        mod_revision: i64,
        version: i64,
        lease: i64,
    ) -> (r: Self)
        ensures
            r@ == new_record(
                flags,
                key@,
                value@,
                create_revision,
                mod_revision,
                version,
                lease,
            ),
    {
        let (kv_bytes, key_offset, mod_rev_offset) = encode_kv(
            key,
            value,
            create_revision,
            mod_revision,
            version,
            lease,
        );
        let rec_len: u32 = ((kv_bytes.len() as u64 % 0x1_0000_0000 + 13) % 0x1_0000_0000) as u32;

        let mut crc_data: Vec<u8> = Vec::new();
        push_header(&mut crc_data, flags, key_offset, mod_rev_offset, rec_len);
        push_bytes(&mut crc_data, &kv_bytes);
        assert(crc_data@ =~= header_bytes(flags, key_offset, mod_rev_offset, rec_len)
            + kv_bytes@);
        let crc: u32 = crc32c(&crc_data);

        KvWalRecord { flags, kv_bytes, key_offset, mod_rev_offset, rec_len, crc }
    }

    /// The record as it is written to the log.
    pub fn serialize(&self) -> (r: Vec<u8>)
        ensures
            r@ == self@.bytes(),
    {
        let mut buf: Vec<u8> = Vec::new();
        push_header(&mut buf, self.flags, self.key_offset, self.mod_rev_offset, self.rec_len);
        push_bytes(&mut buf, &self.kv_bytes);
        push_le(&mut buf, self.crc as u64, 4);
        proof {
            reveal(KvWalRecordView::bytes);
            assert(buf@ =~= self@.bytes());
        }
        buf
    }

    /// Reads a record from raw bytes. Gives the record and how many bytes it took.
    pub fn deserialize(data: &[u8]) -> (r: Result<(Self, usize), WalError>)
        ensures
            match r {
                Ok((rec, n)) => parse_record(data@) == Ok::<KvWalRecordView, WalError>(rec@) && n
                    == rec@.rec_len && 13 <= n <= data@.len(),
                Err(e) => parse_record(data@) == Err::<KvWalRecordView, WalError>(e),
            },
    {
        proof {
            reveal(parse_record);
        }
        if data.len() < KV_HEADER_SIZE + KV_CRC_SIZE {
            return Err(WalError::RecordTooShort);
        }
        proof {
            lemma_pow256_values();
        }
        let flags: u8 = data[0];
        let key_offset: u16 = read_le(data, 1, 2) as u16;
        let mod_rev_offset: u16 = read_le(data, 3, 2) as u16;
        let rec_len: u32 = read_le(data, 5, 4) as u32;

        if (rec_len as usize) < KV_HEADER_SIZE + KV_CRC_SIZE {
            return Err(WalError::RecLenTooSmall);
        }
        if (rec_len as usize) > data.len() {
            return Err(WalError::RecordPastBuffer);
        }
        let kv_end: usize = rec_len as usize - KV_CRC_SIZE;

        let kv_bytes = copy_bytes(slice_subrange(data, KV_HEADER_SIZE, kv_end));
        let stored_crc: u32 = read_le(data, kv_end, KV_CRC_SIZE) as u32;

        let covered = slice_subrange(data, 0, kv_end);
        assert(covered@ =~= data@.take(rec_len - 4));
        if crc32c(covered) != stored_crc {
            return Err(WalError::CrcMismatch);
        }
        if (key_offset as usize) >= kv_bytes.len() || kv_bytes.len() < 10 || (mod_rev_offset
            as usize) > kv_bytes.len() - 10 {
            return Err(WalError::OffsetOutOfBounds);
        }
        Ok(
            (
                KvWalRecord {
                    flags,
                    kv_bytes,
                    key_offset,
                    mod_rev_offset,
                    rec_len,
                    crc: stored_crc,
                },
                rec_len as usize,
            ),
        )
    }

    /// The key, found through the stored offset.
    pub fn key(&self) -> (r: Option<&[u8]>)
        ensures
            match r {
                Some(k) => self@.key() == Some(k@),
                None => self@.key() is None,
            },
    {
        read_key_from_kv(&self.kv_bytes, self.key_offset)
    }

    /// The revision, found through the stored offset.
    pub fn mod_revision(&self) -> (r: Option<i64>)
        ensures
            r == self@.mod_revision(),
    {
        read_mod_revision_from_kv(&self.kv_bytes, self.mod_rev_offset)
    }

    /// The revision as the store counts it; zero where there is none.
    pub fn revision(&self) -> (r: u64)
        ensures
            r == self@.revision(),
    {
        match self.mod_revision() {
            Some(r) => r as u64,
            None => 0,
        }
    }

    /// Whether the record deletes its key.
    pub fn deletes(&self) -> (r: bool)
        ensures
            r == self@.deletes(),
    {
        self.flags & DELETED != 0
    }
}

impl Clone for KvWalRecord {
    fn clone(&self) -> (r: Self)
        ensures
            r@ == self@,
    {
        KvWalRecord {
            flags: self.flags,
            kv_bytes: copy_bytes(&self.kv_bytes),
            key_offset: self.key_offset,
            mod_rev_offset: self.mod_rev_offset,
            rec_len: self.rec_len,
            crc: self.crc,
        }
    }
}

} // verus!
