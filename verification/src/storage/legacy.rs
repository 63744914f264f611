//! The older format of the log, which is only read to be migrated.

use crate::bytes::{copy_bytes, push_bytes};
use crate::storage::crc::{crc32c, crc32c_of};
use crate::storage::fixed::{
    le_bytes, le_value, lemma_le_roundtrip, lemma_le_value_bound, lemma_pow256_values, push_le,
    read_le,
};
use crate::storage::wal::{WalError, HAS_LEASE};
use vstd::prelude::*;
use vstd::slice::slice_subrange;

verus! {

/// What every record begins with.
pub const MAGIC: u16 = 0x5255;

/// magic(2) + revision(8) + crc32(4) + key_len(4) + val_len(4) + flags(1)
pub const HEADER_SIZE: usize = 23;

/// What a record of the older format holds.
#[verifier::ext_equal]
pub struct WalRecordView {
    pub revision: u64,
    pub key: Seq<u8>,
    pub value: Seq<u8>,
    pub flags: u8,
    pub lease_id: Option<i64>,
}

/// A record of the older format.
///
/// Layout on disk:
///   `[magic(2) | revision(8) | crc32(4) | key_len(4) | val_len(4) | flags(1) | key | value | lease_id(8)?]`
///
/// The checksum covers what follows the lengths.
#[derive(Debug)]
pub struct WalRecord {
    pub revision: u64,
    pub key: Vec<u8>,
    pub value: Vec<u8>,
    pub flags: u8,
    pub lease_id: Option<i64>,
}

impl View for WalRecord {
    type V = WalRecordView;

    open spec fn view(&self) -> WalRecordView {
        WalRecordView {
            revision: self.revision,
            key: self.key@,
            value: self.value@,
            flags: self.flags,
            lease_id: self.lease_id,
        }
    }
}

impl Clone for WalRecord {
    fn clone(&self) -> (r: Self)
        ensures
            r@ == self@,
    {
        WalRecord {
            revision: self.revision,
            key: copy_bytes(&self.key),
            value: copy_bytes(&self.value),
            flags: self.flags,
            lease_id: self.lease_id,
        }
    }
}

/// The views of records.
pub open spec fn legacy_views(recs: Seq<WalRecord>) -> Seq<WalRecordView> {
    recs.map_values(|r: WalRecord| r@)
}

/// The lease of a record in its bytes.
pub open spec fn lease_bytes(lease_id: Option<i64>) -> Seq<u8> {
    match lease_id {
        Some(id) => le_bytes(id as u64 as nat, 8),
        None => Seq::empty(),
    }
}

impl WalRecordView {
    /// What the checksum covers.
    pub open spec fn payload(self) -> Seq<u8> {
        seq![self.flags] + self.key + self.value + lease_bytes(self.lease_id)
    }

    /// The record as it stands in the log.
    #[verifier::opaque]
    pub open spec fn bytes(self) -> Seq<u8> {
        le_bytes(MAGIC as nat, 2) + le_bytes(self.revision as nat, 8) + le_bytes(
            crc32c_of(self.payload()) as nat,
            4,
        ) + le_bytes(self.key.len() % 0x1_0000_0000, 4) + le_bytes(
            self.value.len() % 0x1_0000_0000,
            4,
        ) + self.payload()
    }

    /// The lengths fit in their bytes, and the flag for a lease is set where there is one.
    pub open spec fn valid(self) -> bool {
        &&& self.key.len() < 0x1_0000_0000
        &&& self.value.len() < 0x1_0000_0000
        &&& self.flags & HAS_LEASE != 0 <==> self.lease_id is Some
    }
}

/// The length of the key, in the header.
pub open spec fn key_len(data: Seq<u8>) -> nat {
    le_value(data.subrange(14, 18))
}

/// The length of the value, in the header.
pub open spec fn val_len(data: Seq<u8>) -> nat {
    le_value(data.subrange(18, 22))
}

/// Where the key and value end.
pub open spec fn payload_end(data: Seq<u8>) -> nat {
    23 + key_len(data) + val_len(data)
}

/// Whether the flags say that there is a lease.
pub open spec fn says_lease(data: Seq<u8>) -> bool {
    data[22] & HAS_LEASE != 0
}

/// Where the record ends.
pub open spec fn record_end(data: Seq<u8>) -> nat {
    if says_lease(data) {
        payload_end(data) + 8
    } else {
        payload_end(data)
    }
}

/// Whether the checksum belongs to the bytes.
pub open spec fn checksum_holds(data: Seq<u8>) -> bool {
    crc32c_of(data.subrange(22, record_end(data) as int)) == le_value(data.subrange(10, 14))
}

/// The record in the bytes, if there is one.
pub open spec fn record_in(data: Seq<u8>) -> WalRecordView {
    WalRecordView {
        revision: le_value(data.subrange(2, 10)) as u64,
        key: data.subrange(23, (23 + key_len(data)) as int),
        value: data.subrange((23 + key_len(data)) as int, payload_end(data) as int),
        flags: data[22],
        lease_id: if says_lease(data) {
            Some(
                le_value(
                    data.subrange(payload_end(data) as int, (payload_end(data) + 8) as int),
                ) as u64 as i64,
            )
        } else {
            None
        },
    }
}

/// Whether the bytes begin as a record does.
pub open spec fn has_magic(data: Seq<u8>) -> bool {
    le_value(data.subrange(0, 2)) == MAGIC
}

/// What reading a record at the start of `data` gives: the record and how many bytes it took.
#[verifier::opaque]
pub open spec fn parse_legacy(data: Seq<u8>) -> Result<(WalRecordView, nat), WalError> {
    if data.len() < HEADER_SIZE {
        Err(WalError::ShortRecord)
    } else if !has_magic(data) {
        Err(WalError::BadMagic)
    } else if data.len() < payload_end(data) {
        Err(WalError::TruncatedPayload)
    } else if data.len() < record_end(data) {
        Err(WalError::TruncatedLease)
    } else if !checksum_holds(data) {
        Err(WalError::CrcMismatch)
    } else {
        Ok((record_in(data), record_end(data)))
    }
}

impl WalRecord {
    /// The record as it is written to the log.
    pub fn serialize(&self) -> (r: Vec<u8>)
        ensures
            r@ == self@.bytes(),
    {
        let mut payload: Vec<u8> = Vec::new();
        payload.push(self.flags);
        push_bytes(&mut payload, &self.key);
        push_bytes(&mut payload, &self.value);
        if let Some(id) = self.lease_id {
            push_le(&mut payload, id as u64, 8);
        }
        assert(payload@ =~= self@.payload());
        let crc: u32 = crc32c(&payload);

        let mut buf: Vec<u8> = Vec::new();
        push_le(&mut buf, MAGIC as u64, 2);
        push_le(&mut buf, self.revision, 8);
        push_le(&mut buf, crc as u64, 4);
        push_le(&mut buf, self.key.len() as u64 % 0x1_0000_0000, 4);
        push_le(&mut buf, self.value.len() as u64 % 0x1_0000_0000, 4);
        push_bytes(&mut buf, &payload);
        proof {
            reveal(WalRecordView::bytes);
            assert(buf@ =~= self@.bytes());
        }
        buf
    }

    /// Reads a record from raw bytes. Gives the record and how many bytes it took.
    pub fn deserialize(data: &[u8]) -> (r: Result<(Self, usize), WalError>)
        ensures
            match r {
                Ok((rec, n)) => parse_legacy(data@) == Ok::<(WalRecordView, nat), WalError>(
                    (rec@, n as nat),
                ) && 23 <= n <= data@.len(),
                Err(e) => parse_legacy(data@) == Err::<(WalRecordView, nat), WalError>(e),
            },
    {
        proof {
            reveal(parse_legacy);
            lemma_pow256_values();
        }
        if data.len() < HEADER_SIZE {
            return Err(WalError::ShortRecord);
        }
        let magic: u64 = read_le(data, 0, 2);
        if magic != MAGIC as u64 {
            return Err(WalError::BadMagic);
        }
        let revision: u64 = read_le(data, 2, 8);
        let stored_crc: u64 = read_le(data, 10, 4);
        let key_len: u64 = read_le(data, 14, 4);
        let val_len: u64 = read_le(data, 18, 4);
        let flags: u8 = data[22];
        proof {
            lemma_le_value_bound(data@.subrange(14, 18));
            lemma_le_value_bound(data@.subrange(18, 22));
        }
        let payload_end: u64 = 23 + key_len + val_len;
        if (data.len() as u64) < payload_end {
            return Err(WalError::TruncatedPayload);
        }
        let key_end: usize = 23 + key_len as usize;
        let val_end: usize = payload_end as usize;
        let key = copy_bytes(slice_subrange(data, 23, key_end));
        let value = copy_bytes(slice_subrange(data, key_end, val_end));
        let mut end: usize = val_end;
        let lease_id: Option<i64> = if flags & HAS_LEASE != 0 {
            if data.len() - val_end < 8 {
                return Err(WalError::TruncatedLease);
            }
            end = val_end + 8;
            Some(read_le(data, val_end, 8) as i64)
        } else {
            None
        };
        if crc32c(slice_subrange(data, 22, end)) as u64 != stored_crc {
            return Err(WalError::CrcMismatch);
        }
        let rec = WalRecord { revision, key, value, flags, lease_id };
        assert(rec@ =~= record_in(data@));
        Ok((rec, end))
    }
}

/// Reading back a written record of the older format gives the record and takes all of its
/// bytes, whatever follows it.
pub proof fn law_legacy_roundtrip(rec: WalRecordView, rest: Seq<u8>)
    requires
        rec.valid(),
    ensures
        parse_legacy(rec.bytes() + rest) == Ok::<(WalRecordView, nat), WalError>(
            (rec, rec.bytes().len()),
        ),
{
    reveal(parse_legacy);
    reveal(WalRecordView::bytes);
    lemma_pow256_values();
    let data = rec.bytes() + rest;
    let crc = crc32c_of(rec.payload());
    lemma_le_roundtrip(MAGIC as nat, 2);
    lemma_le_roundtrip(rec.revision as nat, 8);
    lemma_le_roundtrip(crc as nat, 4);
    lemma_le_roundtrip(rec.key.len(), 4);
    lemma_le_roundtrip(rec.value.len(), 4);
    assert(data.subrange(0, 2) =~= le_bytes(MAGIC as nat, 2));
    assert(data.subrange(2, 10) =~= le_bytes(rec.revision as nat, 8));
    assert(data.subrange(10, 14) =~= le_bytes(crc as nat, 4));
    assert(data.subrange(14, 18) =~= le_bytes(rec.key.len(), 4));
    assert(data.subrange(18, 22) =~= le_bytes(rec.value.len(), 4));
    assert(data[22] == rec.flags);
    let k = rec.key.len() as int;
    let v = rec.value.len() as int;
    assert(data.subrange(23, 23 + k) =~= rec.key);
    assert(data.subrange(23 + k, 23 + k + v) =~= rec.value);
    if let Some(id) = rec.lease_id {
        lemma_le_roundtrip(id as u64 as nat, 8);
        assert(data.subrange(23 + k + v, 23 + k + v + 8) =~= le_bytes(id as u64 as nat, 8));
        assert((id as u64) as i64 == id) by (bit_vector);
    }
    assert(data.subrange(22, record_end(data) as int) =~= rec.payload());
    assert(record_in(data) =~= rec);
}

/// A record of the older format that was read is valid, and written back it is the bytes that it
/// was read from.
pub proof fn law_legacy_is_written_back(data: Seq<u8>)
    ensures
        parse_legacy(data) matches Ok((rec, n)) ==> rec.valid() && n <= data.len() && rec.bytes()
            == data.take(n as int),
{
    reveal(parse_legacy);
    reveal(WalRecordView::bytes);
    if let Ok((rec, n)) = parse_legacy(data) {
        lemma_pow256_values();
        lemma_le_value_bound(data.subrange(0, 2));
        lemma_le_value_bound(data.subrange(2, 10));
        lemma_le_value_bound(data.subrange(10, 14));
        lemma_le_value_bound(data.subrange(14, 18));
        lemma_le_value_bound(data.subrange(18, 22));
        let end = payload_end(data) as int;
        if says_lease(data) {
            let digits = data.subrange(end, end + 8);
            lemma_le_value_bound(digits);
            let id = le_value(digits) as u64;
            assert((id as i64) as u64 == id) by (bit_vector);
        }
        assert(rec.payload() =~= data.subrange(22, n as int));
        assert(rec.bytes() =~= data.take(n as int));
    }
}

/// Reading a list of records up to the first that cannot be read.
pub open spec fn read_legacy(s: Seq<u8>) -> Seq<WalRecordView>
    decreases s.len(),
{
    match parse_legacy(s) {
        Err(_) => Seq::empty(),
        Ok((rec, n)) => {
            proof {
                reveal(parse_legacy);
            }
            seq![rec] + read_legacy(s.skip(n as int))
        },
    }
}

/// How many bytes the records take up to the first that cannot be read.
pub open spec fn read_end(s: Seq<u8>) -> nat
    decreases s.len(),
{
    match parse_legacy(s) {
        Err(_) => 0,
        Ok((_, n)) => {
            proof {
                reveal(parse_legacy);
            }
            n + read_end(s.skip(n as int))
        },
    }
}

/// The records of a log of the older format, up to the first that cannot be read; and why and
/// where that is, if it is not the end.
pub fn read_old_records(wal: &[u8]) -> (r: (Vec<WalRecord>, Option<(usize, WalError)>))
    ensures
        legacy_views(r.0@) == read_legacy(wal@),
        match r.1 {
            None => read_end(wal@) == wal@.len(),
            Some((at, e)) => at == read_end(wal@) && at < wal@.len() && parse_legacy(
                wal@.skip(at as int),
            ) == Err::<(WalRecordView, nat), WalError>(e),
        },
{
    let len: usize = wal.len();
    let mut records: Vec<WalRecord> = Vec::new();
    let mut error: Option<(usize, WalError)> = None;
    let mut ofs: usize = 0;
    let ghost all = read_legacy(wal@);
    assert(wal@.skip(0) =~= wal@);
    assert(legacy_views(records@) + all =~= all);
    while error.is_none() && ofs < len
        invariant
            ofs <= len == wal@.len(),
            error is Some ==> legacy_views(records@) == all,
            ofs + read_end(wal@.skip(ofs as int)) == read_end(wal@),
            error matches Some((at, _)) ==> at == ofs && read_end(wal@.skip(ofs as int)) == 0,
            error is None ==> legacy_views(records@) + read_legacy(wal@.skip(ofs as int)) == all,
            error matches Some((at, e)) ==> at < wal@.len() && parse_legacy(wal@.skip(at as int))
                == Err::<(WalRecordView, nat), WalError>(e),
        decreases
                len - ofs,
                (if error is None {
                    1int
                } else {
                    0int
                }),
    {
        let tail = slice_subrange(wal, ofs, len);
        assert(tail@ =~= wal@.skip(ofs as int));
        match WalRecord::deserialize(tail) {
            Ok((rec, consumed)) => {
                let ghost before = records@;
                proof {
                    assert(tail@.skip(consumed as int) =~= wal@.skip(ofs + consumed));
                    let rest = read_legacy(wal@.skip(ofs + consumed));
                    assert(legacy_views(before.push(rec)) =~= legacy_views(before).push(rec@));
                    assert(legacy_views(before) + (seq![rec@] + rest) =~= legacy_views(
                        before,
                    ).push(rec@) + rest);
                }
                records.push(rec);
                ofs = ofs + consumed;
            },
            Err(e) => {
                assert(legacy_views(records@) + Seq::<WalRecordView>::empty() =~= legacy_views(
                    records@,
                ));
                error = Some((ofs, e));
            },
        }
    }
    proof {
        if error is None {
            reveal(parse_legacy);
            assert(read_legacy(wal@.skip(ofs as int)) =~= Seq::empty());
            assert(read_end(wal@.skip(ofs as int)) == 0);
            assert(legacy_views(records@) + Seq::<WalRecordView>::empty() =~= legacy_views(
                records@,
            ));
        }
    }
    (records, error)
}

/// What a sequence of records of the older format is in a log.
pub open spec fn legacy_log(recs: Seq<WalRecordView>) -> Seq<u8>
    decreases recs.len(),
{
    if recs.len() == 0 {
        Seq::empty()
    } else {
        legacy_log(recs.drop_last()) + recs.last().bytes()
    }
}

/// A log begins with its first record.
proof fn lemma_legacy_log_front(recs: Seq<WalRecordView>)
    requires
        recs.len() > 0,
    ensures
        legacy_log(recs) == recs[0].bytes() + legacy_log(recs.skip(1)),
    decreases recs.len(),
{
    let front = recs.drop_last();
    if front.len() == 0 {
        assert(legacy_log(front) =~= Seq::empty());
        assert(legacy_log(recs.skip(1)) =~= Seq::empty());
        assert(legacy_log(recs) =~= recs[0].bytes() + legacy_log(recs.skip(1)));
    } else {
        lemma_legacy_log_front(front);
        assert(recs.skip(1).drop_last() =~= front.skip(1));
        assert(legacy_log(recs) =~= recs[0].bytes() + legacy_log(recs.skip(1)));
    }
}

/// A log of the older format reads back as the records that it was written from, and then as
/// what follows them.
pub proof fn law_legacy_log_reads_back(recs: Seq<WalRecordView>, rest: Seq<u8>)
    requires
        forall|i: int| 0 <= i < recs.len() ==> (#[trigger] recs[i]).valid(),
    ensures
        read_legacy(legacy_log(recs) + rest) == recs + read_legacy(rest),
    decreases recs.len(),
{
    if recs.len() == 0 {
        assert(legacy_log(recs) + rest =~= rest);
        assert(recs + read_legacy(rest) =~= read_legacy(rest));
    } else {
        let first = recs[0].bytes();
        let others = recs.skip(1);
        lemma_legacy_log_front(recs);
        let behind = legacy_log(others) + rest;
        assert(legacy_log(recs) + rest =~= first + behind);
        law_legacy_roundtrip(recs[0], behind);
        assert((first + behind).skip(first.len() as int) =~= behind);
        assert forall|i: int| 0 <= i < others.len() implies (#[trigger] others[i]).valid() by {
            assert(others[i] == recs[i + 1]);
        }
        law_legacy_log_reads_back(others, rest);
        assert(seq![recs[0]] + (others + read_legacy(rest)) =~= recs + read_legacy(rest));
    }
}

// ── Scanning a damaged log ────────────────────────────────────────

/// What a scan of a damaged log finds.
#[verifier::ext_equal]
pub struct LegacyScanView {
    pub records: Seq<WalRecordView>,
    pub crc_errors: nat,
    pub trailing: nat,
}

/// A scan that finds one more record first.
pub open spec fn found_first(rec: WalRecordView, rest: LegacyScanView) -> LegacyScanView {
    LegacyScanView { records: seq![rec] + rest.records, ..rest }
}

/// What a scan of a damaged log finds. It passes over bytes that do not begin a record, and ends
/// at a record that goes on past the end. Where a checksum does not hold, it goes on with the
/// next byte and counts an error, or, if it is not to look again, goes on behind the record.
pub open spec fn legacy_scan(s: Seq<u8>, look_again: bool) -> LegacyScanView
    decreases s.len(),
{
    if s.len() < HEADER_SIZE {
        LegacyScanView { records: Seq::empty(), crc_errors: 0, trailing: s.len() }
    } else if !has_magic(s) {
        legacy_scan(s.skip(1), look_again)
    } else if s.len() < payload_end(s) {
        LegacyScanView { records: Seq::empty(), crc_errors: 0, trailing: (s.len() - 23) as nat }
    } else if s.len() < record_end(s) {
        LegacyScanView {
            records: Seq::empty(),
            crc_errors: 0,
            trailing: (s.len() - payload_end(s)) as nat,
        }
    } else if !checksum_holds(s) {
        if look_again {
            let rest = legacy_scan(s.skip(1), look_again);
            LegacyScanView { crc_errors: rest.crc_errors + 1, ..rest }
        } else {
            legacy_scan(s.skip(record_end(s) as int), look_again)
        }
    } else {
        found_first(record_in(s), legacy_scan(s.skip(record_end(s) as int), look_again))
    }
}

/// What a scan of a damaged log found.
#[derive(Debug)]
pub struct LegacyScan {
    pub records: Vec<WalRecord>,
    pub crc_errors: u64,
    pub trailing: u64,
}

impl View for LegacyScan {
    type V = LegacyScanView;

    open spec fn view(&self) -> LegacyScanView {
        LegacyScanView {
            records: legacy_views(self.records@),
            crc_errors: self.crc_errors as nat,
            trailing: self.trailing as nat,
        }
    }
}

/// What has been found so far, and what a scan of the rest finds.
pub open spec fn found_so_far(
    records: Seq<WalRecordView>,
    crc_errors: nat,
    rest: LegacyScanView,
) -> LegacyScanView {
    LegacyScanView {
        records: records + rest.records,
        crc_errors: crc_errors + rest.crc_errors,
        trailing: rest.trailing,
    }
}

/// Where a record ends that goes on past the end of the bytes: behind its header or, if only the
/// lease is missing, behind the value.
fn torn_at(data: &[u8]) -> (r: usize)
    requires
        data@.len() >= 23,
        data@.len() < payload_end(data@) || data@.len() < record_end(data@),
    ensures
        r <= data@.len(),
        r == if data@.len() < payload_end(data@) {
            23
        } else {
            payload_end(data@)
        },
{
    proof {
        lemma_pow256_values();
        lemma_le_value_bound(data@.subrange(14, 18));
        lemma_le_value_bound(data@.subrange(18, 22));
    }
    let key_len: u64 = read_le(data, 14, 4);
    let val_len: u64 = read_le(data, 18, 4);
    let payload_end: u64 = 23 + key_len + val_len;
    if (data.len() as u64) < payload_end {
        23
    } else {
        payload_end as usize
    }
}

/// Scans a damaged log.
pub fn scan_wal(wal: &[u8], look_again: bool) -> (r: LegacyScan)
    ensures
        r@ == legacy_scan(wal@, look_again),
{
    let len: usize = wal.len();
    let mut records: Vec<WalRecord> = Vec::new();
    let mut crc_errors: u64 = 0;
    let mut pos: usize = 0;
    let ghost all = legacy_scan(wal@, look_again);
    proof {
        assert(wal@.skip(0) =~= wal@);
        assert(found_so_far(legacy_views(records@), 0, all) =~= all);
        reveal(parse_legacy);
    }
    while len - pos >= HEADER_SIZE
        invariant
            pos <= len == wal@.len(),
            all == legacy_scan(wal@, look_again),
            crc_errors <= pos,
            found_so_far(
                legacy_views(records@),
                crc_errors as nat,
                legacy_scan(wal@.skip(pos as int), look_again),
            ) == all,
        decreases len - pos,
    {
        let tail = slice_subrange(wal, pos, len);
        let ghost s = wal@.skip(pos as int);
        let ghost before = records@;
        proof {
            reveal(parse_legacy);
            assert(tail@ =~= s);
            assert(s.skip(1) =~= wal@.skip(pos + 1));
            if record_end(s) <= s.len() {
                assert(s.skip(record_end(s) as int) =~= wal@.skip(pos + record_end(s)));
            }
        }
        match WalRecord::deserialize(tail) {
            Ok((rec, n)) => {
                records.push(rec);
                pos = pos + n;
                proof {
                    let rest = legacy_scan(wal@.skip(pos as int), look_again);
                    assert(legacy_views(records@) =~= legacy_views(before).push(rec@));
                    assert(found_so_far(legacy_views(records@), crc_errors as nat, rest)
                        =~= found_so_far(
                        legacy_views(before),
                        crc_errors as nat,
                        found_first(rec@, rest),
                    ));
                }
            },
            Err(WalError::BadMagic) => {
                pos = pos + 1;
            },
            Err(WalError::CrcMismatch) => {
                if look_again {
                    crc_errors = crc_errors + 1;
                    pos = pos + 1;
                } else {
                    pos = pos + end_of(tail);
                }
            },
            Err(_) => {
                let at: usize = torn_at(tail);
                let trailing: u64 = (tail.len() - at) as u64;
                let scan = LegacyScan { records, crc_errors, trailing };
                assert(scan@ =~= all);
                return scan;
            },
        }
    }
    let scan = LegacyScan { records, crc_errors, trailing: (len - pos) as u64 };
    assert(scan@ =~= all);
    scan
}

/// Where a record ends that is there in full.
fn end_of(data: &[u8]) -> (r: usize)
    requires
        data@.len() >= 23,
        data@.len() >= record_end(data@),
    ensures
        r == record_end(data@),
{
    proof {
        lemma_pow256_values();
        lemma_le_value_bound(data@.subrange(14, 18));
        lemma_le_value_bound(data@.subrange(18, 22));
    }
    let key_len: u64 = read_le(data, 14, 4);
    let val_len: u64 = read_le(data, 18, 4);
    let lease: u64 = if data[22] & HAS_LEASE != 0 {
        8
    } else {
        0
    };
    (23 + key_len + val_len + lease) as usize
}

} // verus!
