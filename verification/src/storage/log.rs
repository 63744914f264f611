//! Sequences of records: the contents of a log, written and scanned.

use crate::bytes::push_bytes;
use crate::storage::crc::{crc32c_of, law_crc_sees_a_changed_byte};
use crate::storage::fixed::{
    le_bytes, le_value, lemma_le_bytes_len, lemma_le_roundtrip, lemma_le_value_bound,
    lemma_pow256_values,
};
use crate::storage::varint::{
    law_overlong_is_a_varint, law_varint_roundtrip, lemma_overlong, lemma_pow128_values, overlong,
};
use crate::storage::wal::{
    header_bytes, int_field, key_field, key_position, key_read, kv_message, mod_revision_field,
    mod_revision_position, mod_revision_read, new_record, parse_record, record_around, value_field,
    KvWalRecord, KvWalRecordView, WalError,
};
use vstd::prelude::*;
use vstd::slice::slice_subrange;

verus! {

/// What a sequence of records is in the log.
pub open spec fn log_bytes(recs: Seq<KvWalRecordView>) -> Seq<u8>
    decreases recs.len(),
{
    if recs.len() == 0 {
        Seq::empty()
    } else {
        recs[0].bytes() + log_bytes(recs.skip(1))
    }
}

/// The records that a scan finds: one after the other, up to the first that cannot be read.
pub open spec fn scan_records(s: Seq<u8>) -> Seq<KvWalRecordView>
    decreases s.len(),
{
    match parse_record(s) {
        Err(_) => Seq::empty(),
        Ok(rec) => {
            proof {
                lemma_parsed_is_valid(s);
            }
            seq![rec] + scan_records(s.skip(rec.rec_len as int))
        },
    }
}

/// The views of a list of records.
pub open spec fn record_views(recs: Seq<KvWalRecord>) -> Seq<KvWalRecordView> {
    recs.map_values(|r: KvWalRecord| r@)
}

/// The bytes from `offset` on; none if the log is not that long.
pub open spec fn from_offset(s: Seq<u8>, offset: u64) -> Seq<u8> {
    if offset <= s.len() {
        s.skip(offset as int)
    } else {
        Seq::empty()
    }
}

/// Scans the records of a log from `offset` on, up to the first that cannot be read. Gives them,
/// and where the bytes end that were read: behind all of them, those that cannot be read too.
pub fn scan_kv(wal: &[u8], offset: u64) -> (r: (Vec<KvWalRecord>, u64))
    ensures
        record_views(r.0@) == scan_records(from_offset(wal@, offset)),
        forall|i: int| 0 <= i < r.0@.len() ==> (#[trigger] r.0@[i])@.valid(),
        r.1 == offset + from_offset(wal@, offset).len(),
{
    let mut records: Vec<KvWalRecord> = Vec::new();
    let len: usize = wal.len();
    proof {
        lemma_scan_of_nothing(from_offset(wal@, offset));
    }
    if offset > len as u64 {
        assert(record_views(records@) =~= Seq::empty());
        return (records, offset);
    }
    let ghost all = scan_records(wal@.skip(offset as int));
    let mut ofs: usize = offset as usize;
    let mut failed = false;
    assert(record_views(records@) + all =~= all);
    while !failed && ofs < len
        invariant
            ofs <= len == wal@.len(),
            failed ==> record_views(records@) == all,
            !failed ==> record_views(records@) + scan_records(wal@.skip(ofs as int)) == all,
            forall|i: int| 0 <= i < records@.len() ==> (#[trigger] records@[i])@.valid(),
        decreases len - ofs, (if failed { 0int } else { 1int }),
    {
        let tail = slice_subrange(wal, ofs, len);
        assert(tail@ =~= wal@.skip(ofs as int));
        match KvWalRecord::deserialize(tail) {
            Ok((rec, consumed)) => {
                let ghost before = records@;
                proof {
                    lemma_parsed_is_valid(tail@);
                    assert(tail@.skip(consumed as int) =~= wal@.skip(ofs + consumed));
                    assert(record_views(before.push(rec)) =~= record_views(before).push(rec@));
                    assert(record_views(before) + (seq![rec@] + scan_records(
                        wal@.skip(ofs + consumed),
                    )) =~= record_views(before).push(rec@) + scan_records(
                        wal@.skip(ofs + consumed),
                    ));
                }
                records.push(rec);
                ofs = ofs + consumed;
            },
            Err(_) => {
                assert(record_views(records@) + Seq::<KvWalRecordView>::empty() =~= record_views(
                    records@,
                ));
                failed = true;
            },
        }
    }
    proof {
        if !failed {
            lemma_scan_of_nothing(wal@.skip(ofs as int));
            assert(record_views(records@) + Seq::<KvWalRecordView>::empty() =~= record_views(
                records@,
            ));
        }
    }
    (records, len as u64)
}

/// Where there is nothing there is no record.
proof fn lemma_scan_of_nothing(s: Seq<u8>)
    ensures
        s.len() == 0 ==> scan_records(s) == Seq::<KvWalRecordView>::empty(),
{
    reveal(parse_record);
}

/// All the records of a log.
pub fn scan_kv_collect(wal: &[u8]) -> (r: Vec<KvWalRecord>)
    ensures
        record_views(r@) == scan_records(wal@),
        forall|i: int| 0 <= i < r@.len() ==> (#[trigger] r@[i])@.valid(),
{
    assert(wal@.skip(0) =~= wal@);
    scan_kv(wal, 0).0
}

/// The bytes by which a batch of records is appended to the log.
pub fn serialize_batch(recs: &Vec<KvWalRecord>) -> (r: Vec<u8>)
    ensures
        r@ == log_bytes(record_views(recs@)),
{
    let mut buf: Vec<u8> = Vec::new();
    let ghost views = record_views(recs@);
    let mut i: usize = 0;
    assert(views.skip(0) =~= views);
    assert(buf@ + log_bytes(views.skip(0)) =~= log_bytes(views));
    while i < recs.len()
        invariant
            i <= recs@.len(),
            views == record_views(recs@),
            buf@ + log_bytes(views.skip(i as int)) == log_bytes(views),
        decreases recs@.len() - i,
    {
        let data = recs[i].serialize();
        let ghost before = buf@;
        push_bytes(&mut buf, &data);
        proof {
            assert(views.skip(i as int).skip(1) =~= views.skip(i + 1));
            assert(views.skip(i as int)[0] == recs@[i as int]@);
            assert(before + (data@ + log_bytes(views.skip(i + 1))) =~= (before + data@)
                + log_bytes(views.skip(i + 1)));
        }
        i = i + 1;
    }
    assert(views.skip(i as int) =~= Seq::empty());
    assert(buf@ + log_bytes(views.skip(i as int)) =~= buf@);
    buf
}

// ── What the format promises ──────────────────────────────────────

/// The parts of a header, read back.
proof fn lemma_header(rec: KvWalRecordView, rest: Seq<u8>)
    ensures
        header_bytes(rec.flags, rec.key_offset, rec.mod_rev_offset, rec.rec_len).len() == 9,
        ({
            let s = header_bytes(rec.flags, rec.key_offset, rec.mod_rev_offset, rec.rec_len)
                + rest;
            &&& s[0] == rec.flags
            &&& le_value(s.subrange(1, 3)) == rec.key_offset
            &&& le_value(s.subrange(3, 5)) == rec.mod_rev_offset
            &&& le_value(s.subrange(5, 9)) == rec.rec_len
        }),
{
    lemma_pow256_values();
    lemma_le_roundtrip(rec.key_offset as nat, 2);
    lemma_le_roundtrip(rec.mod_rev_offset as nat, 2);
    lemma_le_roundtrip(rec.rec_len as nat, 4);
    let s = header_bytes(rec.flags, rec.key_offset, rec.mod_rev_offset, rec.rec_len) + rest;
    assert(s.subrange(1, 3) =~= le_bytes(rec.key_offset as nat, 2));
    assert(s.subrange(3, 5) =~= le_bytes(rec.mod_rev_offset as nat, 2));
    assert(s.subrange(5, 9) =~= le_bytes(rec.rec_len as nat, 4));
}

/// A valid record takes as many bytes as it says.
pub proof fn lemma_record_len(rec: KvWalRecordView)
    ensures
        rec.body().len() == 9 + rec.kv_bytes.len(),
        rec.bytes().len() == 13 + rec.kv_bytes.len(),
{
    reveal(KvWalRecordView::bytes);
    lemma_header(rec, Seq::empty());
    lemma_le_bytes_len(rec.crc as nat, 4);
}

/// A record that was read from bytes is valid, and its bytes are what it was read from.
pub proof fn lemma_parsed_is_valid(data: Seq<u8>)
    ensures
        parse_record(data) matches Ok(rec) ==> rec.valid() && 13 <= rec.rec_len <= data.len(),
        parse_record(data) matches Ok(rec) ==> rec.bytes() == data.take(rec.rec_len as int),
{
    reveal(parse_record);
    reveal(KvWalRecordView::bytes);
    if let Ok(rec) = parse_record(data) {
        lemma_pow256_values();
        lemma_le_value_bound(data.subrange(1, 3));
        lemma_le_value_bound(data.subrange(3, 5));
        lemma_le_value_bound(data.subrange(5, 9));
        let n = rec.rec_len as int;
        lemma_le_value_bound(data.subrange(n - 4, n));
        assert(rec.body() =~= data.take(n - 4));
        assert(rec.bytes() =~= data.take(n));
    }
}

/// Reading back a written record gives the record, whatever follows it.
pub proof fn law_record_roundtrip(rec: KvWalRecordView, rest: Seq<u8>)
    requires
        rec.valid(),
    ensures
        parse_record(rec.bytes() + rest) == Ok::<KvWalRecordView, WalError>(rec),
        rec.bytes().len() == rec.rec_len,
{
    reveal(parse_record);
    reveal(KvWalRecordView::bytes);
    let data = rec.bytes() + rest;
    let n = rec.rec_len as int;
    lemma_record_len(rec);
    lemma_pow256_values();
    lemma_le_roundtrip(rec.crc as nat, 4);
    let tail = rec.kv_bytes + le_bytes(rec.crc as nat, 4) + rest;
    assert(data =~= header_bytes(rec.flags, rec.key_offset, rec.mod_rev_offset, rec.rec_len)
        + tail);
    lemma_header(rec, tail);
    assert(data.subrange(9, n - 4) =~= rec.kv_bytes);
    assert(data.subrange(n - 4, n) =~= le_bytes(rec.crc as nat, 4));
    assert(data.take(n - 4) =~= rec.body());
}

/// Why bytes are not read as a record: there are too few for any; their length field is too small
/// for any, or reaches past them; the checksum at its end does not belong to what is before it; or
/// an offset reaches past the message. Else they are.
pub proof fn law_record_is_refused(data: Seq<u8>)
    ensures
        ({
            let n = le_value(data.subrange(5, 9)) as int;
            let crc = le_value(data.subrange(n - 4, n));
            let r = parse_record(data);
            &&& data.len() < 13 <==> r == Err::<KvWalRecordView, WalError>(
                WalError::RecordTooShort,
            )
            &&& data.len() >= 13 && n < 13 <==> r == Err::<KvWalRecordView, WalError>(
                WalError::RecLenTooSmall,
            )
            &&& data.len() >= 13 && n > data.len() <==> r == Err::<KvWalRecordView, WalError>(
                WalError::RecordPastBuffer,
            )
            &&& 13 <= n <= data.len() ==> {
                &&& crc32c_of(data.take(n - 4)) != crc <==> r == Err::<KvWalRecordView, WalError>(
                    WalError::CrcMismatch,
                )
                &&& crc32c_of(data.take(n - 4)) == crc && (le_value(data.subrange(1, 3)) >= n - 13
                    || le_value(data.subrange(3, 5)) + 10 > n - 13) <==> r == Err::<
                    KvWalRecordView,
                    WalError,
                >(WalError::OffsetOutOfBounds)
                &&& crc32c_of(data.take(n - 4)) == crc && le_value(data.subrange(1, 3)) < n - 13
                    && le_value(data.subrange(3, 5)) + 10 <= n - 13 <==> r is Ok
            }
        }),
{
    reveal(parse_record);
    if data.len() >= 13 {
        let n = le_value(data.subrange(5, 9)) as int;
        lemma_pow256_values();
        lemma_le_value_bound(data.subrange(1, 3));
        lemma_le_value_bound(data.subrange(3, 5));
        lemma_le_value_bound(data.subrange(5, 9));
        if 13 <= n <= data.len() {
            lemma_le_value_bound(data.subrange(n - 4, n));
        }
    }
}

/// A record of which only a part was written is not read.
pub proof fn law_torn_record(rec: KvWalRecordView, n: int)
    requires
        rec.valid(),
        0 <= n < rec.bytes().len(),
    ensures
        n < 13 ==> parse_record(rec.bytes().take(n)) == Err::<KvWalRecordView, WalError>(
            WalError::RecordTooShort,
        ),
        n >= 13 ==> parse_record(rec.bytes().take(n)) == Err::<KvWalRecordView, WalError>(
            WalError::RecordPastBuffer,
        ),
{
    reveal(parse_record);
    reveal(KvWalRecordView::bytes);
    lemma_record_len(rec);
    if n >= 13 {
        let data = rec.bytes().take(n);
        let tail = data.skip(9);
        assert(data =~= header_bytes(rec.flags, rec.key_offset, rec.mod_rev_offset, rec.rec_len)
            + tail) by {
            assert(rec.bytes().take(9) =~= header_bytes(
                rec.flags,
                rec.key_offset,
                rec.mod_rev_offset,
                rec.rec_len,
            )) by {
                lemma_header(rec, Seq::empty());
            }
        }
        lemma_header(rec, tail);
    }
}

/// A record in which one byte has changed, in what the checksum covers or in the checksum, is
/// refused as corrupt, unless the byte belongs to the length.
pub proof fn law_changed_byte_is_seen(rec: KvWalRecordView, i: int, x: u8, rest: Seq<u8>)
    requires
        rec.valid(),
        0 <= i < rec.bytes().len(),
        !(5 <= i < 9),
        rec.bytes()[i] != x,
    ensures
        parse_record(rec.bytes().update(i, x) + rest) == Err::<KvWalRecordView, WalError>(
            WalError::CrcMismatch,
        ),
{
    reveal(parse_record);
    reveal(KvWalRecordView::bytes);
    let data = rec.bytes() + rest;
    let bad = rec.bytes().update(i, x) + rest;
    let n = rec.rec_len as int;
    lemma_record_len(rec);
    lemma_pow256_values();
    lemma_le_roundtrip(rec.crc as nat, 4);
    let tail = rec.kv_bytes + le_bytes(rec.crc as nat, 4) + rest;
    assert(data =~= header_bytes(rec.flags, rec.key_offset, rec.mod_rev_offset, rec.rec_len)
        + tail);
    lemma_header(rec, tail);
    assert(bad.subrange(5, 9) =~= data.subrange(5, 9));
    if i < n - 4 {
        assert(bad.subrange(n - 4, n) =~= le_bytes(rec.crc as nat, 4));
        assert(bad.take(n - 4) =~= rec.body().update(i, x));
        assert(rec.body()[i] == rec.bytes()[i]);
        law_crc_sees_a_changed_byte(rec.body(), i, x);
    } else {
        let digits = le_bytes(rec.crc as nat, 4);
        let other = bad.subrange(n - 4, n);
        assert(bad.take(n - 4) =~= rec.body());
        assert(digits[i - (n - 4)] == rec.bytes()[i]);
        assert(other[i - (n - 4)] == x);
        lemma_le_value_bound(other);
    }
}

/// The offsets of a new record fit in their two bytes, and its length in four.
pub open spec fn record_fits(
    key: Seq<u8>,
    value: Seq<u8>,
    create_revision: i64,
    mod_revision: i64,
    version: i64,
    lease: i64,
) -> bool {
    &&& mod_revision_position(key, create_revision) < 0x1_0000
    &&& kv_message(key, value, create_revision, mod_revision, version, lease).len() + 13
        < 0x1_0000_0000
}

/// The lengths of the parts of a message.
pub proof fn lemma_kv_message_len(
    key: Seq<u8>,
    value: Seq<u8>,
    create_revision: i64,
    mod_revision: i64,
    version: i64,
    lease: i64,
)
    ensures
        key_field(key).len() == 6 + key.len(),
        2 <= int_field(0x10, create_revision).len() <= 11,
        mod_revision_field(mod_revision).len() == 11,
        2 <= int_field(0x20, version).len() <= 11,
        value_field(value).len() == 6 + value.len(),
        2 <= int_field(0x30, lease).len() <= 11,
        mod_revision_position(key, create_revision) + 10 <= kv_message(
            key,
            value,
            create_revision,
            mod_revision,
            version,
            lease,
        ).len(),
{
    reveal(kv_message);
    lemma_pow128_values();
    lemma_overlong(key.len() % 0x1_0000_0000, 5, Seq::empty(), 5);
    lemma_overlong(value.len() % 0x1_0000_0000, 5, Seq::empty(), 5);
    lemma_overlong(mod_revision as u64 as nat, 10, Seq::empty(), 10);
    law_varint_roundtrip(create_revision as u64, Seq::empty());
    law_varint_roundtrip(version as u64, Seq::empty());
    law_varint_roundtrip(lease as u64, Seq::empty());
}

/// The key and the revision of a message are found where they begin, whatever the rest holds.
pub proof fn law_message_offsets(
    key: Seq<u8>,
    value: Seq<u8>,
    create_revision: i64,
    mod_revision: i64,
    version: i64,
    lease: i64,
)
    requires
        key.len() < 0x1_0000_0000,
    ensures
        ({
            let kv = kv_message(key, value, create_revision, mod_revision, version, lease);
            let at = mod_revision_position(key, create_revision);
            &&& key_read(kv, key_position()) == Some(key)
            &&& mod_revision_read(kv, at) == Some(mod_revision)
        }),
{
    reveal(kv_message);
    let kv = kv_message(key, value, create_revision, mod_revision, version, lease);
    let at = mod_revision_position(key, create_revision);
    lemma_kv_message_len(key, value, create_revision, mod_revision, version, lease);
    lemma_pow128_values();
    let after_key = int_field(0x10, create_revision) + (mod_revision_field(mod_revision) + (
    int_field(0x20, version) + (value_field(value) + int_field(0x30, lease))));
    let digits = overlong(key.len(), 5);
    lemma_overlong(key.len(), 5, Seq::empty(), 5);
    assert(kv.skip(1) =~= digits + (key + after_key));
    law_overlong_is_a_varint(key.len() as u64, 5, key + after_key);
    assert(kv.subrange(6, (6 + key.len()) as int) =~= key);

    let rev_digits = overlong(mod_revision as u64 as nat, 10);
    lemma_overlong(mod_revision as u64 as nat, 10, Seq::empty(), 10);
    assert(kv.subrange(at as int, (at + 10) as int) =~= rev_digits);
    assert((mod_revision as u64) as i64 == mod_revision) by (bit_vector);
}

proof fn lemma_record_around(flags: u8, kv: Seq<u8>, key_offset: u16, mod_rev_offset: u16)
    requires
        key_offset < kv.len(),
        mod_rev_offset + 10 <= kv.len(),
        kv.len() + 13 < 0x1_0000_0000,
    ensures
        record_around(flags, kv, key_offset, mod_rev_offset).valid(),
{
}

/// A new record can be read back, with its key and its revision.
pub proof fn law_new_record(
    flags: u8,
    key: Seq<u8>,
    value: Seq<u8>,
    create_revision: i64,
    mod_revision: i64,
    version: i64,
    lease: i64,
)
    requires
        record_fits(key, value, create_revision, mod_revision, version, lease),
    ensures
        ({
            let rec = new_record(
                flags,
                key,
                value,
                create_revision,
                mod_revision,
                version,
                lease,
            );
            &&& rec.valid()
            &&& rec.key() == Some(key)
            &&& rec.mod_revision() == Some(mod_revision)
        }),
{
    let kv = kv_message(key, value, create_revision, mod_revision, version, lease);
    let at = mod_revision_position(key, create_revision);
    assert(at + 10 <= kv.len() && key.len() < 0x1_0000 && at > 1) by {
        lemma_kv_message_len(key, value, create_revision, mod_revision, version, lease);
    }
    law_message_offsets(key, value, create_revision, mod_revision, version, lease);
    lemma_record_around(flags, kv, 1, at as u16);
}

// ── What a scan promises ──────────────────────────────────────────

/// Every record is one that a reader accepts.
pub open spec fn all_valid(recs: Seq<KvWalRecordView>) -> bool {
    forall|i: int| 0 <= i < recs.len() ==> (#[trigger] recs[i]).valid()
}

/// Scanning what was written gives the records in order, and then what a scan of the rest
/// gives.
pub proof fn law_scan_of_log(recs: Seq<KvWalRecordView>, rest: Seq<u8>)
    requires
        all_valid(recs),
    ensures
        scan_records(log_bytes(recs) + rest) == recs + scan_records(rest),
    decreases recs.len(),
{
    if recs.len() == 0 {
        assert(log_bytes(recs) + rest =~= rest);
        assert(recs + scan_records(rest) =~= scan_records(rest));
    } else {
        let tail = log_bytes(recs.skip(1)) + rest;
        assert(log_bytes(recs) + rest =~= recs[0].bytes() + tail);
        law_record_roundtrip(recs[0], tail);
        assert((recs[0].bytes() + tail).skip(recs[0].rec_len as int) =~= tail);
        assert forall|i: int| 0 <= i < recs.skip(1).len() implies (#[trigger] recs.skip(
            1,
        )[i]).valid() by {
            assert(recs.skip(1)[i] == recs[i + 1]);
        }
        law_scan_of_log(recs.skip(1), rest);
        assert(seq![recs[0]] + (recs.skip(1) + scan_records(rest)) =~= recs + scan_records(rest));
    }
}

/// A scan from where some records end finds those behind them, and one from the end of the log or
/// from further on finds none.
pub proof fn law_scan_from_an_offset(
    recs: Seq<KvWalRecordView>,
    more: Seq<KvWalRecordView>,
    past: u64,
)
    requires
        all_valid(recs),
        all_valid(more),
        log_bytes(recs).len() <= u64::MAX,
        past >= log_bytes(recs).len() + log_bytes(more).len(),
    ensures
        ({
            let wal = log_bytes(recs) + log_bytes(more);
            &&& scan_records(from_offset(wal, log_bytes(recs).len() as u64)) == more
            &&& scan_records(from_offset(wal, past)).len() == 0
            &&& scan_records(from_offset(wal, 0)) == recs + more
        }),
{
    let wal = log_bytes(recs) + log_bytes(more);
    assert(wal.skip(log_bytes(recs).len() as int) =~= log_bytes(more));
    assert(wal.skip(0) =~= wal);
    law_scan_of_log(more, Seq::empty());
    assert(log_bytes(more) + Seq::<u8>::empty() =~= log_bytes(more));
    lemma_scan_of_nothing(Seq::empty());
    assert(more + Seq::<KvWalRecordView>::empty() =~= more);
    law_scan_of_log(recs, log_bytes(more));
    let rest = from_offset(wal, past);
    assert(rest =~= Seq::empty());
}

/// A log whose last record was cut short scans as the log without it.
pub proof fn law_scan_drops_torn_tail(recs: Seq<KvWalRecordView>, last: KvWalRecordView, n: int)
    requires
        all_valid(recs),
        last.valid(),
        0 <= n < last.bytes().len(),
    ensures
        scan_records(log_bytes(recs) + last.bytes().take(n)) == recs,
{
    law_torn_record(last, n);
    law_scan_of_log(recs, last.bytes().take(n));
    assert(recs + Seq::<KvWalRecordView>::empty() =~= recs);
}

/// Appending records appends their bytes.
pub proof fn lemma_log_bytes_concat(a: Seq<KvWalRecordView>, b: Seq<KvWalRecordView>)
    ensures
        log_bytes(a + b) == log_bytes(a) + log_bytes(b),
    decreases a.len(),
{
    if a.len() == 0 {
        assert(a + b =~= b);
        assert(log_bytes(a) + log_bytes(b) =~= log_bytes(b));
    } else {
        assert((a + b).skip(1) =~= a.skip(1) + b);
        lemma_log_bytes_concat(a.skip(1), b);
        assert(a[0].bytes() + (log_bytes(a.skip(1)) + log_bytes(b)) =~= (a[0].bytes() + log_bytes(
            a.skip(1),
        )) + log_bytes(b));
    }
}

/// A log to which records have been appended one by one.
pub open spec fn appended(log: Seq<u8>, recs: Seq<KvWalRecordView>) -> Seq<u8>
    decreases recs.len(),
{
    if recs.len() == 0 {
        log
    } else {
        appended(log, recs.drop_last()) + recs.last().bytes()
    }
}

/// Appending the bytes of a batch leaves the log that appending its records one by one leaves.
pub proof fn law_batch_is_each_in_turn(log: Seq<u8>, recs: Seq<KvWalRecordView>)
    ensures
        log + log_bytes(recs) == appended(log, recs),
    decreases recs.len(),
{
    if recs.len() == 0 {
        assert(log + log_bytes(recs) =~= log);
    } else {
        let front = recs.drop_last();
        let last = seq![recs.last()];
        law_batch_is_each_in_turn(log, front);
        assert(recs =~= front + last);
        lemma_log_bytes_concat(front, last);
        assert(last.skip(1) =~= Seq::empty());
        assert(log_bytes(last.skip(1)) =~= Seq::empty());
        assert(log_bytes(last) =~= recs.last().bytes());
        assert(log + (log_bytes(front) + log_bytes(last)) =~= (log + log_bytes(front)) + log_bytes(
            last,
        ));
    }
}

/// A scan finds the records of the longest part at the start of a log that splits into records:
/// each of them is valid, their bytes begin the log, and what follows cannot be read.
pub proof fn law_scan_is_longest_part(s: Seq<u8>)
    ensures
        all_valid(scan_records(s)),
        log_bytes(scan_records(s)).is_prefix_of(s),
        parse_record(s.skip(log_bytes(scan_records(s)).len() as int)) is Err,
    decreases s.len(),
{
    match parse_record(s) {
        Err(_) => {
            assert(log_bytes(scan_records(s)) =~= s.subrange(0, 0));
            assert(s.skip(0) =~= s);
        },
        Ok(rec) => {
            lemma_parsed_is_valid(s);
            let t = s.skip(rec.rec_len as int);
            law_scan_is_longest_part(t);
            let recs = scan_records(s);
            assert(recs.skip(1) =~= scan_records(t));
            assert forall|i: int| 0 <= i < recs.len() implies (#[trigger] recs[i]).valid() by {
                if i > 0 {
                    assert(recs[i] == scan_records(t)[i - 1]);
                }
            }
            assert(s =~= rec.bytes() + t);
            let l = log_bytes(scan_records(t));
            assert(log_bytes(recs) =~= rec.bytes() + l);
            assert(log_bytes(recs) =~= s.subrange(0, log_bytes(recs).len() as int)) by {
                assert(l =~= t.subrange(0, l.len() as int));
            }
            assert(s.skip(log_bytes(recs).len() as int) =~= t.skip(l.len() as int));
        },
    }
}

} // verus!
