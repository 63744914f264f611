use rudurru::storage::key_value::KeyValue;
use rudurru::storage::log::{scan_kv, scan_kv_collect, serialize_batch};
use rudurru::storage::recovery::count_wal_records;
use rudurru::storage::wal::{
    crc32c, decode_overlong_u32, decode_overlong_u64, decode_varint, encode_kv,
    encode_overlong_u32, encode_overlong_u64, encode_varint, read_key_from_kv,
    read_mod_revision_from_kv, ErrorKind, KvWalRecord, WalError, WalRecord, DELETED, HAS_LEASE,
    IS_CREATE, KV_CRC_SIZE, KV_HEADER_SIZE, MAGIC,
};

#[test]
fn test_overlong_u32_roundtrip() {
    let cases = [
        0u32,
        1,
        127,
        128,
        255,
        65535,
        1 << 20,
        (1 << 28) - 1,
        12345678,
        0xDEADBEAF,
    ];
    for &v in &cases {
        let enc = encode_overlong_u32(v);
        let dec = decode_overlong_u32(&enc).unwrap();
        assert_eq!(v, dec, "u32 roundtrip failed for {v}");
    }
}

#[test]
fn test_overlong_u32_short_buffer() {
    assert!(decode_overlong_u32(&[0; 3]).is_none());
    assert!(decode_overlong_u32(&[]).is_none());
}

#[test]
fn test_overlong_u32_prost_compatible() {
    let enc = encode_overlong_u32(42);
    let (dec, consumed) = decode_varint(&enc).unwrap();
    assert_eq!(dec, 42);
    assert_eq!(consumed, 5, "standard decoder consumed all 5 bytes");
}

#[test]
fn test_overlong_u64_roundtrip() {
    let cases = [
        0u64,
        1,
        127,
        128,
        65535,
        1 << 32,
        (1 << 56) - 1,
        12345678901234567890,
    ];
    for &v in &cases {
        let enc = encode_overlong_u64(v);
        let dec = decode_overlong_u64(&enc).unwrap();
        assert_eq!(v, dec, "u64 roundtrip failed for {v}");
    }
}

#[test]
fn test_overlong_u64_short_buffer() {
    assert!(decode_overlong_u64(&[0; 7]).is_none());
    assert!(decode_overlong_u64(&[]).is_none());
}

#[test]
fn test_standard_varint_roundtrip() {
    let cases = [0u64, 1, 127, 128, 255, 65535, 1 << 32, u64::MAX];
    for &v in &cases {
        let enc = encode_varint(v);
        let (dec, consumed) = decode_varint(&enc).unwrap();
        assert_eq!(v, dec, "varint roundtrip failed for {v}");
        assert_eq!(consumed, enc.len());
    }
}

#[test]
fn test_standard_varint_decode_overlong() {
    let enc = encode_overlong_u32(42);
    let (dec, consumed) = decode_varint(&enc).unwrap();
    assert_eq!(dec, 42);
    assert_eq!(consumed, 5);
}

#[test]
fn varints_have_their_exact_bytes() {
    assert_eq!(encode_overlong_u32(300), [0xAC, 0x82, 0x80, 0x80, 0x00]);
    assert_eq!(encode_overlong_u32(u32::MAX), [0xFF, 0xFF, 0xFF, 0xFF, 0x0F]);
    assert_eq!(
        encode_overlong_u64(u64::MAX),
        [0xFF, 0xFF, 0xFF, 0xFF, 0xFF, 0xFF, 0xFF, 0xFF, 0xFF, 0x01]
    );
    assert_eq!(encode_varint(300), vec![0xAC, 0x02]);
    assert_eq!(encode_varint(0), vec![0]);
    assert_eq!(decode_overlong_u32(&[0xFF; 5]), Some(u32::MAX));
    assert_eq!(decode_overlong_u64(&[0xFF; 10]), Some(u64::MAX));
}

#[test]
fn varints_that_do_not_end_are_refused() {
    assert_eq!(decode_varint(&[]), None);
    assert_eq!(decode_varint(&[0x80]), None);
    assert_eq!(decode_varint(&[0x80; 10]), None);
    assert_eq!(decode_varint(&[0x80; 11]), None);
    let mut last = vec![0x80u8; 9];
    last.push(0x01);
    assert_eq!(decode_varint(&last), Some((1 << 63, 10)));
}

#[test]
fn test_encode_kv_roundtrip() {
    let key = b"test_key";
    let value = b"test_value";
    let (kv_bytes, key_ofs, rev_ofs) = encode_kv(key, value, 1, 100, 5, 999);

    let decoded = KeyValue::decode(&kv_bytes[..]).unwrap();
    assert_eq!(decoded.key, key);
    assert_eq!(decoded.value, value);
    assert_eq!(decoded.create_revision, 1);
    assert_eq!(decoded.mod_revision, 100);
    assert_eq!(decoded.version, 5);
    assert_eq!(decoded.lease, 999);

    let read_key = read_key_from_kv(&kv_bytes, key_ofs).unwrap();
    assert_eq!(read_key, key);
    let read_rev = read_mod_revision_from_kv(&kv_bytes, rev_ofs).unwrap();
    assert_eq!(read_rev, 100);
}

#[test]
fn test_encode_kv_empty_values() {
    let (kv_bytes, key_ofs, rev_ofs) = encode_kv(b"k", b"", 1, 2, 3, 0);
    let decoded = KeyValue::decode(&kv_bytes[..]).unwrap();
    assert_eq!(decoded.key, b"k");
    assert_eq!(decoded.value, b"");
    assert_eq!(decoded.lease, 0);

    let read_key = read_key_from_kv(&kv_bytes, key_ofs).unwrap();
    assert_eq!(read_key, b"k");
    let read_rev = read_mod_revision_from_kv(&kv_bytes, rev_ofs).unwrap();
    assert_eq!(read_rev, 2);
}

#[test]
fn test_encode_kv_large_values() {
    let key = vec![0xABu8; 1000];
    let value = vec![0xCDu8; 65535];
    let (kv_bytes, key_ofs, rev_ofs) = encode_kv(&key, &value, 1, 2, 3, 0);

    let decoded = KeyValue::decode(&kv_bytes[..]).unwrap();
    assert_eq!(decoded.key.len(), 1000);
    assert_eq!(decoded.value.len(), 65535);

    let read_key = read_key_from_kv(&kv_bytes, key_ofs).unwrap();
    assert_eq!(read_key.len(), 1000);
    let read_rev = read_mod_revision_from_kv(&kv_bytes, rev_ofs).unwrap();
    assert_eq!(read_rev, 2);
}

#[test]
fn a_message_has_its_exact_bytes() {
    let (kv_bytes, key_ofs, rev_ofs) = encode_kv(b"k", b"v", 3, 4, 5, 6);
    let mut expected = vec![0x0a, 0x81, 0x80, 0x80, 0x80, 0x00, b'k', 0x10, 3, 0x18, 0x84];
    expected.extend_from_slice(&[0x80, 0x80, 0x80, 0x80, 0x80, 0x80, 0x80, 0x80, 0x00]);
    expected.extend_from_slice(&[0x20, 5, 0x2a, 0x81, 0x80, 0x80, 0x80, 0x00, b'v', 0x30, 6]);
    assert_eq!(kv_bytes, expected);
    assert_eq!(key_ofs, 1);
    assert_eq!(rev_ofs, 10);
}

#[test]
fn the_length_of_a_value_takes_five_bytes() {
    for len in [0, 1, 127, 128, 65535] {
        let value = vec![7u8; len];
        let (kv_bytes, _, _) = encode_kv(b"k", &value, 3, 4, 5, 0);
        let at = kv_bytes.iter().position(|b| *b == 0x2a).unwrap();
        assert_eq!(kv_bytes[at + 1..at + 6], encode_overlong_u32(len as u32));
        assert_eq!(kv_bytes[at + 6..at + 6 + len], value);
        assert_eq!(kv_bytes.len(), at + 6 + len + 2);
        assert_eq!(KeyValue::decode(&kv_bytes).unwrap().value, value);
    }
}

#[test]
fn test_read_key_invalid_offsets() {
    let (kv_bytes, _, _) = encode_kv(b"key", b"val", 1, 2, 3, 0);
    assert!(read_key_from_kv(&kv_bytes, 9999).is_none());
    assert!(read_mod_revision_from_kv(&kv_bytes, 9999).is_none());
}

#[test]
fn a_key_longer_than_its_message_is_not_read() {
    assert!(read_key_from_kv(&[0x05, b'a'], 0).is_none());
    let mut huge = encode_varint(u64::MAX);
    huge.push(b'a');
    assert!(read_key_from_kv(&huge, 0).is_none());
}

#[test]
fn test_kvwal_record_roundtrip() {
    let rec = KvWalRecord::new(IS_CREATE, b"my_key", b"my_value", 1, 42, 5, 0);

    let serialized = rec.serialize();
    let (deserialized, consumed) = KvWalRecord::deserialize(&serialized).unwrap();
    assert_eq!(consumed, serialized.len());
    assert_eq!(deserialized.flags, IS_CREATE);
    assert_eq!(deserialized.key(), Some(&b"my_key"[..]));
    assert_eq!(deserialized.mod_revision(), Some(42));
    assert_eq!(deserialized.kv_bytes, rec.kv_bytes);
    assert_eq!(deserialized.crc, rec.crc);
}

#[test]
fn test_kvwal_record_with_lease() {
    let rec = KvWalRecord::new(
        IS_CREATE | HAS_LEASE,
        b"lease_key",
        b"lease_val",
        10,
        20,
        1,
        777,
    );

    let serialized = rec.serialize();
    let (deserialized, _) = KvWalRecord::deserialize(&serialized).unwrap();
    assert_eq!(deserialized.flags, IS_CREATE | HAS_LEASE);
    assert_eq!(deserialized.key(), Some(&b"lease_key"[..]));
    assert_eq!(deserialized.mod_revision(), Some(20));
}

#[test]
fn test_kvwal_record_deleted() {
    let rec = KvWalRecord::new(DELETED, b"del_key", b"", 5, 6, 1, 0);

    let serialized = rec.serialize();
    let (deserialized, _) = KvWalRecord::deserialize(&serialized).unwrap();
    assert_eq!(deserialized.flags, DELETED);
    assert_eq!(deserialized.key(), Some(&b"del_key"[..]));
    assert_eq!(deserialized.mod_revision(), Some(6));
}

#[test]
fn test_kvwal_record_crc_corruption() {
    let rec = KvWalRecord::new(IS_CREATE, b"key", b"value", 1, 2, 3, 0);
    let mut serialized = rec.serialize();
    serialized[KV_HEADER_SIZE + 2] ^= 0xFF;

    match KvWalRecord::deserialize(&serialized) {
        Ok(_) => panic!("expected CRC mismatch error"),
        Err(e) => assert!(e.message().contains("CRC"), "unexpected error: {e:?}"),
    }
}

#[test]
fn test_kvwal_record_empty() {
    let rec = KvWalRecord::new(IS_CREATE, b"", b"", 0, 0, 0, 0);
    let serialized = rec.serialize();
    let (deserialized, _) = KvWalRecord::deserialize(&serialized).unwrap();
    assert_eq!(deserialized.key(), Some(&b""[..]));
    assert_eq!(deserialized.mod_revision(), Some(0));
}

#[test]
fn test_kvwal_record_large_key_value() {
    let key = vec![0x42u8; 5000];
    let value = vec![0x99u8; 100000];
    let rec = KvWalRecord::new(IS_CREATE, &key, &value, 1, 999999, 42, 0);

    let serialized = rec.serialize();
    let (deserialized, consumed) = KvWalRecord::deserialize(&serialized).unwrap();
    assert_eq!(consumed, serialized.len());
    assert_eq!(deserialized.key(), Some(&key[..]));
    assert_eq!(deserialized.mod_revision(), Some(999999));
}

#[test]
fn test_walfile_append_scan_kv() {
    let mut wal = Vec::new();
    let rec1 = KvWalRecord::new(IS_CREATE, b"alpha", b"a", 1, 10, 1, 0);
    let rec2 = KvWalRecord::new(IS_CREATE, b"beta", b"b", 2, 20, 2, 0);
    let rec3 = KvWalRecord::new(DELETED, b"gamma", b"", 3, 30, 1, 0);
    wal.extend(rec1.serialize());
    wal.extend(rec2.serialize());
    wal.extend(rec3.serialize());

    let records = scan_kv_collect(&wal);
    assert_eq!(records.len(), 3);
    assert_eq!(records[0].key(), Some(&b"alpha"[..]));
    assert_eq!(records[0].mod_revision(), Some(10));
    assert_eq!(records[1].key(), Some(&b"beta"[..]));
    assert_eq!(records[1].mod_revision(), Some(20));
    assert_eq!(records[2].flags, DELETED);
    assert_eq!(records[2].key(), Some(&b"gamma"[..]));
}

#[test]
fn test_walfile_append_kv_batch() {
    let recs = vec![
        KvWalRecord::new(IS_CREATE, b"a", b"1", 1, 1, 1, 0),
        KvWalRecord::new(IS_CREATE, b"b", b"2", 2, 2, 2, 0),
    ];
    let wal = serialize_batch(&recs);
    let records = scan_kv_collect(&wal);
    assert_eq!(records.len(), 2);
}

#[test]
fn test_walfile_scan_kv_empty() {
    let records = scan_kv_collect(&[]);
    assert!(records.is_empty());
}

#[test]
fn test_walfile_scan_kv_partial_corruption() {
    let mut wal = Vec::new();
    let rec1 = KvWalRecord::new(IS_CREATE, b"good", b"data", 1, 1, 1, 0);
    wal.extend(rec1.serialize());
    wal.extend_from_slice(b"GARBAGE_DATA_THAT_IS_NOT_A_VALID_RECORD");
    let rec2 = KvWalRecord::new(IS_CREATE, b"after", b"garbage", 2, 2, 2, 0);
    wal.extend(rec2.serialize());

    let records = scan_kv_collect(&wal);
    assert_eq!(records.len(), 1);
    assert_eq!(records[0].key(), Some(&b"good"[..]));
}

#[test]
fn test_walfile_scan_kv_skip_offset() {
    let mut wal = Vec::new();
    let rec1 = KvWalRecord::new(IS_CREATE, b"first", b"1", 1, 1, 1, 0);
    let rec2 = KvWalRecord::new(IS_CREATE, b"second", b"2", 2, 2, 2, 0);
    wal.extend(rec1.serialize());
    wal.extend(rec2.serialize());

    let all = scan_kv_collect(&wal);
    let rec1_size = all[0].rec_len;
    assert_eq!(all.len(), 2);

    let (records, _) = scan_kv(&wal, rec1_size as u64);
    assert_eq!(records.len(), 1);
    assert_eq!(records[0].key(), Some(&b"second"[..]));
}

#[test]
fn a_scan_past_the_end_finds_nothing() {
    let wal = KvWalRecord::new(IS_CREATE, b"k", b"v", 1, 1, 1, 0).serialize();
    assert!(scan_kv(&wal, wal.len() as u64).0.is_empty());
    assert!(scan_kv(&wal, u64::MAX).0.is_empty());
}

#[test]
fn a_scan_tells_where_the_bytes_end() {
    let mut wal = KvWalRecord::new(IS_CREATE, b"k", b"v", 1, 1, 1, 0).serialize();
    let n = wal.len() as u64;
    assert_eq!(scan_kv(&wal, 0).1, n);
    assert_eq!(scan_kv(&wal, n).1, n);
    assert_eq!(scan_kv(&wal, n + 7).1, n + 7);
    wal.extend_from_slice(b"GARBAGE_DATA_THAT_IS_NOT_A_VALID_RECORD");
    let (records, end) = scan_kv(&wal, 0);
    assert_eq!(records.len(), 1);
    assert_eq!(end, wal.len() as u64);
}

#[test]
fn a_batch_is_logged_as_its_records_one_by_one() {
    let recs = vec![
        KvWalRecord::new(IS_CREATE, b"a", b"1", 1, 1, 1, 0),
        KvWalRecord::new(DELETED, b"b", b"", 2, 3, 2, 0),
    ];
    let mut wal = recs[0].serialize();
    wal.extend(recs[1].serialize());
    assert_eq!(serialize_batch(&recs), wal);
    assert!(serialize_batch(&vec![]).is_empty());
}

#[test]
fn a_torn_record_at_the_end_is_dropped() {
    let mut wal = KvWalRecord::new(IS_CREATE, b"a", b"1", 1, 1, 1, 0).serialize();
    let torn = KvWalRecord::new(IS_CREATE, b"b", b"2", 2, 2, 1, 0).serialize();
    for cut in 0..torn.len() {
        let mut log = wal.clone();
        log.extend_from_slice(&torn[..cut]);
        assert_eq!(count_wal_records(&log), 1, "cut at {cut}");
    }
    wal.extend(torn);
    assert_eq!(count_wal_records(&wal), 2);
}

#[test]
fn test_kvwal_prost_compat_all_fields() {
    let rec = KvWalRecord::new(
        IS_CREATE | HAS_LEASE,
        b"compat_key",
        b"compat_value",
        42,
        100,
        7,
        888,
    );

    let decoded = KeyValue::decode(&rec.kv_bytes[..]).unwrap();
    assert_eq!(decoded.key, b"compat_key");
    assert_eq!(decoded.value, b"compat_value");
    assert_eq!(decoded.create_revision, 42);
    assert_eq!(decoded.mod_revision, 100);
    assert_eq!(decoded.version, 7);
    assert_eq!(decoded.lease, 888);
}

#[test]
fn test_kvwal_prost_compat_max_values() {
    let rec = KvWalRecord::new(
        IS_CREATE,
        b"k",
        b"v",
        i64::MAX,
        i64::MAX,
        i64::MAX,
        i64::MAX,
    );

    let decoded = KeyValue::decode(&rec.kv_bytes[..]).unwrap();
    assert_eq!(decoded.create_revision, i64::MAX);
    assert_eq!(decoded.mod_revision, i64::MAX);
    assert_eq!(decoded.version, i64::MAX);
    assert_eq!(decoded.lease, i64::MAX);
}

#[test]
fn test_kvwal_crc_consistency() {
    let rec = KvWalRecord::new(IS_CREATE, b"crc_test", b"crc_value", 1, 2, 3, 0);
    let serialized = rec.serialize();

    let kv_end = KV_HEADER_SIZE + rec.kv_bytes.len();
    let manual_crc = crc32c(&serialized[..kv_end]);
    assert_eq!(manual_crc, rec.crc, "stored CRC doesn't match manual CRC");

    let (deserialized, _) = KvWalRecord::deserialize(&serialized).unwrap();
    assert_eq!(deserialized.crc, rec.crc);
}

#[test]
fn test_deserialize_rec_len_underflow() {
    let rec = KvWalRecord {
        flags: DELETED,
        kv_bytes: vec![0x0a, 0x01, 0x61],
        key_offset: 1,
        mod_rev_offset: 0,
        rec_len: KV_HEADER_SIZE as u32 + KV_CRC_SIZE as u32 - 1,
        crc: 0,
    };
    let serialized = rec.serialize();
    let result = KvWalRecord::deserialize(&serialized);
    assert!(result.is_err(), "should reject rec_len < min");
    let err = result.unwrap_err();
    assert_eq!(err.kind(), ErrorKind::InvalidData);
}

#[test]
fn each_error_of_a_record_has_its_input() {
    let good = KvWalRecord::new(IS_CREATE, b"key", b"value", 1, 2, 3, 0).serialize();

    let e = KvWalRecord::deserialize(&good[..12]).unwrap_err();
    assert_eq!(e, WalError::RecordTooShort);
    assert_eq!(e.kind(), ErrorKind::UnexpectedEof);
    assert_eq!(e.message(), "record too short");

    let mut small = good.clone();
    small[5..9].copy_from_slice(&12u32.to_le_bytes());
    let e = KvWalRecord::deserialize(&small).unwrap_err();
    assert_eq!(e, WalError::RecLenTooSmall);
    assert_eq!(e.message(), "rec_len too small");

    let e = KvWalRecord::deserialize(&good[..good.len() - 1]).unwrap_err();
    assert_eq!(e, WalError::RecordPastBuffer);
    assert_eq!(e.kind(), ErrorKind::UnexpectedEof);
    assert_eq!(e.message(), "record extends past buffer");

    let mut bad = good.clone();
    bad[0] ^= 0x80;
    assert_eq!(KvWalRecord::deserialize(&bad).unwrap_err(), WalError::CrcMismatch);

    let mut outside = KvWalRecord::new(IS_CREATE, b"key", b"value", 1, 2, 3, 0);
    outside.key_offset = 5000;
    let mut bytes = outside.serialize();
    let end = bytes.len() - KV_CRC_SIZE;
    let crc = crc32c(&bytes[..end]);
    bytes[end..].copy_from_slice(&crc.to_le_bytes());
    let e = KvWalRecord::deserialize(&bytes).unwrap_err();
    assert_eq!(e, WalError::OffsetOutOfBounds);
    assert_eq!(e.message(), "offset out of bounds");
}

#[test]
fn a_changed_byte_is_seen() {
    let good = KvWalRecord::new(IS_CREATE, b"key", b"value", 1, 2, 3, 0).serialize();
    for i in 0..good.len() {
        let mut bad = good.clone();
        bad[i] ^= 0x01;
        let e = KvWalRecord::deserialize(&bad).unwrap_err();
        assert!(e == WalError::CrcMismatch || (5..9).contains(&i), "byte {i}");
    }
}

#[test]
fn the_checksum_has_its_known_values() {
    assert_eq!(crc32c(b""), 0);
    assert_eq!(crc32c(b"123456789"), 0xE3069283);
    assert_eq!(crc32c(&[0u8; 32]), 0x8A9136AA);
}

#[test]
fn unknown_fields_are_passed_over() {
    let (plain, _, _) = encode_kv(b"k", b"v", 1, 2, 3, 4);

    // A varint, eight bytes, bytes behind their length, a group with a field in it, four bytes.
    let mut message = vec![0x38, 0xAC, 0x02];
    message.extend_from_slice(&[0x41, 1, 2, 3, 4, 5, 6, 7, 8]);
    message.extend_from_slice(&[0x4a, 2, 9, 9]);
    message.extend_from_slice(&[0x53, 0x08, 0x01, 0x54]);
    message.extend_from_slice(&[0x5d, 1, 2, 3, 4]);
    message.extend_from_slice(&plain);
    let kv = KeyValue::decode(&message).unwrap();
    assert_eq!(kv.key, b"k");
    assert_eq!(kv.value, b"v");
    assert_eq!(kv.lease, 4);
}

#[test]
fn groups_may_be_nested_only_so_deep() {
    for (depth, taken) in [(1, true), (100, true), (101, false)] {
        let mut message = vec![0x7b; depth];
        message.extend(vec![0x7c; depth]);
        message.extend_from_slice(&[0x10, 7]);
        let kv = KeyValue::decode(&message);
        assert_eq!(kv.is_some(), taken);
        if let Some(kv) = kv {
            assert_eq!(kv.create_revision, 7);
        }
    }
    // An end that belongs to another group.
    assert!(KeyValue::decode(&[0x7b, 0x74]).is_none());
}

#[test]
fn broken_messages_are_refused() {
    // A field key that is cut off, a field numbered zero, wire types that there are not, a group
    // that has no end, an end without a group, bytes that are cut off, a known field of another
    // wire type.
    assert!(KeyValue::decode(&[0x80]).is_none());
    assert!(KeyValue::decode(&[0x00, 0x01]).is_none());
    assert!(KeyValue::decode(&[0x3e, 0x01]).is_none());
    assert!(KeyValue::decode(&[0x3f, 0x01]).is_none());
    assert!(KeyValue::decode(&[0x53, 0x08, 0x01]).is_none());
    assert!(KeyValue::decode(&[0x54]).is_none());
    assert!(KeyValue::decode(&[0x0a, 5, b'a']).is_none());
    assert!(KeyValue::decode(&[0x08, 5]).is_none());
    assert!(KeyValue::decode(&[0x12, 1, b'a']).is_none());
    assert!(KeyValue::decode(&[0x41, 1, 2]).is_none());
    assert!(KeyValue::decode(&[0x5d, 1, 2]).is_none());
    // Eleven bits more than a number has.
    assert!(KeyValue::decode(&[0x10, 0xFF, 0xFF, 0xFF, 0xFF, 0xFF, 0xFF, 0xFF, 0xFF, 0xFF, 0x02])
        .is_none());
}

#[test]
fn the_last_field_of_a_number_counts() {
    let kv = KeyValue::decode(&[0x10, 1, 0x10, 7, 0x0a, 1, b'a', 0x0a, 2, b'b', b'c']).unwrap();
    assert_eq!(kv.create_revision, 7);
    assert_eq!(kv.key, b"bc");
    assert_eq!(kv.mod_revision, 0);
    let empty = KeyValue::decode(&[]).unwrap();
    assert_eq!(empty.key, b"");
    assert_eq!(empty.version, 0);
}

#[test]
fn negative_numbers_take_ten_bytes() {
    let (bytes, _, _) = encode_kv(b"k", b"", -1, -2, -3, -4);
    let kv = KeyValue::decode(&bytes).unwrap();
    assert_eq!(kv.create_revision, -1);
    assert_eq!(kv.mod_revision, -2);
    assert_eq!(kv.version, -3);
    assert_eq!(kv.lease, -4);
}

fn old_record(flags: u8, lease_id: Option<i64>) -> WalRecord {
    WalRecord { revision: 7, key: b"key".to_vec(), value: b"value".to_vec(), flags, lease_id }
}

#[test]
fn a_record_of_the_older_format_reads_back() {
    for (flags, lease_id) in [(IS_CREATE, None), (HAS_LEASE, Some(-5)), (DELETED, None)] {
        let rec = old_record(flags, lease_id);
        let mut bytes = rec.serialize();
        let len = bytes.len();
        bytes.extend_from_slice(b"rest");
        let (again, consumed) = WalRecord::deserialize(&bytes).unwrap();
        assert_eq!(consumed, len);
        assert_eq!(again.revision, 7);
        assert_eq!(again.key, b"key");
        assert_eq!(again.value, b"value");
        assert_eq!(again.flags, flags);
        assert_eq!(again.lease_id, lease_id);
        assert_eq!(again.serialize(), &bytes[..len]);
    }
    assert_eq!(MAGIC, 0x5255);
    let bytes = old_record(0, None).serialize();
    assert_eq!(&bytes[..10], &[0x55, 0x52, 7, 0, 0, 0, 0, 0, 0, 0]);
    assert_eq!(&bytes[14..31], b"\x03\0\0\0\x05\0\0\0\0keyvalue");
    assert_eq!(&bytes[10..14], &crc32c(&bytes[22..]).to_le_bytes());
}

#[test]
fn each_error_of_the_older_format_has_its_input() {
    let good = old_record(HAS_LEASE, Some(9)).serialize();
    let error = |bytes: &[u8]| WalRecord::deserialize(bytes).unwrap_err();
    assert_eq!(error(&good[..22]), WalError::ShortRecord);
    assert_eq!(error(&good[..22]).message(), "short record");
    let mut magic = good.clone();
    magic[0] = 0;
    assert_eq!(error(&magic), WalError::BadMagic);
    assert_eq!(error(&magic).kind(), ErrorKind::InvalidData);
    assert_eq!(error(&good[..30]), WalError::TruncatedPayload);
    assert_eq!(error(&good[..38]), WalError::TruncatedLease);
    let mut crc = good.clone();
    crc[25] ^= 1;
    assert_eq!(error(&crc), WalError::CrcMismatch);
    assert_eq!(error(&crc).message(), "CRC mismatch");
}
