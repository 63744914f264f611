//! What the tools promise of the logs that they read, and of the texts.


use crate::bytes::lex_lt;
use crate::sorted_map::{
    lemma_listed_keys, lemma_listing_exists, lemma_picked_finite, listed_keys, listing, picked,
};
use crate::storage::legacy::{
    checksum_holds, has_magic, law_legacy_roundtrip, legacy_log, legacy_scan, parse_legacy,
    record_end, LegacyScanView, WalRecordView,
};
use crate::storage::meaning::ascending;
use crate::storage::wal::KvWalRecordView;
use crate::text::{decimal_text, digit_text};
use crate::tools::inspect::{
    category_bytes, counted, first_name, first_place, inspected, name_pattern, up_to_quote,
};
use crate::tools::memory::{
    all_digits, digits_value, is_digit, is_space, kilobytes, lines_of, trimmed_end, trimmed_start,
    with_line, without_plus, without_unit, ProcMem,
};
use crate::tools::migrate::{migrated_keys, migrated_keys_step};
use crate::tools::rebuild::{last_revision, older_than, rebuilt, OldKeyStateView};
use vstd::prelude::*;

verus! {

// ── Inspecting a log ──────────────────────────────────────────────

/// Whether the key and the revision of a record can be read.
pub open spec fn readable(r: KvWalRecordView) -> bool {
    r.key() is Some && r.mod_revision() is Some
}

/// What an inspection finds of a log with one more record. Where the record can be read, its key
/// is there unless the record deletes it, last written at the revision of the record, created by it
/// if the key was not there or if the record says so, and one version further; the other keys stay.
/// Where it cannot be read, it is counted, and that is all.
pub proof fn law_inspection_follows_the_log(recs: Seq<KvWalRecordView>, other: Seq<u8>)
    requires
        recs.len() > 0,
    ensures
        ({
            let rec = recs.last();
            let a = inspected(recs.drop_last());
            let b = inspected(recs);
            let k = rec.key()->0;
            let rev = rec.mod_revision()->0;
            &&& !readable(rec) ==> b.keys == a.keys && b.kv_errors == a.kv_errors + 1
                && b.max_revision == a.max_revision
            &&& readable(rec) ==> {
                &&& b.kv_errors == a.kv_errors
                &&& b.max_revision >= rev
                &&& b.max_revision >= a.max_revision
                &&& b.max_revision == rev || b.max_revision == a.max_revision
                &&& other != k ==> b.keys.contains_key(other) == a.keys.contains_key(other) && (
                a.keys.contains_key(other) ==> b.keys[other] == a.keys[other])
                &&& rec.flags & 0x01 != 0 ==> !b.keys.contains_key(k)
                &&& rec.flags & 0x01 == 0 ==> {
                    &&& b.keys.contains_key(k)
                    &&& b.keys[k].mod_revision == rev
                    &&& !a.keys.contains_key(k) ==> b.keys[k].create_revision == rev
                        && b.keys[k].version == 1
                    &&& a.keys.contains_key(k) ==> {
                        &&& rec.flags & 0x02 != 0 ==> b.keys[k].create_revision == rev
                        &&& rec.flags & 0x02 == 0 ==> b.keys[k].create_revision
                            == a.keys[k].create_revision
                        &&& a.keys[k].version < i64::MAX ==> b.keys[k].version == a.keys[k].version
                            + 1
                    }
                }
            }
        }),
{
}

/// An inspection counts the records that cannot be read, and tells the highest revision of the
/// others, zero if they have none above it.
pub proof fn law_inspection_counts(recs: Seq<KvWalRecordView>)
    ensures
        inspected(recs).kv_errors == recs.filter(|r: KvWalRecordView| !readable(r)).len(),
        inspected(recs).max_revision >= 0,
        forall|i: int|
            0 <= i < recs.len() && readable(#[trigger] recs[i]) ==> recs[i].mod_revision()->0
                <= inspected(recs).max_revision,
        inspected(recs).max_revision == 0 || exists|i: int|
            0 <= i < recs.len() && readable(#[trigger] recs[i]) && recs[i].mod_revision()->0
                == inspected(recs).max_revision,
    decreases recs.len(),
{
    reveal(Seq::filter);
    if recs.len() > 0 {
        let front = recs.drop_last();
        law_inspection_counts(front);
        assert(recs[recs.len() - 1] == recs.last());
        assert forall|i: int|
            0 <= i < recs.len() && readable(#[trigger] recs[i]) implies recs[i].mod_revision()->0
            <= inspected(recs).max_revision by {
            if i < front.len() {
                assert(front[i] == recs[i]);
            }
        }
        let h = inspected(front).max_revision;
        if h != 0 && inspected(recs).max_revision == h {
            let i = choose|i: int|
                0 <= i < front.len() && readable(#[trigger] front[i])
                    && front[i].mod_revision()->0 == h;
            assert(recs[i] == front[i]);
        }
    }
}

/// Under each kind it is counted how many of the keys are of it; a kind of which there are none is
/// not named.
pub proof fn law_each_kind_is_counted(keys: Seq<Seq<u8>>, c: Seq<u8>)
    requires
        keys.len() <= u64::MAX,
    ensures
        ({
            let n = keys.filter(|k: Seq<u8>| category_bytes(k) == c).len();
            &&& counted(keys).contains_key(c) == (n > 0)
            &&& n > 0 ==> counted(keys)[c] == n
            &&& n <= keys.len()
        }),
    decreases keys.len(),
{
    reveal(Seq::filter);
    if keys.len() > 0 {
        law_each_kind_is_counted(keys.drop_last(), c);
    }
}

proof fn lemma_first_place(s: Seq<u8>, pattern: Seq<u8>)
    ensures
        match first_place(s, pattern) {
            Some(i) => i + pattern.len() <= s.len() && s.subrange(
                i as int,
                (i + pattern.len()) as int,
            ) == pattern && forall|j: int|
                0 <= j < i ==> !pattern.is_prefix_of(#[trigger] s.skip(j)),
            None => forall|j: int|
                0 <= j <= s.len() ==> !pattern.is_prefix_of(#[trigger] s.skip(j)),
        },
    decreases s.len(),
{
    assert(s.skip(0) =~= s);
    if pattern.is_prefix_of(s) {
        assert(s.subrange(0, pattern.len() as int) =~= pattern);
    } else if s.len() > 0 {
        lemma_first_place(s.skip(1), pattern);
        assert forall|j: int| 1 <= j <= s.len() implies #[trigger] s.skip(j) == s.skip(1).skip(
            j - 1,
        ) by {
            assert(s.skip(j) =~= s.skip(1).skip(j - 1));
        }
        match first_place(s.skip(1), pattern) {
            Some(i) => {
                let at = i as int;
                assert(s.subrange(at + 1, at + 1 + pattern.len()) =~= s.skip(1).subrange(
                    at,
                    at + pattern.len(),
                ));
                assert forall|j: int| 0 <= j < i + 1 implies !pattern.is_prefix_of(
                    #[trigger] s.skip(j),
                ) by {
                    if j > 0 {
                        assert(s.skip(j) == s.skip(1).skip(j - 1));
                    }
                }
            },
            None => {
                assert forall|j: int| 0 <= j <= s.len() implies !pattern.is_prefix_of(
                    #[trigger] s.skip(j),
                ) by {
                    if j > 0 {
                        assert(s.skip(j) == s.skip(1).skip(j - 1));
                    }
                }
            },
        }
    }
}

proof fn lemma_up_to_quote(s: Seq<u8>)
    ensures
        ({
            let t = up_to_quote(s);
            &&& t.len() <= s.len()
            &&& t == s.take(t.len() as int)
            &&& !t.contains(0x22u8)
            &&& t.len() < s.len() ==> s[t.len() as int] == 0x22
        }),
    decreases s.len(),
{
    if s.len() > 0 && s[0] != 0x22 {
        lemma_up_to_quote(s.skip(1));
        let t = up_to_quote(s);
        let u = up_to_quote(s.skip(1));
        assert(t =~= s.take(t.len() as int)) by {
            assert forall|i: int| 0 <= i < t.len() implies t[i] == s[i] by {
                if i > 0 {
                    assert(u[i - 1] == s.skip(1).take(u.len() as int)[i - 1]);
                }
            }
        }
        if t.contains(0x22u8) {
            let i = choose|i: int| 0 <= i < t.len() && t[i] == 0x22;
            assert(i > 0);
            assert(u[i - 1] == 0x22);
            assert(u.contains(0x22u8));
        }
        if t.len() < s.len() {
            assert(s[t.len() as int] == s.skip(1)[u.len() as int]);
        }
    } else {
        assert(up_to_quote(s) =~= s.take(0));
    }
}

/// The name in a text stands behind the first `"name":"`, and reaches to the next double quote, or
/// to the end. There is none where that does not occur.
pub proof fn law_name_stands_behind_its_label(s: Seq<u8>)
    ensures
        match first_name(s) {
            Some(name) => exists|i: int|
                {
                    &&& 0 <= i
                    &&& i + 8 + name.len() <= s.len()
                    &&& #[trigger] s.subrange(i, i + 8) == seq![
                        0x22u8,
                        0x6e,
                        0x61,
                        0x6d,
                        0x65,
                        0x22,
                        0x3a,
                        0x22,
                    ]
                    &&& name == s.subrange(i + 8, i + 8 + name.len())
                    &&& !name.contains(0x22u8)
                    &&& i + 8 + name.len() < s.len() ==> s[i + 8 + name.len()] == 0x22
                    &&& forall|j: int|
                        0 <= j < i ==> !name_pattern().is_prefix_of(#[trigger] s.skip(j))
                },
            None => forall|j: int|
                0 <= j <= s.len() ==> !name_pattern().is_prefix_of(#[trigger] s.skip(j)),
        },
{
    lemma_first_place(s, name_pattern());
    if let Some(i) = first_place(s, name_pattern()) {
        let behind = s.skip((i + 8) as int);
        lemma_up_to_quote(behind);
        let name = up_to_quote(behind);
        let at = i as int;
        assert(name =~= s.subrange(at + 8, at + 8 + name.len()));
        assert(s.subrange(at, at + 8) == name_pattern());
    }
}

// ── Rebuilding and migrating ──────────────────────────────────────

/// What a log of the older format leaves, with one more record. One that deletes leaves its key
/// no more. Another leaves its key with its value, last written at its revision, created by it if
/// the key was not there or if it says so, and one version further. The other keys stay.
pub proof fn law_rebuilding_follows_the_log(recs: Seq<WalRecordView>, other: Seq<u8>)
    requires
        recs.len() > 0,
    ensures
        ({
            let rec = recs.last();
            let a = rebuilt(recs.drop_last());
            let b = rebuilt(recs);
            let k = rec.key;
            &&& rebuilt(Seq::empty()) == Map::<Seq<u8>, OldKeyStateView>::empty()
            &&& other != k ==> b.contains_key(other) == a.contains_key(other) && (a.contains_key(
                other,
            ) ==> b[other] == a[other])
            &&& rec.flags & 0x01 != 0 ==> !b.contains_key(k)
            &&& rec.flags & 0x01 == 0 ==> {
                &&& b.contains_key(k)
                &&& b[k].value == rec.value
                &&& b[k].mod_revision == rec.revision
                &&& !a.contains_key(k) ==> b[k].create_revision == rec.revision && b[k].version == 1
                &&& a.contains_key(k) ==> {
                    &&& rec.flags & 0x02 != 0 ==> b[k].create_revision == rec.revision
                    &&& rec.flags & 0x02 == 0 ==> b[k].create_revision == a[k].create_revision
                    &&& a[k].version < u64::MAX ==> b[k].version == a[k].version + 1
                }
            }
        }),
{
}

/// The highest revision of a log of the older format is one of its revisions, and none is higher;
/// it is zero where there are no records.
pub proof fn law_highest_revision_is_told(recs: Seq<WalRecordView>)
    ensures
        forall|i: int|
            0 <= i < recs.len() ==> (#[trigger] recs[i]).revision <= last_revision(recs),
        last_revision(recs) == 0 || exists|i: int|
            0 <= i < recs.len() && (#[trigger] recs[i]).revision == last_revision(recs),
    decreases recs.len(),
{
    if recs.len() > 0 {
        let front = recs.drop_last();
        law_highest_revision_is_told(front);
        assert(recs[recs.len() - 1] == recs.last());
        assert forall|i: int| 0 <= i < recs.len() implies (#[trigger] recs[i]).revision
            <= last_revision(recs) by {
            if i < front.len() {
                assert(front[i] == recs[i]);
            }
        }
        if last_revision(front) != 0 && last_revision(recs) == last_revision(front) {
            let i = choose|i: int|
                0 <= i < front.len() && (#[trigger] front[i]).revision == last_revision(front);
            assert(recs[i] == front[i]);
        }
    }
}

/// The keys that a compaction at a revision would have lost are those created and last written
/// before it, in their order.
pub proof fn law_lost_keys_are_older(m: Map<Seq<u8>, OldKeyStateView>, rev: u64)
    requires
        m.dom().finite(),
    ensures
        ({
            let ks = listed_keys(picked(m, older_than(rev)));
            &&& ascending(ks)
            &&& forall|k: Seq<u8>| #[trigger]
                ks.contains(k) <==> m.contains_key(k) && m[k].create_revision < rev
                    && m[k].mod_revision < rev
        }),
{
    let p = picked(m, older_than(rev));
    lemma_picked_finite(m, older_than(rev));
    lemma_listing_exists(p);
    lemma_listed_keys(p);
    let es = listing(p);
    let ks = listed_keys(p);
    assert forall|i: int, j: int|
        #![trigger ks[i], ks[j]]
        0 <= i < j < ks.len() implies lex_lt(ks[i], ks[j]) by {
        assert(ks[i] == es[i].0 && ks[j] == es[j].0);
    }
    assert forall|k: Seq<u8>| #[trigger] ks.contains(k) <==> m.contains_key(k)
        && m[k].create_revision < rev && m[k].mod_revision < rev by {
        assert(ks.contains(k) == p.contains_key(k));
    }
}

/// What a migration knows of the keys with one more record: a key that is written has the value of
/// the record and its lease, if the record says that it has one; it was created by the first record
/// that writes it since it was not there, and has as many versions as there are such records. One
/// that is deleted is known no more.
pub proof fn law_migration_follows_the_log(recs: Seq<WalRecordView>, other: Seq<u8>)
    requires
        recs.len() > 0,
    ensures
        ({
            let rec = recs.last();
            let a = migrated_keys(recs.drop_last());
            let b = migrated_keys(recs);
            let k = rec.key;
            &&& other != k ==> b.contains_key(other) == a.contains_key(other) && (a.contains_key(
                other,
            ) ==> b[other] == a[other])
            &&& rec.flags & 0x01 != 0 ==> !b.contains_key(k)
            &&& rec.flags & 0x01 == 0 ==> {
                &&& b.contains_key(k)
                &&& b[k].value == rec.value
                &&& rec.flags & 0x04 != 0 ==> (rec.lease_id matches Some(id) ==> b[k].lease == id)
                &&& rec.flags & 0x04 == 0 ==> b[k].lease == 0
                &&& !a.contains_key(k) ==> b[k].create_revision == rec.revision && b[k].version == 1
                &&& a.contains_key(k) ==> b[k].create_revision == a[k].create_revision
                &&& a.contains_key(k) && a[k].version < i64::MAX ==> b[k].version == a[k].version
                    + 1
            }
        }),
{
    assert(migrated_keys(recs) == migrated_keys_step(
        migrated_keys(recs.drop_last()),
        recs.last(),
    ));
}

// ── Scanning a log of the older format ────────────────────────────

proof fn lemma_log_front(recs: Seq<WalRecordView>)
    requires
        recs.len() > 0,
    ensures
        legacy_log(recs) == recs[0].bytes() + legacy_log(recs.skip(1)),
    decreases recs.len(),
{
    let front = recs.drop_last();
    if front.len() == 0 {
        assert(legacy_log(front) =~= Seq::empty());
        assert(legacy_log(recs.skip(1)) =~= Seq::empty());
    } else {
        lemma_log_front(front);
        assert(recs.skip(1).drop_last() =~= front.skip(1));
    }
    assert(legacy_log(recs) =~= recs[0].bytes() + legacy_log(recs.skip(1)));
}

/// A scan of a sound log of the older format finds its records, in their order, no errors, and
/// nothing behind them.
pub proof fn law_sound_log_is_scanned(recs: Seq<WalRecordView>, look_again: bool)
    requires
        forall|i: int| 0 <= i < recs.len() ==> (#[trigger] recs[i]).valid(),
    ensures
        legacy_scan(legacy_log(recs), look_again) == (LegacyScanView {
            records: recs,
            crc_errors: 0,
            trailing: 0,
        }),
    decreases recs.len(),
{
    if recs.len() == 0 {
        assert(legacy_log(recs).len() == 0);
        assert(legacy_scan(legacy_log(recs), look_again).records =~= recs);
    } else {
        let rest = recs.skip(1);
        let first = recs[0].bytes();
        let s = legacy_log(recs);
        lemma_log_front(recs);
        assert forall|i: int| 0 <= i < rest.len() implies (#[trigger] rest[i]).valid() by {
            assert(rest[i] == recs[i + 1]);
        }
        law_sound_log_is_scanned(rest, look_again);
        law_legacy_roundtrip(recs[0], legacy_log(rest));
        reveal(parse_legacy);
        assert(s.skip(first.len() as int) =~= legacy_log(rest));
        assert(seq![recs[0]] + rest =~= recs);
    }
}

/// Bytes in which no record begins are passed over, and the records behind them are found.
pub proof fn law_other_bytes_are_passed_over(
    other: Seq<u8>,
    recs: Seq<WalRecordView>,
    look_again: bool,
)
    requires
        recs.len() > 0,
        forall|i: int| 0 <= i < recs.len() ==> (#[trigger] recs[i]).valid(),
        forall|i: int|
            0 <= i < other.len() ==> !has_magic(#[trigger] (other + legacy_log(recs)).skip(i)),
    ensures
        legacy_scan(other + legacy_log(recs), look_again) == (LegacyScanView {
            records: recs,
            crc_errors: 0,
            trailing: 0,
        }),
    decreases other.len(),
{
    let s = other + legacy_log(recs);
    law_sound_log_is_scanned(recs, look_again);
    if other.len() == 0 {
        assert(s =~= legacy_log(recs));
    } else {
        let rest = other.skip(1);
        lemma_log_front(recs);
        law_legacy_roundtrip(recs[0], legacy_log(recs.skip(1)));
        reveal(parse_legacy);
        assert(legacy_log(recs).len() >= 23);
        assert(s.skip(0) =~= s);
        assert(!has_magic(s));
        assert(s.skip(1) =~= rest + legacy_log(recs));
        assert forall|i: int| 0 <= i < rest.len() implies !has_magic(
            #[trigger] (rest + legacy_log(recs)).skip(i),
        ) by {
            assert((rest + legacy_log(recs)).skip(i) =~= s.skip(i + 1));
        }
        law_other_bytes_are_passed_over(rest, recs, look_again);
    }
}

/// A record whose checksum does not hold is passed over, and those behind it are found, where the
/// scan is not to look again inside it.
pub proof fn law_damaged_record_is_passed_over(bad: Seq<u8>, recs: Seq<WalRecordView>)
    requires
        forall|i: int| 0 <= i < recs.len() ==> (#[trigger] recs[i]).valid(),
        bad.len() >= 23,
        has_magic(bad),
        record_end(bad) == bad.len(),
        !checksum_holds(bad),
    ensures
        legacy_scan(bad + legacy_log(recs), false).records == recs,
        legacy_scan(bad + legacy_log(recs), false).trailing == 0,
{
    let s = bad + legacy_log(recs);
    law_sound_log_is_scanned(recs, false);
    assert(s.subrange(0, 2) =~= bad.subrange(0, 2));
    assert(s.subrange(14, 18) =~= bad.subrange(14, 18));
    assert(s.subrange(18, 22) =~= bad.subrange(18, 22));
    assert(s[22] == bad[22]);
    assert(s.subrange(10, 14) =~= bad.subrange(10, 14));
    assert(s.subrange(22, record_end(s) as int) =~= bad.subrange(22, record_end(bad) as int));
    assert(s.skip(bad.len() as int) =~= legacy_log(recs));
}

// ── Numbers in texts ──────────────────────────────────────────────

/// A number that is written in decimal and read again is the number.
pub proof fn law_decimal_reads_back(n: nat)
    ensures
        decimal_text(n).len() > 0,
        all_digits(decimal_text(n)),
        digits_value(decimal_text(n)) == n,
    decreases n,
{
    reveal_strlit("0");
    reveal_strlit("1");
    reveal_strlit("2");
    reveal_strlit("3");
    reveal_strlit("4");
    reveal_strlit("5");
    reveal_strlit("6");
    reveal_strlit("7");
    reveal_strlit("8");
    reveal_strlit("9");
    let d = digit_text(n % 10);
    assert(d.len() == 1 && d[0] as u32 == 0x30 + n % 10);
    let t = decimal_text(n);
    if n < 10 {
        assert(t.drop_last() =~= Seq::empty());
        assert(digits_value(t.drop_last()) == 0);
    } else {
        law_decimal_reads_back(n / 10);
        let front = decimal_text(n / 10);
        assert(t.drop_last() =~= front);
        assert forall|i: int| 0 <= i < t.len() implies is_digit(#[trigger] t[i]) by {
            if i < front.len() {
                assert(t[i] == front[i]);
            }
        }
    }
}

proof fn lemma_no_space_at_start(s: Seq<char>)
    requires
        s.len() > 0,
        !is_space(s[0]),
    ensures
        trimmed_start(s) == s,
{
}

proof fn lemma_spaces_trimmed(spaces: Seq<char>, s: Seq<char>)
    requires
        forall|i: int| 0 <= i < spaces.len() ==> is_space(#[trigger] spaces[i]),
        s.len() > 0,
        !is_space(s[0]),
    ensures
        trimmed_start(spaces + s) == s,
    decreases spaces.len(),
{
    if spaces.len() == 0 {
        assert(spaces + s =~= s);
    } else {
        let rest = spaces.skip(1);
        assert forall|i: int| 0 <= i < rest.len() implies is_space(#[trigger] rest[i]) by {
            assert(rest[i] == spaces[i + 1]);
        }
        lemma_spaces_trimmed(rest, s);
        assert(is_space(spaces[0]));
        assert((spaces + s).skip(1) =~= rest + s);
    }
}

proof fn lemma_spaces_trimmed_end(s: Seq<char>, spaces: Seq<char>)
    requires
        forall|i: int| 0 <= i < spaces.len() ==> is_space(#[trigger] spaces[i]),
        s.len() > 0,
        !is_space(s.last()),
    ensures
        trimmed_end(s + spaces) == s,
    decreases spaces.len(),
{
    if spaces.len() == 0 {
        assert(s + spaces =~= s);
    } else {
        let rest = spaces.drop_last();
        assert forall|i: int| 0 <= i < rest.len() implies is_space(#[trigger] rest[i]) by {
            assert(rest[i] == spaces[i]);
        }
        lemma_spaces_trimmed_end(s, rest);
        assert(is_space(spaces[spaces.len() - 1]));
        assert((s + spaces).drop_last() =~= s + rest);
    }
}

/// A field of a status text reads as the number of kilobytes that it was written from, whatever
/// white space stands round it, with the unit or without.
pub proof fn law_kilobytes_read_back(n: u64, before: Seq<char>, unit: bool, after: Seq<char>)
    requires
        forall|i: int| 0 <= i < before.len() ==> is_space(#[trigger] before[i]),
        forall|i: int| 0 <= i < after.len() ==> is_space(#[trigger] after[i]),
    ensures
        ({
            let text = decimal_text(n as nat) + if unit {
                seq![' ', 'k', 'B']
            } else {
                Seq::empty()
            };
            kilobytes(before + text + after) == n
        }),
{
    let digits = decimal_text(n as nat);
    let text = digits + if unit {
        seq![' ', 'k', 'B']
    } else {
        Seq::empty()
    };
    law_decimal_reads_back(n as nat);
    assert(is_digit(digits[0]));
    assert(is_digit(digits[digits.len() - 1]));
    assert(text[0] == digits[0]);
    assert(before + text + after =~= before + (text + after));
    assert((text + after)[0] == digits[0]);
    lemma_spaces_trimmed(before, text + after);
    if unit {
        assert(text.last() == 'B');
    } else {
        assert(text =~= digits);
    }
    lemma_spaces_trimmed_end(text, after);
    assert(without_unit(digits) == digits) by {
        if digits.len() >= 3 {
            let t = digits.skip(digits.len() - 3);
            assert(t[2] == digits[digits.len() - 1]);
            assert(t != seq![' ', 'k', 'B']) by {
                if t == seq![' ', 'k', 'B'] {
                    assert(t[2] == 'B');
                }
            }
        }
    }
    if unit {
        assert(text.skip(text.len() - 3) =~= seq![' ', 'k', 'B']);
        assert(text.take(text.len() - 3) =~= digits);
    }
    assert(without_plus(digits) == digits);
}

/// The lines put together, with a line feed between them.
pub open spec fn joined_lines(lines: Seq<Seq<char>>) -> Seq<char>
    decreases lines.len(),
{
    if lines.len() == 0 {
        Seq::empty()
    } else if lines.len() == 1 {
        lines[0]
    } else {
        joined_lines(lines.drop_last()).push('\n') + lines.last()
    }
}

/// The lines of a text, put together, are the text, and none of them has a line feed in it.
pub proof fn law_lines_are_the_text(text: Seq<char>)
    ensures
        lines_of(text).len() > 0,
        joined_lines(lines_of(text)) == text,
        forall|i: int|
            0 <= i < lines_of(text).len() ==> !(#[trigger] lines_of(text)[i]).contains('\n'),
    decreases text.len(),
{
    let ls = lines_of(text);
    if text.len() == 0 {
        assert(joined_lines(ls) =~= text);
    } else {
        let front = lines_of(text.drop_last());
        law_lines_are_the_text(text.drop_last());
        if text.last() == '\n' {
            assert(ls.drop_last() =~= front);
            assert(joined_lines(ls) =~= text);
            assert forall|i: int| 0 <= i < ls.len() implies !(#[trigger] ls[i]).contains(
                '\n',
            ) by {
                if i < front.len() {
                    assert(ls[i] == front[i]);
                }
            }
        } else {
            let line = front.last();
            let longer = line.push(text.last());
            assert(ls.drop_last() =~= front.drop_last());
            assert(ls.last() == longer);
            if front.len() == 1 {
                assert(front[0] == line);
                assert(ls.len() == 1 && ls[0] == longer);
                assert(joined_lines(ls) =~= text);
            } else {
                let head = joined_lines(front.drop_last()).push('\n');
                assert(head + line == text.drop_last());
                assert(head + longer =~= (head + line).push(text.last()));
                assert(text =~= text.drop_last().push(text.last()));
                assert(joined_lines(ls) =~= text);
            }
            assert forall|i: int| 0 <= i < ls.len() implies !(#[trigger] ls[i]).contains(
                '\n',
            ) by {
                if i < front.len() - 1 {
                    assert(ls[i] == front[i]);
                } else {
                    assert(!front[front.len() - 1].contains('\n'));
                    if longer.contains('\n') {
                        let j = choose|j: int| 0 <= j < longer.len() && longer[j] == '\n';
                        assert(line[j] == '\n');
                    }
                }
            }
        }
    }
}

/// What a line of a status text tells goes by the label that it begins with: the memory in use,
/// that reserved, or the most ever reserved. A line with another label tells nothing.
pub proof fn law_line_goes_by_its_label(m: ProcMem, rest: Seq<char>)
    ensures
        with_line(m, "VmRSS:"@ + rest) == (ProcMem { rss: kilobytes(rest), ..m }),
        with_line(m, "VmSize:"@ + rest) == (ProcMem { vsize: kilobytes(rest), ..m }),
        with_line(m, "VmPeak:"@ + rest) == (ProcMem { peak: kilobytes(rest), ..m }),
        forall|line: Seq<char>|
            !("VmRSS:"@.is_prefix_of(line) || "VmSize:"@.is_prefix_of(line)
                || "VmPeak:"@.is_prefix_of(line)) ==> #[trigger] with_line(m, line) == m,
{
    reveal_strlit("VmRSS:");
    reveal_strlit("VmSize:");
    reveal_strlit("VmPeak:");
    let a = "VmRSS:"@ + rest;
    let b = "VmSize:"@ + rest;
    let c = "VmPeak:"@ + rest;
    assert("VmRSS:"@ =~= a.subrange(0, 6));
    assert("VmSize:"@ =~= b.subrange(0, 7));
    assert("VmPeak:"@ =~= c.subrange(0, 7));
    assert(a.skip(6) =~= rest);
    assert(b.skip(7) =~= rest);
    assert(c.skip(7) =~= rest);
    assert(!"VmRSS:"@.is_prefix_of(b)) by {
        assert(b.subrange(0, 6)[2] == 'S');
        assert("VmRSS:"@[2] == 'R');
    }
    assert(!"VmRSS:"@.is_prefix_of(c)) by {
        assert(c.subrange(0, 6)[2] == 'P');
        assert("VmRSS:"@[2] == 'R');
    }
    assert(!"VmSize:"@.is_prefix_of(c)) by {
        assert(c.subrange(0, 7)[2] == 'P');
        assert("VmSize:"@[2] == 'S');
    }
}

} // verus!
