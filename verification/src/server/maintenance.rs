//! Maintenance: the status of the store, its hash, and snapshots of it.

use crate::bytes::{copy_bytes, push_bytes};
use crate::sorted_map::{lemma_picked, lemma_picked_step, listing, picked_entries};
use crate::storage::fixed::{le_bytes, le_value, lemma_le_roundtrip, lemma_pow256_values, push_le};
use crate::storage::frames::{lemma_read_frame, read_frames};
use crate::storage::meaning::{ascending, there};
use crate::storage::recovery::{content_hash, living, living_keys};
use crate::storage::recovery_laws::lemma_living_listed;
use crate::storage::state::{current_revision, KeyStateView, ResponseHeader, StoreView};
use crate::storage::store::Store;
use vstd::prelude::*;
use vstd::slice::slice_subrange;

verus! {

/// The alarms that are raised, each by its number.
#[derive(Debug)]
pub struct AlarmResponse {
    pub header: ResponseHeader,
    pub alarms: Vec<i32>,
}

/// The alarms that are raised: there are none.
pub fn alarm(store: &Store) -> (r: AlarmResponse)
    ensures
        r.header == store@.header(),
        r.alarms@ == Seq::<i32>::empty(),
{
    AlarmResponse { header: store.state.header(), alarms: Vec::new() }
}

/// The answer to a request to defragment, which bears no header.
#[derive(Debug, Clone, Copy, PartialEq, Eq, Structural)]
pub struct DefragmentResponse {
    pub header: Option<ResponseHeader>,
}

/// Answers a request to defragment: there is nothing to do.
pub fn defragment() -> (r: DefragmentResponse)
    ensures
        r.header is None,
{
    DefragmentResponse { header: None }
}

/// The status of the store.
#[derive(Debug)]
pub struct StatusResponse {
    pub header: ResponseHeader,
    pub version: String,
    pub db_size: i64,
    pub leader: u64,
    pub raft_index: u64,
    pub raft_term: u64,
    pub db_size_in_use: i64,
    pub is_learner: bool,
    pub raft_applied_index: u64,
    pub errors: Vec<String>,
}

/// The status of the store, given the size of its log.
pub fn status(store: &Store, db_size: i64) -> (r: StatusResponse)
    ensures
        r.header == store@.header(),
        r.version@ == "3.5.0"@,
        r.db_size == db_size,
        r.leader == 1,
        r.raft_index == store@.revision(),
        r.raft_term == 1,
        r.db_size_in_use == db_size,
        !r.is_learner,
        r.raft_applied_index == store@.revision(),
        r.errors@.len() == 0,
{
    let revision: u64 = current_revision(store.state.next_rev);
    StatusResponse {
        header: store.state.header(),
        version: "3.5.0".to_owned(),
        db_size,
        leader: 1,
        raft_index: revision,
        raft_term: 1,
        db_size_in_use: db_size,
        is_learner: false,
        raft_applied_index: revision,
        errors: Vec::new(),
    }
}

/// The hash of the store.
#[derive(Debug, Clone, Copy, PartialEq, Eq, Structural)]
pub struct HashResponse {
    pub header: ResponseHeader,
    pub hash: u32,
}

/// The hash of the store and the revision up to which it is compacted.
#[derive(Debug, Clone, Copy, PartialEq, Eq, Structural)]
pub struct HashKvResponse {
    pub header: ResponseHeader,
    pub hash: u32,
    pub compact_revision: i64,
}

/// The low half of the hash of the store.
pub open spec fn short_hash(s: StoreView) -> u32 {
    (content_hash(s.keys) % 0x1_0000_0000) as u32
}

/// What is told of the hash are its low 32 bits.
pub proof fn law_low_half_of_the_hash_is_told(s: StoreView)
    ensures
        exists|high: int|
            0 <= high < 0x1_0000_0000 && content_hash(s.keys) == #[trigger] (high * 0x1_0000_0000)
                + short_hash(s),
{
    let h = content_hash(s.keys) as int;
    let high = h / 0x1_0000_0000;
    assert(h == high * 0x1_0000_0000 + h % 0x1_0000_0000);
    assert(content_hash(s.keys) == (high * 0x1_0000_0000) + short_hash(s));
}

/// The hash of the store.
pub fn hash(store: &Store) -> (r: HashResponse)
    requires
        store.wf(),
    ensures
        r == (HashResponse { header: store@.header(), hash: short_hash(store@) }),
{
    let h: u64 = store.store_hash();
    HashResponse { header: store.state.header(), hash: (h % 0x1_0000_0000) as u32 }
}

/// The hash of the store and the revision up to which it is compacted.
pub fn hash_kv(store: &Store) -> (r: HashKvResponse)
    requires
        store.wf(),
    ensures
        r == (HashKvResponse {
            header: store@.header(),
            hash: short_hash(store@),
            compact_revision: store@.compact_rev as i64,
        }),
{
    let h: u64 = store.store_hash();
    HashKvResponse {
        header: store.state.header(),
        hash: (h % 0x1_0000_0000) as u32,
        compact_revision: store.compact_rev() as i64,
    }
}

// ── Snapshots ─────────────────────────────────────────────────────

/// A byte string behind its length in four bytes.
pub open spec fn framed(s: Seq<u8>) -> Seq<u8> {
    le_bytes(s.len() % 0x1_0000_0000, 4) + s
}

/// The keys and values of entries, each behind its length.
pub open spec fn blob_of(es: Seq<(Seq<u8>, KeyStateView)>) -> Seq<u8>
    decreases es.len(),
{
    if es.len() == 0 {
        Seq::empty()
    } else {
        blob_of(es.drop_last()) + framed(es.last().0) + framed(es.last().1.value)
    }
}

/// A snapshot: the revision, the number of keys that are known, deleted ones among them, and the
/// keys and values that are alive.
pub open spec fn snapshot_blob(s: StoreView) -> Seq<u8> {
    le_bytes(s.revision() as nat, 8) + le_bytes(s.keys.len() % 0x1_0000_0000, 4) + blob_of(
        listing(living_keys(s.keys)),
    )
}

fn push_framed(buf: &mut Vec<u8>, s: &[u8])
    ensures
        final(buf)@ == old(buf)@ + framed(s@),
{
    let ghost before = buf@;
    push_le(buf, s.len() as u64 % 0x1_0000_0000, 4);
    push_bytes(buf, s);
    assert(buf@ =~= before + framed(s@));
}

/// Takes a snapshot.
pub fn snapshot(store: &Store) -> (r: Vec<u8>)
    requires
        store.wf(),
    ensures
        r@ == snapshot_blob(store@),
{
    let ghost es = store.state.keys.entries();
    let ghost f = living();
    let n: usize = store.state.keys.len();
    let mut buf: Vec<u8> = Vec::new();
    push_le(&mut buf, current_revision(store.state.next_rev), 8);
    push_le(&mut buf, n as u64 % 0x1_0000_0000, 4);
    let ghost head = buf@;
    let mut i: usize = 0;
    proof {
        store.state.keys.lemma_wf();
        assert(es.take(0) =~= Seq::empty());
        assert(head =~= le_bytes(store@.revision() as nat, 8) + le_bytes(
            store@.keys.len() % 0x1_0000_0000,
            4,
        ));
        assert(buf@ =~= head + blob_of(picked_entries(es.take(0), f)));
    }
    while i < n
        invariant
            store.wf(),
            es == store.state.keys.entries(),
            f == living(),
            i <= n == es.len(),
            buf@ == head + blob_of(picked_entries(es.take(i as int), f)),
        decreases n - i,
    {
        let ks = store.state.keys.val_at(i);
        let ghost before = picked_entries(es.take(i as int), f);
        proof {
            lemma_picked_step(es, i as int, f);
        }
        if ks.is_alive() {
            push_framed(&mut buf, store.state.keys.key_at(i));
            push_framed(&mut buf, &ks.value);
            proof {
                assert(before.push(es[i as int]).drop_last() =~= before);
                assert(buf@ =~= head + blob_of(before.push(es[i as int])));
            }
        }
        i = i + 1;
    }
    proof {
        assert(es.take(i as int) =~= es);
        lemma_picked(es, f);
    }
    buf
}

/// The bytes of entries begin with those of the first.
proof fn lemma_blob_front(es: Seq<(Seq<u8>, KeyStateView)>)
    requires
        es.len() > 0,
    ensures
        blob_of(es) == framed(es[0].0) + framed(es[0].1.value) + blob_of(es.skip(1)),
    decreases es.len(),
{
    let front = es.drop_last();
    if front.len() == 0 {
        assert(blob_of(front) =~= Seq::empty());
        assert(blob_of(es.skip(1)) =~= Seq::empty());
    } else {
        lemma_blob_front(front);
        assert(es.skip(1).drop_last() =~= front.skip(1));
    }
    assert(blob_of(es) =~= framed(es[0].0) + framed(es[0].1.value) + blob_of(es.skip(1)));
}

/// Two byte strings behind their lengths are the first two that are read.
proof fn lemma_two_frames(a: Seq<u8>, b: Seq<u8>, tail: Seq<u8>)
    requires
        a.len() < 0x1_0000_0000,
        b.len() < 0x1_0000_0000,
    ensures
        read_frames(framed(a) + framed(b) + tail, 4) == seq![a, b] + read_frames(tail, 4),
{
    lemma_pow256_values();
    lemma_read_frame(a, framed(b) + tail, 4);
    lemma_read_frame(b, tail, 4);
    assert(framed(a) + (framed(b) + tail) =~= framed(a) + framed(b) + tail);
    assert(seq![a] + (seq![b] + read_frames(tail, 4)) =~= seq![a, b] + read_frames(tail, 4));
}

proof fn lemma_blob_frames(es: Seq<(Seq<u8>, KeyStateView)>)
    requires
        forall|i: int|
            0 <= i < es.len() ==> (#[trigger] es[i]).0.len() < 0x1_0000_0000
                && es[i].1.value.len() < 0x1_0000_0000,
    ensures
        ({
            let fs = read_frames(blob_of(es), 4);
            &&& fs.len() == 2 * es.len()
            &&& forall|i: int|
                0 <= i < es.len() ==> fs[2 * i] == (#[trigger] es[i]).0 && fs[2 * i + 1]
                    == es[i].1.value
        }),
    decreases es.len(),
{
    if es.len() > 0 {
        let rest = es.skip(1);
        lemma_blob_front(es);
        assert forall|i: int| 0 <= i < rest.len() implies (#[trigger] rest[i]).0.len()
            < 0x1_0000_0000 && rest[i].1.value.len() < 0x1_0000_0000 by {
            assert(rest[i] == es[i + 1]);
        }
        lemma_blob_frames(rest);
        let tail = blob_of(rest);
        let fs = read_frames(blob_of(es), 4);
        let gs = read_frames(tail, 4);
        assert(fs == seq![es[0].0, es[0].1.value] + gs) by {
            lemma_two_frames(es[0].0, es[0].1.value, tail);
        }
        assert forall|i: int| 0 <= i < es.len() implies fs[2 * i] == (#[trigger] es[i]).0 && fs[2
            * i + 1] == es[i].1.value by {
            if i > 0 {
                assert(rest[i - 1] == es[i]);
                assert(fs[2 * i] == gs[2 * (i - 1)]);
                assert(fs[2 * i + 1] == gs[2 * (i - 1) + 1]);
            }
        }
    } else {
        assert(read_frames(blob_of(es), 4) =~= Seq::empty());
    }
}

/// A snapshot tells what the store holds: the revision in its first eight bytes, how many keys are
/// known in the next four, and then, read length by length, each key that is there and its value,
/// in the order of the keys, and nothing else. Gives the keys.
pub proof fn law_snapshot_reads_back(s: StoreView) -> (ks: Seq<Seq<u8>>)
    requires
        0 < s.next_rev,
        s.keys.dom().finite(),
        s.keys.len() < 0x1_0000_0000,
        forall|k: Seq<u8>| #[trigger]
            s.keys.contains_key(k) ==> k.len() < 0x1_0000_0000 && s.keys[k].value.len()
                < 0x1_0000_0000,
    ensures
        ascending(ks),
        forall|k: Seq<u8>| #[trigger] ks.contains(k) <==> there(s.keys, k),
        ({
            let blob = snapshot_blob(s);
            let fs = read_frames(blob.skip(12), 4);
            &&& blob.len() >= 12
            &&& le_value(blob.take(8)) == s.next_rev - 1
            &&& le_value(blob.subrange(8, 12)) == s.keys.dom().len()
            &&& fs.len() == 2 * ks.len()
            &&& forall|i: int|
                0 <= i < ks.len() ==> fs[2 * i] == #[trigger] ks[i] && fs[2 * i + 1]
                    == s.keys[ks[i]].value
        }),
{
    let es = listing(living_keys(s.keys));
    let ks = lemma_living_listed(s.keys);
    assert forall|i: int| 0 <= i < es.len() implies (#[trigger] es[i]).0.len() < 0x1_0000_0000
        && es[i].1.value.len() < 0x1_0000_0000 by {
        assert(ks.contains(ks[i]));
        assert(s.keys.contains_key(ks[i]));
    }
    lemma_blob_frames(es);
    lemma_pow256_values();
    lemma_le_roundtrip(s.revision() as nat, 8);
    lemma_le_roundtrip(s.keys.len(), 4);
    let blob = snapshot_blob(s);
    assert(blob.take(8) =~= le_bytes(s.revision() as nat, 8));
    assert(blob.subrange(8, 12) =~= le_bytes(s.keys.len(), 4));
    assert(blob.skip(12) =~= blob_of(es));
    let fs = read_frames(blob_of(es), 4);
    assert forall|i: int| 0 <= i < ks.len() implies fs[2 * i] == #[trigger] ks[i] && fs[2 * i + 1]
        == s.keys[ks[i]].value by {
        assert(es[i] == (ks[i], s.keys[ks[i]]));
    }
    ks
}

/// How much of a snapshot is sent at a time.
pub const CHUNK_SIZE: usize = 65_536;

/// What a piece of a snapshot says.
#[verifier::ext_equal]
pub struct SnapshotChunkView {
    pub remaining_bytes: u64,
    pub blob: Seq<u8>,
}

/// A piece of a snapshot, and how much comes after it.
#[derive(Debug)]
pub struct SnapshotChunk {
    pub remaining_bytes: u64,
    pub blob: Vec<u8>,
}

impl View for SnapshotChunk {
    type V = SnapshotChunkView;

    open spec fn view(&self) -> SnapshotChunkView {
        SnapshotChunkView { remaining_bytes: self.remaining_bytes, blob: self.blob@ }
    }
}

/// The views of pieces.
pub open spec fn chunk_views(cs: Seq<SnapshotChunk>) -> Seq<SnapshotChunkView> {
    cs.map_values(|c: SnapshotChunk| c@)
}

/// Bytes in pieces.
pub open spec fn chunked(s: Seq<u8>) -> Seq<SnapshotChunkView>
    decreases s.len(),
{
    if s.len() == 0 {
        Seq::empty()
    } else if s.len() <= CHUNK_SIZE {
        seq![SnapshotChunkView { remaining_bytes: 0, blob: s }]
    } else {
        seq![
            SnapshotChunkView {
                remaining_bytes: (s.len() - CHUNK_SIZE) as u64,
                blob: s.take(CHUNK_SIZE as int),
            },
        ] + chunked(s.skip(CHUNK_SIZE as int))
    }
}

/// A snapshot in pieces.
pub fn snapshot_chunks(blob: &[u8]) -> (r: Vec<SnapshotChunk>)
    ensures
        chunk_views(r@) == chunked(blob@),
{
    let len: usize = blob.len();
    let mut out: Vec<SnapshotChunk> = Vec::new();
    let mut offset: usize = 0;
    assert(blob@.skip(0) =~= blob@);
    assert(chunk_views(out@) + chunked(blob@.skip(0)) =~= chunked(blob@));
    while offset < len
        invariant
            offset <= len == blob@.len(),
            chunk_views(out@) + chunked(blob@.skip(offset as int)) == chunked(blob@),
        decreases len - offset,
    {
        let ghost rest = blob@.skip(offset as int);
        let ghost before = out@;
        let end: usize = if len - offset > CHUNK_SIZE {
            offset + CHUNK_SIZE
        } else {
            len
        };
        let piece = copy_bytes(slice_subrange(blob, offset, end));
        let chunk = SnapshotChunk { remaining_bytes: (len - end) as u64, blob: piece };
        out.push(chunk);
        proof {
            assert(piece@ =~= rest.take(end - offset));
            assert(rest.skip(end - offset) =~= blob@.skip(end as int));
            if end == len {
                assert(rest.take(end - offset) =~= rest);
                assert(chunked(rest) =~= seq![chunk@]);
                assert(chunked(blob@.skip(end as int)) =~= Seq::empty());
            }
            assert(chunked(rest) =~= seq![chunk@] + chunked(blob@.skip(end as int)));
            assert(chunk_views(out@) =~= chunk_views(before).push(chunk@));
            assert(chunk_views(out@) + chunked(blob@.skip(end as int)) =~= chunk_views(before) + (
            seq![chunk@] + chunked(blob@.skip(end as int))));
        }
        offset = end;
    }
    proof {
        assert(chunked(blob@.skip(offset as int)) =~= Seq::empty());
        assert(chunk_views(out@) + Seq::<SnapshotChunkView>::empty() =~= chunk_views(out@));
    }
    out
}

/// The pieces put together.
pub open spec fn joined(cs: Seq<SnapshotChunkView>) -> Seq<u8>
    decreases cs.len(),
{
    if cs.len() == 0 {
        Seq::empty()
    } else {
        cs[0].blob + joined(cs.skip(1))
    }
}

/// The pieces of a snapshot are the snapshot; each says how much comes after it; each but the last
/// is as long as a piece may be, and the last is no longer and not empty.
pub proof fn law_chunks_are_the_snapshot(s: Seq<u8>)
    requires
        s.len() <= u64::MAX,
    ensures
        joined(chunked(s)) == s,
        forall|i: int|
            0 <= i < chunked(s).len() ==> (#[trigger] chunked(s)[i]).remaining_bytes == joined(
                chunked(s).skip(i + 1),
            ).len() && 0 < chunked(s)[i].blob.len() <= CHUNK_SIZE,
        forall|i: int|
            0 <= i < chunked(s).len() - 1 ==> (#[trigger] chunked(s)[i]).blob.len() == CHUNK_SIZE,
        CHUNK_SIZE == 64 * 1024,
    decreases s.len(),
{
    let cs = chunked(s);
    if s.len() == 0 {
        assert(joined(cs) =~= s);
    } else if s.len() <= CHUNK_SIZE {
        assert(cs.skip(1) =~= Seq::empty());
        assert(joined(cs.skip(1)) =~= Seq::empty());
        assert(joined(cs) =~= s);
    } else {
        let rest = s.skip(CHUNK_SIZE as int);
        law_chunks_are_the_snapshot(rest);
        assert(cs.skip(1) =~= chunked(rest));
        assert(joined(cs) =~= s);
        assert forall|i: int| 0 <= i < cs.len() implies (#[trigger] cs[i]).remaining_bytes
            == joined(cs.skip(i + 1)).len() && 0 < cs[i].blob.len() <= CHUNK_SIZE by {
            if i > 0 {
                assert(cs[i] == chunked(rest)[i - 1]);
                assert(cs.skip(i + 1) =~= chunked(rest).skip(i));
            }
        }
        assert forall|i: int| 0 <= i < cs.len() - 1 implies (#[trigger] cs[i]).blob.len()
            == CHUNK_SIZE by {
            if i > 0 {
                assert(cs[i] == chunked(rest)[i - 1]);
            }
        }
    }
}

} // verus!
