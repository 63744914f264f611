//! What a query promises: which keys its response counts and shows, and in which order.

use crate::bytes::{
    lemma_lex_asymmetric, lemma_lex_irreflexive, lemma_lex_total, lemma_lex_transitive, lex_lt,
};
use crate::sorted_map::{
    lemma_listing, lemma_listing_exists, lemma_map_of_contains, lemma_map_of_find,
    lemma_map_of_index, lemma_picked_finite, listed_keys, listed_values, listing, map_of, sorted,
};
use crate::storage::key_value::{decoded_kv, law_key_value_roundtrip, KeyValueView};
use crate::storage::meaning::{ascending, asked_for, lemma_asked_for, messages_true, there, told_of};
use crate::storage::messages::{RangeRequestView, RangeResponseView, StoreError};
use crate::storage::query::{finds_now, found_now, range_refusal, response_of, target_of};
use crate::storage::range::lemma_next_key;
use crate::storage::state::{KeyStateView, StoreView};
use vstd::prelude::*;

verus! {

/// A response counts all that was found, and shows it in the order of the keys: the first of it,
/// as many as the limit allows, and whether there is more; nothing where only the count was asked
/// for. Gives the keys that were found, in their order.
pub proof fn law_response_lists_what_was_found(
    found: Map<Seq<u8>, Seq<u8>>,
    req: RangeRequestView,
    revision: i64,
) -> (ks: Seq<Seq<u8>>)
    requires
        found.dom().finite(),
    ensures
        ascending(ks),
        forall|k: Seq<u8>| #[trigger] ks.contains(k) <==> found.contains_key(k),
        ({
            let resp = response_of(found, req, revision);
            let cut = 0 < req.limit && req.limit < ks.len();
            &&& resp.header.revision == revision
            &&& resp.count == ks.len() as i64
            &&& req.count_only ==> resp.kvs.len() == 0 && !resp.more
            &&& !req.count_only ==> resp.more == cut
            &&& !req.count_only && cut ==> resp.kvs.len() == req.limit
            &&& !req.count_only && !cut ==> resp.kvs.len() == ks.len()
            &&& forall|i: int|
                0 <= i < resp.kvs.len() ==> #[trigger] resp.kvs[i] == found[ks[i]]
        }),
{
    lemma_listing_exists(found);
    let es = listing(found);
    let ks = listed_keys(found);
    assert forall|i: int, j: int|
        #![trigger ks[i], ks[j]]
        0 <= i < j < ks.len() implies lex_lt(ks[i], ks[j]) by {
        assert(ks[i] == es[i].0 && ks[j] == es[j].0);
    }
    assert forall|k: Seq<u8>| #[trigger] ks.contains(k) <==> found.contains_key(k) by {
        lemma_map_of_contains(es, k);
        if ks.contains(k) {
            let i = choose|i: int| 0 <= i < ks.len() && ks[i] == k;
            assert(es[i].0 == k);
        }
        if found.contains_key(k) {
            let i = lemma_map_of_find(es, k);
            assert(ks[i] == k);
        }
    }
    let resp = response_of(found, req, revision);
    assert forall|i: int| 0 <= i < resp.kvs.len() implies #[trigger] resp.kvs[i]
        == found[ks[i]] by {
        lemma_map_of_index(es, i);
        assert(listed_values(found)[i] == es[i].1);
    }
    ks
}

/// Whether a query is to find a key now: it asks for it, the key is there, and its revisions lie
/// within the bounds of the query, of which zero sets none.
pub open spec fn to_be_found(
    keys: Map<Seq<u8>, KeyStateView>,
    req: RangeRequestView,
    k: Seq<u8>,
) -> bool {
    &&& there(keys, k)
    &&& asked_for(req.key, req.range_end, k)
    &&& req.min_mod_revision > 0 ==> keys[k].mod_revision as i64 >= req.min_mod_revision
    &&& req.max_mod_revision > 0 ==> keys[k].mod_revision as i64 <= req.max_mod_revision
    &&& req.min_create_revision > 0 ==> keys[k].create_revision as i64 >= req.min_create_revision
    &&& req.max_create_revision > 0 ==> keys[k].create_revision as i64 <= req.max_create_revision
}

/// What the response to a query of now has to be, where the keys that it is to find are the given
/// ones, in their order: it counts them all, and shows the first of them, as many as the limit
/// allows, each with what is known of it, or by the key alone; nothing where only the count was
/// asked for.
pub open spec fn query_answers(
    keys: Map<Seq<u8>, KeyStateView>,
    req: RangeRequestView,
    revision: i64,
    resp: RangeResponseView,
    ks: Seq<Seq<u8>>,
) -> bool {
    let cut = 0 < req.limit && req.limit < ks.len();
    &&& ascending(ks)
    &&& forall|k: Seq<u8>| #[trigger] ks.contains(k) <==> to_be_found(keys, req, k)
    &&& resp.header.revision == revision
    &&& resp.count == ks.len() as i64
    &&& req.count_only ==> resp.kvs.len() == 0 && !resp.more
    &&& !req.count_only ==> resp.more == cut
    &&& !req.count_only && cut ==> resp.kvs.len() == req.limit
    &&& !req.count_only && !cut ==> resp.kvs.len() == ks.len()
    &&& forall|i: int|
        0 <= i < resp.kvs.len() && !req.keys_only ==> #[trigger] resp.kvs[i]
            == keys[ks[i]].kv_bytes
    &&& forall|i: int|
        0 <= i < resp.kvs.len() && !req.keys_only && messages_true(keys) ==> decoded_kv(
            #[trigger] resp.kvs[i],
        ) == Some(told_of(ks[i], keys[ks[i]]))
    &&& forall|i: int|
        0 <= i < resp.kvs.len() && req.keys_only && ks[i].len() < 0x1_0000_0000 ==> decoded_kv(
            #[trigger] resp.kvs[i],
        ) == Some(
            (KeyValueView {
                key: ks[i],
                create_revision: 0,
                mod_revision: 0,
                version: 0,
                value: Seq::empty(),
                lease: 0,
            }),
        )
}

/// A query of now finds the keys that it asks for, that are there, and whose revisions lie within
/// its bounds, and no others. Gives them, in their order.
pub proof fn law_query_finds_what_is_there(
    keys: Map<Seq<u8>, KeyStateView>,
    req: RangeRequestView,
    revision: i64,
) -> (ks: Seq<Seq<u8>>)
    requires
        keys.dom().finite(),
    ensures
        query_answers(
            keys,
            req,
            revision,
            response_of(found_now(keys, req), req, revision),
            ks,
        ),
{
    let found = found_now(keys, req);
    lemma_picked_finite(keys, finds_now(req));
    lemma_asked_for(req.key, req.range_end);
    let ks = law_response_lists_what_was_found(found, req, revision);
    assert forall|k: Seq<u8>| #[trigger] ks.contains(k) <==> to_be_found(keys, req, k) by {
        assert(found.contains_key(k) == to_be_found(keys, req, k));
    }
    let resp = response_of(found, req, revision);
    assert forall|i: int| 0 <= i < resp.kvs.len() && !req.keys_only implies #[trigger] resp.kvs[i]
        == keys[ks[i]].kv_bytes by {
        assert(ks.contains(ks[i]));
    }
    assert forall|i: int|
        0 <= i < resp.kvs.len() && !req.keys_only && messages_true(keys) implies decoded_kv(
        #[trigger] resp.kvs[i],
    ) == Some(told_of(ks[i], keys[ks[i]])) by {
        assert(ks.contains(ks[i]));
        assert(keys.contains_key(ks[i]));
    }
    assert forall|i: int|
        0 <= i < resp.kvs.len() && req.keys_only && ks[i].len() < 0x1_0000_0000 implies decoded_kv(
        #[trigger] resp.kvs[i],
    ) == Some(
        (KeyValueView {
            key: ks[i],
            create_revision: 0,
            mod_revision: 0,
            version: 0,
            value: Seq::empty(),
            lease: 0,
        }),
    ) by {
        assert(ks.contains(ks[i]));
        law_key_value_roundtrip(ks[i], Seq::empty(), 0, 0, 0, 0);
    }
    ks
}

/// The request without a limit.
pub open spec fn without_limit(req: RangeRequestView) -> RangeRequestView {
    RangeRequestView { limit: 0, ..req }
}

/// The request from behind a key on.
pub open spec fn from_behind(req: RangeRequestView, k: Seq<u8>) -> RangeRequestView {
    RangeRequestView { key: k.push(0), ..req }
}

/// Pages put together are the whole: what a request with a limit shows, and what the same request
/// shows from behind the last key that was shown, without a limit, is in its order what the
/// request shows without a limit; where there is no more, the page is the whole already. The
/// request is for a range, and its end does not stand for the keys that begin with one, neither
/// of its own key nor of that from behind the page. Gives the key that the page ends with.
pub proof fn law_pages_put_together(
    keys: Map<Seq<u8>, KeyStateView>,
    req: RangeRequestView,
    revision: i64,
) -> (last: Seq<u8>)
    requires
        keys.dom().finite(),
        req.limit > 0,
        !req.count_only,
        req.range_end.len() > 0,
        req.range_end != req.key.push(0) || req.range_end == seq![0u8],
    ensures
        ({
            let page = response_of(found_now(keys, req), req, revision);
            let all = without_limit(req);
            let whole = response_of(found_now(keys, all), all, revision);
            let next = without_limit(from_behind(req, last));
            let rest = response_of(found_now(keys, next), next, revision);
            &&& !page.more ==> page.kvs == whole.kvs
            &&& page.more ==> {
                &&& to_be_found(keys, req, last)
                &&& !req.keys_only ==> page.kvs.last() == keys[last].kv_bytes
                &&& req.range_end != last.push(0).push(0) ==> whole.kvs == page.kvs + rest.kvs
            }
        }),
{
    let all = without_limit(req);
    let page = response_of(found_now(keys, req), req, revision);
    let whole = response_of(found_now(keys, all), all, revision);
    assert(found_now(keys, all) =~= found_now(keys, req));
    let found = found_now(keys, req);
    lemma_picked_finite(keys, finds_now(req));
    lemma_listing_exists(found);
    let es = listing(found);
    let ks = law_query_finds_what_is_there(keys, req, revision);
    if !page.more {
        assert(page.kvs =~= whole.kvs);
        return Seq::empty();
    }
    let n = req.limit as int;
    let last = es[n - 1].0;
    let next = without_limit(from_behind(req, last));
    let later = found_now(keys, next);
    lemma_map_of_index(es, n - 1);
    assert(found.contains_key(last));
    assert(page.kvs.last() == es[n - 1].1);
    lemma_asked_for(req.key, req.range_end);
    if req.range_end == last.push(0).push(0) {
        return last;
    }
    lemma_asked_for(next.key, next.range_end);
    let fs = es.skip(n);
    assert(sorted(fs)) by {
        assert forall|i: int, j: int|
            #![trigger fs[i], fs[j]]
            0 <= i < j < fs.len() implies lex_lt(fs[i].0, fs[j].0) by {
            assert(fs[i] == es[i + n] && fs[j] == es[j + n]);
        }
    }
    assert(map_of(fs) =~= later) by {
        assert forall|k: Seq<u8>|
            #![trigger map_of(fs).contains_key(k)]
            #![trigger later.contains_key(k)]
            map_of(fs).contains_key(k) == later.contains_key(k) && (later.contains_key(k)
                ==> map_of(fs)[k] == later[k]) by {
            lemma_map_of_contains(fs, k);
            lemma_behind(req.key, req.range_end, last, k);
            if map_of(fs).contains_key(k) {
                let i = lemma_map_of_find(fs, k);
                lemma_map_of_index(es, i + n);
                assert(es[i + n].0 == k);
                assert(lex_lt(es[n - 1].0, es[i + n].0));
                assert(found.contains_key(k));
            }
            if later.contains_key(k) {
                assert(found.contains_key(k));
                let i = lemma_map_of_find(es, k);
                if i < n {
                    if i < n - 1 {
                        assert(lex_lt(es[i].0, es[n - 1].0));
                        lemma_lex_asymmetric(k, last);
                    }
                    lemma_lex_irreflexive(last);
                    assert(false);
                }
                assert(fs[i - n].0 == k);
                lemma_map_of_index(fs, i - n);
            }
        }
    }
    lemma_listing(fs);
    let rest = response_of(later, next, revision);
    assert(whole.kvs =~= page.kvs + rest.kvs) by {
        assert(listed_values(later) =~= listed_values(found).skip(n));
    }
    last
}

/// What a client sees that asks for page after page, each from behind the last key of the one
/// before, until there is no more, or until it has asked so often.
pub open spec fn pages(
    keys: Map<Seq<u8>, KeyStateView>,
    req: RangeRequestView,
    revision: i64,
    n: nat,
) -> Seq<Seq<u8>>
    decreases n,
{
    let page = response_of(found_now(keys, req), req, revision);
    if page.more && n > 0 {
        let last = decoded_kv(page.kvs.last())->0.key;
        page.kvs + pages(keys, from_behind(req, last), revision, (n - 1) as nat)
    } else {
        page.kvs
    }
}

/// A client that asks for page after page sees all that the request without a limit shows, in its
/// order and each once, whatever the limit.
pub proof fn law_pages_are_the_whole(
    keys: Map<Seq<u8>, KeyStateView>,
    req: RangeRequestView,
    revision: i64,
    n: nat,
)
    requires
        keys.dom().finite(),
        messages_true(keys),
        req.limit > 0,
        !req.count_only,
        !req.keys_only,
        req.range_end.len() > 0,
        req.range_end.last() != 0 || req.range_end == seq![0u8],
        n >= response_of(
            found_now(keys, without_limit(req)),
            without_limit(req),
            revision,
        ).kvs.len(),
    ensures
        pages(keys, req, revision, n) == response_of(
            found_now(keys, without_limit(req)),
            without_limit(req),
            revision,
        ).kvs,
    decreases n,
{
    assert(req.key.push(0).last() == 0);
    let page = response_of(found_now(keys, req), req, revision);
    let last = law_pages_put_together(keys, req, revision);
    if page.more {
        let all = without_limit(req);
        let whole = response_of(found_now(keys, all), all, revision);
        let next = from_behind(req, last);
        assert(last.push(0).push(0).last() == 0 && last.push(0).push(0).len() > 1);
        assert(without_limit(next) == without_limit(from_behind(req, last)));
        assert(page.kvs.len() > 0);
        assert(keys.contains_key(last));
        assert(decoded_kv(page.kvs.last())->0.key == last);
        assert(whole.kvs.len() >= page.kvs.len());
        law_pages_are_the_whole(keys, next, revision, (n - 1) as nat);
    }
}

/// The keys from behind one that a range names are those of the range that come after it.
proof fn lemma_behind(key: Seq<u8>, range_end: Seq<u8>, last: Seq<u8>, k: Seq<u8>)
    requires
        range_end.len() > 0,
        range_end != key.push(0) || range_end == seq![0u8],
        range_end != last.push(0).push(0),
        asked_for(key, range_end, last),
    ensures
        asked_for(last.push(0), range_end, k) == (asked_for(key, range_end, k) && lex_lt(last, k)),
{
    let e = last.push(0);
    assert(e.push(0).len() > 1);
    lemma_next_key(last, k);
    lemma_lex_total(last, k);
    lemma_lex_total(k, e);
    lemma_lex_irreflexive(k);
    lemma_lex_irreflexive(last);
    lemma_next_key(last, last);
    assert(lex_lt(last, e));
    if lex_lt(k, e) && lex_lt(e, k) {
        lemma_lex_asymmetric(k, e);
    }
    if lex_lt(e, k) {
        lemma_lex_transitive(last, e, k);
    }
    if lex_lt(last, k) && lex_lt(key, last) {
        lemma_lex_transitive(key, last, k);
    }
    if range_end == seq![0u8] && key.push(0) == range_end {
        assert(key.len() == 0);
    }
}

/// Why a query is refused: it is about a revision that has not come yet, or about one that has
/// been given up. A query of now is not refused.
pub proof fn law_query_of_a_revision(s: StoreView, req: RangeRequestView)
    requires
        s.next_rev > 0,
    ensures
        req.revision <= 0 ==> range_refusal(s, req) is None && target_of(req) == 0,
        req.revision > 0 ==> target_of(req) == req.revision,
        req.revision > 0 && req.revision >= s.next_rev ==> range_refusal(s, req) == Some(
            StoreError::FutureRevision,
        ),
        0 < req.revision < s.next_rev && req.revision < s.compact_rev ==> range_refusal(s, req)
            == Some(StoreError::CompactedRevision),
        0 < req.revision < s.next_rev && req.revision >= s.compact_rev ==> range_refusal(
            s,
            req,
        ) is None,
{
}

} // verus!
