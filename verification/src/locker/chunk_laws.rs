//! No chunk is left behind: every chunk in a store belongs to a value that some
//! record points at, and a write, a delete, a clear or a shed key takes the
//! chunks of what it replaces with it.
//!
//! A handle may skip reading the old record only where its index proves that
//! there is nothing to drop, so what an index claims is part of this.

use std::ops::Bound;

use vstd::prelude::*;

use super::batch::{latest, names_of, reads, removed, weighed, wipes, Move};
use super::batch_laws::{a_landed_batch_reads_as_staged, latest_is_finite, left_with, not_among};
use super::chunk::{
    a_pointer_round_trips, an_envelope_is_no_pointer, gc, glued, legal, parsed, pieces_glue_back, pointer_bytes, points,
    FLAG_POSTCARD,
};
use super::inner::{
    clears, everything_is_within, gc_all, gc_list, kept_inline, locker_rows, pointer_to, record_delete, record_put,
    records_clear, stores,
    walking_reads_the_locker, Inner, Prior, Shared,
};
use super::laws::{a_write_adds_up, dropping_behind_a_key, dropping_stays_inside, owned, owns, same_outside};
use super::io::{pieces_are_no_more_than_bytes, published, swapped, Writer};
use super::lazy::{claims_left, clear_landed, delete_landed, put_landed, put_stored};
use super::lazy_laws::{
    a_budget_is_kept_in_meta, a_delete_keeps_the_index_faithful, a_put_keeps_the_index_faithful,
    a_written_key_is_no_victim, clearing_on_records, faithful, gc_spares_records, landed_keys, nothing_is_staged,
    only_the_last_counts, parts_on_records, shedding_on_records,
};
use super::lru::{entry_delete, LruState};
use super::read_laws::what_is_written_is_weighed;
use super::resident::{
    batch_landed, budget_list, budgeted, evictions, keys_in, no_budget, shed_landed,
    up_to_date, write_landed, Budget, Resident,
};
use super::transaction::{batched, flat, opening, prior_of, spells, TxMode};
use crate::backend::api::{after_all_appends, after_all_pushes, Backend, Change, Rows, Span, Store};
use crate::bytes::{be32, be64, starts_with};
use crate::codec::{FilterChain, MAX_DECODED_BYTES};
use crate::key::{stored, storing_round_trips, LockerId};
use crate::sorted::{a_finite_set_is_listed, ascending_has_no_duplicates, listing, views};

verus! {

/// Some record points at the value a chunk belongs to.
pub open spec fn has_owner(records: Rows, c: Seq<u8>) -> bool {
    exists|k: Seq<u8>| #[trigger] owns(records, k) && starts_with(c, be64(owned(records, k)))
}

/// Every chunk belongs to a value that some record points at.
pub open spec fn housed(store: Store) -> bool {
    forall|c: Seq<u8>| #[trigger] store.chunks.contains_key(c) ==> has_owner(store.records, c)
}

/// What an index claims is so: it names exactly the keys that are stored, and
/// what it holds to be inline is no pointer. A locker that defers its writes
/// holds nothing to be inline.
pub open spec fn honest(res: Resident, store: Store) -> bool {
    &&& res.index is Some
    &&& faithful(res, store)
    &&& forall|k: Seq<u8>| #[trigger]
        res.known_inline@.contains_key(k) && store.records.contains_key(stored(res.inner.id, k)) ==> !points(
            store.records[stored(res.inner.id, k)],
        )
    &&& res.inner.config.batch() is Some ==> res.known_inline@ == Map::<Seq<u8>, ()>::empty()
}

/// An honest index misses no chunk: what it lets a write skip, reading the old
/// record would not have found either.
pub proof fn an_honest_index_misses_no_chunk(res: Resident, store: Store, key: Seq<u8>, trusted: bool)
    requires
        honest(res, store),
    ensures
        gc_list(store.records, res.inner.id, key, res.prior_spec(key, trusted)) == gc_list(
            store.records,
            res.inner.id,
            key,
            Prior::Unknown,
        ),
{
    if res.staged@.len() == 0 {
        nothing_is_staged(res);
        assert(keys_in(res.index).contains(key) <==> locker_rows(store.records, res.inner.id).dom().contains(key));
    }
}

/// Where one record changes, and what it owned goes with it.
proof fn a_change_keeps_housed(before: Store, after: Store, at: Seq<u8>)
    requires
        housed(before),
        forall|k: Seq<u8>|
            k != at && #[trigger] before.records.contains_key(k) ==> after.records.contains_key(k) && after.records[k]
                == before.records[k],
        forall|c: Seq<u8>| #[trigger]
            after.chunks.contains_key(c) ==> (before.chunks.contains_key(c) && !(owns(before.records, at) && starts_with(
                c,
                be64(owned(before.records, at)),
            ))) || (owns(after.records, at) && starts_with(c, be64(owned(after.records, at)))),
    ensures
        housed(after),
{
    assert forall|c: Seq<u8>| #[trigger] after.chunks.contains_key(c) implies has_owner(after.records, c) by {
        if !(owns(after.records, at) && starts_with(c, be64(owned(after.records, at)))) {
            assert(has_owner(before.records, c));
            let k = choose|k: Seq<u8>| #[trigger]
                owns(before.records, k) && starts_with(c, be64(owned(before.records, k)));
            assert(k != at);
            assert(owns(after.records, k));
        }
    }
}

/// A write keeps every chunk housed.
proof fn writing_keeps_housed(inner: &Inner, store: Store, key: Seq<u8>, payload: Seq<u8>, id: u64, list: Seq<Change>)
    requires
        inner.config.chunk_size > 0,
        gc_list(store.records, inner.id, key, Prior::Unknown) matches Some(dropped) && stores(
            *inner,
            key,
            payload,
            FLAG_POSTCARD,
            dropped,
            id,
            list,
        ),
        payload.len() <= MAX_DECODED_BYTES,
        housed(store),
    ensures
        housed(store.after_all(list)),
{
    reveal(stores);
    let record = a_write_adds_up(inner, store, key, payload, FLAG_POSTCARD, Prior::Unknown, id, list);
    dropping_behind_a_key(store, inner.id, key, Prior::Unknown);
    let mid = store.after_all(gc_list(store.records, inner.id, key, Prior::Unknown)->0);
    let after = store.after_all(list);
    let at = stored(inner.id, key);
    if !kept_inline(inner.config, payload.len(), FLAG_POSTCARD) {
        let p = pointer_to(id, payload, inner.config.chunk_size as int, FLAG_POSTCARD);
        pieces_glue_back(payload, inner.config.chunk_size as int);
        assert(legal(p));
        a_pointer_round_trips(p);
        assert(owns(after.records, at) && owned(after.records, at) == id);
        assert forall|c: Seq<u8>| #[trigger] after.chunks.contains_key(c) && !starts_with(c, be64(id)) implies mid.chunks.contains_key(
        c) by {}
    }
    assert forall|c: Seq<u8>| #[trigger] mid.chunks.contains_key(c) implies store.chunks.contains_key(c) by {
        dropping_only_drops(store, inner.id, key, c);
    }
    a_change_keeps_housed(store, after, at);
}

/// Dropping the chunks behind a key adds none.
proof fn dropping_only_drops(store: Store, id: LockerId, key: Seq<u8>, c: Seq<u8>)
    requires
        gc_list(store.records, id, key, Prior::Unknown) is Some,
    ensures
        store.after_all(gc_list(store.records, id, key, Prior::Unknown)->0).chunks.contains_key(c)
            ==> store.chunks.contains_key(c),
{
    let dropped = gc_list(store.records, id, key, Prior::Unknown)->0;
    if dropped.len() > 0 {
        let p = parsed(store.records[stored(id, key)])->0;
        assert(dropped =~= Seq::<Change>::empty().push(gc(p)));
        after_all_pushes(store, Seq::empty(), gc(p));
    }
    assert(store.after_all(Seq::<Change>::empty()) == store);
}

/// A removal keeps every chunk housed.
proof fn removing_keeps_housed(store: Store, id: LockerId, key: Seq<u8>)
    requires
        gc_list(store.records, id, key, Prior::Unknown) is Some,
        housed(store),
    ensures
        housed(store.after_all(gc_list(store.records, id, key, Prior::Unknown)->0.push(record_delete(id, key)))),
{
    let dropped = gc_list(store.records, id, key, Prior::Unknown)->0;
    let mid = store.after_all(dropped);
    after_all_pushes(store, dropped, record_delete(id, key));
    dropping_behind_a_key(store, id, key, Prior::Unknown);
    let after = store.after_all(dropped.push(record_delete(id, key)));
    assert forall|c: Seq<u8>| #[trigger] mid.chunks.contains_key(c) implies store.chunks.contains_key(c) by {
        dropping_only_drops(store, id, key, c);
    }
    a_change_keeps_housed(store, after, stored(id, key));
}

/// Dropping the chunks of some keys leaves none of theirs, and adds none.
proof fn dropping_all_clears(store: Store, rows: Rows, keys: Seq<Seq<u8>>)
    ensures
        ({
            let after = store.after_all(gc_all(rows, keys));
            &&& forall|c: Seq<u8>| #[trigger] after.chunks.contains_key(c) ==> store.chunks.contains_key(c)
            &&& forall|c: Seq<u8>, i: int|
                #![trigger after.chunks.contains_key(c), keys[i]]
                after.chunks.contains_key(c) && 0 <= i < keys.len() && points(rows[keys[i]]) && parsed(
                    rows[keys[i]],
                ) is Some ==> !starts_with(c, be64(parsed(rows[keys[i]])->0.value_id))
        }),
    decreases keys.len(),
{
    if keys.len() == 0 {
        assert(store.after_all(Seq::<Change>::empty()) == store);
    } else {
        let short = keys.drop_last();
        dropping_all_clears(store, rows, short);
        let so_far = gc_all(rows, short);
        let mid = store.after_all(so_far);
        let record = rows[keys.last()];
        let after = store.after_all(gc_all(rows, keys));
        if points(record) && parsed(record) is Some {
            let p = parsed(record)->0;
            after_all_pushes(store, so_far, gc(p));
            dropping_stays_inside(mid, p);
        }
        assert forall|c: Seq<u8>| #[trigger] after.chunks.contains_key(c) implies mid.chunks.contains_key(c) by {}
        assert forall|c: Seq<u8>, i: int|
            #![trigger after.chunks.contains_key(c), keys[i]]
            after.chunks.contains_key(c) && 0 <= i < keys.len() && points(rows[keys[i]]) && parsed(
                rows[keys[i]],
            ) is Some implies !starts_with(c, be64(parsed(rows[keys[i]])->0.value_id)) by {
            if i < short.len() {
                assert(short[i] == keys[i]);
                assert(mid.chunks.contains_key(c));
            }
        }
    }
}

/// A clear keeps every chunk housed.
proof fn clearing_keeps_housed(store: Store, id: LockerId)
    requires
        store.records.dom().finite(),
        housed(store),
    ensures
        housed(store.after_all(clears(store.records, id))),
{
    let rows = locker_rows(store.records, id);
    let keys = listing(rows.dom());
    let list = clears(store.records, id);
    let after = store.after_all(list);
    let mid = store.after_all(gc_all(rows, keys));
    clearing_on_records(store, id, list);
    after_all_pushes(store, gc_all(rows, keys), records_clear(id));
    dropping_all_clears(store, rows, keys);
    everything_is_within(rows);
    walking_reads_the_locker(store.records, id, Span { start: Bound::Unbounded, end: Bound::Unbounded }, false);
    assert forall|c: Seq<u8>| #[trigger] after.chunks.contains_key(c) implies has_owner(after.records, c) by {
        assert(mid.chunks.contains_key(c));
        assert(has_owner(store.records, c));
        let k = choose|k: Seq<u8>| #[trigger]
            owns(store.records, k) && starts_with(c, be64(owned(store.records, k)));
        if starts_with(k, be32(id)) {
            let u = k.skip(4);
            assert(stored(id, u) =~= k) by {
                assert(k.take(4) =~= be32(id));
            }
            assert(rows.dom().contains(u));
            assert(keys.contains(u));
            let i = keys.index_of(u);
            assert(keys[i] == u);
            assert(rows[keys[i]] == store.records[k]);
        }
        assert(owns(after.records, k));
    }
}

/// Shedding keeps every chunk housed, where whatever it sheds is still what it
/// was when its chunks were looked up.
proof fn shedding_keeps_housed(store: Store, records: Rows, id: LockerId, victims: Seq<Seq<u8>>)
    requires
        evictions(records, id, victims) is Some,
        forall|i: int|
            0 <= i < victims.len() && owns(store.records, #[trigger] stored(id, victims[i])) ==> records.contains_key(
                stored(id, victims[i]),
            ) && records[stored(id, victims[i])] == store.records[stored(id, victims[i])],
        housed(store),
    ensures
        housed(store.after_all(evictions(records, id, victims)->0)),
    decreases victims.len(),
{
    if victims.len() == 0 {
        assert(store.after_all(Seq::<Change>::empty()) == store);
    } else {
        let short = victims.drop_last();
        let v = victims.last();
        let at = stored(id, v);
        assert(victims[victims.len() - 1] == v);
        assert forall|i: int| 0 <= i < short.len() && owns(store.records, #[trigger] stored(id, short[i])) implies records.contains_key(
            stored(id, short[i]),
        ) && records[stored(id, short[i])] == store.records[stored(id, short[i])] by {
            assert(stored(id, victims[i]) == stored(id, short[i]));
        }
        shedding_keeps_housed(store, records, id, short);
        shedding_on_records(store, records, id, short);
        let so_far = evictions(records, id, short)->0;
        let dropped = gc_list(records, id, v, Prior::Unknown)->0;
        let tail = dropped.push(record_delete(id, v)).push(entry_delete(id, v));
        after_all_appends(store, so_far, tail);
        let mid = store.after_all(so_far);
        after_all_pushes(mid, dropped.push(record_delete(id, v)), entry_delete(id, v));
        after_all_pushes(mid, dropped, record_delete(id, v));
        let gone = mid.after_all(dropped);
        let after = store.after_all(so_far + tail);
        gc_spares_records(records, id, v, Prior::Unknown);
        if dropped.len() > 0 {
            let p = parsed(records[at])->0;
            assert(dropped =~= Seq::<Change>::empty().push(gc(p)));
            after_all_pushes(mid, Seq::empty(), gc(p));
            assert(mid.after_all(Seq::<Change>::empty()) == mid);
            dropping_stays_inside(mid, p);
            assert forall|c: Seq<u8>| #[trigger] gone.chunks.contains_key(c) implies mid.chunks.contains_key(c) by {}
        } else {
            assert(dropped =~= Seq::<Change>::empty());
            assert(mid.after_all(Seq::<Change>::empty()) == mid);
        }
        assert(owns(mid.records, at) ==> owns(records, at) && owned(records, at) == owned(mid.records, at)) by {
            if owns(mid.records, at) {
                assert(locker_rows(mid.records, id).dom().contains(v));
                assert(!short.to_set().contains(v));
                assert forall|i: int| 0 <= i < short.len() implies #[trigger] stored(id, short[i]) != at by {
                    storing_round_trips(id, short[i]);
                    storing_round_trips(id, v);
                    assert(short.contains(short[i]));
                }
                assert(store.records.contains_key(at) && mid.records[at] == store.records[at]);
                assert(owns(store.records, stored(id, victims[victims.len() - 1])));
            }
        }
        a_change_keeps_housed(mid, after, at);
    }
}

/// What lands keeps every chunk housed where its own changes do: what it sheds
/// besides is gone whole.
proof fn what_lands_keeps_housed(
    lru: Option<LruState>,
    id: LockerId,
    store: Store,
    tick: Option<u64>,
    out: Seq<Change>,
    updates: Seq<(Seq<u8>, u64)>,
    removals: Seq<Seq<u8>>,
    cleared: bool,
    keep: Seq<Seq<u8>>,
    b: Budget,
    after: Store,
)
    requires
        write_landed(lru, id, store, tick, out, updates, removals, cleared, keep, b, after),
        housed(store.after_all(out)),
        forall|i: int|
            0 <= i < b.plan.victims@.len() && owns(
                store.after_all(out).records,
                #[trigger] stored(id, views(b.plan.victims@)[i]),
            ) ==> store.records.contains_key(stored(id, views(b.plan.victims@)[i]))
                && store.records[stored(id, views(b.plan.victims@)[i])] == store.after_all(out).records[stored(
                id,
                views(b.plan.victims@)[i],
            )],
    ensures
        housed(after),
{
    reveal(write_landed);
    let victims = views(b.plan.victims@);
    let all = choose|all: Seq<Change>|
        {
            &&& after == #[trigger] store.after_all(all)
            &&& match lru {
                Some(s) => budgeted(s, id, store, tick, updates, removals, cleared, keep, b, out, all),
                None => all == out && no_budget(b),
            }
        };
    if let Some(s) = lru {
        let led = up_to_date(s, store.meta, id);
        let next = (tick->0 + 1) as u64;
        let more = budget_list(store.records, id, led, b, next)->0;
        after_all_appends(store, out, more);
        let base = store.after_all(out);
        let mid = a_budget_is_kept_in_meta(base, store.records, id, led, b, next);
        assert(housed(mid)) by {
            assert forall|c: Seq<u8>| #[trigger] mid.chunks.contains_key(c) implies has_owner(mid.records, c) by {
                assert(base.chunks.contains_key(c));
            }
        }
        shedding_keeps_housed(mid, store.records, id, victims);
        let end = mid.after_all(evictions(store.records, id, victims)->0);
        assert forall|c: Seq<u8>| #[trigger] after.chunks.contains_key(c) implies has_owner(after.records, c) by {
            assert(end.chunks.contains_key(c));
        }
    }
}

/// A put leaves no chunk behind: neither of the value it replaces nor of those
/// it sheds.
pub proof fn a_put_leaves_no_chunk_behind<B: Backend>(
    before: Resident,
    shared: Shared<B>,
    key: Seq<u8>,
    payload: Seq<u8>,
    b: Budget,
    store: Store,
)
    requires
        housed(shared.backend.store()),
        honest(before, shared.backend.store()),
        before.inner.config.chunk_size > 0,
        payload.len() <= MAX_DECODED_BYTES,
        put_stored(before, shared, key, payload, b, store),
    ensures
        housed(store),
{
    let was = shared.backend.store();
    let id = before.inner.id;
    let trusted = shared.trusts(before.inner);
    let prior = before.prior_spec(key, trusted);
    an_honest_index_misses_no_chunk(before, was, key, trusted);
    let dropped = gc_list(was.records, id, key, prior)->0;
    let out = choose|out: Seq<Change>|
        {
            &&& #[trigger] stores(before.inner, key, payload, FLAG_POSTCARD, dropped, shared.next_id(), out)
            &&& write_landed(
                before.lru,
                id,
                was,
                shared.next_tick(),
                out,
                seq![(key, payload.len() as u64)],
                Seq::empty(),
                false,
                seq![key],
                b,
                store,
            )
        };
    writing_keeps_housed(&before.inner, was, key, payload, shared.next_id(), out);
    let record = a_write_adds_up(&before.inner, was, key, payload, FLAG_POSTCARD, prior, shared.next_id(), out);
    assert(seq![key][0] == key);
    a_written_key_is_no_victim(
        before.lru,
        id,
        was,
        shared.next_tick(),
        out,
        seq![(key, payload.len() as u64)],
        Seq::empty(),
        false,
        seq![key],
        b,
        store,
        key,
    );
    let victims = views(b.plan.victims@);
    let base = was.after_all(out);
    assert forall|i: int| 0 <= i < victims.len() && owns(base.records, #[trigger] stored(id, victims[i])) implies was.records.contains_key(
        stored(id, victims[i]),
    ) && was.records[stored(id, victims[i])] == base.records[stored(id, victims[i])] by {
        storing_round_trips(id, victims[i]);
        storing_round_trips(id, key);
        assert(victims.contains(victims[i]));
    }
    what_lands_keeps_housed(
        before.lru,
        id,
        was,
        shared.next_tick(),
        out,
        seq![(key, payload.len() as u64)],
        Seq::empty(),
        false,
        seq![key],
        b,
        store,
    );
}

/// A delete leaves no chunk behind.
pub proof fn a_delete_leaves_no_chunk_behind<B: Backend>(
    before: Resident,
    shared: Shared<B>,
    key: Seq<u8>,
    b: Budget,
    after: Resident,
    store: Store,
)
    requires
        housed(shared.backend.store()),
        honest(before, shared.backend.store()),
        delete_landed(before, shared, key, b, after, store),
    ensures
        housed(store),
{
    let was = shared.backend.store();
    let id = before.inner.id;
    let trusted = shared.trusts(before.inner);
    let prior = before.prior_spec(key, trusted);
    an_honest_index_misses_no_chunk(before, was, key, trusted);
    let dropped = gc_list(was.records, id, key, prior)->0;
    let out = dropped.push(record_delete(id, key));
    removing_keeps_housed(was, id, key);
    gc_spares_records(was.records, id, key, prior);
    only_the_last_counts(was, dropped, record_delete(id, key));
    what_lands_keeps_housed(
        before.lru,
        id,
        was,
        shared.next_tick(),
        out,
        Seq::empty(),
        seq![key],
        false,
        Seq::empty(),
        b,
        store,
    );
}

/// A clear leaves no chunk behind.
pub proof fn a_clear_leaves_no_chunk_behind<B: Backend>(
    before: Resident,
    shared: Shared<B>,
    b: Budget,
    after: Resident,
    store: Store,
)
    requires
        housed(shared.backend.store()),
        shared.backend.store().is_finite(),
        clear_landed(before, shared, b, after, store),
    ensures
        housed(store),
{
    let was = shared.backend.store();
    let id = before.inner.id;
    let out = clears(was.records, id);
    clearing_keeps_housed(was, id);
    clearing_on_records(was, id, out);
    what_lands_keeps_housed(
        before.lru,
        id,
        was,
        shared.next_tick(),
        out,
        Seq::empty(),
        Seq::empty(),
        true,
        Seq::empty(),
        b,
        store,
    );
}

/// A store with no chunks has none that is not housed.
pub proof fn a_store_without_chunks_is_housed(store: Store)
    requires
        store.chunks == Map::<Seq<u8>, Seq<u8>>::empty(),
    ensures
        housed(store),
{
}

/// The first `n` keys of a batch keep every chunk housed.
proof fn parts_keep_housed(
    inner: &Inner,
    records: Rows,
    base: Store,
    prior: Prior,
    keys: Seq<Seq<u8>>,
    last: Map<Seq<u8>, Option<Seq<u8>>>,
    parts: Seq<Seq<Change>>,
    ids: Seq<u64>,
    n: int,
)
    requires
        inner.config.chunk_size > 0,
        keys.no_duplicates(),
        spells(*inner, TxMode::Lazy, records, prior, keys, last, parts, ids),
        prior is Unknown ==> base.records == records,
        prior !is Unknown ==> forall|k: Seq<u8>| !(#[trigger] base.records.contains_key(stored(inner.id, k))),
        forall|k: Seq<u8>| #[trigger]
            keys.contains(k) ==> (last[k] matches Some(payload) ==> payload.len() <= MAX_DECODED_BYTES),
        housed(base),
        0 <= n <= keys.len(),
    ensures
        housed(base.after_all(flat(parts.take(n)))),
    decreases n,
{
    if n == 0 {
        assert(flat(parts.take(0)) =~= Seq::<Change>::empty());
        assert(base.after_all(Seq::<Change>::empty()) == base);
    } else {
        let m = n - 1;
        parts_keep_housed(inner, records, base, prior, keys, last, parts, ids, m);
        parts_on_records(inner, TxMode::Lazy, base, records, prior, keys, last, parts, ids, m);
        assert(parts.take(n).drop_last() =~= parts.take(m));
        assert(parts.take(n).last() == parts[m]);
        after_all_appends(base, flat(parts.take(m)), parts[m]);
        let now = base.after_all(flat(parts.take(m)));
        let key = keys[m];
        let at = stored(inner.id, key);
        assert(not_among(inner.id, keys, m, at)) by {
            assert forall|j: int| 0 <= j < m implies #[trigger] stored(inner.id, keys[j]) != at by {
                storing_round_trips(inner.id, keys[j]);
                storing_round_trips(inner.id, key);
            }
        }
        assert(keys.contains(key));
        assert(gc_list(now.records, inner.id, key, Prior::Unknown) == gc_list(records, inner.id, key, prior));
        match last[key] {
            Some(payload) => {
                writing_keeps_housed(inner, now, key, payload, ids[m], parts[m]);
            },
            None => {
                removing_keeps_housed(now, inner.id, key);
            },
        }
    }
}

/// A batch leaves no chunk behind: a transaction, a flush or a bulk write.
pub proof fn a_batch_leaves_no_chunk_behind<B: Backend>(
    before: Resident,
    shared: Shared<B>,
    list: Seq<Move>,
    b: Budget,
    store: Store,
    next: u64,
)
    requires
        housed(shared.backend.store()),
        shared.is_tidy(),
        shared.backend.store().is_finite(),
        before.mode is Lazy,
        before.inner.config.chunk_size > 0,
        forall|k: Seq<u8>| #[trigger]
            latest(list).contains_key(k) ==> (latest(list)[k] matches Some(payload) ==> payload.len()
                <= MAX_DECODED_BYTES),
        batch_landed(before, shared, list, b, store, next),
    ensures
        housed(store),
{
    reveal(batch_landed);
    let was = shared.backend.store();
    let id = before.inner.id;
    let first = shared.next_id();
    let out = choose|out: Seq<Change>|
        {
            &&& #[trigger] batched(before.inner, before.mode, was.records, list, first, next, out)
            &&& write_landed(
                before.lru,
                id,
                was,
                shared.next_tick(),
                out,
                weighed(list),
                removed(list),
                wipes(list),
                names_of(weighed(list)),
                b,
                store,
            )
        };
    let last = latest(list);
    let keys = listing(last.dom());
    let (parts, ids) = choose|parts: Seq<Seq<Change>>, ids: Seq<u64>|
        {
            &&& #[trigger] spells(before.inner, before.mode, was.records, prior_of(list), keys, last, parts, ids)
            &&& ids[0] == first
            &&& ids.last() == next
            &&& out == opening(before.inner, before.mode, was.records, list) + flat(parts)
        };
    let head = opening(before.inner, before.mode, was.records, list);
    let base = was.after_all(head);
    after_all_appends(was, head, flat(parts));
    latest_is_finite(list);
    a_finite_set_is_listed(last.dom());
    ascending_has_no_duplicates(keys);
    if wipes(list) {
        clearing_keeps_housed(was, id);
        clearing_on_records(was, id, clears(was.records, id));
        assert forall|k: Seq<u8>| !(#[trigger] base.records.contains_key(stored(id, k))) by {
            assert(stored(id, k).take(4) =~= be32(id));
        }
    } else {
        assert(head =~= Seq::<Change>::empty());
        assert(was.after_all(Seq::<Change>::empty()) == was);
    }
    assert forall|k: Seq<u8>| #[trigger] keys.contains(k) implies (last[k] matches Some(payload) ==> payload.len()
        <= MAX_DECODED_BYTES) by {
        assert(last.dom().contains(k));
        assert(latest(list).contains_key(k));
    }
    parts_keep_housed(
        &before.inner,
        was.records,
        base,
        prior_of(list),
        keys,
        last,
        parts,
        ids,
        keys.len() as int,
    );
    assert(parts.take(keys.len() as int) =~= parts);
    let victims = views(b.plan.victims@);
    let done = was.after_all(out);
    assert forall|i: int| 0 <= i < victims.len() && owns(done.records, #[trigger] stored(id, victims[i])) implies was.records.contains_key(
        stored(id, victims[i]),
    ) && was.records[stored(id, victims[i])] == done.records[stored(id, victims[i])] by {
        let v = victims[i];
        a_landed_batch_reads_as_staged(&before.inner, was, list, first, next, out, v);
        if let Some(what) = reads(list, v) {
            assert(left_with(&before.inner, done, v, what, first));
            if what is Some {
                what_is_written_is_weighed(list, v);
                a_written_key_is_no_victim(
                    before.lru,
                    id,
                    was,
                    shared.next_tick(),
                    out,
                    weighed(list),
                    removed(list),
                    wipes(list),
                    names_of(weighed(list)),
                    b,
                    store,
                    v,
                );
                assert(victims.contains(v));
            } else {
                assert(!locker_rows(done.records, id).contains_key(v));
            }
        }
    }
    what_lands_keeps_housed(
        before.lru,
        id,
        was,
        shared.next_tick(),
        out,
        weighed(list),
        removed(list),
        wipes(list),
        names_of(weighed(list)),
        b,
        store,
    );
}

/// Shedding on request leaves no chunk behind.
pub proof fn shedding_leaves_no_chunk_behind(
    before: Resident,
    store: Store,
    plan: super::lru::Plan,
    after: Resident,
    now: Store,
)
    requires
        housed(store),
        shed_landed(before, store, plan, after, now),
    ensures
        housed(now),
{
    shedding_keeps_housed(store, store.records, before.inner.id, views(plan.victims@));
}

/// A put keeps the index honest.
pub proof fn a_put_keeps_the_index_honest<B: Backend>(
    before: Resident,
    shared: Shared<B>,
    key: Seq<u8>,
    payload: Seq<u8>,
    b: Budget,
    after: Resident,
    store: Store,
)
    requires
        honest(before, shared.backend.store()),
        before.inner.config.batch() is None,
        before.staged@.len() == 0,
        put_landed(before, shared, key, payload, b, after, store),
        after.staged@.len() == 0,
        after.index is Some,
        after.inner.same_but_news(before.inner),
    ensures
        honest(after, store),
{
    a_put_keeps_the_index_faithful(before, shared, key, payload, b, after, store);
    let was = shared.backend.store();
    let id = before.inner.id;
    let prior = before.prior_spec(key, shared.trusts(before.inner));
    let dropped = gc_list(was.records, id, key, prior)->0;
    let victims = views(b.plan.victims@);
    let out = choose|out: Seq<Change>|
        {
            &&& #[trigger] stores(before.inner, key, payload, FLAG_POSTCARD, dropped, shared.next_id(), out)
            &&& write_landed(
                before.lru,
                id,
                was,
                shared.next_tick(),
                out,
                seq![(key, payload.len() as u64)],
                Seq::empty(),
                false,
                seq![key],
                b,
                store,
            )
        };
    landed_keys(
        before.lru,
        id,
        was,
        shared.next_tick(),
        out,
        seq![(key, payload.len() as u64)],
        Seq::empty(),
        false,
        seq![key],
        b,
        store,
    );
    let record = a_write_adds_up(&before.inner, was, key, payload, FLAG_POSTCARD, prior, shared.next_id(), out);
    if kept_inline(before.inner.config, payload.len(), FLAG_POSTCARD) {
        an_envelope_is_no_pointer(&before.inner.chain, payload, record);
    }
    assert forall|k: Seq<u8>| #[trigger]
        after.known_inline@.contains_key(k) && store.records.contains_key(stored(id, k)) implies !points(
        store.records[stored(id, k)],
    ) by {
        assert forall|i: int| 0 <= i < victims.len() implies #[trigger] stored(id, victims[i]) != stored(id, k) by {
            storing_round_trips(id, victims[i]);
            storing_round_trips(id, k);
            assert(victims.contains(victims[i]));
            assert(victims.to_set().contains(victims[i]));
        }
        storing_round_trips(id, k);
        storing_round_trips(id, key);
        if k != key {
            assert(before.known_inline@.contains_key(k));
        }
    }
}

/// A delete keeps the index honest.
pub proof fn a_delete_keeps_the_index_honest<B: Backend>(
    before: Resident,
    shared: Shared<B>,
    key: Seq<u8>,
    b: Budget,
    after: Resident,
    store: Store,
)
    requires
        honest(before, shared.backend.store()),
        before.inner.config.batch() is None,
        before.staged@.len() == 0,
        delete_landed(before, shared, key, b, after, store),
        after.staged@.len() == 0,
        after.index is Some,
        after.inner.same_but_news(before.inner),
    ensures
        honest(after, store),
{
    a_delete_keeps_the_index_faithful(before, shared, key, b, after, store);
    let was = shared.backend.store();
    let id = before.inner.id;
    let prior = before.prior_spec(key, shared.trusts(before.inner));
    let dropped = gc_list(was.records, id, key, prior)->0;
    let victims = views(b.plan.victims@);
    let out = dropped.push(record_delete(id, key));
    landed_keys(
        before.lru,
        id,
        was,
        shared.next_tick(),
        out,
        Seq::empty(),
        seq![key],
        false,
        Seq::empty(),
        b,
        store,
    );
    gc_spares_records(was.records, id, key, prior);
    only_the_last_counts(was, dropped, record_delete(id, key));
    assert forall|k: Seq<u8>| #[trigger]
        after.known_inline@.contains_key(k) && store.records.contains_key(stored(id, k)) implies !points(
        store.records[stored(id, k)],
    ) by {
        assert forall|i: int| 0 <= i < victims.len() implies #[trigger] stored(id, victims[i]) != stored(id, k) by {
            storing_round_trips(id, victims[i]);
            storing_round_trips(id, k);
            assert(victims.contains(victims[i]));
            assert(victims.to_set().contains(victims[i]));
        }
        assert(before.known_inline@.contains_key(k));
    }
}

/// An index that holds nothing to be inline is honest as soon as it is
/// faithful, as it is when a locker is opened, cleared or commits a batch.
pub proof fn a_modest_index_is_honest(res: Resident, store: Store)
    requires
        res.index is Some,
        faithful(res, store),
        res.known_inline@ == Map::<Seq<u8>, ()>::empty(),
    ensures
        honest(res, store),
{
}

/// A record under a key adds that key.
proof fn one_record_more(records: Rows, id: LockerId, key: Seq<u8>, record: Seq<u8>)
    ensures
        locker_rows(records.insert(stored(id, key), record), id).dom() == locker_rows(records, id).dom().insert(key),
{
    let rows = locker_rows(records.insert(stored(id, key), record), id).dom();
    assert forall|k: Seq<u8>| #[trigger] rows.contains(k) <==> locker_rows(records, id).dom().insert(key).contains(k) by {
        storing_round_trips(id, k);
        storing_round_trips(id, key);
    }
    assert(rows =~= locker_rows(records, id).dom().insert(key));
}

/// What publishing a streamed value does to the records.
proof fn a_stream_is_one_record(
    chain: &FilterChain,
    id: LockerId,
    w: Writer,
    store: Store,
    mid: Store,
    whole: Seq<Seq<u8>>,
    now: Store,
) -> (record: Seq<u8>)
    requires
        published(*chain, id, w, store, mid, whole, now),
    ensures
        now.records == store.records.insert(stored(id, w.target()), record),
{
    let key = w.target();
    let last = choose|last: Writer|
        {
            &&& last.target() == w.target()
            &&& last.id_spec() == w.id_spec()
            &&& last.pieces_done() == whole
            &&& last.buffered().len() == 0
            &&& w.wf() ==> last.wf()
            &&& #[trigger] swapped(id, last, mid, now)
        };
    let dropped = gc_list(mid.records, id, key, Prior::Unknown)->0;
    let record = pointer_bytes(last.pointer());
    gc_spares_records(mid.records, id, key, Prior::Unknown);
    only_the_last_counts(mid, dropped, record_put(id, key, record));
    record
}

/// A record that is not held to be inline keeps the index honest.
proof fn one_record_keeps_honest(
    before: Resident,
    store: Store,
    key: Seq<u8>,
    record: Seq<u8>,
    after: Resident,
    now: Store,
)
    requires
        honest(before, store),
        before.staged@.len() == 0,
        now.records == store.records.insert(stored(before.inner.id, key), record),
        after.staged@.len() == 0,
        after.index is Some,
        keys_in(after.index) == keys_in(before.index).insert(key),
        after.known_inline@ == before.known_inline@.remove(key),
        after.inner.same_but_news(before.inner),
    ensures
        honest(after, now),
{
    let id = before.inner.id;
    nothing_is_staged(before);
    nothing_is_staged(after);
    one_record_more(store.records, id, key, record);
    assert(faithful(after, now));
    assert forall|k: Seq<u8>| #[trigger]
        after.known_inline@.contains_key(k) && now.records.contains_key(stored(id, k)) implies !points(
        now.records[stored(id, k)],
    ) by {
        storing_round_trips(id, k);
        storing_round_trips(id, key);
        assert(before.known_inline@.contains_key(k));
    }
    if before.inner.config.batch() is Some {
        assert(after.known_inline@ =~= Map::<Seq<u8>, ()>::empty());
    }
}

/// Publishing a streamed value keeps the index honest: the key it names is no
/// longer held to be inline.
pub proof fn a_stream_keeps_the_index_honest(
    before: Resident,
    store: Store,
    w: Writer,
    mid: Store,
    whole: Seq<Seq<u8>>,
    after: Resident,
    now: Store,
)
    requires
        honest(before, store),
        before.staged@.len() == 0,
        published(*before.inner.chain, before.inner.id, w, store, mid, whole, now),
        after.staged@.len() == 0,
        after.index is Some,
        keys_in(after.index) == keys_in(before.index).insert(w.target()),
        after.known_inline@ == before.known_inline@.remove(w.target()),
        after.inner.same_but_news(before.inner),
    ensures
        honest(after, now),
{
    let id = before.inner.id;
    let key = w.target();
    let record = a_stream_is_one_record(&before.inner.chain, id, w, store, mid, whole, now);
    one_record_keeps_honest(before, store, key, record, after, now);
}

/// Another tab's news keeps the index honest: what it says was written is no
/// longer held to be inline, and what it does not name it left alone.
pub proof fn news_keeps_the_index_honest(
    before: Resident,
    store: Store,
    cleared: bool,
    named: Seq<Seq<u8>>,
    after: Resident,
    now: Store,
)
    requires
        honest(before, store),
        after.index is Some,
        faithful(after, now),
        after.known_inline@ == claims_left(before.known_inline@, cleared, named),
        after.inner.same_but_news(before.inner),
        !cleared ==> forall|k: Seq<u8>|
            !named.contains(k) && now.records.contains_key(#[trigger] stored(before.inner.id, k))
                ==> store.records.contains_key(stored(before.inner.id, k)) && store.records[stored(before.inner.id, k)]
                == now.records[stored(before.inner.id, k)],
    ensures
        honest(after, now),
{
    let id = before.inner.id;
    assert forall|k: Seq<u8>| #[trigger]
        after.known_inline@.contains_key(k) && now.records.contains_key(stored(id, k)) implies !points(
        now.records[stored(id, k)],
    ) by {
        assert(before.known_inline@.contains_key(k));
        assert(!named.to_set().contains(k));
        assert(!named.contains(k));
    }
    if before.inner.config.batch() is Some {
        assert(after.known_inline@ =~= Map::<Seq<u8>, ()>::empty());
    }
}

/// Every chunk belongs to a value that some record points at, or to a value
/// that is still being streamed.
pub open spec fn housed_or_streaming(store: Store, value_id: u64) -> bool {
    forall|c: Seq<u8>| #[trigger]
        store.chunks.contains_key(c) ==> has_owner(store.records, c) || starts_with(c, be64(value_id))
}

/// A finished stream leaves no chunk behind: its own belong to its key, and
/// those of the value it replaces are gone.
pub proof fn a_stream_leaves_no_chunk_behind(
    chain: &FilterChain,
    id: LockerId,
    w: Writer,
    before: Store,
    mid: Store,
    whole: Seq<Seq<u8>>,
    after: Store,
)
    requires
        housed_or_streaming(before, w.id_spec()),
        published(*chain, id, w, before, mid, whole, after),
        w.wf(),
        w.taken().len() <= MAX_DECODED_BYTES,
    ensures
        housed(after),
{
    let key = w.target();
    let last = choose|last: Writer|
        {
            &&& last.target() == w.target()
            &&& last.id_spec() == w.id_spec()
            &&& last.pieces_done() == whole
            &&& last.buffered().len() == 0
            &&& w.wf() ==> last.wf()
            &&& #[trigger] swapped(id, last, mid, after)
        };
    last.the_pointer_counts_the_pieces();
    let p = last.pointer();
    let dropped = gc_list(mid.records, id, key, Prior::Unknown)->0;
    let put = record_put(id, key, pointer_bytes(p));
    after_all_pushes(mid, dropped, put);
    dropping_behind_a_key(mid, id, key, Prior::Unknown);
    let gone = mid.after_all(dropped);
    assert(last.taken() =~= glued(whole));
    pieces_are_no_more_than_bytes(whole);
    assert(legal(p));
    a_pointer_round_trips(p);
    let at = stored(id, key);
    assert(after.records == before.records.insert(at, pointer_bytes(p)));
    assert(owns(after.records, at) && owned(after.records, at) == w.id_spec());
    assert forall|c: Seq<u8>| #[trigger] after.chunks.contains_key(c) implies has_owner(after.records, c) by {
        dropping_only_drops(mid, id, key, c);
        if !starts_with(c, be64(w.id_spec())) {
            assert(before.chunks.contains_key(c));
            let k = choose|k: Seq<u8>| #[trigger]
                owns(before.records, k) && starts_with(c, be64(owned(before.records, k)));
            assert(gone.chunks.contains_key(c));
            assert(k != at);
            assert(owns(after.records, k));
        }
    }
}

/// An abandoned stream leaves no chunk behind: what it had stored is gone.
pub proof fn an_aborted_stream_leaves_no_chunk_behind(value_id: u64, before: Store, after: Store)
    requires
        housed_or_streaming(before, value_id),
        after.records == before.records,
        same_outside(before.chunks, after.chunks, value_id),
        forall|c: Seq<u8>| #[trigger] after.chunks.contains_key(c) ==> !starts_with(c, be64(value_id)),
    ensures
        housed(after),
{
    assert forall|c: Seq<u8>| #[trigger] after.chunks.contains_key(c) implies has_owner(after.records, c) by {
        assert(before.chunks.contains_key(c));
    }
}

/// An index is not relied on where anyone else may have written the locker unheard:
/// another handle on its name, upkeep of it by name, or another tab while news is
/// not exchanged. What is stored is then read before it is replaced.
pub proof fn a_doubtful_index_is_not_relied_on<B: Backend>(res: Resident, shared: Shared<B>, key: Seq<u8>, i: int)
    requires
        res.inner.name_shared || (0 <= i < shared.handles.seats().len() && shared.handles.seats()[i].ticket
            == res.inner.ticket && shared.handles.seats()[i].shared) || (shared.tabs
            && !shared.coherence.enabled_spec()) || res.staged@.len() > 0 || res.index is None,
    ensures
        res.prior_spec(key, shared.trusts(res.inner)) is Unknown,
{
    if 0 <= i < shared.handles.seats().len() && shared.handles.seats()[i].ticket == res.inner.ticket
        && shared.handles.seats()[i].shared {
        assert(shared.handles.shares_spec(res.inner.ticket));
    }
}

} // verus!
