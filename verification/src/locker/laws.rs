//! What holds of a store whatever a locker does to it: a value written is the
//! value read back, and no write reaches past its own key.

use std::ops::Bound;

use vstd::prelude::*;

use super::chunk::{
    a_pointer_round_trips, an_envelope_is_no_pointer, chunk_at, chunk_keys_are_apart, counter_put, gc, glued, legal,
    parsed, pieces, pieces_glue_back, pointer_bytes, points, ChunkPointer,
};
use super::inner::{
    chunk_puts, clears, first_chunks, gc_all, gc_list, kept_inline, loaded, locker_rows, pointer_to, record_delete,
    record_put, records_clear, stores, Inner, Prior,
};
use crate::backend::api::{
    a_prefix_span_holds_what_starts_with_it, after_all_appends, after_all_pushes, Change, Rows, Span, Store, Table,
};
use crate::bytes::{be32, be64, starts_with};
use crate::codec::{FilterChain, MAX_DECODED_BYTES};
use crate::key::{lockers_are_disjoint, stored, storing_round_trips, LockerId};
use crate::sorted::listing;

verus! {

/// A record is a pointer that can be followed, so it owns chunks.
pub open spec fn owns(records: Rows, k: Seq<u8>) -> bool {
    records.contains_key(k) && points(records[k]) && parsed(records[k]) is Some
}

/// The id of the chunks a record owns.
pub open spec fn owned(records: Rows, k: Seq<u8>) -> u64 {
    parsed(records[k])->0.value_id
}

/// No two records own the same chunks, and every id in use is below the next
/// one to be handed out.
pub open spec fn tidy(records: Rows, next: u64) -> bool {
    &&& forall|k: Seq<u8>| #[trigger] owns(records, k) ==> owned(records, k) < next
    &&& forall|j: Seq<u8>, k: Seq<u8>|
        #[trigger] owns(records, j) && #[trigger] owns(records, k) && j != k ==> owned(records, j) != owned(
            records,
            k,
        )
}

/// The chain gives back everything a value is cut into.
pub open spec fn survives(inner: &Inner, payload: Seq<u8>, flags: u8) -> bool {
    if kept_inline(inner.config, payload.len(), flags) {
        inner.chain.keeps(payload)
    } else {
        let parts = pieces(payload, inner.config.chunk_size as int);
        &&& payload.len() <= MAX_DECODED_BYTES
        &&& forall|i: int| 0 <= i < parts.len() ==> inner.chain.keeps(#[trigger] parts[i])
    }
}

/// Chunks outside a value are as they were.
pub open spec fn same_outside(before: Rows, after: Rows, value_id: u64) -> bool {
    forall|k: Seq<u8>|
        !starts_with(k, be64(value_id)) ==> (#[trigger] after.contains_key(k) <==> before.contains_key(k)) && (
        before.contains_key(k) ==> after[k] == before[k])
}

/// Writing the chunks of a value puts each in its place and nothing else
/// anywhere.
proof fn chunks_land(chain: &FilterChain, value_id: u64, parts: Seq<Seq<u8>>, list: Seq<Change>, store: Store)
    requires
        chunk_puts(*chain, value_id, parts, list),
        parts.len() <= u32::MAX,
    ensures
        ({
            let after = store.after_all(list);
            &&& after.records == store.records
            &&& after.meta == store.meta
            &&& same_outside(store.chunks, after.chunks, value_id)
            &&& forall|i: int|
                0 <= i < parts.len() ==> after.chunks.contains_key(#[trigger] chunk_at(value_id, i as u32))
                    && chain.seals(parts[i], after.chunks[chunk_at(value_id, i as u32)])
        }),
    decreases list.len(),
{
    let after = store.after_all(list);
    if list.len() > 0 {
        let short = parts.drop_last();
        assert forall|i: int| 0 <= i < short.len() implies ((#[trigger] list.drop_last()[i]) matches Change::Put {
            table,
            key,
            value,
        } && table == Table::Chunks && key == chunk_at(value_id, i as u32) && chain.seals(short[i], value)) by {
            assert(list.drop_last()[i] == list[i]);
            assert(short[i] == parts[i]);
        }
        chunks_land(chain, value_id, short, list.drop_last(), store);
        let mid = store.after_all(list.drop_last());
        let n = list.len() - 1;
        assert(list.last() == list[n]);
        let at = chunk_at(value_id, n as u32);
        chunk_keys_are_apart(value_id, n as u32, value_id, 0);
        assert(starts_with(at, be64(value_id)));
        assert forall|i: int| 0 <= i < parts.len() implies after.chunks.contains_key(
            #[trigger] chunk_at(value_id, i as u32),
        ) && chain.seals(parts[i], after.chunks[chunk_at(value_id, i as u32)]) by {
            if i < n {
                chunk_keys_are_apart(value_id, i as u32, value_id, n as u32);
                assert(short[i] == parts[i]);
                assert(mid.chunks.contains_key(chunk_at(value_id, i as u32)));
            }
        }
        assert forall|k: Seq<u8>| !starts_with(k, be64(value_id)) implies (#[trigger] after.chunks.contains_key(k)
            <==> store.chunks.contains_key(k)) && (store.chunks.contains_key(k) ==> after.chunks[k]
            == store.chunks[k]) by {
            assert(mid.chunks.contains_key(k) <==> store.chunks.contains_key(k));
        }
    }
}

/// Sealed pieces open to the pieces, one after the other.
pub(crate) proof fn chunks_add_up(chain: &FilterChain, chunks: Rows, value_id: u64, parts: Seq<Seq<u8>>, n: int)
    requires
        0 <= n <= parts.len() <= u32::MAX,
        forall|i: int|
            0 <= i < parts.len() ==> chunks.contains_key(#[trigger] chunk_at(value_id, i as u32)) && chain.seals(
                parts[i],
                chunks[chunk_at(value_id, i as u32)],
            ),
        forall|i: int| 0 <= i < parts.len() ==> chain.keeps(#[trigger] parts[i]),
    ensures
        first_chunks(*chain, chunks, value_id, n) == Some(glued(parts.take(n))),
    decreases n,
{
    if n > 0 {
        chunks_add_up(chain, chunks, value_id, parts, n - 1);
        assert(parts.take(n).drop_last() =~= parts.take(n - 1));
        assert(parts.take(n).last() == parts[n - 1]);
        let at = chunk_at(value_id, (n - 1) as u32);
        assert(chunks.contains_key(at) && chain.seals(parts[n - 1], chunks[at]));
    }
}

/// A record that is read the same: the chunks its pointer names are the same.
pub(crate) proof fn untouched_chunks_read_the_same(chain: FilterChain, before: Rows, after: Rows, other: u64, value_id: u64, n: int)
    requires
        same_outside(before, after, value_id),
        other != value_id,
    ensures
        first_chunks(chain, after, other, n) == first_chunks(chain, before, other, n),
    decreases n,
{
    if n > 0 {
        untouched_chunks_read_the_same(chain, before, after, other, value_id, n - 1);
        let at = chunk_at(other, (n - 1) as u32);
        chunk_keys_are_apart(other, (n - 1) as u32, value_id, 0);
        assert(after.contains_key(at) <==> before.contains_key(at));
    }
}

/// Dropping the chunks of one value leaves the rest.
pub(crate) proof fn dropping_stays_inside(store: Store, p: ChunkPointer)
    ensures
        ({
            let after = store.after(gc(p));
            &&& after.records == store.records
            &&& after.meta == store.meta
            &&& same_outside(store.chunks, after.chunks, p.value_id)
            &&& forall|k: Seq<u8>| #[trigger] after.chunks.contains_key(k) ==> !starts_with(k, be64(p.value_id))
        }),
{
    let after = store.after(gc(p));
    assert forall|k: Seq<u8>| #[trigger] after.chunks.contains_key(k) <==> store.chunks.contains_key(k)
        && !starts_with(k, be64(p.value_id)) by {
        a_prefix_span_holds_what_starts_with_it(be64(p.value_id), k);
    }
}

/// The store once the chunks behind a key are dropped.
pub(crate) proof fn dropping_behind_a_key(store: Store, id: LockerId, key: Seq<u8>, prior: Prior)
    requires
        gc_list(store.records, id, key, prior) is Some,
    ensures
        ({
            let dropped = gc_list(store.records, id, key, prior)->0;
            let after = store.after_all(dropped);
            &&& after.records == store.records
            &&& after.meta == store.meta
            &&& dropped.len() > 0 ==> owns(store.records, stored(id, key)) && same_outside(
                store.chunks,
                after.chunks,
                owned(store.records, stored(id, key)),
            )
            &&& dropped.len() == 0 ==> after == store
            &&& prior is Unknown && owns(store.records, stored(id, key)) ==> forall|k: Seq<u8>| #[trigger]
                after.chunks.contains_key(k) ==> !starts_with(k, be64(owned(store.records, stored(id, key))))
        }),
{
    let dropped = gc_list(store.records, id, key, prior)->0;
    if dropped.len() > 0 {
        let p = parsed(store.records[stored(id, key)])->0;
        assert(dropped =~= Seq::<Change>::empty().push(gc(p)));
        after_all_pushes(store, Seq::empty(), gc(p));
        assert(store.after_all(Seq::<Change>::empty()) == store);
        dropping_stays_inside(store, p);
    }
}

/// What the list of a write adds up to: one record changed, and chunks only
/// under the new id and under the id of what was overwritten.
pub(crate) proof fn a_write_adds_up(
    inner: &Inner,
    store: Store,
    key: Seq<u8>,
    payload: Seq<u8>,
    flags: u8,
    prior: Prior,
    id: u64,
    list: Seq<Change>,
) -> (record: Seq<u8>)
    requires
        gc_list(store.records, inner.id, key, prior) matches Some(dropped) && stores(
            *inner,
            key,
            payload,
            flags,
            dropped,
            id,
            list,
        ),
    ensures
        ({
            let mid = store.after_all(gc_list(store.records, inner.id, key, prior)->0);
            let after = store.after_all(list);
            let parts = pieces(payload, inner.config.chunk_size as int);
            &&& after.records == store.records.insert(stored(inner.id, key), record)
            &&& if kept_inline(inner.config, payload.len(), flags) {
                &&& inner.chain.seals(payload, record)
                &&& after.chunks == mid.chunks
                &&& after.meta == store.meta
            } else {
                &&& record == pointer_bytes(pointer_to(id, payload, inner.config.chunk_size as int, flags))
                &&& same_outside(mid.chunks, after.chunks, id)
                &&& after.meta == store.after(counter_put((id + 1) as u64)).meta
                &&& forall|i: int|
                    0 <= i < parts.len() ==> after.chunks.contains_key(#[trigger] chunk_at(id, i as u32))
                        && inner.chain.seals(parts[i], after.chunks[chunk_at(id, i as u32)])
            }
        }),
{
    reveal(stores);
    let dropped = gc_list(store.records, inner.id, key, prior)->0;
    dropping_behind_a_key(store, inner.id, key, prior);
    let mid = store.after_all(dropped);
    if kept_inline(inner.config, payload.len(), flags) {
        let record = choose|record: Seq<u8>|
            inner.chain.seals(payload, record) && list.last() == #[trigger] record_put(inner.id, key, record);
        assert(list =~= dropped.push(list.last()));
        after_all_pushes(store, dropped, list.last());
        record
    } else {
        let parts = pieces(payload, inner.config.chunk_size as int);
        let n = dropped.len() as int;
        let body = list.subrange(n + 1, n + 1 + parts.len());
        let record = pointer_bytes(pointer_to(id, payload, inner.config.chunk_size as int, flags));
        let counter = counter_put((id + 1) as u64);
        assert(list =~= (dropped.push(counter) + body).push(list.last()));
        after_all_pushes(store, dropped.push(counter) + body, list.last());
        after_all_appends(store, dropped.push(counter), body);
        after_all_pushes(store, dropped, counter);
        chunks_land(&inner.chain, id, parts, body, mid.after(counter));
        record
    }
}

/// What was written is what is read: after a write, the key's record loads to
/// the payload written, inline or chunked.
pub proof fn what_is_written_is_read(
    inner: &Inner,
    store: Store,
    key: Seq<u8>,
    payload: Seq<u8>,
    flags: u8,
    prior: Prior,
    id: u64,
    list: Seq<Change>,
)
    requires
        inner.config.chunk_size > 0,
        gc_list(store.records, inner.id, key, prior) matches Some(dropped) && stores(
            *inner,
            key,
            payload,
            flags,
            dropped,
            id,
            list,
        ),
        survives(inner, payload, flags),
    ensures
        ({
            let after = store.after_all(list);
            let rows = locker_rows(after.records, inner.id);
            &&& rows.contains_key(key)
            &&& loaded(*inner.chain, after.chunks, rows[key]) == Some(payload)
            &&& points(rows[key]) <==> !kept_inline(inner.config, payload.len(), flags)
            &&& points(rows[key]) ==> parsed(rows[key]) == Some(
                pointer_to(id, payload, inner.config.chunk_size as int, flags),
            )
        }),
{
    reveal(stores);
    let record = a_write_adds_up(inner, store, key, payload, flags, prior, id, list);
    let after = store.after_all(list);
    if kept_inline(inner.config, payload.len(), flags) {
        an_envelope_is_no_pointer(&inner.chain, payload, record);
    } else {
        let parts = pieces(payload, inner.config.chunk_size as int);
        pieces_glue_back(payload, inner.config.chunk_size as int);
        let p = pointer_to(id, payload, inner.config.chunk_size as int, flags);
        assert(legal(p));
        a_pointer_round_trips(p);
        chunks_add_up(&inner.chain, after.chunks, id, parts, parts.len() as int);
        assert(parts.take(parts.len() as int) =~= parts);
    }
}

/// A write reaches no other record: every other one, of this locker or any,
/// is stored as it was and loads to what it did, and the store stays tidy.
pub proof fn a_write_disturbs_nothing_else(
    inner: &Inner,
    store: Store,
    key: Seq<u8>,
    payload: Seq<u8>,
    flags: u8,
    prior: Prior,
    id: u64,
    list: Seq<Change>,
    chain: FilterChain,
    other: Seq<u8>,
)
    requires
        inner.config.chunk_size > 0,
        gc_list(store.records, inner.id, key, prior) matches Some(dropped) && stores(
            *inner,
            key,
            payload,
            flags,
            dropped,
            id,
            list,
        ),
        tidy(store.records, id),
        other != stored(inner.id, key),
    ensures
        ({
            let after = store.after_all(list);
            &&& after.records.contains_key(other) <==> store.records.contains_key(other)
            &&& store.records.contains_key(other) ==> after.records[other] == store.records[other] && loaded(
                chain,
                after.chunks,
                store.records[other],
            ) == loaded(chain, store.chunks, store.records[other])
            &&& tidy(
                after.records,
                if kept_inline(inner.config, payload.len(), flags) {
                    id
                } else {
                    (id + 1) as u64
                },
            )
        }),
{
    reveal(stores);
    let record = a_write_adds_up(inner, store, key, payload, flags, prior, id, list);
    dropping_behind_a_key(store, inner.id, key, prior);
    let dropped = gc_list(store.records, inner.id, key, prior)->0;
    let mid = store.after_all(dropped);
    let after = store.after_all(list);
    let at = stored(inner.id, key);
    let next = if kept_inline(inner.config, payload.len(), flags) {
        id
    } else {
        (id + 1) as u64
    };
    if kept_inline(inner.config, payload.len(), flags) {
        an_envelope_is_no_pointer(&inner.chain, payload, record);
        assert(!owns(after.records, at));
    } else {
        let p = pointer_to(id, payload, inner.config.chunk_size as int, flags);
        if owns(after.records, at) {
            the_fields_of_a_pointer(p);
            assert(owned(after.records, at) == id);
        }
    }
    assert forall|k: Seq<u8>| #[trigger] owns(after.records, k) && k != at implies owns(store.records, k) && owned(
        after.records,
        k,
    ) == owned(store.records, k) by {}
    assert(tidy(after.records, next)) by {
        assert forall|k: Seq<u8>| #[trigger] owns(after.records, k) implies owned(after.records, k) < next by {
            if k != at {
                assert(owns(store.records, k));
            }
        }
        assert forall|j: Seq<u8>, k: Seq<u8>|
            #[trigger] owns(after.records, j) && #[trigger] owns(after.records, k) && j != k implies owned(
            after.records,
            j,
        ) != owned(after.records, k) by {
            if j != at {
                assert(owns(store.records, j));
            }
            if k != at {
                assert(owns(store.records, k));
            }
        }
    }
    if owns(store.records, other) {
        let p = parsed(store.records[other])->0;
        assert(p.value_id < id);
        if dropped.len() > 0 {
            assert(owns(store.records, at));
            untouched_chunks_read_the_same(
                chain,
                store.chunks,
                mid.chunks,
                p.value_id,
                owned(store.records, at),
                p.n_chunks as int,
            );
        }
        if !kept_inline(inner.config, payload.len(), flags) {
            untouched_chunks_read_the_same(chain, mid.chunks, after.chunks, p.value_id, id, p.n_chunks as int);
        }
    }
}

/// A written key has a record, and owns nothing but the id it was given.
pub(crate) proof fn a_written_key_is_there(
    inner: &Inner,
    store: Store,
    key: Seq<u8>,
    payload: Seq<u8>,
    flags: u8,
    prior: Prior,
    id: u64,
    list: Seq<Change>,
)
    requires
        gc_list(store.records, inner.id, key, prior) matches Some(dropped) && stores(
            *inner,
            key,
            payload,
            flags,
            dropped,
            id,
            list,
        ),
    ensures
        ({
            let after = store.after_all(list);
            let at = stored(inner.id, key);
            &&& after.records.contains_key(at)
            &&& owns(after.records, at) ==> owned(after.records, at) == id
        }),
{
    let record = a_write_adds_up(inner, store, key, payload, flags, prior, id, list);
    if kept_inline(inner.config, payload.len(), flags) {
        an_envelope_is_no_pointer(&inner.chain, payload, record);
    } else {
        the_fields_of_a_pointer(pointer_to(id, payload, inner.config.chunk_size as int, flags));
    }
}

/// A record written from a pointer spells that pointer, followed or not.
proof fn the_fields_of_a_pointer(p: ChunkPointer)
    ensures
        parsed(pointer_bytes(p)) matches Some(q) ==> q == p,
{
    super::chunk::pointer_layout(p);
}

/// A key deleted is gone, with every chunk behind it; every other record is
/// stored as it was and loads to what it did.
pub proof fn a_delete_removes_only_its_key(
    store: Store,
    id: LockerId,
    key: Seq<u8>,
    prior: Prior,
    next: u64,
    chain: FilterChain,
    other: Seq<u8>,
)
    requires
        gc_list(store.records, id, key, prior) is Some,
        tidy(store.records, next),
        other != stored(id, key),
    ensures
        ({
            let list = gc_list(store.records, id, key, prior)->0.push(record_delete(id, key));
            let after = store.after_all(list);
            &&& locker_rows(after.records, id) == locker_rows(store.records, id).remove(key)
            &&& after.records == store.records.remove(stored(id, key))
            &&& prior is Unknown && owns(store.records, stored(id, key)) ==> forall|k: Seq<u8>| #[trigger]
                after.chunks.contains_key(k) ==> !starts_with(k, be64(owned(store.records, stored(id, key))))
            &&& store.records.contains_key(other) ==> loaded(chain, after.chunks, store.records[other]) == loaded(
                chain,
                store.chunks,
                store.records[other],
            )
            &&& tidy(after.records, next)
        }),
{
    let dropped = gc_list(store.records, id, key, prior)->0;
    let at = stored(id, key);
    after_all_pushes(store, dropped, record_delete(id, key));
    dropping_behind_a_key(store, id, key, prior);
    let mid = store.after_all(dropped);
    let after = store.after_all(dropped.push(record_delete(id, key)));
    assert(after.records =~= store.records.remove(at));
    assert(locker_rows(after.records, id) =~= locker_rows(store.records, id).remove(key)) by {
        assert forall|k: Seq<u8>| k != key implies #[trigger] stored(id, k) != at by {
            storing_round_trips(id, k);
            storing_round_trips(id, key);
        }
    }
    removing_keeps_tidy(store.records, after.records, next);
    if owns(store.records, other) && dropped.len() > 0 {
        let p = parsed(store.records[other])->0;
        assert(owns(store.records, at));
        untouched_chunks_read_the_same(
            chain,
            store.chunks,
            mid.chunks,
            p.value_id,
            owned(store.records, at),
            p.n_chunks as int,
        );
    }
}

/// Fewer records are as tidy.
proof fn removing_keeps_tidy(before: Rows, after: Rows, next: u64)
    requires
        tidy(before, next),
        forall|k: Seq<u8>| #[trigger] after.contains_key(k) ==> before.contains_key(k) && after[k] == before[k],
    ensures
        tidy(after, next),
{
    assert forall|k: Seq<u8>| #[trigger] owns(after, k) implies owned(after, k) < next by {
        assert(owns(before, k));
    }
    assert forall|j: Seq<u8>, k: Seq<u8>|
        #[trigger] owns(after, j) && #[trigger] owns(after, k) && j != k implies owned(after, j) != owned(
        after,
        k,
    ) by {
        assert(owns(before, j) && owns(before, k));
    }
}

/// Dropping the chunks of a list of keys leaves the chunks of every other
/// record.
proof fn dropping_many(store: Store, id: LockerId, keys: Seq<Seq<u8>>, next: u64, chain: FilterChain, other: Seq<u8>)
    requires
        tidy(store.records, next),
        forall|i: int|
            0 <= i < keys.len() ==> store.records.contains_key(stored(id, #[trigger] keys[i])) && stored(id, keys[i])
                != other,
        store.records.contains_key(other),
    ensures
        ({
            let after = store.after_all(gc_all(locker_rows(store.records, id), keys));
            &&& after.records == store.records
            &&& after.meta == store.meta
            &&& loaded(chain, after.chunks, store.records[other]) == loaded(chain, store.chunks, store.records[other])
        }),
    decreases keys.len(),
{
    if keys.len() > 0 {
        let rows = locker_rows(store.records, id);
        let short = keys.drop_last();
        assert forall|i: int| 0 <= i < short.len() implies store.records.contains_key(
            stored(id, #[trigger] short[i]),
        ) && stored(id, short[i]) != other by {
            assert(short[i] == keys[i]);
        }
        dropping_many(store, id, short, next, chain, other);
        let mid = store.after_all(gc_all(rows, short));
        let at = stored(id, keys.last());
        assert(keys.last() == keys[keys.len() - 1]);
        let record = rows[keys.last()];
        if points(record) && parsed(record) is Some {
            let p = parsed(record)->0;
            after_all_pushes(store, gc_all(rows, short), gc(p));
            dropping_stays_inside(mid, p);
            assert(owns(store.records, at));
            if owns(store.records, other) {
                let q = parsed(store.records[other])->0;
                untouched_chunks_read_the_same(
                    chain,
                    mid.chunks,
                    mid.after(gc(p)).chunks,
                    q.value_id,
                    p.value_id,
                    q.n_chunks as int,
                );
            }
        }
    }
}

/// A cleared locker is empty, and no other locker notices: its records are
/// stored as they were and load to what they did.
pub proof fn a_clear_empties_only_its_locker(
    store: Store,
    id: LockerId,
    next: u64,
    chain: FilterChain,
    other: LockerId,
    key: Seq<u8>,
)
    requires
        store.is_finite(),
        tidy(store.records, next),
        other != id,
    ensures
        ({
            let after = store.after_all(clears(store.records, id));
            &&& locker_rows(after.records, id) == Map::<Seq<u8>, Seq<u8>>::empty()
            &&& locker_rows(after.records, other) == locker_rows(store.records, other)
            &&& store.records.contains_key(stored(other, key)) ==> loaded(
                chain,
                after.chunks,
                store.records[stored(other, key)],
            ) == loaded(chain, store.chunks, store.records[stored(other, key)])
            &&& tidy(after.records, next)
        }),
{
    let rows = locker_rows(store.records, id);
    super::inner::walking_reads_the_locker(
        store.records,
        id,
        Span { start: Bound::Unbounded, end: Bound::Unbounded },
        false,
    );
    super::inner::everything_is_within(rows);
    let keys = listing(rows.dom());
    assert forall|i: int| 0 <= i < keys.len() implies store.records.contains_key(stored(id, #[trigger] keys[i])) by {
        assert(keys.contains(keys[i]));
        assert(rows.dom().contains(keys[i]));
    }
    dropping_records(store, rows, keys);
    after_all_pushes(store, gc_all(rows, keys), records_clear(id));
    let mid = store.after_all(gc_all(rows, keys));
    let after = store.after_all(clears(store.records, id));
    assert forall|k: Seq<u8>| #[trigger] after.records.contains_key(k) <==> store.records.contains_key(k)
        && !starts_with(k, be32(id)) by {
        a_prefix_span_holds_what_starts_with_it(be32(id), k);
    }
    assert(locker_rows(after.records, id) =~= Map::<Seq<u8>, Seq<u8>>::empty()) by {
        assert forall|k: Seq<u8>| starts_with(#[trigger] stored(id, k), be32(id)) by {
            assert(stored(id, k).take(be32(id).len() as int) =~= be32(id));
        }
    }
    assert(locker_rows(after.records, other) =~= locker_rows(store.records, other)) by {
        assert forall|k: Seq<u8>| !starts_with(#[trigger] stored(other, k), be32(id)) by {
            a_stored_key_starts_with_its_locker(other, k, id);
        }
    }
    removing_keeps_tidy(store.records, after.records, next);
    let raw = stored(other, key);
    if store.records.contains_key(raw) {
        assert forall|i: int| 0 <= i < keys.len() implies store.records.contains_key(stored(id, #[trigger] keys[i]))
            && stored(id, keys[i]) != raw by {
            lockers_are_disjoint(id, keys[i], other, key);
        }
        dropping_many(store, id, keys, next, chain, raw);
    }
}

/// Dropping chunks touches no record.
proof fn dropping_records(store: Store, rows: Rows, keys: Seq<Seq<u8>>)
    ensures
        store.after_all(gc_all(rows, keys)).records == store.records,
        store.after_all(gc_all(rows, keys)).meta == store.meta,
    decreases keys.len(),
{
    if keys.len() > 0 {
        dropping_records(store, rows, keys.drop_last());
        let record = rows[keys.last()];
        if points(record) && parsed(record) is Some {
            after_all_pushes(store, gc_all(rows, keys.drop_last()), gc(parsed(record)->0));
        }
    }
}

/// A stored key starts with the prefix of its own locker and no other.
pub(crate) proof fn a_stored_key_starts_with_its_locker(id: LockerId, key: Seq<u8>, other: LockerId)
    ensures
        starts_with(stored(id, key), be32(other)) <==> id == other,
{
    crate::bytes::be32_round_trips(id);
    crate::bytes::be32_round_trips(other);
    assert(stored(id, key).take(be32(other).len() as int) =~= be32(id));
}

/// The locker's own chain.
pub open spec fn our_chain(inner: &Inner) -> FilterChain {
    *inner.chain
}

} // verus!
