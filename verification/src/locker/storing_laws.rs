//! How a value reaches the store: short ones in one record and long ones cut into
//! pieces of the size asked for; at once, or with the batch that it completes;
//! and how an eager locker's memory and its store stay of one mind.

use std::sync::Arc;

use vstd::prelude::*;

use super::batch::{latest, moves, wipes, Move};
use super::batch_laws::latest_is_finite;
use super::chunk::{chunk_at, glued, pieces, pointer_bytes, ChunkPointer, FLAG_POSTCARD};
use super::eager::{self, held, open_gives, Locker};
use super::inner::{record_delete, record_put, records_clear, stores, Inner, Shared};
use super::lazy::{self, LazyLocker};
use super::policy::Commit;
use super::resident::{all_evicted, Budget};
use super::staging_laws::{bears_on, decides, the_last_write_of_a_key_decides, what_no_write_bears_on_is_left_alone};
use super::transaction::{batched, flat, opening, part_fits, prior_of, spells, TxMode};
use crate::backend::api::{
    a_prefix_span_holds_what_starts_with_it, after_all_appends, after_all_pushes, Backend, Change, Rows, Store, Table,
};
use crate::backend::memory::capped;
use crate::bytes::be32;
use crate::codec::value::Value;
use crate::codec::FilterChain;
use crate::error::{Error, Result};
use crate::key::{lockers_are_disjoint, stored, LockerId};
use crate::maintenance_laws::summed;
use crate::sorted::{a_finite_set_is_listed, ascending_has_no_duplicates, listing, views};
use crate::watch::{all_announced, News};

verus! {

/// The pieces of a payload are its bytes cut at every multiple of the size: piece
/// `i` holds the bytes from `i` times the size on, as many as the size or as are
/// left.
pub proof fn pieces_are_cut_to_size(payload: Seq<u8>, size: int, i: int)
    requires
        size > 0,
        0 <= i < pieces(payload, size).len(),
    ensures
        i * size < payload.len(),
        pieces(payload, size)[i] == payload.subrange(
            i * size,
            if (i + 1) * size <= payload.len() {
                (i + 1) * size
            } else {
                payload.len() as int
            },
        ),
        i == pieces(payload, size).len() - 1 <==> (i + 1) * size >= payload.len(),
    decreases payload.len(),
{
    let all = pieces(payload, size);
    if payload.len() <= size {
        assert(i == 0);
        assert(all[0] =~= payload.subrange(0, payload.len() as int));
        assert(0 * size == 0 && (0 + 1) * size == size) by (nonlinear_arith);
    } else {
        let rest = payload.skip(size);
        let more = pieces(rest, size);
        assert(all =~= seq![payload.take(size)] + more);
        assert(more.len() > 0) by {
            assert(rest.len() > 0);
        }
        if i == 0 {
            assert(0 * size == 0 && (0 + 1) * size == size) by (nonlinear_arith);
            assert(payload.take(size) =~= payload.subrange(0, size));
        } else {
            pieces_are_cut_to_size(rest, size, i - 1);
            assert(all[i] == more[i - 1]);
            assert((i - 1) * size + size == i * size && ((i - 1) + 1) * size + size == (i + 1) * size) by (nonlinear_arith);
            let end = if (i + 1) * size <= payload.len() {
                (i + 1) * size
            } else {
                payload.len() as int
            };
            assert((i - 1) * size >= 0) by (nonlinear_arith)
                requires
                    i >= 1,
                    size > 0,
            ;
            assert(rest.subrange((i - 1) * size, end - size) =~= payload.subrange(i * size, end));
        }
    }
}

/// Byte strings one after the other are what flattening them gives.
pub proof fn gluing_is_flattening(list: Seq<Seq<u8>>)
    ensures
        glued(list) == list.flatten(),
    decreases list.len(),
{
    if list.len() == 0 {
        assert(glued(list) =~= list.flatten());
    } else {
        let short = list.drop_last();
        gluing_is_flattening(short);
        list.lemma_flatten_and_flatten_alt_are_equivalent();
        short.lemma_flatten_and_flatten_alt_are_equivalent();
    }
}

/// A value no longer than a piece is stored as one sealed record. A longer one is
/// stored as its pieces, each sealed under its own place, and a record that says
/// how many there are and how long the value is.
pub proof fn a_long_value_is_stored_in_pieces(
    inner: &Inner,
    key: Seq<u8>,
    payload: Seq<u8>,
    dropped: Seq<Change>,
    value_id: u64,
    list: Seq<Change>,
)
    requires
        stores(*inner, key, payload, FLAG_POSTCARD, dropped, value_id, list),
        inner.config.chunk_size > 0,
    ensures
        payload.len() <= inner.config.chunk_size ==> list.len() == dropped.len() + 1 && (
        list.last() matches Change::Put { table, key: at, value } && table == Table::Records && at == stored(
            inner.id,
            key,
        ) && inner.chain.seals(payload, value)),
        payload.len() > inner.config.chunk_size ==> ({
            let size = inner.config.chunk_size as int;
            let n = pieces(payload, size).len() as int;
            let d = dropped.len() as int;
            &&& list.len() == d + n + 2
            &&& (n - 1) * size < payload.len() <= n * size
            &&& forall|i: int|
                0 <= i < n ==> (#[trigger] list[d + 1 + i] matches Change::Put { table, key: at, value } && table
                    == Table::Chunks && at == chunk_at(value_id, i as u32) && inner.chain.seals(
                    payload.subrange(
                        i * size,
                        if (i + 1) * size <= payload.len() {
                            (i + 1) * size
                        } else {
                            payload.len() as int
                        },
                    ),
                    value,
                ))
            &&& list.last() == (Change::Put {
                table: Table::Records,
                key: stored(inner.id, key),
                value: pointer_bytes(
                    ChunkPointer {
                        value_id,
                        n_chunks: n as u32,
                        total_len: payload.len() as u64,
                        flags: FLAG_POSTCARD,
                    },
                ),
            })
        }),
{
    reveal(stores);
    if payload.len() > inner.config.chunk_size {
        let size = inner.config.chunk_size as int;
        let parts = pieces(payload, size);
        let n = parts.len() as int;
        let d = dropped.len() as int;
        let body = list.subrange(d + 1, d + 1 + n);
        assert(n > 0);
        pieces_are_cut_to_size(payload, size, n - 1);
        assert((n - 1 + 1) * size == n * size) by (nonlinear_arith);
        assert forall|i: int| 0 <= i < n implies (#[trigger] list[d + 1 + i] matches Change::Put {
            table,
            key: at,
            value,
        } && table == Table::Chunks && at == chunk_at(value_id, i as u32) && inner.chain.seals(
            payload.subrange(
                i * size,
                if (i + 1) * size <= payload.len() {
                    (i + 1) * size
                } else {
                    payload.len() as int
                },
            ),
            value,
        )) by {
            assert(body[i] == list[d + 1 + i]);
            pieces_are_cut_to_size(payload, size, i);
        }
    }
}

/// A locker that defers keeps a put waiting until its batch is as large as was
/// asked for, and the put that completes it takes the whole batch along. Where
/// that fails, nothing is stored and everything still waits. A locker that does
/// not defer keeps nothing waiting.
pub proof fn a_deferred_put_waits_for_its_batch<B: Backend, T: Value>(
    before: LazyLocker<T>,
    shared: Shared<B>,
    key: Seq<u8>,
    value: &T,
    r: Result<()>,
    after: LazyLocker<T>,
    now: Shared<B>,
    n: usize,
)
    requires
        lazy::put_through(before, shared, key, value, r, after, now),
        !before.res.inner.closed,
        value.packs(),
        before.res.index is Some,
    ensures
        before.res.inner.config.commit == (Commit::Deferred { after: n }) && n > 1 ==> {
            let waiting = moves(before.res.staged@).push(Move::Put { key, payload: value.payload() });
            &&& waiting.len() < n ==> r is Ok && now == shared && moves(after.res.staged@) == waiting
            &&& waiting.len() >= n && r is Ok ==> after.res.staged@.len() == 0
            &&& r is Err ==> now.backend.store() == shared.backend.store() && moves(after.res.staged@) == waiting
        },
        before.res.inner.config.commit is Immediate ==> after.res.staged@ == before.res.staged@,
{
}

/// The same of deletes and clears.
pub proof fn a_deferred_removal_waits_for_its_batch<B: Backend, T: Value>(
    before: LazyLocker<T>,
    shared: Shared<B>,
    key: Seq<u8>,
    m: Move,
    r: Result<()>,
    after: LazyLocker<T>,
    now: Shared<B>,
    n: usize,
)
    requires
        (m == (Move::Delete { key }) && lazy::delete_through(before, shared, key, r, after, now)) || (m is Clear
            && lazy::clear_through(before, shared, r, after, now)),
        !before.res.inner.closed,
        before.res.index is Some,
    ensures
        before.res.inner.config.commit == (Commit::Deferred { after: n }) && n > 1 ==> {
            let waiting = moves(before.res.staged@).push(m);
            &&& waiting.len() < n ==> r is Ok && now == shared && moves(after.res.staged@) == waiting
            &&& waiting.len() >= n && r is Ok ==> after.res.staged@.len() == 0
            &&& r is Err ==> now.backend.store() == shared.backend.store() && moves(after.res.staged@) == waiting
        },
        before.res.inner.config.commit is Immediate ==> after.res.staged@ == before.res.staged@,
{
}

/// The same of a put to an eager locker.
pub proof fn an_eager_put_waits_for_its_batch<B: Backend, T: Value>(
    before: Locker<T>,
    shared: Shared<B>,
    key: Seq<u8>,
    value: &T,
    r: Result<Arc<T>>,
    after: Locker<T>,
    now: Shared<B>,
    n: usize,
)
    requires
        eager::put_through(before, shared, key, value, r, after, now),
        r is Ok,
    ensures
        before.res.inner.config.commit == (Commit::Deferred { after: n }) && n > 1 ==> {
            let waiting = moves(before.res.staged@).push(Move::Put { key, payload: value.payload() });
            &&& waiting.len() < n ==> now == shared && moves(after.res.staged@) == waiting
            &&& waiting.len() >= n ==> after.res.staged@.len() == 0
        },
        before.res.inner.config.commit is Immediate ==> after.res.staged == before.res.staged,
{
}

/// Whatever a put to an eager locker gives back is what it then holds under the
/// key, and it is the value that was put; every other key is held as before. A
/// value whose record is larger than the locker accepts is never held.
pub proof fn an_eager_put_is_held<B: Backend, T: Value>(
    before: Locker<T>,
    shared: Shared<B>,
    key: Seq<u8>,
    value: &T,
    r: Result<Arc<T>>,
    after: Locker<T>,
    now: Shared<B>,
    other: Seq<u8>,
)
    requires
        eager::put_through(before, shared, key, value, r, after, now),
    ensures
        r matches Ok(kept) ==> *kept == *value && after.looked_up(key) == Some(kept) && held(after.values@).contains_key(
            key,
        ) && held(after.values@)[key] == value.payload() && exists|record: Seq<u8>| #[trigger]
            before.res.inner.chain.seals(value.payload(), record) && record.len()
                <= before.res.inner.config.max_inline,
        r is Ok && other != key ==> held(after.values@).contains_key(other) == held(before.values@).contains_key(other)
            && (held(before.values@).contains_key(other) ==> held(after.values@)[other] == held(before.values@)[other]),
        r is Ok && before.res.inner.config.batch() is None ==> exists|record: Seq<u8>| #[trigger]
            before.res.inner.chain.seals(value.payload(), record) && now.backend.store().lookup(
                Table::Records,
                stored(before.res.inner.id, key),
            ) == Some(record),
        r is Ok && before.res.inner.config.batch() is None && other != key ==> now.backend.store().lookup(
            Table::Records,
            stored(before.res.inner.id, other),
        ) == shared.backend.store().lookup(Table::Records, stored(before.res.inner.id, other)),
        r is Err && before.res.inner.config.batch() is None ==> held(after.values@) == held(before.values@)
            && now.backend.store() == shared.backend.store(),
{
    let m = Move::Put { key, payload: value.payload() };
    let one = seq![m];
    reveal_with_fuel(eager::applied, 2);
    assert(one.drop_last() =~= Seq::<Move>::empty());
    assert(one.last() == m);
    lockers_are_disjoint(before.res.inner.id, key, before.res.inner.id, other);
    if r is Ok && before.res.inner.config.batch() is None {
        let record = choose|record: Seq<u8>| #[trigger]
            before.res.inner.chain.seals(value.payload(), record) && now.backend.store()
                == shared.backend.store().after(record_put(before.res.inner.id, key, record));
        assert(now.backend.store().lookup(Table::Records, stored(before.res.inner.id, key)) == Some(record));
    }
}

/// A key removed from an eager locker is held no more, nor stored; a clear leaves
/// it with nothing.
pub proof fn an_eager_removal_is_final<B: Backend, T: Value>(
    before: Locker<T>,
    shared: Shared<B>,
    m: Move,
    key: Seq<u8>,
    change: Change,
    r: Result<()>,
    after: Locker<T>,
    now: Shared<B>,
    other: Seq<u8>,
)
    requires
        eager::removal_through(before, shared, m, change, r, after, now),
        r is Ok,
        (m == (Move::Delete { key }) && change == record_delete(before.res.inner.id, key)) || (m is Clear && change
            == records_clear(before.res.inner.id)),
    ensures
        !held(after.values@).contains_key(key),
        m is Clear ==> !held(after.values@).contains_key(other),
        m is Delete && other != key ==> held(after.values@).contains_key(other) == held(before.values@).contains_key(
            other,
        ) && (held(before.values@).contains_key(other) ==> held(after.values@)[other] == held(before.values@)[other]),
        before.res.inner.config.batch() is None ==> now.backend.store().lookup(
            Table::Records,
            stored(before.res.inner.id, key),
        ) is None,
        before.res.inner.config.batch() is None && m is Clear ==> now.backend.store().lookup(
            Table::Records,
            stored(before.res.inner.id, other),
        ) is None,
{
    let one = seq![m];
    reveal_with_fuel(eager::applied, 2);
    assert(one.drop_last() =~= Seq::<Move>::empty());
    assert(one.last() == m);
    let id = before.res.inner.id;
    a_prefix_span_holds_what_starts_with_it(be32(id), stored(id, key));
    a_prefix_span_holds_what_starts_with_it(be32(id), stored(id, other));
    assert(stored(id, key).take(4) =~= be32(id));
    assert(stored(id, other).take(4) =~= be32(id));
}

/// The records once the first keys of an eager batch are done: each holds the
/// sealed payload it was left with.
proof fn eager_parts_are_sealed(
    inner: &Inner,
    store: Store,
    records: Rows,
    prior: super::inner::Prior,
    keys: Seq<Seq<u8>>,
    last: Map<Seq<u8>, Option<Seq<u8>>>,
    parts: Seq<Seq<Change>>,
    ids: Seq<u64>,
    n: int,
    j: int,
)
    requires
        spells(*inner, TxMode::Eager, records, prior, keys, last, parts, ids),
        keys.no_duplicates(),
        0 <= j < n <= keys.len(),
    ensures
        last[keys[j]] matches Some(payload) ==> (store.after_all(flat(parts.take(n))).lookup(
            Table::Records,
            stored(inner.id, keys[j]),
        ) matches Some(record) && inner.chain.seals(payload, record) && record.len() <= inner.config.max_inline),
    decreases n,
{
    let m = n - 1;
    assert(parts.take(n).drop_last() =~= parts.take(m));
    assert(parts.take(n).last() == parts[m]);
    after_all_appends(store, flat(parts.take(m)), parts[m]);
    let mid = store.after_all(flat(parts.take(m)));
    assert(part_fits(*inner, TxMode::Eager, records, prior, keys[m], last[keys[m]], ids[m], parts[m]));
    assert(mid.after_all(Seq::<Change>::empty()) == mid);
    match last[keys[m]] {
        Some(payload) => {
            let record = choose|record: Seq<u8>|
                inner.chain.seals(payload, record) && record.len() <= inner.config.max_inline && parts[m] == seq![
                    #[trigger] record_put(inner.id, keys[m], record),
                ];
            assert(parts[m] =~= Seq::<Change>::empty().push(record_put(inner.id, keys[m], record)));
            after_all_pushes(mid, Seq::empty(), record_put(inner.id, keys[m], record));
        },
        None => {
            assert(parts[m] =~= Seq::<Change>::empty().push(record_delete(inner.id, keys[m])));
            after_all_pushes(mid, Seq::empty(), record_delete(inner.id, keys[m]));
        },
    }
    if j < m {
        eager_parts_are_sealed(inner, store, records, prior, keys, last, parts, ids, m, j);
        assert(keys[j] != keys[m]);
        lockers_are_disjoint(inner.id, keys[j], inner.id, keys[m]);
    }
}

/// Once an eager batch has landed, a key whose last write is a put is stored as
/// that payload, sealed and no larger than the locker accepts; one that was
/// deleted or cleared away is not stored; and one that no write bears on is stored
/// as it was.
pub proof fn an_eager_batch_stores_its_last_writes(
    inner: &Inner,
    store: Store,
    list: Seq<Move>,
    first: u64,
    next: u64,
    out: Seq<Change>,
    i: int,
    key: Seq<u8>,
)
    requires
        batched(*inner, TxMode::Eager, store.records, list, first, next, out),
        store.is_finite(),
        decides(list, i, key) || (i < 0 && forall|j: int| 0 <= j < list.len() ==> !bears_on(#[trigger] list[j], key)),
    ensures
        i >= 0 ==> match list[i] {
            Move::Put { payload, .. } => store.after_all(out).lookup(Table::Records, stored(inner.id, key)) matches Some(
                record,
            ) && inner.chain.seals(payload, record) && record.len() <= inner.config.max_inline,
            _ => store.after_all(out).lookup(Table::Records, stored(inner.id, key)) is None,
        },
        i < 0 ==> store.after_all(out).lookup(Table::Records, stored(inner.id, key)) == store.lookup(
            Table::Records,
            stored(inner.id, key),
        ),
{
    let last = latest(list);
    let keys = listing(last.dom());
    latest_is_finite(list);
    a_finite_set_is_listed(last.dom());
    ascending_has_no_duplicates(keys);
    let (parts, ids) = choose|parts: Seq<Seq<Change>>, ids: Seq<u64>|
        {
            &&& #[trigger] spells(*inner, TxMode::Eager, store.records, prior_of(list), keys, last, parts, ids)
            &&& ids[0] == first
            &&& ids.last() == next
            &&& out == opening(*inner, TxMode::Eager, store.records, list) + flat(parts)
        };
    let head = opening(*inner, TxMode::Eager, store.records, list);
    let base = store.after_all(head);
    after_all_appends(store, head, flat(parts));
    let n = keys.len() as int;
    assert(parts.take(n) =~= parts);
    super::lazy_laws::parts_on_records(
        inner,
        TxMode::Eager,
        base,
        store.records,
        prior_of(list),
        keys,
        last,
        parts,
        ids,
        n,
    );
    let at = stored(inner.id, key);
    if wipes(list) {
        assert(store.after_all(Seq::<Change>::empty()) == store);
        assert(head =~= Seq::<Change>::empty().push(records_clear(inner.id)));
        after_all_pushes(store, Seq::empty(), records_clear(inner.id));
        a_prefix_span_holds_what_starts_with_it(be32(inner.id), at);
        assert(at.take(4) =~= be32(inner.id));
        assert(!base.records.contains_key(at));
    } else {
        assert(head =~= Seq::<Change>::empty());
        assert(base == store);
    }
    if i >= 0 {
        the_last_write_of_a_key_decides(list, i, key, Set::empty(), 0);
    } else {
        what_no_write_bears_on_is_left_alone(list, key, Set::empty(), 0);
    }
    if last.contains_key(key) {
        assert(last.dom().contains(key));
        let j = keys.index_of(key);
        assert(last[keys[j]] == last[key]);
        eager_parts_are_sealed(inner, base, store.records, prior_of(list), keys, last, parts, ids, n, j);
    } else {
        assert(super::batch_laws::not_among(inner.id, keys, n, at)) by {
            assert forall|j: int| 0 <= j < n implies #[trigger] stored(inner.id, keys[j]) != at by {
                assert(keys.contains(keys[j]));
                assert(last.dom().contains(keys[j]));
                lockers_are_disjoint(inner.id, keys[j], inner.id, key);
            }
        }
    }
}

/// An eager locker opens only where everything it stores, added up, fits its
/// budget, and says how much there is where it does not. Every record that decodes
/// is then held as it decodes; one that does not keeps the locker shut, unless
/// damage is skipped.
pub proof fn an_eager_locker_holds_all_it_stores<T: Value>(
    store: Store,
    answers: bool,
    chain: &FilterChain,
    id: LockerId,
    name: Seq<char>,
    config: super::policy::LockerConfig,
    r: Result<Locker<T>>,
    key: Seq<u8>,
) -> (keys: Seq<Seq<u8>>)
    requires
        open_gives::<T>(store, answers, chain, id, name, config, r),
        store.is_finite(),
    ensures
        keys.no_duplicates(),
        forall|k: Seq<u8>| #[trigger]
            keys.contains(k) <==> super::inner::locker_rows(store.records, id).contains_key(k),
        ({
            let rows = super::inner::locker_rows(store.records, id);
            let total = capped(summed(keys.map_values(|k: Seq<u8>| rows[k].len())));
            &&& r is Ok ==> total <= config.eager_budget
            &&& answers && config.policy !is Evictable ==> (r matches Err(Error::LockerTooLarge { bytes, budget })
                ==> (bytes == total && budget == config.eager_budget && total > config.eager_budget) || exists|j: int| #[trigger]
                eager::stops_at_record::<T>(chain, rows, keys, config, j, r->Err_0))
            &&& r matches Ok(l) ==> {
                &&& held(l.values@).contains_key(key) ==> rows.contains_key(key) && (chain.opened(rows[key]) matches Some(
                    p,
                ) && T::reading(p) == Some(held(l.values@)[key]))
                &&& rows.contains_key(key) && !held(l.values@).contains_key(key) ==> config.on_corrupt is Skip
                    && crate::sorted::views(l.corrupt@).contains(key)
                &&& crate::sorted::views(l.corrupt@).contains(key) ==> !held(l.values@).contains_key(key)
            }
        }),
{
    let rows = super::inner::locker_rows(store.records, id);
    super::listing_laws::rows_are_finite(store.records, id);
    a_finite_set_is_listed(rows.dom());
    let keys = listing(rows.dom());
    ascending_has_no_duplicates(keys);
    crate::maintenance_laws::rows_weigh_what_each_does(rows, keys);
    assert forall|k: Seq<u8>| #[trigger] keys.contains(k) <==> rows.contains_key(k) by {
        assert(rows.dom().contains(k) <==> keys.contains(k));
    }
    keys
}

/// Storing many entries is a put of each, in order, under the bytes of its key.
pub proof fn many_entries_are_a_put_of_each<T: Value>(entries: Seq<(String, T)>, i: int)
    requires
        0 <= i < entries.len(),
    ensures
        lazy::puts_of(entries).len() == entries.len(),
        lazy::puts_of(entries)[i] matches Move::Put { key, payload } && key == vstd::utf8::encode_utf8(entries[i].0@)
            && payload == entries[i].1.payload(),
{
}

/// Removing many keys is a delete of each, in order.
pub proof fn many_keys_are_a_delete_of_each(keys: Seq<String>, i: int)
    requires
        0 <= i < keys.len(),
    ensures
        lazy::deletes_of(keys).len() == keys.len(),
        lazy::deletes_of(keys)[i] matches Move::Delete { key } && key == vstd::utf8::encode_utf8(keys[i]@),
{
}

/// A locker without a budget tells its watchers of a put, a delete, a clear or
/// every write of a transaction, in order, and of nothing else.
pub proof fn a_precious_locker_tells_of_its_writes<B: Backend, T: Value>(
    before: LazyLocker<T>,
    shared: Shared<B>,
    key: Seq<u8>,
    value: &T,
    list: Seq<Move>,
    r: Result<()>,
    after: LazyLocker<T>,
    now: Shared<B>,
)
    requires
        before.res.lru is None,
        before.res.index is Some,
        before.res.inner.config.batch() is None,
        r is Ok,
    ensures
        lazy::put_through(before, shared, key, value, r, after, now) ==> all_announced(
            before.res.inner.watchers,
            seq![(News::Put { key })],
            after.res.inner.watchers,
        ),
        lazy::delete_through(before, shared, key, r, after, now) ==> all_announced(
            before.res.inner.watchers,
            seq![(News::Deleted { key })],
            after.res.inner.watchers,
        ),
        lazy::clear_through(before, shared, r, after, now) ==> all_announced(
            before.res.inner.watchers,
            seq![News::Cleared],
            after.res.inner.watchers,
        ),
        list.len() > 0 && lazy::commit_through(before, shared, list, r, after, now) ==> all_announced(
            before.res.inner.watchers,
            Seq::new(
                list.len(),
                |i: int|
                    match list[i] {
                        Move::Put { key, .. } => News::Put { key },
                        Move::Delete { key } => News::Deleted { key },
                        Move::Clear => News::Cleared,
                    },
            ),
            after.res.inner.watchers,
        ),
{
    reveal(super::resident::write_landed);
    reveal(super::resident::batch_landed);
    let none = Seq::<News>::empty();
    if lazy::put_through(before, shared, key, value, r, after, now) {
        let b = choose|b: Budget| #[trigger]
            lazy::put_landed(before.res, shared, key, value.payload(), b, after.res, now.backend.store());
        assert(all_evicted(views(b.plan.victims@)).push(News::Put { key }) =~= seq![News::Put { key }]);
    }
    if lazy::delete_through(before, shared, key, r, after, now) {
        let b = choose|b: Budget| #[trigger]
            lazy::delete_landed(before.res, shared, key, b, after.res, now.backend.store());
        assert(all_evicted(views(b.plan.victims@)).push(News::Deleted { key }) =~= seq![News::Deleted { key }]);
    }
    if lazy::clear_through(before, shared, r, after, now) {
        let b = choose|b: Budget| #[trigger]
            lazy::clear_landed(before.res, shared, b, after.res, now.backend.store());
        assert(all_evicted(views(b.plan.victims@)).push(News::Cleared) =~= seq![News::Cleared]);
    }
    if list.len() > 0 && lazy::commit_through(before, shared, list, r, after, now) {
        let all = moves(before.res.staged@) + list;
        let b = choose|b: Budget|
            {
                &&& #[trigger] super::resident::batch_landed(
                    before.res,
                    shared,
                    all,
                    b,
                    now.backend.store(),
                    now.next_id_from(shared.backend.store()),
                )
                &&& lazy::commit_settled(before.res, shared.backend.store(), list, b, after.res)
            };
        assert(all_evicted(views(b.plan.victims@)) + super::batch::all_told(list) =~= Seq::new(
            list.len(),
            |i: int|
                match list[i] {
                    Move::Put { key, .. } => News::Put { key },
                    Move::Delete { key } => News::Deleted { key },
                    Move::Clear => News::Cleared,
                },
        ));
    }
}

/// Once an eager transaction has landed, memory and store are of one mind on every
/// key it bears on: a put is held and stored, sealed, and a removal is neither.
pub proof fn an_eager_transaction_is_held_and_stored<B: Backend, T: Value>(
    before: Locker<T>,
    shared: Shared<B>,
    list: Seq<Move>,
    r: Result<()>,
    after: Locker<T>,
    now: Shared<B>,
    i: int,
    key: Seq<u8>,
)
    requires
        eager::commit_through(before, shared, list, r, after, now),
        before.wf(),
        r is Ok,
        shared.backend.store().is_finite(),
        decides(list, i, key),
    ensures
        match list[i] {
            Move::Put { payload, .. } => held(after.values@).contains_key(key) && held(after.values@)[key] == payload && (
            now.backend.store().lookup(Table::Records, stored(before.res.inner.id, key)) matches Some(record)
                && before.res.inner.chain.seals(payload, record) && record.len() <= before.res.inner.config.max_inline),
            _ => !held(after.values@).contains_key(key) && now.backend.store().lookup(
                Table::Records,
                stored(before.res.inner.id, key),
            ) is None,
        },
        after.res.staged@.len() == 0,
{
    let staged = moves(before.res.staged@);
    let all = staged + list;
    super::staging_laws::what_is_held_follows_the_last_writes(held(before.values@), list, i, key);
    let b = choose|b: Budget| #[trigger]
        super::resident::batch_landed(
            before.res,
            shared,
            all,
            b,
            now.backend.store(),
            now.next_id_from(shared.backend.store()),
        );
    reveal(super::resident::batch_landed);
    reveal(super::resident::write_landed);
    let out = choose|out: Seq<Change>|
        {
            &&& #[trigger] batched(
                before.res.inner,
                before.res.mode,
                shared.backend.store().records,
                all,
                shared.next_id(),
                now.next_id_from(shared.backend.store()),
                out,
            )
            &&& super::resident::write_landed(
                before.res.lru,
                before.res.inner.id,
                shared.backend.store(),
                shared.next_tick(),
                out,
                super::batch::weighed(all),
                super::batch::removed(all),
                wipes(all),
                super::batch::names_of(super::batch::weighed(all)),
                b,
                now.backend.store(),
            )
        };
    let at = staged.len() + i;
    assert(all[at] == list[i]);
    assert forall|j: int| at < j < all.len() implies !bears_on(#[trigger] all[j], key) by {
        assert(all[j] == list[j - staged.len()]);
    }
    an_eager_batch_stores_its_last_writes(
        &before.res.inner,
        shared.backend.store(),
        all,
        shared.next_id(),
        now.next_id_from(shared.backend.store()),
        out,
        at,
        key,
    );
}

} // verus!
