//! What holds of a lazy locker across its operations: what is put is what is
//! read, shedding takes only its victims, and the index names exactly the keys
//! that are stored or staged.


use vstd::prelude::*;

use super::batch::{indexed, latest, moves, names_of, reads, removed, weighed, wipes, Move};
use super::batch_laws::{kept, unmoved};
use super::chunk::{gc, parsed, FLAG_POSTCARD};
use super::inner::{
    clears, gc_all, gc_list, kept_inline, locker_rows, record_delete, record_put, records_clear, stores, Inner, Prior,
    Shared,
};
use super::laws::{a_stored_key_starts_with_its_locker, our_chain, owned, owns, survives, tidy, untouched_chunks_read_the_same, what_is_written_is_read};
use super::lazy::{clear_landed, commit_settled, delete_landed, put_landed, put_stored};
use super::lru::{carried_ticks, entries_clear, entry_delete, update_views};
use super::lru_laws::kept_keys_are_never_shed;
use super::resident::{
    batch_landed, budget_applied, budget_head, budget_list, budgeted, entry_deletes, evictions, keys_in, looked_at,
    no_budget, stamped, up_to_date, update_puts, write_landed, Budget, Ledger, Resident,
};
use super::transaction::{batched, flat, opening, part_fits, prior_of, spells, TxMode};
use crate::backend::api::{
    a_prefix_span_holds_what_starts_with_it, after_all_appends, after_all_pushes, without, Backend, Change, Rows,
    Store, Table,
};
use crate::bytes::{be32, starts_with};
use crate::codec::FilterChain;
use crate::key::{lockers_are_disjoint, stored, storing_round_trips, LockerId};
use crate::sorted::{a_finite_set_is_listed, listing, lists, views};

verus! {

/// The table a change is made to.
pub open spec fn table_of(c: Change) -> Table {
    match c {
        Change::Put { table, .. } => table,
        Change::Delete { table, .. } => table,
        Change::DeleteRange { table, .. } => table,
    }
}

/// No change of a list is made to this table.
pub open spec fn spares(list: Seq<Change>, table: Table) -> bool {
    forall|i: int| 0 <= i < list.len() ==> table_of(#[trigger] list[i]) != table
}

/// A list that spares a table leaves it.
pub(crate) proof fn a_spared_table_stays(store: Store, list: Seq<Change>, table: Table)
    requires
        spares(list, table),
    ensures
        store.after_all(list).table(table) == store.table(table),
    decreases list.len(),
{
    if list.len() > 0 {
        let short = list.drop_last();
        assert forall|i: int| 0 <= i < short.len() implies table_of(#[trigger] short[i]) != table by {
            assert(short[i] == list[i]);
        }
        a_spared_table_stays(store, short, table);
        assert(list.last() == list[list.len() - 1]);
    }
}

/// Where only the last change touches the records, it alone tells what becomes
/// of them.
pub(crate) proof fn only_the_last_counts(store: Store, list: Seq<Change>, last: Change)
    requires
        spares(list, Table::Records),
    ensures
        store.after_all(list.push(last)).records == store.after(last).records,
{
    after_all_pushes(store, list, last);
    a_spared_table_stays(store, list, Table::Records);
}

/// Dropping chunks spares the records.
pub(crate) proof fn gc_spares_records(records: Rows, id: LockerId, key: Seq<u8>, prior: Prior)
    ensures
        gc_list(records, id, key, prior) matches Some(dropped) ==> spares(dropped, Table::Records) && spares(
            dropped,
            Table::Meta,
        ),
{
}

/// The records once a payload is stored under a key.
proof fn storing_on_records(
    inner: &Inner,
    store: Store,
    records: Rows,
    key: Seq<u8>,
    payload: Seq<u8>,
    prior: Prior,
    id: u64,
    list: Seq<Change>,
) -> (record: Seq<u8>)
    requires
        gc_list(records, inner.id, key, prior) matches Some(dropped) && stores(
            *inner,
            key,
            payload,
            FLAG_POSTCARD,
            dropped,
            id,
            list,
        ),
    ensures
        store.after_all(list).records == store.records.insert(stored(inner.id, key), record),
{
    reveal(stores);
    let dropped = gc_list(records, inner.id, key, prior)->0;
    gc_spares_records(records, inner.id, key, prior);
    let n = dropped.len() as int;
    let short = list.drop_last();
    assert(list =~= short.push(list.last()));
    if kept_inline(inner.config, payload.len(), FLAG_POSTCARD) {
        let record = choose|record: Seq<u8>|
            inner.chain.seals(payload, record) && list.last() == #[trigger] record_put(inner.id, key, record);
        assert(short =~= dropped);
        only_the_last_counts(store, short, list.last());
        record
    } else {
        let parts = super::chunk::pieces(payload, inner.config.chunk_size as int);
        let body = list.subrange(n + 1, n + 1 + parts.len());
        assert forall|i: int| 0 <= i < short.len() implies table_of(#[trigger] short[i]) != Table::Records by {
            if i < n {
                assert(list.take(n)[i] == list[i]);
                assert(table_of(dropped[i]) != Table::Records);
            } else if i > n {
                assert(body[i - n - 1] == list[i]);
            }
        }
        only_the_last_counts(store, short, list.last());
        super::chunk::pointer_bytes(
            super::inner::pointer_to(id, payload, inner.config.chunk_size as int, FLAG_POSTCARD),
        )
    }
}

/// The records once one key is left with `what`.
proof fn part_on_records(
    inner: &Inner,
    mode: TxMode,
    store: Store,
    records: Rows,
    prior: Prior,
    key: Seq<u8>,
    what: Option<Seq<u8>>,
    id: u64,
    part: Seq<Change>,
)
    requires
        part_fits(*inner, mode, records, prior, key, what, id, part),
    ensures
        ({
            let after = store.after_all(part).records;
            let at = stored(inner.id, key);
            &&& forall|k: Seq<u8>|
                k != at ==> (#[trigger] after.contains_key(k) <==> store.records.contains_key(k)) && (
                store.records.contains_key(k) ==> after[k] == store.records[k])
            &&& after.contains_key(at) <==> what is Some
        }),
{
    match mode {
        TxMode::Lazy => {
            gc_spares_records(records, inner.id, key, prior);
            match what {
                Some(payload) => {
                    let record = storing_on_records(inner, store, records, key, payload, prior, id, part);
                },
                None => {
                    let dropped = gc_list(records, inner.id, key, prior)->0;
                    only_the_last_counts(store, dropped, record_delete(inner.id, key));
                },
            }
        },
        TxMode::Eager => {
            assert(store.after_all(Seq::<Change>::empty()) == store);
            match what {
                Some(payload) => {
                    let record = choose|record: Seq<u8>|
                        inner.chain.seals(payload, record) && record.len() <= inner.config.max_inline && part == seq![
                            #[trigger] record_put(inner.id, key, record),
                        ];
                    assert(part =~= Seq::<Change>::empty().push(record_put(inner.id, key, record)));
                    after_all_pushes(store, Seq::empty(), record_put(inner.id, key, record));
                },
                None => {
                    assert(part =~= Seq::<Change>::empty().push(record_delete(inner.id, key)));
                    after_all_pushes(store, Seq::empty(), record_delete(inner.id, key));
                },
            }
        },
    }
}

/// The records once the first `n` keys of a batch are done.
#[verifier::spinoff_prover]
#[verifier::rlimit(60)]
pub(crate) proof fn parts_on_records(
    inner: &Inner,
    mode: TxMode,
    store: Store,
    records: Rows,
    prior: Prior,
    keys: Seq<Seq<u8>>,
    last: Map<Seq<u8>, Option<Seq<u8>>>,
    parts: Seq<Seq<Change>>,
    ids: Seq<u64>,
    n: int,
)
    requires
        spells(*inner, mode, records, prior, keys, last, parts, ids),
        keys.no_duplicates(),
        0 <= n <= keys.len(),
    ensures
        ({
            let after = store.after_all(flat(parts.take(n))).records;
            &&& forall|k: Seq<u8>| #[trigger]
                super::batch_laws::not_among(inner.id, keys, n, k) ==> (after.contains_key(k)
                    <==> store.records.contains_key(k)) && (store.records.contains_key(k) ==> after[k]
                    == store.records[k])
            &&& forall|j: int|
                0 <= j < n ==> (after.contains_key(stored(inner.id, #[trigger] keys[j])) <==> last[keys[j]] is Some)
        }),
    decreases n,
{
    if n == 0 {
        assert(flat(parts.take(0)) =~= Seq::<Change>::empty());
        assert(store.after_all(Seq::<Change>::empty()) == store);
    } else {
        let m = n - 1;
        parts_on_records(inner, mode, store, records, prior, keys, last, parts, ids, m);
        assert(parts.take(n).drop_last() =~= parts.take(m));
        assert(parts.take(n).last() == parts[m]);
        after_all_appends(store, flat(parts.take(m)), parts[m]);
        let mid = store.after_all(flat(parts.take(m)));
        let after = store.after_all(flat(parts.take(n))).records;
        part_on_records(inner, mode, mid, records, prior, keys[m], last[keys[m]], ids[m], parts[m]);
        assert forall|k: Seq<u8>| #[trigger] super::batch_laws::not_among(inner.id, keys, n, k) implies (
        after.contains_key(k) <==> store.records.contains_key(k)) && (store.records.contains_key(k) ==> after[k]
            == store.records[k]) by {
            assert(stored(inner.id, keys[m]) != k);
            assert(super::batch_laws::not_among(inner.id, keys, m, k)) by {
                assert forall|j: int| 0 <= j < m implies #[trigger] stored(inner.id, keys[j]) != k by {}
            }
            assert(mid.records.contains_key(k) <==> store.records.contains_key(k));
        }
        assert forall|j: int| 0 <= j < n implies (after.contains_key(stored(inner.id, #[trigger] keys[j])) <==> last[keys[j]] is Some) by {
            if j < m {
                storing_round_trips(inner.id, keys[j]);
                storing_round_trips(inner.id, keys[m]);
                assert(stored(inner.id, keys[j]) != stored(inner.id, keys[m]));
            }
        }
    }
}

/// A key is in an index a batch was applied to exactly where the batch leaves
/// it with something, or leaves it alone and it was there.
pub proof fn an_index_follows_a_batch(keys: Set<Seq<u8>>, list: Seq<Move>, key: Seq<u8>)
    ensures
        indexed(keys, list).contains(key) <==> match reads(list, key) {
            Some(what) => what is Some,
            None => keys.contains(key),
        },
    decreases list.len(),
{
    if list.len() > 0 {
        an_index_follows_a_batch(keys, list.drop_last(), key);
        assert(list =~= list.drop_last().push(list.last()));
        super::batch::a_staged_write_is_read(list.drop_last(), list.last(), key);
    }
}

/// A landed batch leaves a locker with exactly the keys its index was left
/// with, and every other locker with the records it had.
pub proof fn a_batch_moves_the_keys_as_the_index(
    inner: &Inner,
    mode: TxMode,
    store: Store,
    list: Seq<Move>,
    first: u64,
    next: u64,
    out: Seq<Change>,
    other: LockerId,
)
    requires
        batched(*inner, mode, store.records, list, first, next, out),
        store.is_finite(),
        other != inner.id,
    ensures
        ({
            let after = store.after_all(out);
            &&& locker_rows(after.records, inner.id).dom() == indexed(
                locker_rows(store.records, inner.id).dom(),
                list,
            )
            &&& locker_rows(after.records, other) == locker_rows(store.records, other)
        }),
{
    let last = latest(list);
    let keys = listing(last.dom());
    latest_is_finite(list);
    a_finite_set_is_listed(last.dom());
    crate::sorted::ascending_has_no_duplicates(keys);
    let (parts, ids) = choose|parts: Seq<Seq<Change>>, ids: Seq<u64>|
        {
            &&& #[trigger] spells(*inner, mode, store.records, prior_of(list), keys, last, parts, ids)
            &&& ids[0] == first
            &&& ids.last() == next
            &&& out == opening(*inner, mode, store.records, list) + flat(parts)
        };
    let head = opening(*inner, mode, store.records, list);
    let base = store.after_all(head);
    after_all_appends(store, head, flat(parts));
    let after = store.after_all(out);
    let rows = locker_rows(store.records, inner.id);
    if wipes(list) {
        clearing_on_records(store, inner.id, head);
    } else {
        assert(head =~= Seq::<Change>::empty());
        assert(store.after_all(Seq::<Change>::empty()) == store);
    }
    parts_on_records(inner, mode, base, store.records, prior_of(list), keys, last, parts, ids, keys.len() as int);
    assert(parts.take(parts.len() as int) =~= parts);
    assert forall|key: Seq<u8>| #[trigger] locker_rows(after.records, inner.id).dom().contains(key) <==> indexed(
        rows.dom(),
        list,
    ).contains(key) by {
        an_index_follows_a_batch(rows.dom(), list, key);
        let k = stored(inner.id, key);
        if last.contains_key(key) {
            assert(last.dom().contains(key));
            let j = keys.index_of(key);
            assert(stored(inner.id, keys[j]) == k);
        } else {
            not_one_of(inner.id, keys, inner.id, key, last.dom());
            assert(super::batch_laws::not_among(inner.id, keys, keys.len() as int, k));
            assert(after.records.contains_key(k) <==> base.records.contains_key(k));
            a_stored_key_starts_with_its_locker(inner.id, key, inner.id);
        }
    }
    assert(locker_rows(after.records, inner.id).dom() =~= indexed(rows.dom(), list));
    assert forall|key: Seq<u8>| true implies (#[trigger] after.records.contains_key(stored(other, key))
        <==> store.records.contains_key(stored(other, key))) && (store.records.contains_key(stored(other, key))
        ==> after.records[stored(other, key)] == store.records[stored(other, key)]) by {
        let k = stored(other, key);
        assert forall|j: int| 0 <= j < keys.len() implies #[trigger] stored(inner.id, keys[j]) != k by {
            lockers_are_disjoint(inner.id, keys[j], other, key);
        }
        assert(super::batch_laws::not_among(inner.id, keys, keys.len() as int, k));
        a_stored_key_starts_with_its_locker(other, key, inner.id);
        if store.records.contains_key(k) {
            assert(base.records.contains_key(k));
        }
    }
    assert(locker_rows(after.records, other) =~= locker_rows(store.records, other));
}

/// A key that is not on a list is stored where none of the list is.
proof fn not_one_of(id: LockerId, keys: Seq<Seq<u8>>, other: LockerId, key: Seq<u8>, dom: Set<Seq<u8>>)
    requires
        lists(keys, dom),
        id == other,
        !dom.contains(key),
    ensures
        super::batch_laws::not_among(id, keys, keys.len() as int, stored(other, key)),
{
    assert forall|j: int| 0 <= j < keys.len() implies #[trigger] stored(id, keys[j]) != stored(other, key) by {
        storing_round_trips(id, keys[j]);
        storing_round_trips(id, key);
        assert(keys.contains(keys[j]));
    }
}

/// A batch names finitely many keys.
proof fn latest_is_finite(list: Seq<Move>)
    ensures
        latest(list).dom().finite(),
    decreases list.len(),
{
    if list.len() > 0 {
        latest_is_finite(list.drop_last());
    }
}

/// Dropping the chunks of many keys spares the records.
pub(crate) proof fn gc_all_spares_records(rows: Rows, keys: Seq<Seq<u8>>)
    ensures
        spares(gc_all(rows, keys), Table::Records),
        spares(gc_all(rows, keys), Table::Meta),
    decreases keys.len(),
{
    if keys.len() > 0 {
        gc_all_spares_records(rows, keys.drop_last());
        let so_far = gc_all(rows, keys.drop_last());
        let all = gc_all(rows, keys);
        assert forall|i: int| 0 <= i < all.len() implies table_of(#[trigger] all[i]) == Table::Chunks by {
            if i < so_far.len() {
                assert(all[i] == so_far[i]);
                assert(table_of(so_far[i]) != Table::Records && table_of(so_far[i]) != Table::Meta);
            }
        }
    }
}

/// The records once a locker is cleared, with the chunks behind them or
/// without.
pub(crate) proof fn clearing_on_records(store: Store, id: LockerId, list: Seq<Change>)
    requires
        list == clears(store.records, id) || list == seq![records_clear(id)],
    ensures
        ({
            let after = store.after_all(list).records;
            &&& forall|k: Seq<u8>| #[trigger]
                after.contains_key(k) <==> store.records.contains_key(k) && !starts_with(k, be32(id))
            &&& forall|k: Seq<u8>| #[trigger] after.contains_key(k) ==> after[k] == store.records[k]
        }),
{
    let rows = locker_rows(store.records, id);
    let head = list.drop_last();
    gc_all_spares_records(rows, listing(rows.dom()));
    if list == clears(store.records, id) {
        assert(head =~= gc_all(rows, listing(rows.dom())));
    } else {
        assert(head =~= Seq::<Change>::empty());
    }
    assert(list =~= head.push(records_clear(id)));
    only_the_last_counts(store, head, records_clear(id));
    let after = store.after_all(list).records;
    assert forall|k: Seq<u8>| #[trigger] after.contains_key(k) <==> store.records.contains_key(k) && !starts_with(
        k,
        be32(id),
    ) by {
        a_prefix_span_holds_what_starts_with_it(be32(id), k);
    }
}

/// Shedding removes the records of its victims and no other.
pub(crate) proof fn shedding_on_records(store: Store, records: Rows, id: LockerId, victims: Seq<Seq<u8>>)
    requires
        evictions(records, id, victims) is Some,
    ensures
        ({
            let after = store.after_all(evictions(records, id, victims)->0).records;
            &&& locker_rows(after, id).dom() == locker_rows(store.records, id).dom().difference(victims.to_set())
            &&& forall|k: Seq<u8>|
                (forall|i: int| 0 <= i < victims.len() ==> #[trigger] stored(id, victims[i]) != k) ==> (#[trigger]
                after.contains_key(k) <==> store.records.contains_key(k)) && (store.records.contains_key(k)
                    ==> after[k] == store.records[k])
        }),
    decreases victims.len(),
{
    if victims.len() == 0 {
        assert(store.after_all(Seq::<Change>::empty()) == store);
        assert(locker_rows(store.records, id).dom().difference(victims.to_set()) =~= locker_rows(
            store.records,
            id,
        ).dom());
    } else {
        let short = victims.drop_last();
        let v = victims.last();
        shedding_on_records(store, records, id, short);
        let so_far = evictions(records, id, short)->0;
        let dropped = gc_list(records, id, v, Prior::Unknown)->0;
        gc_spares_records(records, id, v, Prior::Unknown);
        let tail = dropped.push(record_delete(id, v)).push(entry_delete(id, v));
        after_all_appends(store, so_far, tail);
        let mid = store.after_all(so_far);
        after_all_pushes(mid, dropped.push(record_delete(id, v)), entry_delete(id, v));
        only_the_last_counts(mid, dropped, record_delete(id, v));
        let after = store.after_all(so_far + tail).records;
        assert(after == mid.records.remove(stored(id, v)));
        assert forall|k: Seq<u8>| #[trigger] locker_rows(after, id).dom().contains(k) <==> locker_rows(
            store.records,
            id,
        ).dom().difference(victims.to_set()).contains(k) by {
            storing_round_trips(id, k);
            storing_round_trips(id, v);
            assert(locker_rows(mid.records, id).dom().contains(k) <==> locker_rows(
                store.records,
                id,
            ).dom().difference(short.to_set()).contains(k));
            assert(victims.contains(k) <==> short.contains(k) || k == v) by {
                if victims.contains(k) {
                    let i = victims.index_of(k);
                    if i < short.len() {
                        assert(short[i] == k);
                    }
                }
                if short.contains(k) {
                    let i = short.index_of(k);
                    assert(victims[i] == k);
                }
                assert(victims[victims.len() - 1] == v);
            }
        }
        assert(locker_rows(after, id).dom() =~= locker_rows(store.records, id).dom().difference(victims.to_set()));
        assert forall|k: Seq<u8>|
            (forall|i: int| 0 <= i < victims.len() ==> #[trigger] stored(id, victims[i]) != k) implies (#[trigger]
        after.contains_key(k) <==> store.records.contains_key(k)) && (store.records.contains_key(k) ==> after[k]
            == store.records[k]) by {
            assert forall|i: int| 0 <= i < short.len() implies #[trigger] stored(id, short[i]) != k by {
                assert(stored(id, victims[i]) != k);
            }
            assert(stored(id, victims[victims.len() - 1]) != k);
            assert(mid.records.contains_key(k) <==> store.records.contains_key(k));
        }
    }
}

/// What a commit owes its budget touches `meta`, and then only its victims.
pub(crate) proof fn a_budget_is_kept_in_meta(
    store: Store,
    records: Rows,
    id: LockerId,
    led: Ledger,
    b: Budget,
    next_tick: u64,
) -> (mid: Store)
    requires
        budget_list(records, id, led, b, next_tick) is Some,
    ensures
        evicted_from(
            store,
            mid,
            store.after_all(budget_list(records, id, led, b, next_tick)->0),
            evictions(records, id, views(b.plan.victims@)),
        ),
{
    let head = budget_head(id, led, b);
    let shed = evictions(records, id, views(b.plan.victims@))->0;
    let tick = super::lru::tick_put(next_tick);
    the_head_is_meta(id, led, b);
    after_all_pushes(store, head + shed, tick);
    after_all_appends(store, head, shed);
    meta_only(store, head);
    store.after_all(head)
}

/// What a commit does to the stored accounting is a matter of `meta`.
proof fn the_head_is_meta(id: LockerId, led: Ledger, b: Budget)
    ensures
        all_meta(budget_head(id, led, b)),
{
    reveal(budget_head);
    let updates = update_views(b.updates@);
    let names = Seq::new(updates.len(), |i: int| updates[i].0);
    let cleared: Seq<Change> = if b.cleared {
        seq![entries_clear(id)]
    } else {
        Seq::empty()
    };
    let ticks: Seq<Change> = if b.cleared {
        Seq::empty()
    } else {
        carried_ticks(id, led.books, led.deferred, looked_at(led), names)
    };
    if !b.cleared {
        carried_ticks_are_meta(id, led.books, led.deferred, looked_at(led), names);
    }
    let puts = update_puts(id, updates);
    let gone = entry_deletes(id, views(b.removals@));
    meta_appends(cleared, puts);
    meta_appends(cleared + puts, ticks);
    meta_appends(cleared + puts + ticks, gone);
}

/// Two lists of changes to `meta` are one.
proof fn meta_appends(a: Seq<Change>, b: Seq<Change>)
    requires
        all_meta(a),
        all_meta(b),
    ensures
        all_meta(a + b),
{
    let all = a + b;
    assert forall|i: int| 0 <= i < all.len() implies table_of(#[trigger] all[i]) == Table::Meta by {
        if i < a.len() {
            assert(all[i] == a[i]);
        } else {
            assert(all[i] == b[i - a.len()]);
        }
    }
}

/// Every change of a list is made to `meta`.
spec fn all_meta(list: Seq<Change>) -> bool {
    forall|i: int| 0 <= i < list.len() ==> table_of(#[trigger] list[i]) == Table::Meta
}

/// Such a list leaves the records and the chunks.
proof fn meta_only(store: Store, list: Seq<Change>)
    requires
        all_meta(list),
    ensures
        store.after_all(list).records == store.records,
        store.after_all(list).chunks == store.chunks,
{
    a_spared_table_stays(store, list, Table::Records);
    a_spared_table_stays(store, list, Table::Chunks);
}

/// Carrying deferred ticks is a matter of `meta`.
proof fn carried_ticks_are_meta(
    id: LockerId,
    books: super::lru::Books,
    pending: Map<Seq<u8>, u64>,
    keys: Seq<Seq<u8>>,
    skip: Seq<Seq<u8>>,
)
    ensures
        all_meta(carried_ticks(id, books, pending, keys, skip)),
    decreases keys.len(),
{
    if keys.len() > 0 {
        carried_ticks_are_meta(id, books, pending, keys.drop_last(), skip);
        let so_far = carried_ticks(id, books, pending, keys.drop_last(), skip);
        let all = carried_ticks(id, books, pending, keys, skip);
        assert forall|i: int| 0 <= i < all.len() implies table_of(#[trigger] all[i]) == Table::Meta by {
            if i < so_far.len() {
                assert(all[i] == so_far[i]);
            }
        }
    }
}

/// `after` has the records and chunks of `mid` once its victims are shed, and
/// `mid` those of `store`.
pub open spec fn evicted_from(store: Store, mid: Store, after: Store, shed: Option<Seq<Change>>) -> bool {
    &&& mid.records == store.records
    &&& mid.chunks == store.chunks
    &&& shed matches Some(list) && after.records == mid.after_all(list).records && after.chunks == mid.after_all(
        list,
    ).chunks
}

/// The index names exactly the keys that are stored, once what is staged is
/// applied to them.
pub open spec fn faithful(res: Resident, store: Store) -> bool {
    res.index is Some ==> keys_in(res.index) == indexed(
        locker_rows(store.records, res.inner.id).dom(),
        moves(res.staged@),
    )
}

/// The keys a locker is left with once a commit landed with its budget behind
/// it.
pub(crate) proof fn landed_keys(
    lru: Option<super::lru::LruState>,
    id: LockerId,
    store: Store,
    tick: Option<u64>,
    out: Seq<Change>,
    updates: Seq<(Seq<u8>, u64)>,
    removals: Seq<Seq<u8>>,
    cleared: bool,
    keep: Seq<Seq<u8>>,
    b: Budget,
    after: Store,
)
    requires
        write_landed(lru, id, store, tick, out, updates, removals, cleared, keep, b, after),
    ensures
        locker_rows(after.records, id).dom() == locker_rows(store.after_all(out).records, id).dom().difference(
            views(b.plan.victims@).to_set(),
        ),
        forall|k: Seq<u8>|
            (forall|i: int| 0 <= i < b.plan.victims@.len() ==> #[trigger] stored(id, views(b.plan.victims@)[i]) != k)
                ==> (#[trigger] after.records.contains_key(k) <==> store.after_all(out).records.contains_key(k)) && (
            store.after_all(out).records.contains_key(k) ==> after.records[k] == store.after_all(out).records[k]),
{
    reveal(write_landed);
    let victims = views(b.plan.victims@);
    let all = choose|all: Seq<Change>|
        {
            &&& after == #[trigger] store.after_all(all)
            &&& match lru {
                Some(s) => budgeted(s, id, store, tick, updates, removals, cleared, keep, b, out, all),
                None => all == out && no_budget(b),
            }
        };
    match lru {
        None => {
            assert(locker_rows(after.records, id).dom().difference(victims.to_set()) =~= locker_rows(
                after.records,
                id,
            ).dom());
        },
        Some(s) => {
            let led = up_to_date(s, store.meta, id);
            let next = (tick->0 + 1) as u64;
            let more = budget_list(store.records, id, led, b, next)->0;
            after_all_appends(store, out, more);
            let base = store.after_all(out);
            let mid = a_budget_is_kept_in_meta(base, store.records, id, led, b, next);
            shedding_on_records(mid, store.records, id, victims);
        },
    }
}

/// A put keeps the index faithful.
pub proof fn a_put_keeps_the_index_faithful<B: Backend>(
    before: Resident,
    shared: Shared<B>,
    key: Seq<u8>,
    payload: Seq<u8>,
    b: Budget,
    after: Resident,
    store: Store,
)
    requires
        put_landed(before, shared, key, payload, b, after, store),
        before.staged@.len() == 0,
        after.staged@.len() == 0,
        after.inner.id == before.inner.id,
        (after.index is Some) == (before.index is Some),
        faithful(before, shared.backend.store()),
    ensures
        faithful(after, store),
{
    let prior = before.prior_spec(key, shared.trusts(before.inner));
    let was = shared.backend.store();
    let dropped = gc_list(was.records, before.inner.id, key, prior)->0;
    let out = choose|out: Seq<Change>|
        {
            &&& #[trigger] stores(before.inner, key, payload, FLAG_POSTCARD, dropped, shared.next_id(), out)
            &&& write_landed(
                before.lru,
                before.inner.id,
                was,
                shared.next_tick(),
                out,
                seq![(key, payload.len() as u64)],
                Seq::empty(),
                false,
                seq![key],
                b,
                store,
            )
        };
    landed_keys(
        before.lru,
        before.inner.id,
        was,
        shared.next_tick(),
        out,
        seq![(key, payload.len() as u64)],
        Seq::empty(),
        false,
        seq![key],
        b,
        store,
    );
    let record = storing_on_records(&before.inner, was, was.records, key, payload, prior, shared.next_id(), out);
    let id = before.inner.id;
    assert(locker_rows(was.after_all(out).records, id).dom() =~= locker_rows(was.records, id).dom().insert(key)) by {
        assert forall|k: Seq<u8>| k != key implies #[trigger] stored(id, k) != stored(id, key) by {
            storing_round_trips(id, k);
            storing_round_trips(id, key);
        }
    }
    nothing_is_staged(before);
    nothing_is_staged(after);
}

/// With nothing staged, the index is the stored keys.
pub(crate) proof fn nothing_is_staged(res: Resident)
    requires
        res.staged@.len() == 0,
    ensures
        forall|keys: Set<Seq<u8>>| #[trigger] indexed(keys, moves(res.staged@)) == keys,
{
}

/// A delete keeps the index faithful.
pub proof fn a_delete_keeps_the_index_faithful<B: Backend>(
    before: Resident,
    shared: Shared<B>,
    key: Seq<u8>,
    b: Budget,
    after: Resident,
    store: Store,
)
    requires
        delete_landed(before, shared, key, b, after, store),
        before.staged@.len() == 0,
        after.staged@.len() == 0,
        after.inner.id == before.inner.id,
        (after.index is Some) == (before.index is Some),
        faithful(before, shared.backend.store()),
    ensures
        faithful(after, store),
{
    let prior = before.prior_spec(key, shared.trusts(before.inner));
    let was = shared.backend.store();
    let id = before.inner.id;
    let dropped = gc_list(was.records, id, key, prior)->0;
    let out = dropped.push(record_delete(id, key));
    landed_keys(
        before.lru,
        id,
        was,
        shared.next_tick(),
        out,
        Seq::empty(),
        seq![key],
        false,
        Seq::empty(),
        b,
        store,
    );
    gc_spares_records(was.records, id, key, prior);
    only_the_last_counts(was, dropped, record_delete(id, key));
    assert(locker_rows(was.after_all(out).records, id).dom() =~= locker_rows(was.records, id).dom().remove(key)) by {
        assert forall|k: Seq<u8>| k != key implies #[trigger] stored(id, k) != stored(id, key) by {
            storing_round_trips(id, k);
            storing_round_trips(id, key);
        }
    }
    nothing_is_staged(before);
    nothing_is_staged(after);
}

/// A clear keeps the index faithful.
pub proof fn a_clear_keeps_the_index_faithful<B: Backend>(
    before: Resident,
    shared: Shared<B>,
    b: Budget,
    after: Resident,
    store: Store,
)
    requires
        clear_landed(before, shared, b, after, store),
        after.staged@.len() == 0,
        after.inner.id == before.inner.id,
    ensures
        faithful(after, store),
{
    let was = shared.backend.store();
    let id = before.inner.id;
    landed_keys(
        before.lru,
        id,
        was,
        shared.next_tick(),
        clears(was.records, id),
        Seq::empty(),
        Seq::empty(),
        true,
        Seq::empty(),
        b,
        store,
    );
    clearing_on_records(was, id, clears(was.records, id));
    let cleared = was.after_all(clears(was.records, id));
    assert(locker_rows(cleared.records, id).dom() =~= Set::<Seq<u8>>::empty()) by {
        assert forall|k: Seq<u8>| !(#[trigger] locker_rows(cleared.records, id).dom().contains(k)) by {
            a_stored_key_starts_with_its_locker(id, k, id);
        }
    }
    assert(locker_rows(store.records, id).dom() =~= Set::<Seq<u8>>::empty());
    nothing_is_staged(after);
}

/// Committing staged writes, with a transaction's behind them or alone, keeps
/// the index faithful.
pub proof fn a_commit_keeps_the_index_faithful<B: Backend>(
    before: Resident,
    shared: Shared<B>,
    list: Seq<Move>,
    b: Budget,
    after: Resident,
    store: Store,
    next: u64,
)
    requires
        batch_landed(before, shared, moves(before.staged@) + list, b, store, next),
        commit_settled(before, shared.backend.store(), list, b, after),
        after.inner.id == before.inner.id,
        (after.index is Some) == (before.index is Some),
        shared.backend.store().is_finite(),
        faithful(before, shared.backend.store()),
    ensures
        faithful(after, store),
{
    reveal(batch_landed);
    let was = shared.backend.store();
    let id = before.inner.id;
    let all = moves(before.staged@) + list;
    let out = choose|out: Seq<Change>|
        {
            &&& #[trigger] batched(before.inner, before.mode, was.records, all, shared.next_id(), next, out)
            &&& write_landed(
                before.lru,
                id,
                was,
                shared.next_tick(),
                out,
                weighed(all),
                removed(all),
                wipes(all),
                names_of(weighed(all)),
                b,
                store,
            )
        };
    landed_keys(
        before.lru,
        id,
        was,
        shared.next_tick(),
        out,
        weighed(all),
        removed(all),
        wipes(all),
        names_of(weighed(all)),
        b,
        store,
    );
    let other: LockerId = if id == 0 {
        1
    } else {
        0
    };
    a_batch_moves_the_keys_as_the_index(
        &before.inner,
        before.mode,
        was,
        all,
        shared.next_id(),
        next,
        out,
        other,
    );
    indexing_in_two_steps(locker_rows(was.records, id).dom(), moves(before.staged@), list);
    nothing_is_staged(after);
}

/// Applying one list to an index and then another is applying both.
proof fn indexing_in_two_steps(keys: Set<Seq<u8>>, a: Seq<Move>, b: Seq<Move>)
    ensures
        indexed(keys, a + b) == indexed(indexed(keys, a), b),
    decreases b.len(),
{
    if b.len() == 0 {
        assert(a + b =~= a);
    } else {
        indexing_in_two_steps(keys, a, b.drop_last());
        assert((a + b).drop_last() =~= a + b.drop_last());
        assert((a + b).last() == b.last());
    }
}

/// A flush keeps the index faithful.
pub proof fn a_flush_keeps_the_index_faithful<B: Backend>(
    before: Resident,
    shared: Shared<B>,
    b: Budget,
    after: Resident,
    store: Store,
    next: u64,
)
    requires
        batch_landed(before, shared, moves(before.staged@), b, store, next),
        budget_applied(before, shared.backend.store().meta, b, after),
        after.staged@.len() == 0,
        after.inner.id == before.inner.id,
        (after.index is Some) == (before.index is Some),
        shared.backend.store().is_finite(),
        faithful(before, shared.backend.store()),
    ensures
        faithful(after, store),
{
    reveal(batch_landed);
    let was = shared.backend.store();
    let id = before.inner.id;
    let all = moves(before.staged@);
    let out = choose|out: Seq<Change>|
        {
            &&& #[trigger] batched(before.inner, before.mode, was.records, all, shared.next_id(), next, out)
            &&& write_landed(
                before.lru,
                id,
                was,
                shared.next_tick(),
                out,
                weighed(all),
                removed(all),
                wipes(all),
                names_of(weighed(all)),
                b,
                store,
            )
        };
    landed_keys(
        before.lru,
        id,
        was,
        shared.next_tick(),
        out,
        weighed(all),
        removed(all),
        wipes(all),
        names_of(weighed(all)),
        b,
        store,
    );
    let other: LockerId = if id == 0 {
        1
    } else {
        0
    };
    a_batch_moves_the_keys_as_the_index(
        &before.inner,
        before.mode,
        was,
        all,
        shared.next_id(),
        next,
        out,
        other,
    );
    nothing_is_staged(after);
}

/// Shedding leaves every record it does not take readable.
proof fn shedding_spares_the_rest(
    store: Store,
    records: Rows,
    id: LockerId,
    victims: Seq<Seq<u8>>,
    chain: FilterChain,
    k: Seq<u8>,
)
    requires
        evictions(records, id, victims) is Some,
        forall|i: int| 0 <= i < victims.len() ==> #[trigger] stored(id, victims[i]) != k,
        forall|i: int|
            0 <= i < victims.len() && owns(records, #[trigger] stored(id, victims[i])) && owns(store.records, k)
                ==> owned(store.records, k) != owned(records, stored(id, victims[i])),
    ensures
        unmoved(chain, store, store.after_all(evictions(records, id, victims)->0), k),
    decreases victims.len(),
{
    if victims.len() == 0 {
        assert(store.after_all(Seq::<Change>::empty()) == store);
    } else {
        let short = victims.drop_last();
        let v = victims.last();
        assert(stored(id, victims[victims.len() - 1]) != k);
        assert forall|i: int| 0 <= i < short.len() implies #[trigger] stored(id, short[i]) != k by {
            assert(stored(id, victims[i]) != k);
        }
        assert forall|i: int|
            0 <= i < short.len() && owns(records, #[trigger] stored(id, short[i])) && owns(store.records, k) implies owned(
            store.records,
            k,
        ) != owned(records, stored(id, short[i])) by {
            assert(stored(id, victims[i]) == stored(id, short[i]));
        }
        shedding_spares_the_rest(store, records, id, short, chain, k);
        let so_far = evictions(records, id, short)->0;
        let dropped = gc_list(records, id, v, Prior::Unknown)->0;
        let tail = dropped.push(record_delete(id, v)).push(entry_delete(id, v));
        after_all_appends(store, so_far, tail);
        let mid = store.after_all(so_far);
        after_all_pushes(mid, dropped.push(record_delete(id, v)), entry_delete(id, v));
        after_all_pushes(mid, dropped, record_delete(id, v));
        let gone = mid.after_all(dropped);
        if dropped.len() > 0 {
            let p = parsed(records[stored(id, v)])->0;
            assert(dropped =~= Seq::<Change>::empty().push(gc(p)));
            after_all_pushes(mid, Seq::empty(), gc(p));
            assert(mid.after_all(Seq::<Change>::empty()) == mid);
            super::laws::dropping_stays_inside(mid, p);
            assert(owns(records, stored(id, v)));
            if owns(store.records, k) {
                let q = parsed(store.records[k])->0;
                untouched_chunks_read_the_same(
                    chain,
                    mid.chunks,
                    gone.chunks,
                    q.value_id,
                    p.value_id,
                    q.n_chunks as int,
                );
            }
        } else {
            assert(dropped =~= Seq::<Change>::empty());
            assert(mid.after_all(Seq::<Change>::empty()) == mid);
        }
    }
}

/// A key that is being written is not among those its own commit sheds.
pub(crate) proof fn a_written_key_is_no_victim(
    lru: Option<super::lru::LruState>,
    id: LockerId,
    store: Store,
    tick: Option<u64>,
    out: Seq<Change>,
    updates: Seq<(Seq<u8>, u64)>,
    removals: Seq<Seq<u8>>,
    cleared: bool,
    keep: Seq<Seq<u8>>,
    b: Budget,
    after: Store,
    key: Seq<u8>,
)
    requires
        write_landed(lru, id, store, tick, out, updates, removals, cleared, keep, b, after),
        keep.contains(key),
    ensures
        !views(b.plan.victims@).contains(key),
{
    reveal(write_landed);
    match lru {
        None => {},
        Some(s) => {
            let led = up_to_date(s, store.meta, id);
            kept_keys_are_never_shed(
                led.books,
                led.total,
                stamped(updates, tick->0),
                removals,
                cleared,
                led.limit,
                keep,
                b.plan,
                key,
            );
        },
    }
}

/// A commit's budget leaves every record it does not shed readable.
pub(crate) proof fn a_budget_spares_the_rest(
    lru: Option<super::lru::LruState>,
    id: LockerId,
    store: Store,
    tick: Option<u64>,
    out: Seq<Change>,
    updates: Seq<(Seq<u8>, u64)>,
    removals: Seq<Seq<u8>>,
    cleared: bool,
    keep: Seq<Seq<u8>>,
    b: Budget,
    after: Store,
    chain: FilterChain,
    k: Seq<u8>,
)
    requires
        write_landed(lru, id, store, tick, out, updates, removals, cleared, keep, b, after),
        forall|i: int| 0 <= i < b.plan.victims@.len() ==> #[trigger] stored(id, views(b.plan.victims@)[i]) != k,
        forall|i: int|
            0 <= i < b.plan.victims@.len() && owns(store.records, #[trigger] stored(id, views(b.plan.victims@)[i]))
                && owns(store.after_all(out).records, k) ==> owned(store.after_all(out).records, k) != owned(
                store.records,
                stored(id, views(b.plan.victims@)[i]),
            ),
    ensures
        unmoved(chain, store.after_all(out), after, k),
{
    reveal(write_landed);
    let victims = views(b.plan.victims@);
    let all = choose|all: Seq<Change>|
        {
            &&& after == #[trigger] store.after_all(all)
            &&& match lru {
                Some(s) => budgeted(s, id, store, tick, updates, removals, cleared, keep, b, out, all),
                None => all == out && no_budget(b),
            }
        };
    if let Some(s) = lru {
        let led = up_to_date(s, store.meta, id);
        let next = (tick->0 + 1) as u64;
        let more = budget_list(store.records, id, led, b, next)->0;
        after_all_appends(store, out, more);
        let base = store.after_all(out);
        let mid = a_budget_is_kept_in_meta(base, store.records, id, led, b, next);
        shedding_spares_the_rest(mid, store.records, id, victims, chain, k);
    }
}

/// What is put is what is got: once a put has landed, whatever its budget made
/// it shed, the store holds the payload under the key.
pub proof fn what_is_put_is_got<B: Backend>(
    before: Resident,
    shared: Shared<B>,
    key: Seq<u8>,
    payload: Seq<u8>,
    b: Budget,
    store: Store,
)
    requires
        put_stored(before, shared, key, payload, b, store),
        before.inner.config.chunk_size > 0,
        tidy(shared.backend.store().records, shared.next_id()),
        survives(&before.inner, payload, FLAG_POSTCARD),
    ensures
        kept(*before.inner.chain, store, before.inner.id, key, Some(payload)),
{
    let was = shared.backend.store();
    let id = before.inner.id;
    let prior = before.prior_spec(key, shared.trusts(before.inner));
    let dropped = gc_list(was.records, id, key, prior)->0;
    let out = choose|out: Seq<Change>|
        {
            &&& #[trigger] stores(before.inner, key, payload, FLAG_POSTCARD, dropped, shared.next_id(), out)
            &&& write_landed(
                before.lru,
                id,
                was,
                shared.next_tick(),
                out,
                seq![(key, payload.len() as u64)],
                Seq::empty(),
                false,
                seq![key],
                b,
                store,
            )
        };
    let base = was.after_all(out);
    what_is_written_is_read(
        &before.inner,
        was,
        key,
        payload,
        FLAG_POSTCARD,
        prior,
        shared.next_id(),
        out,
    );
    let victims = views(b.plan.victims@);
    let k = stored(id, key);
    assert(seq![key][0] == key);
    assert(seq![key].contains(key));
    a_written_key_is_no_victim(
        before.lru,
        id,
        was,
        shared.next_tick(),
        out,
        seq![(key, payload.len() as u64)],
        Seq::empty(),
        false,
        seq![key],
        b,
        store,
        key,
    );
    assert forall|i: int| 0 <= i < victims.len() implies #[trigger] stored(id, victims[i]) != k by {
        storing_round_trips(id, victims[i]);
        storing_round_trips(id, key);
        assert(victims.contains(victims[i]));
    }
    assert forall|i: int|
        0 <= i < victims.len() && owns(was.records, #[trigger] stored(id, victims[i])) && owns(base.records, k) implies owned(
        base.records,
        k,
    ) != owned(was.records, stored(id, victims[i])) by {
        assert(owned(was.records, stored(id, victims[i])) < shared.next_id());
    }
    a_budget_spares_the_rest(
        before.lru,
        id,
        was,
        shared.next_tick(),
        out,
        seq![(key, payload.len() as u64)],
        Seq::empty(),
        false,
        seq![key],
        b,
        store,
        our_chain(&before.inner),
        k,
    );
}

/// A put leaves every record it neither writes nor sheds as it was, in this
/// locker and in every other.
pub proof fn a_put_spares_what_it_does_not_shed<B: Backend>(
    before: Resident,
    shared: Shared<B>,
    key: Seq<u8>,
    payload: Seq<u8>,
    b: Budget,
    store: Store,
    chain: FilterChain,
    k: Seq<u8>,
)
    requires
        put_stored(before, shared, key, payload, b, store),
        before.inner.config.chunk_size > 0,
        tidy(shared.backend.store().records, shared.next_id()),
        k != stored(before.inner.id, key),
        forall|i: int|
            0 <= i < b.plan.victims@.len() ==> #[trigger] stored(before.inner.id, views(b.plan.victims@)[i]) != k,
    ensures
        unmoved(chain, shared.backend.store(), store, k),
{
    let was = shared.backend.store();
    let id = before.inner.id;
    let prior = before.prior_spec(key, shared.trusts(before.inner));
    let dropped = gc_list(was.records, id, key, prior)->0;
    let out = choose|out: Seq<Change>|
        {
            &&& #[trigger] stores(before.inner, key, payload, FLAG_POSTCARD, dropped, shared.next_id(), out)
            &&& write_landed(
                before.lru,
                id,
                was,
                shared.next_tick(),
                out,
                seq![(key, payload.len() as u64)],
                Seq::empty(),
                false,
                seq![key],
                b,
                store,
            )
        };
    super::laws::a_write_disturbs_nothing_else(
        &before.inner,
        was,
        key,
        payload,
        FLAG_POSTCARD,
        prior,
        shared.next_id(),
        out,
        chain,
        k,
    );
    let base = was.after_all(out);
    let victims = views(b.plan.victims@);
    assert forall|i: int|
        0 <= i < victims.len() && owns(was.records, #[trigger] stored(id, victims[i])) && owns(base.records, k) implies owned(
        base.records,
        k,
    ) != owned(was.records, stored(id, victims[i])) by {
        assert(owns(was.records, k));
        assert(stored(id, victims[i]) != k);
    }
    a_budget_spares_the_rest(
        before.lru,
        id,
        was,
        shared.next_tick(),
        out,
        seq![(key, payload.len() as u64)],
        Seq::empty(),
        false,
        seq![key],
        b,
        store,
        chain,
        k,
    );
}

/// A locker without a budget sheds nothing: its keys are those it had and the
/// one it was given.
pub proof fn a_precious_locker_sheds_nothing<B: Backend>(
    before: Resident,
    shared: Shared<B>,
    key: Seq<u8>,
    payload: Seq<u8>,
    b: Budget,
    after: Resident,
    store: Store,
)
    requires
        put_landed(before, shared, key, payload, b, after, store),
        before.lru is None,
    ensures
        b.plan.victims@.len() == 0,
        keys_in(after.index) == keys_in(before.index).insert(key),
{
    reveal(write_landed);
    assert(keys_in(before.index).insert(key).difference(views(b.plan.victims@).to_set()) =~= keys_in(
        before.index,
    ).insert(key)) by {
        assert(views(b.plan.victims@) =~= Seq::<Seq<u8>>::empty());
    }
}

} // verus!
