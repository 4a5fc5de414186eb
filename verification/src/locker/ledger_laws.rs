//! The accounting of a byte budget is stored with the write it is of: what a
//! locker charges in memory is what it finds charged when it is opened again.

use vstd::prelude::*;

use super::batch::{a_batch_names_a_key_once, names_of, removed, weighed, wipes, Move};
use super::chunk::counter_put;
use super::inner::{clears, gc_all, gc_list, stores, Inner, Prior, Shared};
use super::lazy::{put_landed, put_through, LazyLocker};
use super::lazy_laws::table_of;
use super::lru::{
    an_entry_round_trips, carried_ticks, entries_clear, entry_bytes, entry_of, entry_put, recorded, small, tick_put, update_views,
    Books, Entry, LruState,
};
use super::resident::{
    batch_landed, budget_fits, budget_head, entry_deletes, evictions, looked_at, stamped, up_to_date, update_puts,
    write_landed, Budget, Resident,
};
use super::staging_laws::{decides, the_last_write_of_a_key_decides};
use super::transaction::{batched, flat, opening, part_fits, spells, TxMode};
use crate::backend::api::{
    a_prefix_span_holds_what_starts_with_it, after_all_appends, after_all_pushes, Backend, Change, Rows, Store, Table,
};
use crate::backend::store_laws::{reaches, the_last_mutation_of_a_row_decides};
use crate::codec::value::Value;
use crate::error::Result;
use crate::key::LockerId;
use crate::meta::{lru_key, lru_prefix, next_tick_key, next_value_id_key};
use crate::sorted::{listing, views};

verus! {

/// Accounting keys differ where their user keys do, lie in their locker's range,
/// and are no counter.
proof fn accounting_keys_are_apart(id: LockerId, a: Seq<u8>, b: Seq<u8>)
    ensures
        lru_key(id, a) == lru_key(id, b) <==> a == b,
        reaches(entries_clear(id), Table::Meta, lru_key(id, a)),
        lru_key(id, a) != next_tick_key(),
        lru_key(id, a) != next_value_id_key(),
{
    let n = lru_prefix(id).len() as int;
    assert(lru_key(id, a).skip(n) =~= a);
    assert(lru_key(id, b).skip(n) =~= b);
    assert(lru_key(id, a).take(n) =~= lru_prefix(id));
    a_prefix_span_holds_what_starts_with_it(lru_prefix(id), lru_key(id, a));
    reveal_strlit("lru::");
    reveal_strlit("next_tick");
    reveal_strlit("next_value_id");
    crate::bank::first_byte("lru::"@, 'l');
    crate::bank::first_byte("next_tick"@, 'n');
    crate::bank::first_byte("next_value_id"@, 'n');
    assert(lru_key(id, a)[0] == 108);
}

/// Whether no mutation of a list reaches what is recorded of a key.
spec fn spares_entry(id: LockerId, list: Seq<Change>, key: Seq<u8>) -> bool {
    forall|i: int| 0 <= i < list.len() ==> !reaches(#[trigger] list[i], Table::Meta, lru_key(id, key))
}

/// What spares an entry leaves it.
proof fn a_spared_entry_stays(store: Store, id: LockerId, list: Seq<Change>, key: Seq<u8>)
    requires
        spares_entry(id, list, key),
    ensures
        store.after_all(list).lookup(Table::Meta, lru_key(id, key)) == store.lookup(Table::Meta, lru_key(id, key)),
{
    the_last_mutation_of_a_row_decides(store, list, -1, Table::Meta, lru_key(id, key));
}

/// Carrying deferred ticks records only keys that are accounted for and not
/// skipped, and nothing of their weight changes.
proof fn what_carrying_ticks_records(
    id: LockerId,
    books: Books,
    pending: Map<Seq<u8>, u64>,
    keys: Seq<Seq<u8>>,
    skip: Seq<Seq<u8>>,
    i: int,
)
    requires
        0 <= i < carried_ticks(id, books, pending, keys, skip).len(),
    ensures
        exists|k: Seq<u8>|
            !skip.contains(k) && books.contains_key(k) && carried_ticks(id, books, pending, keys, skip)[i]
                == #[trigger] entry_put(id, k, (Entry { tick: pending[k], bytes: books[k].bytes })),
    decreases keys.len(),
{
    let so_far = carried_ticks(id, books, pending, keys.drop_last(), skip);
    let all = carried_ticks(id, books, pending, keys, skip);
    let k = keys.last();
    if i < so_far.len() {
        assert(all[i] == so_far[i]);
        what_carrying_ticks_records(id, books, pending, keys.drop_last(), skip, i);
    } else {
        assert(all[i] == entry_put(id, k, Entry { tick: pending[k], bytes: books[k].bytes }));
    }
}

/// Every tick that is looked at, of a key that is accounted for and not skipped,
/// is carried.
proof fn a_looked_at_tick_is_carried(
    id: LockerId,
    books: Books,
    pending: Map<Seq<u8>, u64>,
    keys: Seq<Seq<u8>>,
    skip: Seq<Seq<u8>>,
    key: Seq<u8>,
) -> (i: int)
    requires
        keys.contains(key),
        !skip.contains(key),
        books.contains_key(key),
    ensures
        0 <= i < carried_ticks(id, books, pending, keys, skip).len(),
        carried_ticks(id, books, pending, keys, skip)[i] == entry_put(
            id,
            key,
            (Entry { tick: pending[key], bytes: books[key].bytes }),
        ),
    decreases keys.len(),
{
    let so_far = carried_ticks(id, books, pending, keys.drop_last(), skip);
    if keys.last() == key {
        so_far.len() as int
    } else {
        let j = keys.index_of(key);
        assert(keys.drop_last()[j] == key);
        let i = a_looked_at_tick_is_carried(id, books, pending, keys.drop_last(), skip, key);
        assert(carried_ticks(id, books, pending, keys, skip)[i] == so_far[i]);
        i
    }
}

/// What shedding keys does to the accounting: their entries go, and no other.
proof fn what_shedding_forgets(store: Store, records: Rows, id: LockerId, victims: Seq<Seq<u8>>, key: Seq<u8>)
    requires
        evictions(records, id, victims) is Some,
    ensures
        victims.contains(key) ==> store.after_all(evictions(records, id, victims)->0).lookup(
            Table::Meta,
            lru_key(id, key),
        ) is None,
        !victims.contains(key) ==> spares_entry(id, evictions(records, id, victims)->0, key),
    decreases victims.len(),
{
    if victims.len() > 0 {
        let short = victims.drop_last();
        let v = victims.last();
        let so_far = evictions(records, id, short)->0;
        let dropped = gc_list(records, id, v, Prior::Unknown)->0;
        let mine = dropped.push(super::inner::record_delete(id, v)).push(super::lru::entry_delete(id, v));
        let all = evictions(records, id, victims)->0;
        what_shedding_forgets(store, records, id, short, key);
        accounting_keys_are_apart(id, key, v);
        after_all_appends(store, so_far, mine);
        let mid = store.after_all(so_far);
        if victims.contains(key) {
            let i = victims.index_of(key);
            if i < short.len() {
                assert(short[i] == key);
            }
        }
        if short.contains(key) {
            let i = short.index_of(key);
            assert(victims[i] == key);
        }
        assert(victims[victims.len() - 1] == v);
        if key == v {
            the_last_mutation_of_a_row_decides(mid, mine, mine.len() - 1, Table::Meta, lru_key(id, key));
        } else {
            assert(spares_entry(id, mine, key)) by {
                assert forall|i: int| 0 <= i < mine.len() implies !reaches(
                    #[trigger] mine[i],
                    Table::Meta,
                    lru_key(id, key),
                ) by {
                    if i < dropped.len() {
                        assert(mine[i] == dropped[i]);
                    }
                }
            }
            a_spared_entry_stays(mid, id, mine, key);
            if !victims.contains(key) {
                assert forall|i: int| 0 <= i < all.len() implies !reaches(
                    #[trigger] all[i],
                    Table::Meta,
                    lru_key(id, key),
                ) by {
                    if i < so_far.len() {
                        assert(all[i] == so_far[i]);
                    } else {
                        assert(all[i] == mine[i - so_far.len()]);
                    }
                }
            }
        }
    }
}

/// What a commit records of a key's accounting before anything is shed.
proof fn what_a_commit_records(
    store: Store,
    id: LockerId,
    led: super::resident::Ledger,
    b: Budget,
    key: Seq<u8>,
    i: int,
)
    requires
        names_of_views(b).no_duplicates(),
        views(b.removals@).no_duplicates(),
        forall|k: Seq<u8>| !(#[trigger] names_of_views(b).contains(k) && views(b.removals@).contains(k)),
        -1 <= i < b.updates@.len(),
        i >= 0 ==> names_of_views(b)[i] == key,
        i < 0 ==> !names_of_views(b).contains(key),
    ensures
        ({
            let after = store.after_all(budget_head(id, led, b)).lookup(Table::Meta, lru_key(id, key));
            &&& i >= 0 ==> after == Some(entry_bytes(b.updates@[i].1))
            &&& i < 0 && views(b.removals@).contains(key) ==> after is None
            &&& i < 0 && b.cleared ==> after is None
            &&& i < 0 && !b.cleared && !views(b.removals@).contains(key) && looked_at(led).contains(key)
                && led.books.contains_key(key) ==> after == Some(
                entry_bytes((Entry { tick: led.deferred[key], bytes: led.books[key].bytes })),
            )
            &&& i < 0 && !b.cleared && !views(b.removals@).contains(key) ==> after == store.lookup(
                Table::Meta,
                lru_key(id, key),
            ) || (led.books.contains_key(key) && exists|t: u64|
                after == Some(#[trigger] entry_bytes((Entry { tick: t, bytes: led.books[key].bytes }))))
        }),
{
    reveal(budget_head);
    let at = lru_key(id, key);
    let updates = update_views(b.updates@);
    let names = names_of_views(b);
    let removals = views(b.removals@);
    let first: Seq<Change> = if b.cleared {
        seq![entries_clear(id)]
    } else {
        Seq::empty()
    };
    let puts = update_puts(id, updates);
    let ticks: Seq<Change> = if b.cleared {
        Seq::empty()
    } else {
        carried_ticks(id, led.books, led.deferred, looked_at(led), names)
    };
    let gone = entry_deletes(id, removals);
    let s1 = store.after_all(first);
    let s2 = s1.after_all(puts);
    let s3 = s2.after_all(ticks);
    let s4 = s3.after_all(gone);
    assert(names =~= Seq::new(updates.len(), |j: int| updates[j].0));
    assert(budget_head(id, led, b) =~= first + puts + ticks + gone);
    after_all_appends(store, first, puts);
    after_all_appends(store, first + puts, ticks);
    after_all_appends(store, first + puts + ticks, gone);
    accounting_keys_are_apart(id, key, key);
    if b.cleared {
        the_last_mutation_of_a_row_decides(store, first, 0, Table::Meta, at);
    } else {
        assert(s1 == store);
    }
    assert forall|j: int| 0 <= j < puts.len() implies (reaches(#[trigger] puts[j], Table::Meta, at) <==> names[j]
        == key) by {
        accounting_keys_are_apart(id, names[j], key);
    }
    if i >= 0 {
        assert(reaches(puts[i], Table::Meta, at));
        assert forall|j: int| i < j < puts.len() implies !reaches(#[trigger] puts[j], Table::Meta, at) by {
            assert(names[j] != names[i]);
        }
        the_last_mutation_of_a_row_decides(s1, puts, i, Table::Meta, at);
        assert(names.contains(names[i]));
    } else {
        assert forall|j: int| 0 <= j < puts.len() implies !reaches(#[trigger] puts[j], Table::Meta, at) by {
            assert(names.contains(names[j]));
        }
        a_spared_entry_stays(s1, id, puts, key);
    }
    let last = last_reaching(ticks, at);
    the_last_mutation_of_a_row_decides(s2, ticks, last, Table::Meta, at);
    if last >= 0 {
        what_carrying_ticks_records(id, led.books, led.deferred, looked_at(led), names, last);
        let k = choose|k: Seq<u8>|
            !names.contains(k) && led.books.contains_key(k) && ticks[last] == #[trigger] entry_put(
                id,
                k,
                Entry { tick: led.deferred[k], bytes: led.books[k].bytes },
            );
        accounting_keys_are_apart(id, k, key);
        assert(k == key);
        assert(s3.lookup(Table::Meta, at) == Some(
            entry_bytes(Entry { tick: led.deferred[key], bytes: led.books[key].bytes }),
        ));
    }
    if i < 0 && !b.cleared && looked_at(led).contains(key) && led.books.contains_key(key) {
        let n = a_looked_at_tick_is_carried(id, led.books, led.deferred, looked_at(led), names, key);
        assert(reaches(ticks[n], Table::Meta, at));
        assert(last >= n);
    }
    let removed_at = last_reaching(gone, at);
    the_last_mutation_of_a_row_decides(s3, gone, removed_at, Table::Meta, at);
    assert forall|j: int| 0 <= j < gone.len() implies (reaches(#[trigger] gone[j], Table::Meta, at) <==> removals[j]
        == key) by {
        accounting_keys_are_apart(id, removals[j], key);
    }
    if removals.contains(key) {
        let j = removals.index_of(key);
        assert(reaches(gone[j], Table::Meta, at));
        assert(removed_at >= j);
    } else if removed_at >= 0 {
        assert(removals.contains(removals[removed_at]));
    }
}

/// The keys a budget records.
spec fn names_of_views(b: Budget) -> Seq<Seq<u8>> {
    Seq::new(b.updates@.len(), |j: int| b.updates@[j].0@)
}

/// The last mutation of a list that reaches a row of `meta`, or none.
proof fn last_reaching(list: Seq<Change>, at: Seq<u8>) -> (i: int)
    ensures
        -1 <= i < list.len(),
        i >= 0 ==> reaches(list[i], Table::Meta, at),
        forall|j: int| i < j < list.len() ==> !reaches(#[trigger] list[j], Table::Meta, at),
    decreases list.len(),
{
    if list.len() == 0 {
        -1
    } else if reaches(list.last(), Table::Meta, at) {
        list.len() - 1
    } else {
        let short = list.drop_last();
        let i = last_reaching(short, at);
        if i >= 0 {
            assert(short[i] == list[i]);
        }
        assert forall|j: int| i < j < list.len() implies !reaches(#[trigger] list[j], Table::Meta, at) by {
            if j < short.len() {
                assert(short[j] == list[j]);
            }
        }
        i
    }
}

/// The accounting that a landed commit leaves stored: a key it writes is recorded
/// with what it weighs and the moment of the commit; one it removes or sheds is
/// recorded no more, and after a clear none but those it writes; and any other
/// weighs on record what it did.
proof fn a_landed_write_is_recorded(
    s: LruState,
    id: LockerId,
    store: Store,
    tick: Option<u64>,
    out: Seq<Change>,
    updates: Seq<(Seq<u8>, u64)>,
    removals: Seq<Seq<u8>>,
    cleared: bool,
    b: Budget,
    after: Store,
    key: Seq<u8>,
    i: int,
)
    requires
        write_landed(Some(s), id, store, tick, out, updates, removals, cleared, names_of(updates), b, after),
        names_of(updates).no_duplicates(),
        removals.no_duplicates(),
        forall|k: Seq<u8>| !(#[trigger] names_of(updates).contains(k) && removals.contains(k)),
        -1 <= i < updates.len(),
        i >= 0 ==> updates[i].0 == key,
        i < 0 ==> !names_of(updates).contains(key),
        spares_entry(id, out, key),
    ensures
        i >= 0 ==> recorded(after.meta, id).contains_key(key) && recorded(after.meta, id)[key] == (Entry {
            tick: tick->0,
            bytes: small(updates[i].1) as u64,
        }),
        i < 0 && (cleared || removals.contains(key) || views(b.plan.victims@).contains(key)) ==> !recorded(
            after.meta,
            id,
        ).contains_key(key),
        i < 0 && !cleared && !removals.contains(key) && !views(b.plan.victims@).contains(key) && looked_at(
            up_to_date(s, store.meta, id),
        ).contains(key) && up_to_date(s, store.meta, id).books.contains_key(key) ==> recorded(after.meta, id).contains_key(
            key,
        ) && recorded(after.meta, id)[key].tick == up_to_date(s, store.meta, id).deferred[key],
        i < 0 && !cleared && !removals.contains(key) && !views(b.plan.victims@).contains(key) && !up_to_date(
            s,
            store.meta,
            id,
        ).books.contains_key(key) ==> after.lookup(Table::Meta, lru_key(id, key)) == store.lookup(
            Table::Meta,
            lru_key(id, key),
        ),
        i < 0 && !cleared && !removals.contains(key) && !views(b.plan.victims@).contains(key) && recorded(
            store.meta,
            id,
        ).contains_key(key) && up_to_date(s, store.meta, id).books.contains_key(key) && recorded(store.meta, id)[key].bytes
            == small(up_to_date(s, store.meta, id).books[key].bytes) ==> recorded(after.meta, id).contains_key(key)
            && recorded(after.meta, id)[key].bytes == recorded(store.meta, id)[key].bytes,
{
    reveal(write_landed);
    let led = up_to_date(s, store.meta, id);
    let t = tick->0;
    let names = names_of(updates);
    let at = lru_key(id, key);
    let victims = views(b.plan.victims@);
    assert(budget_fits(b, led, updates, removals, cleared, names, t));
    let all = choose|all: Seq<Change>|
        after == #[trigger] store.after_all(all) && super::resident::budgeted(
            s,
            id,
            store,
            tick,
            updates,
            removals,
            cleared,
            names,
            b,
            out,
            all,
        );
    let shed = evictions(store.records, id, victims)->0;
    let head = budget_head(id, led, b);
    let next = tick_put((t + 1) as u64);
    assert(all =~= out + (head + shed).push(next));
    let s1 = store.after_all(out);
    let s2 = s1.after_all(head);
    let s3 = s2.after_all(shed);
    after_all_appends(store, out, (head + shed).push(next));
    after_all_pushes(s1, head + shed, next);
    after_all_appends(s1, head, shed);
    a_spared_entry_stays(store, id, out, key);
    accounting_keys_are_apart(id, key, key);
    assert(after.lookup(Table::Meta, at) == s3.lookup(Table::Meta, at));
    let stamps = stamped(updates, t);
    assert(names_of_views(b) =~= names) by {
        assert forall|j: int| 0 <= j < b.updates@.len() implies b.updates@[j].0@ == names[j] by {
            assert(update_views(b.updates@)[j] == stamps[j]);
        }
    }
    assert(update_views(b.updates@).len() == updates.len());
    if i >= 0 {
        assert(names[i] == key);
        assert(update_views(b.updates@)[i] == stamps[i]);
    }
    what_a_commit_records(s1, id, led, b, key, i);
    what_shedding_forgets(s2, store.records, id, victims, key);
    if !victims.contains(key) {
        a_spared_entry_stays(s2, id, shed, key);
    }
    if i >= 0 {
        assert(names.contains(names[i]));
        super::lazy_laws::a_written_key_is_no_victim(
            Some(s),
            id,
            store,
            tick,
            out,
            updates,
            removals,
            cleared,
            names,
            b,
            after,
            key,
        );
        an_entry_round_trips(Entry { tick: t, bytes: updates[i].1 });
    } else if !cleared && !removals.contains(key) && !victims.contains(key) {
        assert forall|tick: u64| entry_of(#[trigger] entry_bytes((Entry { tick, bytes: led.books[key].bytes }))) == Some(
            Entry { tick, bytes: small(led.books[key].bytes) as u64 },
        ) by {
            an_entry_round_trips(Entry { tick, bytes: led.books[key].bytes });
        }
    }
}

/// Whether a mutation leaves every accounting alone: it is of records or chunks,
/// or moves the counter of value ids.
spec fn is_of_values(c: Change) -> bool {
    table_of(c) != Table::Meta || exists|n: u64| c == #[trigger] counter_put(n)
}

/// Such mutations spare every entry.
proof fn values_spare_entries(id: LockerId, list: Seq<Change>, key: Seq<u8>)
    requires
        forall|i: int| 0 <= i < list.len() ==> is_of_values(#[trigger] list[i]),
    ensures
        spares_entry(id, list, key),
{
    accounting_keys_are_apart(id, key, key);
    assert forall|i: int| 0 <= i < list.len() implies !reaches(#[trigger] list[i], Table::Meta, lru_key(id, key)) by {
        assert(is_of_values(list[i]));
    }
}

/// What storing a payload takes is of values.
proof fn storing_is_of_values(
    inner: &Inner,
    records: Rows,
    key: Seq<u8>,
    payload: Seq<u8>,
    prior: Prior,
    id: u64,
    list: Seq<Change>,
)
    requires
        gc_list(records, inner.id, key, prior) matches Some(dropped) && stores(
            *inner,
            key,
            payload,
            super::chunk::FLAG_POSTCARD,
            dropped,
            id,
            list,
        ),
    ensures
        forall|i: int| 0 <= i < list.len() ==> is_of_values(#[trigger] list[i]),
{
    reveal(stores);
    let dropped = gc_list(records, inner.id, key, prior)->0;
    let n = dropped.len() as int;
    let parts = super::chunk::pieces(payload, inner.config.chunk_size as int);
    assert forall|i: int| 0 <= i < list.len() implies is_of_values(#[trigger] list[i]) by {
        if i < n {
            assert(list.take(n)[i] == list[i]);
        } else if i == list.len() - 1 {
            assert(list[i] == list.last());
        } else if !super::inner::kept_inline(inner.config, payload.len(), super::chunk::FLAG_POSTCARD) && i > n {
            let body = list.subrange(n + 1, n + 1 + parts.len());
            assert(body[i - n - 1] == list[i]);
        } else if i == n {
            assert(list[n] == counter_put((id + 1) as u64));
        }
    }
}

/// What a batch does to the store is of values.
proof fn parts_are_of_values(
    inner: &Inner,
    mode: TxMode,
    records: Rows,
    prior: Prior,
    keys: Seq<Seq<u8>>,
    last: Map<Seq<u8>, Option<Seq<u8>>>,
    parts: Seq<Seq<Change>>,
    ids: Seq<u64>,
    n: int,
)
    requires
        spells(*inner, mode, records, prior, keys, last, parts, ids),
        0 <= n <= keys.len(),
    ensures
        forall|i: int| 0 <= i < flat(parts.take(n)).len() ==> is_of_values(#[trigger] flat(parts.take(n))[i]),
    decreases n,
{
    if n > 0 {
        let m = n - 1;
        parts_are_of_values(inner, mode, records, prior, keys, last, parts, ids, m);
        assert(parts.take(n).drop_last() =~= parts.take(m));
        assert(parts.take(n).last() == parts[m]);
        let so_far = flat(parts.take(m));
        let all = flat(parts.take(n));
        assert(part_fits(*inner, mode, records, prior, keys[m], last[keys[m]], ids[m], parts[m]));
        assert forall|i: int| 0 <= i < parts[m].len() implies is_of_values(#[trigger] parts[m][i]) by {
            match (mode, last[keys[m]]) {
                (TxMode::Lazy, Some(payload)) => storing_is_of_values(
                    inner,
                    records,
                    keys[m],
                    payload,
                    prior,
                    ids[m],
                    parts[m],
                ),
                _ => {},
            }
        }
        assert forall|i: int| 0 <= i < all.len() implies is_of_values(#[trigger] all[i]) by {
            if i < so_far.len() {
                assert(all[i] == so_far[i]);
            } else {
                assert(all[i] == parts[m][i - so_far.len()]);
            }
        }
    }
}

/// Dropping the chunks behind some records is of values.
proof fn dropping_is_of_values(rows: Rows, keys: Seq<Seq<u8>>)
    ensures
        forall|i: int| 0 <= i < gc_all(rows, keys).len() ==> is_of_values(#[trigger] gc_all(rows, keys)[i]),
    decreases keys.len(),
{
    if keys.len() > 0 {
        dropping_is_of_values(rows, keys.drop_last());
        let so_far = gc_all(rows, keys.drop_last());
        let all = gc_all(rows, keys);
        assert forall|i: int| 0 <= i < all.len() implies is_of_values(#[trigger] all[i]) by {
            if i < so_far.len() {
                assert(all[i] == so_far[i]);
            }
        }
    }
}

/// What a batch does to the store is of values.
proof fn a_batch_is_of_values(
    inner: &Inner,
    mode: TxMode,
    records: Rows,
    list: Seq<Move>,
    first: u64,
    next: u64,
    out: Seq<Change>,
)
    requires
        batched(*inner, mode, records, list, first, next, out),
    ensures
        forall|i: int| 0 <= i < out.len() ==> is_of_values(#[trigger] out[i]),
{
    let last = super::batch::latest(list);
    let keys = listing(last.dom());
    let (parts, ids) = choose|parts: Seq<Seq<Change>>, ids: Seq<u64>|
        {
            &&& #[trigger] spells(*inner, mode, records, super::transaction::prior_of(list), keys, last, parts, ids)
            &&& ids[0] == first
            &&& ids.last() == next
            &&& out == opening(*inner, mode, records, list) + flat(parts)
        };
    let n = keys.len() as int;
    assert(parts.take(n) =~= parts);
    parts_are_of_values(inner, mode, records, super::transaction::prior_of(list), keys, last, parts, ids, n);
    let head = opening(*inner, mode, records, list);
    assert forall|i: int| 0 <= i < head.len() implies is_of_values(#[trigger] head[i]) by {
        if mode is Lazy {
            let rows = super::inner::locker_rows(records, inner.id);
            let gone = gc_all(rows, listing(rows.dom()));
            dropping_is_of_values(rows, listing(rows.dom()));
            assert(head == clears(records, inner.id));
            if i < gone.len() {
                assert(head[i] == gone[i]);
            }
        }
    }
    assert forall|i: int| 0 <= i < out.len() implies is_of_values(#[trigger] out[i]) by {
        if i < head.len() {
            assert(out[i] == head[i]);
        } else {
            assert(out[i] == flat(parts)[i - head.len()]);
        }
    }
}

/// A put records what it charges: opened again, the locker finds its key accounted
/// for exactly its payload, as used at the moment of the put. A size past four
/// bytes is recorded as the largest that fits.
pub proof fn a_put_is_recorded<B: Backend, T: Value>(
    before: LazyLocker<T>,
    shared: Shared<B>,
    key: Seq<u8>,
    value: &T,
    r: Result<()>,
    after: LazyLocker<T>,
    now: Shared<B>,
)
    requires
        put_through(before, shared, key, value, r, after, now),
        r is Ok,
        before.res.inner.config.batch() is None,
        before.res.index is Some,
        before.res.lru is Some,
        value.payload().len() <= u32::MAX,
    ensures
        shared.next_tick() is Some,
        recorded(now.backend.store().meta, before.res.inner.id).contains_key(key),
        recorded(now.backend.store().meta, before.res.inner.id)[key].bytes == value.payload().len(),
        recorded(now.backend.store().meta, before.res.inner.id)[key].tick == shared.next_tick()->0,
{
    let payload = value.payload();
    let b = choose|b: Budget| #[trigger]
        put_landed(before.res, shared, key, payload, b, after.res, now.backend.store());
    let store = shared.backend.store();
    let id = before.res.inner.id;
    let prior = before.res.prior_spec(key, shared.trusts(before.res.inner));
    let updates = seq![(key, payload.len() as u64)];
    let dropped = gc_list(store.records, id, key, prior)->0;
    let out = choose|out: Seq<Change>|
        {
            &&& #[trigger] stores(
                before.res.inner,
                key,
                payload,
                super::chunk::FLAG_POSTCARD,
                dropped,
                shared.next_id(),
                out,
            )
            &&& write_landed(
                before.res.lru,
                id,
                store,
                shared.next_tick(),
                out,
                updates,
                Seq::empty(),
                false,
                seq![key],
                b,
                now.backend.store(),
            )
        };
    super::budget_laws::one_name(key, payload.len() as u64);
    storing_is_of_values(&before.res.inner, store.records, key, payload, prior, shared.next_id(), out);
    values_spare_entries(id, out, key);
    assert(shared.next_tick() is Some) by {
        reveal(write_landed);
    }
    a_landed_write_is_recorded(
        before.res.lru->0,
        id,
        store,
        shared.next_tick(),
        out,
        updates,
        Seq::empty(),
        false,
        b,
        now.backend.store(),
        key,
        0,
    );
}

/// A batch records what it charges: opened again, the locker finds a key whose
/// last write was a put accounted for exactly that payload, and one that was
/// deleted, cleared away or shed not accounted for.
pub proof fn a_batch_is_recorded<B: Backend>(
    res: Resident,
    shared: Shared<B>,
    list: Seq<Move>,
    b: Budget,
    store: Store,
    next: u64,
    key: Seq<u8>,
    i: int,
)
    requires
        batch_landed(res, shared, list, b, store, next),
        res.lru is Some,
        decides(list, i, key),
        list[i] matches Move::Put { payload, .. } ==> payload.len() <= u32::MAX,
    ensures
        shared.next_tick() is Some,
        match list[i] {
            Move::Put { payload, .. } => recorded(store.meta, res.inner.id).contains_key(key) && recorded(
                store.meta,
                res.inner.id,
            )[key] == (Entry { tick: shared.next_tick()->0, bytes: payload.len() as u64 }),
            _ => !recorded(store.meta, res.inner.id).contains_key(key),
        },
{
    reveal(batch_landed);
    let was = shared.backend.store();
    let updates = weighed(list);
    let names = names_of(updates);
    let out = choose|out: Seq<Change>|
        {
            &&& #[trigger] batched(res.inner, res.mode, was.records, list, shared.next_id(), next, out)
            &&& write_landed(
                res.lru,
                res.inner.id,
                was,
                shared.next_tick(),
                out,
                weighed(list),
                removed(list),
                wipes(list),
                names_of(weighed(list)),
                b,
                store,
            )
        };
    assert(shared.next_tick() is Some) by {
        reveal(write_landed);
    }
    a_batch_is_of_values(&res.inner, res.mode, was.records, list, shared.next_id(), next, out);
    values_spare_entries(res.inner.id, out, key);
    a_batch_names_a_key_once(list);
    match list[i] {
        Move::Put { payload, .. } => {
            let u = (key, payload.len() as u64);
            the_last_write_of_a_key_decides(list, i, key, Set::empty(), u.1);
            let n = updates.index_of(u);
            a_landed_write_is_recorded(
                res.lru->0,
                res.inner.id,
                was,
                shared.next_tick(),
                out,
                updates,
                removed(list),
                wipes(list),
                b,
                store,
                key,
                n,
            );
        },
        _ => {
            super::staging_laws::a_list_wipes_where_it_clears(list);
            the_last_write_of_a_key_decides(list, i, key, Set::empty(), 0);
            if names.contains(key) {
                let n = names.index_of(key);
                assert(updates.contains(updates[n]));
                the_last_write_of_a_key_decides(list, i, key, Set::empty(), updates[n].1);
            }
            a_landed_write_is_recorded(
                res.lru->0,
                res.inner.id,
                was,
                shared.next_tick(),
                out,
                updates,
                removed(list),
                wipes(list),
                b,
                store,
                key,
                -1,
            );
        },
    }
}

/// A read's use of a key is recorded with the next write, where no more reads are
/// waiting than one write carries: opened again, the locker finds the key as
/// recently used as it was.
pub proof fn a_read_is_recorded_with_the_next_put<B: Backend, T: Value>(
    before: LazyLocker<T>,
    shared: Shared<B>,
    key: Seq<u8>,
    value: &T,
    r: Result<()>,
    after: LazyLocker<T>,
    now: Shared<B>,
    read: Seq<u8>,
)
    requires
        put_through(before, shared, key, value, r, after, now),
        r is Ok,
        before.res.inner.config.batch() is None,
        before.res.index is Some,
        before.res.lru matches Some(s) && !s.dirty_spec() && s.deferred().dom().finite() && s.deferred().dom().len() <= 64
            && s.deferred().contains_key(read) && s.books().contains_key(read) && s.books().dom().finite(),
        read != key,
        after.res.lru matches Some(s) && s.books().contains_key(read),
    ensures
        recorded(now.backend.store().meta, before.res.inner.id).contains_key(read),
        recorded(now.backend.store().meta, before.res.inner.id)[read].tick == before.res.lru->0.deferred()[read],
{
    let payload = value.payload();
    let b = choose|b: Budget| #[trigger]
        put_landed(before.res, shared, key, payload, b, after.res, now.backend.store());
    let store = shared.backend.store();
    let s = before.res.lru->0;
    let id = before.res.inner.id;
    let prior = before.res.prior_spec(key, shared.trusts(before.res.inner));
    let updates = seq![(key, payload.len() as u64)];
    let dropped = gc_list(store.records, id, key, prior)->0;
    let out = choose|out: Seq<Change>|
        {
            &&& #[trigger] stores(
                before.res.inner,
                key,
                payload,
                super::chunk::FLAG_POSTCARD,
                dropped,
                shared.next_id(),
                out,
            )
            &&& write_landed(
                before.res.lru,
                id,
                store,
                shared.next_tick(),
                out,
                updates,
                Seq::empty(),
                false,
                seq![key],
                b,
                now.backend.store(),
            )
        };
    super::budget_laws::one_name(key, payload.len() as u64);
    storing_is_of_values(&before.res.inner, store.records, key, payload, prior, shared.next_id(), out);
    values_spare_entries(id, out, read);
    let led = up_to_date(s, store.meta, id);
    let all = listing(led.deferred.dom());
    crate::sorted::a_finite_set_is_listed(led.deferred.dom());
    crate::sorted::the_listing_is(all, led.deferred.dom());
    assert(led.deferred.dom().contains(read));
    assert(looked_at(led) =~= all);
    super::budget_laws::a_landed_put_is_accounted(before.res, shared, key, payload, b, after.res, now.backend.store());
    assert(led.books.contains_key(read));
    a_landed_write_is_recorded(
        s,
        id,
        store,
        shared.next_tick(),
        out,
        updates,
        Seq::empty(),
        false,
        b,
        now.backend.store(),
        read,
        -1,
    );
}

/// A budget that is opened again is accounted as it was recorded: every key that is
/// stored weighs what the record says, or nothing where there is none, and no key
/// that is not stored is accounted for.
pub proof fn an_opened_budget_is_what_was_recorded<T>(
    store: Store,
    id: LockerId,
    config: super::policy::LockerConfig,
    l: LazyLocker<T>,
    max_bytes: u64,
    key: Seq<u8>,
)
    requires
        super::lazy::opened(store, id, config, l),
        config.policy == (super::policy::Policy::Evictable { max_bytes }),
    ensures
        l.res.lru is Some,
        l.res.lru->0.limit() == max_bytes,
        l.res.lru->0.books().contains_key(key) <==> super::inner::locker_rows(store.records, id).contains_key(key),
        l.res.lru->0.books().contains_key(key) && recorded(store.meta, id).contains_key(key)
            ==> l.res.lru->0.books()[key] == recorded(store.meta, id)[key],
        l.res.lru->0.books().contains_key(key) && !recorded(store.meta, id).contains_key(key)
            ==> l.res.lru->0.books()[key].bytes == 0,
        !l.res.lru->0.dirty_spec(),
        super::resident::keys_in(l.res.index).contains(key) <==> super::inner::locker_rows(
            store.records,
            id,
        ).contains_key(key),
{
    assert(super::inner::locker_rows(store.records, id).dom().contains(key) <==> super::inner::locker_rows(
        store.records,
        id,
    ).contains_key(key));
}

/// Of some deferred ticks, those of keys that are accounted for are carried.
proof fn what_is_accounted_for_is_carried(books: Books, keys: Seq<Seq<u8>>, skip: Seq<Seq<u8>>, key: Seq<u8>)
    requires
        keys.contains(key),
        books.contains_key(key),
    ensures
        super::lru::carried_keys(books, keys, skip).contains(key),
    decreases keys.len(),
{
    let so_far = super::lru::carried_keys(books, keys.drop_last(), skip);
    let all = super::lru::carried_keys(books, keys, skip);
    if keys.last() == key {
        assert(all[so_far.len() as int] == key);
    } else {
        let i = keys.index_of(key);
        assert(keys.drop_last()[i] == key);
        what_is_accounted_for_is_carried(books, keys.drop_last(), skip, key);
        let j = so_far.index_of(key);
        assert(all[j] == key);
    }
}

/// Reads that a put recorded are not recorded again: where no more of them were
/// waiting than one write carries, none waits any more.
pub proof fn a_recorded_read_is_not_recorded_again<B: Backend, T: Value>(
    before: LazyLocker<T>,
    shared: Shared<B>,
    key: Seq<u8>,
    value: &T,
    r: Result<()>,
    after: LazyLocker<T>,
    now: Shared<B>,
    read: Seq<u8>,
)
    requires
        put_through(before, shared, key, value, r, after, now),
        r is Ok,
        before.res.inner.config.batch() is None,
        before.res.index is Some,
        before.res.lru matches Some(s) && !s.dirty_spec() && s.deferred().dom().finite() && s.deferred().dom().len() <= 64
            && (s.deferred().contains_key(read) ==> s.books().contains_key(read)),
    ensures
        after.res.lru matches Some(s) && !s.deferred().contains_key(read),
{
    reveal(write_landed);
    let payload = value.payload();
    let b = choose|b: Budget| #[trigger]
        put_landed(before.res, shared, key, payload, b, after.res, now.backend.store());
    let s = before.res.lru->0;
    let store = shared.backend.store();
    let id = before.res.inner.id;
    let led = up_to_date(s, store.meta, id);
    let updates = seq![(key, payload.len() as u64)];
    assert(budget_fits(b, led, updates, Seq::empty(), false, seq![key], shared.next_tick()->0));
    if s.deferred().contains_key(read) {
        let all = listing(led.deferred.dom());
        crate::sorted::a_finite_set_is_listed(led.deferred.dom());
        crate::sorted::the_listing_is(all, led.deferred.dom());
        assert(led.deferred.dom().contains(read));
        assert(looked_at(led) =~= all);
        what_is_accounted_for_is_carried(led.books, looked_at(led), names_of(updates), read);
        assert(views(b.pending@).to_set().contains(read));
    }
}

} // verus!
