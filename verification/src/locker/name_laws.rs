//! What is remembered of names is not the lockers' to touch: whatever a locker
//! commits, every name keeps the id it is registered under.

use vstd::prelude::*;
use vstd::string::StringSliceAdditionalSpecFns;
use vstd::utf8::encode_utf8;

use super::batch::{latest, names_of, removed, weighed, wipes, Move};
use super::chunk::{pieces, FLAG_POSTCARD};
use super::inner::{
    clears, gc_all, gc_list, kept_inline, locker_rows, record_delete, stores, Inner, Prior, Shared,
};
use super::lazy::{clear_landed, delete_landed, put_stored};
use super::lru::{carried_ticks, entries_clear, entry_delete, tick_put, update_views, Books, LruState};
use super::resident::{
    batch_landed, budget_head, budget_list, budgeted, entry_deletes, evictions, flush_gives, looked_at, no_budget,
    up_to_date, update_puts, write_landed, Budget, Ledger, Resident,
};
use super::transaction::{batched, flat, opening, part_fits, prior_of, spells, TxMode};
use crate::backend::api::{a_prefix_span_holds_what_starts_with_it, Backend, Change, Rows, Store, Table};
use crate::bytes::starts_with;
use crate::key::LockerId;
use crate::meta::{locker_key, locker_prefix, lru_key, lru_prefix, next_tick_key, next_value_id_key};
use crate::sorted::{listing, views};

verus! {

/// A change leaves every registered name alone.
pub open spec fn spares_names(c: Change) -> bool {
    match c {
        Change::Put { table, key, .. } => table is Meta ==> !starts_with(key, locker_prefix()),
        Change::Delete { table, key } => table is Meta ==> !starts_with(key, locker_prefix()),
        Change::DeleteRange { table, range } => table is Meta ==> forall|k: Seq<u8>| #[trigger]
            range.contains(k) ==> !starts_with(k, locker_prefix()),
    }
}

/// No change of a list touches a registered name.
pub open spec fn nameless(list: Seq<Change>) -> bool {
    forall|i: int| 0 <= i < list.len() ==> spares_names(#[trigger] list[i])
}

/// Every name is registered as it was.
pub open spec fn same_names(before: Store, after: Store) -> bool {
    forall|name: Seq<u8>| #[trigger]
        after.lookup(Table::Meta, locker_key(name)) == before.lookup(Table::Meta, locker_key(name))
}

/// What touches no name leaves them all.
proof fn a_nameless_list_keeps_the_names(store: Store, list: Seq<Change>)
    requires
        nameless(list),
    ensures
        same_names(store, store.after_all(list)),
    decreases list.len(),
{
    if list.len() > 0 {
        let short = list.drop_last();
        assert forall|i: int| 0 <= i < short.len() implies spares_names(#[trigger] short[i]) by {
            assert(short[i] == list[i]);
        }
        a_nameless_list_keeps_the_names(store, short);
        assert(list[list.len() - 1] == list.last());
        let mid = store.after_all(short);
        let c = list.last();
        assert forall|name: Seq<u8>| #[trigger]
            store.after_all(list).lookup(Table::Meta, locker_key(name)) == store.lookup(
                Table::Meta,
                locker_key(name),
            ) by {
            assert(locker_key(name).take(locker_prefix().len() as int) =~= locker_prefix());
            assert(starts_with(locker_key(name), locker_prefix()));
            assert(mid.lookup(Table::Meta, locker_key(name)) == store.lookup(Table::Meta, locker_key(name)));
        }
    }
}

proof fn nameless_lists_append(a: Seq<Change>, b: Seq<Change>)
    requires
        nameless(a),
        nameless(b),
    ensures
        nameless(a + b),
{
    let all = a + b;
    assert forall|i: int| 0 <= i < all.len() implies spares_names(#[trigger] all[i]) by {
        if i < a.len() {
            assert(all[i] == a[i]);
        } else {
            assert(all[i] == b[i - a.len()]);
        }
    }
}

/// Text that goes on with an ASCII letter goes on with its byte.
proof fn second_byte(text: Seq<char>, a: char, b: char)
    requires
        text.len() > 1,
        text[0] == a,
        text[1] == b,
        (a as u32) < 128,
        (b as u32) < 128,
    ensures
        encode_utf8(text).len() > 1,
        encode_utf8(text)[1] == b as u8,
{
    reveal_with_fuel(encode_utf8, 2);
    crate::bank::first_byte(text.drop_first(), b);
}

/// What lockers keep in `meta` is kept under other keys than names are.
proof fn names_are_apart(id: LockerId, key: Seq<u8>)
    ensures
        !starts_with(lru_key(id, key), locker_prefix()),
        forall|k: Seq<u8>| #[trigger] starts_with(k, lru_prefix(id)) ==> !starts_with(k, locker_prefix()),
        !starts_with(next_value_id_key(), locker_prefix()),
        !starts_with(next_tick_key(), locker_prefix()),
{
    reveal_strlit("lru::");
    reveal_strlit("locker::");
    reveal_strlit("next_value_id");
    reveal_strlit("next_tick");
    second_byte("lru::"@, 'l', 'r');
    second_byte("locker::"@, 'l', 'o');
    crate::bank::first_byte("locker::"@, 'l');
    crate::bank::first_byte("next_value_id"@, 'n');
    crate::bank::first_byte("next_tick"@, 'n');
    let names = locker_prefix();
    assert(lru_prefix(id)[1] == "lru::".spec_bytes()[1]);
    assert forall|k: Seq<u8>| #[trigger] starts_with(k, lru_prefix(id)) implies !starts_with(k, names) by {
        assert(k.take(lru_prefix(id).len() as int)[1] == k[1]);
        if starts_with(k, names) {
            assert(k.take(names.len() as int)[1] == k[1]);
        }
    }
    assert(lru_key(id, key).take(lru_prefix(id).len() as int) =~= lru_prefix(id));
    assert(starts_with(lru_key(id, key), lru_prefix(id)));
    if starts_with(next_value_id_key(), names) {
        assert(next_value_id_key().take(names.len() as int)[0] == next_value_id_key()[0]);
    }
    if starts_with(next_tick_key(), names) {
        assert(next_tick_key().take(names.len() as int)[0] == next_tick_key()[0]);
    }
}

proof fn dropping_is_nameless(records: Rows, id: LockerId, key: Seq<u8>, prior: Prior)
    ensures
        gc_list(records, id, key, prior) matches Some(dropped) ==> nameless(dropped),
{
}

proof fn shedding_is_nameless(records: Rows, id: LockerId, victims: Seq<Seq<u8>>)
    requires
        evictions(records, id, victims) is Some,
    ensures
        nameless(evictions(records, id, victims)->0),
    decreases victims.len(),
{
    if victims.len() > 0 {
        let key = victims.last();
        shedding_is_nameless(records, id, victims.drop_last());
        dropping_is_nameless(records, id, key, Prior::Unknown);
        names_are_apart(id, key);
        let so_far = evictions(records, id, victims.drop_last())->0;
        let dropped = gc_list(records, id, key, Prior::Unknown)->0;
        let tail = seq![record_delete(id, key), entry_delete(id, key)];
        assert(dropped.push(record_delete(id, key)).push(entry_delete(id, key)) =~= dropped + tail);
        nameless_lists_append(dropped, tail);
        nameless_lists_append(so_far, dropped + tail);
    }
}

proof fn carrying_is_nameless(
    id: LockerId,
    books: Books,
    pending: Map<Seq<u8>, u64>,
    keys: Seq<Seq<u8>>,
    skip: Seq<Seq<u8>>,
)
    ensures
        nameless(carried_ticks(id, books, pending, keys, skip)),
    decreases keys.len(),
{
    if keys.len() > 0 {
        carrying_is_nameless(id, books, pending, keys.drop_last(), skip);
        names_are_apart(id, keys.last());
    }
}

proof fn a_budget_is_nameless(records: Rows, id: LockerId, led: Ledger, b: Budget, next_tick: u64)
    requires
        budget_list(records, id, led, b, next_tick) is Some,
    ensures
        nameless(budget_list(records, id, led, b, next_tick)->0),
{
    reveal(budget_head);
    let updates = update_views(b.updates@);
    let names = Seq::new(updates.len(), |i: int| updates[i].0);
    let cleared: Seq<Change> = if b.cleared {
        seq![entries_clear(id)]
    } else {
        Seq::empty()
    };
    let ticks: Seq<Change> = if b.cleared {
        Seq::empty()
    } else {
        carried_ticks(id, led.books, led.deferred, looked_at(led), names)
    };
    let puts = update_puts(id, updates);
    let gone = entry_deletes(id, views(b.removals@));
    names_are_apart(id, Seq::empty());
    assert(spares_names(entries_clear(id))) by {
        assert forall|k: Seq<u8>| #[trigger]
            crate::backend::api::Span::prefix(lru_prefix(id)).contains(k) implies !starts_with(k, locker_prefix()) by {
            a_prefix_span_holds_what_starts_with_it(lru_prefix(id), k);
        }
    }
    assert(nameless(cleared));
    assert(nameless(puts)) by {
        assert forall|i: int| 0 <= i < puts.len() implies spares_names(#[trigger] puts[i]) by {
            names_are_apart(id, updates[i].0);
        }
    }
    carrying_is_nameless(id, led.books, led.deferred, looked_at(led), names);
    assert(nameless(gone)) by {
        assert forall|i: int| 0 <= i < gone.len() implies spares_names(#[trigger] gone[i]) by {
            names_are_apart(id, views(b.removals@)[i]);
        }
    }
    nameless_lists_append(cleared, puts);
    nameless_lists_append(cleared + puts, ticks);
    nameless_lists_append(cleared + puts + ticks, gone);
    let head = budget_head(id, led, b);
    let shed = evictions(records, id, views(b.plan.victims@))->0;
    shedding_is_nameless(records, id, views(b.plan.victims@));
    nameless_lists_append(head, shed);
    let tail = seq![tick_put(next_tick)];
    assert((head + shed).push(tick_put(next_tick)) =~= (head + shed) + tail);
    nameless_lists_append(head + shed, tail);
}

proof fn storing_is_nameless(
    inner: Inner,
    records: Rows,
    key: Seq<u8>,
    payload: Seq<u8>,
    prior: Prior,
    id: u64,
    list: Seq<Change>,
)
    requires
        gc_list(records, inner.id, key, prior) matches Some(dropped) && stores(
            inner,
            key,
            payload,
            FLAG_POSTCARD,
            dropped,
            id,
            list,
        ),
    ensures
        nameless(list),
{
    reveal(stores);
    let dropped = gc_list(records, inner.id, key, prior)->0;
    dropping_is_nameless(records, inner.id, key, prior);
    names_are_apart(inner.id, key);
    let n = dropped.len() as int;
    let parts = pieces(payload, inner.config.chunk_size as int);
    assert forall|i: int| 0 <= i < list.len() implies spares_names(#[trigger] list[i]) by {
        if i < n {
            assert(list[i] == list.take(n)[i]);
        } else if i == list.len() - 1 {
            assert(list[i] == list.last());
        } else if i > n && !kept_inline(inner.config, payload.len(), FLAG_POSTCARD) {
            let body = list.subrange(n + 1, n + 1 + parts.len());
            assert(list[i] == body[i - n - 1]);
        }
    }
}

proof fn dropping_all_is_nameless(rows: Rows, keys: Seq<Seq<u8>>)
    ensures
        nameless(gc_all(rows, keys)),
    decreases keys.len(),
{
    if keys.len() > 0 {
        dropping_all_is_nameless(rows, keys.drop_last());
    }
}

proof fn a_part_is_nameless(
    inner: Inner,
    mode: TxMode,
    records: Rows,
    prior: Prior,
    key: Seq<u8>,
    what: Option<Seq<u8>>,
    id: u64,
    part: Seq<Change>,
)
    requires
        part_fits(inner, mode, records, prior, key, what, id, part),
    ensures
        nameless(part),
{
    if mode is Lazy {
        dropping_is_nameless(records, inner.id, key, prior);
        if let Some(payload) = what {
            storing_is_nameless(inner, records, key, payload, prior, id, part);
        }
    }
}

proof fn parts_are_nameless(
    inner: Inner,
    mode: TxMode,
    records: Rows,
    prior: Prior,
    keys: Seq<Seq<u8>>,
    last: Map<Seq<u8>, Option<Seq<u8>>>,
    parts: Seq<Seq<Change>>,
    ids: Seq<u64>,
    n: int,
)
    requires
        spells(inner, mode, records, prior, keys, last, parts, ids),
        0 <= n <= parts.len(),
    ensures
        nameless(flat(parts.take(n))),
    decreases n,
{
    if n > 0 {
        parts_are_nameless(inner, mode, records, prior, keys, last, parts, ids, n - 1);
        a_part_is_nameless(inner, mode, records, prior, keys[n - 1], last[keys[n - 1]], ids[n - 1], parts[n - 1]);
        assert(parts.take(n).drop_last() =~= parts.take(n - 1));
        assert(parts.take(n).last() == parts[n - 1]);
        nameless_lists_append(flat(parts.take(n - 1)), parts[n - 1]);
    }
}

/// What lands as one commit leaves the names, where it touches none itself:
/// what it owes its budget does not either.
proof fn what_lands_keeps_the_names(
    lru: Option<LruState>,
    id: LockerId,
    store: Store,
    tick: Option<u64>,
    out: Seq<Change>,
    updates: Seq<(Seq<u8>, u64)>,
    removals: Seq<Seq<u8>>,
    cleared: bool,
    keep: Seq<Seq<u8>>,
    b: Budget,
    after: Store,
)
    requires
        nameless(out),
        write_landed(lru, id, store, tick, out, updates, removals, cleared, keep, b, after),
    ensures
        same_names(store, after),
{
    reveal(write_landed);
    let all = choose|all: Seq<Change>|
        {
            &&& after == #[trigger] store.after_all(all)
            &&& match lru {
                Some(s) => budgeted(s, id, store, tick, updates, removals, cleared, keep, b, out, all),
                None => all == out && no_budget(b),
            }
        };
    if let Some(s) = lru {
        let led = up_to_date(s, store.meta, id);
        let next = (tick->0 + 1) as u64;
        a_budget_is_nameless(store.records, id, led, b, next);
        nameless_lists_append(out, budget_list(store.records, id, led, b, next)->0);
    }
    a_nameless_list_keeps_the_names(store, all);
}

/// A batch leaves every name registered as it was.
pub proof fn a_batch_keeps_the_names<B: Backend>(
    before: Resident,
    shared: Shared<B>,
    list: Seq<Move>,
    b: Budget,
    after: Store,
    next: u64,
)
    requires
        batch_landed(before, shared, list, b, after, next),
    ensures
        same_names(shared.backend.store(), after),
{
    reveal(batch_landed);
    let store = shared.backend.store();
    let records = store.records;
    let id = before.inner.id;
    let first = shared.next_id();
    let out = choose|out: Seq<Change>|
        {
            &&& #[trigger] batched(before.inner, before.mode, records, list, first, next, out)
            &&& write_landed(
                before.lru,
                id,
                store,
                shared.next_tick(),
                out,
                weighed(list),
                removed(list),
                wipes(list),
                names_of(weighed(list)),
                b,
                after,
            )
        };
    let keys = listing(latest(list).dom());
    let (parts, ids) = choose|parts: Seq<Seq<Change>>, ids: Seq<u64>|
        {
            &&& #[trigger] spells(before.inner, before.mode, records, prior_of(list), keys, latest(list), parts, ids)
            &&& ids[0] == first
            &&& ids.last() == next
            &&& out == opening(before.inner, before.mode, records, list) + flat(parts)
        };
    let head = opening(before.inner, before.mode, records, list);
    let rows = locker_rows(records, id);
    dropping_all_is_nameless(rows, listing(rows.dom()));
    assert(nameless(clears(records, id)));
    assert(nameless(head));
    parts_are_nameless(
        before.inner,
        before.mode,
        records,
        prior_of(list),
        keys,
        latest(list),
        parts,
        ids,
        parts.len() as int,
    );
    assert(parts.take(parts.len() as int) =~= parts);
    nameless_lists_append(head, flat(parts));
    what_lands_keeps_the_names(
        before.lru,
        id,
        store,
        shared.next_tick(),
        out,
        weighed(list),
        removed(list),
        wipes(list),
        names_of(weighed(list)),
        b,
        after,
    );
}

/// A put leaves every name registered as it was.
pub proof fn a_put_keeps_the_names<B: Backend>(
    before: Resident,
    shared: Shared<B>,
    key: Seq<u8>,
    payload: Seq<u8>,
    b: Budget,
    after: Store,
)
    requires
        put_stored(before, shared, key, payload, b, after),
    ensures
        same_names(shared.backend.store(), after),
{
    let store = shared.backend.store();
    let id = before.inner.id;
    let prior = before.prior_spec(key, shared.trusts(before.inner));
    let dropped = gc_list(store.records, id, key, prior)->0;
    let out = choose|out: Seq<Change>|
        {
            &&& #[trigger] stores(before.inner, key, payload, FLAG_POSTCARD, dropped, shared.next_id(), out)
            &&& write_landed(
                before.lru,
                id,
                store,
                shared.next_tick(),
                out,
                seq![(key, payload.len() as u64)],
                Seq::empty(),
                false,
                seq![key],
                b,
                after,
            )
        };
    storing_is_nameless(before.inner, store.records, key, payload, prior, shared.next_id(), out);
    what_lands_keeps_the_names(
        before.lru,
        id,
        store,
        shared.next_tick(),
        out,
        seq![(key, payload.len() as u64)],
        Seq::empty(),
        false,
        seq![key],
        b,
        after,
    );
}

/// A delete leaves every name registered as it was.
pub proof fn a_delete_keeps_the_names<B: Backend>(
    before: Resident,
    shared: Shared<B>,
    key: Seq<u8>,
    b: Budget,
    after: Resident,
    store: Store,
)
    requires
        delete_landed(before, shared, key, b, after, store),
    ensures
        same_names(shared.backend.store(), store),
{
    let was = shared.backend.store();
    let id = before.inner.id;
    let prior = before.prior_spec(key, shared.trusts(before.inner));
    dropping_is_nameless(was.records, id, key, prior);
    what_lands_keeps_the_names(
        before.lru,
        id,
        was,
        shared.next_tick(),
        gc_list(was.records, id, key, prior)->0.push(record_delete(id, key)),
        Seq::empty(),
        seq![key],
        false,
        Seq::empty(),
        b,
        store,
    );
}

/// A clear leaves every name registered as it was.
pub proof fn a_clear_keeps_the_names<B: Backend>(
    before: Resident,
    shared: Shared<B>,
    b: Budget,
    after: Resident,
    store: Store,
)
    requires
        clear_landed(before, shared, b, after, store),
    ensures
        same_names(shared.backend.store(), store),
{
    let was = shared.backend.store();
    let id = before.inner.id;
    let rows = locker_rows(was.records, id);
    dropping_all_is_nameless(rows, listing(rows.dom()));
    what_lands_keeps_the_names(
        before.lru,
        id,
        was,
        shared.next_tick(),
        clears(was.records, id),
        Seq::empty(),
        Seq::empty(),
        true,
        Seq::empty(),
        b,
        store,
    );
}

/// A flush leaves every name registered as it was.
pub proof fn a_flush_keeps_the_names<B: Backend>(
    before: Resident,
    shared: Shared<B>,
    ok: bool,
    after: Resident,
    now: Shared<B>,
)
    requires
        flush_gives(before, shared, ok, after, now),
    ensures
        same_names(shared.backend.store(), now.backend.store()),
{
    if ok && before.staged@.len() > 0 {
        let list = super::batch::moves(before.staged@);
        let next = now.next_id_from(shared.backend.store());
        let b = choose|b: Budget|
            {
                &&& #[trigger] batch_landed(before, shared, list, b, now.backend.store(), next)
                &&& super::resident::budget_applied(before, shared.backend.store().meta, b, after)
            };
        a_batch_keeps_the_names(before, shared, list, b, now.backend.store(), next);
    }
}

} // verus!
