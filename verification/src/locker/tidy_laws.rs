//! The store stays tidy: whatever is written, removed or shed, no two records
//! ever own the same chunks, and every id in use is below the next one to be
//! handed out.

use vstd::prelude::*;
use vstd::string::StringSliceAdditionalSpecFns;
use vstd::utf8::encode_utf8_decode_utf8;

use super::batch::{latest, names_of, removed, weighed, wipes, Move};
use super::chunk::{an_envelope_is_no_pointer, parsed, pieces, pointer_bytes, pointer_layout, points, FLAG_POSTCARD};
use super::inner::{
    clears, gc_all, gc_list, id_after, kept_inline, locker_rows, pointer_to, record_delete, record_put, stores, Inner,
    Prior, Shared,
};
use super::io::{published, swapped, Writer};
use super::laws::{owned, owns, tidy};
use super::lazy::{clear_landed, delete_landed, put_stored};
use super::lazy_laws::{gc_spares_records, only_the_last_counts};
use super::lru::{carried_ticks, entries_clear, entry_delete, tick_put, update_views, Books};
use super::resident::{
    batch_landed, budget_head, budget_list, budgeted, entry_deletes, evictions, looked_at, no_budget,
    shed_landed, up_to_date, update_puts, write_landed, Budget, Ledger, Resident,
};
use super::transaction::{batched, flat, opening, part_fits, prior_of, spells, TxMode};
use crate::backend::api::{
    a_prefix_span_holds_what_starts_with_it, after_all_pushes, Backend, Change, Rows, Store, Table,
};
use crate::bytes::starts_with;
use crate::codec::FilterChain;
use crate::key::{stored, LockerId};
use crate::meta::{lru_key, lru_prefix, next_tick_key, next_value_id_key};
use crate::sorted::{listing, views};

verus! {

impl<B: Backend> Shared<B> {
    /// The store is tidy, and the allocator knows it.
    pub open spec fn is_tidy(self) -> bool {
        tidy(self.backend.store().records, self.next_id())
    }
}

/// The id of the chunks that a change has a record own.
pub open spec fn claims(c: Change) -> Option<u64> {
    match c {
        Change::Put { table, value, .. } => if table is Records && points(value) && parsed(value) is Some {
            Some(parsed(value)->0.value_id)
        } else {
            None
        },
        _ => None,
    }
}

/// A change reaches the stored counter of ids.
pub open spec fn counts(c: Change) -> bool {
    match c {
        Change::Put { table, key, .. } => table is Meta && key == next_value_id_key(),
        Change::Delete { table, key } => table is Meta && key == next_value_id_key(),
        Change::DeleteRange { table, range } => table is Meta && range.contains(next_value_id_key()),
    }
}

/// The changes of a list claim ids from `first` on and below `next`, each of
/// them once.
pub open spec fn orderly(list: Seq<Change>, first: u64, next: u64) -> bool {
    &&& first <= next
    &&& forall|i: int|
        0 <= i < list.len() ==> (claims(#[trigger] list[i]) matches Some(id) ==> first <= id < next)
    &&& forall|i: int, j: int|
        0 <= i < j < list.len() ==> (claims(#[trigger] list[i]) matches Some(a) ==> (claims(
            #[trigger] list[j],
        ) matches Some(b) ==> a != b))
}

/// No change of a list claims an id or reaches the counter.
pub open spec fn quiet(list: Seq<Change>) -> bool {
    forall|i: int| 0 <= i < list.len() ==> claims(#[trigger] list[i]) is None && !counts(list[i])
}

/// A list claims an id.
spec fn claimed(list: Seq<Change>, id: u64) -> bool {
    exists|i: int| 0 <= i < list.len() && claims(#[trigger] list[i]) == Some(id)
}

/// An orderly list keeps the records tidy.
proof fn an_orderly_list_keeps_tidy(store: Store, list: Seq<Change>, first: u64, next: u64)
    requires
        tidy(store.records, first),
        orderly(list, first, next),
    ensures
        tidy(store.after_all(list).records, next),
        forall|k: Seq<u8>| #[trigger]
            owns(store.after_all(list).records, k) ==> owned(store.after_all(list).records, k) < first || claimed(
                list,
                owned(store.after_all(list).records, k),
            ),
    decreases list.len(),
{
    let after = store.after_all(list).records;
    if list.len() == 0 {
        assert(store.after_all(list) == store);
    } else {
        let short = list.drop_last();
        let c = list.last();
        let before = store.after_all(short).records;
        assert forall|i: int| 0 <= i < short.len() implies (claims(#[trigger] short[i]) matches Some(id) ==> first <= id
            < next) by {
            assert(short[i] == list[i]);
        }
        assert forall|i: int, j: int| 0 <= i < j < short.len() implies (claims(#[trigger] short[i]) matches Some(a)
            ==> (claims(#[trigger] short[j]) matches Some(b) ==> a != b)) by {
            assert(short[i] == list[i] && short[j] == list[j]);
        }
        an_orderly_list_keeps_tidy(store, short, first, next);
        let at: Option<Seq<u8>> = match c {
            Change::Put { table, key, .. } => if table is Records {
                Some(key)
            } else {
                None
            },
            _ => None,
        };
        assert(list[list.len() - 1] == c);
        assert forall|k: Seq<u8>| #[trigger] owns(after, k) && at != Some(k) implies owns(before, k) && owned(after, k)
            == owned(before, k) by {}
        assert forall|id: u64| #[trigger] claimed(short, id) implies claimed(list, id) by {
            let i = choose|i: int| 0 <= i < short.len() && claims(#[trigger] short[i]) == Some(id);
            assert(list[i] == short[i]);
        }
        if let Some(k) = at {
            if owns(after, k) {
                let id = owned(after, k);
                assert(claims(c) == Some(id));
                assert(claimed(list, id));
                assert(!claimed(short, id)) by {
                    if claimed(short, id) {
                        let i = choose|i: int| 0 <= i < short.len() && claims(#[trigger] short[i]) == Some(id);
                        assert(list[i] == short[i]);
                    }
                }
            }
        }
        assert forall|k: Seq<u8>| #[trigger] owns(after, k) implies owned(after, k) < next && (owned(after, k) < first
            || claimed(list, owned(after, k))) by {
            if at != Some(k) {
                assert(owns(before, k));
            }
        }
        assert forall|j: Seq<u8>, k: Seq<u8>|
            #[trigger] owns(after, j) && #[trigger] owns(after, k) && j != k implies owned(after, j) != owned(
            after,
            k,
        ) by {
            if at != Some(j) {
                assert(owns(before, j));
            }
            if at != Some(k) {
                assert(owns(before, k));
            }
        }
    }
}

/// Two orderly lists, one after the other, are one.
proof fn orderly_lists_append(a: Seq<Change>, b: Seq<Change>, first: u64, mid: u64, next: u64)
    requires
        orderly(a, first, mid),
        orderly(b, mid, next),
    ensures
        orderly(a + b, first, next),
{
    let all = a + b;
    assert forall|i: int| 0 <= i < all.len() implies (claims(#[trigger] all[i]) matches Some(id) ==> first <= id
        < next) by {
        if i < a.len() {
            assert(all[i] == a[i]);
        } else {
            assert(all[i] == b[i - a.len()]);
        }
    }
    assert forall|i: int, j: int| 0 <= i < j < all.len() implies (claims(#[trigger] all[i]) matches Some(x) ==> (claims(
        #[trigger] all[j],
    ) matches Some(y) ==> x != y)) by {
        if i < a.len() {
            assert(all[i] == a[i]);
        } else {
            assert(all[i] == b[i - a.len()]);
        }
        if j < a.len() {
            assert(all[j] == a[j]);
        } else {
            assert(all[j] == b[j - a.len()]);
        }
    }
}

/// Two quiet lists, one after the other, are one.
proof fn quiet_lists_append(a: Seq<Change>, b: Seq<Change>)
    requires
        quiet(a),
        quiet(b),
    ensures
        quiet(a + b),
{
    let all = a + b;
    assert forall|i: int| 0 <= i < all.len() implies claims(#[trigger] all[i]) is None && !counts(all[i]) by {
        if i < a.len() {
            assert(all[i] == a[i]);
        } else {
            assert(all[i] == b[i - a.len()]);
        }
    }
}

/// A quiet list leaves the counter.
proof fn a_quiet_list_keeps_the_counter(store: Store, list: Seq<Change>)
    requires
        quiet(list),
    ensures
        store.after_all(list).lookup(Table::Meta, next_value_id_key()) == store.lookup(
            Table::Meta,
            next_value_id_key(),
        ),
    decreases list.len(),
{
    if list.len() > 0 {
        let short = list.drop_last();
        assert forall|i: int| 0 <= i < short.len() implies claims(#[trigger] short[i]) is None && !counts(short[i]) by {
            assert(short[i] == list[i]);
        }
        a_quiet_list_keeps_the_counter(store, short);
        assert(list[list.len() - 1] == list.last());
    }
}

/// Quiet changes keep a store tidy: what neither has a record own chunks nor
/// moves the counter of ids leaves every id as it was.
pub proof fn quiet_changes_keep_the_store_tidy<B: Backend>(shared: Shared<B>, list: Seq<Change>, now: Shared<B>)
    requires
        shared.is_tidy(),
        quiet(list),
        now.backend.store() == shared.backend.store().after_all(list),
        now.values == shared.values,
    ensures
        now.is_tidy(),
{
    an_orderly_list_keeps_tidy(shared.backend.store(), list, shared.next_id(), shared.next_id());
    a_quiet_list_keeps_the_counter(shared.backend.store(), list);
}

/// A store with no records is tidy.
pub proof fn a_store_without_records_is_tidy<B: Backend>(shared: Shared<B>)
    requires
        shared.backend.store().records == Map::<Seq<u8>, Seq<u8>>::empty(),
    ensures
        shared.is_tidy(),
{
}

/// A call that stores nothing keeps the store tidy, though it may have taken
/// an id.
pub proof fn a_refused_write_keeps_the_store_tidy<B: Backend>(shared: Shared<B>, now: Shared<B>)
    requires
        shared.is_tidy(),
        now.backend.store() == shared.backend.store(),
        now.carries_on(shared),
    ensures
        now.is_tidy(),
{
    let records = shared.backend.store().records;
    assert forall|k: Seq<u8>| #[trigger] owns(records, k) implies owned(records, k) < now.next_id() by {
        assert(owned(records, k) < shared.next_id());
    }
}

/// The accounting is kept under other keys than the counter of ids.
proof fn the_counter_is_apart(id: LockerId, key: Seq<u8>)
    ensures
        lru_key(id, key) != next_value_id_key(),
        !starts_with(next_value_id_key(), lru_prefix(id)),
        next_tick_key() != next_value_id_key(),
{
    reveal_strlit("lru::");
    reveal_strlit("next_value_id");
    reveal_strlit("next_tick");
    crate::bank::first_byte("lru::"@, 'l');
    crate::bank::first_byte("next_value_id"@, 'n');
    assert(lru_prefix(id)[0] == "lru::".spec_bytes()[0]);
    assert(lru_key(id, key)[0] == lru_prefix(id)[0]);
    if starts_with(next_value_id_key(), lru_prefix(id)) {
        assert(next_value_id_key().take(lru_prefix(id).len() as int)[0] == next_value_id_key()[0]);
    }
    encode_utf8_decode_utf8("next_value_id"@);
    encode_utf8_decode_utf8("next_tick"@);
    assert("next_tick"@.len() != "next_value_id"@.len());
}

/// Dropping the chunks behind a key is quiet.
proof fn dropping_is_quiet(records: Rows, id: LockerId, key: Seq<u8>, prior: Prior)
    requires
        gc_list(records, id, key, prior) is Some,
    ensures
        quiet(gc_list(records, id, key, prior)->0),
{
}

/// Shedding is quiet.
proof fn shedding_is_quiet(records: Rows, id: LockerId, victims: Seq<Seq<u8>>)
    requires
        evictions(records, id, victims) is Some,
    ensures
        quiet(evictions(records, id, victims)->0),
    decreases victims.len(),
{
    if victims.len() > 0 {
        let key = victims.last();
        shedding_is_quiet(records, id, victims.drop_last());
        dropping_is_quiet(records, id, key, Prior::Unknown);
        the_counter_is_apart(id, key);
        let so_far = evictions(records, id, victims.drop_last())->0;
        let dropped = gc_list(records, id, key, Prior::Unknown)->0;
        let tail = seq![record_delete(id, key), entry_delete(id, key)];
        assert(dropped.push(record_delete(id, key)).push(entry_delete(id, key)) =~= dropped + tail);
        quiet_lists_append(dropped, tail);
        quiet_lists_append(so_far, dropped + tail);
    }
}

/// Carrying deferred ticks is quiet.
proof fn carrying_is_quiet(id: LockerId, books: Books, pending: Map<Seq<u8>, u64>, keys: Seq<Seq<u8>>, skip: Seq<Seq<u8>>)
    ensures
        quiet(carried_ticks(id, books, pending, keys, skip)),
    decreases keys.len(),
{
    if keys.len() > 0 {
        let k = keys.last();
        carrying_is_quiet(id, books, pending, keys.drop_last(), skip);
        the_counter_is_apart(id, k);
    }
}

/// What a commit owes its budget is quiet.
proof fn a_budget_is_quiet(records: Rows, id: LockerId, led: Ledger, b: Budget, next_tick: u64)
    requires
        budget_list(records, id, led, b, next_tick) is Some,
    ensures
        quiet(budget_list(records, id, led, b, next_tick)->0),
{
    reveal(budget_head);
    let updates = update_views(b.updates@);
    let names = Seq::new(updates.len(), |i: int| updates[i].0);
    let cleared: Seq<Change> = if b.cleared {
        seq![entries_clear(id)]
    } else {
        Seq::empty()
    };
    let ticks: Seq<Change> = if b.cleared {
        Seq::empty()
    } else {
        carried_ticks(id, led.books, led.deferred, looked_at(led), names)
    };
    let puts = update_puts(id, updates);
    let gone = entry_deletes(id, views(b.removals@));
    the_counter_is_apart(id, Seq::empty());
    a_prefix_span_holds_what_starts_with_it(lru_prefix(id), next_value_id_key());
    assert(quiet(cleared));
    assert(quiet(puts)) by {
        assert forall|i: int| 0 <= i < puts.len() implies claims(#[trigger] puts[i]) is None && !counts(puts[i]) by {
            the_counter_is_apart(id, updates[i].0);
        }
    }
    carrying_is_quiet(id, led.books, led.deferred, looked_at(led), names);
    assert(quiet(gone)) by {
        assert forall|i: int| 0 <= i < gone.len() implies claims(#[trigger] gone[i]) is None && !counts(gone[i]) by {
            the_counter_is_apart(id, views(b.removals@)[i]);
        }
    }
    quiet_lists_append(cleared, puts);
    quiet_lists_append(cleared + puts, ticks);
    quiet_lists_append(cleared + puts + ticks, gone);
    let head = budget_head(id, led, b);
    let shed = evictions(records, id, views(b.plan.victims@))->0;
    shedding_is_quiet(records, id, views(b.plan.victims@));
    quiet_lists_append(head, shed);
    let tail = seq![tick_put(next_tick)];
    assert((head + shed).push(tick_put(next_tick)) =~= (head + shed) + tail);
    quiet_lists_append(head + shed, tail);
}

/// A commit that lands keeps the store tidy where its own changes are orderly:
/// what it owes its budget takes nothing.
proof fn what_lands_is_tidy<B: Backend>(
    before: Resident,
    shared: Shared<B>,
    out: Seq<Change>,
    updates: Seq<(Seq<u8>, u64)>,
    removals: Seq<Seq<u8>>,
    cleared: bool,
    keep: Seq<Seq<u8>>,
    b: Budget,
    next: u64,
    now: Shared<B>,
)
    requires
        shared.is_tidy(),
        write_landed(
            before.lru,
            before.inner.id,
            shared.backend.store(),
            shared.next_tick(),
            out,
            updates,
            removals,
            cleared,
            keep,
            b,
            now.backend.store(),
        ),
        orderly(out, shared.next_id(), next),
        next == shared.next_id() ==> quiet(out) && now.values == shared.values,
        next != shared.next_id() ==> now.values.cursor() == Some(next),
    ensures
        now.is_tidy(),
{
    reveal(write_landed);
    let store = shared.backend.store();
    let id = before.inner.id;
    let first = shared.next_id();
    let all = choose|all: Seq<Change>|
        {
            &&& now.backend.store() == #[trigger] store.after_all(all)
            &&& match before.lru {
                Some(s) => budgeted(s, id, store, shared.next_tick(), updates, removals, cleared, keep, b, out, all),
                None => all == out && no_budget(b),
            }
        };
    if let Some(s) = before.lru {
        let led = up_to_date(s, store.meta, id);
        let tick = (shared.next_tick()->0 + 1) as u64;
        let more = budget_list(store.records, id, led, b, tick)->0;
        a_budget_is_quiet(store.records, id, led, b, tick);
        orderly_lists_append(out, more, first, next, next);
        if next == first {
            quiet_lists_append(out, more);
        }
    }
    an_orderly_list_keeps_tidy(store, all, first, next);
    if next == first {
        a_quiet_list_keeps_the_counter(store, all);
    }
}

/// Storing a payload claims at most the id it was given, and moves the counter
/// only where it takes it.
proof fn storing_is_orderly(
    inner: Inner,
    records: Rows,
    key: Seq<u8>,
    payload: Seq<u8>,
    prior: Prior,
    id: u64,
    list: Seq<Change>,
)
    requires
        gc_list(records, inner.id, key, prior) matches Some(dropped) && stores(
            inner,
            key,
            payload,
            FLAG_POSTCARD,
            dropped,
            id,
            list,
        ),
    ensures
        orderly(list, id, id_after(inner.config, payload.len(), FLAG_POSTCARD, id)),
        kept_inline(inner.config, payload.len(), FLAG_POSTCARD) ==> quiet(list),
        !kept_inline(inner.config, payload.len(), FLAG_POSTCARD) ==> id < u64::MAX,
{
    reveal(stores);
    let dropped = gc_list(records, inner.id, key, prior)->0;
    dropping_is_quiet(records, inner.id, key, prior);
    let n = dropped.len() as int;
    if kept_inline(inner.config, payload.len(), FLAG_POSTCARD) {
        let record = choose|record: Seq<u8>|
            inner.chain.seals(payload, record) && list.last() == #[trigger] record_put(inner.id, key, record);
        an_envelope_is_no_pointer(&inner.chain, payload, record);
        assert forall|i: int| 0 <= i < list.len() implies claims(#[trigger] list[i]) is None && !counts(list[i]) by {
            if i < n {
                assert(list[i] == list.take(n)[i]);
            } else {
                assert(list[i] == list.last());
            }
        }
    } else {
        let parts = pieces(payload, inner.config.chunk_size as int);
        let body = list.subrange(n + 1, n + 1 + parts.len());
        let p = pointer_to(id, payload, inner.config.chunk_size as int, FLAG_POSTCARD);
        pointer_layout(p);
        assert forall|i: int| 0 <= i < list.len() - 1 implies claims(#[trigger] list[i]) is None by {
            if i < n {
                assert(list[i] == list.take(n)[i]);
            } else if i > n {
                assert(list[i] == body[i - n - 1]);
            }
        }
        assert(list[list.len() - 1] == list.last());
        assert(claims(list.last()) matches Some(taken) ==> taken == id);
    }
}

/// A put keeps the store tidy, whatever it chunks, replaces or sheds.
pub proof fn a_put_keeps_the_store_tidy<B: Backend>(
    before: Resident,
    shared: Shared<B>,
    key: Seq<u8>,
    payload: Seq<u8>,
    b: Budget,
    now: Shared<B>,
)
    requires
        shared.is_tidy(),
        put_stored(before, shared, key, payload, b, now.backend.store()),
        now.carries_on(shared),
        now.next_id_from(shared.backend.store()) == id_after(
            before.inner.config,
            payload.len(),
            FLAG_POSTCARD,
            shared.next_id(),
        ),
    ensures
        now.is_tidy(),
{
    let was = shared.backend.store();
    let prior = before.prior_spec(key, shared.trusts(before.inner));
    let dropped = gc_list(was.records, before.inner.id, key, prior)->0;
    let out = choose|out: Seq<Change>|
        {
            &&& #[trigger] stores(before.inner, key, payload, FLAG_POSTCARD, dropped, shared.next_id(), out)
            &&& write_landed(
                before.lru,
                before.inner.id,
                was,
                shared.next_tick(),
                out,
                seq![(key, payload.len() as u64)],
                Seq::empty(),
                false,
                seq![key],
                b,
                now.backend.store(),
            )
        };
    storing_is_orderly(before.inner, was.records, key, payload, prior, shared.next_id(), out);
    what_lands_is_tidy(
        before,
        shared,
        out,
        seq![(key, payload.len() as u64)],
        Seq::empty(),
        false,
        seq![key],
        b,
        id_after(before.inner.config, payload.len(), FLAG_POSTCARD, shared.next_id()),
        now,
    );
}

/// A delete keeps the store tidy.
pub proof fn a_delete_keeps_the_store_tidy<B: Backend>(
    before: Resident,
    shared: Shared<B>,
    key: Seq<u8>,
    b: Budget,
    after: Resident,
    now: Shared<B>,
)
    requires
        shared.is_tidy(),
        delete_landed(before, shared, key, b, after, now.backend.store()),
        now.values == shared.values,
    ensures
        now.is_tidy(),
{
    let prior = before.prior_spec(key, shared.trusts(before.inner));
    let records = shared.backend.store().records;
    let dropped = gc_list(records, before.inner.id, key, prior)->0;
    let tail = seq![record_delete(before.inner.id, key)];
    dropping_is_quiet(records, before.inner.id, key, prior);
    quiet_lists_append(dropped, tail);
    assert(dropped.push(record_delete(before.inner.id, key)) =~= dropped + tail);
    what_lands_is_tidy(
        before,
        shared,
        dropped + tail,
        Seq::empty(),
        seq![key],
        false,
        Seq::empty(),
        b,
        shared.next_id(),
        now,
    );
}

/// Clearing the chunks of some keys is quiet.
proof fn dropping_all_is_quiet(rows: Rows, keys: Seq<Seq<u8>>)
    ensures
        quiet(gc_all(rows, keys)),
    decreases keys.len(),
{
    if keys.len() > 0 {
        dropping_all_is_quiet(rows, keys.drop_last());
    }
}

/// Clearing a locker is quiet.
pub(crate) proof fn clearing_is_quiet(records: Rows, id: LockerId)
    ensures
        quiet(clears(records, id)),
{
    let rows = locker_rows(records, id);
    dropping_all_is_quiet(rows, listing(rows.dom()));
}

/// A clear keeps the store tidy.
pub proof fn a_clear_keeps_the_store_tidy<B: Backend>(
    before: Resident,
    shared: Shared<B>,
    b: Budget,
    after: Resident,
    now: Shared<B>,
)
    requires
        shared.is_tidy(),
        clear_landed(before, shared, b, after, now.backend.store()),
        now.values == shared.values,
    ensures
        now.is_tidy(),
{
    let out = clears(shared.backend.store().records, before.inner.id);
    clearing_is_quiet(shared.backend.store().records, before.inner.id);
    what_lands_is_tidy(
        before,
        shared,
        out,
        Seq::empty(),
        Seq::empty(),
        true,
        Seq::empty(),
        b,
        shared.next_id(),
        now,
    );
}

/// What a key is left with is orderly.
proof fn a_part_is_orderly(
    inner: Inner,
    mode: TxMode,
    records: Rows,
    prior: Prior,
    key: Seq<u8>,
    what: Option<Seq<u8>>,
    id: u64,
    part: Seq<Change>,
)
    requires
        part_fits(inner, mode, records, prior, key, what, id, part),
    ensures
        orderly(part, id, super::transaction::id_after(inner, mode, what, id)),
        id <= super::transaction::id_after(inner, mode, what, id),
        super::transaction::id_after(inner, mode, what, id) == id ==> quiet(part),
{
    match mode {
        TxMode::Lazy => {
            dropping_is_quiet(records, inner.id, key, prior);
            match what {
                None => {},
                Some(payload) => {
                    storing_is_orderly(inner, records, key, payload, prior, id, part);
                },
            }
        },
        TxMode::Eager => {
            match what {
                None => {},
                Some(payload) => {
                    let record = choose|record: Seq<u8>|
                        inner.chain.seals(payload, record) && record.len() <= inner.config.max_inline && part == seq![
                            #[trigger] record_put(inner.id, key, record),
                        ];
                    an_envelope_is_no_pointer(&inner.chain, payload, record);
                },
            }
        },
    }
}

/// What the keys of a batch are left with is orderly.
proof fn parts_are_orderly(
    inner: Inner,
    mode: TxMode,
    records: Rows,
    prior: Prior,
    keys: Seq<Seq<u8>>,
    last: Map<Seq<u8>, Option<Seq<u8>>>,
    parts: Seq<Seq<Change>>,
    ids: Seq<u64>,
)
    requires
        spells(inner, mode, records, prior, keys, last, parts, ids),
    ensures
        orderly(flat(parts), ids[0], ids.last()),
        ids[0] == ids.last() ==> quiet(flat(parts)),
    decreases keys.len(),
{
    if keys.len() > 0 {
        let n = keys.len() - 1;
        let short = keys.drop_last();
        let fewer = parts.drop_last();
        let sooner = ids.drop_last();
        assert(spells(inner, mode, records, prior, short, last, fewer, sooner)) by {
            assert forall|i: int|
                #![trigger fewer[i]]
                0 <= i < short.len() implies part_fits(
                inner,
                mode,
                records,
                prior,
                short[i],
                last[short[i]],
                sooner[i],
                fewer[i],
            ) && sooner[i + 1] == super::transaction::id_after(inner, mode, last[short[i]], sooner[i]) by {
                assert(parts[i] == fewer[i]);
            }
        }
        parts_are_orderly(inner, mode, records, prior, short, last, fewer, sooner);
        assert(parts[n] == parts.last());
        a_part_is_orderly(inner, mode, records, prior, keys[n], last[keys[n]], ids[n], parts[n]);
        assert(sooner.last() == ids[n]);
        assert(ids.last() == ids[n + 1]);
        orderly_lists_append(flat(fewer), parts[n], ids[0], ids[n], ids[n + 1]);
        if ids[0] == ids.last() {
            quiet_lists_append(flat(fewer), parts[n]);
        }
    }
}

/// A batch keeps the store tidy: a transaction, a flush, or a bulk write.
pub proof fn a_batch_keeps_the_store_tidy<B: Backend>(
    before: Resident,
    shared: Shared<B>,
    list: Seq<Move>,
    b: Budget,
    now: Shared<B>,
)
    requires
        shared.is_tidy(),
        batch_landed(
            before,
            shared,
            list,
            b,
            now.backend.store(),
            now.next_id_from(shared.backend.store()),
        ),
        now.carries_on(shared),
    ensures
        now.is_tidy(),
{
    reveal(batch_landed);
    let store = shared.backend.store();
    let records = store.records;
    let first = shared.next_id();
    let next = now.next_id_from(store);
    let out = choose|out: Seq<Change>|
        {
            &&& #[trigger] batched(before.inner, before.mode, records, list, first, next, out)
            &&& write_landed(
                before.lru,
                before.inner.id,
                store,
                shared.next_tick(),
                out,
                weighed(list),
                removed(list),
                wipes(list),
                names_of(weighed(list)),
                b,
                now.backend.store(),
            )
        };
    let keys = listing(latest(list).dom());
    let (parts, ids) = choose|parts: Seq<Seq<Change>>, ids: Seq<u64>|
        {
            &&& #[trigger] spells(before.inner, before.mode, records, prior_of(list), keys, latest(list), parts, ids)
            &&& ids[0] == first
            &&& ids.last() == next
            &&& out == opening(before.inner, before.mode, records, list) + flat(parts)
        };
    let head = opening(before.inner, before.mode, records, list);
    clearing_is_quiet(records, before.inner.id);
    parts_are_orderly(before.inner, before.mode, records, prior_of(list), keys, latest(list), parts, ids);
    assert(quiet(head));
    orderly_lists_append(head, flat(parts), first, first, next);
    if first == next {
        quiet_lists_append(head, flat(parts));
    }
    what_lands_is_tidy(
        before,
        shared,
        out,
        weighed(list),
        removed(list),
        wipes(list),
        names_of(weighed(list)),
        b,
        next,
        now,
    );
}

/// Shedding keeps the store tidy.
pub proof fn shedding_keeps_the_store_tidy<B: Backend>(
    before: Resident,
    shared: Shared<B>,
    plan: super::lru::Plan,
    after: Resident,
    now: Shared<B>,
)
    requires
        shared.is_tidy(),
        shed_landed(before, shared.backend.store(), plan, after, now.backend.store()),
        now.values == shared.values,
    ensures
        now.is_tidy(),
{
    let records = shared.backend.store().records;
    let victims = views(plan.victims@);
    shedding_is_quiet(records, before.inner.id, victims);
    quiet_changes_keep_the_store_tidy(shared, evictions(records, before.inner.id, victims)->0, now);
}

/// A finished stream keeps the store tidy, its id being its own.
pub proof fn a_stream_keeps_the_store_tidy<B: Backend>(
    chain: FilterChain,
    id: LockerId,
    w: Writer,
    shared: Shared<B>,
    mid: Store,
    whole: Seq<Seq<u8>>,
    now: Shared<B>,
)
    requires
        shared.is_tidy(),
        published(chain, id, w, shared.backend.store(), mid, whole, now.backend.store()),
        w.id_spec() < shared.next_id(),
        forall|k: Seq<u8>| #[trigger]
            owns(shared.backend.store().records, k) ==> owned(shared.backend.store().records, k) != w.id_spec(),
        now.carries_on(shared),
    ensures
        now.is_tidy(),
{
    let before = shared.backend.store().records;
    let after = now.backend.store().records;
    let last = choose|last: Writer|
        {
            &&& last.target() == w.target()
            &&& last.id_spec() == w.id_spec()
            &&& last.pieces_done() == whole
            &&& last.buffered().len() == 0
            &&& w.wf() ==> last.wf()
            &&& #[trigger] swapped(id, last, mid, now.backend.store())
        };
    let dropped = gc_list(mid.records, id, w.target(), Prior::Unknown)->0;
    let put = record_put(id, w.target(), pointer_bytes(last.pointer()));
    gc_spares_records(mid.records, id, w.target(), Prior::Unknown);
    only_the_last_counts(mid, dropped, put);
    after_all_pushes(mid, dropped, put);
    pointer_layout(last.pointer());
    last.the_pointer_counts_the_pieces();
    let at = stored(id, w.target());
    assert(after == before.insert(at, pointer_bytes(last.pointer())));
    dropping_is_quiet(mid.records, id, w.target(), Prior::Unknown);
    a_quiet_list_keeps_the_counter(mid, dropped);
    assert forall|k: Seq<u8>| #[trigger] owns(after, k) implies owned(after, k) < now.next_id() by {
        if k != at {
            assert(owns(before, k));
        }
    }
    assert forall|j: Seq<u8>, k: Seq<u8>|
        #[trigger] owns(after, j) && #[trigger] owns(after, k) && j != k implies owned(after, j) != owned(
        after,
        k,
    ) by {
        if j != at {
            assert(owns(before, j));
        }
        if k != at {
            assert(owns(before, k));
        }
    }
}

} // verus!
