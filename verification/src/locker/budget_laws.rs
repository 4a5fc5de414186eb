//! What a byte budget promises of every write, whichever way it came in: each
//! key is charged for the bytes it was given, nothing that was not touched is
//! charged anew, and the locker ends inside its budget or holds nothing but
//! what was just written.

use vstd::prelude::*;

use super::batch::{a_batch_names_a_key_once, moves, names_of, removed, weighed, wipes, Move};
use super::lazy::{commit_settled, commit_through, flush_through, ledger_moved, put_landed, put_through, LazyLocker};
use super::lru::{
    plan_fits, settled, sheddable, sheds_the_front, struck, untouched, updates_name, weight,
    written, Books, Entry, LruState, Plan,
};
use super::lru_laws::{
    distinct_updates, has_its_place, kept_keys_are_never_shed, same_entries, the_total_stays_exact, weight_of_updates,
    what_is_left_alone_may_be_shed,
};
use super::inner::Shared;
use super::queue::{in_line, no_later, Due};
use super::resident::{
    batch_landed, budget_applied, budget_fits, keys_in, ledger_after, ledger_of, remote_step, shed_landed, stamped,
    up_to_date, write_landed, Budget, Ledger, Resident,
};
use super::staging_laws::{
    bears_on, decides, some_write_decides_or_none, the_last_write_of_a_key_decides,
    what_no_write_bears_on_is_left_alone,
};
use crate::backend::api::{Backend, Change, Store};
use crate::bytes::before;
use crate::codec::value::Value;
use crate::error::Result;
use crate::key::LockerId;
use crate::sorted::{a_finite_set_is_listed, listing, views};
use crate::watch::{all_announced, News};

verus! {

/// Writing updates in leaves each key it names with its entry and the others as
/// they were.
proof fn what_is_written_in(books: Books, updates: Seq<(Seq<u8>, Entry)>)
    requires
        distinct_updates(updates),
    ensures
        forall|i: int|
            0 <= i < updates.len() ==> written(books, updates).contains_key((#[trigger] updates[i]).0)
                && written(books, updates)[updates[i].0] == updates[i].1,
        forall|k: Seq<u8>|
            !updates_name(updates, k) ==> (#[trigger] written(books, updates).contains_key(k)
                <==> books.contains_key(k)) && (books.contains_key(k) ==> written(books, updates)[k] == books[k]),
    decreases updates.len(),
{
    if updates.len() > 0 {
        let short = updates.drop_last();
        assert forall|i: int, j: int| 0 <= i < j < short.len() implies (#[trigger] short[i]).0 != (#[trigger] short[j]).0 by {
            assert(short[i] == updates[i] && short[j] == updates[j]);
        }
        what_is_written_in(books, short);
        let last = updates.last();
        assert forall|i: int| 0 <= i < updates.len() implies written(books, updates).contains_key(
            (#[trigger] updates[i]).0,
        ) && written(books, updates)[updates[i].0] == updates[i].1 by {
            if i < short.len() {
                assert(short[i] == updates[i]);
                assert(updates[i].0 != updates[updates.len() - 1].0);
            }
        }
        assert forall|k: Seq<u8>| !updates_name(updates, k) implies (#[trigger] written(books, updates).contains_key(k)
            <==> books.contains_key(k)) && (books.contains_key(k) ==> written(books, updates)[k] == books[k]) by {
            assert(updates[updates.len() - 1].0 != k);
            if updates_name(short, k) {
                let i = choose|i: int| 0 <= i < short.len() && (#[trigger] short[i]).0 == k;
                assert(updates[i].0 == k);
            }
            assert(written(books, short).contains_key(k) <==> books.contains_key(k));
        }
    }
}

/// A plan that ends over its budget has shed every key that the commit left
/// alone.
proof fn over_budget_nothing_old_is_left(
    books: Books,
    total: u64,
    updates: Seq<(Seq<u8>, Entry)>,
    removals: Seq<Seq<u8>>,
    cleared: bool,
    budget: u64,
    keep: Seq<Seq<u8>>,
    plan: Plan,
    key: Seq<u8>,
)
    requires
        plan_fits(books, total, updates, removals, cleared, budget, keep, plan),
        plan.total > budget,
        !cleared,
        books.dom().finite(),
        books.contains_key(key),
        !removals.contains(key),
        !updates_name(updates, key),
        !keep.contains(key),
    ensures
        views(plan.victims@).contains(key),
{
    let start = settled(books, total, updates, removals, cleared);
    let list = sheddable(books, updates, removals, cleared, keep);
    let line = choose|line: Seq<Due>|
        in_line(line) && line.to_multiset() == list.to_multiset() && #[trigger] sheds_the_front(line, start, budget, plan);
    same_entries(line, list);
    let keys = listing(books.dom());
    a_finite_set_is_listed(books.dom());
    assert(books.dom().contains(key));
    assert(keys.contains(key));
    what_is_left_alone_may_be_shed(books, keys, updates, removals, keep, key);
    let due = (books[key].tick, key, books[key].bytes);
    let old = untouched(books, keys, updates, removals, keep);
    let n = old.index_of(due);
    assert(list[n] == due);
    let j = has_its_place(line, list, due);
    assert(plan.victims@[j]@ == key);
    assert(views(plan.victims@)[j] == key);
}

/// Whether a key is charged so many bytes.
pub open spec fn charged(s: LruState, key: Seq<u8>, bytes: nat) -> bool {
    s.books().contains_key(key) && s.books()[key].bytes == bytes
}

/// The accounting once a commit has landed, told key by key: whatever it writes
/// is charged as it says and counts as used at that moment, whatever it removes
/// or clears is charged no more, whatever it leaves alone keeps its entry or was
/// shed, and the total fits the budget unless everything left was just written.
proof fn a_landed_write_is_accounted(
    s: LruState,
    id: LockerId,
    store: Store,
    tick: Option<u64>,
    out: Seq<Change>,
    updates: Seq<(Seq<u8>, u64)>,
    removals: Seq<Seq<u8>>,
    cleared: bool,
    b: Budget,
    after: Store,
    now: LruState,
)
    requires
        write_landed(
            Some(s),
            id,
            store,
            tick,
            out,
            updates,
            removals,
            cleared,
            names_of(updates),
            b,
            after,
        ),
        ledger_of(now) == ledger_after(up_to_date(s, store.meta, id), b),
        up_to_date(s, store.meta, id).books.dom().finite(),
        names_of(updates).no_duplicates(),
        removals.no_duplicates(),
        forall|k: Seq<u8>| !(#[trigger] names_of(updates).contains(k) && removals.contains(k)),
    ensures
        tick is Some,
        now.limit() == s.limit(),
        forall|i: int|
            0 <= i < updates.len() ==> charged(now, (#[trigger] updates[i]).0, updates[i].1 as nat)
                && now.books()[updates[i].0].tick == tick->0,
        forall|k: Seq<u8>| #[trigger]
            now.books().contains_key(k) ==> names_of(updates).contains(k) || (!cleared && !removals.contains(k)
                && up_to_date(s, store.meta, id).books.contains_key(k) && now.books()[k] == up_to_date(
                s,
                store.meta,
                id,
            ).books[k]),
        forall|k: Seq<u8>|
            !cleared && !removals.contains(k) && #[trigger] up_to_date(s, store.meta, id).books.contains_key(k)
                ==> now.books().contains_key(k) || views(b.plan.victims@).contains(k),
        now.total_spec() <= now.limit() || forall|k: Seq<u8>| #[trigger]
            now.books().contains_key(k) ==> names_of(updates).contains(k),
        forall|k: Seq<u8>| #[trigger] views(b.plan.victims@).contains(k) ==> !now.books().contains_key(k),
        !cleared ==> shed_in_order(
            up_to_date(s, store.meta, id).books,
            removals.to_set().union(names_of(updates).to_set()),
            views(b.plan.victims@),
            now.total_spec(),
            now.limit(),
        ),
        cleared ==> b.plan.victims@.len() == 0,
        !s.dirty_spec() && s.exact() && !cleared && removals.len() == 0 && weight(s.books()) + weight_of_updates(
            stamped(updates, tick->0),
        ) <= u64::MAX && weight(written(s.books(), stamped(updates, tick->0))) <= s.limit() ==> b.plan.victims@.len()
            == 0,
        !s.dirty_spec() && s.exact() && weight(s.books()) + weight_of_updates(stamped(updates, tick->0)) <= u64::MAX
            ==> now.total_spec() == weight(now.books()),
{
    reveal(write_landed);
    let led = up_to_date(s, store.meta, id);
    let t = tick->0;
    let ups = stamped(updates, t);
    let names = names_of(updates);
    let victims = views(b.plan.victims@);
    assert(budget_fits(b, led, updates, removals, cleared, names, t));
    assert forall|i: int, j: int| 0 <= i < j < ups.len() implies (#[trigger] ups[i]).0 != (#[trigger] ups[j]).0 by {
        assert(names[i] == ups[i].0 && names[j] == ups[j].0);
    }
    assert forall|k: Seq<u8>| #[trigger] updates_name(ups, k) <==> names.contains(k) by {
        if updates_name(ups, k) {
            let i = choose|i: int| 0 <= i < ups.len() && (#[trigger] ups[i]).0 == k;
            assert(names[i] == k);
        }
        if names.contains(k) {
            let i = names.index_of(k);
            assert(ups[i].0 == k);
        }
    }
    let base = if cleared {
        Map::empty()
    } else {
        led.books
    };
    let less = struck(base, removals);
    what_is_written_in(less, ups);
    assert(now.books() == struck(written(less, ups), victims));
    assert forall|i: int| 0 <= i < updates.len() implies charged(now, (#[trigger] updates[i]).0, updates[i].1 as nat)
        && now.books()[updates[i].0].tick == t by {
        assert(ups[i].0 == updates[i].0);
        assert(names[i] == updates[i].0);
        assert(names.contains(names[i]));
        kept_keys_are_never_shed(led.books, led.total, ups, removals, cleared, led.limit, names, b.plan, updates[i].0);
        assert(!victims.to_set().contains(updates[i].0));
    }
    assert forall|k: Seq<u8>| #[trigger] now.books().contains_key(k) implies names.contains(k) || (!cleared
        && !removals.contains(k) && led.books.contains_key(k) && now.books()[k] == led.books[k]) by {
        assert(written(less, ups).contains_key(k));
        if !names.contains(k) {
            assert(!updates_name(ups, k));
            assert(less.contains_key(k));
            assert(!removals.to_set().contains(k));
        }
    }
    assert forall|k: Seq<u8>| !cleared && !removals.contains(k) && #[trigger] led.books.contains_key(k) implies now.books().contains_key(k)
        || victims.contains(k) by {
        assert(!removals.to_set().contains(k));
        assert(less.contains_key(k));
        if names.contains(k) {
            let i = names.index_of(k);
            assert(ups[i].0 == k);
        } else {
            assert(!updates_name(ups, k));
        }
        assert(written(less, ups).contains_key(k));
    }
    assert forall|k: Seq<u8>| #[trigger] victims.contains(k) implies !now.books().contains_key(k) by {
        assert(victims.to_set().contains(k));
    }
    if now.total_spec() > now.limit() {
        assert forall|k: Seq<u8>| #[trigger] now.books().contains_key(k) implies names.contains(k) by {
            if !names.contains(k) {
                over_budget_nothing_old_is_left(
                    led.books,
                    led.total,
                    ups,
                    removals,
                    cleared,
                    led.limit,
                    names,
                    b.plan,
                    k,
                );
            }
        }
    }
    if !cleared {
        let touched = removals.to_set().union(names.to_set());
        assert forall|k: Seq<u8>| #[trigger] touched.contains(k) <==> removals.contains(k) || updates_name(ups, k)
            || names.contains(k) by {}
        assert forall|i: int| 0 <= i < ups.len() implies names.contains((#[trigger] ups[i]).0) by {
            assert(names[i] == ups[i].0);
        }
        a_plan_sheds_in_order(led.books, led.total, ups, removals, led.limit, names, b.plan, touched);
    } else {
        assert forall|i: int| 0 <= i < ups.len() implies names.contains((#[trigger] ups[i]).0) by {
            assert(names[i] == ups[i].0);
        }
        nothing_else_may_be_shed(ups, names);
        if settled(led.books, led.total, ups, removals, cleared) > led.limit {
            let list = sheddable(led.books, ups, removals, cleared, names);
            let line = choose|line: Seq<Due>|
                in_line(line) && line.to_multiset() == list.to_multiset() && #[trigger] sheds_the_front(
                    line,
                    settled(led.books, led.total, ups, removals, cleared),
                    led.limit,
                    b.plan,
                );
            same_entries(line, list);
        }
    }
    if !s.dirty_spec() && s.exact() && !cleared && removals.len() == 0 && weight(s.books()) + weight_of_updates(ups)
        <= u64::MAX {
        super::lru_laws::updates_are_exact(s.books(), s.books(), s.total_spec(), ups);
        assert(super::lru::less_removals(s.books(), s.total_spec(), removals) == s.total_spec());
    }
    if !s.dirty_spec() && s.exact() && weight(s.books()) + weight_of_updates(ups) <= u64::MAX {
        assert forall|i: int| 0 <= i < ups.len() implies !removals.contains((#[trigger] ups[i]).0) by {
            assert(names[i] == ups[i].0);
            assert(names.contains(names[i]));
        }
        the_total_stays_exact(s, ups, removals, cleared, led.limit, names, b.plan);
    }
}

/// Whether an accounting is what a list of writes leaves of another: a key whose
/// last write is a put is charged for exactly its payload, one that was deleted
/// or cleared away is not charged at all, and any other keeps its entry unless it
/// was shed.
pub open spec fn charges(old_books: Books, list: Seq<Move>, now: Books) -> bool {
    &&& forall|key: Seq<u8>, i: int|
        #![trigger decides(list, i, key)]
        decides(list, i, key) ==> match list[i] {
            Move::Put { payload, .. } => now.contains_key(key) && now[key].bytes == payload.len() as u64,
            _ => !now.contains_key(key),
        }
    &&& forall|key: Seq<u8>| #[trigger]
        now.contains_key(key) && (forall|j: int| 0 <= j < list.len() ==> !bears_on(#[trigger] list[j], key))
            ==> old_books.contains_key(key) && now[key] == old_books[key]
}

/// Whether an accounting fits its budget, or holds nothing but what a list of
/// writes just put.
pub open spec fn fits_or_is_all_new(now: LruState, list: Seq<Move>) -> bool {
    now.total_spec() <= now.limit() || forall|key: Seq<u8>| #[trigger]
        now.books().contains_key(key) ==> exists|i: int| decides(list, i, key) && list[i] is Put
}

/// Once a batch has landed, every key is charged for what its last write in the
/// batch gave it, and the locker is inside its budget unless everything it still
/// holds was written by the batch itself.
pub proof fn a_landed_batch_is_charged<B: Backend>(
    res: Resident,
    shared: Shared<B>,
    list: Seq<Move>,
    b: Budget,
    store: Store,
    next: u64,
    now: LruState,
)
    requires
        batch_landed(res, shared, list, b, store, next),
        res.lru is Some,
        ledger_of(now) == ledger_after(up_to_date(res.lru->0, shared.backend.store().meta, res.inner.id), b),
        up_to_date(res.lru->0, shared.backend.store().meta, res.inner.id).books.dom().finite(),
    ensures
        charges(up_to_date(res.lru->0, shared.backend.store().meta, res.inner.id).books, list, now.books()),
        fits_or_is_all_new(now, list),
        now.limit() == res.lru->0.limit(),
        shed_in_order(
            if wipes(list) {
                Map::empty()
            } else {
                up_to_date(res.lru->0, shared.backend.store().meta, res.inner.id).books
            },
            Set::new(|k: Seq<u8>| exists|j: int| 0 <= j < list.len() && bears_on(#[trigger] list[j], k)),
            views(b.plan.victims@),
            now.total_spec(),
            now.limit(),
        ),
        forall|k: Seq<u8>| #[trigger] views(b.plan.victims@).contains(k) ==> !now.books().contains_key(k),
        !res.lru->0.dirty_spec() && res.lru->0.exact() && shared.next_tick() is Some && weight(res.lru->0.books())
            + weight_of_updates(stamped(weighed(list), shared.next_tick()->0)) <= u64::MAX ==> now.total_spec()
            == weight(now.books()),
{
    reveal(batch_landed);
    let s = res.lru->0;
    let before = shared.backend.store();
    let old_books = up_to_date(s, before.meta, res.inner.id).books;
    let updates = weighed(list);
    let names = names_of(updates);
    let out = choose|out: Seq<Change>|
        {
            &&& #[trigger] super::transaction::batched(
                res.inner,
                res.mode,
                before.records,
                list,
                shared.next_id(),
                next,
                out,
            )
            &&& write_landed(
                res.lru,
                res.inner.id,
                before,
                shared.next_tick(),
                out,
                weighed(list),
                removed(list),
                wipes(list),
                names_of(weighed(list)),
                b,
                store,
            )
        };
    a_batch_names_a_key_once(list);
    a_landed_write_is_accounted(
        s,
        res.inner.id,
        before,
        shared.next_tick(),
        out,
        updates,
        removed(list),
        wipes(list),
        b,
        store,
        now,
    );
    assert forall|key: Seq<u8>| #[trigger] names.contains(key) implies exists|i: int|
        decides(list, i, key) && list[i] is Put by {
        let n = names.index_of(key);
        assert(updates.contains(updates[n]));
        let i = some_write_decides_or_none(list, key);
        if i >= 0 {
            the_last_write_of_a_key_decides(list, i, key, Set::empty(), updates[n].1);
        } else {
            what_no_write_bears_on_is_left_alone(list, key, Set::empty(), updates[n].1);
        }
    }
    assert forall|key: Seq<u8>, i: int|
        #![trigger decides(list, i, key)]
        decides(list, i, key) implies match list[i] {
        Move::Put { payload, .. } => now.books().contains_key(key) && now.books()[key].bytes == payload.len() as u64,
        _ => !now.books().contains_key(key),
    } by {
        match list[i] {
            Move::Put { payload, .. } => {
                let u = (key, payload.len() as u64);
                the_last_write_of_a_key_decides(list, i, key, Set::empty(), u.1);
                let n = updates.index_of(u);
                assert(charged(now, updates[n].0, updates[n].1 as nat));
            },
            _ => {
                if now.books().contains_key(key) {
                    super::staging_laws::a_list_wipes_where_it_clears(list);
                    the_last_write_of_a_key_decides(list, i, key, Set::empty(), 0);
                    if names.contains(key) {
                        let j = choose|j: int| decides(list, j, key) && list[j] is Put;
                        if i < j {
                            assert(!bears_on(list[j], key));
                        } else if j < i {
                            assert(!bears_on(list[i], key));
                        }
                    }
                }
            },
        }
    }
    assert forall|key: Seq<u8>| #[trigger]
        now.books().contains_key(key) && (forall|j: int|
            0 <= j < list.len() ==> !bears_on(#[trigger] list[j], key)) implies old_books.contains_key(key)
        && now.books()[key] == old_books[key] by {
        if names.contains(key) {
            let i = choose|i: int| decides(list, i, key) && list[i] is Put;
            assert(bears_on(list[i], key));
        }
    }
    let touched = Set::new(|k: Seq<u8>| exists|j: int| 0 <= j < list.len() && bears_on(#[trigger] list[j], k));
    reveal(shed_in_order);
    super::staging_laws::a_list_wipes_where_it_clears(list);
    if !wipes(list) {
        assert forall|k: Seq<u8>| #[trigger] touched.contains(k) <==> removed(list).to_set().union(
            names.to_set(),
        ).contains(k) by {
            let i = some_write_decides_or_none(list, k);
            if i >= 0 {
                assert(bears_on(list[i], k));
                match list[i] {
                    Move::Put { payload, .. } => {
                        let u = (k, payload.len() as u64);
                        the_last_write_of_a_key_decides(list, i, k, Set::empty(), u.1);
                        let n = updates.index_of(u);
                        assert(names[n] == k);
                    },
                    _ => the_last_write_of_a_key_decides(list, i, k, Set::empty(), 0),
                }
            } else {
                what_no_write_bears_on_is_left_alone(list, k, Set::empty(), 0);
                if names.contains(k) {
                    let j = choose|j: int| decides(list, j, k) && list[j] is Put;
                    assert(bears_on(list[j], k));
                }
            }
        }
        assert(touched =~= removed(list).to_set().union(names.to_set()));
    }
    if now.total_spec() > now.limit() {
        assert forall|key: Seq<u8>| #[trigger] now.books().contains_key(key) implies exists|i: int|
            decides(list, i, key) && list[i] is Put by {
            assert(names.contains(key));
        }
    }
}

/// A transaction charges every key for what its last write gave it, the writes
/// that were staged before it among them, and ends inside the budget unless
/// everything that is left was just written. One put, many puts or a mix of
/// writes are charged alike.
pub proof fn a_transaction_is_charged<B: Backend, T: Value>(
    before: LazyLocker<T>,
    shared: Shared<B>,
    list: Seq<Move>,
    r: Result<()>,
    after: LazyLocker<T>,
    now: Shared<B>,
)
    requires
        commit_through(before, shared, list, r, after, now),
        r is Ok,
        list.len() > 0,
        before.res.index is Some,
        before.res.lru is Some,
        up_to_date(before.res.lru->0, shared.backend.store().meta, before.res.inner.id).books.dom().finite(),
    ensures
        after.res.lru is Some,
        charges(
            up_to_date(before.res.lru->0, shared.backend.store().meta, before.res.inner.id).books,
            moves(before.res.staged@) + list,
            after.res.lru->0.books(),
        ),
        fits_or_is_all_new(after.res.lru->0, moves(before.res.staged@) + list),
        after.res.lru->0.limit() == before.res.lru->0.limit(),
{
    let all = moves(before.res.staged@) + list;
    let b = choose|b: Budget|
        {
            &&& #[trigger] batch_landed(
                before.res,
                shared,
                all,
                b,
                now.backend.store(),
                now.next_id_from(shared.backend.store()),
            )
            &&& commit_settled(before.res, shared.backend.store(), list, b, after.res)
        };
    assert(ledger_moved(before.res, shared.backend.store(), b, after.res));
    a_landed_batch_is_charged(
        before.res,
        shared,
        all,
        b,
        now.backend.store(),
        now.next_id_from(shared.backend.store()),
        after.res.lru->0,
    );
}

/// A flush charges every key for what its last staged write gave it, and ends
/// inside the budget unless everything that is left was in the batch.
pub proof fn a_flush_is_charged<B: Backend>(
    before: Resident,
    shared: Shared<B>,
    ok: bool,
    after: Resident,
    now: Shared<B>,
)
    requires
        flush_through(before, shared, ok, after, now),
        before.staged@.len() > 0,
        after.staged@.len() == 0,
        before.lru is Some,
        up_to_date(before.lru->0, shared.backend.store().meta, before.inner.id).books.dom().finite(),
    ensures
        after.lru is Some,
        charges(
            up_to_date(before.lru->0, shared.backend.store().meta, before.inner.id).books,
            moves(before.staged@),
            after.lru->0.books(),
        ),
        fits_or_is_all_new(after.lru->0, moves(before.staged@)),
        after.lru->0.limit() == before.lru->0.limit(),
{
    let (b, stored) = choose|b: Budget, stored: Store|
        {
            &&& #[trigger] batch_landed(
                before,
                shared,
                moves(before.staged@),
                b,
                stored,
                now.next_id_from(shared.backend.store()),
            )
            &&& now.backend.store() == stored
            &&& budget_applied(before, shared.backend.store().meta, b, after)
        };
    a_landed_batch_is_charged(
        before,
        shared,
        moves(before.staged@),
        b,
        stored,
        now.next_id_from(shared.backend.store()),
        after.lru->0,
    );
}

/// What a landed put owes its budget, worked out.
pub(crate) proof fn a_landed_put_is_accounted<B: Backend>(
    before: Resident,
    shared: Shared<B>,
    key: Seq<u8>,
    payload: Seq<u8>,
    b: Budget,
    after: Resident,
    store: Store,
)
    requires
        put_landed(before, shared, key, payload, b, after, store),
        before.lru is Some,
        up_to_date(before.lru->0, shared.backend.store().meta, before.inner.id).books.dom().finite(),
    ensures
        after.lru is Some,
        shared.next_tick() is Some,
        after.lru->0.limit() == before.lru->0.limit(),
        charged(after.lru->0, key, payload.len() as u64 as nat),
        after.lru->0.books()[key].tick == shared.next_tick()->0,
        forall|k: Seq<u8>|
            k != key && #[trigger] after.lru->0.books().contains_key(k) ==> up_to_date(
                before.lru->0,
                shared.backend.store().meta,
                before.inner.id,
            ).books.contains_key(k) && after.lru->0.books()[k] == up_to_date(
                before.lru->0,
                shared.backend.store().meta,
                before.inner.id,
            ).books[k],
        after.lru->0.total_spec() <= after.lru->0.limit() || forall|k: Seq<u8>| #[trigger]
            after.lru->0.books().contains_key(k) ==> k == key,
        !before.lru->0.dirty_spec() && before.lru->0.exact() && weight(before.lru->0.books()) + payload.len()
            <= u64::MAX ==> after.lru->0.total_spec() == weight(after.lru->0.books()),
        shed_in_order(
            up_to_date(before.lru->0, shared.backend.store().meta, before.inner.id).books,
            set![key],
            views(b.plan.victims@),
            after.lru->0.total_spec(),
            after.lru->0.limit(),
        ),
        forall|k: Seq<u8>|
            k != key && #[trigger] up_to_date(
                before.lru->0,
                shared.backend.store().meta,
                before.inner.id,
            ).books.contains_key(k) ==> (after.lru->0.books().contains_key(k) <==> !views(b.plan.victims@).contains(k)),
        !before.lru->0.dirty_spec() && before.lru->0.exact() && weight(before.lru->0.books()) + payload.len()
            <= u64::MAX && weight(
            before.lru->0.books().insert(
                key,
                (Entry { tick: shared.next_tick()->0, bytes: payload.len() as u64 }),
            ),
        ) <= before.lru->0.limit() ==> b.plan.victims@.len() == 0,
{
    let s = before.lru->0;
    let was = shared.backend.store();
    let id = before.inner.id;
    let updates = seq![(key, payload.len() as u64)];
    let out = choose|out: Seq<Change>|
        write_landed(
            before.lru,
            id,
            was,
            shared.next_tick(),
            out,
            updates,
            Seq::empty(),
            false,
            seq![key],
            b,
            store,
        );
    one_name(key, payload.len() as u64);
    a_landed_write_is_accounted(
        s,
        id,
        was,
        shared.next_tick(),
        out,
        updates,
        Seq::empty(),
        false,
        b,
        store,
        after.lru->0,
    );
    assert(charged(after.lru->0, updates[0].0, updates[0].1 as nat));
    one_update(s.books(), key, payload.len() as u64, shared.next_tick()->0);
}

/// The names of one update.
pub(crate) proof fn one_name(key: Seq<u8>, bytes: u64)
    ensures
        names_of(seq![(key, bytes)]) == seq![key],
        names_of(seq![(key, bytes)]).no_duplicates(),
        forall|k: Seq<u8>| #[trigger] names_of(seq![(key, bytes)]).contains(k) <==> k == key,
        Seq::<Seq<u8>>::empty().no_duplicates(),
        forall|k: Seq<u8>| !(#[trigger] Seq::<Seq<u8>>::empty().contains(k)),
        Seq::<Seq<u8>>::empty().to_set().union(names_of(seq![(key, bytes)]).to_set()) == set![key],
{
    let names = names_of(seq![(key, bytes)]);
    assert(names =~= seq![key]);
    assert(names[0] == key);
    assert(Seq::<Seq<u8>>::empty().to_set().union(names.to_set()) =~= set![key]);
}

/// What one update weighs and writes.
proof fn one_update(books: Books, key: Seq<u8>, bytes: u64, tick: u64)
    ensures
        weight_of_updates(stamped(seq![(key, bytes)], tick)) == bytes,
        written(books, stamped(seq![(key, bytes)], tick)) == books.insert(key, (Entry { tick, bytes })),
{
    let ups = stamped(seq![(key, bytes)], tick);
    reveal_with_fuel(weight_of_updates, 2);
    reveal_with_fuel(written, 2);
    assert(ups.drop_last() =~= Seq::empty());
    assert(ups.last() == (key, Entry { tick, bytes }));
}

/// A put charges its key for exactly its payload, leaves every other entry as it
/// was unless its key was shed, and ends inside the budget unless its own key is
/// all that is left.
pub proof fn a_put_is_charged<B: Backend, T: Value>(
    before: LazyLocker<T>,
    shared: Shared<B>,
    key: Seq<u8>,
    value: &T,
    r: Result<()>,
    after: LazyLocker<T>,
    now: Shared<B>,
)
    requires
        put_through(before, shared, key, value, r, after, now),
        r is Ok,
        before.res.inner.config.batch() is None,
        before.res.index is Some,
        before.res.lru is Some,
        up_to_date(before.res.lru->0, shared.backend.store().meta, before.res.inner.id).books.dom().finite(),
    ensures
        after.res.lru is Some,
        after.res.lru->0.limit() == before.res.lru->0.limit(),
        after.res.lru->0.books().contains_key(key),
        after.res.lru->0.books()[key].bytes == value.payload().len() as u64,
        forall|k: Seq<u8>|
            k != key && #[trigger] after.res.lru->0.books().contains_key(k) ==> up_to_date(
                before.res.lru->0,
                shared.backend.store().meta,
                before.res.inner.id,
            ).books.contains_key(k) && after.res.lru->0.books()[k] == up_to_date(
                before.res.lru->0,
                shared.backend.store().meta,
                before.res.inner.id,
            ).books[k],
        after.res.lru->0.total_spec() <= after.res.lru->0.limit() || forall|k: Seq<u8>| #[trigger]
            after.res.lru->0.books().contains_key(k) ==> k == key,
        !before.res.lru->0.dirty_spec() && before.res.lru->0.exact() && weight(before.res.lru->0.books())
            + value.payload().len() <= u64::MAX ==> after.res.lru->0.total_spec() == weight(after.res.lru->0.books()),
{
    let b = choose|b: Budget| #[trigger]
        put_landed(before.res, shared, key, value.payload(), b, after.res, now.backend.store());
    a_landed_put_is_accounted(before.res, shared, key, value.payload(), b, after.res, now.backend.store());
}

/// What a put sheds is the least recently used, no more of it than it takes: it
/// leaves the accounting and the index, and watchers are told of each before they
/// are told of the put. While everything fits, nothing is shed.
pub proof fn a_put_sheds_in_order<B: Backend, T: Value>(
    before: LazyLocker<T>,
    shared: Shared<B>,
    key: Seq<u8>,
    value: &T,
    r: Result<()>,
    after: LazyLocker<T>,
    now: Shared<B>,
) -> (victims: Seq<Seq<u8>>)
    requires
        put_through(before, shared, key, value, r, after, now),
        r is Ok,
        before.res.inner.config.batch() is None,
        before.res.index is Some,
        before.res.lru is Some,
        up_to_date(before.res.lru->0, shared.backend.store().meta, before.res.inner.id).books.dom().finite(),
    ensures
        after.res.lru is Some,
        shed_in_order(
            up_to_date(before.res.lru->0, shared.backend.store().meta, before.res.inner.id).books,
            set![key],
            victims,
            after.res.lru->0.total_spec(),
            after.res.lru->0.limit(),
        ),
        forall|k: Seq<u8>|
            k != key && #[trigger] up_to_date(
                before.res.lru->0,
                shared.backend.store().meta,
                before.res.inner.id,
            ).books.contains_key(k) ==> (after.res.lru->0.books().contains_key(k) <==> !victims.contains(k)),
        all_announced(
            before.res.inner.watchers,
            Seq::new(victims.len(), |i: int| News::Evicted { key: victims[i] }).push((News::Put { key })),
            after.res.inner.watchers,
        ),
        keys_in(after.res.index) == keys_in(before.res.index).insert(key).difference(victims.to_set()),
        !before.res.lru->0.dirty_spec() && before.res.lru->0.exact() && weight(before.res.lru->0.books())
            + value.payload().len() <= u64::MAX && weight(
            before.res.lru->0.books().insert(
                key,
                (Entry { tick: shared.next_tick()->0, bytes: value.payload().len() as u64 }),
            ),
        ) <= before.res.lru->0.limit() ==> victims.len() == 0,
{
    let b = choose|b: Budget| #[trigger]
        put_landed(before.res, shared, key, value.payload(), b, after.res, now.backend.store());
    a_landed_put_is_accounted(before.res, shared, key, value.payload(), b, after.res, now.backend.store());
    let victims = views(b.plan.victims@);
    assert(super::resident::all_evicted(victims) =~= Seq::new(
        victims.len(),
        |i: int| News::Evicted { key: victims[i] },
    ));
    victims
}

/// Whether keys were shed as a byte budget asks: each was accounted for, none was
/// touched by the commit itself, whatever was used before one of them went too,
/// the last of them had to go, and where the total is still too high nothing that
/// could go is left.
#[verifier::opaque]
pub open spec fn shed_in_order(books: Books, touched: Set<Seq<u8>>, victims: Seq<Seq<u8>>, total: u64, limit: u64) -> bool {
    &&& victims.no_duplicates()
    &&& forall|k: Seq<u8>| #[trigger] victims.contains(k) ==> books.contains_key(k) && !touched.contains(k)
    &&& forall|older: Seq<u8>, newer: Seq<u8>|
        #![trigger books.contains_key(older), victims.contains(newer)]
        victims.contains(newer) && books.contains_key(older) && !touched.contains(older) && (books[older].tick
            < books[newer].tick || (books[older].tick == books[newer].tick && before(older, newer)))
            ==> victims.contains(older)
    &&& victims.len() > 0 ==> total + books[victims.last()].bytes > limit
    &&& total > limit ==> forall|k: Seq<u8>| #[trigger]
        books.contains_key(k) && !touched.contains(k) ==> victims.contains(k)
}

/// A plan that keeps what its commit writes sheds the least recently used of what
/// the commit leaves alone, and no more of it than it takes.
pub proof fn a_plan_sheds_in_order(
    books: Books,
    total: u64,
    updates: Seq<(Seq<u8>, Entry)>,
    removals: Seq<Seq<u8>>,
    budget: u64,
    keep: Seq<Seq<u8>>,
    plan: Plan,
    touched: Set<Seq<u8>>,
)
    requires
        books.dom().finite(),
        plan_fits(books, total, updates, removals, false, budget, keep, plan),
        forall|k: Seq<u8>| #[trigger]
            touched.contains(k) <==> removals.contains(k) || updates_name(updates, k) || keep.contains(k),
        forall|i: int| 0 <= i < updates.len() ==> keep.contains((#[trigger] updates[i]).0),
    ensures
        shed_in_order(books, touched, views(plan.victims@), plan.total, budget),
{
    reveal(shed_in_order);
    let start = settled(books, total, updates, removals, false);
    let victims = views(plan.victims@);
    if start > budget {
        let list = sheddable(books, updates, removals, false, keep);
        let line = choose|line: Seq<Due>|
            in_line(line) && line.to_multiset() == list.to_multiset() && #[trigger] sheds_the_front(
                line,
                start,
                budget,
                plan,
            );
        same_entries(line, list);
        let keys = listing(books.dom());
        a_finite_set_is_listed(books.dom());
        crate::sorted::ascending_has_no_duplicates(keys);
        let old = untouched(books, keys, updates, removals, keep);
        nothing_else_may_be_shed(updates, keep);
        assert(list =~= old);
        super::lru_laws::untouched_keys_are_apart(books, keys, updates, removals, keep);
        super::lru_laws::keys_stay_apart(line, list);
        let n = victims.len() as int;
        assert forall|i: int| 0 <= i < n implies victims[i] == line[i].1 && books.contains_key(victims[i])
            && !touched.contains(victims[i]) && line[i] == (books[victims[i]].tick, victims[i], books[victims[i]].bytes) by {
            assert(plan.victims@[i]@ == line[i].1);
            assert(list.contains(line[i]));
            super::lru_laws::untouched_entries(books, keys, updates, removals, keep, line[i]);
            assert(books.dom().contains(line[i].1));
        }
        assert forall|i: int, j: int| 0 <= i < n && 0 <= j < n && i != j implies victims[i] != victims[j] by {
            if i < j {
                assert(line[i].1 != line[j].1);
            } else {
                assert(line[j].1 != line[i].1);
            }
        }
        assert forall|older: Seq<u8>, newer: Seq<u8>|
            #![trigger books.contains_key(older), victims.contains(newer)]
            victims.contains(newer) && books.contains_key(older) && !touched.contains(older) && (books[older].tick
                < books[newer].tick || (books[older].tick == books[newer].tick && before(older, newer))) implies victims.contains(
            older,
        ) by {
            let i = victims.index_of(newer);
            assert(books.contains_key(victims[i]));
            assert(books.dom().contains(older));
            assert(keys.contains(older));
            what_is_left_alone_may_be_shed(books, keys, updates, removals, keep, older);
            let j = has_its_place(line, list, (books[older].tick, older, books[older].bytes));
            if j >= n {
                assert(no_later(line[i], line[j]));
            }
            assert(victims[j] == older);
        }
        if n > 0 {
            assert(super::lru::shed(start, line, n - 1) > budget);
            assert(victims.last() == victims[n - 1]);
        }
        if plan.total > budget {
            assert forall|k: Seq<u8>| #[trigger]
                books.contains_key(k) && !touched.contains(k) implies victims.contains(k) by {
                over_budget_nothing_old_is_left(books, total, updates, removals, false, budget, keep, plan, k);
            }
        }
    }
}

/// Where every update is kept, none may be shed.
proof fn nothing_else_may_be_shed(updates: Seq<(Seq<u8>, Entry)>, keep: Seq<Seq<u8>>)
    requires
        forall|i: int| 0 <= i < updates.len() ==> keep.contains((#[trigger] updates[i]).0),
    ensures
        super::lru::unkept(updates, keep).len() == 0,
    decreases updates.len(),
{
    if updates.len() > 0 {
        let short = updates.drop_last();
        assert forall|i: int| 0 <= i < short.len() implies keep.contains((#[trigger] short[i]).0) by {
            assert(short[i] == updates[i]);
        }
        nothing_else_may_be_shed(short, keep);
        assert(updates[updates.len() - 1] == updates.last());
    }
}

/// Evicting to a mark sheds the least recently used keys, no more than it takes
/// to come down to it, and says how many; what is left is accounted as before,
/// and what went is neither accounted nor listed. Where the mark is met already,
/// nothing goes.
pub proof fn evicting_comes_down_to_its_mark(
    before: Resident,
    store: Store,
    bytes: u64,
    plan: Plan,
    n: usize,
    after: Resident,
    now: Store,
)
    requires
        before.lru matches Some(s) && s.books().dom().finite() && plan_fits(
            s.books(),
            s.total_spec(),
            Seq::empty(),
            Seq::empty(),
            false,
            bytes,
            Seq::empty(),
            plan,
        ),
        n == plan.victims@.len(),
        shed_landed(before, store, plan, after, now),
    ensures
        after.lru is Some,
        before.lru->0.total_spec() <= bytes ==> n == 0,
        n == views(plan.victims@).len(),
        shed_in_order(
            before.lru->0.books(),
            Set::empty(),
            views(plan.victims@),
            after.lru->0.total_spec(),
            bytes,
        ),
        forall|k: Seq<u8>| #[trigger]
            after.lru->0.books().contains_key(k) <==> before.lru->0.books().contains_key(k) && !views(
                plan.victims@,
            ).contains(k),
        forall|k: Seq<u8>| #[trigger]
            after.lru->0.books().contains_key(k) ==> after.lru->0.books()[k] == before.lru->0.books()[k],
        forall|k: Seq<u8>| #[trigger]
            keys_in(after.index).contains(k) <==> keys_in(before.index).contains(k) && !views(plan.victims@).contains(k),
        after.lru->0.total_spec() <= bytes || after.lru->0.books().dom() =~= Set::<Seq<u8>>::empty(),
        before.lru->0.exact() ==> after.lru->0.total_spec() == weight(after.lru->0.books()),
{
    let s = before.lru->0;
    let books = s.books();
    let none = Seq::<(Seq<u8>, Entry)>::empty();
    let no_keys = Seq::<Seq<u8>>::empty();
    let victims = views(plan.victims@);
    reveal(shed_in_order);
    a_plan_sheds_in_order(books, s.total_spec(), none, no_keys, bytes, no_keys, plan, Set::empty());
    assert(settled(books, s.total_spec(), none, no_keys, false) == s.total_spec());
    if victims.len() > 0 {
        let left = super::lru::books_after(books, none, no_keys, false, victims);
        assert(struck(books, no_keys) =~= books);
        assert(written(books, none) == books);
        assert(left == struck(books, victims));
        assert(after.lru->0.books() == left);
    }
    if s.exact() {
        the_total_stays_exact(s, none, no_keys, false, bytes, no_keys, plan);
        assert(struck(books, no_keys) =~= books);
        if victims.len() == 0 {
            assert(struck(books, victims) =~= books);
        }
    }
    assert forall|k: Seq<u8>| victims.to_set().contains(k) <==> victims.contains(k) by {}
}

/// An accounting known to be incomplete is read again before anything is planned,
/// so that every key weighs what the store records of it.
pub proof fn an_incomplete_accounting_is_read_again(s: LruState, meta: crate::backend::api::Rows, id: LockerId)
    ensures
        ({
            let led = up_to_date(s, meta, id);
            &&& led.limit == s.limit()
            &&& !s.dirty_spec() ==> led == ledger_of(s)
            &&& s.dirty_spec() ==> forall|k: Seq<u8>|
                (#[trigger] led.books.contains_key(k) <==> meta.contains_key(crate::meta::lru_key(id, k))
                    && super::lru::entry_of(meta[crate::meta::lru_key(id, k)]) is Some) && (led.books.contains_key(k)
                    ==> Some(led.books[k]) == super::lru::entry_of(meta[crate::meta::lru_key(id, k)]))
            &&& s.dirty_spec() && weight(led.books) <= u64::MAX ==> led.total == weight(led.books)
        }),
{
}

/// Another tab's word moves the accounting as a write of one's own would: a write
/// of known size replaces what the key weighed, a delete gives it back, and the
/// total keeps weighing the books exactly. A write counts as the latest use.
pub proof fn another_tabs_word_is_charged(led: Ledger, dirty: bool, key: Seq<u8>, bytes: Option<u64>, deleted: bool)
    requires
        led.books.dom().finite(),
        led.total == weight(led.books),
        bytes matches Some(n) ==> weight(led.books) + n <= u64::MAX,
    ensures
        ({
            let (now, unsure) = remote_step((led, dirty), key, bytes, deleted);
            &&& now.limit == led.limit
            &&& deleted ==> !now.books.contains_key(key) && unsure == dirty
            &&& !deleted ==> now.books.contains_key(key)
            &&& !deleted && bytes is Some ==> now.books[key].bytes == bytes->0 && unsure == dirty
            &&& !deleted && bytes is None ==> unsure
            &&& forall|k: Seq<u8>|
                k != key ==> (#[trigger] now.books.contains_key(k) <==> led.books.contains_key(k)) && (
                led.books.contains_key(k) ==> now.books[k] == led.books[k])
            &&& now.total == weight(now.books)
            &&& !deleted && bytes is Some ==> forall|k: Seq<u8>|
                k != key && #[trigger] led.books.contains_key(k) ==> led.books[k].tick < now.books[key].tick
                    || now.books[key].tick == u64::MAX
        }),
{
    let books = led.books;
    let (now, unsure) = remote_step((led, dirty), key, bytes, deleted);
    a_finite_set_is_listed(books.dom());
    let keys = listing(books.dom());
    if books.contains_key(key) {
        super::lru::weight_without(books, key);
    } else {
        assert(books.remove(key) =~= books);
    }
    if let Some(n) = bytes {
        super::lru::weight_with(books, key, Entry { tick: now.books[key].tick, bytes: n });
    }
    if !books.contains_key(key) {
        super::lru::weight_with(books, key, Entry { tick: now.books[key].tick, bytes: 0 });
    }
    assert forall|k: Seq<u8>| #[trigger] books.contains_key(k) implies books[k].tick <= super::lru::latest(books, keys) by {
        assert(books.dom().contains(k));
        the_latest_is_no_earlier(books, keys, k);
    }
}

/// No key of a list was used later than the latest.
proof fn the_latest_is_no_earlier(books: Books, keys: Seq<Seq<u8>>, k: Seq<u8>)
    requires
        keys.contains(k),
    ensures
        books[k].tick <= super::lru::latest(books, keys),
    decreases keys.len(),
{
    if keys.last() != k {
        let i = keys.index_of(k);
        assert(keys.drop_last()[i] == k);
        the_latest_is_no_earlier(books, keys.drop_last(), k);
    }
}

/// A read that finds a value is a use of its key: the key counts as used at the
/// moment of the read and weighs what it did, and nothing else in the accounting
/// changes.
pub proof fn a_read_is_a_use<B: Backend, T: Value>(
    before: LazyLocker<T>,
    shared: Shared<B>,
    key: Seq<u8>,
    r: Result<Option<T>>,
    after: LazyLocker<T>,
    now: Shared<B>,
    other: Seq<u8>,
)
    requires
        super::lazy::read_through(before, shared, key, r, after, now),
        !before.res.inner.closed,
        super::batch::reads(moves(before.res.staged@), key) is None,
        before.res.lru is Some,
        r matches Ok(Some(_)),
    ensures
        after.res.lru is Some,
        shared.next_tick() is Some,
        after.res.lru->0.total_spec() == before.res.lru->0.total_spec(),
        after.res.lru->0.limit() == before.res.lru->0.limit(),
        after.res.lru->0.books().contains_key(other) <==> before.res.lru->0.books().contains_key(other),
        other != key && before.res.lru->0.books().contains_key(other) ==> after.res.lru->0.books()[other]
            == before.res.lru->0.books()[other],
        before.res.lru->0.books().contains_key(key) ==> after.res.lru->0.books()[key].tick == shared.next_tick()->0
            && after.res.lru->0.books()[key].bytes == before.res.lru->0.books()[key].bytes,
        now.ticks.cursor() matches Some(next) && next > shared.next_tick()->0,
{
}

/// A delete gives back what its key weighed, and nothing else: the key is accounted
/// for no more, and every other is as it was or was shed.
pub proof fn a_delete_is_credited<B: Backend, T: Value>(
    before: LazyLocker<T>,
    shared: Shared<B>,
    key: Seq<u8>,
    r: Result<()>,
    after: LazyLocker<T>,
    now: Shared<B>,
    other: Seq<u8>,
)
    requires
        super::lazy::delete_through(before, shared, key, r, after, now),
        r is Ok,
        before.res.inner.config.batch() is None,
        before.res.index is Some,
        before.res.lru matches Some(s) && !s.dirty_spec() && s.exact(),
        before.res.lru->0.total_spec() <= before.res.lru->0.limit(),
    ensures
        after.res.lru is Some,
        !after.res.lru->0.books().contains_key(key),
        other != key ==> (after.res.lru->0.books().contains_key(other) <==> before.res.lru->0.books().contains_key(
            other,
        )),
        other != key && before.res.lru->0.books().contains_key(other) ==> after.res.lru->0.books()[other]
            == before.res.lru->0.books()[other],
        after.res.lru->0.total_spec() == weight(after.res.lru->0.books()),
{
    let b = choose|b: Budget| #[trigger]
        super::lazy::delete_landed(before.res, shared, key, b, after.res, now.backend.store());
    let s = before.res.lru->0;
    let store = shared.backend.store();
    let id = before.res.inner.id;
    let prior = before.res.prior_spec(key, shared.trusts(before.res.inner));
    let dropped = super::inner::gc_list(store.records, id, key, prior)->0;
    let none = Seq::<(Seq<u8>, u64)>::empty();
    let gone = seq![key];
    assert(names_of(none) =~= Seq::<Seq<u8>>::empty());
    assert(gone[0] == key);
    assert(gone.contains(key));
    a_landed_write_is_accounted(
        s,
        id,
        store,
        shared.next_tick(),
        dropped.push(super::inner::record_delete(id, key)),
        none,
        gone,
        false,
        b,
        now.backend.store(),
        after.res.lru->0,
    );
    assert(weight_of_updates(stamped(none, shared.next_tick()->0)) == 0);
    nothing_is_shed_for_a_delete(
        s,
        id,
        store,
        shared.next_tick(),
        dropped.push(super::inner::record_delete(id, key)),
        gone,
        b,
        now.backend.store(),
    );
}

/// A removal from an accounting that fits its budget sheds nothing.
proof fn nothing_is_shed_for_a_delete(
    s: LruState,
    id: LockerId,
    store: Store,
    tick: Option<u64>,
    out: Seq<Change>,
    gone: Seq<Seq<u8>>,
    b: Budget,
    after: Store,
)
    requires
        write_landed(Some(s), id, store, tick, out, Seq::empty(), gone, false, Seq::empty(), b, after),
        !s.dirty_spec(),
        s.total_spec() <= s.limit(),
    ensures
        b.plan.victims@.len() == 0,
{
    reveal(write_landed);
    let led = up_to_date(s, store.meta, id);
    let none = Seq::<(Seq<u8>, u64)>::empty();
    assert(stamped(none, tick->0) =~= Seq::<(Seq<u8>, Entry)>::empty());
    removals_take_off(led.books, led.total, gone);
    assert(settled(led.books, led.total, stamped(none, tick->0), gone, false) <= led.limit);
}

/// Taking off never adds.
proof fn removals_take_off(books: Books, total: u64, gone: Seq<Seq<u8>>)
    ensures
        super::lru::less_removals(books, total, gone) <= total,
    decreases gone.len(),
{
    if gone.len() > 0 {
        removals_take_off(books, total, gone.drop_last());
    }
}

/// A clear leaves nothing accounted for.
pub proof fn a_clear_empties_the_accounting<B: Backend, T: Value>(
    before: LazyLocker<T>,
    shared: Shared<B>,
    r: Result<()>,
    after: LazyLocker<T>,
    now: Shared<B>,
)
    requires
        super::lazy::clear_through(before, shared, r, after, now),
        r is Ok,
        before.res.inner.config.batch() is None,
        before.res.index is Some,
        before.res.lru matches Some(s) && !s.dirty_spec() && s.exact(),
    ensures
        after.res.lru is Some,
        after.res.lru->0.books() == Map::<Seq<u8>, Entry>::empty(),
        after.res.lru->0.total_spec() == 0,
{
    let b = choose|b: Budget| #[trigger]
        super::lazy::clear_landed(before.res, shared, b, after.res, now.backend.store());
    let s = before.res.lru->0;
    let store = shared.backend.store();
    let id = before.res.inner.id;
    let none = Seq::<(Seq<u8>, u64)>::empty();
    assert(names_of(none) =~= Seq::<Seq<u8>>::empty());
    a_landed_write_is_accounted(
        s,
        id,
        store,
        shared.next_tick(),
        super::inner::clears(store.records, id),
        none,
        Seq::empty(),
        true,
        b,
        now.backend.store(),
        after.res.lru->0,
    );
    assert(weight_of_updates(stamped(none, shared.next_tick()->0)) == 0);
    assert(after.res.lru->0.books() =~= Map::<Seq<u8>, Entry>::empty());
}

/// What was just written is the last to have been used, while every moment on the
/// books came before the clock's next.
pub proof fn what_was_just_written_was_used_last<B: Backend, T: Value>(
    before: LazyLocker<T>,
    shared: Shared<B>,
    key: Seq<u8>,
    value: &T,
    r: Result<()>,
    after: LazyLocker<T>,
    now: Shared<B>,
    other: Seq<u8>,
)
    requires
        put_through(before, shared, key, value, r, after, now),
        r is Ok,
        before.res.inner.config.batch() is None,
        before.res.index is Some,
        before.res.lru matches Some(s) && !s.dirty_spec() && s.books().dom().finite(),
        shared.next_tick() matches Some(tick) && forall|k: Seq<u8>| #[trigger]
            before.res.lru->0.books().contains_key(k) ==> before.res.lru->0.books()[k].tick < tick,
        other != key,
    ensures
        after.res.lru is Some,
        after.res.lru->0.books().contains_key(key),
        after.res.lru->0.books().contains_key(other) ==> after.res.lru->0.books()[other].tick
            < after.res.lru->0.books()[key].tick,
{
    let b = choose|b: Budget| #[trigger]
        put_landed(before.res, shared, key, value.payload(), b, after.res, now.backend.store());
    a_landed_put_is_accounted(before.res, shared, key, value.payload(), b, after.res, now.backend.store());
}

} // verus!
