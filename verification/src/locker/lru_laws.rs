//! What holds of every eviction plan.

use vstd::prelude::*;

use super::lru::{
    books_after, less_removals, plan_fits, plus_updates, settled, shed, sheddable, sheds_the_front, struck, unkept,
    untouched, updates_name, weight, weight_with, weight_without, written, Books, Entry, LruState, Plan,
};
use super::batch::{a_batch_names_a_key_once, names_of, removed, weighed, wipes, Move};
use super::queue::{in_line, no_later, Due};
use super::resident::{stamped, used_at, Ledger};
use crate::sorted::{a_finite_set_is_listed, ascending_has_no_duplicates, listing, views};

verus! {

/// Every entry of `line` comes from `list` and the other way round.
pub(crate) proof fn same_entries(line: Seq<Due>, list: Seq<Due>)
    requires
        line.to_multiset() == list.to_multiset(),
    ensures
        line.len() == list.len(),
        forall|i: int| 0 <= i < line.len() ==> list.contains(#[trigger] line[i]),
{
    broadcast use vstd::seq_lib::group_to_multiset_ensures;

    line.to_multiset_ensures();
    list.to_multiset_ensures();
    assert forall|i: int| 0 <= i < line.len() implies list.contains(#[trigger] line[i]) by {
        assert(line.contains(line[i]));
        assert(line.to_multiset().count(line[i]) > 0);
        assert(list.to_multiset().count(line[i]) > 0);
    }
}

/// Where the entries that may be shed come from.
pub(crate) proof fn untouched_entries(
    books: Books,
    keys: Seq<Seq<u8>>,
    updates: Seq<(Seq<u8>, Entry)>,
    removals: Seq<Seq<u8>>,
    keep: Seq<Seq<u8>>,
    d: Due,
)
    ensures
        untouched(books, keys, updates, removals, keep).contains(d) ==> keys.contains(d.1) && d == (
            books[d.1].tick,
            d.1,
            books[d.1].bytes,
        ) && !removals.contains(d.1) && !updates_name(updates, d.1) && !keep.contains(d.1),
    decreases keys.len(),
{
    let list = untouched(books, keys, updates, removals, keep);
    if keys.len() > 0 && list.contains(d) {
        let rest = keys.drop_last();
        let so_far = untouched(books, rest, updates, removals, keep);
        untouched_entries(books, rest, updates, removals, keep, d);
        let i = list.index_of(d);
        if i < so_far.len() {
            assert(so_far[i] == d);
            assert(so_far.contains(d));
            let j = rest.index_of(d.1);
            assert(keys[j] == d.1);
        } else {
            assert(keys[keys.len() - 1] == keys.last());
        }
    }
}

/// Where the updates that may be shed come from.
pub(crate) proof fn unkept_entries(updates: Seq<(Seq<u8>, Entry)>, keep: Seq<Seq<u8>>, d: Due)
    ensures
        unkept(updates, keep).contains(d) ==> !keep.contains(d.1) && exists|i: int|
            0 <= i < updates.len() && (#[trigger] updates[i]).0 == d.1 && d == (
                updates[i].1.tick,
                updates[i].0,
                updates[i].1.bytes,
            ),
    decreases updates.len(),
{
    let list = unkept(updates, keep);
    if updates.len() > 0 && list.contains(d) {
        let rest = updates.drop_last();
        let so_far = unkept(rest, keep);
        unkept_entries(rest, keep, d);
        let i = list.index_of(d);
        if i < so_far.len() {
            assert(so_far[i] == d);
            assert(so_far.contains(d));
            let j = choose|j: int|
                0 <= j < rest.len() && (#[trigger] rest[j]).0 == d.1 && d == (rest[j].1.tick, rest[j].0, rest[j].1.bytes);
            assert(updates[j].0 == d.1);
        } else {
            assert(updates[updates.len() - 1].0 == d.1);
        }
    }
}

/// A key the commit is writing is never shed to make room for itself.
pub proof fn kept_keys_are_never_shed(
    books: Books,
    total: u64,
    updates: Seq<(Seq<u8>, Entry)>,
    removals: Seq<Seq<u8>>,
    cleared: bool,
    budget: u64,
    keep: Seq<Seq<u8>>,
    plan: Plan,
    key: Seq<u8>,
)
    requires
        plan_fits(books, total, updates, removals, cleared, budget, keep, plan),
        keep.contains(key),
    ensures
        !views(plan.victims@).contains(key),
{
    let start = settled(books, total, updates, removals, cleared);
    if start > budget {
        let list = sheddable(books, updates, removals, cleared, keep);
        let line = choose|line: Seq<Due>|
            in_line(line) && line.to_multiset() == list.to_multiset() && #[trigger] sheds_the_front(line, start, budget, plan);
        same_entries(line, list);
        if views(plan.victims@).contains(key) {
            let i = views(plan.victims@).index_of(key);
            assert(plan.victims@[i]@ == line[i].1);
            let d = line[i];
            assert(list.contains(d));
            let j = list.index_of(d);
            let old = if cleared {
                Seq::empty()
            } else {
                untouched(books, listing(books.dom()), updates, removals, keep)
            };
            if j < old.len() {
                assert(old[j] == d);
                assert(old.contains(d));
                untouched_entries(books, listing(books.dom()), updates, removals, keep, d);
            } else {
                assert(unkept(updates, keep)[j - old.len()] == d);
                assert(unkept(updates, keep).contains(d));
                unkept_entries(updates, keep, d);
            }
        }
    }
}

/// A commit ends inside its budget, or has shed everything that may be shed.
pub proof fn the_budget_is_met_or_nothing_is_left(
    books: Books,
    total: u64,
    updates: Seq<(Seq<u8>, Entry)>,
    removals: Seq<Seq<u8>>,
    cleared: bool,
    budget: u64,
    keep: Seq<Seq<u8>>,
    plan: Plan,
)
    requires
        plan_fits(books, total, updates, removals, cleared, budget, keep, plan),
    ensures
        plan.total <= budget || plan.victims@.len() == sheddable(books, updates, removals, cleared, keep).len(),
{
    let start = settled(books, total, updates, removals, cleared);
    if start > budget {
        let list = sheddable(books, updates, removals, cleared, keep);
        let line = choose|line: Seq<Due>|
            in_line(line) && line.to_multiset() == list.to_multiset() && #[trigger] sheds_the_front(line, start, budget, plan);
        same_entries(line, list);
    }
}

/// Two updates never name the same key.
pub open spec fn distinct_updates(updates: Seq<(Seq<u8>, Entry)>) -> bool {
    forall|i: int, j: int| 0 <= i < j < updates.len() ==> (#[trigger] updates[i]).0 != (#[trigger] updates[j]).0
}

/// What a list of updates weighs.
pub open spec fn weight_of_updates(updates: Seq<(Seq<u8>, Entry)>) -> nat
    decreases updates.len(),
{
    if updates.len() == 0 {
        0
    } else {
        weight_of_updates(updates.drop_last()) + updates.last().1.bytes as nat
    }
}

/// Taking distinct removals off an exact total leaves an exact total.
pub(crate) proof fn removals_are_exact(books: Books, total: u64, removals: Seq<Seq<u8>>)
    requires
        books.dom().finite(),
        total == weight(books),
        removals.no_duplicates(),
    ensures
        less_removals(books, total, removals) == weight(struck(books, removals)),
        struck(books, removals).dom().finite(),
    decreases removals.len(),
{
    if removals.len() == 0 {
        assert(struck(books, removals) =~= books);
    } else {
        let rest = removals.drop_last();
        let k = removals.last();
        assert forall|i: int, j: int| 0 <= i < rest.len() && 0 <= j < rest.len() && i != j implies rest[i] != rest[j] by {
            assert(rest[i] == removals[i] && rest[j] == removals[j]);
        }
        removals_are_exact(books, total, rest);
        let before = struck(books, rest);
        assert(!rest.contains(k)) by {
            if rest.contains(k) {
                let i = rest.index_of(k);
                assert(removals[i] == removals[removals.len() - 1]);
            }
        }
        assert forall|x: Seq<u8>| removals.contains(x) <==> rest.contains(x) || x == k by {
            if rest.contains(x) {
                assert(removals[rest.index_of(x)] == x);
            }
            assert(removals[removals.len() - 1] == k);
            if removals.contains(x) && x != k {
                assert(rest[removals.index_of(x)] == x);
            }
        }
        assert(struck(books, removals) =~= before.remove(k));
        if books.contains_key(k) {
            assert(before.contains_key(k));
            weight_without(before, k);
        } else {
            assert(before.remove(k) =~= before);
        }
    }
}

/// Writing distinct updates into books of exact weight keeps the total exact.
pub(crate) proof fn updates_are_exact(books: Books, ledger: Books, total: u64, updates: Seq<(Seq<u8>, Entry)>)
    requires
        ledger.dom().finite(),
        total == weight(ledger),
        distinct_updates(updates),
        weight(ledger) + weight_of_updates(updates) <= u64::MAX,
        forall|i: int|
            0 <= i < updates.len() ==> (books.contains_key((#[trigger] updates[i]).0) <==> ledger.contains_key(
                updates[i].0,
            )) && (books.contains_key(updates[i].0) ==> books[updates[i].0] == ledger[updates[i].0]),
    ensures
        plus_updates(books, total, updates) == weight(written(ledger, updates)),
        written(ledger, updates).dom().finite(),
        weight(written(ledger, updates)) <= weight(ledger) + weight_of_updates(updates),
        forall|k: Seq<u8>|
            !updates_name(updates, k) ==> (#[trigger] written(ledger, updates).contains_key(k)
                <==> ledger.contains_key(k)) && (ledger.contains_key(k) ==> written(ledger, updates)[k]
                == ledger[k]),
        forall|i: int|
            0 <= i < updates.len() ==> written(ledger, updates).contains_key((#[trigger] updates[i]).0)
                && written(ledger, updates)[updates[i].0] == updates[i].1,
    decreases updates.len(),
{
    if updates.len() > 0 {
        let rest = updates.drop_last();
        let (k, e) = updates.last();
        assert forall|i: int, j: int| 0 <= i < j < rest.len() implies (#[trigger] rest[i]).0 != (#[trigger] rest[j]).0 by {
            assert(rest[i] == updates[i] && rest[j] == updates[j]);
        }
        assert forall|i: int| 0 <= i < rest.len() implies (books.contains_key((#[trigger] rest[i]).0)
            <==> ledger.contains_key(rest[i].0)) && (books.contains_key(rest[i].0) ==> books[rest[i].0]
            == ledger[rest[i].0]) by {
            assert(rest[i] == updates[i]);
        }
        updates_are_exact(books, ledger, total, rest);
        let mid = written(ledger, rest);
        assert(!updates_name(rest, k)) by {
            if updates_name(rest, k) {
                let i = choose|i: int| 0 <= i < rest.len() && (#[trigger] rest[i]).0 == k;
                assert(updates[i].0 == updates[updates.len() - 1].0);
            }
        }
        assert(mid.contains_key(k) <==> ledger.contains_key(k));
        assert(updates[updates.len() - 1] == (k, e));
        weight_with(mid, k, e);
        if mid.contains_key(k) {
            weight_without(mid, k);
        } else {
            assert(mid.remove(k) =~= mid);
        }
        let now = written(ledger, updates);
        assert(now.dom() =~= mid.dom().insert(k));
        assert forall|x: Seq<u8>| !updates_name(updates, x) implies (#[trigger] now.contains_key(x)
            <==> ledger.contains_key(x)) && (ledger.contains_key(x) ==> now[x] == ledger[x]) by {
            assert(updates[updates.len() - 1].0 == k);
            assert(x != k);
            if updates_name(rest, x) {
                let i = choose|i: int| 0 <= i < rest.len() && (#[trigger] rest[i]).0 == x;
                assert(updates[i].0 == x);
            }
            assert(mid.contains_key(x) <==> ledger.contains_key(x));
        }
        assert forall|i: int| 0 <= i < updates.len() implies now.contains_key((#[trigger] updates[i]).0)
            && now[updates[i].0] == updates[i].1 by {
            if i < rest.len() {
                assert(rest[i] == updates[i]);
                assert(updates[i].0 != updates[updates.len() - 1].0);
            }
        }
    }
}

/// No key is twice among the entries that may be shed.
pub(crate) proof fn untouched_keys_are_apart(
    books: Books,
    keys: Seq<Seq<u8>>,
    updates: Seq<(Seq<u8>, Entry)>,
    removals: Seq<Seq<u8>>,
    keep: Seq<Seq<u8>>,
)
    requires
        keys.no_duplicates(),
    ensures
        ({
            let list = untouched(books, keys, updates, removals, keep);
            forall|i: int, j: int| 0 <= i < j < list.len() ==> (#[trigger] list[i]).1 != (#[trigger] list[j]).1
        }),
    decreases keys.len(),
{
    if keys.len() > 0 {
        let rest = keys.drop_last();
        assert forall|i: int, j: int| 0 <= i < rest.len() && 0 <= j < rest.len() && i != j implies rest[i] != rest[j] by {
            assert(rest[i] == keys[i] && rest[j] == keys[j]);
        }
        untouched_keys_are_apart(books, rest, updates, removals, keep);
        let so_far = untouched(books, rest, updates, removals, keep);
        let list = untouched(books, keys, updates, removals, keep);
        assert forall|i: int, j: int| 0 <= i < j < list.len() implies (#[trigger] list[i]).1 != (#[trigger] list[j]).1 by {
            assert(list[i] == so_far[i]);
            if j == so_far.len() {
                assert(so_far.contains(so_far[i]));
                untouched_entries(books, rest, updates, removals, keep, so_far[i]);
                let n = rest.index_of(so_far[i].1);
                assert(keys[n] == so_far[i].1 && keys[keys.len() - 1] == list[j].1);
            } else {
                assert(list[j] == so_far[j]);
            }
        }
    }
}

/// No key is twice among the updates that may be shed.
proof fn unkept_keys_are_apart(updates: Seq<(Seq<u8>, Entry)>, keep: Seq<Seq<u8>>)
    requires
        distinct_updates(updates),
    ensures
        ({
            let list = unkept(updates, keep);
            forall|i: int, j: int| 0 <= i < j < list.len() ==> (#[trigger] list[i]).1 != (#[trigger] list[j]).1
        }),
    decreases updates.len(),
{
    if updates.len() > 0 {
        let rest = updates.drop_last();
        assert forall|i: int, j: int| 0 <= i < j < rest.len() implies (#[trigger] rest[i]).0 != (#[trigger] rest[j]).0 by {
            assert(rest[i] == updates[i] && rest[j] == updates[j]);
        }
        unkept_keys_are_apart(rest, keep);
        let so_far = unkept(rest, keep);
        let list = unkept(updates, keep);
        assert forall|i: int, j: int| 0 <= i < j < list.len() implies (#[trigger] list[i]).1 != (#[trigger] list[j]).1 by {
            assert(list[i] == so_far[i]);
            if j == so_far.len() {
                assert(so_far.contains(so_far[i]));
                unkept_entries(rest, keep, so_far[i]);
                let n = choose|n: int|
                    0 <= n < rest.len() && (#[trigger] rest[n]).0 == so_far[i].1 && so_far[i] == (
                        rest[n].1.tick,
                        rest[n].0,
                        rest[n].1.bytes,
                    );
                assert(updates[n].0 == so_far[i].1 && updates[updates.len() - 1].0 == list[j].1);
            } else {
                assert(list[j] == so_far[j]);
            }
        }
    }
}

/// Shedding distinct entries of the books takes exactly their weight off.
proof fn shedding_is_exact(ledger: Books, total: u64, line: Seq<Due>, n: int)
    requires
        ledger.dom().finite(),
        total == weight(ledger),
        0 <= n <= line.len(),
        forall|i: int, j: int| 0 <= i < j < line.len() ==> (#[trigger] line[i]).1 != (#[trigger] line[j]).1,
        forall|i: int|
            0 <= i < line.len() ==> ledger.contains_key((#[trigger] line[i]).1) && ledger[line[i].1].bytes
                == line[i].2,
    ensures
        ({
            let keys = Seq::new(n as nat, |i: int| line[i].1);
            &&& shed(total, line, n) == weight(struck(ledger, keys))
            &&& struck(ledger, keys).dom().finite()
        }),
    decreases n,
{
    let keys = Seq::new(n as nat, |i: int| line[i].1);
    if n == 0 {
        assert(struck(ledger, keys) =~= ledger);
    } else {
        shedding_is_exact(ledger, total, line, n - 1);
        let fewer = Seq::new((n - 1) as nat, |i: int| line[i].1);
        let k = line[n - 1].1;
        let before = struck(ledger, fewer);
        assert(!fewer.contains(k)) by {
            if fewer.contains(k) {
                let i = fewer.index_of(k);
                assert(line[i].1 == line[n - 1].1);
            }
        }
        assert forall|x: Seq<u8>| keys.contains(x) <==> fewer.contains(x) || x == k by {
            if fewer.contains(x) {
                assert(keys[fewer.index_of(x)] == x);
            }
            assert(keys[n - 1] == k);
            if keys.contains(x) && x != k {
                assert(fewer[keys.index_of(x)] == x);
            }
        }
        assert(struck(ledger, keys) =~= before.remove(k));
        assert(before.contains_key(k));
        weight_without(before, k);
    }
}

/// A permutation of entries with distinct keys has distinct keys.
pub(crate) proof fn keys_stay_apart(line: Seq<Due>, list: Seq<Due>)
    requires
        line.to_multiset() == list.to_multiset(),
        forall|i: int, j: int| 0 <= i < j < list.len() ==> (#[trigger] list[i]).1 != (#[trigger] list[j]).1,
    ensures
        forall|i: int, j: int| 0 <= i < j < line.len() ==> (#[trigger] line[i]).1 != (#[trigger] line[j]).1,
{
    same_entries(line, list);
    assert(list.no_duplicates()) by {
        assert forall|i: int, j: int| 0 <= i < list.len() && 0 <= j < list.len() && i != j implies list[i] != list[j] by {
            if i < j {
                assert(list[i].1 != list[j].1);
            } else {
                assert(list[j].1 != list[i].1);
            }
        }
    }
    list.lemma_multiset_has_no_duplicates();
    line.lemma_multiset_has_no_duplicates_conv();
    assert forall|i: int, j: int| 0 <= i < j < line.len() implies (#[trigger] line[i]).1 != (#[trigger] line[j]).1 by {
        if line[i].1 == line[j].1 {
            let a = list.index_of(line[i]);
            let b = list.index_of(line[j]);
            if a < b {
                assert(list[a].1 != list[b].1);
            } else if b < a {
                assert(list[b].1 != list[a].1);
            }
            assert(line[i] == line[j]);
        }
    }
}

/// A total that weighs the books exactly still does after a planned commit:
/// whatever is written, removed, cleared or shed, the budget never drifts from
/// what it is supposed to bound.
pub proof fn the_total_stays_exact(
    state: LruState,
    updates: Seq<(Seq<u8>, Entry)>,
    removals: Seq<Seq<u8>>,
    cleared: bool,
    budget: u64,
    keep: Seq<Seq<u8>>,
    plan: Plan,
)
    requires
        state.exact(),
        distinct_updates(updates),
        removals.no_duplicates(),
        forall|i: int| 0 <= i < updates.len() ==> !removals.contains((#[trigger] updates[i]).0),
        weight(state.books()) + weight_of_updates(updates) <= u64::MAX,
        plan_fits(
            state.books(),
            state.total_spec(),
            updates,
            removals,
            cleared,
            budget,
            keep,
            plan,
        ),
    ensures
        plan.total == weight(books_after(state.books(), updates, removals, cleared, views(plan.victims@))),
{
    let books = state.books();
    let total = state.total_spec();
    let base = if cleared {
        Map::<Seq<u8>, Entry>::empty()
    } else {
        books
    };
    let base_total = if cleared {
        0
    } else {
        total
    };
    removals_are_exact(base, base_total, removals);
    let ledger = struck(base, removals);
    assert(weight(ledger) <= weight(books)) by {
        removals_never_grow(base, base_total, removals);
    }
    if cleared {
        assert(ledger =~= Map::<Seq<u8>, Entry>::empty());
        updates_are_exact(Map::<Seq<u8>, Entry>::empty(), ledger, 0, updates);
    } else {
        updates_are_exact(books, ledger, less_removals(books, total, removals), updates);
    }
    let now = written(ledger, updates);
    let start = settled(books, total, updates, removals, cleared);
    assert(start == weight(now));
    let victims = views(plan.victims@);
    if start <= budget {
        assert(struck(now, victims) =~= now);
    } else {
        let list = sheddable(books, updates, removals, cleared, keep);
        let line = choose|line: Seq<Due>|
            in_line(line) && line.to_multiset() == list.to_multiset() && #[trigger] sheds_the_front(line, start, budget, plan);
        same_entries(line, list);
        let keys = listing(books.dom());
        a_finite_set_is_listed(books.dom());
        ascending_has_no_duplicates(keys);
        let old = if cleared {
            Seq::empty()
        } else {
            untouched(books, keys, updates, removals, keep)
        };
        let fresh = unkept(updates, keep);
        untouched_keys_are_apart(books, keys, updates, removals, keep);
        unkept_keys_are_apart(updates, keep);
        assert forall|i: int| 0 <= i < list.len() implies now.contains_key((#[trigger] list[i]).1)
            && now[list[i].1].bytes == list[i].2 && (i < old.len() ==> !updates_name(updates, list[i].1)) && (i
            >= old.len() ==> updates_name(updates, list[i].1)) by {
            let d = list[i];
            if i < old.len() {
                assert(old[i] == d);
                assert(old.contains(d));
                untouched_entries(books, keys, updates, removals, keep, d);
                assert(keys.contains(d.1));
                assert(books.dom().contains(d.1));
                assert(ledger.contains_key(d.1));
                assert(now.contains_key(d.1) <==> ledger.contains_key(d.1));
            } else {
                assert(fresh[i - old.len()] == d);
                assert(fresh.contains(d));
                unkept_entries(updates, keep, d);
                let n = choose|n: int|
                    0 <= n < updates.len() && (#[trigger] updates[n]).0 == d.1 && d == (
                        updates[n].1.tick,
                        updates[n].0,
                        updates[n].1.bytes,
                    );
                assert(now[updates[n].0] == updates[n].1);
            }
        }
        assert forall|i: int, j: int| 0 <= i < j < list.len() implies (#[trigger] list[i]).1 != (#[trigger] list[j]).1 by {
            if j < old.len() {
                assert(old[i].1 != old[j].1);
            } else if i >= old.len() {
                assert(fresh[i - old.len()].1 != fresh[j - old.len()].1);
            }
        }
        keys_stay_apart(line, list);
        assert forall|i: int| 0 <= i < line.len() implies now.contains_key((#[trigger] line[i]).1)
            && now[line[i].1].bytes == line[i].2 by {
            assert(list.contains(line[i]));
            let n = list.index_of(line[i]);
            assert(list[n] == line[i]);
        }
        let n = victims.len() as int;
        shedding_is_exact(now, start, line, n);
        assert(victims =~= Seq::new(n as nat, |i: int| line[i].1)) by {
            assert forall|i: int| 0 <= i < n implies victims[i] == line[i].1 by {
                assert(plan.victims@[i]@ == line[i].1);
            }
        }
    }
}

/// Removing entries never makes books heavier.
proof fn removals_never_grow(books: Books, total: u64, removals: Seq<Seq<u8>>)
    requires
        books.dom().finite(),
        total == weight(books),
        removals.no_duplicates(),
    ensures
        weight(struck(books, removals)) <= weight(books),
{
    removals_are_exact(books, total, removals);
    less_is_no_more(books, total, removals);
}

/// Taking off never adds.
proof fn less_is_no_more(books: Books, total: u64, removals: Seq<Seq<u8>>)
    ensures
        less_removals(books, total, removals) <= total,
    decreases removals.len(),
{
    if removals.len() > 0 {
        less_is_no_more(books, total, removals.drop_last());
    }
}

/// What a batch owes the budget leaves the total exact, whatever the batch
/// writes, removes and clears, and however often it names a key.
pub proof fn a_batch_keeps_the_total_exact(state: LruState, list: Seq<Move>, tick: u64, budget: u64, plan: Plan)
    requires
        state.exact(),
        weight(state.books()) + weight_of_updates(stamped(weighed(list), tick)) <= u64::MAX,
        plan_fits(
            state.books(),
            state.total_spec(),
            stamped(weighed(list), tick),
            removed(list),
            wipes(list),
            budget,
            names_of(weighed(list)),
            plan,
        ),
    ensures
        plan.total == weight(
            books_after(
                state.books(),
                stamped(weighed(list), tick),
                removed(list),
                wipes(list),
                views(plan.victims@),
            ),
        ),
{
    let updates = stamped(weighed(list), tick);
    let names = names_of(weighed(list));
    a_batch_names_a_key_once(list);
    assert forall|i: int, j: int| 0 <= i < j < updates.len() implies (#[trigger] updates[i]).0 != (#[trigger] updates[j]).0 by {
        assert(names[i] == updates[i].0 && names[j] == updates[j].0);
    }
    assert forall|i: int| 0 <= i < updates.len() implies !removed(list).contains((#[trigger] updates[i]).0) by {
        assert(names[i] == updates[i].0);
        assert(names.contains(names[i]));
    }
    the_total_stays_exact(state, updates, removed(list), wipes(list), budget, names, plan);
}

/// Every key that a commit leaves alone may be shed for it.
pub(crate) proof fn what_is_left_alone_may_be_shed(
    books: Books,
    keys: Seq<Seq<u8>>,
    updates: Seq<(Seq<u8>, Entry)>,
    removals: Seq<Seq<u8>>,
    keep: Seq<Seq<u8>>,
    k: Seq<u8>,
)
    requires
        keys.contains(k),
        !removals.contains(k),
        !updates_name(updates, k),
        !keep.contains(k),
    ensures
        untouched(books, keys, updates, removals, keep).contains((books[k].tick, k, books[k].bytes)),
    decreases keys.len(),
{
    let d = (books[k].tick, k, books[k].bytes);
    let list = untouched(books, keys, updates, removals, keep);
    let so_far = untouched(books, keys.drop_last(), updates, removals, keep);
    if keys.last() == k {
        assert(list[so_far.len() as int] == d);
    } else {
        let i = keys.index_of(k);
        assert(keys.drop_last()[i] == k);
        what_is_left_alone_may_be_shed(books, keys.drop_last(), updates, removals, keep, k);
        let j = so_far.index_of(d);
        assert(list[j] == d);
    }
}

/// Every entry of `list` stands in a line of the same entries.
pub(crate) proof fn has_its_place(line: Seq<Due>, list: Seq<Due>, d: Due) -> (i: int)
    requires
        line.to_multiset() == list.to_multiset(),
        list.contains(d),
    ensures
        0 <= i < line.len(),
        line[i] == d,
{
    broadcast use vstd::seq_lib::group_to_multiset_ensures;

    line.to_multiset_ensures();
    list.to_multiset_ensures();
    assert(list.to_multiset().count(d) > 0);
    assert(line.contains(d));
    line.index_of(d)
}

/// The least recently used go first: of two keys that a commit leaves alone,
/// the one used later is shed only if the other is shed too.
pub proof fn the_least_recently_used_goes_first(
    books: Books,
    total: u64,
    updates: Seq<(Seq<u8>, Entry)>,
    removals: Seq<Seq<u8>>,
    budget: u64,
    keep: Seq<Seq<u8>>,
    plan: Plan,
    older: Seq<u8>,
    newer: Seq<u8>,
)
    requires
        books.dom().finite(),
        plan_fits(books, total, updates, removals, false, budget, keep, plan),
        books.contains_key(older),
        books.contains_key(newer),
        books[older].tick < books[newer].tick,
        !removals.contains(older) && !updates_name(updates, older) && !keep.contains(older),
        !removals.contains(newer) && !updates_name(updates, newer) && !keep.contains(newer),
        views(plan.victims@).contains(newer),
    ensures
        views(plan.victims@).contains(older),
{
    let start = settled(books, total, updates, removals, false);
    assert(start > budget);
    let keys = listing(books.dom());
    a_finite_set_is_listed(books.dom());
    let list = sheddable(books, updates, removals, false, keep);
    let line = choose|line: Seq<Due>|
        in_line(line) && line.to_multiset() == list.to_multiset() && #[trigger] sheds_the_front(line, start, budget, plan);
    same_entries(line, list);
    let old = untouched(books, keys, updates, removals, keep);
    let fresh = unkept(updates, keep);
    let i = views(plan.victims@).index_of(newer);
    assert(plan.victims@[i]@ == line[i].1);
    let d = line[i];
    assert(list.contains(d));
    let m = list.index_of(d);
    if m < old.len() {
        assert(old[m] == d);
        assert(old.contains(d));
        untouched_entries(books, keys, updates, removals, keep, d);
    } else {
        assert(fresh[m - old.len()] == d);
        assert(fresh.contains(d));
        unkept_entries(updates, keep, d);
    }
    assert(d.0 == books[newer].tick);
    assert(keys.contains(older)) by {
        assert(books.dom().contains(older));
    }
    what_is_left_alone_may_be_shed(books, keys, updates, removals, keep, older);
    let due = (books[older].tick, older, books[older].bytes);
    assert(list.contains(due)) by {
        let n = old.index_of(due);
        assert(list[n] == due);
    }
    let j = has_its_place(line, list, due);
    if j >= plan.victims@.len() {
        assert(no_later(line[i], line[j]));
    }
    assert(plan.victims@[j]@ == older);
    assert(views(plan.victims@)[j] == older);
}

/// A read counts as a use: a key that was read is not shed before any key that
/// was last used before that.
pub proof fn what_was_read_is_shed_last(
    led: Ledger,
    key: Seq<u8>,
    tick: u64,
    updates: Seq<(Seq<u8>, Entry)>,
    removals: Seq<Seq<u8>>,
    keep: Seq<Seq<u8>>,
    plan: Plan,
    other: Seq<u8>,
)
    requires
        led.books.dom().finite(),
        led.books.contains_key(key),
        led.books.contains_key(other),
        other != key,
        led.books[other].tick < tick,
        ({
            let now = used_at(led, key, tick);
            plan_fits(now.books, now.total, updates, removals, false, now.limit, keep, plan)
        }),
        !removals.contains(other) && !updates_name(updates, other) && !keep.contains(other),
        !removals.contains(key) && !updates_name(updates, key) && !keep.contains(key),
        views(plan.victims@).contains(key),
    ensures
        views(plan.victims@).contains(other),
{
    let now = used_at(led, key, tick);
    the_least_recently_used_goes_first(
        now.books,
        now.total,
        updates,
        removals,
        now.limit,
        keep,
        plan,
        other,
        key,
    );
}

} // verus!
