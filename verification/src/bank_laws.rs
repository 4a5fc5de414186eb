//! What holds of a bank across its operations: ids are never shared and never
//! reused, a locker stays bound to its type and its chain, bytes put are the
//! bytes got, quarantine heals, and what is closed stays closed.

use std::sync::Arc;

use vstd::prelude::*;
use vstd::string::StringSliceAdditionalSpecFns;

use crate::backend::api::{after_all_pushes, Backend, Change, Rows, Store, Table, Usage};
use crate::bank::{
    bound, first_failure, flushed_at, flushed_in_turn, forced_out, layout_fits, meta_keys_are_apart, named, next_id_of,
    number_at, opens_eager, opens_lazy, registering, stamped, Bank, FORMAT_VERSION,
};
use crate::bytes::be32_round_trips;
use crate::codec::value::{a_payload_reads_back, packed, Value};
use crate::codec::FilterChain;
use crate::error::Result;
use crate::handle::{answers_job, finds, one_stored, Answer, Job};
use crate::key::{stored, storing_round_trips, LockerId};
use crate::locker::batch::{moves, reads, Move};
use crate::locker::batch_laws::unmoved;
use crate::locker::chunk::{gc, parsed};
use crate::locker::eager::{self, Locker};
use crate::locker::inner::{clears, gc_all, locker_rows, record_delete, record_put, records_clear, Shared};
use crate::locker::laws::{dropping_stays_inside, owned, owns, tidy, untouched_chunks_read_the_same};
use crate::locker::lazy::{self, LazyLocker};
use crate::locker::policy::LockerConfig;
use crate::locker::resident::Resident;
use crate::maintenance::{erasure, removals, unreadable};
use crate::meta::{locker_key, schema_key};
use crate::sorted::listing;

verus! {

/// Every registered id is below the counter, and no two names have the same
/// one.
pub open spec fn registry_sound(store: Store) -> bool {
    &&& next_id_of(store) is Some
    &&& forall|name: Seq<u8>|
        (#[trigger] number_at(store, locker_key(name)) is Some) ==> number_at(store, locker_key(name))->0 < next_id_of(
            store,
        )->0
    &&& forall|a: Seq<u8>, b: Seq<u8>|
        a != b && (#[trigger] number_at(store, locker_key(a)) is Some) && (#[trigger] number_at(
            store,
            locker_key(b),
        ) is Some) ==> number_at(store, locker_key(a)) != number_at(store, locker_key(b))
}

/// Looking a name up, or registering it, keeps ids apart: two names never
/// share one.
pub proof fn names_never_share_an_id(store: Store, known: Map<Seq<u8>, u32>, name: Seq<u8>)
    requires
        registry_sound(store),
        forall|n: Seq<u8>| #[trigger]
            known.contains_key(n) ==> number_at(store, locker_key(n)) == Some(known[n]),
    ensures
        named(store, known, name) matches Some((id, after)) ==> registry_sound(after) && number_at(
            after,
            locker_key(name),
        ) == Some(id),
{
    if named(store, known, name) is Some {
        let (id, after) = named(store, known, name)->0;
        if !known.contains_key(name) && store.lookup(Table::Meta, locker_key(name)) is None {
            registering(store, name, id);
            let next = (id + 1) as u32;
            assert(next_id_of(store) == Some(id));
            assert forall|n: Seq<u8>| (#[trigger] number_at(after, locker_key(n)) is Some) implies number_at(after, locker_key(n))->0 < next by {
                if n != name {
                    assert(number_at(store, locker_key(n)) is Some);
                }
            }
            assert forall|a: Seq<u8>, b: Seq<u8>|
                a != b && (#[trigger] number_at(after, locker_key(a)) is Some) && (#[trigger] number_at(
                    after,
                    locker_key(b),
                ) is Some) implies number_at(after, locker_key(a)) != number_at(after, locker_key(b)) by {
                if a != name {
                    assert(number_at(store, locker_key(a)) is Some);
                }
                if b != name {
                    assert(number_at(store, locker_key(b)) is Some);
                }
            }
        }
    }
}

/// Clearing a locker touches no `meta`.
proof fn clearing_spares_meta(store: Store, id: LockerId)
    ensures
        store.after_all(clears(store.records, id)).meta == store.meta,
{
    let rows = locker_rows(store.records, id);
    dropping_spares_meta(store, rows, listing(rows.dom()));
    after_all_pushes(store, gc_all(rows, listing(rows.dom())), records_clear(id));
}

/// Dropping chunks touches no `meta`.
proof fn dropping_spares_meta(store: Store, rows: Rows, keys: Seq<Seq<u8>>)
    ensures
        store.after_all(gc_all(rows, keys)).meta == store.meta,
    decreases keys.len(),
{
    if keys.len() > 0 {
        dropping_spares_meta(store, rows, keys.drop_last());
        let record = rows[keys.last()];
        if crate::locker::chunk::points(record) && crate::locker::chunk::parsed(record) is Some {
            after_all_pushes(
                store,
                gc_all(rows, keys.drop_last()),
                crate::locker::chunk::gc(crate::locker::chunk::parsed(record)->0),
            );
        }
    }
}

/// An erased locker's id is not recycled: its name is free again, whoever takes
/// it next gets an id that was never handed out before, and every other name
/// keeps the id it has.
pub proof fn an_erased_id_is_never_reused(store: Store, name: Seq<u8>, id: LockerId)
    requires
        registry_sound(store),
        number_at(store, locker_key(name)) == Some(id),
    ensures
        ({
            let after = store.after_all(erasure(store.records, name, id));
            &&& registry_sound(after)
            &&& after.lookup(Table::Meta, locker_key(name)) is None
            &&& next_id_of(after) == next_id_of(store)
            &&& named(after, Map::empty(), name) matches Some((fresh, _)) ==> fresh > id
            &&& forall|other: Seq<u8>|
                other != name ==> number_at(after, #[trigger] locker_key(other)) == number_at(store, locker_key(other))
        }),
{
    crate::maintenance::erasing_forgets_one_name(store, name, id);
    let list = clears(store.records, id);
    let one = Change::Delete { table: Table::Meta, key: locker_key(name) };
    let two = Change::Delete { table: Table::Meta, key: schema_key(id) };
    clearing_spares_meta(store, id);
    after_all_pushes(store, list.push(one), two);
    after_all_pushes(store, list, one);
    let after = store.after_all(erasure(store.records, name, id));
    assert(after.meta == store.meta.remove(locker_key(name)).remove(schema_key(id)));
    meta_keys_are_apart(name, id);
    assert(next_id_of(after) == next_id_of(store));
    assert forall|n: Seq<u8>| n != name implies #[trigger] number_at(after, locker_key(n)) == number_at(
        store,
        locker_key(n),
    ) by {
        meta_keys_are_apart(n, id);
        if locker_key(n) == locker_key(name) {
            let p = crate::meta::locker_prefix().len() as int;
            assert(n =~= locker_key(n).skip(p));
            assert(name =~= locker_key(name).skip(p));
        }
    }
    assert(number_at(after, locker_key(name)) is None);
    assert forall|n: Seq<u8>| (#[trigger] number_at(after, locker_key(n)) is Some) implies number_at(after, locker_key(n))->0 < next_id_of(
        after,
    )->0 by {
        assert(n != name);
        assert(number_at(store, locker_key(n)) is Some);
    }
    assert forall|a: Seq<u8>, b: Seq<u8>|
        a != b && (#[trigger] number_at(after, locker_key(a)) is Some) && (#[trigger] number_at(
            after,
            locker_key(b),
        ) is Some) implies number_at(after, locker_key(a)) != number_at(after, locker_key(b)) by {
        assert(a != name && b != name);
        assert(number_at(store, locker_key(a)) is Some && number_at(store, locker_key(b)) is Some);
    }
}

/// A locker bound to a value stays bound to it: the same one is accepted ever
/// after, and any other refused.
pub proof fn a_binding_is_for_good(store: Store, key: Seq<u8>, value: Seq<u8>, other: Seq<u8>)
    requires
        bound(store, key, value) is Some,
    ensures
        bound(bound(store, key, value)->0, key, value) == bound(store, key, value),
        other != value ==> bound(bound(store, key, value)->0, key, other) is None,
{
}

/// A store whose layout was recorded once is accepted ever after, unchanged.
pub proof fn a_recorded_layout_fits(store: Store)
    requires
        layout_fits(store),
    ensures
        layout_fits(stamped(store)),
        stamped(stamped(store)) == stamped(store),
        stamped(store).records == store.records,
        stamped(store).chunks == store.chunks,
{
    be32_round_trips(FORMAT_VERSION);
}

/// Bytes put are the bytes got.
pub proof fn what_is_put_raw_is_got(
    chain: &FilterChain,
    id: LockerId,
    key: Seq<u8>,
    value: Seq<u8>,
    before: Store,
    after: Store,
    found: Option<Vec<u8>>,
)
    requires
        one_stored(chain, id, key, value, before, after),
        chain.keeps(packed(value)),
        finds(chain, after.lookup(Table::Records, stored(id, key)), found),
    ensures
        found matches Some(v) && v@ == value,
{
    let record = choose|record: Seq<u8>| #[trigger]
        chain.seals(packed(value), record) && after == before.after(record_put(id, key, record));
    assert(chain.seals(packed(value), record));
    assert(chain.opened(record) == Some(packed(value)));
    a_payload_reads_back(value);
    if let Some(v) = found {
        a_payload_reads_back(v@);
        assert(packed(v@) == packed(value));
    }
}

/// Removing some records leaves every other as it was, and what was removed is
/// gone.
proof fn removing_spares_the_rest(
    store: Store,
    id: LockerId,
    keys: Seq<Seq<u8>>,
    chain: FilterChain,
    k: Seq<u8>,
    next: u64,
)
    requires
        tidy(store.records, next),
    ensures
        ({
            let after = store.after_all(removals(locker_rows(store.records, id), id, keys));
            &&& !keys.contains(k) ==> unmoved(chain, store, after, stored(id, k))
            &&& keys.contains(k) ==> !after.records.contains_key(stored(id, k))
        }),
    decreases keys.len(),
{
    let rows = locker_rows(store.records, id);
    let at = stored(id, k);
    if keys.len() == 0 {
        assert(store.after_all(Seq::<Change>::empty()) == store);
    } else {
        let short = keys.drop_last();
        let v = keys.last();
        let gone_at = stored(id, v);
        removing_spares_the_rest(store, id, short, chain, k, next);
        removing_spares_the_rest(store, id, short, chain, v, next);
        let so_far = removals(rows, id, short);
        let mid = store.after_all(so_far);
        assert(keys.contains(k) <==> short.contains(k) || k == v) by {
            if keys.contains(k) {
                let i = keys.index_of(k);
                if i < short.len() {
                    assert(short[i] == k);
                }
            }
            if short.contains(k) {
                let i = short.index_of(k);
                assert(keys[i] == k);
            }
            assert(keys[keys.len() - 1] == v);
        }
        storing_round_trips(id, k);
        storing_round_trips(id, v);
        if rows.contains_key(v) {
            let list = match parsed(rows[v]) {
                Some(p) => so_far.push(gc(p)),
                None => so_far,
            };
            after_all_pushes(store, list, record_delete(id, v));
            let dropped = store.after_all(list);
            if let Some(p) = parsed(rows[v]) {
                after_all_pushes(store, so_far, gc(p));
                dropping_stays_inside(mid, p);
                assert(owns(store.records, gone_at) && owned(store.records, gone_at) == p.value_id);
                if k != v && owns(store.records, at) {
                    let q = parsed(store.records[at])->0;
                    untouched_chunks_read_the_same(
                        chain,
                        mid.chunks,
                        dropped.chunks,
                        q.value_id,
                        p.value_id,
                        q.n_chunks as int,
                    );
                }
            }
        } else if k == v && !short.contains(k) {
            assert(unmoved(chain, store, mid, at));
        }
    }
}

/// Quarantining what a survey found heals a locker: afterwards nothing in it
/// is unreadable, and every record that was not named is as it was.
pub proof fn quarantine_heals(
    store: Store,
    id: LockerId,
    chain: FilterChain,
    bad: Seq<Seq<u8>>,
    next: u64,
    other: Seq<u8>,
)
    requires
        tidy(store.records, next),
        forall|k: Seq<u8>| #[trigger]
            unreadable(locker_rows(store.records, id), store.chunks, &chain).contains(k) ==> bad.contains(k),
    ensures
        ({
            let rows = locker_rows(store.records, id);
            let after = store.after_all(removals(rows, id, bad));
            &&& unreadable(locker_rows(after.records, id), after.chunks, &chain) == Set::<Seq<u8>>::empty()
            &&& !bad.contains(other) ==> unmoved(chain, store, after, stored(id, other))
        }),
{
    let rows = locker_rows(store.records, id);
    let after = store.after_all(removals(rows, id, bad));
    assert forall|k: Seq<u8>| !(#[trigger] unreadable(locker_rows(after.records, id), after.chunks, &chain).contains(
        k,
    )) by {
        removing_spares_the_rest(store, id, bad, chain, k, next);
        if !bad.contains(k) {
            assert(!unreadable(rows, store.chunks, &chain).contains(k));
        }
    }
    assert(unreadable(locker_rows(after.records, id), after.chunks, &chain) =~= Set::<Seq<u8>>::empty());
    removing_spares_the_rest(store, id, bad, chain, other, next);
}

/// A result that says the bank is closed.
pub open spec fn is_closed_error<X>(r: Result<X>) -> bool {
    r matches Err(e) && e is Closed
}

/// An answer that says the bank is closed.
pub open spec fn says_closed(answer: Answer) -> bool {
    match answer {
        Answer::Value(r) => is_closed_error(r),
        Answer::Done(r) => is_closed_error(r),
        Answer::Keys(r) => is_closed_error(r),
        Answer::Values(r) => is_closed_error(r),
        Answer::Entries(r) => is_closed_error(r),
        Answer::Flag(r) => is_closed_error(r),
        Answer::Count(r) => is_closed_error(r),
        Answer::Usage(r) => is_closed_error(r),
    }
}

/// Closing a bank lets go of its store: whatever that is asked from now on, it
/// refuses.
pub proof fn closing_shuts_the_store<B: Backend>(
    bank: Bank<B>,
    open: Seq<Resident>,
    left: Seq<Resident>,
    after: Bank<B>,
)
    requires
        !bank.closed,
        bank.closing_gives(open, Ok(()), left, after),
    ensures
        after.closed,
        after.shared.backend.shut(),
{
}

/// A closed bank opens no locker, lists, weighs, surveys, mends and erases none:
/// every one of these says that it is closed, and leaves it as it was.
pub proof fn a_closed_bank_refuses<B: Backend, T: Value>(
    bank: Bank<B>,
    name: &str,
    config: LockerConfig,
    keys: Seq<Seq<u8>>,
    after: Bank<B>,
)
    requires
        bank.closed,
    ensures
        forall|r: Result<Locker<T>>| #[trigger]
            opens_eager(bank, name, config, r, after) ==> is_closed_error(r) && after == bank,
        forall|r: Result<LazyLocker<T>>| #[trigger]
            opens_lazy(bank, name, config, r, after) ==> is_closed_error(r) && after == bank,
        forall|r: Result<bool>| #[trigger] bank.exists_gives(name.spec_bytes(), r) ==> is_closed_error(r),
        forall|r: Result<Vec<String>>| #[trigger] bank.names_give(r) ==> is_closed_error(r),
        forall|r: Result<u64>| #[trigger]
            bank.weighing_gives(name.spec_bytes(), r, after) ==> is_closed_error(r) && after == bank,
        forall|r: Result<Vec<Vec<u8>>>| #[trigger]
            bank.survey_gives(name.spec_bytes(), r, after) ==> is_closed_error(r) && after == bank,
        forall|r: Result<usize>| #[trigger]
            bank.quarantine_gives(name@, keys, r, after) ==> is_closed_error(r) && after == bank,
        forall|r: Result<bool>| #[trigger] bank.erasing_gives(name@, r, after) ==> is_closed_error(r) && after == bank,
        forall|r: Result<Option<Usage>>| #[trigger] bank.usage_gives(r) ==> is_closed_error(r),
{
}

/// A closed bank answers every request that it is closed, whatever is asked of
/// it, and leaves itself and the open lockers as they were.
pub proof fn a_closed_bank_answers_closed<B: Backend>(
    bank: Bank<B>,
    open: Seq<Resident>,
    job: Job,
    answer: Answer,
    left: Seq<Resident>,
    after: Bank<B>,
)
    requires
        bank.closed,
        answers_job(bank, open, job, answer, left, after),
    ensures
        says_closed(answer),
        after == bank,
        left == open,
{
}

/// A lazy locker that outlives its bank stops working: what it has not staged
/// it cannot read, and no write of its own lands. Each says that the store is
/// closed, unless the value itself is refused first.
pub proof fn a_surviving_lazy_locker_refuses<B: Backend, T: Value>(
    l: LazyLocker<T>,
    shared: Shared<B>,
    key: Seq<u8>,
    value: &T,
    list: Seq<Move>,
    after: LazyLocker<T>,
    now: Shared<B>,
)
    requires
        shared.backend.shut(),
        !l.res.inner.closed,
        l.res.inner.config.batch() is None,
        reads(moves(l.res.staged@), key) is None,
        value.packs(),
        list.len() > 0,
    ensures
        forall|r: Result<Option<T>>| #[trigger]
            lazy::read_through(l, shared, key, r, after, now) ==> is_closed_error(r),
        forall|r: Result<()>| #[trigger]
            lazy::put_through(l, shared, key, value, r, after, now) ==> (r matches Err(e) && l.res.inner.shut_out(e)),
        forall|r: Result<()>| #[trigger]
            lazy::delete_through(l, shared, key, r, after, now) ==> (r matches Err(e) && l.res.inner.shut_out(e)),
        forall|r: Result<()>| #[trigger]
            lazy::clear_through(l, shared, r, after, now) ==> (r matches Err(e) && l.res.inner.shut_out(e)),
        forall|r: Result<()>| #[trigger]
            lazy::commit_through(l, shared, list, r, after, now) ==> (r matches Err(e) && l.res.inner.shut_out(e)),
{
}

/// An eager locker that outlives its bank keeps what it holds, and no write of
/// its own lands.
pub proof fn a_surviving_eager_locker_refuses<B: Backend, T: Value>(
    l: Locker<T>,
    shared: Shared<B>,
    key: Seq<u8>,
    value: &T,
    m: Move,
    change: Change,
    list: Seq<Move>,
    after: Locker<T>,
    now: Shared<B>,
)
    requires
        shared.backend.shut(),
        !l.res.inner.closed,
        l.res.inner.config.batch() is None,
        value.packs(),
        list.len() > 0,
    ensures
        forall|r: Result<Arc<T>>| #[trigger]
            eager::put_through(l, shared, key, value, r, after, now) ==> (r matches Err(e) && l.res.inner.shut_out(e))
                && after.values == l.values,
        forall|r: Result<()>| #[trigger]
            eager::removal_through(l, shared, m, change, r, after, now) ==> is_closed_error(r) && after.values == l.values,
        forall|r: Result<()>| #[trigger]
            eager::commit_through(l, shared, list, r, after, now) ==> (r matches Err(e) && l.res.inner.shut_out(e))
                && after.values == l.values,
{
}

/// Whether the lockers at hand are all that are open: every live handle is one
/// of theirs.
pub open spec fn all_at_hand<B: Backend>(bank: Bank<B>, open: Seq<Resident>) -> bool {
    forall|s: int|
        0 <= s < bank.shared.handles.seats().len() ==> exists|i: int|
            0 <= i < open.len() && open[i].inner.ticket == (#[trigger] bank.shared.handles.seats()[s]).ticket
                && #[trigger] seated(open, i)
}

/// A place in a list of lockers.
pub open spec fn seated(open: Seq<Resident>, i: int) -> bool {
    0 <= i < open.len()
}

/// Once everything open was flushed without an error, no live handle has a
/// write staged, and what is stored is durable.
pub proof fn a_flush_of_all_leaves_nothing_staged<B: Backend>(
    bank: Bank<B>,
    open: Seq<Resident>,
    r: Result<()>,
    left: Seq<Resident>,
    after: Bank<B>,
)
    requires
        bank.flushing_gives(open, r, left, after),
        all_at_hand(bank, open),
        r is Ok,
    ensures
        all_at_hand(bank, left),
        forall|i: int| 0 <= i < left.len() ==> (#[trigger] left[i]).staged@.len() == 0,
        after.shared.backend.forced(),
{
    let (states, outcomes) = choose|states: Seq<Shared<B>>, outcomes: Seq<Result<()>>| #[trigger]
        flushed_in_turn(open, states, outcomes, left) && states[0] == bank.shared && forced_out(
            states.last(),
            outcomes,
            r,
            after.shared,
        );
    assert forall|i: int| 0 <= i < left.len() implies (#[trigger] left[i]).staged@.len() == 0 && left[i].inner.ticket
        == open[i].inner.ticket by {
        all_went_well(outcomes, states.last(), r, after.shared, i);
        assert(flushed_at(open, states, outcomes, left, i));
    }
    assert forall|s: int| 0 <= s < bank.shared.handles.seats().len() implies exists|i: int|
        0 <= i < left.len() && left[i].inner.ticket == (#[trigger] bank.shared.handles.seats()[s]).ticket
            && #[trigger] seated(left, i) by {
        let i = choose|i: int|
            0 <= i < open.len() && open[i].inner.ticket == bank.shared.handles.seats()[s].ticket && #[trigger]
                seated(open, i);
        assert(left[i].inner.ticket == open[i].inner.ticket);
        assert(seated(left, i));
    }
}

/// The same of closing the bank.
pub proof fn a_close_leaves_nothing_staged<B: Backend>(
    bank: Bank<B>,
    open: Seq<Resident>,
    r: Result<()>,
    left: Seq<Resident>,
    after: Bank<B>,
)
    requires
        bank.closing_gives(open, r, left, after),
        all_at_hand(bank, open),
        !bank.closed,
        r is Ok,
    ensures
        all_at_hand(bank, left),
        forall|i: int| 0 <= i < left.len() ==> (#[trigger] left[i]).staged@.len() == 0,
        after.shared.backend.forced(),
{
    let (flushed, mid) = choose|flushed: Result<()>, mid: Bank<B>| #[trigger]
        bank.flushing_gives(open, flushed, left, mid) && {
            &&& flushed is Err ==> r == flushed
            &&& mid.shared.backend.forced() ==> after.shared.backend.forced()
        };
    a_flush_of_all_leaves_nothing_staged(bank, open, flushed, left, mid);
}

/// Where no failure is reported, there was none.
proof fn all_went_well<B: Backend>(
    outcomes: Seq<Result<()>>,
    shared: Shared<B>,
    r: Result<()>,
    now: Shared<B>,
    n: int,
)
    requires
        forced_out(shared, outcomes, r, now),
        r is Ok,
        0 <= n < outcomes.len(),
    ensures
        outcomes[n] is Ok,
    decreases n,
{
    if outcomes[n] is Err {
        assert forall|j: int| 0 <= j < n implies (#[trigger] outcomes[j]) is Ok by {
            all_went_well(outcomes, shared, r, now, j);
        }
        assert(first_failure(outcomes, n));
    }
}

/// A name keeps the type and the chain it was first opened with: opened again as
/// the same, it is the same locker, and nothing more is recorded; as another type,
/// or under another chain, it is refused.
pub proof fn a_name_keeps_its_type_and_chain(
    store: Store,
    known: Map<Seq<u8>, u32>,
    name: Seq<u8>,
    tag: Seq<u8>,
    chain_id: u8,
    later: Store,
    known_later: Map<Seq<u8>, u32>,
    other_tag: Seq<u8>,
    other_chain: u8,
)
    requires
        known.contains_key(name) ==> number_at(store, locker_key(name)) == Some(known[name]),
        crate::bank::readied(store, known, name, tag, chain_id) matches Some((_, s)) && later.meta == s.meta,
        known_later.contains_key(name) ==> number_at(later, locker_key(name)) == Some(known_later[name]),
    ensures
        crate::bank::readied(store, known, name, tag, chain_id) matches Some((id, _)) && crate::bank::readied(
            later,
            known_later,
            name,
            tag,
            chain_id,
        ) == Some((id, later)),
        other_tag != tag || other_chain != chain_id ==> crate::bank::readied(
            later,
            known_later,
            name,
            other_tag,
            other_chain,
        ) is None,
{
    crate::handle_laws::what_is_ready_stays_ready(store, known, name, tag, chain_id, later, known_later);
    let (id, _) = crate::bank::readied(later, known_later, name, tag, chain_id)->0;
    assert(later.lookup(Table::Meta, schema_key(id)) == Some(tag)) by {
        if later.lookup(Table::Meta, schema_key(id)) is None {
            let put = crate::bank::meta_put(schema_key(id), tag);
            assert(later.after(put).lookup(Table::Meta, schema_key(id)) == Some(tag));
            meta_keys_are_apart(name, id);
        }
    }
    assert(later.lookup(Table::Meta, crate::meta::chain_key(id)) == Some(seq![chain_id])) by {
        if later.lookup(Table::Meta, crate::meta::chain_key(id)) is None {
            let put = crate::bank::meta_put(crate::meta::chain_key(id), seq![chain_id]);
            assert(later.after(put).lookup(Table::Meta, crate::meta::chain_key(id)) == Some(seq![chain_id]));
        }
    }
    assert(seq![chain_id][0] == chain_id);
    assert(seq![other_chain][0] == other_chain);
}

/// A name that has an id keeps it, and one that has none gets one that no other
/// name has: the next from the counter, which moves on. Nothing else in the store
/// changes.
pub proof fn a_name_is_given_the_next_id(store: Store, known: Map<Seq<u8>, u32>, name: Seq<u8>, other: Seq<u8>)
    requires
        named(store, known, name) is Some,
        known.contains_key(name) ==> number_at(store, locker_key(name)) == Some(known[name]),
    ensures
        named(store, known, name) matches Some((id, after)) && {
            &&& number_at(after, locker_key(name)) == Some(id)
            &&& store.lookup(Table::Meta, locker_key(name)) is Some ==> after == store
            &&& store.lookup(Table::Meta, locker_key(name)) is None ==> Some(id) == next_id_of(store) && next_id_of(after)
                == Some((id + 1) as u32)
            &&& other != name ==> number_at(after, locker_key(other)) == number_at(store, locker_key(other))
            &&& after.records == store.records
            &&& after.chunks == store.chunks
        },
{
    let (id, _) = named(store, known, name)->0;
    if store.lookup(Table::Meta, locker_key(name)) is None {
        registering(store, name, id);
    }
}

/// A store of another layout is refused, whatever it holds besides.
pub proof fn another_layout_is_refused(store: Store, version: u32)
    requires
        store.lookup(Table::Meta, crate::meta::format_version_key()) == Some(crate::bytes::be32(version)),
    ensures
        layout_fits(store) <==> version == 1,
{
    be32_round_trips(version);
}

/// A locker exists exactly where its name is among those listed.
pub proof fn a_locker_exists_where_it_is_listed<B: Backend>(
    bank: Bank<B>,
    name: Seq<u8>,
    there: bool,
    names: Vec<String>,
)
    requires
        bank.wf(),
        bank.store().is_finite(),
        bank.exists_gives(name, Ok::<bool, crate::error::Error>(there)),
        bank.names_give(Ok::<Vec<String>, crate::error::Error>(names)),
    ensures
        there <==> crate::locker::listing::spelt(names@).contains(name),
{
    crate::maintenance_laws::every_registered_name_is_listed(bank, names);
    if bank.registry@.contains_key(name) {
        assert(number_at(bank.store(), locker_key(name)) is Some);
    }
}

/// A locker that this bank opened is surveyed with the chain it was opened with.
pub proof fn an_opened_locker_is_surveyed_with_its_own_chain<B: Backend, T: Value>(
    before: Bank<B>,
    name: &str,
    config: LockerConfig,
    inner: crate::locker::inner::Inner,
    after: Bank<B>,
)
    requires
        crate::bank::seated::<B, T>(before, name, config, inner, after),
    ensures
        after.chain_behind(inner.id, name.spec_bytes()) matches Some(chain) && *chain == *inner.chain,
{
    let id = inner.id;
    let chain = before.chain_of(&config);
    let (_, first) = named(before.store(), before.registry@, name.spec_bytes())->0;
    let second = bound(first, schema_key(id), vstd::utf8::encode_utf8(T::label()))->0;
    assert(bound(second, crate::meta::chain_key(id), seq![chain.id_spec()]) == Some(after.store()));
    assert(after.store().lookup(Table::Meta, crate::meta::chain_key(id)) == Some(seq![chain.id_spec()]));
}

/// A name that nobody has taken can be had, as any type and under any chain, while
/// there are ids left: it gets the next one, and is bound to the type and the chain
/// it was asked for.
pub proof fn a_new_name_can_be_had(
    store: Store,
    known: Map<Seq<u8>, u32>,
    name: Seq<u8>,
    tag: Seq<u8>,
    chain_id: u8,
    id: u32,
)
    requires
        !known.contains_key(name),
        store.lookup(Table::Meta, locker_key(name)) is None,
        next_id_of(store) == Some(id),
        id < u32::MAX,
        store.lookup(Table::Meta, schema_key(id)) is None,
        store.lookup(Table::Meta, crate::meta::chain_key(id)) is None,
    ensures
        crate::bank::readied(store, known, name, tag, chain_id) matches Some((given, after)) && given == id && number_at(
            after,
            locker_key(name),
        ) == Some(id) && after.lookup(Table::Meta, schema_key(id)) == Some(tag) && after.lookup(
            Table::Meta,
            crate::meta::chain_key(id),
        ) == Some(seq![chain_id]) && after.records == store.records && after.chunks == store.chunks,
{
    registering(store, name, id);
    meta_keys_are_apart(name, id);
    let first = store.after_all(crate::bank::registration(name, id));
    assert(first.lookup(Table::Meta, schema_key(id)) is None);
    let second = bound(first, schema_key(id), tag)->0;
    assert(second.lookup(Table::Meta, crate::meta::chain_key(id)) is None);
    let third = bound(second, crate::meta::chain_key(id), seq![chain_id])->0;
    assert(third.lookup(Table::Meta, locker_key(name)) == first.lookup(Table::Meta, locker_key(name)));
    assert(number_at(third, locker_key(name)) == number_at(first, locker_key(name)));
}

/// A locker that is open is neither erased nor quarantined: the request is refused
/// and nothing changes.
pub proof fn an_open_locker_is_left_alone<B: Backend>(
    bank: Bank<B>,
    name: Seq<char>,
    i: int,
    keys: Seq<Seq<u8>>,
    erased: Result<bool>,
    removed: Result<usize>,
    after_erasing: Bank<B>,
    after_removing: Bank<B>,
)
    requires
        0 <= i < bank.shared.handles.seats().len(),
        bank.shared.handles.seats()[i].name == vstd::utf8::encode_utf8(name),
        bank.erasing_gives(name, erased, after_erasing),
        bank.quarantine_gives(name, keys, removed, after_removing),
    ensures
        erased is Err && after_erasing == bank,
        removed is Err && after_removing == bank,
{
}

/// A locker that defers its writes is opened once at a time: while it is open, or
/// while the one that is open defers, another handle on its name is refused. A
/// name that nobody has open is never refused for that.
pub proof fn a_deferred_locker_is_opened_once<B: Backend, T: Value>(
    bank: Bank<B>,
    name: &str,
    config: LockerConfig,
    i: int,
    eager: Result<Locker<T>>,
    lazy: Result<LazyLocker<T>>,
    after_eager: Bank<B>,
    after_lazy: Bank<B>,
)
    requires
        opens_eager(bank, name, config, eager, after_eager),
        opens_lazy(bank, name, config, lazy, after_lazy),
    ensures
        0 <= i < bank.shared.handles.seats().len() && bank.shared.handles.seats()[i].name == name.spec_bytes() && (
        config.batch() is Some || bank.shared.handles.seats()[i].defers) ==> eager is Err && lazy is Err,
        (forall|j: int|
            0 <= j < bank.shared.handles.seats().len() ==> (#[trigger] bank.shared.handles.seats()[j]).name
                != name.spec_bytes()) ==> bank.admits(name.spec_bytes(), &config),
        config.batch() is None && (forall|j: int|
            0 <= j < bank.shared.handles.seats().len() && (#[trigger] bank.shared.handles.seats()[j]).name
                == name.spec_bytes() ==> !bank.shared.handles.seats()[j].defers) ==> bank.admits(
            name.spec_bytes(),
            &config,
        ),
{
}

/// Only a clear yes keeps the data: where the platform always does, or said so.
pub proof fn only_a_clear_yes_keeps_the_data(said: crate::bank::Keeping, r: Result<bool>)
    requires
        crate::bank::keeping_gives(said, r),
    ensures
        r == Ok::<bool, crate::error::Error>(true) <==> said is Always || said == crate::bank::Keeping::Answered(
            Some(true),
        ),
        r is Err <==> said is Failed,
{
}

/// One failure does not stop the rest: every locker that is open is flushed, as if
/// it were the only one, and where one of them failed that is reported.
pub proof fn one_failure_does_not_stop_the_rest<B: Backend>(
    bank: Bank<B>,
    open: Seq<Resident>,
    r: Result<()>,
    left: Seq<Resident>,
    after: Bank<B>,
    i: int,
)
    requires
        bank.flushing_gives(open, r, left, after),
        !bank.closed,
        0 <= i < open.len(),
    ensures
        exists|shared: Shared<B>, ok: bool, now: Shared<B>| #[trigger]
            crate::locker::resident::flush_gives(open[i], shared, ok, left[i], now) && (!ok ==> r is Err),
{
    let (states, outcomes) = choose|states: Seq<Shared<B>>, outcomes: Seq<Result<()>>| #[trigger]
        flushed_in_turn(open, states, outcomes, left) && states[0] == bank.shared && forced_out(
            states.last(),
            outcomes,
            r,
            after.shared,
        );
    assert(flushed_at(open, states, outcomes, left, i));
    if r is Ok {
        all_went_well(outcomes, states.last(), r, after.shared, i);
    }
    assert(crate::locker::resident::flush_gives(open[i], states[i], outcomes[i] is Ok, left[i], states[i + 1]));
}

} // verus!
