//! What a locker gives back of what it was given, from one call to the next:
//! a value put is the value got, at once through the handle that staged it and
//! through every handle once it is stored, and what was removed is gone.

use vstd::prelude::*;

use super::batch::{a_staged_write_is_read, later_writes_win, latest, moves, names_of, reads, removed, updates_but, weighed, wipes, Move};
use super::batch_laws::{a_landed_batch_reads_as_staged, kept, left_with};
use super::chunk::FLAG_POSTCARD;
use super::inner::{clears, gc_list, locker_rows, readable, record_delete, Shared};
use super::laws::{a_clear_empties_only_its_locker, our_chain, owned, owns, survives};
use super::lazy::{
    clear_landed, clear_through, commit_through, delete_landed, delete_through, flush_through, listing_answers,
    put_landed, put_through, read_through, staged_one, value_answers, LazyLocker,
};
use super::lazy_laws::{
    a_budget_spares_the_rest, a_written_key_is_no_victim, gc_spares_records, landed_keys, only_the_last_counts,
    what_is_put_is_got,
};
use super::resident::{batch_landed, clock_runs, write_landed, Budget, Resident};
use super::staging_laws::{
    bears_on, decides, the_last_write_of_a_key_decides, what_no_write_bears_on_is_left_alone,
};
use super::transaction::batched;
use crate::backend::api::{Backend, Change, Store};
use crate::codec::value::Value;
use crate::error::Result;
use crate::key::{stored, storing_round_trips, LockerId};
use crate::sorted::views;

verus! {

/// A lazy locker in use: its index is there, its chunks hold something, only a
/// locker that defers has anything staged, and the store it shares is tidy.
pub open spec fn in_use<B: Backend, T>(l: LazyLocker<T>, shared: Shared<B>) -> bool {
    &&& l.res.mode is Lazy
    &&& l.res.index is Some
    &&& l.res.inner.config.chunk_size > 0
    &&& l.res.inner.config.batch() is None ==> l.res.staged@.len() == 0
    &&& shared.is_tidy()
    &&& shared.backend.store().is_finite()
}

/// Nothing stands in the way of a read: the store answers, and where reads are
/// counted the clock has not run out.
pub open spec fn reads_freely<B: Backend, T>(l: LazyLocker<T>, shared: Shared<B>) -> bool {
    shared.backend.answers() && (l.res.lru is None || clock_runs(shared))
}

/// `r` is a payload found, or nothing.
pub open spec fn gives<T: Value>(r: Result<Option<T>>, what: Option<Seq<u8>>) -> bool {
    match what {
        Some(payload) => r matches Ok(Some(w)) && w.payload() == payload,
        None => r matches Ok(None),
    }
}

/// A key a batch leaves with a payload is one of those it weighs.
pub(crate) proof fn what_is_written_is_weighed(list: Seq<Move>, key: Seq<u8>)
    requires
        latest(list).contains_key(key) && latest(list)[key] is Some,
    ensures
        names_of(weighed(list)).contains(key),
    decreases list.len(),
{
    if list.len() > 0 {
        let short = list.drop_last();
        let so_far = weighed(short);
        let all = weighed(list);
        match list.last() {
            Move::Put { key: k, payload } => {
                if k == key {
                    assert(all.last() == (key, payload.len() as u64));
                    assert(names_of(all)[all.len() - 1] == key);
                } else {
                    what_is_written_is_weighed(short, key);
                    striking_spares_the_rest(so_far, k, key);
                    let i = names_of(updates_but(so_far, k)).index_of(key);
                    assert(names_of(all)[i] == key);
                }
            },
            Move::Delete { key: k } => {
                what_is_written_is_weighed(short, key);
                striking_spares_the_rest(so_far, k, key);
            },
            Move::Clear => {},
        }
    }
}

/// Striking one key off some updates leaves the others.
proof fn striking_spares_the_rest(updates: Seq<(Seq<u8>, u64)>, gone: Seq<u8>, key: Seq<u8>)
    requires
        names_of(updates).contains(key),
        key != gone,
    ensures
        names_of(updates_but(updates, gone)).contains(key),
    decreases updates.len(),
{
    if updates.len() > 0 {
        let short = updates.drop_last();
        let rest = updates_but(short, gone);
        let all = updates_but(updates, gone);
        let i = names_of(updates).index_of(key);
        if i == updates.len() - 1 {
            assert(all[all.len() - 1].0 == key);
            assert(names_of(all)[all.len() - 1] == key);
        } else {
            assert(names_of(short)[i] == key);
            striking_spares_the_rest(short, gone, key);
            let j = names_of(rest).index_of(key);
            assert(names_of(all)[j] == key);
        }
    }
}

/// Once a batch has landed, whatever its budget made it shed, the store holds
/// every key the batch touched as its last write left it.
pub proof fn a_landed_batch_is_kept<B: Backend>(
    before: Resident,
    shared: Shared<B>,
    list: Seq<Move>,
    b: Budget,
    store: Store,
    next: u64,
    key: Seq<u8>,
    what: Option<Seq<u8>>,
)
    requires
        batch_landed(before, shared, list, b, store, next),
        before.mode is Lazy,
        before.inner.config.chunk_size > 0,
        shared.is_tidy(),
        shared.backend.store().is_finite(),
        reads(list, key) == Some(what),
        what matches Some(payload) ==> survives(&before.inner, payload, FLAG_POSTCARD),
    ensures
        kept(*before.inner.chain, store, before.inner.id, key, what),
{
    reveal(batch_landed);
    let was = shared.backend.store();
    let id = before.inner.id;
    let first = shared.next_id();
    let out = choose|out: Seq<Change>|
        {
            &&& #[trigger] batched(before.inner, before.mode, was.records, list, first, next, out)
            &&& write_landed(
                before.lru,
                id,
                was,
                shared.next_tick(),
                out,
                weighed(list),
                removed(list),
                wipes(list),
                names_of(weighed(list)),
                b,
                store,
            )
        };
    let base = was.after_all(out);
    a_landed_batch_reads_as_staged(&before.inner, was, list, first, next, out, key);
    assert(left_with(&before.inner, base, key, what, first));
    let keep = names_of(weighed(list));
    match what {
        None => {
            landed_keys(
                before.lru,
                id,
                was,
                shared.next_tick(),
                out,
                weighed(list),
                removed(list),
                wipes(list),
                keep,
                b,
                store,
            );
            assert(!locker_rows(base.records, id).dom().contains(key));
            assert(!locker_rows(store.records, id).dom().contains(key));
        },
        Some(payload) => {
            what_is_written_is_weighed(list, key);
            a_written_key_is_no_victim(
                before.lru,
                id,
                was,
                shared.next_tick(),
                out,
                weighed(list),
                removed(list),
                wipes(list),
                keep,
                b,
                store,
                key,
            );
            let victims = views(b.plan.victims@);
            let k = stored(id, key);
            assert forall|i: int| 0 <= i < victims.len() implies #[trigger] stored(id, victims[i]) != k by {
                storing_round_trips(id, victims[i]);
                storing_round_trips(id, key);
                assert(victims.contains(victims[i]));
            }
            assert forall|i: int|
                0 <= i < victims.len() && owns(was.records, #[trigger] stored(id, victims[i])) && owns(
                    base.records,
                    k,
                ) implies owned(base.records, k) != owned(was.records, stored(id, victims[i])) by {
                assert(owned(was.records, stored(id, victims[i])) < first);
            }
            a_budget_spares_the_rest(
                before.lru,
                id,
                was,
                shared.next_tick(),
                out,
                weighed(list),
                removed(list),
                wipes(list),
                keep,
                b,
                store,
                our_chain(&before.inner),
                k,
            );
        },
    }
}

/// What a store holds is what every handle on the locker gets, unless it has a
/// write of its own staged over it.
pub proof fn what_is_kept_is_got<B: Backend, T: Value>(
    l: LazyLocker<T>,
    shared: Shared<B>,
    key: Seq<u8>,
    what: Option<T>,
    r: Result<Option<T>>,
    after: LazyLocker<T>,
    now: Shared<B>,
)
    requires
        read_through(l, shared, key, r, after, now),
        !l.res.inner.closed,
        reads_freely(l, shared),
        reads(moves(l.res.staged@), key) is None,
        what matches Some(value) ==> value.packs(),
        kept(
            *l.res.inner.chain,
            shared.backend.store(),
            l.res.inner.id,
            key,
            match what {
                Some(value) => Some(value.payload()),
                None => None,
            },
        ),
    ensures
        gives(
            r,
            match what {
                Some(value) => Some(value.payload()),
                None => None,
            },
        ),
{
}

/// A staged write is what its own handle gets, flushed or not.
pub proof fn what_is_staged_is_got<B: Backend, T: Value>(
    l: LazyLocker<T>,
    shared: Shared<B>,
    key: Seq<u8>,
    what: Option<T>,
    r: Result<Option<T>>,
    after: LazyLocker<T>,
    now: Shared<B>,
)
    requires
        read_through(l, shared, key, r, after, now),
        !l.res.inner.closed,
        reads_freely(l, shared),
        what matches Some(value) ==> value.packs(),
        reads(moves(l.res.staged@), key) == Some(
            match what {
                Some(value) => Some(value.payload()),
                None => None,
            },
        ),
    ensures
        gives(
            r,
            match what {
                Some(value) => Some(value.payload()),
                None => None,
            },
        ),
{
}

/// With nothing staged, no key reads through it.
proof fn nothing_staged_reads_as_nothing(l: Seq<super::batch::Pending>, key: Seq<u8>)
    requires
        l.len() == 0,
    ensures
        reads(moves(l), key) is None,
{
    assert(moves(l) =~= Seq::<Move>::empty());
}

/// A value that was put is the value that is got next, whether the put was
/// committed, staged, or the one that filled a batch.
pub proof fn a_put_is_got_back<B: Backend, T: Value>(
    before: LazyLocker<T>,
    shared: Shared<B>,
    key: Seq<u8>,
    value: T,
    after: LazyLocker<T>,
    mid: Shared<B>,
    r: Result<Option<T>>,
    last: LazyLocker<T>,
    now: Shared<B>,
)
    requires
        in_use(before, shared),
        put_through(before, shared, key, &value, Ok(()), after, mid),
        survives(&before.res.inner, value.payload(), FLAG_POSTCARD),
        read_through(after, mid, key, r, last, now),
        reads_freely(after, mid),
    ensures
        gives(r, Some(value.payload())),
{
    let payload = value.payload();
    let m = Move::Put { key, payload };
    if before.res.inner.config.batch() is Some {
        let list = moves(before.res.staged@).push(m);
        a_staged_write_is_read(moves(before.res.staged@), m, key);
        if after.res.staged@.len() == 0 {
            nothing_staged_reads_as_nothing(after.res.staged@, key);
            let (b, half) = choose|b: Budget, half: Resident|
                {
                    &&& #[trigger] staged_one(before.res, m, half)
                    &&& half.inner.same_but_news(before.res.inner)
                    &&& half.mode == before.res.mode
                    &&& #[trigger] batch_landed(
                        half,
                        shared,
                        list,
                        b,
                        mid.backend.store(),
                        mid.next_id_from(shared.backend.store()),
                    )
                    &&& super::resident::budget_applied(half, shared.backend.store().meta, b, after.res)
                };
            a_landed_batch_is_kept(
                half,
                shared,
                list,
                b,
                mid.backend.store(),
                mid.next_id_from(shared.backend.store()),
                key,
                Some(payload),
            );
            what_is_kept_is_got(after, mid, key, Some(value), r, last, now);
        } else {
            what_is_staged_is_got(after, mid, key, Some(value), r, last, now);
        }
    } else {
        nothing_staged_reads_as_nothing(after.res.staged@, key);
        let b = choose|b: Budget| #[trigger]
            put_landed(before.res, shared, key, payload, b, after.res, mid.backend.store());
        what_is_put_is_got(before.res, shared, key, payload, b, mid.backend.store());
        what_is_kept_is_got(after, mid, key, Some(value), r, last, now);
    }
}

/// What a write that defers leaves a key with is what is got next.
proof fn a_deferred_write_is_got<B: Backend, T: Value>(
    before: LazyLocker<T>,
    shared: Shared<B>,
    m: Move,
    key: Seq<u8>,
    after: LazyLocker<T>,
    mid: Shared<B>,
    r: Result<Option<T>>,
    last: LazyLocker<T>,
    now: Shared<B>,
)
    requires
        in_use(before, shared),
        !before.res.inner.closed,
        before.res.inner.config.batch() is Some,
        after.res.inner.same_but_news(before.res.inner),
        super::lazy::deferred_write(before.res, shared, m, after.res, mid, true),
        reads(moves(before.res.staged@).push(m), key) == Some(None::<Seq<u8>>),
        read_through(after, mid, key, r, last, now),
        reads_freely(after, mid),
    ensures
        gives(r, None),
{
    let list = moves(before.res.staged@).push(m);
    if after.res.staged@.len() == 0 {
        nothing_staged_reads_as_nothing(after.res.staged@, key);
        let (b, half) = choose|b: Budget, half: Resident|
            {
                &&& #[trigger] staged_one(before.res, m, half)
                &&& half.inner.same_but_news(before.res.inner)
                &&& half.mode == before.res.mode
                &&& #[trigger] batch_landed(
                    half,
                    shared,
                    list,
                    b,
                    mid.backend.store(),
                    mid.next_id_from(shared.backend.store()),
                )
                &&& super::resident::budget_applied(half, shared.backend.store().meta, b, after.res)
            };
        a_landed_batch_is_kept(
            half,
            shared,
            list,
            b,
            mid.backend.store(),
            mid.next_id_from(shared.backend.store()),
            key,
            None,
        );
        what_is_kept_is_got(after, mid, key, None, r, last, now);
    } else {
        what_is_staged_is_got(after, mid, key, None, r, last, now);
    }
}

/// A key that was deleted reads as nothing next, committed or staged.
pub proof fn a_deleted_key_is_not_got<B: Backend, T: Value>(
    before: LazyLocker<T>,
    shared: Shared<B>,
    key: Seq<u8>,
    after: LazyLocker<T>,
    mid: Shared<B>,
    r: Result<Option<T>>,
    last: LazyLocker<T>,
    now: Shared<B>,
)
    requires
        in_use(before, shared),
        delete_through(before, shared, key, Ok(()), after, mid),
        read_through(after, mid, key, r, last, now),
        reads_freely(after, mid),
    ensures
        gives(r, None),
{
    let m = Move::Delete { key };
    if before.res.inner.config.batch() is Some {
        a_staged_write_is_read(moves(before.res.staged@), m, key);
        a_deferred_write_is_got(before, shared, m, key, after, mid, r, last, now);
    } else {
        nothing_staged_reads_as_nothing(after.res.staged@, key);
        let b = choose|b: Budget| #[trigger]
            delete_landed(before.res, shared, key, b, after.res, mid.backend.store());
        let was = shared.backend.store();
        let id = before.res.inner.id;
        let prior = before.res.prior_spec(key, shared.trusts(before.res.inner));
        let dropped = gc_list(was.records, id, key, prior)->0;
        let out = dropped.push(record_delete(id, key));
        landed_keys(
            before.res.lru,
            id,
            was,
            shared.next_tick(),
            out,
            Seq::empty(),
            seq![key],
            false,
            Seq::empty(),
            b,
            mid.backend.store(),
        );
        gc_spares_records(was.records, id, key, prior);
        only_the_last_counts(was, dropped, record_delete(id, key));
        assert(!locker_rows(was.after_all(out).records, id).dom().contains(key));
        assert(!locker_rows(mid.backend.store().records, id).dom().contains(key));
        what_is_kept_is_got(after, mid, key, None, r, last, now);
    }
}

/// After a clear every key of the locker reads as nothing, committed or
/// staged.
pub proof fn a_cleared_key_is_not_got<B: Backend, T: Value>(
    before: LazyLocker<T>,
    shared: Shared<B>,
    key: Seq<u8>,
    after: LazyLocker<T>,
    mid: Shared<B>,
    r: Result<Option<T>>,
    last: LazyLocker<T>,
    now: Shared<B>,
)
    requires
        in_use(before, shared),
        clear_through(before, shared, Ok(()), after, mid),
        read_through(after, mid, key, r, last, now),
        reads_freely(after, mid),
    ensures
        gives(r, None),
{
    let m = Move::Clear;
    if before.res.inner.config.batch() is Some {
        a_staged_write_is_read(moves(before.res.staged@), m, key);
        a_deferred_write_is_got(before, shared, m, key, after, mid, r, last, now);
    } else {
        nothing_staged_reads_as_nothing(after.res.staged@, key);
        let b = choose|b: Budget| #[trigger] clear_landed(before.res, shared, b, after.res, mid.backend.store());
        let was = shared.backend.store();
        let id = before.res.inner.id;
        let out = clears(was.records, id);
        landed_keys(
            before.res.lru,
            id,
            was,
            shared.next_tick(),
            out,
            Seq::empty(),
            Seq::empty(),
            true,
            Seq::empty(),
            b,
            mid.backend.store(),
        );
        let other: LockerId = if id == 0 {
            1
        } else {
            0
        };
        a_clear_empties_only_its_locker(was, id, shared.next_id(), our_chain(&before.res.inner), other, Seq::empty());
        assert(!locker_rows(was.after_all(out).records, id).dom().contains(key));
        assert(!locker_rows(mid.backend.store().records, id).dom().contains(key));
        what_is_kept_is_got(after, mid, key, None, r, last, now);
    }
}

/// What a committed transaction, or a bulk write, leaves a key with is what is
/// got next: the payload it wrote last, or nothing.
pub proof fn a_committed_write_is_got<B: Backend, T: Value>(
    before: LazyLocker<T>,
    shared: Shared<B>,
    list: Seq<Move>,
    key: Seq<u8>,
    what: Option<T>,
    after: LazyLocker<T>,
    mid: Shared<B>,
    r: Result<Option<T>>,
    last: LazyLocker<T>,
    now: Shared<B>,
)
    requires
        in_use(before, shared),
        commit_through(before, shared, list, Ok(()), after, mid),
        what matches Some(value) ==> value.packs() && survives(&before.res.inner, value.payload(), FLAG_POSTCARD),
        reads(list, key) == Some(
            match what {
                Some(value) => Some(value.payload()),
                None => None,
            },
        ),
        read_through(after, mid, key, r, last, now),
        reads_freely(after, mid),
    ensures
        gives(
            r,
            match what {
                Some(value) => Some(value.payload()),
                None => None,
            },
        ),
{
    let all = moves(before.res.staged@) + list;
    let left = match what {
        Some(value) => Some(value.payload()),
        None => None,
    };
    later_writes_win(moves(before.res.staged@), list, key);
    nothing_staged_reads_as_nothing(after.res.staged@, key);
    let b = choose|b: Budget|
        {
            &&& #[trigger] batch_landed(
                before.res,
                shared,
                all,
                b,
                mid.backend.store(),
                mid.next_id_from(shared.backend.store()),
            )
            &&& super::lazy::commit_settled(before.res, shared.backend.store(), list, b, after.res)
        };
    a_landed_batch_is_kept(
        before.res,
        shared,
        all,
        b,
        mid.backend.store(),
        mid.next_id_from(shared.backend.store()),
        key,
        left,
    );
    what_is_kept_is_got(after, mid, key, what, r, last, now);
}

/// A flush changes nothing of what its own handle gets: a key that read through
/// the staged batch reads the same from the store.
pub proof fn a_flushed_write_is_got<B: Backend, T: Value>(
    before: LazyLocker<T>,
    shared: Shared<B>,
    key: Seq<u8>,
    what: Option<T>,
    after: LazyLocker<T>,
    mid: Shared<B>,
    r: Result<Option<T>>,
    last: LazyLocker<T>,
    now: Shared<B>,
)
    requires
        in_use(before, shared),
        !before.res.inner.closed,
        flush_through(before.res, shared, true, after.res, mid),
        after.res.inner.same_but_news(before.res.inner),
        what matches Some(value) ==> value.packs() && survives(&before.res.inner, value.payload(), FLAG_POSTCARD),
        reads(moves(before.res.staged@), key) == Some(
            match what {
                Some(value) => Some(value.payload()),
                None => None,
            },
        ),
        read_through(after, mid, key, r, last, now),
        reads_freely(after, mid),
    ensures
        gives(
            r,
            match what {
                Some(value) => Some(value.payload()),
                None => None,
            },
        ),
{
    let list = moves(before.res.staged@);
    let left = match what {
        Some(value) => Some(value.payload()),
        None => None,
    };
    assert(before.res.staged@.len() > 0) by {
        if before.res.staged@.len() == 0 {
            nothing_staged_reads_as_nothing(before.res.staged@, key);
        }
    }
    nothing_staged_reads_as_nothing(after.res.staged@, key);
    let (b, store) = choose|b: Budget, store: Store|
        {
            &&& #[trigger] batch_landed(
                before.res,
                shared,
                list,
                b,
                store,
                mid.next_id_from(shared.backend.store()),
            )
            &&& mid.backend.store() == store
            &&& super::resident::budget_applied(before.res, shared.backend.store().meta, b, after.res)
        };
    a_landed_batch_is_kept(
        before.res,
        shared,
        list,
        b,
        store,
        mid.next_id_from(shared.backend.store()),
        key,
        left,
    );
    what_is_kept_is_got(after, mid, key, what, r, last, now);
}

/// A record that cannot be read is an error to whoever asks for it, never a
/// missing key.
pub proof fn what_cannot_be_read_is_an_error<B: Backend, T: Value>(
    l: LazyLocker<T>,
    shared: Shared<B>,
    key: Seq<u8>,
    r: Result<Option<T>>,
    after: LazyLocker<T>,
    now: Shared<B>,
)
    requires
        read_through(l, shared, key, r, after, now),
        reads(moves(l.res.staged@), key) is None,
        ({
            let rows = locker_rows(shared.backend.store().records, l.res.inner.id);
            rows.contains_key(key) && readable(*l.res.inner.chain, shared.backend.store().chunks, rows[key]) is None
        }),
    ensures
        r is Err,
{
}

/// A listing shows what a get gives: where both succeed, a listed value is the
/// one that is got under its key, staged or stored.
pub proof fn a_listing_agrees_with_a_get<B: Backend, T: Value>(
    l: LazyLocker<T>,
    shared: Shared<B>,
    keys: Seq<Seq<u8>>,
    out: Vec<(Vec<u8>, T)>,
    i: int,
    found: Option<T>,
    after: LazyLocker<T>,
    now: Shared<B>,
)
    requires
        listing_answers(&l.res.inner, &shared.backend, moves(l.res.staged@), keys, Ok(out)),
        0 <= i < keys.len(),
        read_through(l, shared, keys[i], Ok(found), after, now),
    ensures
        found matches Some(value) && value.payload() == out@[i].1.payload(),
{
    reveal(value_answers);
    assert(out@[i].0@ == keys[i]);
    assert(value_answers::<B, T>(
        &l.res.inner,
        &shared.backend,
        moves(l.res.staged@),
        keys[i],
        out@[i].1.payload(),
    ));
}

/// Damage that a read hits is remembered where the locker is set to skip it, and
/// nowhere else: reading what can be read, or what is not there, remembers nothing.
pub proof fn damage_that_was_hit_is_remembered<B: Backend, T: Value>(
    before: LazyLocker<T>,
    shared: Shared<B>,
    key: Seq<u8>,
    r: Result<Option<T>>,
    after: LazyLocker<T>,
    now: Shared<B>,
    other: Seq<u8>,
)
    requires
        read_through(before, shared, key, r, after, now),
        !before.res.inner.closed,
        reads(moves(before.res.staged@), key) is None,
        before.res.lru is None,
    ensures
        before.res.inner.config.on_corrupt is Skip && (r matches Err(e) && e.spec_is_corruption())
            ==> after.corrupt@.contains_key(key),
        r is Ok || before.res.inner.config.on_corrupt is Fail ==> after.corrupt@ == before.corrupt@,
        other != key ==> (after.corrupt@.contains_key(other) <==> before.corrupt@.contains_key(other)),
{
}

/// A transaction reads its own writes: a key it put gives the value it put, one it
/// deleted or cleared away gives nothing, and one it did not touch gives what is
/// stored.
pub proof fn a_transaction_reads_its_own_writes<B: Backend, T: Value>(
    list: Seq<Move>,
    inner: &super::inner::Inner,
    backend: &B,
    key: Seq<u8>,
    r: Result<Option<T>>,
    i: int,
    value: T,
)
    requires
        super::transaction::sees::<B, T>(list, inner, backend, key, r),
        value.packs(),
        decides(list, i, key) || (i < 0 && forall|j: int| 0 <= j < list.len() ==> !bears_on(#[trigger] list[j], key)),
    ensures
        i >= 0 && list[i] == (Move::Put { key, payload: value.payload() }) ==> (r matches Ok(Some(w)) && w.payload()
            == value.payload()),
        i >= 0 && list[i] !is Put ==> (r matches Ok(None)),
        i < 0 ==> super::transaction::loads::<B, T>(inner, backend, key, r),
{
    if i >= 0 {
        the_last_write_of_a_key_decides(list, i, key, Set::empty(), 0);
    } else {
        what_no_write_bears_on_is_left_alone(list, key, Set::empty(), 0);
    }
}

} // verus!
