//! When a write is owed success: on a store that answers, with the default chain
//! and counters that have not run out, whatever is written is stored, unless a
//! record in its way cannot be followed or the value is past what can be counted.

use vstd::prelude::*;

use super::batch::{latest, moves, Move};
use super::batch_laws::latest_is_finite;
use super::chunk::{parsed, pieces_glue_back, points};
use super::eager::{self, Locker};
use super::inner::{locker_rows, Inner, Shared};
use super::lazy::{self, LazyLocker};
use super::resident::{can_land, flush_gives, Resident};
use super::staging_laws::{
    some_write_decides_or_none, the_last_write_of_a_key_decides, what_no_write_bears_on_is_left_alone,
};
use super::transaction::TxMode;
use crate::backend::api::{Backend, Rows};
use crate::codec::value::Value;
use crate::codec::{is_default, stored_most, the_default_chain_adds_little};
use crate::error::{Error, Result};
use crate::key::stored;

verus! {

/// Whether every pointer among the records of a locker can be followed.
pub open spec fn all_followed(rows: Rows) -> bool {
    forall|key: Seq<u8>| #[trigger] rows.contains_key(key) && points(rows[key]) ==> parsed(rows[key]) is Some
}

/// Whether the clock of a bank has moments left, where a locker has a budget.
pub open spec fn has_moments<B: Backend>(res: Resident, shared: Shared<B>) -> bool {
    res.lru is None || (shared.next_tick() matches Some(tick) && tick < u64::MAX)
}

/// Whether so many more values can be numbered.
pub open spec fn has_ids<B: Backend>(shared: Shared<B>, n: int) -> bool {
    shared.values.upcoming(shared.backend.store()) matches Some(id) && id + n < u64::MAX
}

/// Where every pointer can be followed, whatever is in the way can be dropped.
proof fn nothing_is_in_the_way(records: Rows, id: crate::key::LockerId)
    requires
        all_followed(locker_rows(records, id)),
    ensures
        super::resident::legible(records, id),
{
    let rows = locker_rows(records, id);
    assert forall|key: Seq<u8>| #[trigger] super::inner::gc_list(records, id, key, super::inner::Prior::Unknown) is Some by {
        if records.contains_key(stored(id, key)) {
            assert(rows.contains_key(key));
        }
    }
}

/// The default chain takes whatever a payload is cut into.
proof fn a_payload_fits(inner: &Inner, payload: Seq<u8>)
    requires
        is_default(*inner.chain),
        inner.config.chunk_size > 0,
        payload.len() <= u32::MAX,
    ensures
        inner.fits(payload, super::chunk::FLAG_POSTCARD),
{
    pieces_glue_back(payload, inner.config.chunk_size as int);
    assert(inner.chain.takes(payload));
    assert forall|i: int| 0 <= i < super::chunk::pieces(payload, inner.config.chunk_size as int).len() implies inner.chain.takes(
        #[trigger] super::chunk::pieces(payload, inner.config.chunk_size as int)[i],
    ) by {}
}

/// A put succeeds where nothing stands in its way.
pub proof fn an_ordinary_put_succeeds<B: Backend, T: Value>(
    before: LazyLocker<T>,
    shared: Shared<B>,
    key: Seq<u8>,
    value: &T,
    r: Result<()>,
    after: LazyLocker<T>,
    now: Shared<B>,
)
    requires
        lazy::put_through(before, shared, key, value, r, after, now),
        !before.res.inner.closed,
        before.res.inner.config.batch() is None,
        before.res.inner.config.chunk_size > 0,
        is_default(*before.res.inner.chain),
        value.packs(),
        value.payload().len() <= u32::MAX,
        shared.backend.answers(),
        all_followed(locker_rows(shared.backend.store().records, before.res.inner.id)),
        has_moments(before.res, shared),
        value.payload().len() <= before.res.inner.config.chunk_size || has_ids(shared, 0),
    ensures
        r is Ok,
{
    let res = before.res;
    nothing_is_in_the_way(shared.backend.store().records, res.inner.id);
    a_payload_fits(&res.inner, value.payload());
    let prior = res.prior_spec(key, shared.trusts(res.inner));
    assert(super::inner::gc_list(
        shared.backend.store().records,
        res.inner.id,
        key,
        super::inner::Prior::Unknown,
    ) is Some);
    assert(super::inner::gc_list(shared.backend.store().records, res.inner.id, key, prior) is Some);
    assert(lazy::put_can_land(res, shared, key, value.payload()));
}

/// A delete and a clear succeed where nothing stands in their way.
pub proof fn an_ordinary_removal_succeeds<B: Backend, T: Value>(
    before: LazyLocker<T>,
    shared: Shared<B>,
    key: Seq<u8>,
    r: Result<()>,
    after: LazyLocker<T>,
    now: Shared<B>,
)
    requires
        lazy::delete_through(before, shared, key, r, after, now) || lazy::clear_through(before, shared, r, after, now),
        !before.res.inner.closed,
        before.res.inner.config.batch() is None,
        shared.backend.answers(),
        all_followed(locker_rows(shared.backend.store().records, before.res.inner.id)),
        has_moments(before.res, shared),
    ensures
        r is Ok,
{
    let res = before.res;
    nothing_is_in_the_way(shared.backend.store().records, res.inner.id);
    let prior = res.prior_spec(key, shared.trusts(res.inner));
    assert(super::inner::gc_list(
        shared.backend.store().records,
        res.inner.id,
        key,
        super::inner::Prior::Unknown,
    ) is Some);
    assert(super::inner::gc_list(shared.backend.store().records, res.inner.id, key, prior) is Some);
}

/// A batch names no more keys than it has writes.
proof fn a_batch_names_no_more_than_it_writes(list: Seq<Move>)
    ensures
        latest(list).dom().finite(),
        latest(list).dom().len() <= list.len(),
    decreases list.len(),
{
    latest_is_finite(list);
    if list.len() > 0 {
        let short = list.drop_last();
        a_batch_names_no_more_than_it_writes(short);
        match list.last() {
            Move::Put { key, payload } => {
                assert(latest(list).dom() =~= latest(short).dom().insert(key));
            },
            Move::Delete { key } => {
                assert(latest(list).dom() =~= latest(short).dom().insert(key));
            },
            Move::Clear => {
                assert(latest(list).dom() =~= Set::<Seq<u8>>::empty());
            },
        }
    }
}

/// What a batch leaves a key with is what one of its writes put.
proof fn what_is_left_was_written(list: Seq<Move>, key: Seq<u8>)
    requires
        latest(list).contains_key(key),
        latest(list)[key] is Some,
    ensures
        exists|i: int| 0 <= i < list.len() && (#[trigger] list[i]) == (Move::Put { key, payload: latest(list)[key]->0 }),
{
    let i = some_write_decides_or_none(list, key);
    if i >= 0 {
        the_last_write_of_a_key_decides(list, i, key, Set::empty(), 0);
        assert(list[i] == (Move::Put { key, payload: latest(list)[key]->0 }));
    } else {
        what_no_write_bears_on_is_left_alone(list, key, Set::empty(), 0);
    }
}

/// Whether a locker accepts every payload of a batch: a lazy one whatever can be
/// counted, an eager one what is short enough once sealed.
pub open spec fn all_fit(inner: Inner, mode: TxMode, list: Seq<Move>) -> bool {
    forall|i: int|
        0 <= i < list.len() ==> match #[trigger] list[i] {
            Move::Put { payload, .. } => payload.len() <= u32::MAX && (mode is Eager ==> stored_most(payload.len())
                <= inner.config.max_inline),
            _ => true,
        }
}

/// A batch can land where nothing stands in its way.
proof fn an_ordinary_batch_can_land<B: Backend>(res: Resident, shared: Shared<B>, list: Seq<Move>)
    requires
        shared.backend.answers(),
        shared.backend.store().is_finite(),
        is_default(*res.inner.chain),
        res.mode is Lazy ==> res.inner.config.chunk_size > 0 && has_ids(shared, list.len() as int),
        all_fit(res.inner, res.mode, list),
        all_followed(locker_rows(shared.backend.store().records, res.inner.id)),
        has_moments(res, shared),
    ensures
        can_land(res, shared, list),
{
    let records = shared.backend.store().records;
    nothing_is_in_the_way(records, res.inner.id);
    a_batch_names_no_more_than_it_writes(list);
    let prior = super::transaction::prior_of(list);
    assert forall|key: Seq<u8>| #[trigger] latest(list).contains_key(key) implies super::transaction::part_possible(
        res.inner,
        res.mode,
        records,
        prior,
        key,
        latest(list)[key],
    ) by {
        assert(super::inner::gc_list(records, res.inner.id, key, super::inner::Prior::Unknown) is Some);
        assert(super::inner::gc_list(records, res.inner.id, key, prior) is Some);
        if let Some(payload) = latest(list)[key] {
            what_is_left_was_written(list, key);
            let i = choose|i: int|
                0 <= i < list.len() && (#[trigger] list[i]) == (Move::Put { key, payload: latest(list)[key]->0 });
            assert(list[i] is Put);
            if res.mode is Lazy {
                a_payload_fits(&res.inner, payload);
            } else {
                assert(res.inner.chain.takes(payload));
                assert forall|record: Seq<u8>| #[trigger] res.inner.chain.seals(payload, record) implies record.len()
                    <= res.inner.config.max_inline by {
                    the_default_chain_adds_little(&res.inner.chain, payload, record);
                }
            }
        }
    }
}

/// A transaction of a lazy locker succeeds where nothing stands in its way.
pub proof fn an_ordinary_transaction_succeeds<B: Backend, T: Value>(
    before: LazyLocker<T>,
    shared: Shared<B>,
    list: Seq<Move>,
    r: Result<()>,
    after: LazyLocker<T>,
    now: Shared<B>,
)
    requires
        lazy::commit_through(before, shared, list, r, after, now),
        !before.res.inner.closed,
        before.res.mode is Lazy,
        shared.backend.answers(),
        shared.backend.store().is_finite(),
        is_default(*before.res.inner.chain),
        before.res.inner.config.chunk_size > 0,
        has_ids(shared, (moves(before.res.staged@) + list).len() as int),
        all_fit(before.res.inner, TxMode::Lazy, moves(before.res.staged@) + list),
        all_followed(locker_rows(shared.backend.store().records, before.res.inner.id)),
        has_moments(before.res, shared),
    ensures
        r is Ok,
{
    an_ordinary_batch_can_land(before.res, shared, moves(before.res.staged@) + list);
}

/// So does one of an eager locker.
pub proof fn an_ordinary_eager_transaction_succeeds<B: Backend, T: Value>(
    before: Locker<T>,
    shared: Shared<B>,
    list: Seq<Move>,
    r: Result<()>,
    after: Locker<T>,
    now: Shared<B>,
)
    requires
        eager::commit_through(before, shared, list, r, after, now),
        before.wf(),
        !before.res.inner.closed,
        shared.backend.answers(),
        shared.backend.store().is_finite(),
        is_default(*before.res.inner.chain),
        all_fit(before.res.inner, TxMode::Eager, moves(before.res.staged@) + list),
        all_followed(locker_rows(shared.backend.store().records, before.res.inner.id)),
    ensures
        r is Ok,
{
    an_ordinary_batch_can_land(before.res, shared, moves(before.res.staged@) + list);
}

/// And so does a flush of either.
pub proof fn an_ordinary_flush_succeeds<B: Backend>(
    before: Resident,
    shared: Shared<B>,
    ok: bool,
    after: Resident,
    now: Shared<B>,
)
    requires
        flush_gives(before, shared, ok, after, now),
        shared.backend.answers(),
        shared.backend.store().is_finite(),
        is_default(*before.inner.chain),
        before.mode is Lazy ==> before.inner.config.chunk_size > 0 && has_ids(shared, before.staged@.len() as int),
        all_fit(before.inner, before.mode, moves(before.staged@)),
        all_followed(locker_rows(shared.backend.store().records, before.inner.id)),
        has_moments(before, shared),
    ensures
        ok,
        after.staged@.len() == 0,
{
    an_ordinary_batch_can_land(before, shared, moves(before.staged@));
}

/// An eager put is refused on a store that answers only where the value is too
/// large once sealed, and the refusal says how large.
pub proof fn an_eager_put_is_refused_where_it_is_too_large<B: Backend, T: Value>(
    before: Locker<T>,
    shared: Shared<B>,
    key: Seq<u8>,
    value: &T,
    e: Error,
    after: Locker<T>,
    now: Shared<B>,
)
    requires
        eager::put_through(before, shared, key, value, Err::<std::sync::Arc<T>, Error>(e), after, now),
        !before.res.inner.closed,
        before.res.inner.config.batch() is None,
        value.packs(),
        shared.backend.answers(),
        is_default(*before.res.inner.chain),
    ensures
        e matches Error::ValueTooLarge { bytes, max_inline } && max_inline == before.res.inner.config.max_inline && bytes
            > max_inline && exists|record: Seq<u8>| #[trigger]
            before.res.inner.chain.seals(value.payload(), record) && record.len() == bytes,
{
    assert(before.res.inner.chain.takes(value.payload()));
}

} // verus!
