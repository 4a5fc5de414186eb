//! The lazy locker: keys resident, values on demand.
//!
//! Opening reads only the key list, so open cost is proportional to the number
//! of keys rather than the size of the data.
//!
//! Because the index is in memory, `contains_key`, `len` and the key listings
//! are free. Only the values require a round trip.

use std::marker::PhantomData;
use std::ops::Bound;
use std::sync::Arc;

use vstd::prelude::*;
use vstd::string::StringSliceAdditionalSpecFns;
use vstd::utf8::valid_utf8;

use super::batch::{
    all_told, apply_to_index, collapse, indexed, merge_batches, moves, reads, staged_bytes, staged_view, told, Move,
    Pending,
};
use super::chunk::FLAG_POSTCARD;
use super::handles::but;
use super::inner::{
    clears, everything_is_within, gc_list, gc_refused, id_after, kept_inline, locker_rows, named_in, put_refused,
    readable, record_delete, stores, unread, walking_reads_the_locker, Inner, Shared,
};
use super::listing::{
    any_not_utf8, by_bytes, by_text, keyed, keys_with_prefix, map_of, limited, listed,
    nothing_staged_shows_what_is_stored, ordered, overlay, prefixed, shows, spelt, text_entries, texts, utf8_entries,
    utf8_keys, Source,
};
use super::lru::{plan_fits, recorded, weight, Plan};
use super::policy::{LockerConfig, OnCorrupt};
use super::resident::{
    all_evicted, batch_landed, batch_refused, budget_applied, budget_refused, can_land, clock_runs, keys_in,
    ledger_after, ledger_of, legible,
    open_lru, remote_step, same_books, shed_landed, up_to_date, use_noted, write_landed, Budget, Ledger, Resident,
};
use super::transaction::{loads, sees, Transaction, TxMode};
use crate::backend::api::{at_most, changes, keys_within, Backend, Change, Span, Store};
use crate::backend::memory::capped;
use crate::bytes::copy;
use crate::codec::value::Value;
use crate::codec::FilterChain;
use crate::coherence::{Announcement, Word};
use crate::error::{Error, Result};
use crate::key::{as_bytes, degenerate, str_bound, user_span, LockerId};
use crate::meta::name_bytes;
use crate::sorted::{listing, lists, views, ByteMap};
use crate::watch::{
    all_announced, announced, nothing_announced, one_announced, one_more_announced, subscribed, Event,
    EventStream, News, DEFAULT_CAPACITY,
};

verus! {

/// A locker whose keys live in memory and whose values are read on demand.
pub struct LazyLocker<T> {
    pub res: Resident,
    /// Keys whose bytes would not decode when they were read.
    pub corrupt: ByteMap<()>,
    pub _value: PhantomData<T>,
}

/// `r` is what a listing gives: the keys asked for, each with the value it
/// shows.
pub open spec fn listing_answers<B: Backend, T: Value>(
    inner: &Inner,
    backend: &B,
    list: Seq<Move>,
    keys: Seq<Seq<u8>>,
    r: Result<Vec<(Vec<u8>, T)>>,
) -> bool {
    &&& r matches Ok(out) ==> {
        &&& out@.len() == keys.len()
        &&& forall|i: int|
            0 <= i < keys.len() ==> (#[trigger] out@[i]).0@ == keys[i] && value_answers::<B, T>(
                inner,
                backend,
                list,
                keys[i],
                out@[i].1.payload(),
            )
    }
    &&& inner.closed ==> (r matches Err(e) && e is Closed)
    &&& !inner.closed && backend.answers() && (forall|i: int|
        0 <= i < keys.len() ==> #[trigger] decodable::<B, T>(inner, backend, list, keys[i])) ==> r is Ok
    &&& !inner.closed && backend.answers() ==> (r matches Err(e) ==> exists|i: int|
        0 <= i < keys.len() && #[trigger] illegible(inner, backend, list, keys[i], e))
}

/// `e` is why what a key shows cannot be had: the record that is stored, or the
/// payload that is staged, does not read as a value.
#[verifier::opaque]
pub open spec fn illegible<B: Backend>(inner: &Inner, backend: &B, list: Seq<Move>, key: Seq<u8>, e: Error) -> bool {
    let rows = locker_rows(backend.store().records, inner.id);
    shows(rows, list, key) matches Some(source) && match source {
        Source::Stored => unread(*inner.chain, backend.store().chunks, rows[key], e),
        Source::Staged(_) => e.spec_is_corruption(),
    }
}

/// `payload` is that of the value a key shows.
#[verifier::opaque]
pub open spec fn value_answers<B: Backend, T: Value>(
    inner: &Inner,
    backend: &B,
    list: Seq<Move>,
    key: Seq<u8>,
    payload: Seq<u8>,
) -> bool {
    let rows = locker_rows(backend.store().records, inner.id);
    shows(rows, list, key) matches Some(source) && match source {
        Source::Stored => readable(*inner.chain, backend.store().chunks, rows[key]) matches Some(p) && T::reading(p)
            == Some(payload),
        Source::Staged(p) => T::reading(p) == Some(payload),
    }
}

/// `r` is a listing by text: the entries of a listing whose keys can be spelt.
pub open spec fn text_listing<B: Backend, T: Value>(
    locker: &LazyLocker<T>,
    backend: &B,
    keys: Seq<Seq<u8>>,
    r: Result<Vec<(String, T)>>,
) -> bool {
    exists|raw: Result<Vec<(Vec<u8>, T)>>|
        {
            &&& #[trigger] listing_answers(&locker.res.inner, backend, moves(locker.res.staged@), keys, raw)
            &&& match raw {
                Ok(entries) => r matches Ok(out) && by_text(out@) == text_entries(by_bytes(entries@)),
                Err(e) => r == Err::<Vec<(String, T)>, Error>(e),
            }
        }
}

/// How far a listing of `n` goes.
fn cut_off(n: usize, limit: Option<usize>) -> (m: usize)
    ensures
        m == match limit {
            Some(limit) => at_most(n as int, limit as int),
            None => n as int,
        },
{
    match limit {
        Some(limit) => if n < limit {
            n
        } else {
            limit
        },
        None => n,
    }
}

/// Whatever an ordered listing names is in the set.
proof fn every_listed_key_is_there(dom: Set<Seq<u8>>, reverse: bool, i: int)
    requires
        lists(listing(dom), dom),
        0 <= i < listing(dom).len(),
    ensures
        dom.contains(ordered(dom, reverse)[i]),
{
    let all = listing(dom);
    let at = if reverse {
        all.len() - 1 - i
    } else {
        i
    };
    assert(ordered(dom, reverse)[i] == all[at]);
    assert(all.contains(all[at]));
}

/// What a key shows decodes to some value.
#[verifier::opaque]
pub open spec fn decodable<B: Backend, T: Value>(inner: &Inner, backend: &B, list: Seq<Move>, key: Seq<u8>) -> bool {
    let rows = locker_rows(backend.store().records, inner.id);
    shows(rows, list, key) matches Some(source) && exists|v: T|
        v.packs() && match source {
            Source::Stored => readable(*inner.chain, backend.store().chunks, rows[key]) == Some(
                #[trigger] v.payload(),
            ),
            Source::Staged(p) => p == v.payload(),
        }
}

/// A single put landed: one record stored, with what it owes the byte budget;
/// the key entered the index, and watchers heard of it.
pub open spec fn put_landed<B: Backend>(
    before: Resident,
    shared: Shared<B>,
    key: Seq<u8>,
    payload: Seq<u8>,
    b: Budget,
    after: Resident,
    store: Store,
) -> bool {
    let victims = views(b.plan.victims@);
    &&& put_stored(before, shared, key, payload, b, store)
    &&& keys_in(after.index) == keys_in(before.index).insert(key).difference(victims.to_set())
    &&& all_announced(
        before.inner.watchers,
        all_evicted(victims).push(News::Put { key }),
        after.inner.watchers,
    )
    &&& ledger_moved(before, shared.backend.store(), b, after)
    &&& after.known_inline@ == (if kept_inline(before.inner.config, payload.len(), FLAG_POSTCARD) {
        before.known_inline@.insert(key, ())
    } else {
        before.known_inline@.remove(key)
    }).remove_keys(victims.to_set())
}

/// A single put was stored: one record, with what it owes the byte budget.
pub open spec fn put_stored<B: Backend>(
    before: Resident,
    shared: Shared<B>,
    key: Seq<u8>,
    payload: Seq<u8>,
    b: Budget,
    store: Store,
) -> bool {
    let prior = before.prior_spec(key, shared.trusts(before.inner));
    gc_list(shared.backend.store().records, before.inner.id, key, prior) matches Some(dropped) && exists|
        out: Seq<Change>,
    |
        {
            &&& #[trigger] stores(before.inner, key, payload, FLAG_POSTCARD, dropped, shared.next_id(), out)
            &&& write_landed(
                before.lru,
                before.inner.id,
                shared.backend.store(),
                shared.next_tick(),
                out,
                seq![(key, payload.len() as u64)],
                Seq::empty(),
                false,
                seq![key],
                b,
                store,
            )
        }
}

/// A single delete landed.
pub open spec fn delete_landed<B: Backend>(
    before: Resident,
    shared: Shared<B>,
    key: Seq<u8>,
    b: Budget,
    after: Resident,
    store: Store,
) -> bool {
    let prior = before.prior_spec(key, shared.trusts(before.inner));
    let victims = views(b.plan.victims@);
    &&& gc_list(shared.backend.store().records, before.inner.id, key, prior) matches Some(dropped) && write_landed(
        before.lru,
        before.inner.id,
        shared.backend.store(),
        shared.next_tick(),
        dropped.push(record_delete(before.inner.id, key)),
        Seq::empty(),
        seq![key],
        false,
        Seq::empty(),
        b,
        store,
    )
    &&& keys_in(after.index) == keys_in(before.index).remove(key).difference(victims.to_set())
    &&& all_announced(
        before.inner.watchers,
        all_evicted(victims).push(News::Deleted { key }),
        after.inner.watchers,
    )
    &&& ledger_moved(before, shared.backend.store(), b, after)
    &&& after.known_inline@ == before.known_inline@.remove(key).remove_keys(victims.to_set())
}

/// A clear landed.
pub open spec fn clear_landed<B: Backend>(
    before: Resident,
    shared: Shared<B>,
    b: Budget,
    after: Resident,
    store: Store,
) -> bool {
    &&& write_landed(
        before.lru,
        before.inner.id,
        shared.backend.store(),
        shared.next_tick(),
        clears(shared.backend.store().records, before.inner.id),
        Seq::empty(),
        Seq::empty(),
        true,
        Seq::empty(),
        b,
        store,
    )
    &&& keys_in(after.index) == Set::<Seq<u8>>::empty()
    &&& all_announced(
        before.inner.watchers,
        all_evicted(views(b.plan.victims@)).push(News::Cleared),
        after.inner.watchers,
    )
    &&& ledger_moved(before, shared.backend.store(), b, after)
    &&& after.known_inline@ == Map::<Seq<u8>, ()>::empty()
}

/// The accounting moved on by a landed commit.
pub open spec fn ledger_moved(before: Resident, store: Store, b: Budget, after: Resident) -> bool {
    before.lru matches Some(s) ==> (after.lru matches Some(now) && ledger_of(now) == ledger_after(
        up_to_date(s, store.meta, before.inner.id),
        b,
    ) && !now.dirty_spec())
}

/// A write was staged: nothing stored, but visible to this handle at once.
pub open spec fn staged_one(before: Resident, m: Move, after: Resident) -> bool {
    &&& moves(after.staged@) == moves(before.staged@).push(m)
    &&& keys_in(after.index) == indexed(keys_in(before.index), seq![m])
    &&& announced(before.inner.watchers, told(m), after.inner.watchers)
    &&& after.lru == before.lru
    &&& after.known_inline == before.known_inline
}

/// A write to a locker that defers: staged, and flushed where the batch is
/// full.
pub open spec fn deferred_write<B: Backend>(
    before: Resident,
    shared: Shared<B>,
    m: Move,
    after: Resident,
    now: Shared<B>,
    ok: bool,
) -> bool {
    let list = moves(before.staged@).push(m);
    let full = before.inner.config.batch() matches Some(n) && list.len() >= n;
    &&& !full ==> ok && staged_one(before, m, after) && now == shared
    &&& full && shared.backend.shut() ==> !ok
    &&& full && can_land(before, shared, list) ==> ok
    &&& full && !ok ==> staged_one(before, m, Resident { lru: before.lru, ..after }) && now.backend.store()
        == shared.backend.store() && same_books(after, before, shared.backend.store().meta)
    &&& full && ok ==> after.staged@.len() == 0 && exists|b: Budget, mid: Resident|
        {
            &&& #[trigger] staged_one(before, m, mid)
            &&& mid.inner.same_but_news(before.inner)
            &&& mid.mode == before.mode
            &&& #[trigger] batch_landed(mid, shared, list, b, now.backend.store(), now.next_id_from(shared.backend.store()))
            &&& budget_applied(mid, shared.backend.store().meta, b, after)
        }
}

/// What a lazy locker is once it is opened over a store: every key known, the
/// accounting read back where there is a budget, and nothing else yet.
pub open spec fn opened<T>(store: Store, id: LockerId, config: LockerConfig, l: LazyLocker<T>) -> bool {
    &&& l.res.inner.id == id
    &&& !l.res.inner.closed
    &&& !l.res.inner.name_shared
    &&& l.res.inner.watchers.history().len() == 0
    &&& l.res.inner.watchers.listeners().len() == 0
    &&& l.res.inner.epochs.watermark() == 0
    &&& l.res.inner.epochs.memory() == Map::<Seq<u8>, u64>::empty()
    &&& l.res.mode is Lazy
    &&& l.res.staged@.len() == 0
    &&& l.res.index is Some
    &&& keys_in(l.res.index) == locker_rows(store.records, id).dom()
    &&& l.res.known_inline@ == Map::<Seq<u8>, ()>::empty()
    &&& l.corrupt@ == Map::<Seq<u8>, ()>::empty()
    &&& match config.policy {
        super::policy::Policy::Evictable { max_bytes } => l.res.lru matches Some(s) && s.limit() == max_bytes
            && s.books() == super::resident::opening_books(store.meta, id, keys_in(l.res.index)) && s.total_spec()
            == capped(weight(recorded(store.meta, id).restrict(keys_in(l.res.index)))) && s.deferred() == Map::<
            Seq<u8>,
            u64,
        >::empty() && !s.dirty_spec(),
        _ => l.res.lru is None,
    }
}

impl<T: Value> LazyLocker<T> {
    /// Open a locker: read its keys, and its accounting where it has a budget.
    pub fn open<B: Backend>(
        backend: &B,
        chain: Arc<FilterChain>,
        id: LockerId,
        name: String,
        config: LockerConfig,
        ticket: u64,
    ) -> (r: Result<Self>)
        ensures
            backend.answers() ==> r is Ok,
            r matches Ok(l) ==> opened(backend.store(), id, config, l) && l.res.inner.chain == chain
                && l.res.inner.name == name && l.res.inner.config == config && l.res.inner.ticket == ticket,
    {
        let inner = Inner::new(chain, id, name, config, ticket);
        // Keys only. Reading values here would defeat the entire point.
        let keys = match inner.walk(backend, Bound::Unbounded, Bound::Unbounded, false) {
            Ok(keys) => keys,
            Err(e) => return Err(e),
        };
        let ghost rows = locker_rows(backend.store().records, id);
        proof {
            everything_is_within(rows);
            walking_reads_the_locker(
                backend.store().records,
                id,
                Span { start: Bound::Unbounded, end: Bound::Unbounded },
                false,
            );
        }
        let index = index_of(&keys);
        assert(index@.dom() =~= rows.dom());
        let lru = match open_lru(&inner, backend, &index) {
            Ok(lru) => lru,
            Err(e) => return Err(e),
        };
        Ok(
            LazyLocker {
                res: Resident::new(inner, TxMode::Lazy, Some(index), lru),
                corrupt: ByteMap::new(),
                _value: PhantomData,
            },
        )
    }

    /// Read a value.
    pub fn get<B: Backend>(&mut self, shared: &mut Shared<B>, key: &str) -> (r: Result<Option<T>>)
        ensures
            final(shared).carries_on(*old(shared)),
            final(shared).stays_forced(*old(shared), old(self).res.inner.config.durability),
            final(shared).told(*old(shared), old(self).res.inner, final(self).res.inner),
            read_through(*old(self), *old(shared), key.spec_bytes(), r, *final(self), *final(shared)),
    {
        self.get_by(shared, name_bytes(key).as_slice())
    }

    /// As [`LazyLocker::get`], under a binary key.
    pub fn get_by<B: Backend>(&mut self, shared: &mut Shared<B>, key: &[u8]) -> (r: Result<Option<T>>)
        ensures
            final(shared).carries_on(*old(shared)),
            final(shared).stays_forced(*old(shared), old(self).res.inner.config.durability),
            final(shared).told(*old(shared), old(self).res.inner, final(self).res.inner),
            read_through(*old(self), *old(shared), key@, r, *final(self), *final(shared)),
    {
        match self.res.inner.ensure_open() {
            Ok(()) => {},
            Err(e) => return Err(e),
        }
        // A staged write is this handle's own work and is visible to it
        // immediately, flushed or not.
        match staged_view(&self.res.staged, key) {
            Some(None) => return Ok(None),
            Some(Some(payload)) => {
                return match T::from_payload(payload.as_slice()) {
                    Ok(value) => Ok(Some(value)),
                    Err(e) => Err(e),
                };
            },
            None => {},
        }
        let found = self.load_and_note(&shared.backend, key);
        let ghost seen = found;
        assert(loads::<B, T>(&old(self).res.inner, &old(shared).backend, key@, seen));
        if let Ok(Some(_)) = &found {
            match self.res.note_read(shared, key) {
                Ok(()) => {},
                Err(e) => {
                    assert(read_noted(*old(self), *old(shared), key@, seen, Err(e), *self, *shared));
                    return Err(e);
                },
            }
        }
        assert(read_noted(*old(self), *old(shared), key@, seen, found, *self, *shared));
        found
    }

    /// Read a value, or a default where the key holds none. The default is a
    /// fallback for this read: it is never written.
    pub fn get_or<B: Backend>(&mut self, shared: &mut Shared<B>, key: &str, default: T) -> (r: Result<T>)
        ensures
            final(shared).carries_on(*old(shared)),
            final(shared).stays_forced(*old(shared), old(self).res.inner.config.durability),
            final(shared).told(*old(shared), old(self).res.inner, final(self).res.inner),
            exists|found: Result<Option<T>>|
                {
                    &&& #[trigger] read_through(
                        *old(self),
                        *old(shared),
                        key.spec_bytes(),
                        found,
                        *final(self),
                        *final(shared),
                    )
                    &&& r == match found {
                        Ok(Some(value)) => Ok::<T, Error>(value),
                        Ok(None) => Ok(default),
                        Err(e) => Err(e),
                    }
                },
    {
        let found = self.get(shared, key);
        let ghost seen = found;
        assert(read_through(*old(self), *old(shared), key.spec_bytes(), seen, *self, *shared));
        match found {
            Ok(Some(value)) => Ok(value),
            Ok(None) => Ok(default),
            Err(e) => Err(e),
        }
    }

    /// Read from storage, remembering a key whose bytes would not decode,
    /// where the locker is set to skip those.
    fn load_and_note<B: Backend>(&mut self, backend: &B, key: &[u8]) -> (r: Result<Option<T>>)
        ensures
            loads::<B, T>(&old(self).res.inner, backend, key@, r),
            final(self).res == old(self).res,
            final(self).corrupt@ == if old(self).res.inner.config.on_corrupt is Skip && (r matches Err(e)
                && e.spec_is_corruption()) {
                old(self).corrupt@.insert(key@, ())
            } else {
                old(self).corrupt@
            },
    {
        let found = self.res.inner.load_value::<B, T>(backend, key);
        if let Err(e) = &found {
            let skip: bool = match self.res.inner.config.on_corrupt {
                OnCorrupt::Skip => true,
                _ => false,
            };
            if skip && e.is_corruption() {
                self.corrupt.insert(copy(key), ());
            }
        }
        found
    }

    /// Store a value.
    pub fn put<B: Backend>(&mut self, shared: &mut Shared<B>, key: &str, value: &T) -> (r: Result<()>)
        requires
            old(self).res.mode is Lazy,
            old(self).res.inner.config.chunk_size > 0,
        ensures
            final(shared).carries_on(*old(shared)),
            final(shared).stays_forced(*old(shared), old(self).res.inner.config.durability),
            final(shared).told(*old(shared), old(self).res.inner, final(self).res.inner),
            put_through(*old(self), *old(shared), key.spec_bytes(), value, r, *final(self), *final(shared)),
    {
        self.put_by(shared, name_bytes(key).as_slice(), value)
    }

    /// As [`LazyLocker::put`], under a binary key.
    pub fn put_by<B: Backend>(&mut self, shared: &mut Shared<B>, key: &[u8], value: &T) -> (r: Result<()>)
        requires
            old(self).res.mode is Lazy,
            old(self).res.inner.config.chunk_size > 0,
        ensures
            final(shared).carries_on(*old(shared)),
            final(shared).stays_forced(*old(shared), old(self).res.inner.config.durability),
            final(shared).told(*old(shared), old(self).res.inner, final(self).res.inner),
            put_through(*old(self), *old(shared), key@, value, r, *final(self), *final(shared)),
    {
        match self.res.inner.ensure_open() {
            Ok(()) => {},
            Err(e) => return Err(e),
        }
        let payload = match value.to_payload() {
            Ok(payload) => payload,
            Err(e) => return Err(e),
        };
        if self.res.is_deferred() {
            return self.stage_and_flush(shared, Pending::Put { key: copy(key), payload });
        }
        self.put_now(shared, key, payload)
    }

    /// Store a payload in a commit of its own.
    fn put_now<B: Backend>(&mut self, shared: &mut Shared<B>, key: &[u8], payload: Vec<u8>) -> (r: Result<()>)
        requires
            old(self).res.mode is Lazy,
            old(self).res.inner.config.chunk_size > 0,
        ensures
            final(shared).carries_on(*old(shared)),
            final(shared).stays_forced(*old(shared), old(self).res.inner.config.durability),
            final(shared).told(*old(shared), old(self).res.inner, final(self).res.inner),
            same_handle(*final(self), *old(self)),
            final(self).corrupt == old(self).corrupt,
            r is Err ==> final(shared).backend.store() == old(shared).backend.store() && final(self).res.inner
                == old(self).res.inner && final(self).res.index == old(self).res.index && final(self).res.staged
                == old(self).res.staged && same_books(final(self).res, old(self).res, old(shared).backend.store().meta),
            r is Ok && old(self).res.index is Some ==> exists|b: Budget| #[trigger]
                put_landed(old(self).res, *old(shared), key@, payload@, b, final(self).res, final(shared).backend.store()),
            r is Ok ==> final(self).res.staged == old(self).res.staged && final(shared).next_id_from(
                old(shared).backend.store(),
            ) == id_after(old(self).res.inner.config, payload@.len(), FLAG_POSTCARD, old(shared).next_id()),
            put_can_land(old(self).res, *old(shared), key@, payload@) ==> r is Ok,
            old(shared).backend.shut() ==> (r matches Err(e) && old(self).res.inner.shut_out(e)),
            old(shared).backend.answers() ==> (r matches Err(e) ==> put_refused(
                old(self).res.inner,
                old(shared).backend.store().records,
                old(shared).values.upcoming(old(shared).backend.store()),
                key@,
                payload@,
                FLAG_POSTCARD,
                e,
            ) || budget_refused(old(self).res, *old(shared), e)),
    {
        let inline: bool = self.res.inner.stores_inline(payload.len(), FLAG_POSTCARD);
        let ghost all = payload@;
        let budget = match commit_put(&mut self.res, shared, key, payload) {
            Ok(budget) => budget,
            Err(e) => return Err(e),
        };
        self.res.note_inline(key, inline);
        self.res.settle_one(Pending::Put { key: copy(key), payload: Vec::new() }, &budget);
        assert(old(self).res.index is Some ==> put_landed(
            old(self).res,
            *old(shared),
            key@,
            all,
            budget,
            self.res,
            shared.backend.store(),
        ));
        Ok(())
    }

    /// Commit everything this locker has staged, and ask the backend to make
    /// it durable where the locker's own setting left that open.
    pub fn flush<B: Backend>(&mut self, shared: &mut Shared<B>) -> (r: Result<()>)
        requires
            old(self).res.mode is Lazy,
            old(self).res.can_flush(),
        ensures
            final(shared).carries_on(*old(shared)),
            final(shared).stays_forced(*old(shared), old(self).res.inner.config.durability),
            final(shared).told(*old(shared), old(self).res.inner, final(self).res.inner),
            old(self).res.inner.config.durability is Eventual && (r is Ok || old(shared).backend.answers())
                ==> final(shared).backend.forced(),
            same_handle(*final(self), *old(self)),
            final(self).corrupt == old(self).corrupt,
            flush_through(old(self).res, *old(shared), r is Ok, final(self).res, *final(shared)),
            can_land(old(self).res, *old(shared), moves(old(self).res.staged@)) ==> r is Ok,
            old(shared).backend.shut() ==> (r matches Err(e) ==> old(self).res.inner.shut_out(e)) && (
            old(self).res.staged@.len() > 0 || old(self).res.inner.config.durability is Eventual ==> r is Err),
            old(shared).backend.answers() ==> (r matches Err(e) ==> batch_refused(
                old(self).res,
                *old(shared),
                moves(old(self).res.staged@),
                e,
            )),
    {
        let staged = self.res.flush(shared);
        let ghost stored = shared.backend.store();
        let ghost flushed = *shared;
        let forced = self.res.inner.flush_backend(&mut shared.backend);
        proof {
            let store = old(shared).backend.store();
            assert(shared.next_id_from(store) == flushed.next_id_from(store));
            if old(self).res.staged@.len() > 0 && staged is Ok {
                let b = choose|b: Budget|
                    {
                        &&& #[trigger] batch_landed(
                            old(self).res,
                            *old(shared),
                            moves(old(self).res.staged@),
                            b,
                            stored,
                            flushed.next_id_from(store),
                        )
                        &&& budget_applied(old(self).res, store.meta, b, self.res)
                    };
                assert(batch_landed(
                    old(self).res,
                    *old(shared),
                    moves(old(self).res.staged@),
                    b,
                    stored,
                    shared.next_id_from(store),
                ));
            }
        }
        match staged {
            Ok(()) => forced,
            Err(e) => Err(e),
        }
    }

    /// How many writes are staged and not yet committed.
    pub fn pending(&self) -> (n: usize)
        ensures
            n == self.res.staged@.len(),
    {
        self.res.pending_len()
    }

    /// Payload bytes staged and not yet committed.
    pub fn pending_bytes(&self) -> (n: u64)
        ensures
            n == capped(staged_bytes(moves(self.res.staged@))),
    {
        self.res.pending_bytes()
    }

    /// Remove a key. Removing an absent key is not an error.
    pub fn delete<B: Backend>(&mut self, shared: &mut Shared<B>, key: &str) -> (r: Result<()>)
        requires
            old(self).res.mode is Lazy,
            old(self).res.inner.config.batch() is Some ==> old(self).res.inner.config.chunk_size > 0,
        ensures
            final(shared).carries_on(*old(shared)),
            final(shared).stays_forced(*old(shared), old(self).res.inner.config.durability),
            final(shared).told(*old(shared), old(self).res.inner, final(self).res.inner),
            delete_through(*old(self), *old(shared), key.spec_bytes(), r, *final(self), *final(shared)),
    {
        self.delete_by(shared, name_bytes(key).as_slice())
    }

    /// As [`LazyLocker::delete`], under a binary key.
    pub fn delete_by<B: Backend>(&mut self, shared: &mut Shared<B>, key: &[u8]) -> (r: Result<()>)
        requires
            old(self).res.mode is Lazy,
            old(self).res.inner.config.batch() is Some ==> old(self).res.inner.config.chunk_size > 0,
        ensures
            final(shared).carries_on(*old(shared)),
            final(shared).stays_forced(*old(shared), old(self).res.inner.config.durability),
            final(shared).told(*old(shared), old(self).res.inner, final(self).res.inner),
            delete_through(*old(self), *old(shared), key@, r, *final(self), *final(shared)),
    {
        match self.res.inner.ensure_open() {
            Ok(()) => {},
            Err(e) => return Err(e),
        }
        if self.res.is_deferred() {
            return self.stage_and_flush(shared, Pending::Delete { key: copy(key) });
        }
        self.delete_now(shared, key)
    }

    /// Remove a key in a commit of its own.
    fn delete_now<B: Backend>(&mut self, shared: &mut Shared<B>, key: &[u8]) -> (r: Result<()>)
        ensures
            old(shared).backend.shut() ==> (r matches Err(e) && old(self).res.inner.shut_out(e)),
            old(shared).backend.answers() ==> (r matches Err(e) ==> gc_refused(
                old(shared).backend.store().records,
                old(self).res.inner.id,
                key@,
                e,
            ) || budget_refused(old(self).res, *old(shared), e)),
            final(shared).carries_on(*old(shared)),
            final(shared).stays_forced(*old(shared), old(self).res.inner.config.durability),
            final(shared).told(*old(shared), old(self).res.inner, final(self).res.inner),
            same_handle(*final(self), *old(self)),
            final(self).corrupt == old(self).corrupt,
            r is Err ==> final(shared).backend.store() == old(shared).backend.store() && final(self).res.inner
                == old(self).res.inner && final(self).res.index == old(self).res.index && final(self).res.staged
                == old(self).res.staged && same_books(final(self).res, old(self).res, old(shared).backend.store().meta),
            r is Ok ==> final(self).res.staged == old(self).res.staged && final(shared).values == old(shared).values,
            r is Ok && old(self).res.index is Some ==> exists|b: Budget| #[trigger]
                delete_landed(old(self).res, *old(shared), key@, b, final(self).res, final(shared).backend.store()),
            delete_can_land(old(self).res, *old(shared), key@) ==> r is Ok,
    {
        let prior = self.res.prior(key, shared.trusts_index(&self.res.inner));
        let ops = match self.res.inner.delete_value_ops(&shared.backend, key, prior) {
            Ok(ops) => ops,
            Err(e) => return Err(e),
        };
        let none: Vec<(Vec<u8>, u64)> = Vec::new();
        let no_keys: Vec<Vec<u8>> = Vec::new();
        let mut removals: Vec<Vec<u8>> = Vec::new();
        removals.push(copy(key));
        proof {
            assert(super::batch::sizes(none@) =~= Seq::<(Seq<u8>, u64)>::empty());
            assert(views(no_keys@) =~= Seq::<Seq<u8>>::empty());
            assert(views(removals@) =~= seq![key@]);
        }
        let budget = match self.res.commit_with_budget(shared, ops, none, removals, false, &no_keys) {
            Ok(budget) => budget,
            Err(e) => return Err(e),
        };
        self.res.note_inline(key, false);
        self.res.settle_one(Pending::Delete { key: copy(key) }, &budget);
        assert(old(self).res.index is Some ==> delete_landed(
            old(self).res,
            *old(shared),
            key@,
            budget,
            self.res,
            shared.backend.store(),
        ));
        Ok(())
    }

    /// Remove everything in this locker, and nothing outside it.
    pub fn clear<B: Backend>(&mut self, shared: &mut Shared<B>) -> (r: Result<()>)
        requires
            old(self).res.mode is Lazy,
            old(self).res.inner.config.batch() is Some ==> old(self).res.inner.config.chunk_size > 0,
        ensures
            final(shared).carries_on(*old(shared)),
            final(shared).stays_forced(*old(shared), old(self).res.inner.config.durability),
            final(shared).told(*old(shared), old(self).res.inner, final(self).res.inner),
            clear_through(*old(self), *old(shared), r, *final(self), *final(shared)),
    {
        match self.res.inner.ensure_open() {
            Ok(()) => {},
            Err(e) => return Err(e),
        }
        if self.res.is_deferred() {
            return self.stage_and_flush(shared, Pending::Clear);
        }
        self.clear_now(shared)
    }

    /// Remove everything in a commit of its own.
    fn clear_now<B: Backend>(&mut self, shared: &mut Shared<B>) -> (r: Result<()>)
        ensures
            old(shared).backend.shut() ==> (r matches Err(e) && old(self).res.inner.shut_out(e)),
            old(shared).backend.answers() ==> (r matches Err(e) ==> budget_refused(old(self).res, *old(shared), e)),
            final(shared).carries_on(*old(shared)),
            final(shared).stays_forced(*old(shared), old(self).res.inner.config.durability),
            final(shared).told(*old(shared), old(self).res.inner, final(self).res.inner),
            same_handle(*final(self), *old(self)),
            final(self).corrupt == old(self).corrupt,
            r is Err ==> final(shared).backend.store() == old(shared).backend.store() && final(self).res.inner
                == old(self).res.inner && final(self).res.index == old(self).res.index && final(self).res.staged
                == old(self).res.staged && same_books(final(self).res, old(self).res, old(shared).backend.store().meta),
            r is Ok ==> final(self).res.staged == old(self).res.staged && final(shared).values == old(shared).values,
            r is Ok && old(self).res.index is Some ==> exists|b: Budget| #[trigger]
                clear_landed(old(self).res, *old(shared), b, final(self).res, final(shared).backend.store()),
            old(shared).backend.answers() && (old(self).res.lru is None || (clock_runs(*old(shared)) && legible(
                old(shared).backend.store().records,
                old(self).res.inner.id,
            ))) ==> r is Ok,
    {
        let ops = match self.res.inner.clear_value_ops(&shared.backend) {
            Ok(ops) => ops,
            Err(e) => return Err(e),
        };
        let none: Vec<(Vec<u8>, u64)> = Vec::new();
        let no_keys: Vec<Vec<u8>> = Vec::new();
        let no_removals: Vec<Vec<u8>> = Vec::new();
        proof {
            assert(super::batch::sizes(none@) =~= Seq::<(Seq<u8>, u64)>::empty());
            assert(views(no_keys@) =~= Seq::<Seq<u8>>::empty());
            assert(views(no_removals@) =~= Seq::<Seq<u8>>::empty());
        }
        let budget = match self.res.commit_with_budget(shared, ops, none, no_removals, true, &no_keys) {
            Ok(budget) => budget,
            Err(e) => return Err(e),
        };
        self.res.forget_inline();
        self.res.settle_one(Pending::Clear, &budget);
        proof {
            assert(keys_in(self.res.index) =~= Set::<Seq<u8>>::empty());
            assert(self.res.known_inline@ =~= Map::<Seq<u8>, ()>::empty());
            assert(old(self).res.index is Some ==> clear_landed(
                old(self).res,
                *old(shared),
                budget,
                self.res,
                shared.backend.store(),
            ));
        }
        Ok(())
    }

    /// Commit a transaction: every staged write lands together, or none does.
    ///
    /// Anything this handle has staged is absorbed. Both batches ride in one
    /// commit, staged first, or a later flush would write the older staged
    /// value over this transaction's newer one. Where the commit fails the
    /// staged batch is put back.
    pub fn commit_transaction<B: Backend>(&mut self, shared: &mut Shared<B>, tx: Transaction<T>) -> (r: Result<()>)
        requires
            old(self).res.mode is Lazy,
            old(self).res.inner.config.chunk_size > 0,
        ensures
            final(shared).carries_on(*old(shared)),
            final(shared).stays_forced(*old(shared), old(self).res.inner.config.durability),
            final(shared).told(*old(shared), old(self).res.inner, final(self).res.inner),
            commit_through(*old(self), *old(shared), tx.staged_moves(), r, *final(self), *final(shared)),
    {
        match self.res.inner.ensure_open() {
            Ok(()) => {},
            Err(e) => return Err(e),
        }
        let (entries, _values) = tx.into_parts();
        if entries.len() == 0 {
            return Ok(());
        }
        let staged_before = self.res.take_staged();
        let merged = merge_batches(&staged_before, &entries);
        match self.res.commit_batch(shared, &merged) {
            Ok(budget) => {
                proof {
                    reveal(batch_landed);
                }
                assert(batch_landed(
                    old(self).res,
                    *old(shared),
                    moves(old(self).res.staged@) + tx.staged_moves(),
                    budget,
                    shared.backend.store(),
                    shared.next_id_from(old(shared).backend.store()),
                ));
                // Index updates only after the commit lands, so a failed write
                // cannot leave the index claiming keys that were never stored.
                self.res.forget_inline();
                self.res.settle(&entries, &budget);
                assert(self.res.known_inline@ =~= Map::<Seq<u8>, ()>::empty());
                assert(old(self).res.index is Some ==> commit_settled(
                    old(self).res,
                    old(shared).backend.store(),
                    tx.staged_moves(),
                    budget,
                    self.res,
                ));
                Ok(())
            },
            Err(e) => {
                self.res.restage(staged_before);
                assert(self.res.staged@ =~= old(self).res.staged@);
                Err(e)
            },
        }
    }

    /// Run a transaction: every staged write lands together, or none does.
    ///
    /// Returning `Err` rolls back: nothing is written and the index is
    /// untouched. The store is readable throughout, and no transaction of the
    /// backend is open while `f` runs.
    pub fn transact<B: Backend, F: FnOnce(Transaction<T>, &Inner, &B) -> Result<Transaction<T>>>(
        &mut self,
        shared: &mut Shared<B>,
        f: F,
    ) -> (r: Result<()>)
        requires
            old(self).res.mode is Lazy,
            old(self).res.inner.config.chunk_size > 0,
            forall|tx: Transaction<T>|
                tx.wf() && tx.staged_moves().len() == 0 ==> #[trigger] f.requires(
                    (tx, &old(self).res.inner, &old(shared).backend),
                ),
        ensures
            final(shared).carries_on(*old(shared)),
            final(shared).stays_forced(*old(shared), old(self).res.inner.config.durability),
            final(shared).told(*old(shared), old(self).res.inner, final(self).res.inner),
            old(self).res.inner.closed ==> (r matches Err(e) && e is Closed) && *final(self) == *old(self) && *final(shared) == *old(shared),
            !old(self).res.inner.closed ==> exists|tx: Transaction<T>, answer: Result<Transaction<T>>|
                {
                    &&& tx.staged_moves().len() == 0
                    &&& #[trigger] f.ensures((tx, &old(self).res.inner, &old(shared).backend), answer)
                    &&& match answer {
                        Err(e) => r == Err::<(), Error>(e) && *final(self) == *old(self) && *final(shared) == *old(shared),
                        Ok(staged) => commit_through(
                            *old(self),
                            *old(shared),
                            staged.staged_moves(),
                            r,
                            *final(self),
                            *final(shared),
                        ),
                    }
                },
    {
        match self.res.inner.ensure_open() {
            Ok(()) => {},
            Err(e) => return Err(e),
        }
        let tx = Transaction::new();
        match f(tx, &self.res.inner, &shared.backend) {
            Ok(staged) => self.commit_transaction(shared, staged),
            Err(e) => Err(e),
        }
    }

    /// Store many entries in **one** atomic commit.
    pub fn put_all<B: Backend>(&mut self, shared: &mut Shared<B>, entries: Vec<(String, T)>) -> (r: Result<()>)
        requires
            old(self).res.mode is Lazy,
            old(self).res.inner.config.chunk_size > 0,
        ensures
            final(shared).carries_on(*old(shared)),
            final(shared).stays_forced(*old(shared), old(self).res.inner.config.durability),
            final(shared).told(*old(shared), old(self).res.inner, final(self).res.inner),
            entries@.len() == 0 ==> r is Ok && *final(self) == *old(self) && *final(shared) == *old(shared),
            entries@.len() > 0 && (forall|i: int| 0 <= i < entries@.len() ==> (#[trigger] entries@[i]).1.packs())
                ==> commit_through(*old(self), *old(shared), puts_of(entries@), r, *final(self), *final(shared)),
            entries@.len() > 0 && (exists|i: int| 0 <= i < entries@.len() && !(#[trigger] entries@[i]).1.packs())
                ==> r is Err && *final(self) == *old(self) && *final(shared) == *old(shared),
    {
        if entries.len() == 0 {
            return Ok(());
        }
        match self.res.inner.ensure_open() {
            Ok(()) => {},
            Err(e) => return Err(e),
        }
        match stage_puts(entries) {
            Ok(tx) => self.commit_transaction(shared, tx),
            Err(e) => Err(e),
        }
    }

    /// Remove many keys in **one** atomic commit. Removing an absent key is
    /// not an error.
    pub fn delete_all<B: Backend>(&mut self, shared: &mut Shared<B>, keys: &Vec<String>) -> (r: Result<()>)
        requires
            old(self).res.mode is Lazy,
            old(self).res.inner.config.chunk_size > 0,
        ensures
            final(shared).carries_on(*old(shared)),
            final(shared).stays_forced(*old(shared), old(self).res.inner.config.durability),
            final(shared).told(*old(shared), old(self).res.inner, final(self).res.inner),
            keys@.len() == 0 ==> r is Ok && *final(self) == *old(self) && *final(shared) == *old(shared),
            keys@.len() > 0 ==> commit_through(
                *old(self),
                *old(shared),
                deletes_of(keys@),
                r,
                *final(self),
                *final(shared),
            ),
    {
        if keys.len() == 0 {
            return Ok(());
        }
        self.commit_transaction(shared, stage_deletes(keys))
    }

    /// Values over a key range, in byte order. UTF-8 keys only — see
    /// [`LazyLocker::range_by`] for the binary form.
    pub fn range<B: Backend>(&self, backend: &B, start: Bound<&str>, end: Bound<&str>) -> (r: Result<Vec<(String, T)>>)
        ensures
            r is Ok ==> backend.store().is_finite(),
            backend.shut() && !degenerate(Span { start: str_bound(start), end: str_bound(end) }) ==> (r matches Err(e) && e is Closed),
            text_listing(
                self,
                backend,
                self.keys_shown(backend, Span { start: str_bound(start), end: str_bound(end) }, false, None),
                r,
            ),
    {
        match self.collect(backend, as_bytes(start), as_bytes(end), false, None) {
            Ok(entries) => Ok(utf8_entries(entries)),
            Err(e) => Err(e),
        }
    }

    /// As [`LazyLocker::range`], over binary bounds, yielding raw key bytes.
    pub fn range_by<B: Backend>(&self, backend: &B, start: Bound<&[u8]>, end: Bound<&[u8]>) -> (r: Result<
        Vec<(Vec<u8>, T)>,
    >)
        ensures
            r is Ok ==> backend.store().is_finite(),
            backend.shut() && !degenerate(user_span(start, end)) ==> (r matches Err(e) && e is Closed),
            listing_answers(
                &self.res.inner,
                backend,
                moves(self.res.staged@),
                self.keys_shown(backend, user_span(start, end), false, None),
                r,
            ),
    {
        self.collect(backend, start, end, false, None)
    }

    /// As [`LazyLocker::range`], descending.
    pub fn range_rev<B: Backend>(&self, backend: &B, start: Bound<&str>, end: Bound<&str>) -> (r: Result<
        Vec<(String, T)>,
    >)
        ensures
            r is Ok ==> backend.store().is_finite(),
            backend.shut() && !degenerate(Span { start: str_bound(start), end: str_bound(end) }) ==> (r matches Err(e) && e is Closed),
            text_listing(
                self,
                backend,
                self.keys_shown(backend, Span { start: str_bound(start), end: str_bound(end) }, true, None),
                r,
            ),
    {
        match self.collect(backend, as_bytes(start), as_bytes(end), true, None) {
            Ok(entries) => Ok(utf8_entries(entries)),
            Err(e) => Err(e),
        }
    }

    /// As [`LazyLocker::range_by`], descending.
    pub fn range_rev_by<B: Backend>(&self, backend: &B, start: Bound<&[u8]>, end: Bound<&[u8]>) -> (r: Result<
        Vec<(Vec<u8>, T)>,
    >)
        ensures
            r is Ok ==> backend.store().is_finite(),
            backend.shut() && !degenerate(user_span(start, end)) ==> (r matches Err(e) && e is Closed),
            listing_answers(
                &self.res.inner,
                backend,
                moves(self.res.staged@),
                self.keys_shown(backend, user_span(start, end), true, None),
                r,
            ),
    {
        self.collect(backend, start, end, true, None)
    }

    /// The first `limit` entries of a descending scan — "the latest N".
    pub fn latest<B: Backend>(&self, backend: &B, limit: usize) -> (r: Result<Vec<(String, T)>>)
        ensures
            r is Ok ==> backend.store().is_finite(),
            backend.shut() ==> (r matches Err(e) && e is Closed),
            text_listing(
                self,
                backend,
                self.keys_shown(
                    backend,
                    Span { start: Bound::Unbounded, end: Bound::Unbounded },
                    true,
                    Some(limit),
                ),
                r,
            ),
    {
        match self.collect(backend, Bound::Unbounded, Bound::Unbounded, true, Some(limit)) {
            Ok(entries) => Ok(utf8_entries(entries)),
            Err(e) => Err(e),
        }
    }

    /// Every entry, in byte order. UTF-8 keys only.
    pub fn entries<B: Backend>(&self, backend: &B) -> (r: Result<Vec<(String, T)>>)
        ensures
            r is Ok ==> backend.store().is_finite(),
            backend.shut() ==> (r matches Err(e) && e is Closed),
            text_listing(
                self,
                backend,
                self.keys_shown(backend, Span { start: Bound::Unbounded, end: Bound::Unbounded }, false, None),
                r,
            ),
    {
        self.range(backend, Bound::Unbounded, Bound::Unbounded)
    }

    /// Every entry by key. UTF-8 keys only.
    pub fn to_map<B: Backend>(&self, backend: &B) -> (r: Result<ByteMap<T>>)
        ensures
            r is Ok ==> backend.store().is_finite(),
            backend.shut() ==> (r matches Err(e) && e is Closed),
            exists|listed: Result<Vec<(String, T)>>|
                {
                    &&& #[trigger] text_listing(
                        self,
                        backend,
                        self.keys_shown(
                            backend,
                            Span { start: Bound::Unbounded, end: Bound::Unbounded },
                            false,
                            None,
                        ),
                        listed,
                    )
                    &&& match listed {
                        Ok(entries) => r matches Ok(map) && map@ == map_of(by_text(entries@)),
                        Err(e) => r == Err::<ByteMap<T>, Error>(e),
                    }
                },
    {
        match self.entries(backend) {
            Ok(entries) => Ok(keyed(entries)),
            Err(e) => Err(e),
        }
    }

    /// The keys a listing names.
    pub open spec fn keys_shown<B: Backend>(
        self,
        backend: &B,
        span: Span,
        reverse: bool,
        limit: Option<usize>,
    ) -> Seq<Seq<u8>> {
        listed(
            locker_rows(backend.store().records, self.res.inner.id),
            moves(self.res.staged@),
            span,
            reverse,
            limit,
        )
    }

    /// The shared body of every listing: walk storage, fold in whatever this
    /// handle has staged but not committed, and decode.
    ///
    /// The overlay is not optional. `get`, `len`, `keys` and `contains_key`
    /// all show a staged write to its own handle, so a listing that walked
    /// storage alone would have one locker telling two different stories about
    /// its own uncommitted writes.
    pub fn collect<B: Backend>(
        &self,
        backend: &B,
        start: Bound<&[u8]>,
        end: Bound<&[u8]>,
        reverse: bool,
        limit: Option<usize>,
    ) -> (r: Result<Vec<(Vec<u8>, T)>>)
        ensures
            r is Ok ==> backend.store().is_finite(),
            backend.shut() && !degenerate(user_span(start, end)) ==> (r matches Err(e) && e is Closed),
            listing_answers(
                &self.res.inner,
                backend,
                moves(self.res.staged@),
                self.keys_shown(backend, user_span(start, end), reverse, limit),
                r,
            ),
    {
        match self.res.inner.ensure_open() {
            Ok(()) => {},
            Err(e) => return Err(e),
        }
        let ghost rows = locker_rows(backend.store().records, self.res.inner.id);
        let ghost list = moves(self.res.staged@);
        let ghost span = user_span(start, end);
        if self.res.staged.len() == 0 {
            let keys = match self.res.inner.walk(backend, start, end, reverse) {
                Ok(keys) => keys,
                Err(e) => return Err(e),
            };
            proof {
                assert(list =~= Seq::<Move>::empty());
                nothing_staged_shows_what_is_stored(rows, span);
                walking_reads_the_locker(backend.store().records, self.res.inner.id, span, reverse);
                let dom = keys_within(rows, span);
                assert(views(keys@).len() == listing(dom).len());
                assert forall|i: int| 0 <= i < keys@.len() implies shows(rows, list, #[trigger] views(keys@)[i])
                    == Some(Source::Stored) by {
                    every_listed_key_is_there(dom, reverse, i);
                }
            }
            return self.decode_stored(backend, &keys, limit);
        }
        let stored = match self.res.inner.walk(backend, start, end, false) {
            Ok(keys) => keys,
            Err(e) => return Err(e),
        };
        proof {
            walking_reads_the_locker(backend.store().records, self.res.inner.id, span, false);
        }
        let (cleared, last) = collapse(&self.res.staged);
        let merged = overlay(stored, cleared, &last, start, end, Ghost(rows), Ghost(list));
        self.decode_merged(backend, &merged, reverse, limit)
    }

    /// Decode what one key shows.
    fn decode_one<B: Backend>(&self, backend: &B, key: &[u8], staged: &Option<Vec<u8>>) -> (r: Result<T>)
        requires
            shows(locker_rows(backend.store().records, self.res.inner.id), moves(self.res.staged@), key@) == Some(
                match *staged {
                    Some(payload) => Source::Staged(payload@),
                    None => Source::Stored,
                },
            ),
        ensures
            r matches Ok(v) ==> value_answers::<B, T>(
                &self.res.inner,
                backend,
                moves(self.res.staged@),
                key@,
                v.payload(),
            ),
            backend.answers() && decodable::<B, T>(&self.res.inner, backend, moves(self.res.staged@), key@) ==> r is Ok,
            backend.answers() ==> (r matches Err(e) ==> illegible(
                &self.res.inner,
                backend,
                moves(self.res.staged@),
                key@,
                e,
            )),
    {
        proof {
            reveal(value_answers);
            reveal(decodable);
            reveal(illegible);
        }
        match staged {
            Some(payload) => T::from_payload(payload.as_slice()),
            None => match self.res.inner.load_value::<B, T>(backend, key) {
                Ok(Some(value)) => Ok(value),
                Ok(None) => Err(Error::corrupt("a listed key has no record")),
                Err(e) => Err(e),
            },
        }
    }

    /// Read and decode a list of stored keys, up to a limit.
    fn decode_stored<B: Backend>(&self, backend: &B, keys: &Vec<Vec<u8>>, limit: Option<usize>) -> (r: Result<
        Vec<(Vec<u8>, T)>,
    >)
        requires
            !self.res.inner.closed,
            forall|i: int|
                0 <= i < keys@.len() ==> shows(
                    locker_rows(backend.store().records, self.res.inner.id),
                    moves(self.res.staged@),
                    #[trigger] views(keys@)[i],
                ) == Some(Source::Stored),
        ensures
            listing_answers(
                &self.res.inner,
                backend,
                moves(self.res.staged@),
                limited(views(keys@), limit),
                r,
            ),
    {
        let ghost list = moves(self.res.staged@);
        let ghost all = views(keys@);
        let n: usize = cut_off(keys.len(), limit);
        let ghost named = limited(all, limit);
        assert(named =~= all.take(n as int));
        let mut out: Vec<(Vec<u8>, T)> = Vec::new();
        let mut i: usize = 0;
        while i < n
            invariant
                !self.res.inner.closed,
                list == moves(self.res.staged@),
                all == views(keys@),
                n <= keys@.len(),
                named == all.take(n as int),
                named == limited(all, limit),
                forall|j: int|
                    0 <= j < keys@.len() ==> shows(
                        locker_rows(backend.store().records, self.res.inner.id),
                        list,
                        #[trigger] all[j],
                    ) == Some(Source::Stored),
                i <= n,
                out@.len() == i,
                forall|j: int|
                    0 <= j < i ==> (#[trigger] out@[j]).0@ == named[j] && value_answers::<B, T>(
                        &self.res.inner,
                        backend,
                        list,
                        named[j],
                        out@[j].1.payload(),
                    ),
            decreases n - i,
        {
            assert(all[i as int] == named[i as int]);
            match self.decode_one(backend, keys[i].as_slice(), &None) {
                Ok(value) => out.push((copy(keys[i].as_slice()), value)),
                Err(e) => {
                    assert(backend.answers() ==> !decodable::<B, T>(
                        &self.res.inner,
                        backend,
                        list,
                        named[i as int],
                    ));
                    return Err(e);
                },
            }
            i += 1;
        }
        Ok(out)
    }

    /// Read and decode a merged listing, in order, up to a limit.
    fn decode_merged<B: Backend>(
        &self,
        backend: &B,
        merged: &ByteMap<Option<Vec<u8>>>,
        reverse: bool,
        limit: Option<usize>,
    ) -> (r: Result<Vec<(Vec<u8>, T)>>)
        requires
            !self.res.inner.closed,
            super::listing::sourced(
                merged@,
                locker_rows(backend.store().records, self.res.inner.id),
                moves(self.res.staged@),
            ),
        ensures
            listing_answers(
                &self.res.inner,
                backend,
                moves(self.res.staged@),
                limited(ordered(merged@.dom(), reverse), limit),
                r,
            ),
    {
        let ghost list = moves(self.res.staged@);
        let total: usize = merged.len();
        let ghost keys = merged.keys();
        let n: usize = cut_off(total, limit);
        let ghost all = ordered(merged@.dom(), reverse);
        let ghost named = limited(all, limit);
        assert(named =~= all.take(n as int));
        let mut out: Vec<(Vec<u8>, T)> = Vec::new();
        let mut i: usize = 0;
        while i < n
            invariant
                !self.res.inner.closed,
                list == moves(self.res.staged@),
                super::listing::sourced(
                    merged@,
                    locker_rows(backend.store().records, self.res.inner.id),
                    list,
                ),
                keys == merged.keys(),
                keys == listing(merged@.dom()),
                merged.values().len() == keys.len(),
                forall|k: int|
                    0 <= k < keys.len() ==> merged@.contains_key(#[trigger] keys[k]) && merged@[keys[k]]
                        == merged.values()[k],
                total == keys.len(),
                n <= total,
                all == ordered(merged@.dom(), reverse),
                named == all.take(n as int),
                named == limited(all, limit),
                i <= n,
                out@.len() == i,
                forall|j: int|
                    0 <= j < i ==> (#[trigger] out@[j]).0@ == named[j] && value_answers::<B, T>(
                        &self.res.inner,
                        backend,
                        list,
                        named[j],
                        out@[j].1.payload(),
                    ),
            decreases n - i,
        {
            let at: usize = if reverse {
                total - 1 - i
            } else {
                i
            };
            assert(named[i as int] == keys[at as int]);
            assert(merged@.contains_key(keys[at as int]));
            match self.decode_one(backend, merged.key_at(at).as_slice(), merged.value_at(at)) {
                Ok(value) => out.push((copy(merged.key_at(at).as_slice()), value)),
                Err(e) => {
                    assert(backend.answers() ==> !decodable::<B, T>(
                        &self.res.inner,
                        backend,
                        list,
                        named[i as int],
                    ));
                    return Err(e);
                },
            }
            i += 1;
        }
        Ok(out)
    }

    /// Apply another tab's news: the index and the byte budget follow, and
    /// watchers hear of it. A lazy locker never holds values, so a write too
    /// large to carry costs it nothing: the next `get` reads the new bytes.
    pub fn apply(&mut self, announcement: &Announcement)
        ensures
            same_handle(*final(self), *old(self)),
            final(self).res.staged == old(self).res.staged,
            final(self).corrupt == old(self).corrupt,
            old(self).res.inner.closed || announcement.locker_id != old(self).res.inner.id ==> *final(self) == *old(self),
            !old(self).res.inner.closed && announcement.locker_id == old(self).res.inner.id ==> {
                let list = heard(announcement.cleared, crate::coherence::words(announcement.changes@));
                &&& old(self).res.index is Some ==> keys_in(final(self).res.index) == indexed(
                    keys_in(old(self).res.index),
                    list,
                )
                &&& all_announced(
                    old(self).res.inner.watchers,
                    all_told(list),
                    final(self).res.inner.watchers,
                )
                &&& final(self).res.inner.epochs.memory() == if announcement.cleared {
                    Map::<Seq<u8>, u64>::empty()
                } else {
                    old(self).res.inner.epochs.memory()
                }
                &&& final(self).res.inner.epochs.watermark() == old(self).res.inner.epochs.watermark()
                &&& final(self).res.known_inline@ == claims_left(
                    old(self).res.known_inline@,
                    announcement.cleared,
                    named_in(crate::coherence::words(announcement.changes@)),
                )
                &&& old(self).res.lru matches Some(s) ==> (final(self).res.lru matches Some(now) && (
                ledger_of(now),
                now.dirty_spec(),
            ) == ledger_heard(
                    if announcement.cleared {
                        (emptied(ledger_of(s)), false)
                    } else {
                        (ledger_of(s), s.dirty_spec())
                    },
                    &old(self).res.inner.chain,
                    crate::coherence::words(announcement.changes@),
                ))
            },
    {
        if self.res.inner.closed || announcement.locker_id != self.res.inner.id {
            return ;
        }
        let ghost all = crate::coherence::words(announcement.changes@);
        let ghost list = heard(announcement.cleared, all);
        let ghost keys = keys_in(self.res.index);
        let ghost listening = self.res.inner.watchers;
        if announcement.cleared {
            self.clear_index();
            self.res.forget_inline();
            // The byte budget has to follow the index, or this tab starts
            // evicting against a locker that no longer exists.
            self.res.remote_budget_clear();
            self.res.inner.epochs.forget_local();
            self.res.inner.announce(Event::Cleared);
        }
        let ghost start = self.res;
        let ghost head: int = if announcement.cleared {
            1
        } else {
            0
        };
        proof {
            let front = list.take(head);
            if announcement.cleared {
                assert(front.last() == Move::Clear);
                one_announced(listening, News::Cleared, self.res.inner.watchers);
                assert(all_told(front) =~= seq![News::Cleared]);
            } else {
                assert(front =~= Seq::<Move>::empty());
                nothing_announced(listening);
                assert(all_told(front) =~= Seq::empty());
            }
            assert(ledger_heard((ledger_of(start.lru->0), start.lru->0.dirty_spec()), &self.res.inner.chain, all.take(0))
                == (ledger_of(start.lru->0), start.lru->0.dirty_spec()));
        }
        let mut i: usize = 0;
        assert(self.res.known_inline@ =~= claims_left(
            old(self).res.known_inline@,
            announcement.cleared,
            named_in(all.take(0)),
        ));
        while i < announcement.changes.len()
            invariant
                i <= announcement.changes@.len(),
                all == crate::coherence::words(announcement.changes@),
                list == heard(announcement.cleared, all),
                head == if announcement.cleared {
                    1int
                } else {
                    0int
                },
                list.len() == head + all.len(),
                same_handle(*self, *old(self)),
                self.corrupt == old(self).corrupt,
                self.res.staged == old(self).res.staged,
                self.res.inner.epochs == start.inner.epochs,
                self.res.known_inline@ == claims_left(
                    old(self).res.known_inline@,
                    announcement.cleared,
                    named_in(all.take(i as int)),
                ),
                (start.lru is Some) == (self.res.lru is Some),
                old(self).res.index is Some ==> keys_in(self.res.index) == indexed(keys, list.take(head + i)),
                all_announced(listening, all_told(list.take(head + i)), self.res.inner.watchers),
                self.res.lru matches Some(now) ==> (ledger_of(now), now.dirty_spec()) == ledger_heard(
                    (ledger_of(start.lru->0), start.lru->0.dirty_spec()),
                    &old(self).res.inner.chain,
                    all.take(i as int),
                ),
            decreases announcement.changes.len() - i,
        {
            let change = &announcement.changes[i];
            proof {
                let m = list[head + i];
                assert(all.take(i + 1).drop_last() =~= all.take(i as int));
                assert(all.take(i + 1).last() == change@);
                assert(list.take(head + i + 1) =~= list.take(head + i).push(m));
                assert(list.take(head + i + 1).drop_last() =~= list.take(head + i));
                assert(m == move_of(change@));
                assert(all_told(list.take(head + i + 1)) =~= all_told(list.take(head + i)).push(told(m)));
            }
            let ghost was = self.res.inner.watchers;
            self.fold_in(change);
            proof {
                one_more_announced(
                    listening,
                    all_told(list.take(head + i)),
                    was,
                    told(list[head + i]),
                    self.res.inner.watchers,
                );
                let claims = old(self).res.known_inline@;
                let named = named_in(all.take(i as int));
                assert(named_in(all.take(i + 1)) =~= named.push(change.key@));
                named.lemma_push_to_set_commute(change.key@);
                assert(self.res.known_inline@ =~= claims_left(
                    claims,
                    announcement.cleared,
                    named_in(all.take(i + 1)),
                ));
            }
            i += 1;
        }
        assert(list.take(head + all.len()) =~= list);
        assert(all.take(all.len() as int) =~= all);
    }

    /// Fold one word of another tab's into the index, the byte budget and the
    /// news.
    fn fold_in(&mut self, change: &crate::coherence::Change)
        ensures
            same_handle(*final(self), *old(self)),
            final(self).corrupt == old(self).corrupt,
            final(self).res.staged == old(self).res.staged,
            final(self).res.inner.epochs == old(self).res.inner.epochs,
            final(self).res.known_inline@ == old(self).res.known_inline@.remove(change.key@),
            old(self).res.index is Some ==> keys_in(final(self).res.index) == (if change.deleted {
                keys_in(old(self).res.index).remove(change.key@)
            } else {
                keys_in(old(self).res.index).insert(change.key@)
            }),
            announced(old(self).res.inner.watchers, told(move_of(change@)), final(self).res.inner.watchers),
            old(self).res.lru matches Some(s) ==> (final(self).res.lru matches Some(now) && (
                ledger_of(now),
                now.dirty_spec(),
            ) == remote_step(
                (ledger_of(s), s.dirty_spec()),
                change.key@,
                heard_size(&old(self).res.inner.chain, change@),
                change.deleted,
            )),
    {
        match &mut self.res.index {
            None => {},
            Some(index) => {
                let ghost was = index@.dom();
                if change.deleted {
                    index.remove(change.key.as_slice());
                    assert(index@.dom() =~= was.remove(change.key@));
                } else {
                    index.insert(copy(change.key.as_slice()), ());
                    assert(index@.dom() =~= was.insert(change.key@));
                }
            },
        }
        self.res.note_inline(change.key.as_slice(), false);
        // An inlined value is opened through this tab's own filter chain, and
        // a chunked one announced its payload length.
        let bytes: Option<u64> = match &change.value {
            Some(sealed) => match self.res.inner.chain.open(sealed.as_slice()) {
                Ok(payload) => Some(payload.len() as u64),
                Err(_) => None,
            },
            None => change.bytes,
        };
        self.res.remote_budget(change.key.as_slice(), bytes, change.deleted);
        if change.deleted {
            self.res.inner.announce(Event::Deleted { key: copy(change.key.as_slice()) });
        } else {
            self.res.inner.announce(Event::Put { key: copy(change.key.as_slice()) });
        }
    }

    /// Empty the index.
    fn clear_index(&mut self)
        ensures
            final(self).corrupt == old(self).corrupt,
            final(self).res.inner == old(self).res.inner,
            final(self).res.mode == old(self).res.mode,
            final(self).res.staged == old(self).res.staged,
            final(self).res.lru == old(self).res.lru,
            final(self).res.known_inline == old(self).res.known_inline,
            (final(self).res.index is Some) == (old(self).res.index is Some),
            keys_in(final(self).res.index) == Set::<Seq<u8>>::empty(),
    {
        match &mut self.res.index {
            None => {},
            Some(index) => {
                index.clear();
                assert(index@.dom() =~= Set::<Seq<u8>>::empty());
            },
        }
    }

    /// Payload bytes this locker is accounted as holding, or 0 when it has no
    /// budget to hold them against.
    pub fn budget_used(&self) -> (n: u64)
        ensures
            n == match self.res.lru {
                Some(s) => s.total_spec(),
                None => 0,
            },
    {
        self.res.budget_used()
    }

    /// Shed least-recently-used keys until at most `bytes` remain accounted.
    ///
    /// Says how many keys went. A locker without a budget sheds nothing: this
    /// never turns a locker that refuses eviction into one that performs it.
    pub fn evict_to<B: Backend>(&mut self, shared: &mut Shared<B>, bytes: u64) -> (r: Result<usize>)
        ensures
            final(shared).carries_on(*old(shared)),
            final(shared).stays_forced(*old(shared), old(self).res.inner.config.durability),
            final(shared).told(*old(shared), old(self).res.inner, final(self).res.inner),
            same_handle(*final(self), *old(self)),
            final(self).corrupt == old(self).corrupt,
            final(self).res.staged == old(self).res.staged,
            old(self).res.inner.closed ==> (r matches Err(e) && e is Closed) && *final(self) == *old(self) && *final(shared)
                == *old(shared),
            r is Err ==> final(shared).backend.store() == old(shared).backend.store() && final(self).res == old(self).res,
            !old(self).res.inner.closed && old(self).res.lru is None ==> r == Ok::<usize, Error>(0) && *final(shared)
                == *old(shared),
            old(self).res.lru matches Some(s) ==> (r matches Ok(n) ==> exists|plan: Plan|
                {
                    &&& #[trigger] plan_fits(
                        s.books(),
                        s.total_spec(),
                        Seq::empty(),
                        Seq::empty(),
                        false,
                        bytes,
                        Seq::empty(),
                        plan,
                    )
                    &&& n == plan.victims@.len()
                    &&& shed_landed(
                        old(self).res,
                        old(shared).backend.store(),
                        plan,
                        final(self).res,
                        final(shared).backend.store(),
                    )
                }),
            !old(self).res.inner.closed && old(shared).backend.answers() && legible(
                old(shared).backend.store().records,
                old(self).res.inner.id,
            ) ==> r is Ok,
    {
        match self.res.inner.ensure_open() {
            Ok(()) => {},
            Err(e) => return Err(e),
        }
        self.res.evict_to(shared, bytes)
    }

    /// The locker's name.
    pub fn name(&self) -> (name: &str)
        ensures
            name@ == self.res.inner.name@,
    {
        self.res.inner.name.as_str()
    }

    /// Close this locker: drop its resident key index and refuse further use.
    ///
    /// Flushes first, and closes even if the flush fails. A failed flush has
    /// written nothing and the staged batch is the only copy of it, so it is
    /// only let go once it is stored. Idempotent, and it does not delete
    /// anything: reopening the same name finds the data untouched.
    pub fn close<B: Backend>(&mut self, shared: &mut Shared<B>) -> (r: Result<()>)
        requires
            old(self).res.mode is Lazy,
            old(self).res.can_flush(),
        ensures
            final(shared).handles.seats() == but(old(shared).handles.seats(), old(self).res.inner.ticket),
            old(shared).handles.wf() ==> final(shared).handles.wf(),
            final(self).res.inner.closed,
            final(self).res.mode == old(self).res.mode,
            final(shared).keeps_pace(*old(shared)),
            final(shared).handles.upcoming() == old(shared).handles.upcoming(),
            (Inner { closed: old(self).res.inner.closed, ..final(self).res.inner }).same_but_news(old(self).res.inner),
            final(shared).stays_forced(*old(shared), old(self).res.inner.config.durability),
            final(shared).told(*old(shared), old(self).res.inner, final(self).res.inner),
            old(self).res.inner.config.durability is Eventual && (r is Ok || old(shared).backend.answers())
                ==> final(shared).backend.forced(),
            exists|mid: Resident| #[trigger]
                flush_through(old(self).res, *old(shared), r is Ok, mid, *final(shared)) && final(self).res == (Resident {
                    inner: (Inner { closed: true, ..mid.inner }),
                    index: final(self).res.index,
                    ..mid
                }),
            final(self).corrupt == old(self).corrupt,
            keys_in(final(self).res.index) == Set::<Seq<u8>>::empty(),
            old(self).res.staged@.len() == 0 ==> final(shared).backend.store() == old(shared).backend.store() && final(self).res.staged@.len() == 0,
            old(self).res.staged@.len() > 0 ==> (final(shared).backend.store() == old(shared).backend.store() && r is Err
                && final(self).res.staged@ == old(self).res.staged@) || (final(self).res.staged@.len() == 0 && exists|
                b: Budget,
            | #[trigger]
                batch_landed(
                    old(self).res,
                    *old(shared),
                    moves(old(self).res.staged@),
                    b,
                    final(shared).backend.store(),
                    final(shared).next_id_from(old(shared).backend.store()),
                )),
            can_land(old(self).res, *old(shared), moves(old(self).res.staged@)) ==> r is Ok,
    {
        let flushed = self.flush(shared);
        let ghost inner = self.res.inner;
        let ghost mid = self.res;
        self.res.inner.closed = true;
        let ghost landed = *shared;
        assert(landed.told(*old(shared), old(self).res.inner, inner));
        shared.handles.release(self.res.inner.ticket);
        assert(shared.next_id_from(old(shared).backend.store()) == landed.next_id_from(old(shared).backend.store()));
        self.clear_index();
        proof {
            assert(shared.coherence == landed.coherence && shared.backend == landed.backend);
            assert(self.res.inner.epochs == inner.epochs);
            assert(shared.told(*old(shared), old(self).res.inner, self.res.inner));
            assert(flush_through(old(self).res, *old(shared), flushed is Ok, mid, landed));
            assert(flush_through(old(self).res, *old(shared), flushed is Ok, mid, *shared));
        }
        flushed
    }

    /// Whether [`LazyLocker::close`] has been called: the only way to tell a
    /// closed locker from an empty one.
    pub fn is_closed(&self) -> (b: bool)
        ensures
            b == self.res.inner.closed,
    {
        self.res.inner.closed
    }

    /// Keys this locker is known to hold unreadable bytes for, in byte order.
    ///
    /// A record of what *has been hit*, and only where the locker is set to
    /// skip damage; not a survey.
    pub fn corrupt_keys(&self) -> (keys: Vec<Vec<u8>>)
        ensures
            views(keys@) == listing(self.corrupt@.dom()),
    {
        self.corrupt.key_list()
    }

    /// Number of keys. The index is already here.
    pub fn len(&self) -> (n: usize)
        ensures
            n == keys_in(self.res.index).len(),
    {
        match &self.res.index {
            Some(index) => index.len(),
            None => 0,
        }
    }

    /// Whether there are no keys.
    pub fn is_empty(&self) -> (b: bool)
        ensures
            b == (keys_in(self.res.index).len() == 0),
    {
        self.len() == 0
    }

    /// Answered from the index without touching storage.
    pub fn contains_key(&self, key: &str) -> (b: bool)
        ensures
            b == keys_in(self.res.index).contains(key.spec_bytes()),
    {
        self.contains_key_by(name_bytes(key).as_slice())
    }

    /// As [`LazyLocker::contains_key`], under a binary key.
    pub fn contains_key_by(&self, key: &[u8]) -> (b: bool)
        ensures
            b == keys_in(self.res.index).contains(key@),
    {
        match &self.res.index {
            Some(index) => index.contains_key(key),
            None => false,
        }
    }

    /// Every UTF-8 key, in byte order. The others are skipped;
    /// [`LazyLocker::has_non_utf8_keys`] says whether any were.
    pub fn keys(&self) -> (keys: Vec<String>)
        ensures
            spelt(keys@) == texts(listing(keys_in(self.res.index))),
    {
        utf8_keys(&self.keys_bytes())
    }

    /// Every key as raw bytes, in byte order.
    pub fn keys_bytes(&self) -> (keys: Vec<Vec<u8>>)
        ensures
            views(keys@) == listing(keys_in(self.res.index)),
    {
        match &self.res.index {
            Some(index) => index.key_list(),
            None => {
                let empty: ByteMap<()> = ByteMap::new();
                assert(empty@.dom() =~= Set::<Seq<u8>>::empty());
                empty.key_list()
            },
        }
    }

    /// Whether this locker holds any key that [`LazyLocker::keys`] cannot
    /// return.
    pub fn has_non_utf8_keys(&self) -> (b: bool)
        ensures
            b == exists|i: int|
                0 <= i < listing(keys_in(self.res.index)).len() && !valid_utf8(
                    #[trigger] listing(keys_in(self.res.index))[i],
                ),
    {
        let keys = self.keys_bytes();
        let b: bool = any_not_utf8(&keys);
        proof {
            let all = listing(keys_in(self.res.index));
            if b {
                let i = choose|i: int| 0 <= i < keys@.len() && !valid_utf8((#[trigger] keys@[i])@);
                assert(all[i] == keys@[i]@);
            } else if exists|i: int| 0 <= i < all.len() && !valid_utf8(#[trigger] all[i]) {
                let i = choose|i: int| 0 <= i < all.len() && !valid_utf8(#[trigger] all[i]);
                assert(all[i] == keys@[i]@);
            }
        }
        b
    }

    /// Keys beginning with `prefix`, in byte order. UTF-8 keys only.
    pub fn keys_with_prefix(&self, prefix: &str) -> (keys: Vec<String>)
        ensures
            spelt(keys@) == texts(listing(prefixed(keys_in(self.res.index), prefix.spec_bytes()))),
    {
        utf8_keys(&self.keys_with_prefix_by(name_bytes(prefix).as_slice()))
    }

    /// As [`LazyLocker::keys_with_prefix`], over a binary prefix.
    pub fn keys_with_prefix_by(&self, prefix: &[u8]) -> (keys: Vec<Vec<u8>>)
        ensures
            views(keys@) == listing(prefixed(keys_in(self.res.index), prefix@)),
    {
        match &self.res.index {
            Some(index) => keys_with_prefix(index, prefix),
            None => {
                let empty: ByteMap<()> = ByteMap::new();
                assert(empty@.dom() =~= Set::<Seq<u8>>::empty());
                keys_with_prefix(&empty, prefix)
            },
        }
    }

    /// Subscribe to every change in this locker.
    pub fn watch(&mut self) -> (stream: EventStream)
        ensures
            only_watched(*final(self), *old(self)),
            subscribed(
                old(self).res.inner.watchers,
                None,
                DEFAULT_CAPACITY,
                stream,
                final(self).res.inner.watchers,
            ),
    {
        self.res.inner.watchers.subscribe(None, DEFAULT_CAPACITY)
    }

    /// Subscribe to changes affecting any of `keys`. `Cleared` and `Lagged`
    /// always arrive.
    pub fn watch_keys(&mut self, keys: &Vec<String>) -> (stream: EventStream)
        ensures
            only_watched(*final(self), *old(self)),
            subscribed(
                old(self).res.inner.watchers,
                Some(spelt(keys@)),
                DEFAULT_CAPACITY,
                stream,
                final(self).res.inner.watchers,
            ),
    {
        let filter = super::listing::key_bytes_of(keys);
        self.res.inner.watchers.subscribe(Some(filter), DEFAULT_CAPACITY)
    }

    /// Subscribe to changes affecting one key. `Cleared` still arrives,
    /// because a clear affects every key.
    pub fn watch_key(&mut self, key: &str) -> (stream: EventStream)
        ensures
            only_watched(*final(self), *old(self)),
            subscribed(
                old(self).res.inner.watchers,
                Some(seq![key.spec_bytes()]),
                DEFAULT_CAPACITY,
                stream,
                final(self).res.inner.watchers,
            ),
    {
        let mut filter: Vec<Vec<u8>> = Vec::new();
        filter.push(name_bytes(key));
        assert(views(filter@) =~= seq![key.spec_bytes()]);
        self.res.inner.watchers.subscribe(Some(filter), DEFAULT_CAPACITY)
    }

    /// Stage a write, and flush where the batch is full.
    fn stage_and_flush<B: Backend>(&mut self, shared: &mut Shared<B>, entry: Pending) -> (r: Result<()>)
        requires
            old(self).res.mode is Lazy,
            old(self).res.inner.config.chunk_size > 0,
        ensures
            final(shared).carries_on(*old(shared)),
            final(shared).stays_forced(*old(shared), old(self).res.inner.config.durability),
            final(shared).told(*old(shared), old(self).res.inner, final(self).res.inner),
            final(self).corrupt == old(self).corrupt,
            same_handle(*final(self), *old(self)),
            old(self).res.index is Some ==> deferred_write(
                old(self).res,
                *old(shared),
                entry@,
                final(self).res,
                *final(shared),
                r is Ok,
            ),
    {
        let event = entry.event();
        match &mut self.res.index {
            None => {},
            Some(index) => {
                let mut one: Vec<Pending> = Vec::new();
                one.push(entry.copied());
                assert(moves(one@) =~= seq![entry@]);
                apply_to_index(index, &one);
            },
        }
        let full: bool = self.res.stage(entry);
        self.res.inner.announce(event);
        assert(old(self).res.index is Some ==> staged_one(old(self).res, entry@, self.res));
        let ghost mid = self.res;
        if full {
            proof {
                let list = moves(old(self).res.staged@).push(entry@);
                assert(can_land(old(self).res, *shared, list) ==> can_land(mid, *shared, list));
            }
            return self.res.flush(shared);
        }
        Ok(())
    }
}

/// What another tab's word says was done.
pub open spec fn move_of(word: Word) -> Move {
    if word.deleted {
        Move::Delete { key: word.key }
    } else {
        Move::Put { key: word.key, payload: Seq::empty() }
    }
}

/// What another tab's news says was done, in order.
pub open spec fn heard(cleared: bool, words: Seq<Word>) -> Seq<Move> {
    (if cleared {
        seq![Move::Clear]
    } else {
        Seq::empty()
    }) + Seq::new(words.len(), |i: int| move_of(words[i]))
}

/// The size another tab's word tells, where it tells one.
pub open spec fn heard_size(chain: &FilterChain, word: Word) -> Option<u64> {
    match word.value {
        Some(sealed) => match chain.opened(sealed) {
            Some(payload) => Some(payload.len() as u64),
            None => None,
        },
        None => word.bytes,
    }
}

/// An accounting with nothing in it.
pub open spec fn emptied(l: Ledger) -> Ledger {
    Ledger { books: Map::empty(), total: 0, deferred: Map::empty(), limit: l.limit }
}

/// An accounting once another tab's words are folded in.
pub open spec fn ledger_heard(l: (Ledger, bool), chain: &FilterChain, words: Seq<Word>) -> (Ledger, bool)
    decreases words.len(),
{
    if words.len() == 0 {
        l
    } else {
        let so_far = ledger_heard(l, chain, words.drop_last());
        let word = words.last();
        remote_step(so_far, word.key, heard_size(chain, word), word.deleted)
    }
}

/// What is still held to be inline once another tab wrote some keys: nothing of
/// those, and nothing at all once it cleared the locker.
pub open spec fn claims_left(claims: Map<Seq<u8>, ()>, cleared: bool, named: Seq<Seq<u8>>) -> Map<Seq<u8>, ()> {
    if cleared {
        Map::empty()
    } else {
        claims.remove_keys(named.to_set())
    }
}

/// The same locker but for who watches it.
pub open spec fn only_watched<T>(a: LazyLocker<T>, b: LazyLocker<T>) -> bool {
    &&& a.corrupt == b.corrupt
    &&& a.res == (Resident { inner: (Inner { watchers: a.res.inner.watchers, ..b.res.inner }), ..b.res })
}

/// The same locker, whatever happened to what it holds.
pub open spec fn same_handle<T>(a: LazyLocker<T>, b: LazyLocker<T>) -> bool {
    &&& a.res.mode == b.res.mode
    &&& (a.res.index is Some) == (b.res.index is Some)
    &&& (a.res.lru is Some) == (b.res.lru is Some)
    &&& a.res.inner.same_but_news(b.res.inner)
}

/// `r` is what reading a key of this locker gives.
pub open spec fn read_through<B: Backend, T: Value>(
    before: LazyLocker<T>,
    shared: Shared<B>,
    key: Seq<u8>,
    r: Result<Option<T>>,
    after: LazyLocker<T>,
    now: Shared<B>,
) -> bool {
    &&& now.backend == shared.backend
    &&& now.values == shared.values
    &&& now.coherence == shared.coherence
    &&& now.tabs == shared.tabs
    &&& now.handles == shared.handles
    &&& after.res.inner == before.res.inner
    &&& after.res.index == before.res.index
    &&& after.res.staged == before.res.staged
    &&& after.res.known_inline == before.res.known_inline
    &&& same_handle(after, before)
    &&& before.res.inner.closed ==> (r matches Err(e) && e is Closed) && after == before && now == shared
    &&& !before.res.inner.closed && (r is Ok || (shared.backend.answers() && (before.res.lru is None || clock_runs(
        shared,
    )))) ==> sees::<B, T>(moves(before.res.staged@), &before.res.inner, &shared.backend, key, r)
    &&& !before.res.inner.closed && reads(moves(before.res.staged@), key) is Some ==> after == before && now == shared
    &&& !before.res.inner.closed && reads(moves(before.res.staged@), key) is None ==> exists|found: Result<Option<T>>| #[trigger]
        loads::<B, T>(&before.res.inner, &shared.backend, key, found) && read_noted(
            before,
            shared,
            key,
            found,
            r,
            after,
            now,
        )
}

/// What reading a key makes of what storage held: a value that was found counts
/// as a use of its key, and a key whose bytes would not decode is remembered
/// where the locker is set to skip those.
pub open spec fn read_noted<B: Backend, T: Value>(
    before: LazyLocker<T>,
    shared: Shared<B>,
    key: Seq<u8>,
    found: Result<Option<T>>,
    r: Result<Option<T>>,
    after: LazyLocker<T>,
    now: Shared<B>,
) -> bool {
    &&& after.corrupt@ == if before.res.inner.config.on_corrupt is Skip && (found matches Err(e)
        && e.spec_is_corruption()) {
        before.corrupt@.insert(key, ())
    } else {
        before.corrupt@
    }
    &&& match found {
        Ok(Some(_)) => use_noted(before.res.lru, shared, key, r is Ok, after.res.lru, now) && (r is Ok ==> r == found),
        _ => r == found && after.res.lru == before.res.lru && now.ticks == shared.ticks,
    }
}

/// What flushing gives: nothing where nothing is staged, the whole batch
/// stored, or the whole batch still staged.
pub open spec fn flush_through<B: Backend>(
    before: Resident,
    shared: Shared<B>,
    ok: bool,
    after: Resident,
    now: Shared<B>,
) -> bool {
    let list = moves(before.staged@);
    ||| {
        &&& now.backend.store() == shared.backend.store()
        &&& after.staged@ == before.staged@
        &&& after.index == before.index
        &&& after.inner == before.inner
        &&& same_books(after, before, shared.backend.store().meta)
        &&& before.staged@.len() == 0 || !ok
        &&& before.staged@.len() == 0 ==> after == before
    }
    ||| {
        &&& before.staged@.len() > 0
        &&& after.staged@.len() == 0
        &&& exists|b: Budget, stored: Store|
            {
                &&& #[trigger] batch_landed(
                    before,
                    shared,
                    list,
                    b,
                    stored,
                    now.next_id_from(shared.backend.store()),
                )
                &&& now.backend.store() == stored
                &&& budget_applied(before, shared.backend.store().meta, b, after)
            }
    }
}

/// `r` is what removing a key gives.
pub open spec fn delete_through<B: Backend, T: Value>(
    before: LazyLocker<T>,
    shared: Shared<B>,
    key: Seq<u8>,
    r: Result<()>,
    after: LazyLocker<T>,
    now: Shared<B>,
) -> bool {
    let defers = before.res.inner.config.batch() is Some;
    &&& same_handle(after, before)
    &&& after.corrupt == before.corrupt
    &&& before.res.inner.closed ==> (r matches Err(e) && e is Closed) && after == before && now == shared
    &&& !before.res.inner.closed && defers && before.res.index is Some ==> deferred_write(
        before.res,
        shared,
        Move::Delete { key },
        after.res,
        now,
        r is Ok,
    )
    &&& !defers && r is Err ==> now.backend.store() == shared.backend.store() && after.res.inner == before.res.inner
        && after.res.index == before.res.index && after.res.staged == before.res.staged && same_books(
        after.res,
        before.res,
        shared.backend.store().meta,
    )
    &&& !defers && r is Ok && before.res.index is Some ==> exists|b: Budget| #[trigger]
        delete_landed(before.res, shared, key, b, after.res, now.backend.store())
    &&& !defers && r is Ok ==> after.res.staged == before.res.staged && now.values == shared.values
    &&& !before.res.inner.closed && !defers && delete_can_land(before.res, shared, key) ==> r is Ok
    &&& !before.res.inner.closed && !defers && shared.backend.answers() ==> (r matches Err(e) ==> gc_refused(
        shared.backend.store().records,
        before.res.inner.id,
        key,
        e,
    ) || budget_refused(before.res, shared, e))
    &&& !before.res.inner.closed && !defers && shared.backend.shut() ==> (r matches Err(e)
        && before.res.inner.shut_out(e))
}

/// Nothing stands in the way of a single delete.
pub open spec fn delete_can_land<B: Backend>(res: Resident, shared: Shared<B>, key: Seq<u8>) -> bool {
    let prior = res.prior_spec(key, shared.trusts(res.inner));
    let store = shared.backend.store();
    &&& shared.backend.answers()
    &&& gc_list(store.records, res.inner.id, key, prior) is Some
    &&& res.lru is None || (clock_runs(shared) && legible(store.records, res.inner.id))
}

/// `r` is what clearing the locker gives.
pub open spec fn clear_through<B: Backend, T: Value>(
    before: LazyLocker<T>,
    shared: Shared<B>,
    r: Result<()>,
    after: LazyLocker<T>,
    now: Shared<B>,
) -> bool {
    let defers = before.res.inner.config.batch() is Some;
    &&& same_handle(after, before)
    &&& after.corrupt == before.corrupt
    &&& before.res.inner.closed ==> (r matches Err(e) && e is Closed) && after == before && now == shared
    &&& !before.res.inner.closed && defers && before.res.index is Some ==> deferred_write(
        before.res,
        shared,
        Move::Clear,
        after.res,
        now,
        r is Ok,
    )
    &&& !defers && r is Err ==> now.backend.store() == shared.backend.store() && after.res.inner == before.res.inner
        && after.res.index == before.res.index && after.res.staged == before.res.staged && same_books(
        after.res,
        before.res,
        shared.backend.store().meta,
    )
    &&& !defers && r is Ok && before.res.index is Some ==> exists|b: Budget| #[trigger]
        clear_landed(before.res, shared, b, after.res, now.backend.store())
    &&& !defers && r is Ok ==> after.res.staged == before.res.staged && now.values == shared.values
    &&& !before.res.inner.closed && !defers && shared.backend.answers() && (before.res.lru is None || (clock_runs(
        shared,
    ) && legible(shared.backend.store().records, before.res.inner.id))) ==> r is Ok
    &&& !before.res.inner.closed && !defers && shared.backend.answers() ==> (r matches Err(e) ==> budget_refused(
        before.res,
        shared,
        e,
    ))
    &&& !before.res.inner.closed && !defers && shared.backend.shut() ==> (r matches Err(e)
        && before.res.inner.shut_out(e))
}

/// What a landed transaction did to the resident state.
pub open spec fn commit_settled(before: Resident, store: Store, list: Seq<Move>, b: Budget, after: Resident) -> bool {
    let victims = views(b.plan.victims@);
    &&& after.staged@.len() == 0
    &&& keys_in(after.index) == indexed(keys_in(before.index), list).difference(victims.to_set())
    &&& all_announced(
        before.inner.watchers,
        all_evicted(victims) + all_told(list),
        after.inner.watchers,
    )
    &&& ledger_moved(before, store, b, after)
    &&& after.known_inline@ == Map::<Seq<u8>, ()>::empty()
}

/// `r` is what committing a transaction's write-set gives: all of it stored,
/// with whatever was staged before it, or none.
pub open spec fn commit_through<B: Backend, T: Value>(
    before: LazyLocker<T>,
    shared: Shared<B>,
    list: Seq<Move>,
    r: Result<()>,
    after: LazyLocker<T>,
    now: Shared<B>,
) -> bool {
    let all = moves(before.res.staged@) + list;
    &&& same_handle(after, before)
    &&& after.corrupt == before.corrupt
    &&& before.res.inner.closed ==> (r matches Err(e) && e is Closed) && after == before && now == shared
    &&& !before.res.inner.closed && list.len() == 0 ==> r is Ok && after == before && now == shared
    &&& r is Err ==> now.backend.store() == shared.backend.store() && after.res.inner == before.res.inner
        && after.res.index == before.res.index && after.res.staged@ == before.res.staged@ && same_books(
        after.res,
        before.res,
        shared.backend.store().meta,
    )
    &&& r is Ok && list.len() > 0 && before.res.index is Some ==> exists|b: Budget|
        {
            &&& #[trigger] batch_landed(
                before.res,
                shared,
                all,
                b,
                now.backend.store(),
                now.next_id_from(shared.backend.store()),
            )
            &&& commit_settled(before.res, shared.backend.store(), list, b, after.res)
        }
    &&& !before.res.inner.closed && can_land(before.res, shared, all) ==> r is Ok
    &&& !before.res.inner.closed && list.len() > 0 && shared.backend.shut() ==> (r matches Err(e)
        && before.res.inner.shut_out(e))
    &&& !before.res.inner.closed && list.len() > 0 && shared.backend.answers() ==> (r matches Err(e)
        ==> batch_refused(before.res, shared, all, e))
}

/// The writes that storing some entries takes.
pub open spec fn puts_of<T: Value>(entries: Seq<(String, T)>) -> Seq<Move> {
    Seq::new(
        entries.len(),
        |i: int| Move::Put { key: vstd::utf8::encode_utf8(entries[i].0@), payload: entries[i].1.payload() },
    )
}

/// The writes that removing some keys takes.
pub open spec fn deletes_of(keys: Seq<String>) -> Seq<Move> {
    Seq::new(keys.len(), |i: int| Move::Delete { key: vstd::utf8::encode_utf8(keys[i]@) })
}

/// Stage a list of puts.
pub(crate) fn stage_puts<T: Value>(entries: Vec<(String, T)>) -> (r: Result<Transaction<T>>)
    ensures
        r is Ok <==> forall|i: int| 0 <= i < entries@.len() ==> (#[trigger] entries@[i]).1.packs(),
        r matches Ok(tx) ==> tx.wf() && tx.staged_moves() == puts_of(entries@),
{
    let ghost all = puts_of(entries@);
    let mut tx: Transaction<T> = Transaction::new();
    assert(tx.staged_moves() =~= all.take(0));
    for entry in it: entries
        invariant
            it.seq() == entries@,
            all == puts_of(entries@),
            tx.wf(),
            tx.staged_moves() == all.take(it.index() as int),
            forall|i: int| 0 <= i < it.index() ==> (#[trigger] entries@[i]).1.packs(),
    {
        let ghost i = it.index() as int;
        assert(entry == entries@[i]);
        assert(all.take(i + 1) =~= all.take(i).push(all[i]));
        match tx.put(entry.0.as_str(), entry.1) {
            Ok(()) => {},
            Err(e) => return Err(e),
        }
    }
    assert(all.take(entries@.len() as int) =~= all);
    Ok(tx)
}

/// Stage a list of deletes.
pub(crate) fn stage_deletes<T: Value>(keys: &Vec<String>) -> (tx: Transaction<T>)
    ensures
        tx.wf(),
        tx.staged_moves() == deletes_of(keys@),
{
    let ghost all = deletes_of(keys@);
    let mut tx: Transaction<T> = Transaction::new();
    let mut i: usize = 0;
    assert(tx.staged_moves() =~= all.take(0));
    while i < keys.len()
        invariant
            i <= keys@.len(),
            all == deletes_of(keys@),
            tx.wf(),
            tx.staged_moves() == all.take(i as int),
        decreases keys.len() - i,
    {
        assert(all.take(i + 1) =~= all.take(i as int).push(all[i as int]));
        let _staged = tx.delete(keys[i].as_str());
        i += 1;
    }
    assert(all.take(keys@.len() as int) =~= all);
    tx
}

/// `r` is what storing a value in this locker gives.
pub open spec fn put_through<B: Backend, T: Value>(
    before: LazyLocker<T>,
    shared: Shared<B>,
    key: Seq<u8>,
    value: &T,
    r: Result<()>,
    after: LazyLocker<T>,
    now: Shared<B>,
) -> bool {
    let payload = value.payload();
    let defers = before.res.inner.config.batch() is Some;
    &&& same_handle(after, before)
    &&& after.corrupt == before.corrupt
    &&& before.res.inner.closed ==> (r matches Err(e) && e is Closed)
    &&& before.res.inner.closed || !value.packs() ==> r is Err && after == before && now == shared
    &&& !before.res.inner.closed && value.packs() && defers && before.res.index is Some ==> deferred_write(
        before.res,
        shared,
        Move::Put { key, payload },
        after.res,
        now,
        r is Ok,
    )
    &&& !defers && r is Err ==> now.backend.store() == shared.backend.store() && after.res.inner == before.res.inner
        && after.res.index == before.res.index && after.res.staged == before.res.staged && same_books(
        after.res,
        before.res,
        shared.backend.store().meta,
    )
    &&& !defers && r is Ok && before.res.index is Some ==> exists|b: Budget| #[trigger]
        put_landed(before.res, shared, key, payload, b, after.res, now.backend.store())
    &&& !defers && r is Ok ==> after.res.staged == before.res.staged && now.next_id_from(shared.backend.store())
        == id_after(before.res.inner.config, payload.len(), FLAG_POSTCARD, shared.next_id())
    &&& !before.res.inner.closed && value.packs() && !defers && put_can_land(before.res, shared, key, payload) ==> r is Ok
    &&& !before.res.inner.closed && value.packs() && !defers && shared.backend.shut() ==> (r matches Err(e)
        && before.res.inner.shut_out(e))
    &&& !before.res.inner.closed && value.packs() && !defers && shared.backend.answers() ==> (r matches Err(e)
        ==> put_refused(
        before.res.inner,
        shared.backend.store().records,
        shared.values.upcoming(shared.backend.store()),
        key,
        payload,
        FLAG_POSTCARD,
        e,
    ) || budget_refused(before.res, shared, e))
}

/// Nothing stands in the way of a single put.
pub open spec fn put_can_land<B: Backend>(res: Resident, shared: Shared<B>, key: Seq<u8>, payload: Seq<u8>) -> bool {
    let prior = res.prior_spec(key, shared.trusts(res.inner));
    let store = shared.backend.store();
    &&& shared.backend.answers()
    &&& gc_list(store.records, res.inner.id, key, prior) is Some
    &&& res.inner.fits(payload, FLAG_POSTCARD)
    &&& kept_inline(res.inner.config, payload.len(), FLAG_POSTCARD) || (shared.values.upcoming(store) matches Some(id)
        && id < u64::MAX)
    &&& res.lru is None || (clock_runs(shared) && legible(store.records, res.inner.id))
}

/// Commit the ops of a single put.
fn commit_put<B: Backend>(res: &mut Resident, shared: &mut Shared<B>, key: &[u8], payload: Vec<u8>) -> (r: Result<
    Budget,
>)
    requires
        old(res).inner.config.chunk_size > 0,
    ensures
        old(shared).backend.shut() ==> (r matches Err(e) && old(res).inner.shut_out(e)),
        old(shared).backend.answers() ==> (r matches Err(e) ==> put_refused(
            old(res).inner,
            old(shared).backend.store().records,
            old(shared).values.upcoming(old(shared).backend.store()),
            key@,
            payload@,
            FLAG_POSTCARD,
            e,
        ) || budget_refused(*old(res), *old(shared), e)),
        final(shared).carries_on(*old(shared)),
        final(shared).stays_forced(*old(shared), old(res).inner.config.durability),
        final(shared).told(*old(shared), old(res).inner, final(res).inner),
        final(res).inner.same_but_news(old(res).inner),
        final(res).inner.watchers == old(res).inner.watchers,
        final(res).mode == old(res).mode,
        final(res).index == old(res).index,
        final(res).staged == old(res).staged,
        final(res).known_inline == old(res).known_inline,
        (final(res).lru is Some) == (old(res).lru is Some),
        r is Err ==> final(shared).backend.store() == old(shared).backend.store() && final(res).inner
            == old(res).inner && same_books(*final(res), *old(res), old(shared).backend.store().meta),
        r matches Ok(b) ==> put_stored(*old(res), *old(shared), key@, payload@, b, final(shared).backend.store())
            && final(shared).next_id_from(old(shared).backend.store()) == id_after(
            old(res).inner.config,
            payload@.len(),
            FLAG_POSTCARD,
            old(shared).next_id(),
        ),
        r is Ok && old(res).lru is Some ==> ledger_of(final(res).lru->0) == up_to_date(
            old(res).lru->0,
            old(shared).backend.store().meta,
            old(res).inner.id,
        ) && !final(res).lru->0.dirty_spec(),
        put_can_land(*old(res), *old(shared), key@, payload@) ==> r is Ok,
{
    let prior = res.prior(key, shared.trusts_index(&res.inner));
    let ghost all = payload@;
    let mut updates: Vec<(Vec<u8>, u64)> = Vec::new();
    updates.push((copy(key), payload.len() as u64));
    let mut keep: Vec<Vec<u8>> = Vec::new();
    keep.push(copy(key));
    let none: Vec<Vec<u8>> = Vec::new();
    proof {
        assert(super::batch::sizes(updates@) =~= seq![(key@, all.len() as u64)]);
        assert(views(keep@) =~= seq![key@]);
        assert(views(none@) =~= Seq::<Seq<u8>>::empty());
    }
    let ops = match res.inner.put_payload_ops(shared, key, payload, FLAG_POSTCARD, prior) {
        Ok(ops) => ops,
        Err(e) => return Err(e),
    };
    res.commit_with_budget(shared, ops, updates, none, false, &keep)
}

/// An index of some keys.
fn index_of(keys: &Vec<Vec<u8>>) -> (index: ByteMap<()>)
    ensures
        index@.dom() == views(keys@).to_set(),
{
    let ghost all = views(keys@);
    let mut index: ByteMap<()> = ByteMap::new();
    let mut i: usize = 0;
    assert(index@.dom() =~= all.take(0).to_set());
    while i < keys.len()
        invariant
            i <= keys@.len(),
            all == views(keys@),
            index@.dom() == all.take(i as int).to_set(),
        decreases keys.len() - i,
    {
        let ghost was = index@.dom();
        index.insert(copy(keys[i].as_slice()), ());
        proof {
            let now = all.take(i + 1);
            assert(now =~= all.take(i as int).push(all[i as int]));
            assert(index@.dom() =~= was.insert(all[i as int]));
            assert forall|k: Seq<u8>| #[trigger] now.to_set().contains(k) <==> was.insert(all[i as int]).contains(k) by {
                if was.contains(k) {
                    let j = all.take(i as int).index_of(k);
                    assert(now[j] == k);
                }
                assert(now[i as int] == all[i as int]);
            }
            assert(index@.dom() =~= now.to_set());
        }
        i += 1;
    }
    assert(all.take(keys@.len() as int) =~= all);
    index
}

} // verus!
