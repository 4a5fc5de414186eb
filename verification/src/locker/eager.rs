//! The eager locker: everything resident, reads immediate.
//!
//! Ideal for settings, theme state, feature flags: small, hot, and read from
//! paths that cannot wait.
//!
//! Values are held as `Arc<T>`, decoded once at open. That avoids requiring
//! `T: Clone`, and means a decode failure surfaces at open — where it can be
//! reported — rather than from an infallible getter.
//!
//! An infallible `get()` cannot fetch a chunk, cannot refetch after another tab
//! invalidates a key, and cannot report an error. So the type refuses, up
//! front, anything that would put it in that position: oversized values,
//! oversized contents at open, and eviction policies.

use std::ops::Bound;
use std::sync::Arc;

use vstd::prelude::*;
use vstd::string::StringSliceAdditionalSpecFns;
use vstd::utf8::valid_utf8;

use super::batch::{all_told, merge_batches, moves, staged_bytes, told, Move, Pending};
use super::handles::but;
use super::inner::{
    everything_is_within, locker_rows, named_in, news_posted, noted, record_delete, record_put, records_clear,
    walking_reads_the_locker, Epochs, Inner, Shared, EPOCH_MEMORY,
};
use super::lazy::{deletes_of, puts_of, stage_deletes, stage_puts};
use super::listing::{
    any_not_utf8, by_bytes, by_text, in_bounds, key_bytes_of, keyed, keys_with_prefix, map_of, prefixed, spelt, text_entries, texts,
    utf8_entries, utf8_keys,
};
use super::policy::{share, LockerConfig, OnCorrupt, Policy};
use super::resident::{batch_landed, batch_refused, can_land, Budget, Resident};
use super::transaction::{all_taken, oversized, too_large, Transaction, TxMode};
use crate::backend::api::{changes, push_op, Backend, Change, Op, Rows, Span, Store, Table};
use crate::backend::memory::capped;
use crate::bytes::copy;
use crate::codec::value::{decode, Value};
use crate::codec::api::what_is_refused_is_corruption;
use crate::codec::FilterChain;
use crate::coherence::{news_of, next_epoch, words, Announcement, Coherence, Word};
use crate::error::{invalid_with, Error, Result};
use crate::key::{as_bytes, encode_bytes, str_bound, LockerId};
use crate::meta::name_bytes;
use crate::sorted::{listing, lists, views, ByteMap};
use crate::text::{quoted, quoted_text, two};
use crate::watch::{
    all_announced, announced, next_announced, nothing_announced, one_announced, one_more_announced,
    silence_changes_nothing, subscribed, Event, EventStream, News, DEFAULT_CAPACITY,
};

verus! {

/// A locker whose values live in memory.
pub struct Locker<T> {
    pub res: Resident,
    pub values: ByteMap<Arc<T>>,
    /// Keys whose stored bytes would not decode at open, in byte order.
    pub corrupt: Vec<Vec<u8>>,
}

/// The payloads of the values held.
pub open spec fn held<T: Value>(values: Map<Seq<u8>, Arc<T>>) -> Map<Seq<u8>, Seq<u8>> {
    values.map_values(|v: Arc<T>| v.payload())
}

/// What is held once a list of writes is applied.
pub open spec fn applied(start: Map<Seq<u8>, Seq<u8>>, list: Seq<Move>) -> Map<Seq<u8>, Seq<u8>>
    decreases list.len(),
{
    if list.len() == 0 {
        start
    } else {
        match list.last() {
            Move::Put { key, payload } => applied(start, list.drop_last()).insert(key, payload),
            Move::Delete { key } => applied(start, list.drop_last()).remove(key),
            Move::Clear => Map::empty(),
        }
    }
}

/// The bytes of the records under some keys.
pub open spec fn weight_of(rows: Rows, keys: Seq<Seq<u8>>) -> nat
    decreases keys.len(),
{
    if keys.len() == 0 {
        0
    } else {
        weight_of(rows, keys.drop_last()) + rows[keys.last()].len()
    }
}

/// A record decodes to some value.
pub open spec fn decodes<T: Value>(chain: &FilterChain, record: Seq<u8>) -> bool {
    exists|v: T| v.packs() && chain.opened(record) == Some(#[trigger] v.payload())
}

/// `payload` is that of the value a record decodes to.
pub open spec fn decoded_as<T: Value>(chain: &FilterChain, record: Seq<u8>, payload: Seq<u8>) -> bool {
    chain.opened(record) matches Some(p) && T::reading(p) == Some(payload)
}

/// The record of a key decodes to something.
pub open spec fn reads_as_a_value<T: Value>(chain: &FilterChain, rows: Rows, key: Seq<u8>) -> bool {
    exists|payload: Seq<u8>| decoded_as::<T>(chain, rows[key], payload)
}

/// `e` is why a record does not decode: it cannot be opened, or the type
/// refuses what it holds.
pub open spec fn undecoded(chain: &FilterChain, record: Seq<u8>, e: Error) -> bool {
    if chain.opened(record) is Some {
        e.spec_is_corruption()
    } else {
        chain.refuses(record, e)
    }
}

/// A record that does not decode is reported as corruption.
pub open spec fn only_corrupt(chain: &FilterChain, record: Seq<u8>) -> bool {
    forall|e: Error| #[trigger] undecoded(chain, record, e) ==> e.spec_is_corruption()
}

/// Reading everything stops at the record of key `i`, and `e` says why. What
/// comes before it was read, or passed over where damage is skipped, and the
/// budget had room for this one too.
pub open spec fn stops_at_record<T: Value>(
    chain: &FilterChain,
    rows: Rows,
    keys: Seq<Seq<u8>>,
    config: LockerConfig,
    i: int,
    e: Error,
) -> bool {
    &&& 0 <= i < keys.len()
    &&& capped(weight_of(rows, keys.take(i + 1))) <= config.eager_budget
    &&& !decodes::<T>(chain, rows[keys[i]])
    &&& undecoded(chain, rows[keys[i]], e)
    &&& config.on_corrupt is Skip ==> !e.spec_is_corruption()
    &&& config.on_corrupt !is Skip ==> forall|j: int|
        0 <= j < i ==> #[trigger] reads_as_a_value::<T>(chain, rows, keys[j])
}

/// What was read of some keys: each is held as its record decodes, or, where
/// damage is skipped, on the list of those that would not.
pub open spec fn read_in<T: Value>(
    chain: &FilterChain,
    rows: Rows,
    keys: Seq<Seq<u8>>,
    skip: bool,
    values: Map<Seq<u8>, Arc<T>>,
    corrupt: Seq<Seq<u8>>,
) -> bool {
    &&& forall|k: Seq<u8>| #[trigger]
        values.contains_key(k) ==> keys.contains(k) && decoded_as::<T>(chain, rows[k], values[k].payload())
    &&& forall|k: Seq<u8>| #[trigger] keys.contains(k) ==> values.contains_key(k) != corrupt.contains(k)
    &&& forall|k: Seq<u8>| #[trigger] corrupt.contains(k) ==> keys.contains(k) && skip && !decodes::<T>(chain, rows[k])
}

/// A write was staged: nothing stored, but visible to this handle at once.
pub open spec fn staged_one<T: Value>(before: Locker<T>, m: Move, after: Locker<T>) -> bool {
    &&& moves(after.res.staged@) == moves(before.res.staged@).push(m)
    &&& held(after.values@) == applied(held(before.values@), seq![m])
    &&& announced(before.res.inner.watchers, told(m), after.res.inner.watchers)
}

/// A write to a locker that defers: staged, and flushed where the batch is
/// full.
pub open spec fn deferred_write<B: Backend, T: Value>(
    before: Locker<T>,
    shared: Shared<B>,
    m: Move,
    after: Locker<T>,
    now: Shared<B>,
    ok: bool,
) -> bool {
    let list = moves(before.res.staged@).push(m);
    let full = before.res.inner.config.batch() matches Some(n) && list.len() >= n;
    &&& held(after.values@) == applied(held(before.values@), seq![m])
    &&& announced(before.res.inner.watchers, told(m), after.res.inner.watchers)
    &&& !full ==> ok && now == shared
    &&& full && shared.backend.shut() ==> !ok
    &&& full && can_land(before.res, shared, list) ==> ok
    &&& !(full && ok) ==> moves(after.res.staged@) == list && now.backend.store() == shared.backend.store()
    &&& full && ok ==> after.res.staged@.len() == 0 && exists|b: Budget, mid: Resident|
        {
            &&& same_but_staged(mid, before.res)
            &&& #[trigger] batch_landed(mid, shared, list, b, now.backend.store(), now.next_id_from(shared.backend.store()))
        }
}

/// Another resident state of the same locker.
pub open spec fn same_but_staged(a: Resident, b: Resident) -> bool {
    &&& a.mode == b.mode
    &&& a.index == b.index
    &&& a.lru == b.lru
    &&& a.inner.same_but_news(b.inner)
}

/// The same locker, whatever happened to what it holds.
pub open spec fn same_handle<T>(a: Locker<T>, b: Locker<T>) -> bool {
    &&& a.corrupt == b.corrupt
    &&& a.res.mode == b.res.mode
    &&& a.res.index is None == b.res.index is None
    &&& a.res.lru is None == b.res.lru is None
    &&& a.res.inner.same_but_news(b.res.inner)
}

/// The same locker but for who watches it.
pub open spec fn only_watched<T>(a: Locker<T>, b: Locker<T>) -> bool {
    &&& a.values == b.values
    &&& a.corrupt == b.corrupt
    &&& a.res == (Resident { inner: (Inner { watchers: a.res.inner.watchers, ..b.res.inner }), ..b.res })
}

/// Nothing the locker holds, stores, stages or tells changed.
pub open spec fn untouched<B: Backend, T>(a: Locker<T>, now: Shared<B>, b: Locker<T>, shared: Shared<B>) -> bool {
    &&& now.backend.store() == shared.backend.store()
    &&& a.values == b.values
    &&& a.res.staged@ == b.res.staged@
    &&& a.res.inner == b.res.inner
}

/// `r` is what opening an eager locker gives, over a store and, where it
/// answers, with every failure accounted for.
pub open spec fn open_gives<T: Value>(
    store: Store,
    answers: bool,
    chain: &FilterChain,
    id: LockerId,
    name: Seq<char>,
    config: LockerConfig,
    r: Result<Locker<T>>,
) -> bool {
    let rows = locker_rows(store.records, id);
    let keys = listing(rows.dom());
    let total = capped(weight_of(rows, keys));
    &&& config.policy is Evictable ==> (r matches Err(e) && invalid_with(
        e,
        "locker "@ + quoted(name) + " is eager, which cannot use an evictable policy; use a lazy locker instead"@,
    ))
    &&& r matches Ok(l) ==> {
        &&& l.wf()
        &&& l.res.inner.id == id
        &&& !l.res.inner.closed
        &&& !l.res.inner.name_shared
        &&& l.res.inner.watchers.history().len() == 0
        &&& l.res.inner.watchers.listeners().len() == 0
        &&& l.res.staged@.len() == 0
        &&& l.res.inner.epochs.watermark() == 0
        &&& l.res.inner.epochs.memory() == Map::<Seq<u8>, u64>::empty()
        &&& total <= config.eager_budget
        &&& read_in::<T>(chain, rows, keys, config.on_corrupt is Skip, l.values@, views(l.corrupt@))
    }
    &&& config.policy !is Evictable && answers && (forall|k: Seq<u8>| #[trigger]
        rows.contains_key(k) ==> decodes::<T>(chain, rows[k])) ==> (r is Ok <==> total <= config.eager_budget) && (
    r matches Err(e) ==> e == (Error::LockerTooLarge { bytes: total, budget: config.eager_budget }))
    &&& config.policy !is Evictable && answers ==> (r matches Err(e) ==> (total > config.eager_budget && e == (
    Error::LockerTooLarge { bytes: total, budget: config.eager_budget })) || exists|i: int| #[trigger]
        stops_at_record::<T>(chain, rows, keys, config, i, e))
    &&& config.policy !is Evictable && answers && config.on_corrupt is Skip && total <= config.eager_budget && (
    forall|k: Seq<u8>| #[trigger] rows.contains_key(k) ==> only_corrupt(chain, rows[k])) ==> r is Ok
}

impl<T: Value> Locker<T> {
    /// What an eager locker is: no index beside its values, and no budget.
    pub open spec fn wf(self) -> bool {
        self.res.mode is Eager && self.res.index is None && self.res.lru is None
    }

    /// Open a locker: read and decode everything it holds.
    pub fn open<B: Backend>(
        backend: &B,
        chain: Arc<FilterChain>,
        id: LockerId,
        name: String,
        config: LockerConfig,
        ticket: u64,
    ) -> (r: Result<Self>)
        ensures
            open_gives::<T>(backend.store(), backend.answers(), &chain, id, name@, config, r),
            r matches Ok(l) ==> l.res.inner.chain == chain && l.res.inner.name == name && l.res.inner.config == config
                && l.res.inner.ticket == ticket,
    {
        // Eviction and residency contradict each other: shedding a value from
        // storage while memory still holds it leaves a replica that outlives
        // the eviction.
        if let Policy::Evictable { .. } = config.policy {
            let head = two("locker ", quoted_text(name.as_str()).as_str());
            return Err(
                Error::InvalidConfig(
                    two(
                        head.as_str(),
                        " is eager, which cannot use an evictable policy; use a lazy locker instead",
                    ),
                ),
            );
        }
        let inner = Inner::new(chain, id, name, config, ticket);
        let keys = match inner.walk(backend, Bound::Unbounded, Bound::Unbounded, false) {
            Ok(keys) => keys,
            Err(e) => return Err(e),
        };
        let ghost rows = locker_rows(backend.store().records, id);
        let ghost all = views(keys@);
        proof {
            everything_is_within(rows);
            walking_reads_the_locker(
                backend.store().records,
                id,
                Span { start: Bound::Unbounded, end: Bound::Unbounded },
                false,
            );
        }
        let mut values: ByteMap<Arc<T>> = ByteMap::new();
        let mut corrupt: Vec<Vec<u8>> = Vec::new();
        let mut loaded: u64 = 0;
        let budget: u64 = inner.config.eager_budget;
        let skip: bool = match inner.config.on_corrupt {
            OnCorrupt::Skip => true,
            _ => false,
        };
        let mut i: usize = 0;
        proof {
            assert(all.take(0) =~= Seq::<Seq<u8>>::empty());
            assert(views(corrupt@) =~= Seq::<Seq<u8>>::empty());
        }
        while i < keys.len()
            invariant
                rows == locker_rows(backend.store().records, inner.id),
                all == views(keys@),
                lists(all, rows.dom()),
                i <= keys@.len(),
                inner.chain == chain,
                inner.id == id,
                inner.name == name,
                inner.config == config,
                inner.ticket == ticket,
                !inner.closed,
                !inner.name_shared,
                inner.watchers.history().len() == 0,
                inner.watchers.listeners().len() == 0,
                inner.epochs.watermark() == 0,
                inner.epochs.memory() == Map::<Seq<u8>, u64>::empty(),
                budget == config.eager_budget,
                skip == (config.on_corrupt is Skip),
                config.policy !is Evictable,
                loaded == capped(weight_of(rows, all.take(i as int))),
                loaded <= budget ==> read_in::<T>(
                    &chain,
                    rows,
                    all.take(i as int),
                    skip,
                    values@,
                    views(corrupt@),
                ),
                all == listing(rows.dom()),
            decreases keys.len() - i,
        {
            let ghost key = all[i as int];
            proof {
                assert(all.take(i + 1).drop_last() =~= all.take(i as int));
                assert(all.take(i + 1).last() == key);
                assert(all.contains(key));
                assert(rows.dom().contains(key));
                weighing_only_adds(rows, all, i + 1, all.len() as int);
                assert(all.take(all.len() as int) =~= all);
            }
            let record = match inner.fetch(backend, keys[i].as_slice()) {
                Ok(Some(record)) => record,
                Ok(None) => {
                    return Err(Error::corrupt("a listed key has no record"));
                },
                Err(e) => return Err(e),
            };
            loaded = loaded.saturating_add(record.len() as u64);
            // Past the budget nothing more is decoded: the point is to fail
            // before the memory is committed.
            if loaded <= budget {
                match decode::<T>(record.as_slice(), &inner.chain) {
                    Ok(value) => {
                        let ghost was = values@;
                        values.insert(copy(keys[i].as_slice()), Arc::new(value));
                        proof {
                            one_more_held::<T>(&inner.chain, rows, all, i as int, skip, was, views(corrupt@), values@);
                        }
                    },
                    // Skip records the decoder chokes on, when asked to. The
                    // stored bytes are left untouched.
                    Err(e) => {
                        assert(!decodes::<T>(&inner.chain, rows[key]));
                        if skip && e.is_corruption() {
                            let ghost was = corrupt@;
                            corrupt.push(copy(keys[i].as_slice()));
                            proof {
                                assert(views(corrupt@) =~= views(was).push(key));
                                one_more_skipped::<T>(&inner.chain, rows, all, i as int, values@, views(was));
                            }
                        } else {
                            proof {
                                assert(undecoded(&inner.chain, rows[key], e));
                                assert(rows.contains_key(key));
                                if !skip {
                                    assert forall|j: int| 0 <= j < i implies #[trigger] reads_as_a_value::<T>(
                                        &inner.chain,
                                        rows,
                                        all[j],
                                    ) by {
                                        assert(all.take(i as int)[j] == all[j]);
                                        assert(all.take(i as int).contains(all[j]));
                                        assert(values@.contains_key(all[j]));
                                        assert(decoded_as::<T>(
                                            &inner.chain,
                                            rows[all[j]],
                                            values@[all[j]].payload(),
                                        ));
                                    }
                                }
                                assert(stops_at_record::<T>(&inner.chain, rows, all, config, i as int, e));
                            }
                            return Err(e);
                        }
                    },
                }
            }
            i += 1;
        }
        assert(all.take(keys@.len() as int) =~= all);
        if loaded > budget {
            return Err(Error::LockerTooLarge { bytes: loaded, budget });
        }
        Ok(Locker { res: Resident::new(inner, TxMode::Eager, None, None), values, corrupt })
    }

    /// Store a value. What comes back is the very value later reads hand out.
    pub fn put<B: Backend>(&mut self, shared: &mut Shared<B>, key: &str, value: T) -> (r: Result<Arc<T>>)
        requires
            old(self).wf(),
        ensures
            final(shared).carries_on(*old(shared)),
            final(shared).stays_forced(*old(shared), old(self).res.inner.config.durability),
            final(shared).told(*old(shared), old(self).res.inner, final(self).res.inner),
            final(self).wf(),
            put_through(*old(self), *old(shared), key.spec_bytes(), &value, r, *final(self), *final(shared)),
    {
        self.put_by(shared, name_bytes(key).as_slice(), value)
    }

    /// As [`Locker::put`], under a binary key.
    pub fn put_by<B: Backend>(&mut self, shared: &mut Shared<B>, key: &[u8], value: T) -> (r: Result<Arc<T>>)
        requires
            old(self).wf(),
        ensures
            final(shared).carries_on(*old(shared)),
            final(shared).stays_forced(*old(shared), old(self).res.inner.config.durability),
            final(shared).told(*old(shared), old(self).res.inner, final(self).res.inner),
            final(self).wf(),
            put_through(*old(self), *old(shared), key@, &value, r, *final(self), *final(shared)),
    {
        match self.res.inner.ensure_open() {
            Ok(()) => {},
            Err(e) => return Err(e),
        }
        let payload = match value.to_payload() {
            Ok(payload) => payload,
            Err(e) => return Err(e),
        };
        let sealed = match self.res.inner.seal_limited(payload.as_slice()) {
            Ok(sealed) => sealed,
            Err(e) => return Err(e),
        };
        let ghost held_before = held(self.values@);
        if self.res.is_deferred() {
            // The resident copy is updated at once: this handle's own writes
            // are visible to it immediately, committed or not.
            let kept = Arc::new(value);
            let handed = share(&kept);
            self.values.insert(copy(key), kept);
            proof {
                let m = Move::Put { key: key@, payload: payload@ };
                one_applied(held_before, m);
                assert(held(self.values@) =~= held_before.insert(key@, payload@));
            }
            return match self.stage_and_flush(shared, Pending::Put { key: copy(key), payload }) {
                Ok(()) => Ok(handed),
                Err(e) => Err(e),
            };
        }
        let ghost record = sealed@;
        let mut ops: Vec<Op> = Vec::new();
        assert(changes(ops@) =~= Seq::<Change>::empty());
        push_op(
            &mut ops,
            Op::Put { table: Table::Records, key: encode_bytes(self.res.inner.id, key), value: sealed },
        );
        let ghost list = changes(ops@);
        match self.res.inner.commit(shared, ops) {
            Ok(()) => {},
            Err(e) => return Err(e),
        }
        // Only mirror into memory after the write lands.
        let kept = Arc::new(value);
        let handed = share(&kept);
        self.values.insert(copy(key), kept);
        self.res.inner.announce(Event::Put { key: copy(key) });
        proof {
            let store = old(shared).backend.store();
            crate::backend::api::after_all_pushes(store, Seq::empty(), record_put(old(self).res.inner.id, key@, record));
            assert(list =~= Seq::<Change>::empty().push(record_put(old(self).res.inner.id, key@, record)));
            assert(store.after_all(Seq::<Change>::empty()) == store);
            assert(held(self.values@) =~= held_before.insert(key@, payload@));
            assert(old(self).res.inner.chain.seals(payload@, record) && shared.backend.store() == store.after(
                record_put(old(self).res.inner.id, key@, record),
            ));
        }
        Ok(handed)
    }

    /// Stage a write already mirrored in memory, and flush where the batch is
    /// full.
    fn stage_and_flush<B: Backend>(&mut self, shared: &mut Shared<B>, entry: Pending) -> (r: Result<()>)
        requires
            old(self).wf(),
        ensures
            final(shared).carries_on(*old(shared)),
            final(shared).stays_forced(*old(shared), old(self).res.inner.config.durability),
            final(shared).told(*old(shared), old(self).res.inner, final(self).res.inner),
            final(self).wf(),
            same_handle(*final(self), *old(self)),
            final(self).values == old(self).values,
            announced(old(self).res.inner.watchers, told(entry@), final(self).res.inner.watchers),
            ({
                let list = moves(old(self).res.staged@).push(entry@);
                let full = old(self).res.inner.config.batch() matches Some(n) && list.len() >= n;
                &&& !full ==> r is Ok && *final(shared) == *old(shared)
                &&& full && old(shared).backend.shut() ==> r is Err
                &&& full && can_land(old(self).res, *old(shared), list) ==> r is Ok
                &&& !(full && r is Ok) ==> moves(final(self).res.staged@) == list && final(shared).backend.store() == old(shared).backend.store()
                &&& full && r is Ok ==> final(self).res.staged@.len() == 0 && exists|b: Budget, mid: Resident|
                    {
                        &&& same_but_staged(mid, old(self).res)
                        &&& #[trigger] batch_landed(
                            mid,
                            *old(shared),
                            list,
                            b,
                            final(shared).backend.store(),
                            final(shared).next_id_from(old(shared).backend.store()),
                        )
                    }
            }),
    {
        let event = entry.event();
        let full: bool = self.res.stage(entry);
        self.res.inner.announce(event);
        let ghost mid = self.res;
        assert(same_but_staged(mid, old(self).res));
        if full {
            proof {
                let list = moves(old(self).res.staged@).push(entry@);
                assert(can_land(old(self).res, *shared, list) ==> can_land(mid, *shared, list));
            }
            let r = self.res.flush(shared);
            proof {
                if r is Ok {
                    let b = choose|b: Budget|
                        {
                            &&& #[trigger] batch_landed(
                                mid,
                                *old(shared),
                                moves(mid.staged@),
                                b,
                                shared.backend.store(),
                                shared.next_id_from(old(shared).backend.store()),
                            )
                            &&& super::resident::budget_applied(mid, old(shared).backend.store().meta, b, self.res)
                        };
                    let victims = views(b.plan.victims@);
                    assert(super::resident::all_evicted(victims) =~= Seq::empty());
                    silence_changes_nothing(mid.inner.watchers, self.res.inner.watchers);
                    assert(batch_landed(
                        mid,
                        *old(shared),
                        moves(old(self).res.staged@).push(entry@),
                        b,
                        shared.backend.store(),
                        shared.next_id_from(old(shared).backend.store()),
                    ));
                }
            }
            return r;
        }
        Ok(())
    }

    /// Commit everything this locker has staged, and ask the backend to make
    /// it durable where the locker's own setting left that open. An open locker
    /// with nothing staged has nothing to commit; a closed one is refused.
    pub fn flush<B: Backend>(&mut self, shared: &mut Shared<B>) -> (r: Result<()>)
        requires
            old(self).wf(),
        ensures
            final(shared).carries_on(*old(shared)),
            final(shared).stays_forced(*old(shared), old(self).res.inner.config.durability),
            final(shared).told(*old(shared), old(self).res.inner, final(self).res.inner),
            !old(self).res.inner.closed && old(self).res.inner.config.durability is Eventual && (r is Ok || old(shared).backend.answers())
                ==> final(shared).backend.forced(),
            final(self).wf(),
            same_handle(*final(self), *old(self)),
            final(self).values == old(self).values,
            old(self).res.inner.closed ==> (r matches Err(e) && e is Closed) && *final(self) == *old(self)
                && *final(shared) == *old(shared),
            !old(self).res.inner.closed ==> super::lazy::flush_through(
                old(self).res,
                *old(shared),
                r is Ok,
                final(self).res,
                *final(shared),
            ),
            !old(self).res.inner.closed && can_land(old(self).res, *old(shared), moves(old(self).res.staged@)) ==> r is Ok,
            old(shared).backend.shut() ==> (r matches Err(e) ==> old(self).res.inner.shut_out(e)) && (
            old(self).res.staged@.len() > 0 || old(self).res.inner.config.durability is Eventual ==> r is Err),
            !old(self).res.inner.closed && old(shared).backend.answers() ==> (r matches Err(e) ==> batch_refused(
                old(self).res,
                *old(shared),
                moves(old(self).res.staged@),
                e,
            )),
    {
        match self.res.inner.ensure_open() {
            Ok(()) => {},
            Err(e) => return Err(e),
        }
        let staged = self.res.flush(shared);
        let ghost stored = shared.backend.store();
        let ghost flushed = *shared;
        let forced = self.res.inner.flush_backend(&mut shared.backend);
        proof {
            let store = old(shared).backend.store();
            assert(shared.next_id_from(store) == flushed.next_id_from(store));
            if old(self).res.staged@.len() > 0 && staged is Ok {
                let b = choose|b: Budget|
                    {
                        &&& #[trigger] batch_landed(
                            old(self).res,
                            *old(shared),
                            moves(old(self).res.staged@),
                            b,
                            stored,
                            flushed.next_id_from(store),
                        )
                        &&& super::resident::budget_applied(old(self).res, store.meta, b, self.res)
                    };
                assert(batch_landed(
                    old(self).res,
                    *old(shared),
                    moves(old(self).res.staged@),
                    b,
                    stored,
                    shared.next_id_from(store),
                ));
            }
        }
        match staged {
            Ok(()) => forced,
            Err(e) => Err(e),
        }
    }

    /// How many writes are staged and not yet committed.
    pub fn pending(&self) -> (n: usize)
        ensures
            n == self.res.staged@.len(),
    {
        self.res.pending_len()
    }

    /// Payload bytes staged and not yet committed.
    pub fn pending_bytes(&self) -> (n: u64)
        ensures
            n == capped(staged_bytes(moves(self.res.staged@))),
    {
        self.res.pending_bytes()
    }

    /// Remove a key. Removing an absent key is not an error.
    pub fn delete<B: Backend>(&mut self, shared: &mut Shared<B>, key: &str) -> (r: Result<()>)
        requires
            old(self).wf(),
        ensures
            final(shared).carries_on(*old(shared)),
            final(shared).stays_forced(*old(shared), old(self).res.inner.config.durability),
            final(shared).told(*old(shared), old(self).res.inner, final(self).res.inner),
            final(self).wf(),
            removal_through(
                *old(self),
                *old(shared),
                Move::Delete { key: key.spec_bytes() },
                record_delete(old(self).res.inner.id, key.spec_bytes()),
                r,
                *final(self),
                *final(shared),
            ),
    {
        self.delete_by(shared, name_bytes(key).as_slice())
    }

    /// As [`Locker::delete`], under a binary key.
    pub fn delete_by<B: Backend>(&mut self, shared: &mut Shared<B>, key: &[u8]) -> (r: Result<()>)
        requires
            old(self).wf(),
        ensures
            final(shared).carries_on(*old(shared)),
            final(shared).stays_forced(*old(shared), old(self).res.inner.config.durability),
            final(shared).told(*old(shared), old(self).res.inner, final(self).res.inner),
            final(self).wf(),
            removal_through(
                *old(self),
                *old(shared),
                Move::Delete { key: key@ },
                record_delete(old(self).res.inner.id, key@),
                r,
                *final(self),
                *final(shared),
            ),
    {
        let op = self.res.inner.delete_op(key);
        self.remove(shared, Pending::Delete { key: copy(key) }, op)
    }

    /// Remove everything in this locker, and nothing outside it.
    pub fn clear<B: Backend>(&mut self, shared: &mut Shared<B>) -> (r: Result<()>)
        requires
            old(self).wf(),
        ensures
            final(shared).carries_on(*old(shared)),
            final(shared).stays_forced(*old(shared), old(self).res.inner.config.durability),
            final(shared).told(*old(shared), old(self).res.inner, final(self).res.inner),
            final(self).wf(),
            removal_through(
                *old(self),
                *old(shared),
                Move::Clear,
                records_clear(old(self).res.inner.id),
                r,
                *final(self),
                *final(shared),
            ),
    {
        let op = self.res.inner.clear_op();
        self.remove(shared, Pending::Clear, op)
    }

    /// The shared body of a delete and a clear.
    fn remove<B: Backend>(&mut self, shared: &mut Shared<B>, entry: Pending, op: Op) -> (r: Result<()>)
        requires
            old(self).wf(),
            entry@ !is Put,
        ensures
            final(shared).carries_on(*old(shared)),
            final(shared).stays_forced(*old(shared), old(self).res.inner.config.durability),
            final(shared).told(*old(shared), old(self).res.inner, final(self).res.inner),
            final(self).wf(),
            removal_through(*old(self), *old(shared), entry@, op@, r, *final(self), *final(shared)),
    {
        match self.res.inner.ensure_open() {
            Ok(()) => {},
            Err(e) => return Err(e),
        }
        proof {
            one_applied(held(self.values@), entry@);
        }
        if self.res.is_deferred() {
            self.drop_held(&entry);
            return self.stage_and_flush(shared, entry);
        }
        let mut ops: Vec<Op> = Vec::new();
        assert(changes(ops@) =~= Seq::<Change>::empty());
        push_op(&mut ops, op);
        let ghost list = changes(ops@);
        match self.res.inner.commit(shared, ops) {
            Ok(()) => {},
            Err(e) => return Err(e),
        }
        self.drop_held(&entry);
        self.res.inner.announce(entry.event());
        proof {
            let store = old(shared).backend.store();
            crate::backend::api::after_all_pushes(store, Seq::empty(), op@);
            assert(list =~= Seq::<Change>::empty().push(op@));
            assert(store.after_all(Seq::<Change>::empty()) == store);
        }
        Ok(())
    }

    /// Let go of what a delete or a clear removes.
    fn drop_held(&mut self, entry: &Pending)
        requires
            entry@ !is Put,
        ensures
            final(self).res == old(self).res,
            final(self).corrupt == old(self).corrupt,
            held(final(self).values@) == applied(held(old(self).values@), seq![entry@]),
    {
        proof {
            one_applied(held(self.values@), entry@);
        }
        let ghost was = held(self.values@);
        match entry {
            Pending::Delete { key } => {
                self.values.remove(key.as_slice());
                assert(held(self.values@) =~= was.remove(key@));
            },
            _ => {
                self.values.clear();
                assert(held(self.values@) =~= Map::<Seq<u8>, Seq<u8>>::empty());
            },
        }
    }

    /// Commit a transaction: every staged write lands together, or none does.
    ///
    /// Anything this handle has staged rides along ahead of it, and is put
    /// back where the commit fails. The size limit applies to transactional
    /// writes exactly as it does to a plain put.
    pub fn commit_transaction<B: Backend>(&mut self, shared: &mut Shared<B>, tx: Transaction<T>) -> (r: Result<()>)
        requires
            old(self).wf(),
            tx.wf(),
        ensures
            final(shared).carries_on(*old(shared)),
            final(shared).stays_forced(*old(shared), old(self).res.inner.config.durability),
            final(shared).told(*old(shared), old(self).res.inner, final(self).res.inner),
            final(self).wf(),
            commit_through(*old(self), *old(shared), tx.staged_moves(), r, *final(self), *final(shared)),
    {
        match self.res.inner.ensure_open() {
            Ok(()) => {},
            Err(e) => return Err(e),
        }
        let ghost list = tx.staged_moves();
        let (entries, values) = tx.into_parts();
        if entries.len() == 0 {
            assert(applied(held(self.values@), list) == held(self.values@));
            return Ok(());
        }
        let staged_before = self.res.take_staged();
        let merged = merge_batches(&staged_before, &entries);
        match self.res.commit_batch(shared, &merged) {
            Ok(budget) => {
                proof {
                    reveal(batch_landed);
                    assert(batch_landed(
                        old(self).res,
                        *old(shared),
                        moves(old(self).res.staged@) + list,
                        budget,
                        shared.backend.store(),
                        shared.next_id_from(old(shared).backend.store()),
                    ));
                }
                self.take_in(&entries, values);
                self.tell(&entries);
                Ok(())
            },
            Err(e) => {
                self.res.restage(staged_before);
                assert(self.res.staged@ =~= old(self).res.staged@);
                Err(e)
            },
        }
    }

    /// Mirror a landed write-set in memory.
    fn take_in(&mut self, entries: &Vec<Pending>, values: Vec<Option<T>>)
        requires
            entries@.len() == values@.len(),
            forall|i: int|
                0 <= i < entries@.len() ==> match #[trigger] moves(entries@)[i] {
                    Move::Put { payload, .. } => values@[i] matches Some(v) && v.payload() == payload,
                    _ => values@[i] is None,
                },
        ensures
            final(self).res == old(self).res,
            final(self).corrupt == old(self).corrupt,
            held(final(self).values@) == applied(held(old(self).values@), moves(entries@)),
    {
        let ghost list = moves(entries@);
        let ghost start = held(self.values@);
        let n: usize = entries.len();
        let mut i: usize = 0;
        assert(list.take(0).len() == 0);
        for value in it: values
            invariant
                it.seq() == values@,
                i == it.index(),
                n == entries@.len(),
                i <= n,
                entries@.len() == values@.len(),
                list == moves(entries@),
                start == held(old(self).values@),
                forall|i: int|
                    0 <= i < entries@.len() ==> match #[trigger] list[i] {
                        Move::Put { payload, .. } => values@[i] matches Some(v) && v.payload() == payload,
                        _ => values@[i] is None,
                    },
                self.res == old(self).res,
                self.corrupt == old(self).corrupt,
                held(self.values@) == applied(start, list.take(i as int)),
        {
            let ghost was = held(self.values@);
            proof {
                assert(list.take(i + 1).drop_last() =~= list.take(i as int));
                assert(list.take(i + 1).last() == list[i as int]);
                assert(list[i as int] == entries@[i as int]@);
            }
            match (&entries[i], value) {
                (Pending::Put { key, .. }, Some(value)) => {
                    self.values.insert(copy(key.as_slice()), Arc::new(value));
                    assert(held(self.values@) =~= was.insert(key@, value.payload()));
                },
                (Pending::Delete { key }, _) => {
                    self.values.remove(key.as_slice());
                    assert(held(self.values@) =~= was.remove(key@));
                },
                (Pending::Clear, _) => {
                    self.values.clear();
                    assert(held(self.values@) =~= Map::<Seq<u8>, Seq<u8>>::empty());
                },
                (Pending::Put { .. }, None) => {},
            }
            i += 1;
        }
        assert(list.take(entries@.len() as int) =~= list);
    }

    /// Tell watchers of a landed write-set.
    fn tell(&mut self, entries: &Vec<Pending>)
        ensures
            final(self).values == old(self).values,
            final(self).corrupt == old(self).corrupt,
            final(self).res.mode == old(self).res.mode,
            final(self).res.index == old(self).res.index,
            final(self).res.lru == old(self).res.lru,
            final(self).res.staged == old(self).res.staged,
            final(self).res.inner.same_but_news(old(self).res.inner),
            final(self).res.inner.epochs == old(self).res.inner.epochs,
            all_announced(
                old(self).res.inner.watchers,
                all_told(moves(entries@)),
                final(self).res.inner.watchers,
            ),
    {
        let ghost all = all_told(moves(entries@));
        let ghost listening = self.res.inner.watchers;
        let mut i: usize = 0;
        proof {
            nothing_announced(listening);
            assert(all.take(0) =~= Seq::empty());
        }
        while i < entries.len()
            invariant
                i <= entries@.len(),
                all == all_told(moves(entries@)),
                self.res.inner.epochs == old(self).res.inner.epochs,
                self.values == old(self).values,
                self.corrupt == old(self).corrupt,
                self.res.mode == old(self).res.mode,
                self.res.index == old(self).res.index,
                self.res.lru == old(self).res.lru,
                self.res.staged == old(self).res.staged,
                self.res.inner.same_but_news(old(self).res.inner),
                all_announced(listening, all.take(i as int), self.res.inner.watchers),
            decreases entries.len() - i,
        {
            let ghost told = self.res.inner.watchers;
            self.res.inner.announce(entries[i].event());
            proof {
                next_announced(listening, all, i as int, told, self.res.inner.watchers);
            }
            i += 1;
        }
        assert(all.take(entries@.len() as int) =~= all);
    }

    /// Run a transaction: every staged write lands together, or none does.
    ///
    /// Returning `Err` rolls back: nothing is written and the resident copy is
    /// untouched.
    pub fn transact<B: Backend, F: FnOnce(Transaction<T>, &Inner, &B) -> Result<Transaction<T>>>(
        &mut self,
        shared: &mut Shared<B>,
        f: F,
    ) -> (r: Result<()>)
        requires
            old(self).wf(),
            forall|tx: Transaction<T>|
                tx.wf() && tx.staged_moves().len() == 0 ==> #[trigger] f.requires(
                    (tx, &old(self).res.inner, &old(shared).backend),
                ),
            forall|tx: Transaction<T>, staged: Transaction<T>|
                tx.wf() && #[trigger] f.ensures(
                    (tx, &old(self).res.inner, &old(shared).backend),
                    Ok::<Transaction<T>, Error>(staged),
                ) ==> staged.wf(),
        ensures
            final(shared).carries_on(*old(shared)),
            final(shared).stays_forced(*old(shared), old(self).res.inner.config.durability),
            final(shared).told(*old(shared), old(self).res.inner, final(self).res.inner),
            final(self).wf(),
            old(self).res.inner.closed ==> (r matches Err(e) && e is Closed) && *final(self) == *old(self) && *final(shared)
                == *old(shared),
            !old(self).res.inner.closed ==> exists|tx: Transaction<T>, answer: Result<Transaction<T>>|
                {
                    &&& tx.staged_moves().len() == 0
                    &&& #[trigger] f.ensures((tx, &old(self).res.inner, &old(shared).backend), answer)
                    &&& match answer {
                        Err(e) => r == Err::<(), Error>(e) && *final(self) == *old(self) && *final(shared) == *old(shared),
                        Ok(staged) => commit_through(
                            *old(self),
                            *old(shared),
                            staged.staged_moves(),
                            r,
                            *final(self),
                            *final(shared),
                        ),
                    }
                },
    {
        match self.res.inner.ensure_open() {
            Ok(()) => {},
            Err(e) => return Err(e),
        }
        let tx = Transaction::new();
        match f(tx, &self.res.inner, &shared.backend) {
            Ok(staged) => self.commit_transaction(shared, staged),
            Err(e) => Err(e),
        }
    }

    /// Store many entries in **one** atomic commit.
    pub fn put_all<B: Backend>(&mut self, shared: &mut Shared<B>, entries: Vec<(String, T)>) -> (r: Result<()>)
        requires
            old(self).wf(),
        ensures
            final(shared).carries_on(*old(shared)),
            final(shared).stays_forced(*old(shared), old(self).res.inner.config.durability),
            final(shared).told(*old(shared), old(self).res.inner, final(self).res.inner),
            final(self).wf(),
            entries@.len() == 0 ==> r is Ok && *final(self) == *old(self) && *final(shared) == *old(shared),
            entries@.len() > 0 && (forall|i: int| 0 <= i < entries@.len() ==> (#[trigger] entries@[i]).1.packs())
                ==> commit_through(*old(self), *old(shared), puts_of(entries@), r, *final(self), *final(shared)),
            entries@.len() > 0 && (exists|i: int| 0 <= i < entries@.len() && !(#[trigger] entries@[i]).1.packs())
                ==> r is Err && *final(self) == *old(self) && *final(shared) == *old(shared),
    {
        if entries.len() == 0 {
            return Ok(());
        }
        match self.res.inner.ensure_open() {
            Ok(()) => {},
            Err(e) => return Err(e),
        }
        match stage_puts(entries) {
            Ok(tx) => self.commit_transaction(shared, tx),
            Err(e) => Err(e),
        }
    }

    /// Remove many keys in **one** atomic commit.
    pub fn delete_all<B: Backend>(&mut self, shared: &mut Shared<B>, keys: &Vec<String>) -> (r: Result<()>)
        requires
            old(self).wf(),
        ensures
            final(shared).carries_on(*old(shared)),
            final(shared).stays_forced(*old(shared), old(self).res.inner.config.durability),
            final(shared).told(*old(shared), old(self).res.inner, final(self).res.inner),
            final(self).wf(),
            keys@.len() == 0 ==> r is Ok && *final(self) == *old(self) && *final(shared) == *old(shared),
            keys@.len() > 0 ==> commit_through(
                *old(self),
                *old(shared),
                deletes_of(keys@),
                r,
                *final(self),
                *final(shared),
            ),
    {
        if keys.len() == 0 {
            return Ok(());
        }
        self.commit_transaction(shared, stage_deletes(keys))
    }

    /// Close this locker: drop its resident values and refuse further writes.
    ///
    /// Commits what is staged first, and closes even if that fails: the error is
    /// handed back, and the batch goes with the locker. Idempotent, and it does
    /// not delete anything that is stored.
    pub fn close<B: Backend>(&mut self, shared: &mut Shared<B>) -> (r: Result<()>)
        requires
            old(self).wf(),
        ensures
            final(shared).handles.seats() == but(old(shared).handles.seats(), old(self).res.inner.ticket),
            old(shared).handles.wf() ==> final(shared).handles.wf(),
            final(self).wf(),
            final(self).res.inner.closed,
            final(self).res.mode == old(self).res.mode,
            final(shared).keeps_pace(*old(shared)),
            final(shared).handles.upcoming() == old(shared).handles.upcoming(),
            (Inner { closed: old(self).res.inner.closed, ..final(self).res.inner }).same_but_news(old(self).res.inner),
            final(shared).stays_forced(*old(shared), old(self).res.inner.config.durability),
            final(shared).told(*old(shared), old(self).res.inner, final(self).res.inner),
            final(self).values@ == Map::<Seq<u8>, Arc<T>>::empty(),
            final(self).corrupt == old(self).corrupt,
            final(self).res.inner.watchers == old(self).res.inner.watchers,
            final(self).res.staged@.len() == 0,
            old(self).res.staged@.len() == 0 ==> r is Ok && final(shared).backend.store() == old(shared).backend.store(),
            r is Err ==> final(shared).backend.store() == old(shared).backend.store(),
            r is Ok && old(self).res.staged@.len() > 0 ==> exists|b: Budget| #[trigger]
                batch_landed(
                    old(self).res,
                    *old(shared),
                    moves(old(self).res.staged@),
                    b,
                    final(shared).backend.store(),
                    final(shared).next_id_from(old(shared).backend.store()),
                ),
            can_land(old(self).res, *old(shared), moves(old(self).res.staged@)) ==> r is Ok,
    {
        let flushed = self.res.flush(shared);
        let ghost settled = self.res;
        let ghost landed = *shared;
        self.res.discard_staged();
        self.res.inner.closed = true;
        shared.handles.release(self.res.inner.ticket);
        proof {
            let store = old(shared).backend.store();
            let list = moves(old(self).res.staged@);
            assert(shared.next_id_from(store) == landed.next_id_from(store));
            assert(landed.told(*old(shared), old(self).res.inner, settled.inner));
            assert(shared.coherence == landed.coherence && shared.backend == landed.backend);
            assert(self.res.inner.epochs == settled.inner.epochs);
            assert(shared.told(*old(shared), old(self).res.inner, self.res.inner));
            if flushed is Ok && old(self).res.staged@.len() > 0 {
                let b = choose|b: Budget|
                    {
                        &&& #[trigger] batch_landed(
                            old(self).res,
                            *old(shared),
                            list,
                            b,
                            landed.backend.store(),
                            landed.next_id_from(store),
                        )
                        &&& super::resident::budget_applied(old(self).res, store.meta, b, settled)
                    };
                assert(super::resident::all_evicted(views(b.plan.victims@)) =~= Seq::empty());
                silence_changes_nothing(old(self).res.inner.watchers, settled.inner.watchers);
                assert(batch_landed(
                    old(self).res,
                    *old(shared),
                    list,
                    b,
                    shared.backend.store(),
                    shared.next_id_from(store),
                ));
            }
        }
        self.values.clear();
        flushed
    }

    /// Whether [`Locker::close`] has been called: the only way to tell a
    /// closed locker from an empty one.
    pub fn is_closed(&self) -> (b: bool)
        ensures
            b == self.res.inner.closed,
    {
        self.res.inner.closed
    }

    /// Apply another tab's news to the resident values.
    ///
    /// A message whose epoch is no later than one already absorbed is dropped,
    /// and so is the news of a key this tab has itself committed at the same
    /// epoch or later. What is left is decoded here, so `get()` stays
    /// infallible; a value that cannot be held is let go of, because a stale
    /// one would be a lie an infallible getter could not take back.
    pub fn apply(&mut self, announcement: &Announcement)
        ensures
            same_handle(*final(self), *old(self)),
            final(self).res.staged == old(self).res.staged,
            old(self).wf() ==> final(self).wf(),
            !old(self).heeds(*announcement) ==> *final(self) == *old(self),
            old(self).heeds(*announcement) ==> exists|seen: Seq<Option<Seq<u8>>>| #[trigger]
                absorbed(*old(self), announcement, seen, *final(self)),
    {
        if self.res.inner.closed || announcement.locker_id != self.res.inner.id || announcement.epoch
            <= self.res.inner.epochs.applied() {
            return ;
        }
        let ghost all = words(announcement.changes@);
        self.res.inner.epochs.note_applied(announcement.epoch);
        if announcement.cleared {
            self.values.clear();
            self.res.inner.epochs.forget_local();
            self.res.inner.announce(Event::Cleared);
            assert(held(self.values@) =~= Map::<Seq<u8>, Seq<u8>>::empty());
        }
        let ghost start = held(self.values@);
        let ghost listening = old(self).res.inner.watchers;
        let ghost head = first_word(announcement.cleared);
        let ghost memory = self.res.inner.epochs.memory();
        let ghost epochs = self.res.inner.epochs;
        let ghost mut seen: Seq<Option<Seq<u8>>> = Seq::empty();
        let mut i: usize = 0;
        proof {
            if announcement.cleared {
                one_announced(listening, News::Cleared, self.res.inner.watchers);
            } else {
                nothing_announced(listening);
            }
            assert(head + news_after(memory, announcement.epoch, all.take(0), seen) =~= head);
        }
        while i < announcement.changes.len()
            invariant
                i <= announcement.changes@.len(),
                all == words(announcement.changes@),
                same_handle(*self, *old(self)),
                self.res.staged == old(self).res.staged,
                self.res.mode == old(self).res.mode,
                self.res.index == old(self).res.index,
                self.res.lru == old(self).res.lru,
                self.res.inner.epochs == epochs,
                memory == epochs.memory(),
                seen.len() == i,
                forall|j: int|
                    0 <= j < i ==> seen_as::<T>(&old(self).res.inner.chain, all[j], #[trigger] seen[j]),
                held(self.values@) == held_after(start, memory, announcement.epoch, all.take(i as int), seen),
                all_announced(
                    listening,
                    head + news_after(memory, announcement.epoch, all.take(i as int), seen),
                    self.res.inner.watchers,
                ),
            decreases announcement.changes.len() - i,
        {
            let change = &announcement.changes[i];
            let ghost was = held(self.values@);
            let ghost had = seen;
            let ghost told = self.res.inner.watchers;
            let ghost so_far = head + news_after(memory, announcement.epoch, all.take(i as int), had);
            let decoded: Option<T> = match (change.deleted, &change.value) {
                (false, Some(sealed)) => match decode::<T>(sealed.as_slice(), &self.res.inner.chain) {
                    Ok(value) => Some(value),
                    Err(_) => {
                        assert(!decodes::<T>(&self.res.inner.chain, sealed@));
                        None
                    },
                },
                _ => None,
            };
            let ghost payload: Option<Seq<u8>> = if decoded is Some {
                Some(decoded->0.payload())
            } else {
                None
            };
            proof {
                seen = had.push(payload);
                assert(all.take(i + 1).drop_last() =~= all.take(i as int));
                assert(all.take(i + 1).last() == change@);
                assert(seen.drop_last() =~= had);
                assert(all[i as int] == change@);
                assert(seen_as::<T>(&old(self).res.inner.chain, all[i as int], payload));
            }
            let outranked: bool = match self.res.inner.epochs.local(change.key.as_slice()) {
                Some(mine) => mine >= announcement.epoch,
                None => false,
            };
            if !outranked {
                match decoded {
                    Some(value) => {
                        self.values.insert(copy(change.key.as_slice()), Arc::new(value));
                        self.res.inner.announce(Event::Put { key: copy(change.key.as_slice()) });
                        assert(held(self.values@) =~= was.insert(change.key@, payload->0));
                    },
                    None => {
                        self.values.remove(change.key.as_slice());
                        assert(held(self.values@) =~= was.remove(change.key@));
                        if change.deleted {
                            self.res.inner.announce(Event::Deleted { key: copy(change.key.as_slice()) });
                        } else {
                            self.res.inner.announce(Event::Stale { key: copy(change.key.as_slice()) });
                        }
                    },
                }
                proof {
                    let more = news_after(memory, announcement.epoch, all.take(i + 1), seen);
                    one_more_announced(listening, so_far, told, more.last(), self.res.inner.watchers);
                    assert(so_far.push(more.last()) =~= head + more);
                }
            }
            i += 1;
        }
        proof {
            assert(all.take(all.len() as int) =~= all);
            assert(absorbed(*old(self), announcement, seen, *self));
        }
    }

    /// Whether news is heeded: it is of this locker, and of an epoch not absorbed
    /// before.
    pub open spec fn heeds(self, news: Announcement) -> bool {
        &&& !self.res.inner.closed
        &&& news.locker_id == self.res.inner.id
        &&& news.epoch > self.res.inner.epochs.watermark()
    }

    /// The locker's name.
    pub fn name(&self) -> (name: &str)
        ensures
            name@ == self.res.inner.name@,
    {
        self.res.inner.name.as_str()
    }

    /// Keys whose stored bytes would not decode when this locker was opened.
    /// Their bytes are still stored, untouched.
    pub fn corrupt_keys(&self) -> (keys: Vec<Vec<u8>>)
        ensures
            views(keys@) == views(self.corrupt@),
    {
        let ghost all = views(self.corrupt@);
        let mut keys: Vec<Vec<u8>> = Vec::new();
        let mut i: usize = 0;
        assert(views(keys@) =~= all.take(0));
        while i < self.corrupt.len()
            invariant
                i <= self.corrupt@.len(),
                all == views(self.corrupt@),
                views(keys@) == all.take(i as int),
            decreases self.corrupt.len() - i,
        {
            let ghost was = keys@;
            keys.push(copy(self.corrupt[i].as_slice()));
            assert(views(keys@) =~= views(was).push(all[i as int]));
            assert(all.take(i + 1) =~= all.take(i as int).push(all[i as int]));
            i += 1;
        }
        assert(all.take(self.corrupt@.len() as int) =~= all);
        keys
    }

    /// Read a value. Immediate and infallible — the whole point of the type.
    pub fn get(&self, key: &str) -> (v: Option<Arc<T>>)
        ensures
            v == self.looked_up(key.spec_bytes()),
    {
        self.get_by(name_bytes(key).as_slice())
    }

    /// What is held under a key.
    pub open spec fn looked_up(self, key: Seq<u8>) -> Option<Arc<T>> {
        if self.values@.contains_key(key) {
            Some(self.values@[key])
        } else {
            None
        }
    }

    /// As [`Locker::get`], under a binary key.
    pub fn get_by(&self, key: &[u8]) -> (v: Option<Arc<T>>)
        ensures
            v == self.looked_up(key@),
    {
        match self.values.get(key) {
            Some(v) => Some(share(v)),
            None => None,
        }
    }

    /// Read a value by cloning it out of the resident copy.
    pub fn get_cloned(&self, key: &str) -> (v: Option<T>) where T: Clone
        ensures
            v is Some <==> self.values@.contains_key(key.spec_bytes()),
            v matches Some(x) ==> vstd::pervasive::cloned(*self.values@[key.spec_bytes()], x),
    {
        match self.values.get(name_bytes(key).as_slice()) {
            Some(v) => Some((**v).clone()),
            None => None,
        }
    }

    /// Read a value, falling back to `default` when the key is absent. The
    /// default is *not* written — a read stays a read.
    pub fn get_or(&self, key: &str, default: T) -> (v: Arc<T>)
        ensures
            *v == match self.looked_up(key.spec_bytes()) {
                Some(x) => *x,
                None => default,
            },
    {
        match self.get(key) {
            Some(v) => v,
            None => Arc::new(default),
        }
    }

    /// Run `f` over the stored value without cloning it or handing out an
    /// `Arc`. `None` when the key is absent.
    pub fn with<R, F: FnOnce(&T) -> R>(&self, key: &str, f: F) -> (r: Option<R>)
        requires
            forall|v: &T| #[trigger] f.requires((v,)),
        ensures
            r is Some <==> self.values@.contains_key(key.spec_bytes()),
            r matches Some(x) ==> f.ensures((&*self.values@[key.spec_bytes()],), x),
    {
        match self.values.get(name_bytes(key).as_slice()) {
            Some(v) => Some(f(&**v)),
            None => None,
        }
    }

    /// Whether a key is held.
    pub fn contains_key(&self, key: &str) -> (b: bool)
        ensures
            b == self.values@.contains_key(key.spec_bytes()),
    {
        self.contains_key_by(name_bytes(key).as_slice())
    }

    /// As [`Locker::contains_key`], under a binary key.
    pub fn contains_key_by(&self, key: &[u8]) -> (b: bool)
        ensures
            b == self.values@.contains_key(key@),
    {
        self.values.contains_key(key)
    }

    /// Number of values.
    pub fn len(&self) -> (n: usize)
        ensures
            n == self.values@.dom().len(),
    {
        self.values.len()
    }

    /// Whether nothing is held.
    pub fn is_empty(&self) -> (b: bool)
        ensures
            b == (self.values@.dom().len() == 0),
    {
        self.len() == 0
    }

    /// Every UTF-8 key, in byte order. The others are skipped;
    /// [`Locker::has_non_utf8_keys`] says whether any were.
    pub fn keys(&self) -> (keys: Vec<String>)
        ensures
            spelt(keys@) == texts(listing(self.values@.dom())),
    {
        utf8_keys(&self.keys_bytes())
    }

    /// Every key as raw bytes, in byte order.
    pub fn keys_bytes(&self) -> (keys: Vec<Vec<u8>>)
        ensures
            views(keys@) == listing(self.values@.dom()),
    {
        self.values.key_list()
    }

    /// Whether this locker holds any key that [`Locker::keys`] cannot return.
    pub fn has_non_utf8_keys(&self) -> (b: bool)
        ensures
            b == exists|i: int|
                0 <= i < listing(self.values@.dom()).len() && !valid_utf8(#[trigger] listing(self.values@.dom())[i]),
    {
        let keys = self.keys_bytes();
        let b: bool = any_not_utf8(&keys);
        proof {
            let all = listing(self.values@.dom());
            if b {
                let i = choose|i: int| 0 <= i < keys@.len() && !valid_utf8((#[trigger] keys@[i])@);
                assert(all[i] == keys@[i]@);
            } else if exists|i: int| 0 <= i < all.len() && !valid_utf8(#[trigger] all[i]) {
                let i = choose|i: int| 0 <= i < all.len() && !valid_utf8(#[trigger] all[i]);
                assert(all[i] == keys@[i]@);
            }
        }
        b
    }

    /// Keys beginning with `prefix`, in byte order. UTF-8 keys only.
    pub fn keys_with_prefix(&self, prefix: &str) -> (keys: Vec<String>)
        ensures
            spelt(keys@) == texts(listing(prefixed(self.values@.dom(), prefix.spec_bytes()))),
    {
        utf8_keys(&self.keys_with_prefix_by(name_bytes(prefix).as_slice()))
    }

    /// As [`Locker::keys_with_prefix`], over a binary prefix.
    pub fn keys_with_prefix_by(&self, prefix: &[u8]) -> (keys: Vec<Vec<u8>>)
        ensures
            views(keys@) == listing(prefixed(self.values@.dom(), prefix@)),
    {
        keys_with_prefix(&self.values, prefix)
    }

    /// Subscribe to every change in this locker.
    pub fn watch(&mut self) -> (stream: EventStream)
        ensures
            only_watched(*final(self), *old(self)),
            subscribed(
                old(self).res.inner.watchers,
                None,
                DEFAULT_CAPACITY,
                stream,
                final(self).res.inner.watchers,
            ),
    {
        self.res.inner.watchers.subscribe(None, DEFAULT_CAPACITY)
    }

    /// Subscribe to changes affecting any of `keys`. `Cleared` and `Lagged`
    /// always arrive.
    pub fn watch_keys(&mut self, keys: &Vec<String>) -> (stream: EventStream)
        ensures
            only_watched(*final(self), *old(self)),
            subscribed(
                old(self).res.inner.watchers,
                Some(spelt(keys@)),
                DEFAULT_CAPACITY,
                stream,
                final(self).res.inner.watchers,
            ),
    {
        self.res.inner.watchers.subscribe(Some(key_bytes_of(keys)), DEFAULT_CAPACITY)
    }

    /// Subscribe to changes affecting one key. `Cleared` still arrives,
    /// because a clear affects every key.
    pub fn watch_key(&mut self, key: &str) -> (stream: EventStream)
        ensures
            only_watched(*final(self), *old(self)),
            subscribed(
                old(self).res.inner.watchers,
                Some(seq![key.spec_bytes()]),
                DEFAULT_CAPACITY,
                stream,
                final(self).res.inner.watchers,
            ),
    {
        let mut filter: Vec<Vec<u8>> = Vec::new();
        filter.push(name_bytes(key));
        assert(views(filter@) =~= seq![key.spec_bytes()]);
        self.res.inner.watchers.subscribe(Some(filter), DEFAULT_CAPACITY)
    }

    /// The entries of a range, in byte order.
    pub open spec fn entries_within(self, span: Span) -> Seq<(Seq<u8>, Arc<T>)> {
        let keys = listing(within(self.values@.dom(), span));
        Seq::new(keys.len(), |i: int| (keys[i], self.values@[keys[i]]))
    }

    /// Entries over a key range, in byte order. UTF-8 keys only. A range given
    /// the wrong way round holds nothing.
    pub fn range(&self, start: Bound<&str>, end: Bound<&str>) -> (entries: Vec<(String, Arc<T>)>)
        ensures
            by_text(entries@) == text_entries(
                self.entries_within(Span { start: str_bound(start), end: str_bound(end) }),
            ),
    {
        utf8_entries(self.range_bytes(as_bytes(start), as_bytes(end)))
    }

    /// Every entry, in byte order. UTF-8 keys only.
    pub fn entries(&self) -> (entries: Vec<(String, Arc<T>)>)
        ensures
            by_text(entries@) == text_entries(
                self.entries_within(Span { start: Bound::Unbounded, end: Bound::Unbounded }),
            ),
    {
        self.range(Bound::Unbounded, Bound::Unbounded)
    }

    /// Every entry by key. UTF-8 keys only.
    pub fn to_map(&self) -> (map: ByteMap<Arc<T>>)
        ensures
            map@ == map_of(
                text_entries(self.entries_within(Span { start: Bound::Unbounded, end: Bound::Unbounded })),
            ),
    {
        keyed(self.entries())
    }

    /// A snapshot of every entry as raw key bytes, in byte order.
    pub fn entries_bytes(&self) -> (entries: Vec<(Vec<u8>, Arc<T>)>)
        ensures
            by_bytes(entries@) == self.entries_within(Span { start: Bound::Unbounded, end: Bound::Unbounded }),
    {
        self.range_bytes(Bound::Unbounded, Bound::Unbounded)
    }

    /// The entries of a range as raw key bytes, in byte order.
    fn range_bytes(&self, start: Bound<&[u8]>, end: Bound<&[u8]>) -> (entries: Vec<(Vec<u8>, Arc<T>)>)
        ensures
            by_bytes(entries@) == self.entries_within(crate::key::user_span(start, end)),
    {
        let ghost span = crate::key::user_span(start, end);
        let n: usize = self.values.len();
        let ghost all = self.values.keys();
        let mut entries: Vec<(Vec<u8>, Arc<T>)> = Vec::new();
        let ghost mut from: Seq<int> = Seq::empty();
        let mut i: usize = 0;
        while i < n
            invariant
                span == crate::key::user_span(start, end),
                n == all.len(),
                all == self.values.keys(),
                lists(all, self.values@.dom()),
                self.values.values().len() == n,
                forall|k: int|
                    0 <= k < all.len() ==> self.values@.contains_key(#[trigger] all[k]) && self.values@[all[k]]
                        == self.values.values()[k],
                i <= n,
                from.len() == entries@.len(),
                forall|j: int|
                    0 <= j < from.len() ==> 0 <= #[trigger] from[j] < i && entries@[j].0@ == all[from[j]]
                        && entries@[j].1 == self.values@[all[from[j]]] && span.contains(all[from[j]]),
                forall|j: int, k: int| 0 <= j < k < from.len() ==> #[trigger] from[j] < #[trigger] from[k],
                forall|j: int| 0 <= j < i && span.contains(#[trigger] all[j]) ==> from.contains(j),
            decreases n - i,
        {
            assert(self.values@.contains_key(all[i as int]));
            if in_bounds(self.values.key_at(i).as_slice(), start, end) {
                entries.push((copy(self.values.key_at(i).as_slice()), share(self.values.value_at(i))));
                proof {
                    let was = from;
                    from = from.push(i as int);
                    assert(from[was.len() as int] == i);
                    assert forall|j: int| 0 <= j < i + 1 && span.contains(#[trigger] all[j]) implies from.contains(j) by {
                        if j < i {
                            let x = was.index_of(j);
                            assert(from[x] == j);
                        }
                    }
                }
            }
            i += 1;
        }
        proof {
            let dom = within(self.values@.dom(), span);
            let found = Seq::new(entries@.len(), |j: int| entries@[j].0@);
            assert forall|j: int, k: int| 0 <= j < k < found.len() implies crate::bytes::before(
                #[trigger] found[j],
                #[trigger] found[k],
            ) by {
                assert(from[j] < from[k]);
                assert(crate::bytes::before(all[from[j]], all[from[k]]));
            }
            assert forall|k: Seq<u8>| #[trigger] dom.contains(k) <==> found.contains(k) by {
                if dom.contains(k) {
                    assert(self.values@.dom().contains(k));
                    let x = all.index_of(k);
                    assert(span.contains(all[x]));
                    let y = from.index_of(x);
                    assert(from[y] == x);
                    assert(found[y] == k);
                }
                if found.contains(k) {
                    let y = found.index_of(k);
                    assert(all[from[y]] == k);
                    assert(all.contains(k));
                }
            }
            crate::sorted::the_listing_is(found, dom);
            assert forall|j: int| 0 <= j < found.len() implies by_bytes(entries@)[j] == #[trigger] self.entries_within(
                span,
            )[j] by {
                assert(0 <= from[j] < n);
            }
            assert(by_bytes(entries@) =~= self.entries_within(span));
        }
        entries
    }
}

/// The keys of a set inside a range.
pub open spec fn within(dom: Set<Seq<u8>>, span: Span) -> Set<Seq<u8>> {
    Set::new(|k: Seq<u8>| dom.contains(k) && span.contains(k))
}

/// What this tab could make of another tab's word: the payload of the value it
/// carries, where it carries one that decodes.
pub open spec fn seen_as<T: Value>(chain: &FilterChain, word: Word, seen: Option<Seq<u8>>) -> bool {
    match seen {
        Some(payload) => !word.deleted && (word.value matches Some(sealed) && decoded_as::<T>(chain, sealed, payload)),
        None => word.deleted || (word.value matches Some(sealed) ==> !decodes::<T>(chain, sealed)),
    }
}

/// This tab committed a key itself, at an epoch no earlier.
pub open spec fn outranks(memory: Map<Seq<u8>, u64>, epoch: u64, key: Seq<u8>) -> bool {
    memory.contains_key(key) && memory[key] >= epoch
}

/// What is held once another tab's words are taken in.
pub open spec fn held_after(
    start: Map<Seq<u8>, Seq<u8>>,
    memory: Map<Seq<u8>, u64>,
    epoch: u64,
    list: Seq<Word>,
    seen: Seq<Option<Seq<u8>>>,
) -> Map<Seq<u8>, Seq<u8>>
    decreases list.len(),
{
    if list.len() == 0 {
        start
    } else {
        let so_far = held_after(start, memory, epoch, list.drop_last(), seen.drop_last());
        let key = list.last().key;
        if outranks(memory, epoch, key) {
            so_far
        } else {
            match seen.last() {
                Some(payload) => so_far.insert(key, payload),
                None => so_far.remove(key),
            }
        }
    }
}

/// What watchers are told of another tab's words.
pub open spec fn news_after(
    memory: Map<Seq<u8>, u64>,
    epoch: u64,
    list: Seq<Word>,
    seen: Seq<Option<Seq<u8>>>,
) -> Seq<News>
    decreases list.len(),
{
    if list.len() == 0 {
        Seq::empty()
    } else {
        let so_far = news_after(memory, epoch, list.drop_last(), seen.drop_last());
        let word = list.last();
        if outranks(memory, epoch, word.key) {
            so_far
        } else if seen.last() is Some {
            so_far.push(News::Put { key: word.key })
        } else if word.deleted {
            so_far.push(News::Deleted { key: word.key })
        } else {
            so_far.push(News::Stale { key: word.key })
        }
    }
}

/// What watchers hear first of some news: that everything went, where it did.
pub open spec fn first_word(cleared: bool) -> Seq<News> {
    if cleared {
        seq![News::Cleared]
    } else {
        Seq::empty()
    }
}

/// News was taken in: a clear empties everything first, and forgets what this
/// tab wrote before.
pub open spec fn absorbed<T: Value>(
    before: Locker<T>,
    announcement: &Announcement,
    seen: Seq<Option<Seq<u8>>>,
    after: Locker<T>,
) -> bool {
    let list = words(announcement.changes@);
    let epoch = announcement.epoch;
    let memory = if announcement.cleared {
        Map::empty()
    } else {
        before.res.inner.epochs.memory()
    };
    let start = if announcement.cleared {
        Map::empty()
    } else {
        held(before.values@)
    };
    &&& seen.len() == list.len()
    &&& forall|i: int|
        0 <= i < list.len() ==> seen_as::<T>(&before.res.inner.chain, list[i], #[trigger] seen[i])
    &&& held(after.values@) == held_after(start, memory, epoch, list, seen)
    &&& all_announced(
        before.res.inner.watchers,
        first_word(announcement.cleared) + news_after(memory, epoch, list, seen),
        after.res.inner.watchers,
    )
    &&& after.res.inner.epochs.memory() == memory
    &&& after.res.inner.epochs.watermark() == epoch
}

/// A key that outranks news is left alone by it.
proof fn what_outranks_is_left_alone(
    start: Map<Seq<u8>, Seq<u8>>,
    memory: Map<Seq<u8>, u64>,
    epoch: u64,
    list: Seq<Word>,
    seen: Seq<Option<Seq<u8>>>,
    key: Seq<u8>,
)
    requires
        outranks(memory, epoch, key),
    ensures
        ({
            let now = held_after(start, memory, epoch, list, seen);
            now.contains_key(key) == start.contains_key(key) && (start.contains_key(key) ==> now[key] == start[key])
        }),
    decreases list.len(),
{
    if list.len() > 0 {
        what_outranks_is_left_alone(start, memory, epoch, list.drop_last(), seen.drop_last(), key);
    }
}

/// The keys of a commit are remembered under its epoch.
proof fn what_is_noted_is_remembered(local: Map<Seq<u8>, u64>, keys: Seq<Seq<u8>>, epoch: u64, key: Seq<u8>)
    requires
        keys.contains(key),
    ensures
        noted(local, keys, epoch).contains_key(key),
        noted(local, keys, epoch)[key] == epoch,
    decreases keys.len(),
{
    if keys.last() != key {
        let i = keys.index_of(key);
        assert(keys.drop_last()[i] == key);
        what_is_noted_is_remembered(local, keys.drop_last(), epoch, key);
    }
}

/// Another tab's older news does not undo what this tab wrote: a key that a
/// commit told the others of is held as it was, whatever they say of it under
/// that epoch or an earlier one. Only a clear takes it along. Past the size of
/// its memory a locker starts over, and this no longer holds.
pub proof fn older_news_does_not_undo_a_write<T: Value>(
    id: LockerId,
    epochs: Epochs,
    was: Coherence,
    out: Seq<Change>,
    now: Coherence,
    before: Locker<T>,
    announcement: &Announcement,
    seen: Seq<Option<Seq<u8>>>,
    after: Locker<T>,
    key: Seq<u8>,
)
    requires
        was.enabled_spec(),
        news_posted(id, epochs, was, out, true, before.res.inner.epochs, now),
        !news_of(id, out).0,
        named_in(news_of(id, out).1).contains(key),
        noted(epochs.memory(), named_in(news_of(id, out).1), next_epoch(was.epoch_spec())).dom().len() <= EPOCH_MEMORY,
        absorbed(before, announcement, seen, after),
        !announcement.cleared,
        announcement.epoch <= next_epoch(was.epoch_spec()),
    ensures
        held(after.values@).contains_key(key) == held(before.values@).contains_key(key),
        held(before.values@).contains_key(key) ==> held(after.values@)[key] == held(before.values@)[key],
{
    let said = news_of(id, out).1;
    let epoch = next_epoch(was.epoch_spec());
    assert(said.len() > 0);
    what_is_noted_is_remembered(epochs.memory(), named_in(said), epoch, key);
    what_outranks_is_left_alone(
        held(before.values@),
        before.res.inner.epochs.memory(),
        announcement.epoch,
        words(announcement.changes@),
        seen,
        key,
    );
}

/// One write applied.
proof fn one_applied(start: Map<Seq<u8>, Seq<u8>>, m: Move)
    ensures
        applied(start, seq![m]) == match m {
            Move::Put { key, payload } => start.insert(key, payload),
            Move::Delete { key } => start.remove(key),
            Move::Clear => Map::empty(),
        },
{
    let list = seq![m];
    assert(list.drop_last() =~= Seq::<Move>::empty());
    assert(applied(start, list.drop_last()) == start);
}

/// `r` is what storing a value gives.
pub open spec fn put_through<B: Backend, T: Value>(
    before: Locker<T>,
    shared: Shared<B>,
    key: Seq<u8>,
    value: &T,
    r: Result<Arc<T>>,
    after: Locker<T>,
    now: Shared<B>,
) -> bool {
    let payload = value.payload();
    let inner = before.res.inner;
    let defers = inner.config.batch() is Some;
    &&& same_handle(after, before)
    &&& r matches Ok(kept) ==> after.looked_up(key) == Some(kept) && *kept == *value && value.packs() && !inner.closed && exists|record: Seq<u8>| #[trigger]
        inner.chain.seals(payload, record) && record.len() <= inner.config.max_inline
    &&& inner.closed ==> (r matches Err(e) && e is Closed)
    &&& inner.closed || !value.packs() ==> r is Err && after == before && now == shared
    &&& !defers && r is Err ==> untouched(after, now, before, shared)
    &&& !defers && r is Ok ==> {
        &&& exists|record: Seq<u8>| #[trigger] inner.chain.seals(payload, record) && now.backend.store()
            == shared.backend.store().after(record_put(inner.id, key, record))
        &&& held(after.values@) == held(before.values@).insert(key, payload)
        &&& after.res.staged == before.res.staged
        &&& announced(before.res.inner.watchers, News::Put { key }, after.res.inner.watchers)
    }
    &&& defers && r is Ok ==> deferred_write(before, shared, Move::Put { key, payload }, after, now, true)
    &&& defers && r is Err ==> untouched(after, now, before, shared) || deferred_write(
        before,
        shared,
        Move::Put { key, payload },
        after,
        now,
        false,
    )
    &&& !inner.closed && value.packs() && inner.chain.takes(payload) && shared.backend.answers() && !defers ==> (
    r matches Err(e) ==> oversized(inner, payload, e))
    &&& !inner.closed && value.packs() && inner.chain.takes(payload) && defers && {
        let list = moves(before.res.staged@).push(Move::Put { key, payload });
        list.len() < inner.config.batch()->0 || can_land(before.res, shared, list)
    } ==> (r matches Err(e) ==> oversized(inner, payload, e))
    &&& !inner.closed && value.packs() && !defers && shared.backend.shut() ==> (r matches Err(e) && inner.shut_out(e))
    &&& !inner.closed && value.packs() && !defers && shared.backend.answers() ==> (r matches Err(e)
        ==> inner.chain.declines(payload, e) || oversized(inner, payload, e))
}

/// With the default chain, an open locker that writes through stores every value
/// that is short enough, whatever it holds.
pub proof fn a_short_value_is_stored<B: Backend, T: Value>(
    before: Locker<T>,
    shared: Shared<B>,
    key: Seq<u8>,
    value: &T,
    r: Result<Arc<T>>,
    after: Locker<T>,
    now: Shared<B>,
)
    requires
        put_through(before, shared, key, value, r, after, now),
        crate::codec::is_default(*before.res.inner.chain),
        !before.res.inner.closed,
        before.res.inner.config.batch() is None,
        shared.backend.answers(),
        value.packs(),
        value.payload().len() < 0x1_0000_0000,
        crate::codec::stored_most(value.payload().len()) <= before.res.inner.config.max_inline,
    ensures
        r is Ok,
{
    let inner = before.res.inner;
    let payload = value.payload();
    assert(inner.chain.takes(payload));
    if r is Err {
        let record = choose|record: Seq<u8>| #[trigger]
            inner.chain.seals(payload, record) && record.len() > inner.config.max_inline;
        crate::codec::the_default_chain_adds_little(&inner.chain, payload, record);
    }
}

/// `r` is what removing something gives.
pub open spec fn removal_through<B: Backend, T: Value>(
    before: Locker<T>,
    shared: Shared<B>,
    m: Move,
    change: Change,
    r: Result<()>,
    after: Locker<T>,
    now: Shared<B>,
) -> bool {
    let inner = before.res.inner;
    let defers = inner.config.batch() is Some;
    &&& same_handle(after, before)
    &&& inner.closed ==> (r matches Err(e) && e is Closed) && after == before && now == shared
    &&& !inner.closed && defers ==> deferred_write(before, shared, m, after, now, r is Ok)
    &&& !inner.closed && !defers && r is Ok ==> {
        &&& now.backend.store() == shared.backend.store().after(change)
        &&& held(after.values@) == applied(held(before.values@), seq![m])
        &&& after.res.staged == before.res.staged
        &&& announced(before.res.inner.watchers, told(m), after.res.inner.watchers)
    }
    &&& !defers && r is Err ==> untouched(after, now, before, shared)
    &&& !inner.closed && !defers && shared.backend.answers() ==> r is Ok
    &&& !inner.closed && !defers && shared.backend.shut() ==> (r matches Err(e) && e is Closed)
}

/// `r` is what committing a transaction's write-set gives: all of it stored,
/// with whatever was staged before it, or none.
pub open spec fn commit_through<B: Backend, T: Value>(
    before: Locker<T>,
    shared: Shared<B>,
    list: Seq<Move>,
    r: Result<()>,
    after: Locker<T>,
    now: Shared<B>,
) -> bool {
    let all = moves(before.res.staged@) + list;
    let inner = before.res.inner;
    &&& same_handle(after, before)
    &&& inner.closed ==> (r matches Err(e) && e is Closed) && after == before && now == shared
    &&& !inner.closed && list.len() == 0 ==> r is Ok && after == before && now == shared
    &&& r is Err ==> untouched(after, now, before, shared)
    &&& r is Ok && list.len() > 0 ==> {
        &&& exists|b: Budget| #[trigger]
            batch_landed(
                before.res,
                shared,
                all,
                b,
                now.backend.store(),
                now.next_id_from(shared.backend.store()),
            )
        &&& held(after.values@) == applied(held(before.values@), list)
        &&& after.res.staged@.len() == 0
        &&& all_announced(before.res.inner.watchers, all_told(list), after.res.inner.watchers)
    }
    &&& !inner.closed && can_land(before.res, shared, all) ==> r is Ok
    &&& !inner.closed && list.len() > 0 && shared.backend.answers() && all_taken(inner, all) ==> (r matches Err(e)
        ==> too_large(inner, all, e))
    &&& !inner.closed && list.len() > 0 && shared.backend.shut() ==> (r matches Err(e) && inner.shut_out(e))
    &&& !inner.closed && list.len() > 0 && shared.backend.answers() ==> (r matches Err(e) ==> batch_refused(
        before.res,
        shared,
        all,
        e,
    ))
}

/// More records weigh no less.
proof fn weighing_only_adds(rows: Rows, keys: Seq<Seq<u8>>, m: int, n: int)
    requires
        0 <= m <= n <= keys.len(),
    ensures
        weight_of(rows, keys.take(m)) <= weight_of(rows, keys.take(n)),
    decreases n - m,
{
    if m < n {
        weighing_only_adds(rows, keys, m, n - 1);
        assert(keys.take(n).drop_last() =~= keys.take(n - 1));
    }
}

/// The keys up to one are the keys before it and it, and it is new.
proof fn one_key_further(rows: Rows, all: Seq<Seq<u8>>, i: int)
    requires
        lists(all, rows.dom()),
        0 <= i < all.len(),
    ensures
        forall|k: Seq<u8>| #[trigger] all.take(i + 1).contains(k) <==> all.take(i).contains(k) || k == all[i],
        !all.take(i).contains(all[i]),
{
    crate::sorted::ascending_has_no_duplicates(all);
    assert forall|k: Seq<u8>| #[trigger] all.take(i + 1).contains(k) <==> all.take(i).contains(k) || k == all[i] by {
        if all.take(i).contains(k) {
            let j = all.take(i).index_of(k);
            assert(all.take(i + 1)[j] == k);
        }
        if all.take(i + 1).contains(k) {
            let j = all.take(i + 1).index_of(k);
            if j < i {
                assert(all.take(i)[j] == k);
            }
        }
        assert(all.take(i + 1)[i] == all[i]);
    }
    if all.take(i).contains(all[i]) {
        let j = all.take(i).index_of(all[i]);
        assert(all[j] == all[i]);
    }
}

/// One more record decoded.
proof fn one_more_held<T: Value>(
    chain: &FilterChain,
    rows: Rows,
    all: Seq<Seq<u8>>,
    i: int,
    skip: bool,
    was: Map<Seq<u8>, Arc<T>>,
    corrupt: Seq<Seq<u8>>,
    now: Map<Seq<u8>, Arc<T>>,
)
    requires
        lists(all, rows.dom()),
        0 <= i < all.len(),
        read_in::<T>(chain, rows, all.take(i), skip, was, corrupt),
        now.contains_key(all[i]),
        now == was.insert(all[i], now[all[i]]),
        decoded_as::<T>(chain, rows[all[i]], now[all[i]].payload()),
    ensures
        read_in::<T>(chain, rows, all.take(i + 1), skip, now, corrupt),
{
    one_key_further(rows, all, i);
    assert forall|k: Seq<u8>| #[trigger] now.contains_key(k) implies all.take(i + 1).contains(k) && decoded_as::<T>(
        chain,
        rows[k],
        now[k].payload(),
    ) by {
        if k != all[i] {
            assert(was.contains_key(k));
        }
    }
}

/// One more record skipped.
proof fn one_more_skipped<T: Value>(
    chain: &FilterChain,
    rows: Rows,
    all: Seq<Seq<u8>>,
    i: int,
    values: Map<Seq<u8>, Arc<T>>,
    corrupt: Seq<Seq<u8>>,
)
    requires
        lists(all, rows.dom()),
        0 <= i < all.len(),
        read_in::<T>(chain, rows, all.take(i), true, values, corrupt),
        !decodes::<T>(chain, rows[all[i]]),
    ensures
        read_in::<T>(chain, rows, all.take(i + 1), true, values, corrupt.push(all[i])),
{
    one_key_further(rows, all, i);
    let more = corrupt.push(all[i]);
    assert forall|k: Seq<u8>| #[trigger] more.contains(k) <==> corrupt.contains(k) || k == all[i] by {
        if corrupt.contains(k) {
            let j = corrupt.index_of(k);
            assert(more[j] == k);
        }
        if more.contains(k) {
            let j = more.index_of(k);
            if j < corrupt.len() {
                assert(corrupt[j] == k);
            }
        }
        assert(more[corrupt.len() as int] == all[i]);
    }
}

/// Where damage is skipped, a locker opens in spite of it, however many of its
/// records do not decode.
pub proof fn damage_does_not_keep_a_locker_shut<T: Value>(
    store: Store,
    chain: &FilterChain,
    id: LockerId,
    name: Seq<char>,
    config: LockerConfig,
    r: Result<Locker<T>>,
)
    requires
        open_gives::<T>(store, true, chain, id, name, config, r),
        chain.calls_it_corruption(),
        config.policy !is Evictable,
        config.on_corrupt is Skip,
        ({
            let rows = locker_rows(store.records, id);
            capped(weight_of(rows, listing(rows.dom()))) <= config.eager_budget
        }),
    ensures
        r is Ok,
{
    let rows = locker_rows(store.records, id);
    assert forall|k: Seq<u8>| #[trigger] rows.contains_key(k) implies only_corrupt(chain, rows[k]) by {
        assert forall|e: Error| #[trigger] undecoded(chain, rows[k], e) implies e.spec_is_corruption() by {
            if chain.opened(rows[k]) is None {
                what_is_refused_is_corruption(*chain, rows[k], e);
            }
        }
    }
}

/// A value stored is there again when the locker is next opened: whatever
/// record opens to its payload is held, not skipped.
pub proof fn what_is_stored_is_held_again<T: Value>(
    chain: &FilterChain,
    rows: Rows,
    keys: Seq<Seq<u8>>,
    skip: bool,
    values: Map<Seq<u8>, Arc<T>>,
    corrupt: Seq<Seq<u8>>,
    key: Seq<u8>,
    value: T,
    record: Seq<u8>,
)
    requires
        read_in::<T>(chain, rows, keys, skip, values, corrupt),
        keys.contains(key),
        value.packs(),
        chain.seals(value.payload(), record),
        chain.keeps(value.payload()),
        rows[key] == record,
    ensures
        values.contains_key(key),
        T::reading(value.payload()) == Some(values[key].payload()),
{
    assert(chain.opened(rows[key]) == Some(value.payload()));
    assert(decodes::<T>(chain, rows[key]));
}

} // verus!
