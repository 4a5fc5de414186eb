//! A locker's resident state: its key index, its byte budget, and its staged
//! writes.
//!
//! Everything here works in keys, payload bytes and ops: the value type only
//! matters at the two edges, where a caller hands one in or takes one out.

use vstd::prelude::*;

use super::batch::{
    accounting, all_told, apply_to_index, indexed, latest, moves, names_of, removed, sizes, staged_bytes, told,
    update_names, weighed, wipes, Move, Pending,
};
use super::inner::{gc_list, gc_refused, record_delete, Inner, Prior, Shared};
use super::lru::{
    self, books_after, carried_keys, carried_ticks, entries_clear, entry_delete, entry_put, pending_after, plan_fits,
    recorded, remove_all, tick_put, update_views, weight, Books, Entry, LruState, Plan, PENDING_PER_COMMIT,
};
use super::policy::Policy;
use super::transaction::{all_taken, batched, ops_for_pending, parts_refused, possible, too_large, TxMode};
use crate::backend::api::{append_ops, at_most, changes, push_op, Backend, Change, Op, Rows, Store};
use crate::backend::memory::capped;
use crate::bytes::copy;
use crate::error::{backend_with, corrupt_with, spent, Error, Result};
use crate::key::LockerId;
use crate::sorted::{listing, lists, views, ByteMap};
use crate::watch::{
    all_announced, announced_in_turn, next_announced, nothing_announced, Event, News,
};

verus! {

/// What one commit does to an evictable locker's accounting.
///
/// Empty, and free, for a locker without a budget.
pub struct Budget {
    pub updates: Vec<(Vec<u8>, Entry)>,
    pub removals: Vec<Vec<u8>>,
    pub cleared: bool,
    pub plan: Plan,
    /// Deferred tick bumps this commit carried, to forget once it lands.
    pub pending: Vec<Vec<u8>>,
}

impl Budget {
    /// A commit that does nothing to the accounting but what `plan` sheds.
    pub fn shedding(plan: Plan) -> (b: Self)
        ensures
            b.updates@.len() == 0,
            b.removals@.len() == 0,
            !b.cleared,
            b.plan == plan,
            b.pending@.len() == 0,
    {
        Budget { updates: Vec::new(), removals: Vec::new(), cleared: false, plan, pending: Vec::new() }
    }
}

/// The accounting, as mathematics.
#[verifier::ext_equal]
pub struct Ledger {
    pub books: Books,
    pub total: u64,
    pub deferred: Map<Seq<u8>, u64>,
    pub limit: u64,
}

/// The accounting a state holds.
pub open spec fn ledger_of(s: LruState) -> Ledger {
    Ledger { books: s.books(), total: s.total_spec(), deferred: s.deferred(), limit: s.limit() }
}

/// The accounting a state holds once it is brought up to date with storage,
/// where it is known to be incomplete.
pub open spec fn up_to_date(s: LruState, meta: Rows, id: LockerId) -> Ledger {
    if s.dirty_spec() {
        let books = recorded(meta, id);
        Ledger {
            books,
            total: capped(weight(books)),
            deferred: s.deferred().restrict(books.dom()),
            limit: s.limit(),
        }
    } else {
        ledger_of(s)
    }
}

/// The accounting once a key was used at a moment: the key is as fresh as that,
/// if it is accounted for at all, and weighs what it did.
pub open spec fn used_at(led: Ledger, key: Seq<u8>, tick: u64) -> Ledger {
    if led.books.contains_key(key) {
        Ledger {
            books: led.books.insert(key, Entry { tick, bytes: led.books[key].bytes }),
            deferred: led.deferred.insert(key, tick),
            ..led
        }
    } else {
        led
    }
}

/// A read was noted as a use of its key, at a moment of its own. Where there is
/// no budget, or no moment is to be had, nothing is noted.
pub open spec fn use_noted<B: Backend>(
    lru: Option<LruState>,
    shared: Shared<B>,
    key: Seq<u8>,
    ok: bool,
    after: Option<LruState>,
    now: Shared<B>,
) -> bool {
    match lru {
        None => ok && after is None && now.ticks == shared.ticks,
        Some(s) => if ok {
            &&& shared.next_tick() matches Some(tick) && {
                &&& tick < u64::MAX
                &&& now.ticks.cursor() == Some((tick + 1) as u64)
                &&& after matches Some(t) && t.dirty_spec() == s.dirty_spec() && ledger_of(t) == used_at(
                    ledger_of(s),
                    key,
                    tick,
                )
            }
        } else {
            after == lru && now.ticks == shared.ticks
        },
    }
}

/// The updates of one commit, all at one moment.
pub open spec fn stamped(updates: Seq<(Seq<u8>, u64)>, tick: u64) -> Seq<(Seq<u8>, Entry)> {
    Seq::new(updates.len(), |i: int| (updates[i].0, Entry { tick, bytes: updates[i].1 }))
}

/// The deferred ticks one commit looks at.
pub open spec fn looked_at(led: Ledger) -> Seq<Seq<u8>> {
    let all = listing(led.deferred.dom());
    all.take(at_most(all.len() as int, PENDING_PER_COMMIT as int))
}

/// `b` is what a commit owes the accounting.
pub open spec fn budget_fits(
    b: Budget,
    led: Ledger,
    updates: Seq<(Seq<u8>, u64)>,
    removals: Seq<Seq<u8>>,
    cleared: bool,
    keep: Seq<Seq<u8>>,
    tick: u64,
) -> bool {
    &&& update_views(b.updates@) == stamped(updates, tick)
    &&& views(b.removals@) == removals
    &&& b.cleared == cleared
    &&& plan_fits(led.books, led.total, stamped(updates, tick), removals, cleared, led.limit, keep, b.plan)
    &&& views(b.pending@) == if cleared {
        Seq::empty()
    } else {
        carried_keys(led.books, looked_at(led), names_of(updates))
    }
}

/// What recording some updates does.
pub open spec fn update_puts(id: LockerId, updates: Seq<(Seq<u8>, Entry)>) -> Seq<Change> {
    Seq::new(updates.len(), |i: int| entry_put(id, updates[i].0, updates[i].1))
}

/// What striking some keys off the accounting does.
pub open spec fn entry_deletes(id: LockerId, keys: Seq<Seq<u8>>) -> Seq<Change> {
    Seq::new(keys.len(), |i: int| entry_delete(id, keys[i]))
}

/// What shedding some keys does; `None` where a record among them is a
/// pointer that cannot be read.
pub open spec fn evictions(records: Rows, id: LockerId, victims: Seq<Seq<u8>>) -> Option<Seq<Change>>
    decreases victims.len(),
{
    if victims.len() == 0 {
        Some(Seq::empty())
    } else {
        let key = victims.last();
        match (evictions(records, id, victims.drop_last()), gc_list(records, id, key, Prior::Unknown)) {
            (Some(so_far), Some(dropped)) => Some(
                so_far + dropped.push(record_delete(id, key)).push(entry_delete(id, key)),
            ),
            _ => None,
        }
    }
}

/// Every pointer of a locker can be read, so whatever has to be shed can be.
pub open spec fn legible(records: Rows, id: LockerId) -> bool {
    forall|key: Seq<u8>| #[trigger] gc_list(records, id, key, Prior::Unknown) is Some
}

/// Where every pointer can be read, anything can be shed.
proof fn anything_can_be_shed(records: Rows, id: LockerId, victims: Seq<Seq<u8>>)
    requires
        legible(records, id),
    ensures
        evictions(records, id, victims) is Some,
    decreases victims.len(),
{
    if victims.len() > 0 {
        anything_can_be_shed(records, id, victims.drop_last());
        assert(gc_list(records, id, victims.last(), Prior::Unknown) is Some);
    }
}

/// A tick can be handed out.
pub open spec fn clock_runs<B: Backend>(shared: Shared<B>) -> bool {
    shared.ticks.upcoming(shared.backend.store()) matches Some(tick) && tick < u64::MAX
}

/// What a commit does to the stored accounting, before anyone is shed.
#[verifier::opaque]
pub open spec fn budget_head(id: LockerId, led: Ledger, b: Budget) -> Seq<Change> {
    let updates = update_views(b.updates@);
    let names = Seq::new(updates.len(), |i: int| updates[i].0);
    (if b.cleared {
        seq![entries_clear(id)]
    } else {
        Seq::empty()
    }) + update_puts(id, updates) + (if b.cleared {
        Seq::empty()
    } else {
        carried_ticks(id, led.books, led.deferred, looked_at(led), names)
    }) + entry_deletes(id, views(b.removals@))
}

/// What a commit does to the stored accounting, and whom it sheds.
pub open spec fn budget_list(records: Rows, id: LockerId, led: Ledger, b: Budget, next_tick: u64) -> Option<Seq<Change>> {
    match evictions(records, id, views(b.plan.victims@)) {
        Some(shed) => Some((budget_head(id, led, b) + shed).push(tick_put(next_tick))),
        None => None,
    }
}

/// The accounting once a commit has landed.
pub open spec fn ledger_after(led: Ledger, b: Budget) -> Ledger {
    Ledger {
        books: books_after(
            led.books,
            update_views(b.updates@),
            views(b.removals@),
            b.cleared,
            views(b.plan.victims@),
        ),
        total: b.plan.total,
        deferred: pending_after(led.deferred, views(b.removals@), b.cleared, views(b.plan.victims@)).remove_keys(
            views(b.pending@).to_set(),
        ),
        limit: led.limit,
    }
}

/// An accounting, and whether it is known to be incomplete, once another tab's
/// word on one key is folded in. A write sorts after everything held; one of
/// unknown size keeps its old weight, or none, and leaves the accounting
/// incomplete.
pub open spec fn remote_step(
    l: (Ledger, bool),
    key: Seq<u8>,
    bytes: Option<u64>,
    deleted: bool,
) -> (Ledger, bool) {
    let books = l.0.books;
    let tick = lru::plus(lru::latest(books, listing(books.dom())), 1);
    let freed = if books.contains_key(key) {
        lru::minus(l.0.total, books[key].bytes)
    } else {
        l.0.total
    };
    if deleted {
        (Ledger { books: books.remove(key), total: freed, deferred: l.0.deferred.remove(key), ..l.0 }, l.1)
    } else {
        match bytes {
            Some(bytes) => (
                Ledger {
                    books: books.insert(key, Entry { tick, bytes }),
                    total: lru::plus(freed, bytes),
                    ..l.0
                },
                l.1,
            ),
            None => (
                Ledger {
                    books: if books.contains_key(key) {
                        books
                    } else {
                        books.insert(key, Entry { tick, bytes: 0 })
                    },
                    ..l.0
                },
                true,
            ),
        }
    }
}

/// What watchers are told of keys shed.
pub open spec fn all_evicted(victims: Seq<Seq<u8>>) -> Seq<News> {
    Seq::new(victims.len(), |i: int| News::Evicted { key: victims[i] })
}

/// A locker's resident state.
pub struct Resident {
    pub inner: Inner,
    pub mode: TxMode,
    /// The resident key index. `None` on an eager locker, which holds whole
    /// values instead and keeps them itself.
    pub index: Option<ByteMap<()>>,
    /// Byte-budget accounting, present only under [`Policy::Evictable`].
    pub lru: Option<LruState>,
    pub staged: Vec<Pending>,
    /// Keys this handle has itself stored an **inline** record under, and has
    /// not touched since in any way that could have made it chunked.
    ///
    /// Purely a fast path for [`Resident::prior`], and it only ever *shrinks*
    /// on doubt: forgetting a key costs one read, wrongly keeping one orphans
    /// chunks.
    pub known_inline: ByteMap<()>,
}

/// The keys an index holds.
pub open spec fn keys_in(index: Option<ByteMap<()>>) -> Set<Seq<u8>> {
    match index {
        Some(map) => map@.dom(),
        None => Set::empty(),
    }
}

/// Another view of the same resident state but for its accounting, its
/// staged writes and what is known of its keys.
pub open spec fn same_core(a: Resident, b: Resident) -> bool {
    &&& a.mode == b.mode
    &&& a.index is Some == b.index is Some
    &&& a.lru is Some == b.lru is Some
    &&& a.inner.same_but_news(b.inner)
}

/// The same resident state but for an accounting that was brought up to date.
pub open spec fn same_but_reloaded(a: Resident, b: Resident, meta: Rows) -> bool {
    &&& a.inner == b.inner
    &&& a.mode == b.mode
    &&& a.index == b.index
    &&& a.staged == b.staged
    &&& same_books(a, b, meta)
}

/// What is accounted for, and what is held to be inline, is as it was, but for
/// an accounting that was brought up to date.
pub open spec fn same_books(a: Resident, b: Resident, meta: Rows) -> bool {
    &&& a.known_inline == b.known_inline
    &&& (a.lru is Some) == (b.lru is Some)
    &&& a.lru matches Some(s) ==> (ledger_of(s) == ledger_of(b.lru->0) && s.dirty_spec() == b.lru->0.dirty_spec())
        || (ledger_of(s) == up_to_date(b.lru->0, meta, b.inner.id) && !s.dirty_spec())
}

impl Resident {
    /// Fresh state: nothing staged, nothing known.
    pub fn new(inner: Inner, mode: TxMode, index: Option<ByteMap<()>>, lru: Option<LruState>) -> (res: Self)
        ensures
            res.inner == inner,
            res.mode == mode,
            res.index == index,
            res.lru == lru,
            res.staged@.len() == 0,
            res.known_inline@ == Map::<Seq<u8>, ()>::empty(),
    {
        Resident { inner, mode, index, lru, staged: Vec::new(), known_inline: ByteMap::new() }
    }

    /// What this handle can prove about the record currently under `key`.
    ///
    /// Conservative by construction. It answers anything but
    /// [`Prior::Unknown`] only when the locker keeps an index, nothing is
    /// staged, and the index is authoritative. `Inline` additionally requires
    /// that this handle wrote the record and nothing has since invalidated
    /// that.
    pub fn prior(&self, key: &[u8], trusted: bool) -> (p: Prior)
        ensures
            p == self.prior_spec(key@, trusted),
    {
        if self.staged.len() != 0 {
            return Prior::Unknown;
        }
        if !trusted {
            return Prior::Unknown;
        }
        match &self.index {
            None => Prior::Unknown,
            Some(index) => {
                if !index.contains_key(key) {
                    Prior::Absent
                } else if self.known_inline.contains_key(key) {
                    Prior::Inline
                } else {
                    Prior::Unknown
                }
            },
        }
    }

    /// [`Resident::prior`], as mathematics.
    pub open spec fn prior_spec(self, key: Seq<u8>, trusted: bool) -> Prior {
        if self.staged@.len() != 0 || !trusted || self.index is None {
            Prior::Unknown
        } else if !keys_in(self.index).contains(key) {
            Prior::Absent
        } else if self.known_inline@.contains_key(key) {
            Prior::Inline
        } else {
            Prior::Unknown
        }
    }

    /// Record that `key` now holds an inline record (`true`) or that whatever
    /// this handle knew about it is no longer trustworthy (`false`).
    pub fn note_inline(&mut self, key: &[u8], inline: bool)
        ensures
            same_core(*final(self), *old(self)),
            final(self).inner == old(self).inner,
            final(self).index == old(self).index,
            final(self).lru == old(self).lru,
            final(self).staged == old(self).staged,
            final(self).known_inline@ == if old(self).index is Some && inline {
                old(self).known_inline@.insert(key@, ())
            } else {
                old(self).known_inline@.remove(key@)
            },
    {
        if inline && self.index.is_some() {
            self.known_inline.insert(copy(key), ());
        } else {
            self.known_inline.remove(key);
        }
    }

    /// Forget every inline marker.
    pub fn forget_inline(&mut self)
        ensures
            same_core(*final(self), *old(self)),
            final(self).inner == old(self).inner,
            final(self).index == old(self).index,
            final(self).lru == old(self).lru,
            final(self).staged == old(self).staged,
            final(self).known_inline@ == Map::<Seq<u8>, ()>::empty(),
    {
        self.known_inline.clear();
    }

    /// The bytes accounted for.
    pub fn budget_used(&self) -> (n: u64)
        ensures
            n == match self.lru {
                Some(s) => s.total_spec(),
                None => 0,
            },
    {
        match &self.lru {
            Some(state) => state.total(),
            None => 0,
        }
    }

    /// Note that `key` was read. In memory only: the bump rides along with the
    /// next commit, because a read must not write.
    pub fn note_read<B: Backend>(&mut self, shared: &mut Shared<B>, key: &[u8]) -> (r: Result<()>)
        ensures
            final(shared).carries_on(*old(shared)),
            final(shared).backend == old(shared).backend,
            final(shared).values == old(shared).values,
            final(shared).coherence == old(shared).coherence,
            final(self).inner == old(self).inner,
            final(self).mode == old(self).mode,
            final(self).index == old(self).index,
            final(self).staged == old(self).staged,
            final(self).known_inline == old(self).known_inline,
            use_noted(old(self).lru, *old(shared), key@, r is Ok, final(self).lru, *final(shared)),
            old(shared).backend.answers() && (old(self).lru is None || clock_runs(*old(shared))) ==> r is Ok,
            old(shared).backend.shut() ==> (r matches Err(e) ==> e is Closed || spent(e)),
    {
        match &mut self.lru {
            None => Ok(()),
            Some(state) => {
                let tick: u64 = match shared.ticks.allocate(&shared.backend) {
                    Ok(tick) => tick,
                    Err(e) => return Err(e),
                };
                state.touch(key, tick);
                Ok(())
            },
        }
    }

    /// Reload the accounting when another tab's write could not be accounted
    /// for. Cheap in the normal case: the flag is false.
    fn reload_lru_if_dirty<B: Backend>(&mut self, backend: &B) -> (r: Result<()>)
        ensures
            same_but_reloaded(*final(self), *old(self), backend.store().meta),
            backend.answers() ==> r is Ok,
            backend.shut() ==> (r matches Err(e) ==> e is Closed),
            r is Ok ==> (final(self).lru matches Some(s) ==> !s.dirty_spec() && ledger_of(s) == up_to_date(
                old(self).lru->0,
                backend.store().meta,
                old(self).inner.id,
            )),
    {
        match &mut self.lru {
            None => Ok(()),
            Some(state) => {
                if !state.is_dirty() {
                    return Ok(());
                }
                let max: u64 = state.max_bytes();
                match lru::load(backend, self.inner.id, max) {
                    Ok(loaded) => {
                        state.adopt_loaded(loaded);
                        Ok(())
                    },
                    Err(e) => Err(e),
                }
            },
        }
    }

    /// Everything one commit is about to do to the byte budget.
    ///
    /// Computed before the commit, applied after it lands — so a commit that
    /// fails leaves the accounting describing what is actually stored.
    pub fn budget_ops<B: Backend>(
        &mut self,
        shared: &mut Shared<B>,
        ops: &mut Vec<Op>,
        updates: Vec<(Vec<u8>, u64)>,
        removals: Vec<Vec<u8>>,
        cleared: bool,
        keep: &Vec<Vec<u8>>,
    ) -> (r: Result<Budget>)
        ensures
            final(shared).carries_on(*old(shared)),
            final(shared).backend == old(shared).backend,
            final(shared).values == old(shared).values,
            final(shared).coherence == old(shared).coherence,
            same_but_reloaded(*final(self), *old(self), old(shared).backend.store().meta),
            old(self).lru is None ==> r is Ok && changes(final(ops)@) == changes(old(ops)@) && no_budget(r->Ok_0)
                && final(shared).ticks == old(shared).ticks && *final(self) == *old(self),
            old(self).lru is Some ==> (r matches Ok(b) ==> budgeted(
                old(self).lru->0,
                old(self).inner.id,
                old(shared).backend.store(),
                old(shared).next_tick(),
                sizes(updates@),
                views(removals@),
                cleared,
                views(keep@),
                b,
                changes(old(ops)@),
                changes(final(ops)@),
            ) && !final(self).lru->0.dirty_spec() && ledger_of(final(self).lru->0) == up_to_date(
                old(self).lru->0,
                old(shared).backend.store().meta,
                old(self).inner.id,
            )),
            old(shared).backend.answers() && clock_runs(*old(shared)) && legible(
                old(shared).backend.store().records,
                old(self).inner.id,
            ) ==> r is Ok,
            old(shared).backend.shut() ==> (r matches Err(e) ==> e is Closed || spent(e)),
            old(shared).backend.answers() ==> (r matches Err(e) ==> budget_refused(*old(self), *old(shared), e)),
    {
        if self.lru.is_none() {
            return Ok(Budget::shedding(Plan::nothing()));
        }
        let ghost store = shared.backend.store();
        let ghost id = self.inner.id;
        // Another tab's news may have named a key whose size could not be
        // worked out. Reload before planning rather than evicting against a
        // total that is known to be wrong.
        match self.reload_lru_if_dirty(&shared.backend) {
            Ok(()) => {},
            Err(e) => return Err(e),
        }
        let tick: u64 = match shared.ticks.allocate(&shared.backend) {
            Ok(tick) => tick,
            Err(e) => return Err(e),
        };
        let skip = update_names(&updates);
        let stamped_updates = stamp(&updates, tick);
        let (plan, pending, pending_ops) = match &self.lru {
            None => return Ok(Budget::shedding(Plan::nothing())),
            Some(state) => {
                let plan = state.plan(&stamped_updates, &removals, cleared, state.max_bytes(), keep);
                let (pending, pending_ops) = if cleared {
                    (Vec::new(), Vec::new())
                } else {
                    state.pending_ops(self.inner.id, &skip)
                };
                (plan, pending, pending_ops)
            },
        };
        let ghost led = ledger_of(self.lru->0);
        let ghost before = changes(ops@);
        let mut more: Vec<Op> = Vec::new();
        assert(changes(more@) =~= Seq::<Change>::empty());
        if cleared {
            push_op(&mut more, lru::clear_op(self.inner.id));
            assert(changes(more@) =~= seq![entries_clear(id)]);
        }
        let ghost first = changes(more@);
        put_entries(&mut more, self.inner.id, &stamped_updates);
        append_ops(&mut more, pending_ops);
        delete_entries(&mut more, self.inner.id, &removals);
        let ghost head = changes(more@);
        match self.evict(&shared.backend, &mut more, &plan.victims) {
            Ok(()) => {},
            Err(e) => return Err(e),
        }
        push_op(&mut more, shared.ticks.counter_op());
        let budget = Budget { updates: stamped_updates, removals, cleared, plan, pending };
        proof {
            reveal(budget_head);
            let names = names_of(sizes(updates@));
            let views_of = update_views(budget.updates@);
            assert(Seq::new(views_of.len(), |i: int| views_of[i].0) =~= names);
            if cleared {
                assert(changes(pending_ops@) =~= Seq::<Change>::empty());
                assert(views(pending@) =~= Seq::<Seq<u8>>::empty());
            }
            assert(budget_list(store.records, id, led, budget, (tick + 1) as u64) == Some(changes(more@)));
        }
        append_ops(ops, more);
        Ok(budget)
    }

    /// Append what shedding some keys takes.
    fn evict<B: Backend>(&self, backend: &B, ops: &mut Vec<Op>, victims: &Vec<Vec<u8>>) -> (r: Result<()>)
        ensures
            r is Ok ==> (evictions(backend.store().records, self.inner.id, views(victims@)) matches Some(shed)
                && changes(final(ops)@) == changes(old(ops)@) + shed),
            backend.answers() && (evictions(backend.store().records, self.inner.id, views(victims@)) is Some
                || legible(backend.store().records, self.inner.id)) ==> r is Ok,
            backend.shut() ==> (r matches Err(e) ==> e is Closed),
            backend.answers() ==> (r matches Err(e) ==> exists|key: Seq<u8>| #[trigger]
                gc_refused(backend.store().records, self.inner.id, key, e)),
    {
        proof {
            if legible(backend.store().records, self.inner.id) {
                anything_can_be_shed(backend.store().records, self.inner.id, views(victims@));
            }
        }
        let ghost records = backend.store().records;
        let ghost id = self.inner.id;
        let ghost all = views(victims@);
        let ghost before = changes(ops@);
        let mut i: usize = 0;
        assert(before + evictions(records, id, all.take(0))->0 =~= before);
        while i < victims.len()
            invariant
                i <= victims@.len(),
                all == views(victims@),
                id == self.inner.id,
                records == backend.store().records,
                evictions(records, id, all.take(i as int)) is Some,
                changes(ops@) == before + evictions(records, id, all.take(i as int))->0,
            decreases victims.len() - i,
        {
            proof {
                assert(all.take(i + 1).drop_last() =~= all.take(i as int));
                assert(all.take(i + 1).last() == victims@[i as int]@);
                if gc_list(records, id, victims@[i as int]@, Prior::Unknown) is None {
                    evictions_stop(records, id, all, i + 1);
                    assert(all.take(all.len() as int) =~= all);
                }
            }
            let ghost so_far = changes(ops@);
            let dropped = match self.inner.delete_value_ops(backend, victims[i].as_slice(), Prior::Unknown) {
                Ok(dropped) => dropped,
                Err(e) => return Err(e),
            };
            let ghost gone = changes(dropped@);
            append_ops(ops, dropped);
            push_op(ops, lru::delete_op(self.inner.id, victims[i].as_slice()));
            assert(changes(ops@) =~= before + evictions(records, id, all.take(i + 1))->0);
            i += 1;
        }
        assert(all.take(all.len() as int) =~= all);
        Ok(())
    }

    /// Apply the accounting, drop the evicted keys from the index, and say so.
    pub fn apply_budget(&mut self, budget: &Budget)
        ensures
            final(self).mode == old(self).mode,
            final(self).staged == old(self).staged,
            final(self).inner.same_but_news(old(self).inner),
            final(self).inner.epochs == old(self).inner.epochs,
            all_announced(
                old(self).inner.watchers,
                all_evicted(views(budget.plan.victims@)),
                final(self).inner.watchers,
            ),
            (final(self).index is Some) == (old(self).index is Some),
            keys_in(final(self).index) == keys_in(old(self).index).difference(views(budget.plan.victims@).to_set()),
            final(self).known_inline@ == old(self).known_inline@.remove_keys(views(budget.plan.victims@).to_set()),
            old(self).lru is None ==> final(self).lru is None,
            old(self).lru matches Some(s) ==> (final(self).lru matches Some(now) && ledger_of(now) == ledger_after(
                ledger_of(s),
                *budget,
            ) && now.dirty_spec() == s.dirty_spec()),
    {
        match &mut self.lru {
            None => {},
            Some(state) => {
                state.apply(&budget.updates, &budget.removals, budget.cleared, &budget.plan);
                state.clear_pending(&budget.pending);
            },
        }
        let ghost victims = views(budget.plan.victims@);
        match &mut self.index {
            None => {},
            Some(index) => {
                let ghost was = index@;
                remove_all(index, &budget.plan.victims);
                assert(index@.dom() =~= was.dom().difference(victims.to_set()));
            },
        }
        assert(keys_in(self.index) =~= keys_in(old(self).index).difference(victims.to_set()));
        remove_all(&mut self.known_inline, &budget.plan.victims);
        let ghost listening = self.inner.watchers;
        let ghost all = all_evicted(victims);
        let mut i: usize = 0;
        proof {
            nothing_announced(listening);
            assert(all.take(0) =~= Seq::empty());
        }
        while i < budget.plan.victims.len()
            invariant
                i <= budget.plan.victims@.len(),
                victims == views(budget.plan.victims@),
                all == all_evicted(victims),
                self.mode == old(self).mode,
                self.staged == old(self).staged,
                self.inner.same_but_news(old(self).inner),
                self.inner.epochs == old(self).inner.epochs,
                all_announced(listening, all.take(i as int), self.inner.watchers),
                (self.index is Some) == (old(self).index is Some),
                keys_in(self.index) == keys_in(old(self).index).difference(victims.to_set()),
                self.known_inline@ == old(self).known_inline@.remove_keys(victims.to_set()),
                old(self).lru is None ==> self.lru is None,
                old(self).lru matches Some(s) ==> (self.lru matches Some(now) && ledger_of(now) == ledger_after(
                    ledger_of(s),
                    *budget,
                ) && now.dirty_spec() == s.dirty_spec()),
            decreases budget.plan.victims.len() - i,
        {
            let ghost told = self.inner.watchers;
            self.inner.announce(Event::Evicted { key: copy(budget.plan.victims[i].as_slice()) });
            proof {
                next_announced(listening, all, i as int, told, self.inner.watchers);
            }
            i += 1;
        }
        assert(all.take(all.len() as int) =~= all);
    }

    /// Once a commit has landed: apply its writes to the index, its budget to
    /// the accounting, and tell watchers of whom it shed and what it wrote.
    pub fn settle(&mut self, entries: &Vec<Pending>, budget: &Budget)
        ensures
            final(self).mode == old(self).mode,
            final(self).staged == old(self).staged,
            final(self).inner.same_but_news(old(self).inner),
            final(self).inner.epochs == old(self).inner.epochs,
            all_announced(
                old(self).inner.watchers,
                all_evicted(views(budget.plan.victims@)) + all_told(moves(entries@)),
                final(self).inner.watchers,
            ),
            (final(self).index is Some) == (old(self).index is Some),
            old(self).index is Some ==> keys_in(final(self).index) == indexed(
                keys_in(old(self).index),
                moves(entries@),
            ).difference(views(budget.plan.victims@).to_set()),
            final(self).known_inline@ == old(self).known_inline@.remove_keys(views(budget.plan.victims@).to_set()),
            (final(self).lru is Some) == (old(self).lru is Some),
            old(self).lru matches Some(s) ==> (final(self).lru matches Some(now) && ledger_of(now) == ledger_after(
                ledger_of(s),
                *budget,
            ) && now.dirty_spec() == s.dirty_spec()),
    {
        match &mut self.index {
            None => {},
            Some(index) => apply_to_index(index, entries),
        }
        self.apply_budget(budget);
        let ghost mid = *self;
        let ghost all = all_told(moves(entries@));
        let mut i: usize = 0;
        proof {
            nothing_announced(mid.inner.watchers);
            assert(all.take(0) =~= Seq::empty());
        }
        while i < entries.len()
            invariant
                i <= entries@.len(),
                all == all_told(moves(entries@)),
                self.mode == mid.mode,
                self.staged == mid.staged,
                self.index == mid.index,
                self.lru == mid.lru,
                self.known_inline == mid.known_inline,
                self.inner.same_but_news(mid.inner),
                self.inner.epochs == mid.inner.epochs,
                all_announced(mid.inner.watchers, all.take(i as int), self.inner.watchers),
            decreases entries.len() - i,
        {
            let ghost told = self.inner.watchers;
            self.inner.announce(entries[i].event());
            proof {
                next_announced(mid.inner.watchers, all, i as int, told, self.inner.watchers);
            }
            i += 1;
        }
        proof {
            assert(all.take(entries@.len() as int) =~= all);
            announced_in_turn(
                old(self).inner.watchers,
                all_evicted(views(budget.plan.victims@)),
                mid.inner.watchers,
                all,
                self.inner.watchers,
            );
        }
    }

    /// [`Resident::settle`] for a commit of one write.
    pub fn settle_one(&mut self, entry: Pending, budget: &Budget)
        ensures
            final(self).mode == old(self).mode,
            final(self).staged == old(self).staged,
            final(self).inner.same_but_news(old(self).inner),
            final(self).inner.epochs == old(self).inner.epochs,
            all_announced(
                old(self).inner.watchers,
                all_evicted(views(budget.plan.victims@)).push(told(entry@)),
                final(self).inner.watchers,
            ),
            (final(self).index is Some) == (old(self).index is Some),
            old(self).index is Some ==> keys_in(final(self).index) == (match entry@ {
                Move::Put { key, .. } => keys_in(old(self).index).insert(key),
                Move::Delete { key } => keys_in(old(self).index).remove(key),
                Move::Clear => Set::empty(),
            }).difference(views(budget.plan.victims@).to_set()),
            final(self).known_inline@ == old(self).known_inline@.remove_keys(views(budget.plan.victims@).to_set()),
            (final(self).lru is Some) == (old(self).lru is Some),
            old(self).lru matches Some(s) ==> (final(self).lru matches Some(now) && ledger_of(now) == ledger_after(
                ledger_of(s),
                *budget,
            ) && now.dirty_spec() == s.dirty_spec()),
    {
        let mut one: Vec<Pending> = Vec::new();
        one.push(entry);
        proof {
            let m = moves(one@);
            let victims = views(budget.plan.victims@);
            let gone = all_evicted(victims);
            assert(m.drop_last() =~= Seq::<Move>::empty());
            assert(m.last() == entry@);
            assert(indexed(keys_in(self.index), m.drop_last()) == keys_in(self.index));
            assert(gone + all_told(m) =~= gone.push(told(entry@)));
        }
        self.settle(&one, budget);
    }

    /// Shed least-recently-used keys until at most `bytes` remain accounted.
    /// Says how many went.
    pub fn evict_to<B: Backend>(&mut self, shared: &mut Shared<B>, bytes: u64) -> (r: Result<usize>)
        ensures
            final(shared).carries_on(*old(shared)),
            final(shared).stays_forced(*old(shared), old(self).inner.config.durability),
            final(shared).told(*old(shared), old(self).inner, final(self).inner),
            final(shared).values == old(shared).values,
            final(shared).ticks == old(shared).ticks,
            final(self).mode == old(self).mode,
            final(self).staged == old(self).staged,
            final(self).inner.same_but_news(old(self).inner),
            (final(self).index is Some) == (old(self).index is Some),
            (final(self).lru is Some) == (old(self).lru is Some),
            old(self).lru is None ==> r == Ok::<usize, Error>(0) && *final(self) == *old(self) && *final(shared) == *old(
                shared,
            ),
            r is Err ==> final(shared).backend.store() == old(shared).backend.store() && *final(self) == *old(self),
            old(self).lru matches Some(s) ==> (r matches Ok(n) ==> exists|plan: Plan|
                {
                    &&& #[trigger] plan_fits(
                        s.books(),
                        s.total_spec(),
                        Seq::empty(),
                        Seq::empty(),
                        false,
                        bytes,
                        Seq::empty(),
                        plan,
                    )
                    &&& n == plan.victims@.len()
                    &&& shed_landed(*old(self), old(shared).backend.store(), plan, *final(self), final(shared).backend.store())
                }),
            old(shared).backend.answers() ==> final(shared).backend.answers() && (legible(
                old(shared).backend.store().records,
                old(self).inner.id,
            ) ==> r is Ok),
            old(shared).backend.shut() ==> match r {
                Ok(n) => n == 0,
                Err(e) => e is Closed,
            },
    {
        let none: Vec<(Vec<u8>, Entry)> = Vec::new();
        let no_keys: Vec<Vec<u8>> = Vec::new();
        assert(update_views(none@) =~= Seq::empty());
        assert(views(no_keys@) =~= Seq::empty());
        let plan = match &self.lru {
            None => return Ok(0),
            Some(state) => state.plan(&none, &no_keys, false, bytes, &no_keys),
        };
        if plan.victims.len() == 0 {
            proof {
                let victims = views(plan.victims@);
                assert(keys_in(self.index).difference(victims.to_set()) =~= keys_in(self.index));
                assert(all_evicted(victims) =~= Seq::empty());
                nothing_announced(self.inner.watchers);
                assert(self.known_inline@ =~= self.known_inline@.remove_keys(views(plan.victims@).to_set()));
                assert(shed_landed(*self, shared.backend.store(), plan, *self, shared.backend.store()));
            }
            return Ok(0);
        }
        let mut ops: Vec<Op> = Vec::new();
        assert(changes(ops@) =~= Seq::<Change>::empty());
        match self.evict(&shared.backend, &mut ops, &plan.victims) {
            Ok(()) => {},
            Err(e) => return Err(e),
        }
        let ghost shed = evictions(shared.backend.store().records, self.inner.id, views(plan.victims@))->0;
        assert(changes(ops@) =~= shed);
        match self.inner.commit(shared, ops) {
            Ok(()) => {},
            Err(e) => return Err(e),
        }
        let n: usize = plan.victims.len();
        let budget = Budget::shedding(plan);
        assert(update_views(budget.updates@) =~= Seq::empty());
        assert(views(budget.removals@) =~= Seq::empty());
        assert(views(budget.pending@) =~= Seq::empty());
        let ghost mid = *self;
        self.apply_budget(&budget);
        proof {
            let victims = views(budget.plan.victims@);
            let left = pending_after(mid.lru->0.deferred(), Seq::empty(), false, victims);
            assert(left.remove_keys(Seq::<Seq<u8>>::empty().to_set()) =~= left);
            assert(self.lru->0.deferred() == left);
            assert(shed_landed(*old(self), old(shared).backend.store(), budget.plan, *self, shared.backend.store()));
        }
        Ok(n)
    }

    /// Fold another tab's news into the byte budget. A size that could not be
    /// determined marks the accounting dirty instead of guessing.
    pub fn remote_budget(&mut self, key: &[u8], bytes: Option<u64>, deleted: bool)
        ensures
            final(self).inner == old(self).inner,
            final(self).mode == old(self).mode,
            final(self).index == old(self).index,
            final(self).staged == old(self).staged,
            final(self).known_inline == old(self).known_inline,
            (final(self).lru is Some) == (old(self).lru is Some),
            old(self).lru matches Some(s) ==> (final(self).lru matches Some(now) && (ledger_of(now), now.dirty_spec())
                == remote_step((ledger_of(s), s.dirty_spec()), key@, bytes, deleted)),
    {
        match &mut self.lru {
            None => {},
            Some(state) => {
                if deleted {
                    state.remote_delete(key);
                } else {
                    state.remote_put(key, bytes);
                }
            },
        }
    }

    /// Fold another tab's clear into the byte budget.
    pub fn remote_budget_clear(&mut self)
        ensures
            final(self).inner == old(self).inner,
            final(self).mode == old(self).mode,
            final(self).index == old(self).index,
            final(self).staged == old(self).staged,
            final(self).known_inline == old(self).known_inline,
            (final(self).lru is Some) == (old(self).lru is Some),
            old(self).lru matches Some(s) ==> ({
                let now = final(self).lru->0;
                &&& now.limit() == s.limit()
                &&& now.books() == Map::<Seq<u8>, Entry>::empty()
                &&& now.deferred() == Map::<Seq<u8>, u64>::empty()
                &&& now.total_spec() == 0
                &&& !now.dirty_spec()
            }),
    {
        match &mut self.lru {
            None => {},
            Some(state) => state.remote_clear(),
        }
    }

    /// Whether writes are staged rather than committed one by one.
    pub fn is_deferred(&self) -> (b: bool)
        ensures
            b == (self.inner.config.batch() is Some),
    {
        self.inner.config.defers_writes()
    }

    /// How many writes are staged.
    pub fn pending_len(&self) -> (n: usize)
        ensures
            n == self.staged@.len(),
    {
        self.staged.len()
    }

    /// The payload bytes staged.
    pub fn pending_bytes(&self) -> (n: u64)
        ensures
            n == capped(staged_bytes(moves(self.staged@))),
    {
        super::batch::pending_bytes(&self.staged)
    }

    /// Queue a write. Says whether the batch is now full.
    pub fn stage(&mut self, entry: Pending) -> (full: bool)
        ensures
            final(self).inner == old(self).inner,
            final(self).mode == old(self).mode,
            final(self).index == old(self).index,
            final(self).lru == old(self).lru,
            final(self).known_inline == old(self).known_inline,
            moves(final(self).staged@) == moves(old(self).staged@).push(entry@),
            full == (old(self).inner.config.batch() matches Some(after) && final(self).staged@.len() >= after),
    {
        let after: usize = match self.inner.config.commit {
            super::policy::Commit::Immediate => usize::MAX,
            super::policy::Commit::Deferred { after } => if after <= 1 {
                usize::MAX
            } else {
                after
            },
        };
        let deferred: bool = self.is_deferred();
        let ghost was = self.staged@;
        self.staged.push(entry);
        assert(moves(self.staged@) =~= moves(was).push(entry@));
        deferred && self.staged.len() >= after
    }

    /// Turn a batch into one commit: its ops, then what it owes the byte
    /// budget.
    pub fn commit_batch<B: Backend>(&mut self, shared: &mut Shared<B>, entries: &Vec<Pending>) -> (r: Result<Budget>)
        requires
            old(self).mode is Lazy ==> old(self).inner.config.chunk_size > 0,
        ensures
            final(shared).carries_on(*old(shared)),
            final(shared).stays_forced(*old(shared), old(self).inner.config.durability),
            final(shared).told(*old(shared), old(self).inner, final(self).inner),
            final(self).inner.same_but_news(old(self).inner),
            final(self).inner.watchers == old(self).inner.watchers,
            final(self).mode == old(self).mode,
            final(self).index == old(self).index,
            final(self).staged == old(self).staged,
            final(self).known_inline == old(self).known_inline,
            (final(self).lru is Some) == (old(self).lru is Some),
            r is Err ==> final(shared).backend.store() == old(shared).backend.store() && final(self).inner
                == old(self).inner && same_books(*final(self), *old(self), old(shared).backend.store().meta),
            r matches Ok(b) ==> batch_landed(
                *old(self),
                *old(shared),
                moves(entries@),
                b,
                final(shared).backend.store(),
                final(shared).next_id_from(old(shared).backend.store()),
            ) && (old(self).lru is Some ==> ledger_of(final(self).lru->0) == up_to_date(
                old(self).lru->0,
                old(shared).backend.store().meta,
                old(self).inner.id,
            ) && !final(self).lru->0.dirty_spec()) && (old(self).lru is None ==> no_budget(b)),
            can_land(*old(self), *old(shared), moves(entries@)) ==> r is Ok,
            old(shared).backend.shut() ==> (r matches Err(e) && old(self).inner.shut_out(e)),
            old(shared).backend.answers() ==> (r matches Err(e) ==> batch_refused(
                *old(self),
                *old(shared),
                moves(entries@),
                e,
            )),
            old(self).mode is Eager && old(self).lru is None && old(shared).backend.answers() && all_taken(
                old(self).inner,
                moves(entries@),
            ) ==> (r matches Err(e) ==> too_large(old(self).inner, moves(entries@), e)),
    {
        let ops = match ops_for_pending(&self.inner, shared, entries, self.mode) {
            Ok(ops) => ops,
            Err(e) => return Err(e),
        };
        let (updates, removals, cleared) = accounting(entries);
        // The batch's own keys are kept: a commit must never evict a key it
        // is writing, which would drop the new chunks and leave the record
        // pointing at nothing.
        let keep = update_names(&updates);
        proof {
            reveal(batch_landed);
        }
        self.commit_with_budget(shared, ops, updates, removals, cleared, &keep)
    }

    /// One commit: its ops, then what it owes the byte budget.
    pub fn commit_with_budget<B: Backend>(
        &mut self,
        shared: &mut Shared<B>,
        ops: Vec<Op>,
        updates: Vec<(Vec<u8>, u64)>,
        removals: Vec<Vec<u8>>,
        cleared: bool,
        keep: &Vec<Vec<u8>>,
    ) -> (r: Result<Budget>)
        ensures
            final(shared).carries_on(*old(shared)),
            final(shared).stays_forced(*old(shared), old(self).inner.config.durability),
            final(shared).told(*old(shared), old(self).inner, final(self).inner),
            final(shared).values == old(shared).values,
            final(self).inner.same_but_news(old(self).inner),
            final(self).inner.watchers == old(self).inner.watchers,
            final(self).mode == old(self).mode,
            final(self).index == old(self).index,
            final(self).staged == old(self).staged,
            final(self).known_inline == old(self).known_inline,
            (final(self).lru is Some) == (old(self).lru is Some),
            r is Err ==> final(shared).backend.store() == old(shared).backend.store() && final(self).inner
                == old(self).inner && same_books(*final(self), *old(self), old(shared).backend.store().meta),
            r matches Ok(b) ==> write_landed(
                old(self).lru,
                old(self).inner.id,
                old(shared).backend.store(),
                old(shared).next_tick(),
                changes(ops@),
                sizes(updates@),
                views(removals@),
                cleared,
                views(keep@),
                b,
                final(shared).backend.store(),
            ),
            r matches Ok(b) ==> (old(self).lru is None ==> no_budget(b)),
            r is Ok && old(self).lru is Some ==> ledger_of(final(self).lru->0) == up_to_date(
                old(self).lru->0,
                old(shared).backend.store().meta,
                old(self).inner.id,
            ) && !final(self).lru->0.dirty_spec(),
            old(shared).backend.answers() ==> final(shared).backend.answers() && (old(self).lru is None || (clock_runs(
                *old(shared),
            ) && legible(old(shared).backend.store().records, old(self).inner.id)) ==> r is Ok),
            old(shared).backend.shut() ==> (r matches Err(e) && (e is Closed || spent(e))),
            old(shared).backend.answers() ==> (r matches Err(e) ==> budget_refused(*old(self), *old(shared), e)),
    {
        let ghost out = changes(ops@);
        let mut ops = ops;
        let budget = match self.budget_ops(shared, &mut ops, updates, removals, cleared, keep) {
            Ok(budget) => budget,
            Err(e) => return Err(e),
        };
        let ghost all = changes(ops@);
        match self.inner.commit(shared, ops) {
            Ok(()) => {},
            Err(e) => return Err(e),
        }
        proof {
            reveal(write_landed);
            if old(self).lru is None {
                assert(all == out);
            }
            assert(shared.backend.store() == old(shared).backend.store().after_all(all));
        }
        Ok(budget)
    }

    /// What a flush takes: a locker that splits its values splits them into
    /// pieces of some size, where anything is staged at all.
    pub open spec fn can_flush(self) -> bool {
        self.mode is Lazy && self.staged@.len() > 0 ==> self.inner.config.chunk_size > 0
    }

    /// Commit everything staged. A flush that failed has written nothing: the
    /// batch is put back rather than dropped on the floor.
    pub fn flush<B: Backend>(&mut self, shared: &mut Shared<B>) -> (r: Result<()>)
        requires
            old(self).can_flush(),
        ensures
            flush_gives(*old(self), *old(shared), r is Ok, *final(self), *final(shared)),
            old(shared).backend.shut() ==> (r matches Err(e) ==> old(self).inner.shut_out(e)),
            old(shared).backend.answers() ==> (r matches Err(e) ==> batch_refused(
                *old(self),
                *old(shared),
                moves(old(self).staged@),
                e,
            )),
    {
        let entries = self.take_staged();
        if entries.len() == 0 {
            assert(self.staged@ =~= old(self).staged@);
            return Ok(());
        }
        match self.commit_batch(shared, &entries) {
            Ok(budget) => {
                proof {
                    reveal(batch_landed);
                }
                assert(batch_landed(
                    *old(self),
                    *old(shared),
                    moves(old(self).staged@),
                    budget,
                    shared.backend.store(),
                    shared.next_id_from(old(shared).backend.store()),
                ));
                let ghost mid = *self;
                self.apply_budget(&budget);
                assert(budget_applied(*old(self), old(shared).backend.store().meta, budget, *self));
                Ok(())
            },
            Err(e) => {
                self.restage(entries);
                Err(e)
            },
        }
    }

    /// Drain the staged batch. The caller owns it and must restage it if the
    /// commit it was drained for does not land.
    pub fn take_staged(&mut self) -> (entries: Vec<Pending>)
        ensures
            entries@ == old(self).staged@,
            final(self).staged@.len() == 0,
            final(self).inner == old(self).inner,
            final(self).mode == old(self).mode,
            final(self).index == old(self).index,
            final(self).lru == old(self).lru,
            final(self).known_inline == old(self).known_inline,
            old(self).staged@.len() == 0 ==> *final(self) == *old(self),
    {
        if self.staged.len() == 0 {
            return Vec::new();
        }
        let mut entries: Vec<Pending> = Vec::new();
        core::mem::swap(&mut entries, &mut self.staged);
        entries
    }

    /// Put a drained batch back at the front, ahead of anything staged since.
    pub fn restage(&mut self, entries: Vec<Pending>)
        ensures
            final(self).staged@ == entries@ + old(self).staged@,
            final(self).inner == old(self).inner,
            final(self).mode == old(self).mode,
            final(self).index == old(self).index,
            final(self).lru == old(self).lru,
            final(self).known_inline == old(self).known_inline,
    {
        let mut entries = entries;
        let mut since: Vec<Pending> = Vec::new();
        core::mem::swap(&mut since, &mut self.staged);
        entries.append(&mut since);
        self.staged = entries;
    }

    /// Drop everything staged.
    pub fn discard_staged(&mut self)
        ensures
            final(self).staged@.len() == 0,
            final(self).inner == old(self).inner,
            final(self).mode == old(self).mode,
            final(self).index == old(self).index,
            final(self).lru == old(self).lru,
            final(self).known_inline == old(self).known_inline,
    {
        self.staged = Vec::new();
    }
}

/// `e` is why a commit's byte budget cannot be worked out where the store
/// answers: there is no moment to be had for it, or a key to be shed has a
/// record that is a pointer which cannot be read.
pub open spec fn budget_refused<B: Backend>(res: Resident, shared: Shared<B>, e: Error) -> bool {
    &&& res.lru is Some
    &&& {
        ||| shared.next_tick() is None && corrupt_with(e, "next_tick is not an 8-byte integer"@)
        ||| shared.next_tick() == Some(u64::MAX) && backend_with(e, "tick space is exhausted"@)
        ||| exists|key: Seq<u8>| #[trigger] gc_refused(shared.backend.store().records, res.inner.id, key, e)
    }
}

/// `e` is why a batch cannot be committed where the store answers: one of its
/// writes cannot be spelt, or its byte budget cannot be worked out.
pub open spec fn batch_refused<B: Backend>(res: Resident, shared: Shared<B>, list: Seq<Move>, e: Error) -> bool {
    ||| parts_refused(res.inner, res.mode, shared.backend.store().records, list, e)
    ||| budget_refused(res, shared, e)
}

/// Nothing stands in the way of a batch: the backend answers, the records it
/// replaces and sheds can be read, its payloads can be sealed, and there are
/// ids and ticks left.
pub open spec fn can_land<B: Backend>(res: Resident, shared: Shared<B>, list: Seq<Move>) -> bool {
    let store = shared.backend.store();
    &&& shared.backend.answers()
    &&& store.is_finite()
    &&& res.lru is None || (clock_runs(shared) && legible(store.records, res.inner.id))
    &&& possible(res.inner, res.mode, store.records, list)
    &&& res.mode is Lazy ==> (shared.values.upcoming(store) matches Some(id) && id + latest(list).dom().len()
        < u64::MAX)
}

/// Nothing is owed where there is no accounting.
pub open spec fn no_budget(b: Budget) -> bool {
    &&& b.updates@.len() == 0
    &&& b.removals@.len() == 0
    &&& !b.cleared
    &&& b.plan.victims@.len() == 0
    &&& b.pending@.len() == 0
}

/// `b` is what a commit owes an accounting, and `after` is the commit's list
/// `before` with what that takes.
pub open spec fn budgeted(
    lru: LruState,
    id: LockerId,
    store: Store,
    tick: Option<u64>,
    updates: Seq<(Seq<u8>, u64)>,
    removals: Seq<Seq<u8>>,
    cleared: bool,
    keep: Seq<Seq<u8>>,
    b: Budget,
    before: Seq<Change>,
    after: Seq<Change>,
) -> bool {
    let led = up_to_date(lru, store.meta, id);
    &&& tick matches Some(t) && t < u64::MAX && budget_fits(b, led, updates, removals, cleared, keep, t) && (
    budget_list(store.records, id, led, b, (t + 1) as u64) matches Some(more) && after == before + more)
}

/// What committing everything a locker has staged gives: nothing where nothing
/// is staged, the whole batch stored, or the whole batch still staged.
pub open spec fn flush_gives<B: Backend>(
    before: Resident,
    shared: Shared<B>,
    ok: bool,
    after: Resident,
    now: Shared<B>,
) -> bool {
    let store = shared.backend.store();
    &&& now.carries_on(shared)
    &&& now.stays_forced(shared, before.inner.config.durability)
    &&& now.told(shared, before.inner, after.inner)
    &&& after.inner.same_but_news(before.inner)
    &&& after.mode == before.mode
    &&& (after.index is Some) == (before.index is Some)
    &&& (after.lru is Some) == (before.lru is Some)
    &&& before.staged@.len() == 0 ==> ok && after == before && now == shared
    &&& !ok ==> now.backend.store() == store && after.staged@ == before.staged@ && after.index == before.index
        && after.inner == before.inner && same_books(after, before, store.meta)
    &&& ok ==> after.staged@.len() == 0
    &&& ok && before.staged@.len() > 0 ==> exists|b: Budget|
        {
            &&& #[trigger] batch_landed(
                before,
                shared,
                moves(before.staged@),
                b,
                now.backend.store(),
                now.next_id_from(store),
            )
            &&& budget_applied(before, store.meta, b, after)
        }
    &&& can_land(before, shared, moves(before.staged@)) ==> ok
    &&& shared.backend.shut() && before.staged@.len() > 0 ==> !ok
}

/// A batch landed as one commit: what it does to the records, then what it
/// owes the byte budget.
#[verifier::opaque]
pub open spec fn batch_landed<B: Backend>(
    res: Resident,
    shared: Shared<B>,
    list: Seq<Move>,
    b: Budget,
    after: Store,
    next: u64,
) -> bool {
    exists|out: Seq<Change>|
        {
            &&& #[trigger] batched(
                res.inner,
                res.mode,
                shared.backend.store().records,
                list,
                shared.next_id(),
                next,
                out,
            )
            &&& write_landed(
                res.lru,
                res.inner.id,
                shared.backend.store(),
                shared.next_tick(),
                out,
                weighed(list),
                removed(list),
                wipes(list),
                names_of(weighed(list)),
                b,
                after,
            )
        }
}

/// `out` landed as one commit, with what it owes the byte budget behind it.
#[verifier::opaque]
pub open spec fn write_landed(
    lru: Option<LruState>,
    id: LockerId,
    store: Store,
    tick: Option<u64>,
    out: Seq<Change>,
    updates: Seq<(Seq<u8>, u64)>,
    removals: Seq<Seq<u8>>,
    cleared: bool,
    keep: Seq<Seq<u8>>,
    b: Budget,
    after: Store,
) -> bool {
    exists|all: Seq<Change>|
        {
            &&& after == #[trigger] store.after_all(all)
            &&& match lru {
                Some(s) => budgeted(s, id, store, tick, updates, removals, cleared, keep, b, out, all),
                None => all == out && no_budget(b),
            }
        }
}

/// The resident state once a landed commit's budget is applied: the accounting
/// moved on, and whoever was shed left the index, in silence no longer.
pub open spec fn budget_applied(before: Resident, meta: Rows, b: Budget, after: Resident) -> bool {
    let victims = views(b.plan.victims@);
    &&& keys_in(after.index) == keys_in(before.index).difference(victims.to_set())
    &&& all_announced(before.inner.watchers, all_evicted(victims), after.inner.watchers)
    &&& before.lru matches Some(s) ==> (after.lru matches Some(now) && ledger_of(now) == ledger_after(
        up_to_date(s, meta, before.inner.id),
        b,
    ) && !now.dirty_spec())
    &&& before.lru is None ==> victims.len() == 0
    &&& after.known_inline@ == before.known_inline@.remove_keys(victims.to_set())
}

/// A plan's victims went from the store, the index and the accounting.
pub open spec fn shed_landed(before: Resident, store: Store, plan: Plan, after: Resident, now: Store) -> bool {
    let victims = views(plan.victims@);
    &&& evictions(store.records, before.inner.id, victims) matches Some(list) && now == store.after_all(list)
    &&& keys_in(after.index) == keys_in(before.index).difference(victims.to_set())
    &&& after.known_inline@ == before.known_inline@.remove_keys(victims.to_set())
    &&& all_announced(before.inner.watchers, all_evicted(victims), after.inner.watchers)
    &&& victims.len() > 0 ==> (after.lru matches Some(s) && s.total_spec() == plan.total && s.books() == books_after(
        before.lru->0.books(),
        Seq::empty(),
        Seq::empty(),
        false,
        victims,
    ) && s.limit() == before.lru->0.limit() && s.deferred() == pending_after(
        before.lru->0.deferred(),
        Seq::empty(),
        false,
        victims,
    ) && s.dirty_spec() == before.lru->0.dirty_spec())
    &&& victims.len() == 0 ==> after == before
}

/// Where one eviction is impossible, the whole list is.
proof fn evictions_stop(records: Rows, id: LockerId, all: Seq<Seq<u8>>, n: int)
    requires
        0 <= n <= all.len(),
        evictions(records, id, all.take(n)) is None,
    ensures
        evictions(records, id, all.take(all.len() as int)) is None,
    decreases all.len() - n,
{
    if n < all.len() {
        assert(all.take(n + 1).drop_last() =~= all.take(n));
        evictions_stop(records, id, all, n + 1);
    }
}

/// The updates of one commit, all at one moment.
fn stamp(updates: &Vec<(Vec<u8>, u64)>, tick: u64) -> (out: Vec<(Vec<u8>, Entry)>)
    ensures
        update_views(out@) == stamped(sizes(updates@), tick),
{
    let ghost all = stamped(sizes(updates@), tick);
    let mut out: Vec<(Vec<u8>, Entry)> = Vec::new();
    let mut i: usize = 0;
    assert(update_views(out@) =~= all.take(0));
    while i < updates.len()
        invariant
            i <= updates@.len(),
            all == stamped(sizes(updates@), tick),
            update_views(out@) == all.take(i as int),
        decreases updates.len() - i,
    {
        let ghost was = out@;
        out.push((copy(updates[i].0.as_slice()), Entry { tick, bytes: updates[i].1 }));
        assert(update_views(out@) =~= update_views(was).push(all[i as int]));
        assert(all.take(i + 1) =~= all.take(i as int).push(all[i as int]));
        i += 1;
    }
    assert(all.take(updates@.len() as int) =~= all);
    out
}

/// Append what recording some updates takes.
fn put_entries(ops: &mut Vec<Op>, id: LockerId, updates: &Vec<(Vec<u8>, Entry)>)
    ensures
        changes(final(ops)@) == changes(old(ops)@) + update_puts(id, update_views(updates@)),
{
    let ghost before = changes(ops@);
    let ghost all = update_puts(id, update_views(updates@));
    let mut i: usize = 0;
    assert(before + all.take(0) =~= before);
    while i < updates.len()
        invariant
            i <= updates@.len(),
            all == update_puts(id, update_views(updates@)),
            changes(ops@) == before + all.take(i as int),
        decreases updates.len() - i,
    {
        push_op(ops, lru::put_op(id, updates[i].0.as_slice(), updates[i].1));
        assert(before + all.take(i + 1) =~= (before + all.take(i as int)).push(all[i as int]));
        i += 1;
    }
    assert(all.take(updates@.len() as int) =~= all);
}

/// Append what striking some keys off the accounting takes.
fn delete_entries(ops: &mut Vec<Op>, id: LockerId, keys: &Vec<Vec<u8>>)
    ensures
        changes(final(ops)@) == changes(old(ops)@) + entry_deletes(id, views(keys@)),
{
    let ghost before = changes(ops@);
    let ghost all = entry_deletes(id, views(keys@));
    let mut i: usize = 0;
    assert(before + all.take(0) =~= before);
    while i < keys.len()
        invariant
            i <= keys@.len(),
            all == entry_deletes(id, views(keys@)),
            changes(ops@) == before + all.take(i as int),
        decreases keys.len() - i,
    {
        push_op(ops, lru::delete_op(id, keys[i].as_slice()));
        assert(before + all.take(i + 1) =~= (before + all.take(i as int)).push(all[i as int]));
        i += 1;
    }
    assert(all.take(keys@.len() as int) =~= all);
}

/// The accounting a locker opens with: what storage recorded for the keys it
/// holds, and nothing for a key it holds without a record.
pub open spec fn opening_books(meta: Rows, id: LockerId, live: Set<Seq<u8>>) -> Books {
    Map::new(
        |k: Seq<u8>| live.contains(k),
        |k: Seq<u8>|
            if recorded(meta, id).contains_key(k) {
                recorded(meta, id)[k]
            } else {
                Entry { tick: 0, bytes: 0 }
            },
    )
}

/// Build the accounting a locker opens with, or `None` where it has no budget.
///
/// Reconciled with what storage actually holds: a locker first written without
/// a budget has keys with no accounting, and a crash between two commits could
/// leave accounting with no key.
pub fn open_lru<B: Backend>(inner: &Inner, backend: &B, index: &ByteMap<()>) -> (r: Result<Option<LruState>>)
    ensures
        backend.answers() ==> r is Ok,
        r matches Ok(lru) ==> match inner.config.policy {
            Policy::Evictable { max_bytes } => {
                &&& lru is Some
                &&& lru->0.limit() == max_bytes
                &&& lru->0.books() == opening_books(backend.store().meta, inner.id, index@.dom())
                &&& lru->0.total_spec() == capped(
                    weight(recorded(backend.store().meta, inner.id).restrict(index@.dom())),
                )
                &&& lru->0.deferred() == Map::<Seq<u8>, u64>::empty()
                &&& !lru->0.dirty_spec()
            },
            _ => lru is None,
        },
{
    let max_bytes: u64 = match inner.config.policy {
        Policy::Evictable { max_bytes } => max_bytes,
        _ => return Ok(None),
    };
    let ghost meta = backend.store().meta;
    let ghost id = inner.id;
    let mut state = match lru::load(backend, inner.id, max_bytes) {
        Ok(state) => state,
        Err(e) => return Err(e),
    };
    state.retain_keys(index);
    let ghost kept = state.books();
    let ghost total = state.total_spec();
    let n: usize = index.len();
    let ghost keys = index.keys();
    let mut i: usize = 0;
    assert(state.deferred() =~= Map::<Seq<u8>, u64>::empty());
    while i < n
        invariant
            n == keys.len(),
            keys == index.keys(),
            lists(keys, index@.dom()),
            i <= n,
            kept == recorded(meta, id).restrict(index@.dom()),
            state.limit() == max_bytes,
            state.total_spec() == total,
            state.deferred() == Map::<Seq<u8>, u64>::empty(),
            !state.dirty_spec(),
            forall|k: Seq<u8>| #[trigger]
                state.books().contains_key(k) <==> kept.contains_key(k) || keys.take(i as int).contains(k),
            forall|k: Seq<u8>| #[trigger]
                state.books().contains_key(k) ==> state.books()[k] == if kept.contains_key(k) {
                    kept[k]
                } else {
                    Entry { tick: 0, bytes: 0 }
                },
        decreases n - i,
    {
        proof {
            assert(keys.take(i + 1) =~= keys.take(i as int).push(keys[i as int]));
            assert forall|k: Seq<u8>| keys.take(i + 1).contains(k) <==> keys.take(i as int).contains(k) || k
                == keys[i as int] by {
                if keys.take(i as int).contains(k) {
                    let j = keys.take(i as int).index_of(k);
                    assert(keys.take(i + 1)[j] == k);
                }
                if k == keys[i as int] {
                    assert(keys.take(i + 1)[i as int] == k);
                }
            }
        }
        state.adopt(copy(index.key_at(i).as_slice()));
        i += 1;
    }
    proof {
        assert(keys.take(n as int) =~= keys);
        assert forall|k: Seq<u8>| #[trigger] index@.dom().contains(k) <==> keys.contains(k) by {}
        assert(state.books() =~= opening_books(meta, id, index@.dom()));
    }
    Ok(Some(state))
}

} // verus!
