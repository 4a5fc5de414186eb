//! Byte-budget accounting for evictable lockers.
//!
//! # What is stored
//!
//! One `meta` record per live key, written in **the same commit as the put it
//! describes**:
//!
//! ```text
//!   lru::{locker_id u32 BE}::{key bytes}  ->  [tick u64 BE][bytes u32 BE]
//! ```
//!
//! # Why a logical tick and not a clock
//!
//! The ordering an LRU needs is *relative*, so a bank-wide counter answers it
//! exactly, cheaply, and identically on every platform.
//!
//! # What `bytes` counts
//!
//! The value's own payload, not its on-disk footprint: the size of the data a
//! caller handed over.

use vstd::prelude::*;

use super::chunk::counter_of;
use super::queue::{dues, in_line, lined_up, Due, Waiting};
use crate::backend::api::{
    changes, keys_within, option_view, push_op, rows_at, rows_of, scan_keys, Backend, Change, KeyRange, Op, Rows,
    Span, Store, Table,
};
use crate::backend::memory::capped;
use crate::backend::pages::Pages;
use crate::bytes::{
    be32, be32_round_trips, be64, be64_round_trips, copy, extend, from_be32, from_be64, has_prefix, same,
    starts_with, tail_of, u32_from_be, u32_to_be, u64_from_be, u64_to_be,
};
use crate::error::{backend_with, corrupt_with, spent, Error, Result};
use crate::key::LockerId;
use crate::meta::{lru_key, lru_key_of, lru_prefix, lru_prefix_of, name_bytes, next_tick_key};
use crate::sorted::{listing, lists, the_listing_is, views, ByteMap};

verus! {

/// Length of an accounting record.
pub const RECORD_LEN: usize = 12;

/// How many deferred tick bumps ride along on one write commit.
///
/// Bounded so a read-heavy burst cannot turn the next small write into a
/// commit of thousands of records.
pub const PENDING_PER_COMMIT: usize = 64;

/// One key's accounting.
#[derive(Debug, Clone, Copy, PartialEq, Eq, Structural)]
pub struct Entry {
    pub tick: u64,
    pub bytes: u64,
}

/// The sum of two numbers, or the largest number where it does not fit.
pub open spec fn plus(a: u64, b: u64) -> u64 {
    if a + b <= u64::MAX {
        (a + b) as u64
    } else {
        u64::MAX
    }
}

/// The difference of two numbers, or zero where it would be negative.
pub open spec fn minus(a: u64, b: u64) -> u64 {
    if a >= b {
        (a - b) as u64
    } else {
        0
    }
}

/// A size that fits an accounting record.
pub open spec fn small(bytes: u64) -> u32 {
    if bytes <= u32::MAX {
        bytes as u32
    } else {
        u32::MAX
    }
}

/// The record of an entry. A size past four bytes is recorded as the largest
/// that fits, which keeps the record fixed-width.
pub open spec fn entry_bytes(e: Entry) -> Seq<u8> {
    be64(e.tick) + be32(small(e.bytes))
}

/// The entry a record spells, if it has the right length.
pub open spec fn entry_of(raw: Seq<u8>) -> Option<Entry> {
    if raw.len() == RECORD_LEN {
        Some(Entry { tick: from_be64(raw.take(8)) as u64, bytes: from_be32(raw.skip(8)) as u64 })
    } else {
        None
    }
}

/// An entry reads back as it was written, its size clamped to four bytes.
pub proof fn an_entry_round_trips(e: Entry)
    ensures
        entry_of(entry_bytes(e)) == Some(Entry { tick: e.tick, bytes: small(e.bytes) as u64 }),
{
    be64_round_trips(e.tick);
    be32_round_trips(small(e.bytes));
    assert(entry_bytes(e).take(8) =~= be64(e.tick));
    assert(entry_bytes(e).skip(8) =~= be32(small(e.bytes)));
}

/// The record of an entry.
pub fn encode_entry(entry: Entry) -> (out: Vec<u8>)
    ensures
        out@ == entry_bytes(entry),
{
    let bytes: u32 = if entry.bytes <= u32::MAX as u64 {
        entry.bytes as u32
    } else {
        u32::MAX
    };
    let mut out = u64_to_be(entry.tick);
    extend(&mut out, u32_to_be(bytes).as_slice());
    out
}

/// Read an entry back.
pub fn parse_entry(raw: &[u8]) -> (r: Option<Entry>)
    ensures
        r == entry_of(raw@),
{
    if raw.len() != RECORD_LEN {
        return None;
    }
    assert(raw@.subrange(0, 8) =~= raw@.take(8));
    assert(raw@.subrange(8, 12) =~= raw@.skip(8));
    let tick: u64 = u64_from_be(vstd::slice::slice_subrange(raw, 0, 8));
    let bytes: u32 = u32_from_be(vstd::slice::slice_subrange(raw, 8, 12));
    Some(Entry { tick, bytes: bytes as u64 })
}

/// What recording a key's accounting does.
pub open spec fn entry_put(id: LockerId, key: Seq<u8>, e: Entry) -> Change {
    Change::Put { table: Table::Meta, key: lru_key(id, key), value: entry_bytes(e) }
}

/// What forgetting a key's accounting does.
pub open spec fn entry_delete(id: LockerId, key: Seq<u8>) -> Change {
    Change::Delete { table: Table::Meta, key: lru_key(id, key) }
}

/// What forgetting a locker's accounting does.
pub open spec fn entries_clear(id: LockerId) -> Change {
    Change::DeleteRange { table: Table::Meta, range: Span::prefix(lru_prefix(id)) }
}

/// The op that records `key`'s accounting.
pub fn put_op(id: LockerId, key: &[u8], entry: Entry) -> (op: Op)
    ensures
        op@ == entry_put(id, key@, entry),
{
    Op::Put { table: Table::Meta, key: lru_key_of(id, key), value: encode_entry(entry) }
}

/// The op that forgets one key's accounting.
pub fn delete_op(id: LockerId, key: &[u8]) -> (op: Op)
    ensures
        op@ == entry_delete(id, key@),
{
    Op::Delete { table: Table::Meta, key: lru_key_of(id, key) }
}

/// The op that forgets a whole locker's accounting.
pub fn clear_op(id: LockerId) -> (op: Op)
    ensures
        op@ == entries_clear(id),
{
    Op::DeleteRange { table: Table::Meta, range: KeyRange::prefix(lru_prefix_of(id).as_slice()) }
}

/// What moving the tick counter to `next` does.
pub open spec fn tick_put(next: u64) -> Change {
    Change::Put { table: Table::Meta, key: next_tick_key(), value: be64(next) }
}

/// The bank-wide logical clock the LRU orders by.
///
/// One cursor per bank, used by every locker it opened, so two lockers cannot
/// hand out the same tick.
#[derive(Debug)]
pub struct Ticks {
    next: Option<u64>,
}

impl Ticks {
    /// The next tick to hand out, once seeded.
    pub closed spec fn cursor(self) -> Option<u64> {
        self.next
    }

    /// The tick an allocation is about to hand out, where the store holds
    /// `store`.
    pub open spec fn upcoming(self, store: Store) -> Option<u64> {
        match self.cursor() {
            Some(tick) => Some(tick),
            None => counter_of(store.lookup(Table::Meta, next_tick_key())),
        }
    }

    /// An unseeded clock.
    pub fn new() -> (t: Self)
        ensures
            t.cursor() is None,
    {
        Ticks { next: None }
    }

    /// Take the next tick if the cursor is already seeded.
    pub fn take(&mut self) -> (r: Result<Option<u64>>)
        ensures
            match old(self).cursor() {
                None => r == Ok::<Option<u64>, Error>(None) && *final(self) == *old(self),
                Some(tick) => if tick < u64::MAX {
                    r == Ok::<Option<u64>, Error>(Some(tick)) && final(self).cursor() == Some((tick + 1) as u64)
                } else {
                    (r matches Err(e) && backend_with(e, "tick space is exhausted"@)) && *final(self) == *old(self)
                },
            },
    {
        match self.next {
            None => Ok(None),
            Some(tick) => {
                let next: u64 = match advance(tick) {
                    Ok(next) => next,
                    Err(e) => return Err(e),
                };
                self.next = Some(next);
                Ok(Some(tick))
            },
        }
    }

    /// Seed from the stored counter and take one. A clock only ever moves
    /// forward, so a stored counter behind it is ignored.
    pub fn seed_and_take(&mut self, stored: u64) -> (r: Result<u64>)
        ensures
            ({
                let tick = match old(self).cursor() {
                    Some(current) => if current < stored {
                        stored
                    } else {
                        current
                    },
                    None => stored,
                };
                if tick < u64::MAX {
                    r == Ok::<u64, Error>(tick) && final(self).cursor() == Some((tick + 1) as u64)
                } else {
                    (r matches Err(e) && backend_with(e, "tick space is exhausted"@)) && *final(self) == *old(self)
                }
            }),
    {
        let tick: u64 = match self.next {
            Some(current) => if current < stored {
                stored
            } else {
                current
            },
            None => stored,
        };
        let next: u64 = match advance(tick) {
            Ok(next) => next,
            Err(e) => return Err(e),
        };
        self.next = Some(next);
        Ok(tick)
    }

    /// Allocate the next tick.
    ///
    /// Every commit carrying a tick allocated here must also carry
    /// [`Ticks::counter_op`], or a reopen would hand out ticks already recorded
    /// against keys.
    pub fn allocate<B: Backend>(&mut self, backend: &B) -> (r: Result<u64>)
        ensures
            match r {
                Ok(tick) => {
                    &&& old(self).upcoming(backend.store()) == Some(tick)
                    &&& tick < u64::MAX
                    &&& final(self).cursor() == Some((tick + 1) as u64)
                },
                Err(_) => *final(self) == *old(self),
            },
            backend.answers() && (old(self).upcoming(backend.store()) matches Some(tick) && tick < u64::MAX) ==> r is Ok,
            backend.shut() ==> (r matches Err(e) ==> e is Closed || spent(e)),
            backend.answers() ==> (r matches Err(e) ==> match old(self).upcoming(backend.store()) {
                None => corrupt_with(e, "next_tick is not an 8-byte integer"@),
                Some(_) => backend_with(e, "tick space is exhausted"@),
            }),
    {
        match self.take() {
            Ok(Some(tick)) => return Ok(tick),
            Ok(None) => {},
            Err(e) => return Err(e),
        }
        let raw = match backend.get(Table::Meta, name_bytes("next_tick").as_slice()) {
            Ok(raw) => raw,
            Err(e) => return Err(e),
        };
        let stored: u64 = match &raw {
            None => 0,
            Some(bytes) => {
                if bytes.len() == 8 {
                    u64_from_be(bytes.as_slice())
                } else {
                    return Err(Error::corrupt("next_tick is not an 8-byte integer"));
                }
            },
        };
        self.seed_and_take(stored)
    }

    /// Persist the current high-water mark. Belongs in every allocating commit.
    pub fn counter_op(&self) -> (op: Op)
        ensures
            op@ == tick_put(
                match self.cursor() {
                    Some(next) => next,
                    None => 0,
                },
            ),
    {
        let next: u64 = match self.next {
            Some(next) => next,
            None => 0,
        };
        Op::Put { table: Table::Meta, key: name_bytes("next_tick"), value: u64_to_be(next) }
    }
}

fn advance(tick: u64) -> (r: Result<u64>)
    ensures
        match r {
            Ok(next) => tick < u64::MAX && next == tick + 1,
            Err(e) => tick == u64::MAX && backend_with(e, "tick space is exhausted"@),
        },
{
    match tick.checked_add(1) {
        Some(next) => Ok(next),
        None => Err(Error::backend("tick space is exhausted")),
    }
}

/// Once the clock's op has landed, a clock opened afresh starts past every
/// tick handed out before.
pub proof fn a_reopened_clock_starts_past(store: Store, next: u64)
    ensures
        counter_of(store.after(tick_put(next)).lookup(Table::Meta, next_tick_key())) == Some(next),
{
    be64_round_trips(next);
}

/// The accounting of a locker: what each key weighs and when it was last used.
pub type Books = Map<Seq<u8>, Entry>;

/// What everything in the books weighs.
pub open spec fn weight(books: Books) -> nat
    decreases books.dom().len(),
    when books.dom().finite()
{
    if books.dom().len() == 0 {
        0
    } else {
        let k = books.dom().choose();
        books[k].bytes as nat + weight(books.remove(k))
    }
}

/// Any one key can be weighed apart from the rest.
pub proof fn weight_without(books: Books, k: Seq<u8>)
    requires
        books.dom().finite(),
        books.contains_key(k),
    ensures
        weight(books) == books[k].bytes + weight(books.remove(k)),
    decreases books.dom().len(),
{
    assert(books.dom().contains(k));
    let c = books.dom().choose();
    assert(books.dom().contains(c));
    if c != k {
        let rest = books.remove(c);
        assert(rest.dom() =~= books.dom().remove(c));
        weight_without(rest, k);
        let less = books.remove(k);
        assert(less.dom() =~= books.dom().remove(k));
        weight_without(less, c);
        assert(rest.remove(k) =~= less.remove(c));
    }
}

/// What the books weigh with one entry put in.
pub proof fn weight_with(books: Books, k: Seq<u8>, e: Entry)
    requires
        books.dom().finite(),
    ensures
        weight(books.insert(k, e)) == weight(books.remove(k)) + e.bytes,
{
    let more = books.insert(k, e);
    assert(more.dom() =~= books.dom().insert(k));
    weight_without(more, k);
    assert(more.remove(k) =~= books.remove(k));
}

/// What a list of keys weighs.
pub open spec fn weight_of(keys: Seq<Seq<u8>>, books: Books) -> nat
    decreases keys.len(),
{
    if keys.len() == 0 {
        0
    } else {
        weight_of(keys.drop_last(), books) + books[keys.last()].bytes as nat
    }
}

/// Weighing a list of all keys weighs the books.
pub proof fn weighing_a_list(keys: Seq<Seq<u8>>, books: Books)
    requires
        lists(keys, books.dom()),
    ensures
        weight_of(keys, books) == weight(books),
    decreases keys.len(),
{
    the_listing_is(keys, books.dom());
    if keys.len() > 0 {
        let k = keys.last();
        let rest = keys.drop_last();
        let fewer = books.remove(k);
        assert(keys.contains(k));
        assert(books.dom().contains(k));
        weight_without(books, k);
        assert forall|x: Seq<u8>| #[trigger] fewer.dom().contains(x) <==> rest.contains(x) by {
            crate::sorted::ascending_has_no_duplicates(keys);
            if fewer.dom().contains(x) {
                assert(books.dom().contains(x));
                let i = keys.index_of(x);
                assert(rest[i] == x);
            }
            if rest.contains(x) {
                let i = rest.index_of(x);
                assert(keys[i] == x);
                assert(keys.contains(x));
                assert(books.dom().contains(x));
            }
        }
        assert(crate::bytes::ascending(rest)) by {
            assert forall|i: int, j: int| 0 <= i < j < rest.len() implies crate::bytes::before(#[trigger] rest[i], #[trigger] rest[j]) by {
                assert(rest[i] == keys[i] && rest[j] == keys[j]);
            }
        }
        weighing_a_list(rest, fewer);
        weight_of_a_part(rest, books, fewer);
    }
}

/// Keys weigh the same in any books that agree on them.
proof fn weight_of_a_part(keys: Seq<Seq<u8>>, a: Books, b: Books)
    requires
        forall|i: int| 0 <= i < keys.len() ==> a[#[trigger] keys[i]] == b[keys[i]],
    ensures
        weight_of(keys, a) == weight_of(keys, b),
    decreases keys.len(),
{
    if keys.len() > 0 {
        assert forall|i: int| 0 <= i < keys.drop_last().len() implies a[#[trigger] keys.drop_last()[i]]
            == b[keys.drop_last()[i]] by {
            assert(keys.drop_last()[i] == keys[i]);
        }
        weight_of_a_part(keys.drop_last(), a, b);
        assert(keys.last() == keys[keys.len() - 1]);
    }
}

/// What a commit will do to the budget, worked out before anything is written.
pub struct Plan {
    /// Keys to shed, least recently used first.
    pub victims: Vec<Vec<u8>>,
    /// The running total once the updates and the evictions have landed.
    pub total: u64,
}

impl Plan {
    /// A plan that does nothing.
    pub fn nothing() -> (p: Plan)
        ensures
            p.victims@.len() == 0,
            p.total == 0,
    {
        Plan { victims: Vec::new(), total: 0 }
    }
}

/// The keys and entries of a list of updates.
pub open spec fn update_views(updates: Seq<(Vec<u8>, Entry)>) -> Seq<(Seq<u8>, Entry)> {
    Seq::new(updates.len(), |i: int| (updates[i].0@, updates[i].1))
}

/// Whether an update names a key.
pub open spec fn updates_name(updates: Seq<(Seq<u8>, Entry)>, key: Seq<u8>) -> bool {
    exists|i: int| 0 <= i < updates.len() && (#[trigger] updates[i]).0 == key
}

/// The total once some removals are taken off.
pub open spec fn less_removals(books: Books, total: u64, removals: Seq<Seq<u8>>) -> u64
    decreases removals.len(),
{
    if removals.len() == 0 {
        total
    } else {
        let so_far = less_removals(books, total, removals.drop_last());
        if books.contains_key(removals.last()) {
            minus(so_far, books[removals.last()].bytes)
        } else {
            so_far
        }
    }
}

/// The total once some updates replace what they name.
pub open spec fn plus_updates(books: Books, total: u64, updates: Seq<(Seq<u8>, Entry)>) -> u64
    decreases updates.len(),
{
    if updates.len() == 0 {
        total
    } else {
        let so_far = plus_updates(books, total, updates.drop_last());
        let (key, entry) = updates.last();
        let freed = if books.contains_key(key) {
            minus(so_far, books[key].bytes)
        } else {
            so_far
        };
        plus(freed, entry.bytes)
    }
}

/// The total a commit leaves before anything is shed.
pub open spec fn settled(
    books: Books,
    total: u64,
    updates: Seq<(Seq<u8>, Entry)>,
    removals: Seq<Seq<u8>>,
    cleared: bool,
) -> u64 {
    if cleared {
        plus_updates(Map::empty(), 0, updates)
    } else {
        plus_updates(books, less_removals(books, total, removals), updates)
    }
}

/// Of `keys`, those the commit does not touch, as they may be shed.
pub open spec fn untouched(
    books: Books,
    keys: Seq<Seq<u8>>,
    updates: Seq<(Seq<u8>, Entry)>,
    removals: Seq<Seq<u8>>,
    keep: Seq<Seq<u8>>,
) -> Seq<Due>
    decreases keys.len(),
{
    if keys.len() == 0 {
        Seq::empty()
    } else {
        let so_far = untouched(books, keys.drop_last(), updates, removals, keep);
        let k = keys.last();
        if removals.contains(k) || updates_name(updates, k) || keep.contains(k) {
            so_far
        } else {
            so_far.push((books[k].tick, k, books[k].bytes))
        }
    }
}

/// Of the updates, those that need not be kept, as they may be shed.
pub open spec fn unkept(updates: Seq<(Seq<u8>, Entry)>, keep: Seq<Seq<u8>>) -> Seq<Due>
    decreases updates.len(),
{
    if updates.len() == 0 {
        Seq::empty()
    } else {
        let so_far = unkept(updates.drop_last(), keep);
        let (k, e) = updates.last();
        if keep.contains(k) {
            so_far
        } else {
            so_far.push((e.tick, k, e.bytes))
        }
    }
}

/// Everything that may be shed to make room for a commit.
pub open spec fn sheddable(
    books: Books,
    updates: Seq<(Seq<u8>, Entry)>,
    removals: Seq<Seq<u8>>,
    cleared: bool,
    keep: Seq<Seq<u8>>,
) -> Seq<Due> {
    let old = if cleared {
        Seq::empty()
    } else {
        untouched(books, listing(books.dom()), updates, removals, keep)
    };
    old + unkept(updates, keep)
}

/// The total once the first `n` of a line are shed.
pub open spec fn shed(total: u64, line: Seq<Due>, n: int) -> u64
    decreases n,
{
    if n <= 0 {
        total
    } else {
        minus(shed(total, line, n - 1), line[n - 1].2)
    }
}

/// `plan` sheds the front of `line`, no further than it takes to come down to
/// `budget`.
pub open spec fn sheds_the_front(line: Seq<Due>, total: u64, budget: u64, plan: Plan) -> bool {
    let n = plan.victims@.len() as int;
    &&& n <= line.len()
    &&& forall|i: int| 0 <= i < n ==> (#[trigger] plan.victims@[i])@ == line[i].1
    &&& plan.total == shed(total, line, n)
    &&& forall|m: int| 0 <= m < n ==> #[trigger] shed(total, line, m) > budget
    &&& n == line.len() || plan.total <= budget
}

/// `plan` is what a commit owes its budget: nothing is shed while the total
/// fits; otherwise the least recently used keys go first, and only as many as
/// it takes.
pub open spec fn plan_fits(
    books: Books,
    total: u64,
    updates: Seq<(Seq<u8>, Entry)>,
    removals: Seq<Seq<u8>>,
    cleared: bool,
    budget: u64,
    keep: Seq<Seq<u8>>,
    plan: Plan,
) -> bool {
    let start = settled(books, total, updates, removals, cleared);
    if start <= budget {
        plan.victims@.len() == 0 && plan.total == start
    } else {
        exists|line: Seq<Due>|
            in_line(line) && line.to_multiset() == sheddable(books, updates, removals, cleared, keep).to_multiset()
                && #[trigger] sheds_the_front(line, start, budget, plan)
    }
}

/// The books once a list of keys is struck out.
pub open spec fn struck(books: Books, keys: Seq<Seq<u8>>) -> Books {
    books.remove_keys(keys.to_set())
}

/// The books once a list of updates is written in, in order.
pub open spec fn written(books: Books, updates: Seq<(Seq<u8>, Entry)>) -> Books
    decreases updates.len(),
{
    if updates.len() == 0 {
        books
    } else {
        written(books, updates.drop_last()).insert(updates.last().0, updates.last().1)
    }
}

/// The books once a planned commit has landed.
pub open spec fn books_after(
    books: Books,
    updates: Seq<(Seq<u8>, Entry)>,
    removals: Seq<Seq<u8>>,
    cleared: bool,
    victims: Seq<Seq<u8>>,
) -> Books {
    let start = if cleared {
        Map::empty()
    } else {
        books
    };
    struck(written(struck(start, removals), updates), victims)
}

/// The deferred ticks once a planned commit has landed.
pub open spec fn pending_after(
    pending: Map<Seq<u8>, u64>,
    removals: Seq<Seq<u8>>,
    cleared: bool,
    victims: Seq<Seq<u8>>,
) -> Map<Seq<u8>, u64> {
    let start = if cleared {
        Map::empty()
    } else {
        pending
    };
    start.remove_keys(removals.to_set()).remove_keys(victims.to_set())
}

/// The accounting a store records for a locker.
pub open spec fn recorded(meta: Rows, id: LockerId) -> Books {
    Map::new(
        |k: Seq<u8>| meta.contains_key(lru_key(id, k)) && entry_of(meta[lru_key(id, k)]) is Some,
        |k: Seq<u8>| entry_of(meta[lru_key(id, k)])->0,
    )
}

/// The most recent tick among some keys, or zero.
pub open spec fn latest(books: Books, keys: Seq<Seq<u8>>) -> u64
    decreases keys.len(),
{
    if keys.len() == 0 {
        0
    } else {
        let so_far = latest(books, keys.drop_last());
        if so_far < books[keys.last()].tick {
            books[keys.last()].tick
        } else {
            so_far
        }
    }
}

/// Of the deferred ticks of `keys`, those a commit may carry or drop.
pub open spec fn carried_keys(
    books: Books,
    keys: Seq<Seq<u8>>,
    skip: Seq<Seq<u8>>,
) -> Seq<Seq<u8>>
    decreases keys.len(),
{
    if keys.len() == 0 {
        Seq::empty()
    } else {
        let so_far = carried_keys(books, keys.drop_last(), skip);
        let k = keys.last();
        if skip.contains(k) || books.contains_key(k) {
            so_far.push(k)
        } else {
            so_far
        }
    }
}

/// What carrying the deferred ticks of `keys` does.
pub open spec fn carried_ticks(
    id: LockerId,
    books: Books,
    pending: Map<Seq<u8>, u64>,
    keys: Seq<Seq<u8>>,
    skip: Seq<Seq<u8>>,
) -> Seq<Change>
    decreases keys.len(),
{
    if keys.len() == 0 {
        Seq::empty()
    } else {
        let so_far = carried_ticks(id, books, pending, keys.drop_last(), skip);
        let k = keys.last();
        if !skip.contains(k) && books.contains_key(k) {
            so_far.push(entry_put(id, k, Entry { tick: pending[k], bytes: books[k].bytes }))
        } else {
            so_far
        }
    }
}

/// Whether a list names a key.
pub fn names(list: &Vec<Vec<u8>>, key: &[u8]) -> (b: bool)
    ensures
        b == views(list@).contains(key@),
{
    let mut i: usize = 0;
    while i < list.len()
        invariant
            i <= list.len(),
            forall|j: int| 0 <= j < i ==> (#[trigger] list@[j])@ != key@,
        decreases list.len() - i,
    {
        if same(list[i].as_slice(), key) {
            assert(views(list@)[i as int] == key@);
            return true;
        }
        i += 1;
    }
    assert forall|j: int| 0 <= j < views(list@).len() implies views(list@)[j] != key@ by {
        assert(list@[j]@ != key@);
    }
    false
}

/// Whether a list of updates names a key.
fn update_names(updates: &Vec<(Vec<u8>, Entry)>, key: &[u8]) -> (b: bool)
    ensures
        b == updates_name(update_views(updates@), key@),
{
    let mut i: usize = 0;
    while i < updates.len()
        invariant
            i <= updates.len(),
            forall|j: int| 0 <= j < i ==> (#[trigger] update_views(updates@)[j]).0 != key@,
        decreases updates.len() - i,
    {
        if same(updates[i].0.as_slice(), key) {
            assert(update_views(updates@)[i as int].0 == key@);
            return true;
        }
        assert(update_views(updates@)[i as int].0 != key@);
        i += 1;
    }
    false
}

/// A prefix of a list, one longer.
proof fn views_take(list: Seq<Vec<u8>>, i: int)
    requires
        0 <= i < list.len(),
    ensures
        views(list).take(i + 1).drop_last() == views(list).take(i),
        views(list).take(i + 1).last() == list[i]@,
{
    assert(views(list).take(i + 1).drop_last() =~= views(list).take(i));
}

/// One evictable locker's resident accounting.
pub struct LruState {
    max_bytes: u64,
    entries: ByteMap<Entry>,
    total: u64,
    /// Ticks bumped by reads that no commit has carried yet. Reads must not
    /// write, so these ride along with the next write — or a flush.
    pending: ByteMap<u64>,
    /// Set when another tab's news named a key whose size this tab could not
    /// work out: the accounting is then known to be incomplete.
    dirty: bool,
}

impl LruState {
    /// What each key weighs and when it was last used.
    pub closed spec fn books(self) -> Books {
        self.entries@
    }

    /// The budget.
    pub closed spec fn limit(self) -> u64 {
        self.max_bytes
    }

    /// The budget.
    pub fn max_bytes(&self) -> (n: u64)
        ensures
            n == self.limit(),
    {
        self.max_bytes
    }

    /// The running total.
    pub closed spec fn total_spec(self) -> u64 {
        self.total
    }

    /// The deferred ticks.
    pub closed spec fn deferred(self) -> Map<Seq<u8>, u64> {
        self.pending@
    }

    /// Whether the accounting is known to be incomplete.
    pub closed spec fn dirty_spec(self) -> bool {
        self.dirty
    }

    /// The total is exactly what the books weigh.
    pub open spec fn exact(self) -> bool {
        self.books().dom().finite() && self.total_spec() == weight(self.books())
    }

    /// Empty accounting with a budget.
    pub fn new(max_bytes: u64) -> (s: Self)
        ensures
            s.limit() == max_bytes,
            s.books() == Map::<Seq<u8>, Entry>::empty(),
            s.total_spec() == 0,
            s.deferred() == Map::<Seq<u8>, u64>::empty(),
            !s.dirty_spec(),
            s.books().dom().finite(),
    {
        LruState { max_bytes, entries: ByteMap::new(), total: 0, pending: ByteMap::new(), dirty: false }
    }

    /// The running total.
    pub fn total(&self) -> (n: u64)
        ensures
            n == self.total_spec(),
    {
        self.total
    }

    /// Whether the accounting is known to be incomplete and wants a reload.
    pub fn is_dirty(&self) -> (b: bool)
        ensures
            b == self.dirty_spec(),
    {
        self.dirty
    }

    /// Say that a remote change could not be accounted for.
    pub fn mark_dirty(&mut self)
        ensures
            final(self).dirty_spec(),
            final(self).limit() == old(self).limit(),
            final(self).books() == old(self).books(),
            final(self).total_spec() == old(self).total_spec(),
            final(self).deferred() == old(self).deferred(),
    {
        self.dirty = true;
    }

    /// Put one key in the books, as storage recorded it.
    pub fn record(&mut self, key: &[u8], entry: Entry)
        ensures
            final(self).books() == old(self).books().insert(key@, entry),
            final(self).total_spec() == plus(old(self).total_spec(), entry.bytes),
            final(self).deferred() == old(self).deferred(),
            final(self).dirty_spec() == old(self).dirty_spec(),
            final(self).limit() == old(self).limit(),
    {
        self.total = self.total.saturating_add(entry.bytes);
        self.entries.insert(copy(key), entry);
    }

    /// Replace the accounting wholesale with a freshly loaded one, keeping the
    /// deferred read-ticks of keys that are still there.
    pub fn adopt_loaded(&mut self, loaded: LruState)
        ensures
            final(self).limit() == old(self).limit(),
            final(self).books() == loaded.books(),
            final(self).total_spec() == loaded.total_spec(),
            final(self).deferred() == old(self).deferred().restrict(loaded.books().dom()),
            !final(self).dirty_spec(),
    {
        self.entries = loaded.entries;
        self.total = loaded.total;
        self.pending = kept(&self.pending, &self.entries);
        self.dirty = false;
    }

    /// A tick that sorts after everything this state currently holds.
    ///
    /// Used for another tab's write, which cannot be given a real bank tick
    /// here; it only has to order as more recent than what is held.
    pub fn next_local_tick(&self) -> (tick: u64)
        ensures
            tick == plus(latest(self.books(), listing(self.books().dom())), 1),
    {
        let n: usize = self.entries.len();
        let ghost keys = self.entries.keys();
        let mut most: u64 = 0;
        let mut i: usize = 0;
        while i < n
            invariant
                n == keys.len(),
                keys == self.entries.keys(),
                self.entries.values().len() == keys.len(),
                forall|k: int|
                    0 <= k < keys.len() ==> self.entries@.contains_key(#[trigger] keys[k]) && self.entries@[keys[k]]
                        == self.entries.values()[k],
                i <= n,
                most == latest(self.entries@, keys.take(i as int)),
            decreases n - i,
        {
            assert(keys.take(i + 1).drop_last() =~= keys.take(i as int));
            let tick: u64 = self.entries.value_at(i).tick;
            assert(self.entries@[keys[i as int]] == self.entries.values()[i as int]);
            if most < tick {
                most = tick;
            }
            i += 1;
        }
        assert(keys.take(n as int) =~= keys);
        most.saturating_add(1)
    }

    /// Fold another tab's put into the accounting.
    ///
    /// `bytes` is `None` when the size could not be determined, which marks
    /// the state dirty rather than inventing a number.
    pub fn remote_put(&mut self, key: &[u8], bytes: Option<u64>)
        ensures
            final(self).limit() == old(self).limit(),
            final(self).deferred() == old(self).deferred(),
            ({
                let books = old(self).books();
                let tick = plus(latest(books, listing(books.dom())), 1);
                match bytes {
                    Some(bytes) => {
                        &&& final(self).books() == books.insert(key@, Entry { tick, bytes })
                        &&& final(self).total_spec() == plus(
                            if books.contains_key(key@) {
                                minus(old(self).total_spec(), books[key@].bytes)
                            } else {
                                old(self).total_spec()
                            },
                            bytes,
                        )
                        &&& final(self).dirty_spec() == old(self).dirty_spec()
                    },
                    None => {
                        &&& final(self).books() == if books.contains_key(key@) {
                            books
                        } else {
                            books.insert(key@, Entry { tick, bytes: 0 })
                        }
                        &&& final(self).total_spec() == old(self).total_spec()
                        &&& final(self).dirty_spec()
                    },
                }
            }),
    {
        let tick: u64 = self.next_local_tick();
        match bytes {
            Some(bytes) => {
                if let Some(was) = self.entries.insert(copy(key), Entry { tick, bytes }) {
                    self.total = self.total.saturating_sub(was.bytes);
                }
                self.total = self.total.saturating_add(bytes);
            },
            None => {
                // The key exists, so it must be in the ordering; only its size
                // is unknown. Account it as zero and let the reload correct
                // the total.
                if !self.entries.contains_key(key) {
                    self.entries.insert(copy(key), Entry { tick, bytes: 0 });
                }
                self.dirty = true;
            },
        }
    }

    /// Fold another tab's delete into the accounting.
    pub fn remote_delete(&mut self, key: &[u8])
        ensures
            final(self).limit() == old(self).limit(),
            final(self).books() == old(self).books().remove(key@),
            final(self).deferred() == old(self).deferred().remove(key@),
            final(self).dirty_spec() == old(self).dirty_spec(),
            final(self).total_spec() == if old(self).books().contains_key(key@) {
                minus(old(self).total_spec(), old(self).books()[key@].bytes)
            } else {
                old(self).total_spec()
            },
    {
        if let Some(was) = self.entries.remove(key) {
            self.total = self.total.saturating_sub(was.bytes);
        }
        self.pending.remove(key);
    }

    /// Fold another tab's clear into the accounting.
    pub fn remote_clear(&mut self)
        ensures
            final(self).limit() == old(self).limit(),
            final(self).books() == Map::<Seq<u8>, Entry>::empty(),
            final(self).deferred() == Map::<Seq<u8>, u64>::empty(),
            final(self).total_spec() == 0,
            !final(self).dirty_spec(),
    {
        self.entries.clear();
        self.pending.clear();
        self.total = 0;
        self.dirty = false;
    }

    /// Note that `key` was read. In memory only: the bump rides along with the
    /// next commit.
    pub fn touch(&mut self, key: &[u8], tick: u64)
        ensures
            final(self).limit() == old(self).limit(),
            final(self).total_spec() == old(self).total_spec(),
            final(self).dirty_spec() == old(self).dirty_spec(),
            old(self).books().contains_key(key@) ==> final(self).books() == old(self).books().insert(
                key@,
                Entry { tick, bytes: old(self).books()[key@].bytes },
            ) && final(self).deferred() == old(self).deferred().insert(key@, tick),
            !old(self).books().contains_key(key@) ==> final(self).books() == old(self).books()
                && final(self).deferred() == old(self).deferred(),
            final(self).books().dom().finite(),
    {
        let bytes: u64 = match self.entries.get(key) {
            Some(entry) => entry.bytes,
            None => return ,
        };
        self.entries.insert(copy(key), Entry { tick, bytes });
        self.pending.insert(copy(key), tick);
    }

    /// The deferred tick bumps to carry on the next commit, and the ops.
    /// `skip` names keys the caller is already writing a record for in this
    /// commit; a stale deferred tick must not overwrite a fresh one.
    pub fn pending_ops(&self, id: LockerId, skip: &Vec<Vec<u8>>) -> (r: (Vec<Vec<u8>>, Vec<Op>))
        ensures
            ({
                let all = listing(self.deferred().dom());
                let some = all.take(
                    crate::backend::api::at_most(all.len() as int, PENDING_PER_COMMIT as int),
                );
                &&& views(r.0@) == carried_keys(self.books(), some, views(skip@))
                &&& changes(r.1@) == carried_ticks(id, self.books(), self.deferred(), some, views(skip@))
            }),
    {
        let n: usize = self.pending.len();
        let limit: usize = if n < PENDING_PER_COMMIT {
            n
        } else {
            PENDING_PER_COMMIT
        };
        let ghost all = self.pending.keys();
        let ghost dropped = views(skip@);
        let mut keys: Vec<Vec<u8>> = Vec::new();
        let mut ops: Vec<Op> = Vec::new();
        let mut i: usize = 0;
        assert(views(keys@) =~= Seq::<Seq<u8>>::empty());
        assert(changes(ops@) =~= Seq::<Change>::empty());
        while i < limit
            invariant
                limit <= n,
                n == all.len(),
                all == self.pending.keys(),
                dropped == views(skip@),
                self.pending.values().len() == all.len(),
                forall|k: int|
                    0 <= k < all.len() ==> self.pending@.contains_key(#[trigger] all[k]) && self.pending@[all[k]]
                        == self.pending.values()[k],
                i <= limit,
                views(keys@) == carried_keys(self.entries@, all.take(i as int), dropped),
                changes(ops@) == carried_ticks(id, self.entries@, self.pending@, all.take(i as int), dropped),
            decreases limit - i,
        {
            let ghost so_far = keys@;
            proof {
                assert(all.take(i + 1).drop_last() =~= all.take(i as int));
                assert(all.take(i + 1).last() == all[i as int]);
            }
            let key = self.pending.key_at(i);
            let tick: u64 = *self.pending.value_at(i);
            assert(self.pending@[all[i as int]] == tick);
            if names(skip, key.as_slice()) {
                keys.push(copy(key.as_slice()));
                assert(views(keys@) =~= views(so_far).push(key@));
            } else if let Some(entry) = self.entries.get(key.as_slice()) {
                keys.push(copy(key.as_slice()));
                assert(views(keys@) =~= views(so_far).push(key@));
                push_op(&mut ops, put_op(id, key.as_slice(), Entry { tick, bytes: entry.bytes }));
            }
            i += 1;
        }
        (keys, ops)
    }

    /// How many deferred ticks there are.
    pub fn pending_len(&self) -> (n: usize)
        ensures
            n == self.deferred().dom().len(),
    {
        self.pending.len()
    }

    /// Forget the deferred ticks of some keys.
    pub fn clear_pending(&mut self, keys: &Vec<Vec<u8>>)
        ensures
            final(self).limit() == old(self).limit(),
            final(self).books() == old(self).books(),
            final(self).total_spec() == old(self).total_spec(),
            final(self).dirty_spec() == old(self).dirty_spec(),
            final(self).deferred() == old(self).deferred().remove_keys(views(keys@).to_set()),
    {
        remove_all(&mut self.pending, keys);
    }

    /// Work out what a commit will cost and who has to go, without touching
    /// anything. `keep` names the keys this same commit is writing, which must
    /// never be evicted to make room for themselves. If the batch alone
    /// exceeds the budget, everything else is shed and the batch is left in
    /// place: refusing to store what was just asked for would be the wrong
    /// failure.
    pub fn plan(
        &self,
        updates: &Vec<(Vec<u8>, Entry)>,
        removals: &Vec<Vec<u8>>,
        cleared: bool,
        budget: u64,
        keep: &Vec<Vec<u8>>,
    ) -> (plan: Plan)
        ensures
            plan_fits(
                self.books(),
                self.total_spec(),
                update_views(updates@),
                views(removals@),
                cleared,
                budget,
                views(keep@),
                plan,
            ),
    {
        let total: u64 = self.settled_total(updates, removals, cleared);
        if total <= budget {
            return Plan { victims: Vec::new(), total };
        }
        // Only now is it worth materialising a candidate list. Eviction is the
        // rare path; a put that stays inside the budget must not pay for it.
        let line = lined_up(self.candidates(updates, removals, cleared, keep));
        let ghost start = total;
        let ghost due = dues(line@);
        let mut total: u64 = total;
        let mut victims: Vec<Vec<u8>> = Vec::new();
        let mut i: usize = 0;
        while i < line.len() && total > budget
            invariant
                i <= line.len(),
                due == dues(line@),
                victims@.len() == i,
                forall|k: int| 0 <= k < i ==> (#[trigger] victims@[k])@ == due[k].1,
                total == shed(start, due, i as int),
                forall|m: int| 0 <= m < i ==> #[trigger] shed(start, due, m) > budget,
            decreases line.len() - i,
        {
            assert(due[i as int] == line@[i as int]@);
            assert(shed(start, due, i + 1) == minus(total, due[i as int].2));
            victims.push(copy(line[i].key.as_slice()));
            total = total.saturating_sub(line[i].bytes);
            i += 1;
        }
        let plan = Plan { victims, total };
        assert(sheds_the_front(due, start, budget, plan));
        plan
    }

    /// The total a commit leaves before anything is shed.
    fn settled_total(&self, updates: &Vec<(Vec<u8>, Entry)>, removals: &Vec<Vec<u8>>, cleared: bool) -> (total: u64)
        ensures
            total == settled(self.books(), self.total_spec(), update_views(updates@), views(removals@), cleared),
    {
        let ghost gone = views(removals@);
        let ghost news = update_views(updates@);
        let ghost books = if cleared {
            Map::<Seq<u8>, Entry>::empty()
        } else {
            self.entries@
        };
        let mut total: u64 = if cleared {
            0
        } else {
            self.total
        };
        if !cleared {
            let mut i: usize = 0;
            while i < removals.len()
                invariant
                    i <= removals.len(),
                    gone == views(removals@),
                    total == less_removals(self.entries@, self.total, gone.take(i as int)),
                decreases removals.len() - i,
            {
                proof {
                    views_take(removals@, i as int);
                }
                if let Some(entry) = self.entries.get(removals[i].as_slice()) {
                    total = total.saturating_sub(entry.bytes);
                }
                i += 1;
            }
            assert(gone.take(removals@.len() as int) =~= gone);
        }
        let ghost base = total;
        let mut i: usize = 0;
        while i < updates.len()
            invariant
                i <= updates.len(),
                news == update_views(updates@),
                books == if cleared {
                    Map::<Seq<u8>, Entry>::empty()
                } else {
                    self.entries@
                },
                total == plus_updates(books, base, news.take(i as int)),
            decreases updates.len() - i,
        {
            proof {
                assert(news.take(i + 1).drop_last() =~= news.take(i as int));
                assert(news.take(i + 1).last() == (updates@[i as int].0@, updates@[i as int].1));
            }
            if !cleared {
                if let Some(was) = self.entries.get(updates[i].0.as_slice()) {
                    total = total.saturating_sub(was.bytes);
                }
            }
            total = total.saturating_add(updates[i].1.bytes);
            i += 1;
        }
        assert(news.take(updates@.len() as int) =~= news);
        total
    }

    /// Everything that may be shed.
    fn candidates(
        &self,
        updates: &Vec<(Vec<u8>, Entry)>,
        removals: &Vec<Vec<u8>>,
        cleared: bool,
        keep: &Vec<Vec<u8>>,
    ) -> (list: Vec<Waiting>)
        ensures
            dues(list@) == sheddable(
                self.books(),
                update_views(updates@),
                views(removals@),
                cleared,
                views(keep@),
            ),
    {
        let ghost gone = views(removals@);
        let ghost news = update_views(updates@);
        let ghost kept = views(keep@);
        let mut list: Vec<Waiting> = Vec::new();
        let n: usize = self.entries.len();
        let ghost keys = self.entries.keys();
        assert(dues(list@) =~= Seq::<Due>::empty());
        if !cleared {
            let mut i: usize = 0;
            while i < n
                invariant
                    n == keys.len(),
                    keys == self.entries.keys(),
                    self.entries.values().len() == keys.len(),
                    forall|k: int|
                        0 <= k < keys.len() ==> self.entries@.contains_key(#[trigger] keys[k])
                            && self.entries@[keys[k]] == self.entries.values()[k],
                    gone == views(removals@),
                    news == update_views(updates@),
                    kept == views(keep@),
                    i <= n,
                    dues(list@) == untouched(self.entries@, keys.take(i as int), news, gone, kept),
                decreases n - i,
            {
                let ghost so_far = list@;
                proof {
                    assert(keys.take(i + 1).drop_last() =~= keys.take(i as int));
                    assert(keys.take(i + 1).last() == keys[i as int]);
                }
                let key = self.entries.key_at(i);
                let entry: Entry = *self.entries.value_at(i);
                assert(self.entries@[keys[i as int]] == entry);
                if !(names(removals, key.as_slice()) || update_names(updates, key.as_slice()) || names(
                    keep,
                    key.as_slice(),
                )) {
                    let w = Waiting { tick: entry.tick, key: copy(key.as_slice()), bytes: entry.bytes };
                    list.push(w);
                    assert(dues(list@) =~= dues(so_far).push(w@));
                }
                i += 1;
            }
            assert(keys.take(n as int) =~= keys);
        }
        let ghost first = dues(list@);
        let mut i: usize = 0;
        assert(dues(list@) =~= first + unkept(news.take(0), kept));
        while i < updates.len()
            invariant
                i <= updates.len(),
                news == update_views(updates@),
                kept == views(keep@),
                dues(list@) == first + unkept(news.take(i as int), kept),
            decreases updates.len() - i,
        {
            let ghost so_far = list@;
            proof {
                assert(news.take(i + 1).drop_last() =~= news.take(i as int));
                assert(news.take(i + 1).last() == (updates@[i as int].0@, updates@[i as int].1));
            }
            let entry: Entry = updates[i].1;
            if !names(keep, updates[i].0.as_slice()) {
                let w = Waiting { tick: entry.tick, key: copy(updates[i].0.as_slice()), bytes: entry.bytes };
                list.push(w);
                assert(dues(list@) =~= dues(so_far).push(w@));
                assert(dues(list@) =~= first + unkept(news.take(i + 1), kept));
            }
            i += 1;
        }
        assert(news.take(updates@.len() as int) =~= news);
        list
    }

    /// Apply what [`LruState::plan`] described, once the commit has landed.
    pub fn apply(
        &mut self,
        updates: &Vec<(Vec<u8>, Entry)>,
        removals: &Vec<Vec<u8>>,
        cleared: bool,
        plan: &Plan,
    )
        ensures
            final(self).limit() == old(self).limit(),
            final(self).dirty_spec() == old(self).dirty_spec(),
            final(self).total_spec() == plan.total,
            final(self).books() == books_after(
                old(self).books(),
                update_views(updates@),
                views(removals@),
                cleared,
                views(plan.victims@),
            ),
            final(self).deferred() == pending_after(
                old(self).deferred(),
                views(removals@),
                cleared,
                views(plan.victims@),
            ),
            final(self).books().dom().finite(),
    {
        if cleared {
            self.entries.clear();
            self.pending.clear();
        }
        remove_all(&mut self.entries, removals);
        remove_all(&mut self.pending, removals);
        let ghost start = self.entries@;
        let ghost news = update_views(updates@);
        let ghost waiting = self.pending@;
        let mut i: usize = 0;
        while i < updates.len()
            invariant
                i <= updates.len(),
                news == update_views(updates@),
                self.entries@ == written(start, news.take(i as int)),
                self.pending@ == waiting,
                self.max_bytes == old(self).max_bytes,
                self.dirty == old(self).dirty,
            decreases updates.len() - i,
        {
            proof {
                assert(news.take(i + 1).drop_last() =~= news.take(i as int));
                assert(news.take(i + 1).last() == (updates@[i as int].0@, updates@[i as int].1));
            }
            self.entries.insert(copy(updates[i].0.as_slice()), updates[i].1);
            i += 1;
        }
        assert(news.take(updates@.len() as int) =~= news);
        remove_all(&mut self.entries, &plan.victims);
        remove_all(&mut self.pending, &plan.victims);
        self.total = plan.total;
        let _held: usize = self.entries.len();
    }

    /// Seed one key that storage holds but the accounting records nothing for.
    ///
    /// Size unknown, so it is accounted as zero and ordered first: it is shed
    /// before anything whose cost is known.
    pub fn adopt(&mut self, key: Vec<u8>)
        ensures
            final(self).limit() == old(self).limit(),
            final(self).total_spec() == old(self).total_spec(),
            final(self).deferred() == old(self).deferred(),
            final(self).dirty_spec() == old(self).dirty_spec(),
            final(self).books() == if old(self).books().contains_key(key@) {
                old(self).books()
            } else {
                old(self).books().insert(key@, Entry { tick: 0, bytes: 0 })
            },
    {
        if !self.entries.contains_key(key.as_slice()) {
            self.entries.insert(key, Entry { tick: 0, bytes: 0 });
        }
    }

    /// Forget every key that is not live, and weigh what is left afresh.
    pub fn retain_keys(&mut self, live: &ByteMap<()>)
        ensures
            final(self).limit() == old(self).limit(),
            final(self).dirty_spec() == old(self).dirty_spec(),
            final(self).books() == old(self).books().restrict(live@.dom()),
            final(self).deferred() == old(self).deferred().restrict(live@.dom()),
            final(self).total_spec() == capped(weight(final(self).books())),
    {
        self.entries = kept(&self.entries, live);
        self.pending = kept(&self.pending, live);
        let n: usize = self.entries.len();
        let ghost keys = self.entries.keys();
        let mut total: u64 = 0;
        let mut i: usize = 0;
        while i < n
            invariant
                n == keys.len(),
                keys == self.entries.keys(),
                self.entries.values().len() == keys.len(),
                forall|k: int|
                    0 <= k < keys.len() ==> self.entries@.contains_key(#[trigger] keys[k]) && self.entries@[keys[k]]
                        == self.entries.values()[k],
                i <= n,
                total == capped(weight_of(keys.take(i as int), self.entries@)),
            decreases n - i,
        {
            assert(keys.take(i + 1).drop_last() =~= keys.take(i as int));
            assert(self.entries@[keys[i as int]] == self.entries.values()[i as int]);
            total = total.saturating_add(self.entries.value_at(i).bytes);
            i += 1;
        }
        proof {
            assert(keys.take(n as int) =~= keys);
            weighing_a_list(keys, self.entries@);
        }
        self.total = total;
    }
}

/// The part of a map whose keys another map has.
fn kept<V: Copy, W>(all: &ByteMap<V>, live: &ByteMap<W>) -> (out: ByteMap<V>)
    ensures
        out@ == all@.restrict(live@.dom()),
{
    let n: usize = all.len();
    let ghost keys = all.keys();
    let mut out: ByteMap<V> = ByteMap::new();
    let mut i: usize = 0;
    while i < n
        invariant
            n == keys.len(),
            keys == all.keys(),
            all.values().len() == keys.len(),
            forall|k: int|
                0 <= k < keys.len() ==> all@.contains_key(#[trigger] keys[k]) && all@[keys[k]] == all.values()[k],
            i <= n,
            forall|x: Seq<u8>| #[trigger]
                out@.contains_key(x) <==> keys.take(i as int).contains(x) && live@.contains_key(x),
            forall|x: Seq<u8>| #[trigger] out@.contains_key(x) ==> out@[x] == all@[x],
        decreases n - i,
    {
        let key = all.key_at(i);
        proof {
            assert(keys.take(i + 1) =~= keys.take(i as int).push(keys[i as int]));
            assert forall|x: Seq<u8>| keys.take(i + 1).contains(x) <==> keys.take(i as int).contains(x) || x
                == keys[i as int] by {
                if keys.take(i as int).contains(x) {
                    let j = keys.take(i as int).index_of(x);
                    assert(keys.take(i + 1)[j] == x);
                }
                assert(keys.take(i + 1)[i as int] == keys[i as int]);
            }
            assert(all@[keys[i as int]] == all.values()[i as int]);
        }
        if live.contains_key(key.as_slice()) {
            out.insert(copy(key.as_slice()), *all.value_at(i));
        }
        i += 1;
    }
    assert(keys.take(n as int) =~= keys);
    assert(out@ =~= all@.restrict(live@.dom()));
    out
}

/// Remove every one of a list of keys.
pub fn remove_all<V>(map: &mut ByteMap<V>, keys: &Vec<Vec<u8>>)
    ensures
        final(map)@ == old(map)@.remove_keys(views(keys@).to_set()),
{
    let ghost all = views(keys@);
    let mut i: usize = 0;
    assert(map@ =~= old(map)@.remove_keys(all.take(0).to_set()));
    while i < keys.len()
        invariant
            i <= keys.len(),
            all == views(keys@),
            map@ == old(map)@.remove_keys(all.take(i as int).to_set()),
        decreases keys.len() - i,
    {
        map.remove(keys[i].as_slice());
        proof {
            assert(all.take(i + 1) =~= all.take(i as int).push(all[i as int]));
            assert forall|x: Seq<u8>| all.take(i + 1).contains(x) <==> all.take(i as int).contains(x) || x
                == all[i as int] by {
                if all.take(i as int).contains(x) {
                    let j = all.take(i as int).index_of(x);
                    assert(all.take(i + 1)[j] == x);
                }
                assert(all.take(i + 1)[i as int] == all[i as int]);
            }
            assert(map@ =~= old(map)@.remove_keys(all.take(i + 1).to_set()));
        }
        i += 1;
    }
    assert(all.take(keys@.len() as int) =~= all);
}

/// Read one locker's accounting back.
///
/// One prefix scan of `meta`, page by page. A record that does not parse is
/// treated as absent rather than fatal: losing one key's read-ordering is not
/// worth refusing to open a locker whose data is perfectly intact.
pub fn load<B: Backend>(backend: &B, id: LockerId, max_bytes: u64) -> (r: Result<LruState>)
    ensures
        backend.answers() ==> r is Ok,
        backend.shut() ==> (r matches Err(e) && e is Closed),
        r matches Ok(s) ==> {
            &&& s.limit() == max_bytes
            &&& s.books() == recorded(backend.store().meta, id)
            &&& s.books().dom().finite()
            &&& s.total_spec() == capped(weight(s.books()))
            &&& s.deferred() == Map::<Seq<u8>, u64>::empty()
            &&& !s.dirty_spec()
        },
{
    let ghost meta = backend.store().meta;
    let prefix = lru_prefix_of(id);
    let ghost all = scan_keys(meta, Span::prefix(prefix@), false);
    let mut state = LruState::new(max_bytes);
    let mut pages = Pages::new(Table::Meta, KeyRange::prefix(prefix.as_slice()), false, true);
    let ghost mut read: int = 0;
    let _size: usize = backend.scan_page_size();
    proof {
        the_range_is_listed(meta, Span::prefix(prefix@));
        assert(all.skip(0) =~= all);
    }
    while !pages.is_done()
        invariant
            meta == backend.store().meta,
            prefix@ == lru_prefix(id),
            all == scan_keys(meta, Span::prefix(prefix@), false),
            lists(all, keys_within(meta, Span::prefix(prefix@))),
            backend.shut() ==> !pages.finished(),
            pages.table_spec() == Table::Meta,
            pages.wants_values(),
            0 <= read <= all.len(),
            pages.left(backend.store()) == all.skip(read),
            read_in(meta, id, all.take(read), state),
            state.limit() == max_bytes,
        decreases pages.fuel(backend.store()),
    {
        let ghost was = pages.left(backend.store());
        let items = match pages.next_page(backend) {
            Ok(items) => items,
            Err(e) => return Err(e),
        };
        let ghost from = read;
        let ghost rows = rows_of(items@);
        let mut j: usize = 0;
        while j < items.len()
            invariant
                meta == backend.store().meta,
                prefix@ == lru_prefix(id),
                all == scan_keys(meta, Span::prefix(prefix@), false),
                lists(all, keys_within(meta, Span::prefix(prefix@))),
                0 <= from <= all.len(),
                items@.len() <= was.len(),
                was == all.skip(from),
                rows == rows_of(items@),
                rows == rows_at(meta, was.take(items@.len() as int), true),
                j <= items@.len(),
                read == from + j,
                read_in(meta, id, all.take(read), state),
                state.limit() == max_bytes,
            decreases items.len() - j,
        {
            let ghost x = all[read];
            proof {
                assert(rows[j as int].0 == was[j as int]);
                assert(was[j as int] == x);
                assert(items@[j as int].0@ == x);
                assert(option_view(items@[j as int].1) == Some(meta[x]));
                assert(all.contains(x));
                assert(keys_within(meta, Span::prefix(prefix@)).contains(x));
                crate::backend::api::a_prefix_span_holds_what_starts_with_it(prefix@, x);
                one_more_row(meta, id, all, read, state);
            }
            let ghost before_it = state;
            if has_prefix(items[j].0.as_slice(), prefix.as_slice()) {
                let key = tail_of(items[j].0.as_slice(), prefix.len());
                assert(lru_key(id, key@) =~= x);
                if let Some(value) = &items[j].1 {
                    if let Some(entry) = parse_entry(value.as_slice()) {
                        state.record(key.as_slice(), entry);
                    }
                }
            }
            proof {
                read = read + 1;
            }
            j += 1;
        }
        assert(was.skip(items@.len() as int) =~= all.skip(read));
    }
    proof {
        assert(pages.left(backend.store()).len() == 0);
        assert(all.skip(read).len() == 0);
        assert(all.take(read) =~= all);
        assert(state.books() =~= recorded(meta, id)) by {
            assert forall|k: Seq<u8>| #[trigger] state.books().contains_key(k) <==> recorded(meta, id).contains_key(k) by {
                let x = lru_key(id, k);
                if meta.contains_key(x) {
                    assert(x.take(prefix@.len() as int) =~= prefix@);
                    crate::backend::api::a_prefix_span_holds_what_starts_with_it(prefix@, x);
                    assert(keys_within(meta, Span::prefix(prefix@)).contains(x));
                }
                if all.contains(x) {
                    assert(keys_within(meta, Span::prefix(prefix@)).contains(x));
                }
            }
        }
    }
    Ok(state)
}

/// The keys of a range of a finite table have a listing.
pub proof fn the_range_is_listed(rows: Rows, range: Span)
    requires
        rows.dom().finite(),
    ensures
        lists(listing(keys_within(rows, range)), keys_within(rows, range)),
        keys_within(rows, range).finite(),
{
    let dom = keys_within(rows, range);
    assert(dom =~= rows.dom().filter(|k: Seq<u8>| range.contains(k)));
    rows.dom().lemma_len_filter(|k: Seq<u8>| range.contains(k));
    crate::sorted::a_finite_set_is_listed(dom);
}

/// `state` holds what the rows under `keys` record, and weighs it.
spec fn read_in(meta: Rows, id: LockerId, keys: Seq<Seq<u8>>, state: LruState) -> bool {
    &&& forall|k: Seq<u8>| #[trigger]
        state.books().contains_key(k) <==> keys.contains(lru_key(id, k)) && entry_of(meta[lru_key(id, k)]) is Some
    &&& forall|k: Seq<u8>| #[trigger]
        state.books().contains_key(k) ==> state.books()[k] == entry_of(meta[lru_key(id, k)])->0
    &&& state.books().dom().finite()
    &&& state.total_spec() == capped(weight(state.books()))
    &&& state.deferred() == Map::<Seq<u8>, u64>::empty()
    &&& !state.dirty_spec()
}

/// What reading one more row changes.
proof fn one_more_row(meta: Rows, id: LockerId, all: Seq<Seq<u8>>, read: int, state: LruState)
    requires
        crate::bytes::ascending(all),
        0 <= read < all.len(),
        starts_with(all[read], lru_prefix(id)),
        read_in(meta, id, all.take(read), state),
    ensures
        ({
            let key = all[read].skip(lru_prefix(id).len() as int);
            &&& lru_key(id, key) == all[read]
            &&& !state.books().contains_key(key)
            &&& entry_of(meta[all[read]]) is None ==> read_in(meta, id, all.take(read + 1), state)
            &&& forall|next: LruState, e: Entry|
                entry_of(meta[all[read]]) == Some(e) && next.books() == #[trigger] state.books().insert(key, e)
                    && #[trigger] next.total_spec() == plus(state.total_spec(), e.bytes) && next.deferred()
                    == state.deferred() && next.dirty_spec() == state.dirty_spec() ==> read_in(
                    meta,
                    id,
                    all.take(read + 1),
                    next,
                )
        }),
{
    let x = all[read];
    let prefix = lru_prefix(id);
    let key = x.skip(prefix.len() as int);
    assert(lru_key(id, key) =~= x);
    crate::sorted::ascending_has_no_duplicates(all);
    if all.take(read).contains(x) {
        let i = all.take(read).index_of(x);
        assert(all[i] == x);
    }
    assert forall|k: Seq<u8>| all.take(read + 1).contains(lru_key(id, k)) <==> all.take(read).contains(
        lru_key(id, k),
    ) || k == key by {
        let y = lru_key(id, k);
        if all.take(read).contains(y) {
            let i = all.take(read).index_of(y);
            assert(all.take(read + 1)[i] == y);
        }
        if k == key {
            assert(all.take(read + 1)[read] == y);
        }
        if all.take(read + 1).contains(y) {
            let i = all.take(read + 1).index_of(y);
            if i < read {
                assert(all.take(read)[i] == y);
            } else {
                crate::bytes::append_is_injective(prefix, k, prefix, key);
            }
        }
    }
    assert forall|next: LruState, e: Entry|
        entry_of(meta[x]) == Some(e) && next.books() == #[trigger] state.books().insert(key, e)
            && #[trigger] next.total_spec() == plus(state.total_spec(), e.bytes) && next.deferred()
            == state.deferred() && next.dirty_spec() == state.dirty_spec() implies read_in(
        meta,
        id,
        all.take(read + 1),
        next,
    ) by {
        weight_with(state.books(), key, e);
        assert(state.books().remove(key) =~= state.books());
        assert(next.books().dom() =~= state.books().dom().insert(key));
    }
}

} // verus!
