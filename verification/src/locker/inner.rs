//! Machinery shared by the eager and lazy lockers.
//!
//! Everything here is key/value plumbing over a [`Backend`]: encode a user key
//! into locker-prefixed bytes, seal a value through the filter chain, read a
//! chunked value back, page a scan to completion.

use std::ops::Bound;
use std::sync::Arc;

use vstd::prelude::*;

use super::chunk::{
    chunk_at, chunk_key, counter_put, gc, gc_ops, is_pointer, misspelt, parsed, pieces, pointer_bytes, points, split,
    ChunkPointer, ValueIds, FLAG_POSTCARD, FLAG_RAW,
};
use super::handles::Handles;
use super::lazy_laws::{spares, table_of};
use super::lru::Ticks;
use super::policy::LockerConfig;
use crate::backend::api::{
    append_ops, changes, keys_within, option_view, push_op, scan_keys, Backend, Change, CommitOptions, Durability, Op,
    Rows, Span, Store, Table,
};
use crate::backend::pages::all_keys;
use crate::bytes::{before, copy, extend};
use crate::codec::value::{pack, packed, Value};
use crate::codec::api::what_is_refused_is_corruption;
use crate::codec::FilterChain;
use crate::coherence::{news_of, next_epoch, words, Coherence, Word};
use crate::error::{backend_with, corrupt_with, spent, Error, Result};
use crate::key::{
    a_stored_span_holds_the_same_keys, a_stored_span_stays_inside, carried, carrying_round_trips, decode_bytes,
    degenerate, encode_bytes, encode_range_bytes, is_degenerate, locker_range, stored, stored_span, storing_keeps_the_order,
    storing_round_trips, user_span, LockerId,
};
use crate::sorted::{listing, lists, the_listing_is, views, ByteMap};
use crate::text::{between, decimal};
use crate::watch::{announced, Event, Watchers};

verus! {

/// How many chunks one `get_many` asks for while reassembling a value.
pub const CHUNK_FETCH_GROUP: u32 = 64;

/// How many locally-written keys one locker remembers an epoch for.
pub const EPOCH_MEMORY: usize = 4096;

/// What reaches no record is no news.
pub proof fn bookkeeping_is_no_news(id: LockerId, list: Seq<Change>)
    requires
        spares(list, Table::Records),
    ensures
        news_of(id, list) == (false, Seq::<Word>::empty()),
    decreases list.len(),
{
    if list.len() > 0 {
        assert forall|i: int| 0 <= i < list.len() - 1 implies table_of(#[trigger] list.drop_last()[i]) != Table::Records by {
            assert(table_of(list[i]) != Table::Records);
        }
        bookkeeping_is_no_news(id, list.drop_last());
        assert(table_of(list[list.len() - 1]) != Table::Records);
    }
}

/// What every locker a bank opens shares with it.
pub struct Shared<B> {
    pub backend: B,
    /// Allocates chunk value ids.
    pub values: ValueIds,
    /// The logical clock the LRU orders by.
    pub ticks: Ticks,
    /// The cross-tab channel, or an inert stand-in.
    pub coherence: Coherence,
    /// Whether the store can have other writers than this process.
    pub tabs: bool,
    /// Who has which locker open.
    pub handles: Handles,
}

impl<B: Backend> Shared<B> {
    /// The value id about to be handed out.
    pub open spec fn next_id(&self) -> u64 {
        match self.values.upcoming(self.backend.store()) {
            Some(id) => id,
            None => 0,
        }
    }

    /// The value id about to be handed out, where the store held `store` when
    /// the ids were last looked at.
    pub open spec fn next_id_from(&self, store: Store) -> u64 {
        match self.values.upcoming(store) {
            Some(id) => id,
            None => 0,
        }
    }

    /// What using a locker leaves as it was of what its bank's lockers share:
    /// who is open, whether news is posted, and whether the store answers. The
    /// allocator of ids and the clock only ever move forward.
    pub open spec fn carries_on(self, was: Self) -> bool {
        &&& self.handles == was.handles
        &&& self.keeps_pace(was)
    }

    /// As [`Shared::carries_on`], whoever is open.
    pub open spec fn keeps_pace(self, was: Self) -> bool {
        &&& self.tabs == was.tabs
        &&& self.coherence.enabled_spec() == was.coherence.enabled_spec()
        &&& was.backend.answers() ==> self.backend.answers()
        &&& was.backend.shut() ==> self.backend.shut()
        &&& self.values == was.values || (self.values.cursor() matches Some(next) && next > was.next_id())
        &&& self.ticks == was.ticks || (self.ticks.cursor() matches Some(next) && (was.next_tick() matches Some(tick)
            && next > tick))
    }

    /// What a locker that commits with `durability` leaves to force: nothing
    /// new where its commits are durable when they return.
    pub open spec fn stays_forced(self, was: Self, durability: Durability) -> bool {
        durability is Immediate && was.backend.forced() ==> self.backend.forced()
    }

    /// The other tabs were told what became of the store, and nothing else: of
    /// one list of changes, where it landed as one commit.
    pub open spec fn told(self, was: Self, before: Inner, after: Inner) -> bool {
        ||| {
            &&& self.coherence == was.coherence
            &&& after.epochs == before.epochs
            &&& self.backend.store() == was.backend.store()
        }
        ||| exists|list: Seq<Change>, landed: bool| #[trigger]
            news_posted(
                before.id,
                before.epochs,
                was.coherence,
                list,
                landed,
                after.epochs,
                self.coherence,
            ) && self.backend.store() == if landed {
                was.backend.store().after_all(list)
            } else {
                was.backend.store()
            }
    }

    /// The other tabs were told nothing.
    pub open spec fn silent(self, was: Self, before: Inner, after: Inner) -> bool {
        &&& self.coherence.enabled_spec() == was.coherence.enabled_spec()
        &&& self.coherence.instance_spec() == was.coherence.instance_spec()
        &&& self.coherence.epoch_spec() == was.coherence.epoch_spec()
        &&& self.coherence.waiting() == was.coherence.waiting()
        &&& after.epochs == before.epochs
    }

    /// The tick about to be handed out, where one can be.
    pub open spec fn next_tick(&self) -> Option<u64> {
        self.ticks.upcoming(self.backend.store())
    }

    /// A fresh set over a backend, with no channel.
    pub fn new(backend: B) -> (s: Self)
        ensures
            s.backend == backend,
            s.values.cursor() is None,
            s.ticks.cursor() is None,
            !s.coherence.enabled_spec(),
            s.coherence.waiting().len() == 0,
            s.coherence.epoch_spec() == 0,
            !s.tabs,
            s.handles.seats().len() == 0,
            s.handles.upcoming() == 0,
            s.handles.wf(),
    {
        Shared {
            backend,
            values: ValueIds::new(),
            ticks: Ticks::new(),
            coherence: Coherence::disabled(),
            tabs: false,
            handles: Handles::new(),
        }
    }

    /// Whether a handle's index may prove a key absent: nobody else can have
    /// written the locker without this index hearing about it.
    pub open spec fn trusts(&self, inner: Inner) -> bool {
        !inner.name_shared && !self.handles.shares_spec(inner.ticket) && (self.tabs ==> self.coherence.enabled_spec())
    }

    /// [`Shared::trusts`], executable.
    pub fn trusts_index(&self, inner: &Inner) -> (b: bool)
        ensures
            b == self.trusts(*inner),
    {
        let others: bool = self.handles.shares(inner.ticket);
        inner.index_is_authoritative(others, self.tabs, self.coherence.is_enabled())
    }
}

/// What a caller already knows about whatever is stored under a key.
///
/// A wrong `Unknown` costs a read; a wrong `Absent` or `Inline` orphans chunks
/// forever. So every producer of this errs towards `Unknown`.
#[derive(Debug, Clone, Copy, PartialEq, Eq, Structural)]
pub enum Prior {
    /// Nothing is known. Read before writing.
    Unknown,
    /// There is provably no record under this key.
    Absent,
    /// There is a record and it is provably inline.
    Inline,
}

impl Prior {
    /// Whether the old record still has to be read to find chunks to drop.
    pub fn needs_read(self) -> (b: bool)
        ensures
            b == (self is Unknown),
    {
        match self {
            Prior::Unknown => true,
            _ => false,
        }
    }
}

/// Per-locker epoch bookkeeping for cross-tab coherence.
pub struct Epochs {
    /// Keys this tab has written, and the epoch it wrote them at. Past
    /// [`EPOCH_MEMORY`] keys the whole map is dropped rather than grown
    /// without limit.
    local: ByteMap<u64>,
    /// The highest epoch this tab has absorbed from any other tab.
    applied: u64,
}

/// The memory once a list of keys was committed at an epoch.
pub open spec fn noted(local: Map<Seq<u8>, u64>, keys: Seq<Seq<u8>>, epoch: u64) -> Map<Seq<u8>, u64>
    decreases keys.len(),
{
    if keys.len() == 0 {
        local
    } else {
        noted(local, keys.drop_last(), epoch).insert(keys.last(), epoch)
    }
}

/// The memory a locker keeps once a list of keys was committed at an epoch:
/// bounded, so that past a size it starts over.
pub open spec fn remembered(local: Map<Seq<u8>, u64>, keys: Seq<Seq<u8>>, epoch: u64) -> Map<Seq<u8>, u64> {
    let all = noted(local, keys, epoch);
    if all.dom().len() > EPOCH_MEMORY {
        Map::empty()
    } else {
        all
    }
}

/// The keys that some news names.
pub open spec fn named_in(said: Seq<Word>) -> Seq<Seq<u8>> {
    Seq::new(said.len(), |i: int| said[i].key)
}

/// What a commit of `out` tells the other tabs, and remembers of itself. A
/// commit that fails tells nothing, and only uses up its epoch.
pub open spec fn news_posted(
    id: LockerId,
    before: Epochs,
    was: Coherence,
    out: Seq<Change>,
    landed: bool,
    after: Epochs,
    now: Coherence,
) -> bool {
    let (cleared, said) = news_of(id, out);
    let newsworthy = was.enabled_spec() && (cleared || said.len() > 0);
    &&& now.enabled_spec() == was.enabled_spec()
    &&& now.instance_spec() == was.instance_spec()
    &&& now.epoch_spec() == if newsworthy {
        next_epoch(was.epoch_spec())
    } else {
        was.epoch_spec()
    }
    &&& after.watermark() == before.watermark()
    &&& if newsworthy && landed {
        let posted = now.waiting();
        &&& posted.len() == was.waiting().len() + 1
        &&& posted.drop_last() == was.waiting()
        &&& posted.last().instance == was.instance_spec()
        &&& posted.last().locker_id == id
        &&& posted.last().epoch == next_epoch(was.epoch_spec())
        &&& posted.last().cleared == cleared
        &&& words(posted.last().changes@) == said
        &&& after.memory() == if cleared {
            Map::<Seq<u8>, u64>::empty()
        } else {
            remembered(before.memory(), named_in(said), next_epoch(was.epoch_spec()))
        }
    } else {
        now.waiting() == was.waiting() && after == before
    }
}

impl Epochs {
    /// The keys remembered.
    pub closed spec fn memory(self) -> Map<Seq<u8>, u64> {
        self.local@
    }

    /// The highest epoch absorbed.
    pub closed spec fn watermark(self) -> u64 {
        self.applied
    }

    /// Nothing written, nothing absorbed.
    pub fn new() -> (e: Self)
        ensures
            e.memory() == Map::<Seq<u8>, u64>::empty(),
            e.watermark() == 0,
    {
        Epochs { local: ByteMap::new(), applied: 0 }
    }

    /// Record that this tab committed the keys of `news` at `epoch`.
    pub fn note_local(&mut self, news: &Vec<crate::coherence::Change>, epoch: u64)
        ensures
            final(self).watermark() == old(self).watermark(),
            final(self).memory() == remembered(old(self).memory(), named_in(words(news@)), epoch),
    {
        let ghost keys = named_in(words(news@));
        let mut i: usize = 0;
        while i < news.len()
            invariant
                i <= news.len(),
                keys == named_in(words(news@)),
                self.local@ == noted(old(self).memory(), keys.take(i as int), epoch),
                self.applied == old(self).applied,
            decreases news.len() - i,
        {
            assert(keys.take(i + 1).drop_last() =~= keys.take(i as int));
            assert(keys.take(i + 1).last() == news@[i as int].key@);
            self.local.insert(copy(news[i].key.as_slice()), epoch);
            i += 1;
        }
        assert(keys.take(news@.len() as int) =~= keys);
        if self.local.len() > EPOCH_MEMORY {
            self.local.clear();
        }
    }

    /// The epoch of this tab's own last commit touching `key`, if remembered.
    pub fn local(&self, key: &[u8]) -> (epoch: Option<u64>)
        ensures
            epoch == if self.memory().contains_key(key@) {
                Some(self.memory()[key@])
            } else {
                None
            },
    {
        match self.local.get(key) {
            Some(epoch) => Some(*epoch),
            None => None,
        }
    }

    /// The highest epoch absorbed from another tab.
    pub fn applied(&self) -> (epoch: u64)
        ensures
            epoch == self.watermark(),
    {
        self.applied
    }

    /// Raise the absorbed watermark. Never lowers it.
    pub fn note_applied(&mut self, epoch: u64)
        ensures
            final(self).memory() == old(self).memory(),
            final(self).watermark() == if old(self).watermark() < epoch {
                epoch
            } else {
                old(self).watermark()
            },
    {
        if self.applied < epoch {
            self.applied = epoch;
        }
    }

    /// Forget every local marker. Used when the locker is cleared: nothing
    /// written before outranks anything.
    pub fn forget_local(&mut self)
        ensures
            final(self).memory() == Map::<Seq<u8>, u64>::empty(),
            final(self).watermark() == old(self).watermark(),
    {
        self.local.clear();
    }
}

/// The part of a locker that does not depend on what it holds.
pub struct Inner {
    pub chain: Arc<FilterChain>,
    pub id: LockerId,
    pub name: String,
    pub config: LockerConfig,
    pub watchers: Watchers,
    /// Set when the locker is closed.
    pub closed: bool,
    /// What this tab wrote and when, and what it absorbed.
    pub epochs: Epochs,
    /// Set on a handle that is a second view onto its name by definition, and
    /// **never cleared**.
    pub name_shared: bool,
    /// This handle's place among the live handles.
    pub ticket: u64,
}

/// The records of one locker, by user key.
pub open spec fn locker_rows(records: Rows, id: LockerId) -> Rows {
    Map::new(|k: Seq<u8>| records.contains_key(stored(id, k)), |k: Seq<u8>| records[stored(id, k)])
}

/// What the first `n` chunks of a value add up to; `None` where one is missing
/// or does not open.
pub open spec fn first_chunks(chain: FilterChain, chunks: Rows, value_id: u64, n: int) -> Option<Seq<u8>>
    decreases n,
{
    if n <= 0 {
        Some(Seq::empty())
    } else {
        let key = chunk_at(value_id, (n - 1) as u32);
        match first_chunks(chain, chunks, value_id, n - 1) {
            Some(so_far) => if chunks.contains_key(key) {
                match chain.opened(chunks[key]) {
                    Some(piece) => Some(so_far + piece),
                    None => None,
                }
            } else {
                None
            },
            None => None,
        }
    }
}

/// The payload a pointer stands for: all its chunks, adding up to exactly the
/// length it declares.
pub open spec fn assembled(chain: FilterChain, chunks: Rows, p: ChunkPointer) -> Option<Seq<u8>> {
    match first_chunks(chain, chunks, p.value_id, p.n_chunks as int) {
        Some(all) => if all.len() == p.total_len {
            Some(all)
        } else {
            None
        },
        None => None,
    }
}

/// Reading the chunks of a value in order stops at chunk `i`, and `e` says why:
/// it is missing, it does not open, or the value has grown past the length
/// that was declared. Past the last chunk, the value is of another length.
pub open spec fn stops_at_chunk(chain: FilterChain, chunks: Rows, p: ChunkPointer, i: int, e: Error) -> bool {
    &&& 0 <= i <= p.n_chunks
    &&& first_chunks(chain, chunks, p.value_id, i) matches Some(so_far) && {
        let key = chunk_at(p.value_id, i as u32);
        if i == p.n_chunks {
            so_far.len() != p.total_len && corrupt_with(
                e,
                "chunked value declared "@ + decimal(p.total_len as nat) + " bytes, reassembled "@ + decimal(
                    so_far.len(),
                ),
            )
        } else if !chunks.contains_key(key) {
            corrupt_with(e, "missing chunk "@ + decimal(i as nat) + " of "@ + decimal(p.value_id as nat))
        } else {
            match chain.opened(chunks[key]) {
                None => chain.refuses(chunks[key], e),
                Some(piece) => so_far.len() + piece.len() > p.total_len && corrupt_with(
                    e,
                    "chunked value declared "@ + decimal(p.total_len as nat)
                        + " bytes and has already reassembled "@ + decimal(so_far.len() + piece.len()),
                ),
            }
        }
    }
}

/// `e` is why a record stands for no payload.
pub open spec fn unloaded(chain: FilterChain, chunks: Rows, record: Seq<u8>, e: Error) -> bool {
    if points(record) {
        match parsed(record) {
            Some(p) => exists|i: int| #[trigger] stops_at_chunk(chain, chunks, p, i, e),
            None => misspelt(record, e),
        }
    } else {
        chain.refuses(record, e)
    }
}

/// `e` is why a record does not read as a value: there is no payload, or there
/// is one that the type refuses.
pub open spec fn unread(chain: FilterChain, chunks: Rows, record: Seq<u8>, e: Error) -> bool {
    match loaded(chain, chunks, record) {
        Some(_) => e.spec_is_corruption(),
        None => unloaded(chain, chunks, record, e),
    }
}

/// A record that cannot be read is reported as corruption, wherever the
/// chain's filters call what they refuse so: a malformed pointer, a missing
/// chunk, a wrong length and a refused header all are.
pub proof fn what_is_not_read_is_corruption(chain: FilterChain, chunks: Rows, record: Seq<u8>, e: Error)
    requires
        chain.calls_it_corruption(),
        unread(chain, chunks, record, e),
    ensures
        e.spec_is_corruption(),
{
    if loaded(chain, chunks, record) is None {
        if points(record) {
            if let Some(p) = parsed(record) {
                let i = choose|i: int| #[trigger] stops_at_chunk(chain, chunks, p, i, e);
                let key = chunk_at(p.value_id, i as u32);
                if i < p.n_chunks && chunks.contains_key(key) && chain.opened(chunks[key]) is None {
                    what_is_refused_is_corruption(chain, chunks[key], e);
                }
            }
        } else {
            what_is_refused_is_corruption(chain, record, e);
        }
    }
}

/// The payload a record stands for, inline or chunked; `None` where it cannot
/// be read.
pub open spec fn loaded(chain: FilterChain, chunks: Rows, record: Seq<u8>) -> Option<Seq<u8>> {
    if points(record) {
        match parsed(record) {
            Some(p) => assembled(chain, chunks, p),
            None => None,
        }
    } else {
        chain.opened(record)
    }
}

/// The payload a value is read from: a raw stream reads as the byte vector it
/// is.
pub open spec fn readable(chain: FilterChain, chunks: Rows, record: Seq<u8>) -> Option<Seq<u8>> {
    match loaded(chain, chunks, record) {
        Some(payload) => if points(record) && parsed(record)->0.flags == FLAG_RAW {
            Some(packed(payload))
        } else {
            Some(payload)
        },
        None => None,
    }
}

/// Later chunks only add.
proof fn more_chunks_are_longer(chain: &FilterChain, chunks: Rows, value_id: u64, m: int, n: int)
    requires
        0 <= m <= n,
    ensures
        first_chunks(*chain, chunks, value_id, n) matches Some(all) ==> (first_chunks(*chain, chunks, value_id, m) matches Some(
            some,
        ) && some.len() <= all.len()),
    decreases n - m,
{
    if m < n {
        more_chunks_are_longer(chain, chunks, value_id, m, n - 1);
    }
}

/// `e` is why the chunks behind a key cannot be dropped: its record is a pointer
/// that cannot be read.
pub open spec fn gc_refused(records: Rows, id: LockerId, key: Seq<u8>, e: Error) -> bool {
    records.contains_key(stored(id, key)) && points(records[stored(id, key)]) && misspelt(records[stored(id, key)], e)
}

/// `e` is why some pieces cannot be sealed: the chain refuses one, or there are
/// more than can be numbered.
pub open spec fn unsealed(chain: FilterChain, parts: Seq<Seq<u8>>, e: Error) -> bool {
    ||| exists|i: int| 0 <= i < parts.len() && #[trigger] chain.declines(parts[i], e)
    ||| parts.len() > u32::MAX && backend_with(e, "chunk sequence space is exhausted"@)
}

/// `e` is why a payload cannot be stored under a key where the store answers:
/// the old record is a pointer that cannot be read, the chain refuses the
/// payload or a piece of it, there are too many pieces, or there is no id left
/// for them.
pub open spec fn put_refused(
    inner: Inner,
    records: Rows,
    upcoming: Option<u64>,
    key: Seq<u8>,
    payload: Seq<u8>,
    flags: u8,
    e: Error,
) -> bool {
    ||| gc_refused(records, inner.id, key, e)
    ||| if kept_inline(inner.config, payload.len(), flags) {
        inner.chain.declines(payload, e)
    } else {
        ||| upcoming is None && corrupt_with(e, "next_value_id is not an 8-byte integer"@)
        ||| upcoming == Some(u64::MAX) && backend_with(e, "value id space is exhausted"@)
        ||| unsealed(*inner.chain, pieces(payload, inner.config.chunk_size as int), e)
    }
}

/// What dropping the chunks behind a key takes; `None` where the record is a
/// pointer that cannot be read.
pub open spec fn gc_list(records: Rows, id: LockerId, key: Seq<u8>, prior: Prior) -> Option<Seq<Change>> {
    if prior is Unknown && records.contains_key(stored(id, key)) && points(records[stored(id, key)]) {
        match parsed(records[stored(id, key)]) {
            Some(p) => Some(seq![gc(p)]),
            None => None,
        }
    } else {
        Some(Seq::empty())
    }
}

/// What writing the record of a key does.
pub open spec fn record_put(id: LockerId, key: Seq<u8>, record: Seq<u8>) -> Change {
    Change::Put { table: Table::Records, key: stored(id, key), value: record }
}

/// What removing the record of a key does.
pub open spec fn record_delete(id: LockerId, key: Seq<u8>) -> Change {
    Change::Delete { table: Table::Records, key: stored(id, key) }
}

/// What removing every record of a locker does.
pub open spec fn records_clear(id: LockerId) -> Change {
    Change::DeleteRange { table: Table::Records, range: Span::prefix(crate::bytes::be32(id)) }
}

/// `list` writes the sealed `parts` as the chunks of a value, in order.
pub open spec fn chunk_puts(chain: FilterChain, value_id: u64, parts: Seq<Seq<u8>>, list: Seq<Change>) -> bool {
    &&& list.len() == parts.len()
    &&& forall|i: int|
        0 <= i < parts.len() ==> ((#[trigger] list[i]) matches Change::Put { table, key, value } && table
            == Table::Chunks && key == chunk_at(value_id, i as u32) && chain.seals(parts[i], value))
}

/// Whether a payload of this length and kind is stored in one record.
pub open spec fn kept_inline(config: LockerConfig, len: nat, flags: u8) -> bool {
    len <= config.chunk_size && flags == FLAG_POSTCARD
}

/// The pointer to a chunked payload.
pub open spec fn pointer_to(value_id: u64, payload: Seq<u8>, chunk_size: int, flags: u8) -> ChunkPointer {
    ChunkPointer {
        value_id,
        n_chunks: pieces(payload, chunk_size).len() as u32,
        total_len: payload.len() as u64,
        flags,
    }
}

/// `list` stores `payload` under a key: `dropped` first, then either one
/// sealed record, or the moved id counter, the sealed pieces and a pointer to
/// them.
#[verifier::opaque]
pub open spec fn stores(
    inner: Inner,
    key: Seq<u8>,
    payload: Seq<u8>,
    flags: u8,
    dropped: Seq<Change>,
    value_id: u64,
    list: Seq<Change>,
) -> bool {
    if kept_inline(inner.config, payload.len(), flags) {
        &&& list.len() == dropped.len() + 1
        &&& list.take(dropped.len() as int) == dropped
        &&& exists|record: Seq<u8>|
            inner.chain.seals(payload, record) && list.last() == #[trigger] record_put(inner.id, key, record)
    } else {
        let parts = pieces(payload, inner.config.chunk_size as int);
        let n = dropped.len() as int;
        &&& list.len() == n + parts.len() + 2
        &&& list.take(n) == dropped
        &&& list[n] == counter_put((value_id + 1) as u64)
        &&& chunk_puts(*inner.chain, value_id, parts, list.subrange(n + 1, n + 1 + parts.len()))
        &&& list.last() == record_put(
            inner.id,
            key,
            pointer_bytes(pointer_to(value_id, payload, inner.config.chunk_size as int, flags)),
        )
        &&& value_id < u64::MAX
        &&& parts.len() <= u32::MAX
    }
}

/// The next id once a payload is stored: a chunked value takes one.
pub open spec fn id_after(config: LockerConfig, len: nat, flags: u8, id: u64) -> u64 {
    if kept_inline(config, len, flags) {
        id
    } else {
        (id + 1) as u64
    }
}

/// What dropping the chunks of every one of `keys` takes; a pointer that
/// cannot be read is passed over.
pub open spec fn gc_all(rows: Rows, keys: Seq<Seq<u8>>) -> Seq<Change>
    decreases keys.len(),
{
    if keys.len() == 0 {
        Seq::empty()
    } else {
        let so_far = gc_all(rows, keys.drop_last());
        let record = rows[keys.last()];
        if points(record) && parsed(record) is Some {
            so_far.push(gc(parsed(record)->0))
        } else {
            so_far
        }
    }
}

/// What clearing a locker does.
pub open spec fn clears(records: Rows, id: LockerId) -> Seq<Change> {
    let rows = locker_rows(records, id);
    gc_all(rows, listing(rows.dom())).push(records_clear(id))
}

/// The keys of a range of stored keys, without their locker prefix, are the
/// keys of the range in the locker.
pub proof fn walking_reads_the_locker(records: Rows, id: LockerId, span: Span, reverse: bool)
    requires
        records.dom().finite(),
    ensures
        ({
            let raw = scan_keys(records, stored_span(id, span), reverse);
            let user = Seq::new(raw.len(), |i: int| raw[i].skip(4));
            &&& user == scan_keys(locker_rows(records, id), span, reverse)
            &&& forall|i: int| 0 <= i < raw.len() ==> carried(id, #[trigger] raw[i]) == Some(user[i]) && raw[i]
                == stored(id, user[i])
            &&& lists(
                listing(keys_within(locker_rows(records, id), span)),
                keys_within(locker_rows(records, id), span),
            )
        }),
{
    let dom = keys_within(records, stored_span(id, span));
    super::lru::the_range_is_listed(records, stored_span(id, span));
    let all = listing(dom);
    let user = Seq::new(all.len(), |i: int| all[i].skip(4));
    let rows = locker_rows(records, id);
    assert forall|i: int| 0 <= i < all.len() implies carried(id, #[trigger] all[i]) == Some(user[i]) && all[i]
        == stored(id, user[i]) by {
        assert(all.contains(all[i]));
        assert(dom.contains(all[i]));
        a_stored_span_stays_inside(id, span, all[i]);
        carrying_round_trips(id, all[i]);
    }
    assert forall|i: int, j: int| 0 <= i < j < user.len() implies before(#[trigger] user[i], #[trigger] user[j]) by {
        assert(before(all[i], all[j]));
        storing_keeps_the_order(id, user[i], id, user[j]);
    }
    assert forall|k: Seq<u8>| #[trigger] keys_within(rows, span).contains(k) <==> user.contains(k) by {
        a_stored_span_holds_the_same_keys(id, span, k);
        if keys_within(rows, span).contains(k) {
            assert(dom.contains(stored(id, k)));
            let i = all.index_of(stored(id, k));
            storing_round_trips(id, k);
            assert(carried(id, all[i]) == Some(user[i]));
            assert(user[i] == k);
        }
        if user.contains(k) {
            let i = user.index_of(k);
            assert(all[i] == stored(id, k));
            assert(all.contains(all[i]));
            assert(dom.contains(all[i]));
        }
    }
    the_listing_is(user, keys_within(rows, span));
    let raw = scan_keys(records, stored_span(id, span), reverse);
    let out = Seq::new(raw.len(), |i: int| raw[i].skip(4));
    if reverse {
        assert(out =~= user.reverse());
        assert forall|i: int| 0 <= i < raw.len() implies carried(id, #[trigger] raw[i]) == Some(out[i]) && raw[i]
            == stored(id, out[i]) by {
            assert(raw[i] == all[all.len() - 1 - i]);
        }
    } else {
        assert(out =~= user);
    }
}

impl Inner {
    /// A locker's plumbing, open and unshared.
    pub fn new(chain: Arc<FilterChain>, id: LockerId, name: String, config: LockerConfig, ticket: u64) -> (inner: Self)
        ensures
            inner.ticket == ticket,
            inner.chain == chain,
            inner.id == id,
            inner.name == name,
            inner.config == config,
            !inner.closed,
            !inner.name_shared,
            inner.watchers.history().len() == 0,
            inner.watchers.listeners().len() == 0,
            inner.watchers.departed().len() == 0,
            inner.watchers.roll() == 0,
            inner.epochs.memory() == Map::<Seq<u8>, u64>::empty(),
            inner.epochs.watermark() == 0,
    {
        Inner {
            chain,
            id,
            name,
            config,
            watchers: Watchers::new(),
            closed: false,
            epochs: Epochs::new(),
            name_shared: false,
            ticket,
        }
    }

    /// The chain takes everything a payload is cut into, and the pieces can be
    /// counted.
    pub open spec fn fits(self, payload: Seq<u8>, flags: u8) -> bool {
        if kept_inline(self.config, payload.len(), flags) {
            self.chain.takes(payload)
        } else {
            let parts = pieces(payload, self.config.chunk_size as int);
            &&& parts.len() <= u32::MAX
            &&& forall|i: int| 0 <= i < parts.len() ==> self.chain.takes(#[trigger] parts[i])
        }
    }

    /// Whether nothing but what the watchers were told and the epochs differs:
    /// nobody subscribed.
    pub open spec fn same_but_news(self, other: Inner) -> bool {
        &&& self.chain == other.chain
        &&& self.id == other.id
        &&& self.name == other.name
        &&& self.config == other.config
        &&& self.closed == other.closed
        &&& self.name_shared == other.name_shared
        &&& self.ticket == other.ticket
        &&& self.watchers.roll() == other.watchers.roll()
    }

    /// Whether `e` is what a write over a closed store is answered: that it is
    /// closed, unless the chain refuses the value, it is too large, or a
    /// counter is spent, which is found out first.
    pub open spec fn shut_out(self, e: Error) -> bool {
        ||| e is Closed
        ||| exists|payload: Seq<u8>| #[trigger] self.chain.declines(payload, e)
        ||| e is ValueTooLarge
        ||| spent(e)
    }

    /// Refuse an operation on a closed locker.
    pub fn ensure_open(&self) -> (r: Result<()>)
        ensures
            r is Ok <==> !self.closed,
            r matches Err(e) ==> e is Closed,
    {
        if self.closed {
            Err(Error::Closed)
        } else {
            Ok(())
        }
    }

    /// Whether this handle's index is allowed to prove a key *absent*: false
    /// as soon as anyone else could have written the locker without this index
    /// hearing about it. `others` says that the name ever had a second live
    /// handle; where other tabs can exist at all (`tabs`), only coherence tells
    /// of their writes.
    pub fn index_is_authoritative(&self, others: bool, tabs: bool, coherent: bool) -> (b: bool)
        ensures
            b == (!self.name_shared && !others && (tabs ==> coherent)),
    {
        if self.name_shared || others {
            return false;
        }
        !tabs || coherent
    }

    /// The op that removes the record of a key.
    pub fn delete_op(&self, key: &[u8]) -> (op: Op)
        ensures
            op@ == record_delete(self.id, key@),
    {
        Op::Delete { table: Table::Records, key: encode_bytes(self.id, key) }
    }

    /// The op that removes every record of the locker.
    pub fn clear_op(&self) -> (op: Op)
        ensures
            op@ == records_clear(self.id),
    {
        Op::DeleteRange { table: Table::Records, range: locker_range(self.id) }
    }

    /// The record of a key.
    pub fn fetch<B: Backend>(&self, backend: &B, key: &[u8]) -> (r: Result<Option<Vec<u8>>>)
        ensures
            backend.answers() ==> r is Ok,
            backend.shut() ==> (r matches Err(e) && e is Closed),
            r matches Ok(found) ==> option_view(found) == backend.store().lookup(
                Table::Records,
                stored(self.id, key@),
            ),
    {
        let encoded = encode_bytes(self.id, key);
        backend.get(Table::Records, encoded.as_slice())
    }

    /// Ask the backend to make this locker's commits durable, when it is the
    /// locker's own setting that left them otherwise.
    pub fn flush_backend<B: Backend>(&self, backend: &mut B) -> (r: Result<()>)
        ensures
            final(backend).store() == old(backend).store(),
            old(backend).answers() ==> r is Ok && final(backend).answers(),
            old(backend).shut() ==> final(backend).shut(),
            old(backend).shut() && self.config.durability is Eventual ==> (r matches Err(e) && e is Closed),
            self.config.durability is Eventual && r is Ok ==> final(backend).forced(),
            old(backend).forced() ==> final(backend).forced(),
            !(self.config.durability is Eventual) ==> r is Ok && *final(backend) == *old(backend),
    {
        if !self.config.is_eventual() {
            return Ok(());
        }
        backend.flush()
    }

    /// Commit, then tell the other tabs.
    ///
    /// The news is worked out **before** the commit and posted **after** it
    /// lands, so no tab is ever told about a write that failed.
    pub fn commit<B: Backend>(&mut self, shared: &mut Shared<B>, ops: Vec<Op>) -> (r: Result<()>)
        ensures
            final(shared).carries_on(*old(shared)),
            final(shared).stays_forced(*old(shared), old(self).config.durability),
            final(shared).told(*old(shared), *old(self), *final(self)),
            r is Ok ==> final(shared).backend.store() == old(shared).backend.store().after_all(changes(ops@)),
            r is Err ==> final(shared).backend.store() == old(shared).backend.store(),
            old(shared).backend.answers() ==> r is Ok && final(shared).backend.answers(),
            old(shared).backend.shut() ==> (r matches Err(e) && e is Closed),
            final(shared).values == old(shared).values,
            final(shared).ticks == old(shared).ticks,
            final(self).same_but_news(*old(self)),
            final(self).watchers == old(self).watchers,
            news_posted(
                old(self).id,
                old(self).epochs,
                old(shared).coherence,
                changes(ops@),
                r is Ok,
                final(self).epochs,
                final(shared).coherence,
            ),
    {
        let ghost list = changes(ops@);
        let news = shared.coherence.prepare(self.id, &ops);
        let options = CommitOptions { durability: self.config.durability };
        match shared.backend.commit_with(ops, options) {
            Ok(()) => {},
            Err(e) => {
                assert(news_posted(
                    self.id,
                    old(self).epochs,
                    old(shared).coherence,
                    list,
                    false,
                    self.epochs,
                    shared.coherence,
                ));
                return Err(e);
            },
        }
        if let Some(news) = news {
            // Remember what this tab just wrote, and when, so another tab's
            // older news cannot undo it.
            self.epochs.note_local(&news.changes, news.epoch);
            if news.cleared {
                self.epochs.forget_local();
            }
            let ghost had = shared.coherence.waiting();
            shared.coherence.post(news);
            assert(shared.coherence.waiting().drop_last() =~= had);
        }
        assert(news_posted(
            self.id,
            old(self).epochs,
            old(shared).coherence,
            list,
            true,
            self.epochs,
            shared.coherence,
        ));
        Ok(())
    }

    /// Announce a change. Called only after a commit lands, or for a write
    /// that was accepted into a batch.
    pub fn announce(&mut self, event: Event)
        ensures
            final(self).same_but_news(*old(self)),
            final(self).epochs == old(self).epochs,
            announced(old(self).watchers, event@, final(self).watchers),
    {
        self.watchers.broadcast(&event);
    }

    /// Decode a stored record into payload bytes.
    pub fn load_payload<B: Backend>(&self, backend: &B, record: &[u8]) -> (r: Result<Vec<u8>>)
        ensures
            r matches Ok(out) ==> loaded(*self.chain, backend.store().chunks, record@) == Some(out@),
            (backend.answers() || !points(record@)) && loaded(*self.chain, backend.store().chunks, record@) is Some
                ==> r is Ok,
            backend.answers() || !points(record@) ==> (r matches Err(e) ==> unloaded(
                *self.chain,
                backend.store().chunks,
                record@,
                e,
            )),
    {
        if is_pointer(record) {
            match ChunkPointer::parse(record) {
                Ok(pointer) => self.read_chunks(backend, &pointer),
                Err(e) => Err(e),
            }
        } else {
            self.chain.open(record)
        }
    }

    /// Decode a stored record into a value.
    pub fn decode_record<B: Backend, T: Value>(&self, backend: &B, record: &[u8]) -> (r: Result<T>)
        ensures
            r matches Ok(v) ==> (readable(*self.chain, backend.store().chunks, record@) matches Some(p)
                && T::reading(p) == Some(v.payload())),
            forall|v: T|
                backend.answers() && v.packs() && readable(*self.chain, backend.store().chunks, record@) == Some(
                    #[trigger] v.payload(),
                ) ==> r is Ok && r->Ok_0.payload() == v.payload(),
            backend.answers() || !points(record@) ==> (r matches Err(e) ==> unread(
                *self.chain,
                backend.store().chunks,
                record@,
                e,
            )),
    {
        let payload = match self.load_payload(backend, record) {
            Ok(payload) => payload,
            Err(e) => return Err(e),
        };
        let raw: bool = if is_pointer(record) {
            match ChunkPointer::parse(record) {
                Ok(pointer) => pointer.flags == FLAG_RAW,
                Err(e) => return Err(e),
            }
        } else {
            false
        };
        if raw {
            match pack(&payload) {
                Ok(wrapped) => T::from_payload(wrapped.as_slice()),
                Err(e) => Err(e),
            }
        } else {
            T::from_payload(payload.as_slice())
        }
    }

    /// Fetch and decode the value of a key.
    pub fn load_value<B: Backend, T: Value>(&self, backend: &B, key: &[u8]) -> (r: Result<Option<T>>)
        ensures
            ({
                let rows = locker_rows(backend.store().records, self.id);
                let chunks = backend.store().chunks;
                &&& r matches Ok(None) ==> !rows.contains_key(key@)
                &&& r matches Ok(Some(v)) ==> rows.contains_key(key@) && (readable(*self.chain, chunks, rows[key@]) matches Some(
                    p,
                ) && T::reading(p) == Some(v.payload()))
                &&& backend.answers() && !rows.contains_key(key@) ==> r is Ok
                &&& forall|v: T|
                    backend.answers() && rows.contains_key(key@) && v.packs() && readable(
                        *self.chain,
                        chunks,
                        rows[key@],
                    ) == Some(#[trigger] v.payload()) ==> (r matches Ok(Some(w)) && w.payload() == v.payload())
                &&& backend.answers() ==> (r matches Err(e) ==> rows.contains_key(key@) && unread(
                    *self.chain,
                    chunks,
                    rows[key@],
                    e,
                ))
                &&& backend.shut() ==> (r matches Err(e) && e is Closed)
            }),
    {
        match self.fetch(backend, key) {
            Err(e) => Err(e),
            Ok(None) => Ok(None),
            Ok(Some(record)) => match self.decode_record::<B, T>(backend, record.as_slice()) {
                Ok(value) => Ok(Some(value)),
                Err(e) => Err(e),
            },
        }
    }

    /// Reassemble a chunked value.
    ///
    /// Chunks are asked for in groups, each one `get_many`. Nothing is
    /// reserved from the length the pointer declares: a corrupt pointer costs
    /// nothing, and the check at the end is what holds it to its claim.
    pub fn read_chunks<B: Backend>(&self, backend: &B, pointer: &ChunkPointer) -> (r: Result<Vec<u8>>)
        ensures
            r matches Ok(out) ==> assembled(*self.chain, backend.store().chunks, *pointer) == Some(out@),
            backend.answers() && assembled(*self.chain, backend.store().chunks, *pointer) is Some ==> r is Ok,
            backend.answers() ==> (r matches Err(e) ==> exists|i: int| #[trigger]
                stops_at_chunk(*self.chain, backend.store().chunks, *pointer, i, e)),
    {
        let ghost chunks = backend.store().chunks;
        let mut out: Vec<u8> = Vec::new();
        let mut seq: u32 = 0;
        while seq < pointer.n_chunks
            invariant
                chunks == backend.store().chunks,
                seq <= pointer.n_chunks,
                first_chunks(*self.chain, chunks, pointer.value_id, seq as int) == Some(out@),
                out@.len() <= pointer.total_len,
            decreases pointer.n_chunks - seq,
        {
            let upto: u32 = if pointer.n_chunks - seq <= CHUNK_FETCH_GROUP {
                pointer.n_chunks
            } else {
                seq + CHUNK_FETCH_GROUP
            };
            let keys = chunk_keys(pointer.value_id, seq, upto);
            let ghost wanted = keys@;
            let found = match backend.get_many(Table::Chunks, keys) {
                Ok(found) => found,
                Err(e) => return Err(e),
            };
            let mut offset: usize = 0;
            while offset < found.len()
                invariant
                    chunks == backend.store().chunks,
                        seq < upto <= pointer.n_chunks,
                    found@.len() == upto - seq,
                    wanted.len() == found@.len(),
                    forall|i: int|
                        0 <= i < wanted.len() ==> (#[trigger] wanted[i])@ == chunk_at(
                            pointer.value_id,
                            (seq + i) as u32,
                        ),
                    forall|i: int|
                        0 <= i < wanted.len() ==> option_view(#[trigger] found@[i]) == backend.store().lookup(
                            Table::Chunks,
                            wanted[i]@,
                        ),
                    offset <= found@.len(),
                    first_chunks(*self.chain, chunks, pointer.value_id, seq + offset) == Some(out@),
                    out@.len() <= pointer.total_len,
                decreases found.len() - offset,
            {
                let ghost n = seq + offset;
                proof {
                    assert(wanted[offset as int]@ == chunk_at(pointer.value_id, n as u32));
                    more_chunks_are_longer(&self.chain, chunks, pointer.value_id, n + 1, pointer.n_chunks as int);
                }
                let piece = match &found[offset] {
                    Some(sealed) => match self.chain.open(sealed.as_slice()) {
                        Ok(piece) => piece,
                        Err(e) => {
                            assert(stops_at_chunk(*self.chain, chunks, *pointer, n, e));
                            return Err(e);
                        },
                    },
                    None => {
                        let e = Error::Corrupt(
                            between("missing chunk ", seq as u64 + offset as u64, " of ", pointer.value_id),
                        );
                        assert(stops_at_chunk(*self.chain, chunks, *pointer, n, e));
                        return Err(e);
                    },
                };
                extend(&mut out, piece.as_slice());
                assert(first_chunks(*self.chain, chunks, pointer.value_id, n + 1) == Some(out@));
                if out.len() as u64 > pointer.total_len {
                    let e = Error::Corrupt(
                        between(
                            "chunked value declared ",
                            pointer.total_len,
                            " bytes and has already reassembled ",
                            out.len() as u64,
                        ),
                    );
                    assert(stops_at_chunk(*self.chain, chunks, *pointer, n, e));
                    return Err(e);
                }
                offset += 1;
            }
            seq = upto;
        }
        if out.len() as u64 != pointer.total_len {
            let e = Error::Corrupt(
                between("chunked value declared ", pointer.total_len, " bytes, reassembled ", out.len() as u64),
            );
            assert(stops_at_chunk(*self.chain, chunks, *pointer, pointer.n_chunks as int, e));
            return Err(e);
        }
        Ok(out)
    }

    /// Whether a payload of this size and kind will be stored inline.
    pub fn stores_inline(&self, payload_len: usize, flags: u8) -> (b: bool)
        ensures
            b == kept_inline(self.config, payload_len as nat, flags),
    {
        payload_len <= self.config.chunk_size && flags == FLAG_POSTCARD
    }

    /// Seal a payload that must be stored inline and must not be larger than
    /// an eager locker accepts.
    pub fn seal_limited(&self, payload: &[u8]) -> (r: Result<Vec<u8>>)
        ensures
            r matches Ok(record) ==> self.chain.seals(payload@, record@) && record@.len() <= self.config.max_inline,
            r matches Err(e) ==> self.chain.declines(payload@, e) || (e matches Error::ValueTooLarge {
                bytes,
                max_inline,
            } && max_inline == self.config.max_inline && bytes > max_inline && exists|record: Seq<u8>| #[trigger]
                self.chain.seals(payload@, record) && record.len() == bytes),
            self.chain.takes(payload@) ==> (r matches Err(e) ==> e is ValueTooLarge && !self.chain.declines(payload@, e)),
    {
        let sealed = match self.chain.seal_slice(payload) {
            Ok(sealed) => sealed,
            Err(e) => return Err(e),
        };
        if sealed.len() > self.config.max_inline {
            assert(self.chain.seals(payload@, sealed@));
            return Err(Error::ValueTooLarge { bytes: sealed.len(), max_inline: self.config.max_inline });
        }
        Ok(sealed)
    }

    /// The ops that drop the chunks behind a key.
    pub(crate) fn gc_behind<B: Backend>(&self, backend: &B, key: &[u8], prior: Prior) -> (r: Result<Vec<Op>>)
        ensures
            r matches Ok(ops) ==> gc_list(backend.store().records, self.id, key@, prior) == Some(changes(ops@)),
            backend.answers() && gc_list(backend.store().records, self.id, key@, prior) is Some ==> r is Ok,
            backend.answers() ==> (r matches Err(e) ==> gc_refused(backend.store().records, self.id, key@, e)),
            backend.shut() ==> (r matches Err(e) ==> e is Closed),
            backend.shut() && prior is Unknown ==> r is Err,
    {
        let mut ops: Vec<Op> = Vec::new();
        assert(changes(ops@) =~= Seq::<Change>::empty());
        if prior.needs_read() {
            match self.fetch(backend, key) {
                Err(e) => return Err(e),
                Ok(None) => {},
                Ok(Some(existing)) => {
                    if is_pointer(existing.as_slice()) {
                        match ChunkPointer::parse(existing.as_slice()) {
                            Ok(pointer) => {
                                push_op(&mut ops, gc_ops(&pointer));
                                assert(changes(ops@) =~= seq![gc(pointer)]);
                            },
                            Err(e) => return Err(e),
                        }
                    }
                },
            }
        }
        Ok(ops)
    }

    /// Ops to store payload bytes at `key`, chunking when needed, and to drop
    /// any previous chunked value under that key.
    pub fn put_payload_ops<B: Backend>(
        &self,
        shared: &mut Shared<B>,
        key: &[u8],
        payload: Vec<u8>,
        flags: u8,
        prior: Prior,
    ) -> (r: Result<Vec<Op>>)
        requires
            self.config.chunk_size > 0,
        ensures
            final(shared).carries_on(*old(shared)),
            final(shared).backend == old(shared).backend,
            final(shared).ticks == old(shared).ticks,
            final(shared).coherence == old(shared).coherence,
            kept_inline(self.config, payload@.len(), flags) ==> final(shared).values == old(shared).values,
            r matches Ok(ops) ==> {
                let dropped = gc_list(old(shared).backend.store().records, self.id, key@, prior);
                let id = old(shared).values.upcoming(old(shared).backend.store());
                &&& dropped is Some
                &&& kept_inline(self.config, payload@.len(), flags) || id is Some && final(shared).values.cursor()
                    == Some((id->0 + 1) as u64)
                &&& stores(*self, key@, payload@, flags, dropped->0, old(shared).next_id(), changes(ops@))
            },
            old(shared).backend.answers() && gc_list(
                old(shared).backend.store().records,
                self.id,
                key@,
                prior,
            ) is Some && self.fits(payload@, flags) && (kept_inline(self.config, payload@.len(), flags) || (old(
                shared,
            ).values.upcoming(old(shared).backend.store()) matches Some(id) && id < u64::MAX)) ==> r is Ok,
            old(shared).backend.answers() ==> (r matches Err(e) ==> put_refused(
                *self,
                old(shared).backend.store().records,
                old(shared).values.upcoming(old(shared).backend.store()),
                key@,
                payload@,
                flags,
                e,
            )),
            old(shared).backend.shut() ==> (r matches Err(e) ==> self.shut_out(e)),
    {
        let mut ops = match self.gc_behind(&shared.backend, key, prior) {
            Ok(ops) => ops,
            Err(e) => return Err(e),
        };
        let ghost dropped = changes(ops@);
        proof {
            reveal(stores);
        }
        if self.stores_inline(payload.len(), flags) {
            let ghost all = payload@;
            let record = match self.chain.seal(payload) {
                Ok(record) => record,
                Err(e) => return Err(e),
            };
            let ghost sealed = record@;
            push_op(&mut ops, Op::Put { table: Table::Records, key: encode_bytes(self.id, key), value: record });
            proof {
                assert(changes(ops@).last() == record_put(self.id, key@, sealed));
                assert(changes(ops@).take(dropped.len() as int) =~= dropped);
            }
            return Ok(ops);
        }
        let (value_id, bump) = match shared.values.allocate(&shared.backend) {
            Ok(pair) => pair,
            Err(e) => return Err(e),
        };
        push_op(&mut ops, bump);
        let ghost all = pieces(payload@, self.config.chunk_size as int);
        let ghost n = dropped.len() as int;
        let ghost head = changes(ops@);
        let (n_chunks, sealed) = match self.seal_pieces(value_id, payload.as_slice()) {
            Ok(sealed) => sealed,
            Err(e) => return Err(e),
        };
        let ghost body = changes(sealed@);
        append_ops(&mut ops, sealed);
        let pointer = ChunkPointer { value_id, n_chunks, total_len: payload.len() as u64, flags };
        push_op(
            &mut ops,
            Op::Put { table: Table::Records, key: encode_bytes(self.id, key), value: pointer.encode() },
        );
        proof {
            let list = changes(ops@);
            assert(list.take(n) =~= dropped);
            assert(list[n] == head[n]);
            assert(list.subrange(n + 1, n + 1 + all.len()) =~= body);
        }
        Ok(ops)
    }

    /// The ops that write a payload's sealed pieces, and how many there are.
    fn seal_pieces(&self, value_id: u64, payload: &[u8]) -> (r: Result<(u32, Vec<Op>)>)
        requires
            self.config.chunk_size > 0,
        ensures
            ({
                let parts = pieces(payload@, self.config.chunk_size as int);
                &&& r matches Ok((n, ops)) ==> n == parts.len() && chunk_puts(
                    *self.chain,
                    value_id,
                    parts,
                    changes(ops@),
                )
                &&& parts.len() <= u32::MAX && (forall|i: int|
                    0 <= i < parts.len() ==> self.chain.takes(#[trigger] parts[i])) ==> r is Ok
                &&& r matches Err(e) ==> unsealed(*self.chain, parts, e)
            }),
    {
        let parts = split(payload, self.config.chunk_size);
        let ghost all = pieces(payload@, self.config.chunk_size as int);
        let mut ops: Vec<Op> = Vec::new();
        let mut seq: u32 = 0;
        let mut i: usize = 0;
        assert(changes(ops@) =~= Seq::<Change>::empty());
        while i < parts.len()
            invariant
                all == views(parts@),
                i <= parts@.len(),
                seq == i,
                chunk_puts(*self.chain, value_id, all.take(i as int), changes(ops@)),
                all == pieces(payload@, self.config.chunk_size as int),
            decreases parts.len() - i,
        {
            let ghost was = changes(ops@);
            assert(all[i as int] == parts@[i as int]@);
            let sealed = match self.chain.seal_slice(parts[i].as_slice()) {
                Ok(sealed) => sealed,
                Err(e) => {
                    assert(self.chain.declines(all[i as int], e));
                    return Err(e);
                },
            };
            push_op(&mut ops, Op::Put { table: Table::Chunks, key: chunk_key(value_id, seq), value: sealed });
            proof {
                let now = changes(ops@);
                assert forall|j: int| 0 <= j < i + 1 implies ((#[trigger] now[j]) matches Change::Put {
                    table,
                    key,
                    value,
                } && table == Table::Chunks && key == chunk_at(value_id, j as u32) && self.chain.seals(
                    all.take(i + 1)[j],
                    value,
                )) by {
                    if j < i {
                        assert(now[j] == was[j]);
                        assert(all.take(i + 1)[j] == all.take(i as int)[j]);
                    }
                }
            }
            seq = match seq.checked_add(1) {
                Some(next) => next,
                None => return Err(Error::backend("chunk sequence space is exhausted")),
            };
            i += 1;
        }
        assert(all.take(all.len() as int) =~= all);
        Ok((seq, ops))
    }

    /// Ops to remove a key, and to drop any chunked value under it.
    pub fn delete_value_ops<B: Backend>(&self, backend: &B, key: &[u8], prior: Prior) -> (r: Result<Vec<Op>>)
        ensures
            r matches Ok(ops) ==> (gc_list(backend.store().records, self.id, key@, prior) matches Some(dropped)
                && changes(ops@) == dropped.push(record_delete(self.id, key@))),
            backend.answers() && gc_list(backend.store().records, self.id, key@, prior) is Some ==> r is Ok,
            backend.answers() ==> (r matches Err(e) ==> gc_refused(backend.store().records, self.id, key@, e)),
            backend.shut() ==> (r matches Err(e) ==> e is Closed),
    {
        let mut ops = match self.gc_behind(backend, key, prior) {
            Ok(ops) => ops,
            Err(e) => return Err(e),
        };
        push_op(&mut ops, self.delete_op(key));
        Ok(ops)
    }

    /// The keys of a range of the locker, in scan order.
    ///
    /// The keys are **raw user key bytes**: a key need not be UTF-8, and a
    /// walk must never fail because one is not.
    pub fn walk<B: Backend>(&self, backend: &B, start: Bound<&[u8]>, end: Bound<&[u8]>, reverse: bool) -> (r: Result<
        Vec<Vec<u8>>,
    >)
        ensures
            backend.answers() ==> r is Ok,
            backend.shut() ==> (r is Ok <==> degenerate(user_span(start, end))) && (r matches Err(e) ==> e is Closed),
            r matches Ok(keys) ==> views(keys@) == scan_keys(
                locker_rows(backend.store().records, self.id),
                user_span(start, end),
                reverse,
            ),
            r is Ok ==> backend.store().is_finite(),
    {
        let ghost records = backend.store().records;
        let ghost span = user_span(start, end);
        let ghost rows = locker_rows(records, self.id);
        let _size: usize = backend.scan_page_size();
        let mut keys: Vec<Vec<u8>> = Vec::new();
        if is_degenerate(start, end) {
            proof {
                assert forall|k: Seq<u8>| !(#[trigger] keys_within(rows, span).contains(k)) by {
                    crate::key::a_degenerate_span_is_empty(span, k);
                }
                assert(lists(Seq::<Seq<u8>>::empty(), keys_within(rows, span)));
                the_listing_is(Seq::<Seq<u8>>::empty(), keys_within(rows, span));
                assert(views(keys@) =~= scan_keys(rows, span, reverse));
            }
            return Ok(keys);
        }
        let ghost all = scan_keys(records, stored_span(self.id, span), reverse);
        let ghost user = scan_keys(rows, span, reverse);
        let raw = match all_keys(backend, Table::Records, encode_range_bytes(self.id, start, end), reverse) {
            Ok(raw) => raw,
            Err(e) => return Err(e),
        };
        proof {
            walking_reads_the_locker(records, self.id, span, reverse);
            assert(views(keys@) =~= user.take(0));
        }
        let mut i: usize = 0;
        while i < raw.len()
            invariant
                all == views(raw@),
                all.len() == user.len(),
                forall|j: int| 0 <= j < all.len() ==> carried(self.id, #[trigger] all[j]) == Some(user[j]),
                i <= raw@.len(),
                views(keys@) == user.take(i as int),
            decreases raw.len() - i,
        {
            let ghost so_far = keys@;
            assert(raw@[i as int]@ == all[i as int]);
            match decode_bytes(self.id, raw[i].as_slice()) {
                Ok(key) => {
                    keys.push(copy(key));
                    assert(views(keys@) =~= views(so_far).push(user[i as int]));
                    assert(user.take(i + 1) =~= user.take(i as int).push(user[i as int]));
                },
                Err(e) => return Err(e),
            }
            i += 1;
        }
        assert(user.take(raw@.len() as int) =~= user);
        Ok(keys)
    }

    /// Ops to clear this locker's records and every chunk those records point
    /// at.
    ///
    /// A pointer that cannot be read is treated as an inline record: the range
    /// delete still removes it, and one damaged record must not make clearing
    /// fail forever.
    pub fn clear_value_ops<B: Backend>(&self, backend: &B) -> (r: Result<Vec<Op>>)
        ensures
            backend.answers() ==> r is Ok,
            backend.shut() ==> (r matches Err(e) && e is Closed),
            r matches Ok(ops) ==> changes(ops@) == clears(backend.store().records, self.id),
    {
        let ghost rows = locker_rows(backend.store().records, self.id);
        let keys = match self.walk(backend, Bound::Unbounded, Bound::Unbounded, false) {
            Ok(keys) => keys,
            Err(e) => return Err(e),
        };
        let ghost all = views(keys@);
        proof {
            everything_is_within(rows);
            walking_reads_the_locker(
                backend.store().records,
                self.id,
                Span { start: Bound::Unbounded, end: Bound::Unbounded },
                false,
            );
        }
        let mut ops: Vec<Op> = Vec::new();
        let mut i: usize = 0;
        assert(changes(ops@) =~= gc_all(rows, all.take(0)));
        while i < keys.len()
            invariant
                rows == locker_rows(backend.store().records, self.id),
                all == views(keys@),
                lists(all, rows.dom()),
                i <= keys@.len(),
                changes(ops@) == gc_all(rows, all.take(i as int)),
            decreases keys.len() - i,
        {
            proof {
                assert(all.take(i + 1).drop_last() =~= all.take(i as int));
                assert(all.take(i + 1).last() == keys@[i as int]@);
                assert(all.contains(all[i as int]));
                assert(rows.dom().contains(keys@[i as int]@));
            }
            match self.fetch(backend, keys[i].as_slice()) {
                Err(e) => return Err(e),
                Ok(None) => {},
                Ok(Some(record)) => {
                    if is_pointer(record.as_slice()) {
                        if let Ok(pointer) = ChunkPointer::parse(record.as_slice()) {
                            push_op(&mut ops, gc_ops(&pointer));
                        }
                    }
                },
            }
            i += 1;
        }
        assert(all.take(keys@.len() as int) =~= all);
        push_op(&mut ops, self.clear_op());
        Ok(ops)
    }
}

/// The whole of a table lies within the open range.
pub proof fn everything_is_within(rows: Rows)
    ensures
        keys_within(rows, Span { start: Bound::Unbounded, end: Bound::Unbounded }) == rows.dom(),
{
    assert(keys_within(rows, Span { start: Bound::Unbounded, end: Bound::Unbounded }) =~= rows.dom());
}

/// The keys of a run of chunks.
fn chunk_keys(value_id: u64, from: u32, to: u32) -> (keys: Vec<Vec<u8>>)
    requires
        from <= to,
    ensures
        keys@.len() == to - from,
        forall|i: int| 0 <= i < keys@.len() ==> (#[trigger] keys@[i])@ == chunk_at(value_id, (from + i) as u32),
{
    let mut keys: Vec<Vec<u8>> = Vec::new();
    let mut s: u32 = from;
    while s < to
        invariant
            from <= s <= to,
            keys@.len() == s - from,
            forall|i: int| 0 <= i < keys@.len() ==> (#[trigger] keys@[i])@ == chunk_at(value_id, (from + i) as u32),
        decreases to - s,
    {
        keys.push(chunk_key(value_id, s));
        s += 1;
    }
    keys
}

} // verus!
