//! A backend that keeps everything in memory.
//!
//! Its ordering and range semantics are what every other backend
//! is held to: keys are ordered bytewise, a page is the first rows of a range,
//! and a commit applies every operation or none.

use std::ops::Bound;

use vstd::prelude::*;

use super::api::{
    changes, keys_within, option_view, page_answers, rows_at, rows_of, scan_keys, without, Backend, KeyRange, Op,
    Rows, ScanPage, ScanRequest, Store, Table, Usage,
};
use crate::bytes::{before, before_is_irreflexive, before_is_total, before_is_transitive, copy, same};
use crate::error::{Error, Result};
use crate::sorted::{lists, the_listing_is, ByteMap};

verus! {

/// The byte strings a table of vectors holds.
pub open spec fn flat(m: Map<Seq<u8>, Vec<u8>>) -> Rows {
    m.map_values(|v: Vec<u8>| v@)
}

/// A backend that keeps everything in memory and loses it on drop.
///
/// Non-persistence is a specified behaviour, not an omission: opening another
/// one finds nothing.
pub struct MemoryBackend {
    meta: ByteMap<Vec<u8>>,
    records: ByteMap<Vec<u8>>,
    chunks: ByteMap<Vec<u8>>,
    /// Set by [`Backend::close`]. Memory has no handle to release, so the flag
    /// *is* the closure: a closed memory backend behaves like a closed file.
    closed: bool,
}

/// Where a range begins and ends among the keys of a map.
fn places_within<V>(tree: &ByteMap<V>, range: &KeyRange) -> (r: (usize, usize))
    ensures
        r.0 <= r.1 <= tree.keys().len(),
        forall|i: int|
            0 <= i < tree.keys().len() ==> (r.0 <= i < r.1 <==> range@.contains(#[trigger] tree.keys()[i])),
{
    let n: usize = tree.len();
    let ghost keys = tree.keys();
    let low: usize = match &range.start {
        Bound::Unbounded => 0,
        Bound::Included(s) => tree.position(s.as_slice()),
        Bound::Excluded(s) => after_key(tree, s.as_slice()),
    };
    let high: usize = match &range.end {
        Bound::Unbounded => n,
        Bound::Included(e) => after_key(tree, e.as_slice()),
        Bound::Excluded(e) => tree.position(e.as_slice()),
    };
    if low < high {
        (low, high)
    } else {
        (low, low)
    }
}

/// How many keys sort before `key` or are `key`.
fn after_key<V>(tree: &ByteMap<V>, key: &[u8]) -> (at: usize)
    ensures
        at <= tree.keys().len(),
        forall|i: int| 0 <= i < tree.keys().len() ==> (i < at <==> !before(key@, #[trigger] tree.keys()[i])),
{
    let n: usize = tree.len();
    let at: usize = tree.position(key);
    let ghost keys = tree.keys();
    let found: bool = at < n && same(tree.key_at(at).as_slice(), key);
    assert forall|i: int| 0 <= i < keys.len() implies (i < at + (if found { 1int } else { 0int }) <==> !before(
        key@,
        #[trigger] keys[i],
    )) by {
        before_is_irreflexive(key@);
        before_is_total(keys[i], key@);
        if i < at {
            if before(key@, keys[i]) {
                before_is_transitive(key@, keys[i], key@);
            }
        } else if i > at {
            assert(before(keys[at as int], keys[i]));
            if keys[i] == key@ {
                assert(before(keys[at as int], key@));
            }
        }
    }
    if found {
        at + 1
    } else {
        at
    }
}

/// The keys between two places are the listing of the range they delimit.
proof fn places_list_the_range(tree: ByteMap<Vec<u8>>, range: KeyRange, low: int, high: int)
    requires
        lists(tree.keys(), tree@.dom()),
        0 <= low <= high <= tree.keys().len(),
        forall|i: int|
            0 <= i < tree.keys().len() ==> (low <= i < high <==> range@.contains(#[trigger] tree.keys()[i])),
    ensures
        scan_keys(flat(tree@), range@, false) == tree.keys().subrange(low, high),
{
    let keys = tree.keys();
    let inside = keys.subrange(low, high);
    let dom = keys_within(flat(tree@), range@);
    assert forall|i: int, j: int| 0 <= i < j < inside.len() implies before(#[trigger] inside[i], #[trigger] inside[j]) by {
        assert(inside[i] == keys[low + i] && inside[j] == keys[low + j]);
    }
    assert forall|k: Seq<u8>| #[trigger] dom.contains(k) <==> inside.contains(k) by {
        if dom.contains(k) {
            assert(tree@.dom().contains(k));
            let i = keys.index_of(k);
            assert(keys[i] == k);
            assert(inside[i - low] == k);
        }
        if inside.contains(k) {
            let i = inside.index_of(k);
            assert(keys[low + i] == k);
            assert(keys.contains(k));
            assert(tree@.dom().contains(k));
        }
    }
    the_listing_is(inside, dom);
}

/// Collect one page, honouring direction and limit.
///
/// `resume` is the **last key returned**, in both directions, and is offered
/// only when the range holds another: an exhausted range reports `None`.
fn scan_tree(tree: &ByteMap<Vec<u8>>, request: &ScanRequest) -> (page: ScanPage)
    ensures
        page_answers(flat(tree@), *request, page),
{
    let count: usize = tree.len();
    let (low, high) = places_within(tree, &request.range);
    let ghost rows = flat(tree@);
    let ghost forward = tree.keys().subrange(low as int, high as int);
    let ghost keys = scan_keys(rows, request.range@, request.reverse);
    proof {
        places_list_the_range(*tree, request.range, low as int, high as int);
    }
    let n: usize = if high - low < request.limit {
        high - low
    } else {
        request.limit
    };
    let mut items: Vec<(Vec<u8>, Option<Vec<u8>>)> = Vec::new();
    let mut resume: Option<Vec<u8>> = None;
    let mut i: usize = 0;
    assert(rows_of(items@) =~= rows_at(rows, keys.take(0), request.want_values));
    while i < n
        invariant
            rows == flat(tree@),
            count == tree.keys().len(),
            lists(tree.keys(), tree@.dom()),
            tree.values().len() == tree.keys().len(),
            forall|k: int|
                0 <= k < tree.keys().len() ==> tree@.contains_key(#[trigger] tree.keys()[k])
                    && tree@[tree.keys()[k]] == tree.values()[k],
            low <= high <= count,
            i <= n <= high - low,
            items@.len() == i,
            forward == tree.keys().subrange(low as int, high as int),
            keys == if request.reverse {
                forward.reverse()
            } else {
                forward
            },
            rows_of(items@) == rows_at(rows, keys.take(i as int), request.want_values),
            i == 0 ==> resume is None,
            i > 0 ==> resume is Some && resume->0@ == keys[i - 1],
        decreases n - i,
    {
        let at: usize = if request.reverse {
            high - 1 - i
        } else {
            low + i
        };
        let key = tree.key_at(at);
        assert(keys[i as int] == tree.keys()[at as int]);
        let value: Option<Vec<u8>> = if request.want_values {
            Some(copy(tree.value_at(at).as_slice()))
        } else {
            None
        };
        let ghost so_far = items@;
        items.push((copy(key.as_slice()), value));
        resume = Some(copy(key.as_slice()));
        proof {
            assert(rows_of(items@) =~= rows_of(so_far).push((key@, option_view(value))));
            assert(keys.take(i + 1) =~= keys.take(i as int).push(keys[i as int]));
            assert(rows_at(rows, keys.take(i + 1), request.want_values) =~= rows_at(
                rows,
                keys.take(i as int),
                request.want_values,
            ).push((key@, option_view(value))));
        }
        i += 1;
    }
    let exhausted: bool = high - low <= request.limit;
    ScanPage {
        items,
        resume: if exhausted {
            None
        } else {
            resume
        },
    }
}

impl MemoryBackend {
    /// An empty backend.
    pub fn new() -> (b: Self)
        ensures
            b.store() == Store::empty(),
            b.answers(),
    {
        let b = MemoryBackend {
            meta: ByteMap::new(),
            records: ByteMap::new(),
            chunks: ByteMap::new(),
            closed: false,
        };
        assert(b.store() =~= Store::empty());
        b
    }

    /// Whether it was closed.
    pub closed spec fn is_closed(&self) -> bool {
        self.closed
    }

    fn tree(&self, table: Table) -> (tree: &ByteMap<Vec<u8>>)
        ensures
            flat(tree@) == self.store().table(table),
    {
        match table {
            Table::Meta => &self.meta,
            Table::Records => &self.records,
            Table::Chunks => &self.chunks,
        }
    }

    /// Put, remove or clear a range of one table.
    fn apply_to(tree: &mut ByteMap<Vec<u8>>, op: Op)
        ensures
            flat(final(tree)@) == (match op@ {
                super::api::Change::Put { table, key, value } => flat(old(tree)@).insert(key, value),
                super::api::Change::Delete { table, key } => flat(old(tree)@).remove(key),
                super::api::Change::DeleteRange { table, range } => without(flat(old(tree)@), range),
            }),
    {
        match op {
            Op::Put { table, key, value } => {
                let ghost k = key@;
                let ghost v = value@;
                tree.insert(key, value);
                assert(flat(tree@) =~= flat(old(tree)@).insert(k, v));
            },
            Op::Delete { table, key } => {
                tree.remove(key.as_slice());
                assert(flat(tree@) =~= flat(old(tree)@).remove(key@));
            },
            Op::DeleteRange { table, range } => {
                let _count: usize = tree.len();
                let (low, high) = places_within(tree, &range);
                let ghost keys = tree.keys();
                tree.cut(low, high);
                proof {
                    let gone = keys.subrange(low as int, high as int);
                    assert forall|k: Seq<u8>| old(tree)@.contains_key(k) implies (gone.to_set().contains(k)
                        <==> range@.contains(k)) by {
                        let i = keys.index_of(k);
                        assert(keys[i] == k);
                        if range@.contains(k) {
                            assert(gone[i - low] == k);
                        }
                        if gone.contains(k) {
                            let j = gone.index_of(k);
                            assert(keys[low + j] == k);
                        }
                    }
                    assert(flat(tree@) =~= without(flat(old(tree)@), range@));
                }
            },
        }
    }

    /// Apply one operation.
    fn apply(&mut self, op: Op)
        ensures
            final(self).store() == old(self).store().after(op@),
            final(self).is_closed() == old(self).is_closed(),
    {
        let table: Table = match &op {
            Op::Put { table, .. } => *table,
            Op::Delete { table, .. } => *table,
            Op::DeleteRange { table, .. } => *table,
        };
        match table {
            Table::Meta => Self::apply_to(&mut self.meta, op),
            Table::Records => Self::apply_to(&mut self.records, op),
            Table::Chunks => Self::apply_to(&mut self.chunks, op),
        }
        assert(self.store() =~= old(self).store().after(op@));
    }
}

/// The bytes a run of rows takes: keys and values.
pub open spec fn bytes_used(keys: Seq<Seq<u8>>, rows: Rows) -> nat
    decreases keys.len(),
{
    if keys.len() == 0 {
        0
    } else {
        bytes_used(keys.drop_last(), rows) + keys.last().len() + rows[keys.last()].len()
    }
}

/// The bytes a whole store takes: keys and values of every table.
pub open spec fn store_bytes(store: Store) -> nat {
    bytes_used(crate::sorted::listing(store.meta.dom()), store.meta) + bytes_used(
        crate::sorted::listing(store.records.dom()),
        store.records,
    ) + bytes_used(crate::sorted::listing(store.chunks.dom()), store.chunks)
}

/// A number that does not fit stays at the largest one that does.
pub open spec fn capped(n: nat) -> u64 {
    if n <= u64::MAX {
        n as u64
    } else {
        u64::MAX
    }
}

/// The bytes of one table added to `so_far`.
fn add_bytes(so_far: u64, tree: &ByteMap<Vec<u8>>, Ghost(exact): Ghost<nat>) -> (used: u64)
    requires
        so_far == capped(exact),
    ensures
        used == capped(exact + bytes_used(crate::sorted::listing(flat(tree@).dom()), flat(tree@))),
{
    let n: usize = tree.len();
    let ghost keys = tree.keys();
    let ghost rows = flat(tree@);
    let mut used: u64 = so_far;
    let mut i: usize = 0;
    assert(rows.dom() =~= tree@.dom());
    while i < n
        invariant
            n == keys.len(),
            keys == tree.keys(),
            rows == flat(tree@),
            tree.values().len() == keys.len(),
            forall|k: int|
                0 <= k < keys.len() ==> tree@.contains_key(#[trigger] keys[k]) && tree@[keys[k]]
                    == tree.values()[k],
            i <= n,
            used == capped(exact + bytes_used(keys.take(i as int), rows)),
        decreases n - i,
    {
        assert(keys.take(i + 1).drop_last() =~= keys.take(i as int));
        assert(rows.contains_key(keys[i as int]));
        used = used.saturating_add(tree.key_at(i).len() as u64).saturating_add(tree.value_at(i).len() as u64);
        i += 1;
    }
    assert(keys.take(n as int) =~= keys);
    used
}

impl Backend for MemoryBackend {
    closed spec fn store(&self) -> Store {
        Store { meta: flat(self.meta@), records: flat(self.records@), chunks: flat(self.chunks@) }
    }

    closed spec fn answers(&self) -> bool {
        !self.closed
    }

    open spec fn shut(&self) -> bool {
        !self.answers()
    }

    /// There is no durable layer beneath.
    open spec fn forced(&self) -> bool {
        true
    }

    open spec fn reports(&self, usage: Option<Usage>) -> bool {
        usage == Some(Usage { used: capped(store_bytes(self.store())), available: None, persisted: false })
    }

    fn get(&self, table: Table, key: &[u8]) -> (r: Result<Option<Vec<u8>>>)
        ensures
            r is Ok <==> self.answers(),
            r matches Err(e) ==> e is Closed,
    {
        if self.closed {
            return Err(Error::Closed);
        }
        match self.tree(table).get(key) {
            Some(value) => Ok(Some(copy(value.as_slice()))),
            None => Ok(None),
        }
    }

    fn get_many(&self, table: Table, keys: Vec<Vec<u8>>) -> (r: Result<Vec<Option<Vec<u8>>>>)
        ensures
            r is Ok <==> self.answers(),
            r matches Err(e) ==> e is Closed,
    {
        if self.closed {
            return Err(Error::Closed);
        }
        let tree = self.tree(table);
        let mut found: Vec<Option<Vec<u8>>> = Vec::new();
        let mut i: usize = 0;
        while i < keys.len()
            invariant
                flat(tree@) == self.store().table(table),
                i <= keys.len(),
                found@.len() == i,
                forall|k: int|
                    0 <= k < i ==> option_view(#[trigger] found@[k]) == self.store().lookup(table, keys@[k]@),
            decreases keys.len() - i,
        {
            let value = match tree.get(keys[i].as_slice()) {
                Some(value) => Some(copy(value.as_slice())),
                None => None,
            };
            found.push(value);
            i += 1;
        }
        Ok(found)
    }

    fn scan(&self, request: ScanRequest) -> (r: Result<ScanPage>)
        ensures
            r is Ok <==> self.answers(),
            r matches Err(e) ==> e is Closed,
    {
        if self.closed {
            return Err(Error::Closed);
        }
        Ok(scan_tree(self.tree(request.table), &request))
    }

    /// Larger than the default: nothing here has to outlive a transaction, so
    /// paging is nearly pure overhead.
    fn scan_page_size(&self) -> (n: usize)
        ensures
            n == 1024,
    {
        let _meta: usize = self.meta.len();
        let _records: usize = self.records.len();
        let _chunks: usize = self.chunks.len();
        assert(flat(self.meta@).dom() =~= self.meta@.dom());
        assert(flat(self.records@).dom() =~= self.records@.dom());
        assert(flat(self.chunks@).dom() =~= self.chunks@.dom());
        1024
    }

    fn commit(&mut self, ops: Vec<Op>) -> (r: Result<()>)
        ensures
            r is Ok <==> old(self).answers(),
            r matches Err(e) ==> e is Closed,
            final(self).answers() == old(self).answers(),
    {
        if self.closed {
            return Err(Error::Closed);
        }
        let ghost start = self.store();
        let ghost all = ops@;
        assert(changes(all.take(0)) =~= Seq::empty());
        for op in it: ops
            invariant
                it.seq() == all,
                !self.closed,
                self.store() == start.after_all(changes(all.take(it.index() as int))),
        {
            proof {
                let n = it.index() as int;
                assert(changes(all.take(n + 1)) =~= changes(all.take(n)).push(all[n]@));
                super::api::after_all_pushes(start, changes(all.take(n)), all[n]@);
            }
            self.apply(op);
        }
        assert(all.take(all.len() as int) =~= all);
        Ok(())
    }

    fn usage(&self) -> (r: Result<Option<Usage>>)
        ensures
            r is Ok <==> self.answers(),
            r matches Err(e) ==> e is Closed,
    {
        if self.closed {
            return Err(Error::Closed);
        }
        let ghost m = bytes_used(crate::sorted::listing(flat(self.meta@).dom()), flat(self.meta@));
        let ghost n = bytes_used(crate::sorted::listing(flat(self.records@).dom()), flat(self.records@));
        let used: u64 = add_bytes(0, &self.meta, Ghost(0nat));
        let used: u64 = add_bytes(used, &self.records, Ghost(m));
        let used: u64 = add_bytes(used, &self.chunks, Ghost(m + n));
        Ok(Some(Usage { used, available: None, persisted: false }))
    }

    fn flush(&mut self) -> (r: Result<()>)
        ensures
            r is Ok <==> old(self).answers(),
            final(self).answers() == old(self).answers(),
    {
        if self.closed {
            return Err(Error::Closed);
        }
        // Nothing to force: there is no durable layer beneath.
        Ok(())
    }

    /// Idempotent, and the data goes with it: a closed memory backend that
    /// kept its tables would silently resurrect on reopen.
    fn close(&mut self) -> (r: Result<()>)
        ensures
            r is Ok,
            !final(self).answers(),
            old(self).answers() ==> final(self).store() == Store::empty(),
            !old(self).answers() ==> final(self).store() == old(self).store(),
    {
        if !self.closed {
            *self = MemoryBackend::new();
            self.closed = true;
            assert(self.store() =~= Store::empty());
        }
        Ok(())
    }
}

} // verus!
