//! The contract between the engine and a store.
//!
//! A store is deliberately dumb: three tables of byte strings, read by key or
//! by range, written by atomic lists of operations. Chunking, codecs, indexes
//! and eviction all live above it.

use std::ops::Bound;

use vstd::prelude::*;

use crate::bytes::{before, copy, order, starts_with, successor, successor_bounds_the_prefix, Order};
use crate::error::Result;
use crate::sorted::listing;

verus! {

/// The edge of a range, `std::ops::Bound`: inclusive, exclusive or absent.
#[verifier::external_type_specification]
#[verifier::reject_recursive_types(T)]
pub struct ExBound<T>(std::ops::Bound<T>);

/// How many records a single scan page pulls when a backend has no opinion.
pub const DEFAULT_SCAN_PAGE: usize = 256;

/// The three fixed tables every backend provides.
#[derive(Debug, Clone, Copy, PartialEq, Eq, Hash, Structural)]
pub enum Table {
    /// Bank and locker bookkeeping: format version, locker registry, schema
    /// tags, counters.
    Meta,
    /// User records, keyed by the encoded locker-prefixed key.
    Records,
    /// Chunk payloads for values too large to store inline.
    Chunks,
}

impl Table {
    /// Stable on-disk name. Changing one of these is a format break.
    pub fn name(self) -> (name: &'static str)
        ensures
            name@ == match self {
                Table::Meta => "meta"@,
                Table::Records => "records"@,
                Table::Chunks => "chunks"@,
            },
    {
        match self {
            Table::Meta => "meta",
            Table::Records => "records",
            Table::Chunks => "chunks",
        }
    }

    /// Every table, for backends that must create them all up front.
    pub fn all() -> (tables: [Table; 3])
        ensures
            tables@ == seq![Table::Meta, Table::Records, Table::Chunks],
    {
        let tables = [Table::Meta, Table::Records, Table::Chunks];
        assert(tables@ =~= seq![Table::Meta, Table::Records, Table::Chunks]);
        tables
    }
}

/// A range of byte strings.
#[verifier::ext_equal]
pub struct Span {
    pub start: Bound<Seq<u8>>,
    pub end: Bound<Seq<u8>>,
}

impl Span {
    /// Whether `key` falls inside.
    pub open spec fn contains(self, key: Seq<u8>) -> bool {
        &&& match self.start {
            Bound::Unbounded => true,
            Bound::Included(s) => !before(key, s),
            Bound::Excluded(s) => before(s, key),
        }
        &&& match self.end {
            Bound::Unbounded => true,
            Bound::Included(e) => !before(e, key),
            Bound::Excluded(e) => before(key, e),
        }
    }

    /// Everything that starts with `prefix`.
    pub open spec fn prefix(prefix: Seq<u8>) -> Span {
        Span {
            start: Bound::Included(prefix),
            end: match successor(prefix) {
                Some(end) => Bound::Excluded(end),
                None => Bound::Unbounded,
            },
        }
    }
}

/// A prefix's range holds exactly what starts with the prefix.
pub proof fn a_prefix_span_holds_what_starts_with_it(prefix: Seq<u8>, key: Seq<u8>)
    ensures
        Span::prefix(prefix).contains(key) <==> starts_with(key, prefix),
{
    successor_bounds_the_prefix(prefix, key);
}

/// The byte string a bound names.
pub open spec fn bound_view(b: Bound<Vec<u8>>) -> Bound<Seq<u8>> {
    match b {
        Bound::Unbounded => Bound::Unbounded,
        Bound::Included(v) => Bound::Included(v@),
        Bound::Excluded(v) => Bound::Excluded(v@),
    }
}

/// A half-open or closed key range, in encoded key space.
#[derive(Debug, PartialEq, Eq)]
pub struct KeyRange {
    pub start: Bound<Vec<u8>>,
    pub end: Bound<Vec<u8>>,
}

impl View for KeyRange {
    type V = Span;

    open spec fn view(&self) -> Span {
        Span { start: bound_view(self.start), end: bound_view(self.end) }
    }
}

/// A copy of a bound.
pub fn copy_bound(b: &Bound<Vec<u8>>) -> (c: Bound<Vec<u8>>)
    ensures
        bound_view(c) == bound_view(*b),
{
    match b {
        Bound::Unbounded => Bound::Unbounded,
        Bound::Included(v) => Bound::Included(copy(v.as_slice())),
        Bound::Excluded(v) => Bound::Excluded(copy(v.as_slice())),
    }
}

impl Clone for KeyRange {
    fn clone(&self) -> (c: Self)
        ensures
            c@ == self@,
    {
        KeyRange { start: copy_bound(&self.start), end: copy_bound(&self.end) }
    }
}

/// The last byte of a prefix decides its successor unless it is `0xFF`.
proof fn successor_by_the_last_byte(p: Seq<u8>)
    requires
        p.len() > 0,
    ensures
        p.last() != 0xFF ==> successor(p) == Some(p.drop_last().push((p.last() + 1) as u8)),
        p.last() == 0xFF ==> successor(p) == successor(p.drop_last()),
    decreases p.len(),
{
    let rest = p.skip(1);
    if rest.len() == 0 {
        assert(successor(rest) is None);
        if p.last() != 0xFF {
            assert(seq![(p[0] + 1) as u8] =~= p.drop_last().push((p.last() + 1) as u8));
        } else {
            assert(p.drop_last().len() == 0);
        }
    } else {
        successor_by_the_last_byte(rest);
        assert(rest.last() == p.last());
        let cut = p.drop_last();
        assert(cut.skip(1) =~= rest.drop_last());
        if p.last() != 0xFF {
            assert(seq![p[0]] + rest.drop_last().push((p.last() + 1) as u8) =~= cut.push((p.last() + 1) as u8));
        }
    }
}

impl KeyRange {
    /// Every key in the table.
    pub fn all() -> (r: Self)
        ensures
            r@ == (Span { start: Bound::Unbounded, end: Bound::Unbounded }),
    {
        KeyRange { start: Bound::Unbounded, end: Bound::Unbounded }
    }

    /// Every key beginning with `prefix`.
    ///
    /// The upper bound is the prefix with its last non-`0xFF` byte incremented,
    /// which is the successor of every string sharing the prefix. A prefix of
    /// all `0xFF` bytes has no successor, so the range stays unbounded above.
    pub fn prefix(prefix: &[u8]) -> (r: Self)
        ensures
            r@ == Span::prefix(prefix@),
            forall|key: Seq<u8>| #[trigger] r@.contains(key) <==> starts_with(key, prefix@),
    {
        proof {
            assert forall|key: Seq<u8>| #[trigger] Span::prefix(prefix@).contains(key) <==> starts_with(key, prefix@) by {
                a_prefix_span_holds_what_starts_with_it(prefix@, key);
            }
        }
        let start = Bound::Included(copy(prefix));
        let mut end = copy(prefix);
        while end.len() > 0
            invariant
                successor(end@) == successor(prefix@),
                forall|key: Seq<u8>| #[trigger] Span::prefix(prefix@).contains(key) <==> starts_with(key, prefix@),
                bound_view(start) == Bound::Included(prefix@),
            decreases end.len(),
        {
            proof {
                successor_by_the_last_byte(end@);
            }
            match end.pop() {
                Some(last) => {
                    if last != 0xFF {
                        end.push(last + 1);
                        return KeyRange { start, end: Bound::Excluded(end) };
                    }
                },
                None => {},
            }
        }
        KeyRange { start, end: Bound::Unbounded }
    }

    /// Whether `key` falls inside this range.
    pub fn contains(&self, key: &[u8]) -> (b: bool)
        ensures
            b == self@.contains(key@),
    {
        let above_start: bool = match &self.start {
            Bound::Unbounded => true,
            Bound::Included(s) => match order(key, s.as_slice()) {
                Order::Less => false,
                _ => true,
            },
            Bound::Excluded(s) => match order(key, s.as_slice()) {
                Order::Greater => true,
                _ => false,
            },
        };
        let below_end: bool = match &self.end {
            Bound::Unbounded => true,
            Bound::Included(e) => match order(key, e.as_slice()) {
                Order::Greater => false,
                _ => true,
            },
            Bound::Excluded(e) => match order(key, e.as_slice()) {
                Order::Less => true,
                _ => false,
            },
        };
        above_start && below_end
    }

    /// Whether two ranges have the same bounds.
    pub fn same(&self, other: &KeyRange) -> (b: bool)
        ensures
            b == (self@ == other@),
    {
        let b: bool = same_bound(&self.start, &other.start) && same_bound(&self.end, &other.end);
        assert(self@ == other@ <==> self@.start == other@.start && self@.end == other@.end);
        b
    }
}

/// Whether two bounds are the same.
fn same_bound(a: &Bound<Vec<u8>>, b: &Bound<Vec<u8>>) -> (r: bool)
    ensures
        r == (bound_view(*a) == bound_view(*b)),
{
    match (a, b) {
        (Bound::Unbounded, Bound::Unbounded) => true,
        (Bound::Included(x), Bound::Included(y)) => crate::bytes::same(x.as_slice(), y.as_slice()),
        (Bound::Excluded(x), Bound::Excluded(y)) => crate::bytes::same(x.as_slice(), y.as_slice()),
        _ => false,
    }
}

/// A single mutation. A [`Backend::commit`] applies a list of these atomically.
#[derive(Debug, PartialEq, Eq)]
pub enum Op {
    Put { table: Table, key: Vec<u8>, value: Vec<u8> },
    Delete { table: Table, key: Vec<u8> },
    DeleteRange { table: Table, range: KeyRange },
}

/// A single mutation, as mathematics.
#[verifier::ext_equal]
pub enum Change {
    Put { table: Table, key: Seq<u8>, value: Seq<u8> },
    Delete { table: Table, key: Seq<u8> },
    DeleteRange { table: Table, range: Span },
}

impl View for Op {
    type V = Change;

    open spec fn view(&self) -> Change {
        match *self {
            Op::Put { table, key, value } => Change::Put { table, key: key@, value: value@ },
            Op::Delete { table, key } => Change::Delete { table, key: key@ },
            Op::DeleteRange { table, range } => Change::DeleteRange { table, range: range@ },
        }
    }
}

/// What a list of operations does, in order.
pub open spec fn changes(ops: Seq<Op>) -> Seq<Change> {
    Seq::new(ops.len(), |i: int| ops[i]@)
}

/// A table's contents.
pub type Rows = Map<Seq<u8>, Seq<u8>>;

/// Everything a store holds.
#[verifier::ext_equal]
pub struct Store {
    pub meta: Rows,
    pub records: Rows,
    pub chunks: Rows,
}

impl Store {
    /// A store with nothing in it.
    pub open spec fn empty() -> Store {
        Store { meta: Map::empty(), records: Map::empty(), chunks: Map::empty() }
    }

    /// Whether every table holds finitely many rows.
    pub open spec fn is_finite(self) -> bool {
        self.meta.dom().finite() && self.records.dom().finite() && self.chunks.dom().finite()
    }

    /// The rows of one table.
    pub open spec fn table(self, table: Table) -> Rows {
        match table {
            Table::Meta => self.meta,
            Table::Records => self.records,
            Table::Chunks => self.chunks,
        }
    }

    /// The same store with one table replaced.
    pub open spec fn with_table(self, table: Table, rows: Rows) -> Store {
        match table {
            Table::Meta => Store { meta: rows, ..self },
            Table::Records => Store { records: rows, ..self },
            Table::Chunks => Store { chunks: rows, ..self },
        }
    }

    /// What is stored under a key.
    pub open spec fn lookup(self, table: Table, key: Seq<u8>) -> Option<Seq<u8>> {
        if self.table(table).contains_key(key) {
            Some(self.table(table)[key])
        } else {
            None
        }
    }

    /// The store after one mutation.
    pub open spec fn after(self, change: Change) -> Store {
        match change {
            Change::Put { table, key, value } => self.with_table(table, self.table(table).insert(key, value)),
            Change::Delete { table, key } => self.with_table(table, self.table(table).remove(key)),
            Change::DeleteRange { table, range } => self.with_table(table, without(self.table(table), range)),
        }
    }

    /// The store after a list of mutations, applied in order.
    pub open spec fn after_all(self, list: Seq<Change>) -> Store
        decreases list.len(),
    {
        if list.len() == 0 {
            self
        } else {
            self.after_all(list.drop_last()).after(list.last())
        }
    }
}

/// The rows outside a range.
pub open spec fn without(rows: Rows, range: Span) -> Rows {
    Map::new(|k: Seq<u8>| rows.contains_key(k) && !range.contains(k), |k: Seq<u8>| rows[k])
}

/// Two lists of mutations applied one after the other are one list.
pub proof fn after_all_appends(store: Store, a: Seq<Change>, b: Seq<Change>)
    ensures
        store.after_all(a + b) == store.after_all(a).after_all(b),
    decreases b.len(),
{
    if b.len() == 0 {
        assert(a + b =~= a);
    } else {
        after_all_appends(store, a, b.drop_last());
        assert((a + b).drop_last() =~= a + b.drop_last());
        assert((a + b).last() == b.last());
    }
}

/// One more mutation at the end.
pub proof fn after_all_pushes(store: Store, list: Seq<Change>, change: Change)
    ensures
        store.after_all(list.push(change)) == store.after_all(list).after(change),
{
    assert(list.push(change).drop_last() =~= list);
}

/// The changes of two lists of operations, one after the other.
pub proof fn changes_append(a: Seq<Op>, b: Seq<Op>)
    ensures
        changes(a + b) == changes(a) + changes(b),
{
    assert(changes(a + b) =~= changes(a) + changes(b));
}

/// The changes of a list with one more operation.
pub proof fn changes_push(list: Seq<Op>, op: Op)
    ensures
        changes(list.push(op)) == changes(list).push(op@),
{
    assert(changes(list.push(op)) =~= changes(list).push(op@));
}

/// Append an operation, and say what the list does now.
pub fn push_op(ops: &mut Vec<Op>, op: Op)
    ensures
        changes(final(ops)@) == changes(old(ops)@).push(op@),
{
    proof {
        changes_push(ops@, op);
    }
    ops.push(op);
}

/// Append a list of operations, and say what the whole list does now.
pub fn append_ops(ops: &mut Vec<Op>, more: Vec<Op>)
    ensures
        changes(final(ops)@) == changes(old(ops)@) + changes(more@),
{
    let mut more = more;
    proof {
        changes_append(ops@, more@);
    }
    ops.append(&mut more);
}

/// A bounded scan. Bounded because a cursor need not outlive one page, so the
/// caller resumes rather than holding one open.
#[derive(Debug)]
pub struct ScanRequest {
    pub table: Table,
    pub range: KeyRange,
    pub reverse: bool,
    pub limit: usize,
    /// When false the values are left out, which lets a key-only scan avoid
    /// reading payloads it would immediately discard.
    pub want_values: bool,
}

/// One page of scan results.
#[derive(Debug)]
pub struct ScanPage {
    pub items: Vec<(Vec<u8>, Option<Vec<u8>>)>,
    /// The last key returned, or `None` when the range is exhausted, also where
    /// its last key filled the page. A caller continues by excluding it.
    pub resume: Option<Vec<u8>>,
}

/// The byte string an optional vector holds.
pub open spec fn option_view(v: Option<Vec<u8>>) -> Option<Seq<u8>> {
    match v {
        Some(x) => Some(x@),
        None => None,
    }
}

/// One row of a page.
pub type Row = (Seq<u8>, Option<Seq<u8>>);

/// The rows of a page.
pub open spec fn rows_of(items: Seq<(Vec<u8>, Option<Vec<u8>>)>) -> Seq<Row> {
    Seq::new(items.len(), |i: int| (items[i].0@, option_view(items[i].1)))
}

/// The keys of a table inside a range.
pub open spec fn keys_within(rows: Rows, range: Span) -> Set<Seq<u8>> {
    Set::new(|k: Seq<u8>| rows.contains_key(k) && range.contains(k))
}

/// The keys of a table inside a range, in scan order.
pub open spec fn scan_keys(rows: Rows, range: Span, reverse: bool) -> Seq<Seq<u8>> {
    if reverse {
        listing(keys_within(rows, range)).reverse()
    } else {
        listing(keys_within(rows, range))
    }
}

/// The rows under a list of keys.
pub open spec fn rows_at(rows: Rows, keys: Seq<Seq<u8>>, want_values: bool) -> Seq<Row> {
    Seq::new(
        keys.len(),
        |i: int|
            (
                keys[i],
                if want_values {
                    Some(rows[keys[i]])
                } else {
                    None
                },
            ),
    )
}

/// The least of two lengths.
pub open spec fn at_most(n: int, limit: int) -> int {
    if n < limit {
        n
    } else {
        limit
    }
}

/// `page` is what a scan of `rows` may answer: the first `limit` rows of the
/// range in scan order, and, exactly where more are left, the last key returned
/// as the place to resume.
pub open spec fn page_answers(rows: Rows, request: ScanRequest, page: ScanPage) -> bool {
    let keys = scan_keys(rows, request.range@, request.reverse);
    let shown = keys.take(at_most(keys.len() as int, request.limit as int));
    &&& rows_of(page.items@) == rows_at(rows, shown, request.want_values)
    &&& match page.resume {
        Some(last) => 0 < request.limit < keys.len() && last@ == shown.last(),
        None => !(0 < request.limit < keys.len()),
    }
}

/// Storage usage, where the platform reports it.
#[derive(Debug, Clone, Copy, PartialEq, Eq, Structural)]
pub struct Usage {
    pub used: u64,
    pub available: Option<u64>,
    /// Whether the data is safe from being evicted behind the application.
    pub persisted: bool,
}

/// How hard a commit works to reach the disk before it returns.
#[derive(Debug, Clone, Copy, PartialEq, Eq, Structural)]
pub enum Durability {
    /// The commit is durable when it returns.
    Immediate,
    /// The commit is applied when it returns, and durable after a flush.
    Eventual,
}

/// What a commit asks of the backend beyond its operations.
#[derive(Debug, Clone, Copy, PartialEq, Eq, Structural)]
pub struct CommitOptions {
    pub durability: Durability,
}

/// A place bytes can be stored.
///
/// Implementations stay deliberately dumb: no chunking, no codecs, no indexes,
/// no eviction. All of that lives in the portable engine above.
///
/// The spec functions are what an implementation is held to where it is
/// verified; one that is not need not name them.
pub trait Backend: Sized {
    /// Everything it holds.
    open spec fn store(&self) -> Store {
        arbitrary()
    }

    /// Whether every call is going to succeed. A store that may fail at any
    /// time answers `false`.
    open spec fn answers(&self) -> bool {
        arbitrary()
    }

    /// Whether nothing is left to force: every commit that landed is as
    /// durable as this store makes it. A store that never holds a commit back
    /// answers `true`.
    open spec fn forced(&self) -> bool {
        arbitrary()
    }

    /// Whether it was closed: whatever it is asked from now on, it refuses.
    open spec fn shut(&self) -> bool {
        arbitrary()
    }

    /// Whether this may be what it reports of its usage.
    open spec fn reports(&self, usage: Option<Usage>) -> bool {
        arbitrary()
    }

    /// What is stored under `key`.
    fn get(&self, table: Table, key: &[u8]) -> (r: Result<Option<Vec<u8>>>)
        ensures
            r matches Ok(found) ==> option_view(found) == self.store().lookup(table, key@),
            self.answers() ==> r is Ok,
            self.shut() ==> (r matches Err(e) && e is Closed),
    ;

    /// What is stored under each of `keys`, in their order.
    fn get_many(&self, table: Table, keys: Vec<Vec<u8>>) -> (r: Result<Vec<Option<Vec<u8>>>>)
        ensures
            r matches Ok(found) ==> found@.len() == keys@.len() && forall|i: int|
                0 <= i < keys@.len() ==> option_view(#[trigger] found@[i]) == self.store().lookup(table, keys@[i]@),
            self.answers() ==> r is Ok,
            self.shut() ==> (r matches Err(e) && e is Closed),
    ;

    /// One page of a range.
    fn scan(&self, request: ScanRequest) -> (r: Result<ScanPage>)
        ensures
            r matches Ok(page) ==> page_answers(self.store().table(request.table), request, page),
            self.answers() ==> r is Ok,
            self.shut() ==> (r matches Err(e) && e is Closed),
    ;

    /// How many rows a page should ask for. At least one, and a store holds
    /// finitely many, so reading page by page ends.
    fn scan_page_size(&self) -> (n: usize)
        ensures
            n > 0,
            self.store().is_finite(),
    ;

    /// Apply every op, or none of them. A commit is durable when it returns.
    fn commit(&mut self, ops: Vec<Op>) -> (r: Result<()>)
        ensures
            old(self).forced() ==> final(self).forced(),
            r is Ok ==> final(self).store() == old(self).store().after_all(changes(ops@)),
            r is Err ==> final(self).store() == old(self).store(),
            old(self).answers() ==> r is Ok && final(self).answers(),
            old(self).shut() ==> (r matches Err(e) && e is Closed) && final(self).shut(),
    ;

    /// As [`Backend::commit`], with a word on durability.
    fn commit_with(&mut self, ops: Vec<Op>, options: CommitOptions) -> (r: Result<()>)
        ensures
            old(self).forced() && (options.durability is Immediate || r is Err) ==> final(self).forced(),
            r is Ok ==> final(self).store() == old(self).store().after_all(changes(ops@)),
            r is Err ==> final(self).store() == old(self).store(),
            old(self).answers() ==> r is Ok && final(self).answers(),
            old(self).shut() ==> (r matches Err(e) && e is Closed) && final(self).shut(),
    {
        self.commit(ops)
    }

    /// `None` where the platform does not report usage.
    fn usage(&self) -> (r: Result<Option<Usage>>)
        ensures
            r matches Ok(u) ==> self.reports(u),
            self.answers() ==> r is Ok,
            self.shut() ==> (r matches Err(e) && e is Closed),
    ;

    /// Ensure prior commits have reached durable storage.
    fn flush(&mut self) -> (r: Result<()>)
        ensures
            final(self).store() == old(self).store(),
            r is Ok || old(self).forced() ==> final(self).forced(),
            old(self).answers() ==> r is Ok && final(self).answers(),
            old(self).shut() ==> (r matches Err(e) && e is Closed) && final(self).shut(),
    ;

    /// Release whatever the handle holds. Every later call fails.
    fn close(&mut self) -> (r: Result<()>)
        ensures
            old(self).forced() ==> final(self).forced(),
            old(self).answers() ==> r is Ok,
            r is Ok || old(self).shut() ==> final(self).shut(),
    ;
}

} // verus!
