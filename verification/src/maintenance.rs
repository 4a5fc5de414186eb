//! Upkeep of a bank's lockers by name, without opening them: what is
//! registered, what it weighs, what of it can still be read, and how to be rid
//! of it.

use std::ops::Bound;
use std::sync::Arc;

use vstd::prelude::*;
use vstd::string::StringSliceAdditionalSpecFns;
use vstd::utf8::{encode_utf8, valid_utf8};

use crate::backend::api::{
    after_all_pushes, changes, keys_within, push_op, Backend, Change, KeyRange, Op, Rows, Span, Store, Table,
};
use crate::backend::memory::capped;
use crate::backend::pages::all_keys;
use crate::bank::{chain_refused, id_refused, named, number_at, Bank};
use crate::bytes::{be64, copy, tail_of};
use crate::codec::FilterChain;
use crate::error::{invalid_with, Error, Result};
use crate::key::LockerId;
use crate::locker::chunk::{chunk_range, gc, gc_ops, parsed, ChunkPointer};
use crate::locker::eager::weight_of;
use crate::locker::handles::taken;
use crate::locker::lazy_laws::{a_spared_table_stays, spares};
use crate::locker::inner::{
    clears, everything_is_within, loaded, locker_rows, record_delete, walking_reads_the_locker, Inner,
};
use crate::locker::policy::{share, LockerConfig};
use crate::meta::{locker_key, locker_key_of, locker_prefix, name_bytes, schema_key, schema_key_of};
use crate::sorted::{listing, lists, the_listing_is, views};
use crate::text::{quoted, quoted_text, two};

verus! {

/// The bytes of every chunk of a value.
pub open spec fn chunk_weight(chunks: Rows, value_id: u64) -> nat {
    weight_of(chunks, listing(keys_within(chunks, Span::prefix(be64(value_id)))))
}

/// The bytes of the records under some keys, and of the chunks they point at.
pub open spec fn full_weight(rows: Rows, chunks: Rows, keys: Seq<Seq<u8>>) -> nat
    decreases keys.len(),
{
    if keys.len() == 0 {
        0
    } else {
        let record = rows[keys.last()];
        full_weight(rows, chunks, keys.drop_last()) + record.len() + (match parsed(record) {
            Some(p) => chunk_weight(chunks, p.value_id),
            None => 0,
        })
    }
}

/// The keys whose records cannot be read.
pub open spec fn unreadable(rows: Rows, chunks: Rows, chain: &FilterChain) -> Set<Seq<u8>> {
    Set::new(|k: Seq<u8>| rows.contains_key(k) && loaded(*chain, chunks, rows[k]) is None)
}

/// What removing some keys takes: the chunks behind each that can be located,
/// and its record. A key that is not there is passed over.
pub open spec fn removals(rows: Rows, id: LockerId, keys: Seq<Seq<u8>>) -> Seq<Change>
    decreases keys.len(),
{
    if keys.len() == 0 {
        Seq::empty()
    } else {
        let so_far = removals(rows, id, keys.drop_last());
        let key = keys.last();
        if !rows.contains_key(key) {
            so_far
        } else {
            (match parsed(rows[key]) {
                Some(p) => so_far.push(gc(p)),
                None => so_far,
            }).push(record_delete(id, key))
        }
    }
}

/// Removing records reaches nothing that is remembered of names.
proof fn removing_spares_names(rows: Rows, id: LockerId, keys: Seq<Seq<u8>>)
    ensures
        spares(removals(rows, id, keys), Table::Meta),
    decreases keys.len(),
{
    if keys.len() > 0 {
        removing_spares_names(rows, id, keys.drop_last());
    }
}

/// How many of some keys are there.
pub open spec fn present(rows: Rows, keys: Seq<Seq<u8>>) -> nat
    decreases keys.len(),
{
    if keys.len() == 0 {
        0
    } else {
        present(rows, keys.drop_last()) + (if rows.contains_key(keys.last()) {
            1nat
        } else {
            0
        })
    }
}

impl<B: Backend> Bank<B> {
    /// What asking for every name gives.
    pub open spec fn names_give(self, r: Result<Vec<String>>) -> bool {
        let keys = listing(keys_within(self.store().meta, Span::prefix(locker_prefix())));
        let names = Seq::new(keys.len(), |i: int| keys[i].skip(locker_prefix().len() as int));
        &&& self.closed ==> (r matches Err(e) && e is Closed)
        &&& r matches Ok(out) ==> crate::locker::listing::spelt(out@) == names
        &&& self.serves() ==> (r is Ok <==> forall|i: int|
            0 <= i < names.len() ==> valid_utf8(#[trigger] names[i])) && (r matches Err(e) ==> e is Corrupt)
    }

    /// Every registered locker name, in byte order.
    pub fn locker_names(&self) -> (r: Result<Vec<String>>)
        ensures
            self.names_give(r),
    {
        match self.ensure_open() {
            Ok(()) => {},
            Err(e) => return Err(e),
        }
        let prefix = name_bytes("locker::");
        let n: usize = prefix.len();
        let keys = match all_keys(&self.shared.backend, Table::Meta, KeyRange::prefix(prefix.as_slice()), false) {
            Ok(keys) => keys,
            Err(e) => return Err(e),
        };
        let ghost all = listing(keys_within(self.store().meta, Span::prefix(locker_prefix())));
        let ghost names = Seq::new(all.len(), |i: int| all[i].skip(locker_prefix().len() as int));
        let mut out: Vec<String> = Vec::new();
        let mut i: usize = 0;
        proof {
            crate::locker::lru::the_range_is_listed(self.store().meta, Span::prefix(locker_prefix()));
            assert(crate::locker::listing::spelt(out@) =~= names.take(0));
        }
        while i < keys.len()
            invariant
                !self.closed,
                n == locker_prefix().len(),
                all == views(keys@),
                all == listing(keys_within(self.store().meta, Span::prefix(locker_prefix()))),
                lists(all, keys_within(self.store().meta, Span::prefix(locker_prefix()))),
                names == Seq::new(all.len(), |i: int| all[i].skip(locker_prefix().len() as int)),
                i <= keys@.len(),
                crate::locker::listing::spelt(out@) == names.take(i as int),
                forall|j: int| 0 <= j < i ==> valid_utf8(#[trigger] names[j]),
            decreases keys.len() - i,
        {
            let ghost was = out@;
            proof {
                assert(all[i as int] == keys@[i as int]@);
                assert(all.contains(all[i as int]));
                assert(keys_within(self.store().meta, Span::prefix(locker_prefix())).contains(all[i as int]));
                crate::backend::api::a_prefix_span_holds_what_starts_with_it(locker_prefix(), all[i as int]);
            }
            let raw = tail_of(keys[i].as_slice(), n);
            assert(raw@ == names[i as int]);
            match core::str::from_utf8(raw.as_slice()) {
                Ok(name) => {
                    out.push(String::from_str(name));
                    assert(crate::locker::listing::spelt(out@) =~= crate::locker::listing::spelt(was).push(
                        names[i as int],
                    ));
                    assert(names.take(i + 1) =~= names.take(i as int).push(names[i as int]));
                },
                Err(e) => {
                    return Err(
                        Error::Corrupt(two("locker name is not UTF-8: ", crate::utf8::complaint(&e).as_str())),
                    );
                },
            }
            i += 1;
        }
        assert(names.take(names.len() as int) =~= names);
        Ok(out)
    }

    /// A locker's plumbing for upkeep. It is a second view onto a name by
    /// definition, and keeps no index at all.
    pub(crate) fn maintenance_inner(&self, id: LockerId, name: &str) -> (inner: Inner)
        ensures
            inner.chain == self.chain,
            inner.id == id,
            inner.name@ == name@,
            inner.name_shared,
            !inner.closed,
            inner.config.chunk_size > 0,
            inner.config.batch() is None,
    {
        Self::upkeep(share(&self.chain), id, name)
    }

    /// As [`Bank::maintenance_inner`], under a chain that may be the locker's
    /// own.
    fn upkeep(chain: Arc<FilterChain>, id: LockerId, name: &str) -> (inner: Inner)
        ensures
            inner.chain == chain,
            inner.id == id,
            inner.name@ == name@,
            inner.name_shared,
            !inner.closed,
            inner.config.chunk_size > 0,
            inner.config.batch() is None,
    {
        let mut inner = Inner::new(chain, id, String::from_str(name), LockerConfig::default(), 0);
        inner.name_shared = true;
        inner
    }

    /// What weighing a locker gives: its records and the chunks they point at,
    /// as stored. A name that is not registered occupies nothing. Refused where
    /// the bank is closed, and where the locker's id cannot be read.
    pub open spec fn weighing_gives(self, name: Seq<u8>, r: Result<u64>, after: Self) -> bool {
        let known = named(self.store(), self.registry@, name);
        &&& after.same_bank(self)
        &&& after.store() == self.store()
        &&& self.closed ==> (r matches Err(e) && e is Closed) && after == self
        &&& !self.knows(name) ==> after == self
        &&& r matches Ok(n) ==> if self.knows(name) {
            known matches Some((id, _)) && {
                let rows = locker_rows(self.store().records, id);
                n == capped(full_weight(rows, self.store().chunks, listing(rows.dom())))
            }
        } else {
            n == 0
        }
        &&& self.serves() ==> (r matches Err(e) ==> self.knows(name) && known is None && id_refused(
            self.store(),
            name,
            e,
        ))
    }

    /// Bytes one locker occupies in the store: its records and the chunks they
    /// point at, as stored. A name that is not registered occupies none.
    pub fn locker_bytes(&mut self, name: &str) -> (r: Result<u64>)
        ensures
            old(self).weighing_gives(name.spec_bytes(), r, *final(self)),
    {
        match self.ensure_open() {
            Ok(()) => {},
            Err(e) => return Err(e),
        }
        match self.locker_exists(name) {
            Ok(true) => {},
            Ok(false) => return Ok(0),
            Err(e) => return Err(e),
        }
        let id: u32 = match self.locker_id(name) {
            Ok(id) => id,
            Err(e) => return Err(e),
        };
        let inner = self.maintenance_inner(id, name);
        self.weigh(&inner)
    }

    /// Weigh every record of a locker and the chunks they point at.
    fn weigh(&self, inner: &Inner) -> (r: Result<u64>)
        ensures
            ({
                let rows = locker_rows(self.store().records, inner.id);
                &&& r matches Ok(n) ==> n == capped(full_weight(rows, self.store().chunks, listing(rows.dom())))
                &&& self.shared.backend.answers() ==> r is Ok
            }),
    {
        let ghost rows = locker_rows(self.store().records, inner.id);
        let ghost chunks = self.store().chunks;
        let keys = match inner.walk(&self.shared.backend, Bound::Unbounded, Bound::Unbounded, false) {
            Ok(keys) => keys,
            Err(e) => return Err(e),
        };
        let ghost all = views(keys@);
        proof {
            everything_is_within(rows);
            walking_reads_the_locker(
                self.store().records,
                inner.id,
                Span { start: Bound::Unbounded, end: Bound::Unbounded },
                false,
            );
        }
        let mut total: u64 = 0;
        let mut i: usize = 0;
        assert(all.take(0) =~= Seq::<Seq<u8>>::empty());
        while i < keys.len()
            invariant
                rows == locker_rows(self.store().records, inner.id),
                chunks == self.store().chunks,
                all == views(keys@),
                lists(all, rows.dom()),
                i <= keys@.len(),
                total == capped(full_weight(rows, chunks, all.take(i as int))),
            decreases keys.len() - i,
        {
            proof {
                assert(all.take(i + 1).drop_last() =~= all.take(i as int));
                assert(all.take(i + 1).last() == keys@[i as int]@);
                assert(all.contains(all[i as int]));
                assert(rows.dom().contains(keys@[i as int]@));
            }
            match inner.fetch(&self.shared.backend, keys[i].as_slice()) {
                Err(e) => return Err(e),
                Ok(None) => {},
                Ok(Some(raw)) => {
                    total = total.saturating_add(raw.len() as u64);
                    // A pointer that cannot be read counts as the inline
                    // record it is indistinguishable from here.
                    if let Ok(pointer) = ChunkPointer::parse(raw.as_slice()) {
                        match self.chunk_bytes(pointer.value_id) {
                            Ok(n) => {
                                total = total.saturating_add(n);
                            },
                            Err(e) => return Err(e),
                        }
                    }
                },
            }
            i += 1;
        }
        assert(all.take(keys@.len() as int) =~= all);
        Ok(total)
    }

    /// Bytes of every chunk of a value, as stored.
    fn chunk_bytes(&self, value_id: u64) -> (r: Result<u64>)
        ensures
            r matches Ok(n) ==> n == capped(chunk_weight(self.store().chunks, value_id)),
            self.shared.backend.answers() ==> r is Ok,
    {
        let ghost chunks = self.store().chunks;
        let keys = match all_keys(&self.shared.backend, Table::Chunks, chunk_range(value_id), false) {
            Ok(keys) => keys,
            Err(e) => return Err(e),
        };
        let ghost all = views(keys@);
        proof {
            crate::locker::lru::the_range_is_listed(chunks, Span::prefix(be64(value_id)));
        }
        let mut total: u64 = 0;
        let mut i: usize = 0;
        assert(all.take(0) =~= Seq::<Seq<u8>>::empty());
        while i < keys.len()
            invariant
                chunks == self.store().chunks,
                all == views(keys@),
                lists(all, keys_within(chunks, Span::prefix(be64(value_id)))),
                i <= keys@.len(),
                total == capped(weight_of(chunks, all.take(i as int))),
            decreases keys.len() - i,
        {
            proof {
                assert(all.take(i + 1).drop_last() =~= all.take(i as int));
                assert(all.take(i + 1).last() == keys@[i as int]@);
                assert(all.contains(all[i as int]));
                assert(keys_within(chunks, Span::prefix(be64(value_id))).contains(keys@[i as int]@));
            }
            match self.shared.backend.get(Table::Chunks, keys[i].as_slice()) {
                Err(e) => return Err(e),
                Ok(None) => {},
                Ok(Some(bytes)) => {
                    total = total.saturating_add(bytes.len() as u64);
                },
            }
            i += 1;
        }
        assert(all.take(keys@.len() as int) =~= all);
        Ok(total)
    }

    /// What asking which records of a locker cannot be read gives, each opened
    /// with the chain that the locker is bound to: their keys, in byte order. A
    /// name that is not registered has none. Refused where the locker's id
    /// cannot be read, and where it is bound to a chain that is not at hand.
    pub open spec fn survey_gives(self, name: Seq<u8>, r: Result<Vec<Vec<u8>>>, after: Self) -> bool {
        let known = named(self.store(), self.registry@, name);
        &&& after.same_bank(self)
        &&& after.store() == self.store()
        &&& self.closed ==> (r matches Err(e) && e is Closed) && after == self
        &&& !self.knows(name) ==> after == self && (r matches Ok(bad) ==> bad@.len() == 0)
        &&& self.knows(name) ==> (r matches Ok(bad) ==> (known matches Some((id, _)) && (self.chain_behind(
            id,
            name,
        ) matches Some(chain) && {
            let rows = locker_rows(self.store().records, id);
            let broken = unreadable(rows, self.store().chunks, &chain);
            &&& forall|k: Seq<u8>| #[trigger] broken.contains(k) ==> views(bad@).contains(k)
            &&& forall|i: int| 0 <= i < bad@.len() ==> rows.contains_key((#[trigger] bad@[i])@)
            &&& self.shared.backend.answers() ==> views(bad@) == listing(broken)
        })))
        &&& self.serves() ==> (r matches Err(e) ==> self.knows(name) && match known {
            None => id_refused(self.store(), name, e),
            Some((id, _)) => self.chain_behind(id, name) is None && chain_refused(self.store(), id, &self.chain, e),
        })
    }

    /// Read every record of a locker and say which could not be: their raw
    /// keys, in byte order. Nothing is changed.
    ///
    /// A locker with a chain of its own has to have been opened by this bank,
    /// for only then is the chain at hand.
    pub fn verify(&mut self, name: &str) -> (r: Result<Vec<Vec<u8>>>)
        ensures
            old(self).survey_gives(name.spec_bytes(), r, *final(self)),
    {
        match self.ensure_open() {
            Ok(()) => {},
            Err(e) => return Err(e),
        }
        match self.locker_exists(name) {
            Ok(true) => {},
            Ok(false) => return Ok(Vec::new()),
            Err(e) => return Err(e),
        }
        let id: u32 = match self.locker_id(name) {
            Ok(id) => id,
            Err(e) => return Err(e),
        };
        let chain = match self.find_chain(id, name) {
            Ok(chain) => chain,
            Err(e) => return Err(e),
        };
        let inner = Self::upkeep(chain, id, name);
        self.survey(&inner)
    }

    /// The keys of a locker whose records cannot be read.
    fn survey(&self, inner: &Inner) -> (r: Result<Vec<Vec<u8>>>)
        ensures
            ({
                let rows = locker_rows(self.store().records, inner.id);
                let broken = unreadable(rows, self.store().chunks, &inner.chain);
                &&& r matches Ok(bad) ==> {
                    &&& forall|k: Seq<u8>| #[trigger] broken.contains(k) ==> views(bad@).contains(k)
                    &&& forall|i: int| 0 <= i < bad@.len() ==> rows.contains_key((#[trigger] bad@[i])@)
                    &&& self.shared.backend.answers() ==> views(bad@) == listing(broken)
                }
                &&& self.shared.backend.answers() ==> r is Ok
            }),
    {
        let ghost rows = locker_rows(self.store().records, inner.id);
        let ghost chunks = self.store().chunks;
        let keys = match inner.walk(&self.shared.backend, Bound::Unbounded, Bound::Unbounded, false) {
            Ok(keys) => keys,
            Err(e) => return Err(e),
        };
        let ghost all = views(keys@);
        proof {
            everything_is_within(rows);
            walking_reads_the_locker(
                self.store().records,
                inner.id,
                Span { start: Bound::Unbounded, end: Bound::Unbounded },
                false,
            );
        }
        let mut bad: Vec<Vec<u8>> = Vec::new();
        let ghost mut from: Seq<int> = Seq::empty();
        let mut i: usize = 0;
        while i < keys.len()
            invariant
                rows == locker_rows(self.store().records, inner.id),
                chunks == self.store().chunks,
                all == views(keys@),
                lists(all, rows.dom()),
                i <= keys@.len(),
                from.len() == bad@.len(),
                forall|j: int| 0 <= j < from.len() ==> 0 <= #[trigger] from[j] < i && bad@[j]@ == all[from[j]],
                forall|j: int, k: int| 0 <= j < k < from.len() ==> #[trigger] from[j] < #[trigger] from[k],
                forall|j: int|
                    0 <= j < i && loaded(*inner.chain, chunks, rows[#[trigger] all[j]]) is None ==> from.contains(j),
                self.shared.backend.answers() ==> forall|j: int|
                    0 <= j < from.len() ==> loaded(*inner.chain, chunks, rows[all[#[trigger] from[j]]]) is None,
            decreases keys.len() - i,
        {
            let ghost key = all[i as int];
            proof {
                assert(all.contains(all[i as int]));
                assert(rows.dom().contains(key));
                assert(keys@[i as int]@ == key);
            }
            let fine: bool = match inner.fetch(&self.shared.backend, keys[i].as_slice()) {
                Err(e) => return Err(e),
                Ok(None) => false,
                Ok(Some(raw)) => match inner.load_payload(&self.shared.backend, raw.as_slice()) {
                    Ok(_) => true,
                    Err(_) => false,
                },
            };
            if !fine {
                bad.push(copy(keys[i].as_slice()));
                proof {
                    let was = from;
                    from = from.push(i as int);
                    assert(from[was.len() as int] == i);
                    assert forall|j: int|
                        0 <= j < i && loaded(*inner.chain, chunks, rows[#[trigger] all[j]]) is None implies from.contains(
                        j,
                    ) by {
                        let x = was.index_of(j);
                        assert(from[x] == j);
                    }
                }
            }
            i += 1;
        }
        proof {
            let found = views(bad@);
            let broken = unreadable(rows, chunks, &inner.chain);
            assert forall|j: int, k: int| 0 <= j < k < found.len() implies crate::bytes::before(
                #[trigger] found[j],
                #[trigger] found[k],
            ) by {
                assert(from[j] < from[k]);
                assert(crate::bytes::before(all[from[j]], all[from[k]]));
            }
            assert forall|k: Seq<u8>| #[trigger] broken.contains(k) implies found.contains(k) by {
                assert(rows.dom().contains(k));
                let x = all.index_of(k);
                assert(all[x] == k);
                let y = from.index_of(x);
                assert(from[y] == x);
                assert(found[y] == k);
            }
            assert forall|j: int| 0 <= j < bad@.len() implies rows.contains_key((#[trigger] bad@[j])@) by {
                assert(all.contains(all[from[j]]));
                assert(rows.dom().contains(all[from[j]]));
            }
            if self.shared.backend.answers() {
                assert forall|k: Seq<u8>| #[trigger] found.contains(k) implies broken.contains(k) by {
                    let y = found.index_of(k);
                    assert(all[from[y]] == k);
                    assert(all.contains(k));
                    assert(rows.dom().contains(k));
                }
                the_listing_is(found, broken);
            }
        }
        Ok(bad)
    }

    /// Refuse upkeep that would pull records from under an open handle.
    fn refuse_open(&self, name: &str, what: &str) -> (r: Result<()>)
        ensures
            r is Ok <==> !taken(self.shared.handles.seats(), name.spec_bytes()),
            r matches Err(e) ==> invalid_with(e, "locker "@ + quoted(name@) + what@),
    {
        if !self.is_locker_open(name) {
            return Ok(());
        }
        let head = two("locker ", quoted_text(name).as_str());
        Err(Error::InvalidConfig(two(head.as_str(), what)))
    }

    /// What removing some records by key gives: how many were there, and then
    /// none of them is left, nor any chunk they pointed at. Refused where the
    /// bank is closed, while the locker is open, and where its id cannot be
    /// read.
    pub open spec fn quarantine_gives(
        self,
        name: Seq<char>,
        keys: Seq<Seq<u8>>,
        r: Result<usize>,
        after: Self,
    ) -> bool {
        let key = encode_utf8(name);
        let known = named(self.store(), self.registry@, key);
        &&& after.same_bank(self)
        &&& self.closed ==> (r matches Err(e) && e is Closed) && after == self
        &&& !self.closed && taken(self.shared.handles.seats(), key) ==> (r matches Err(e) && invalid_with(
            e,
            "locker "@ + quoted(name) + " is still open; close it before quarantining records"@,
        )) && after == self
        &&& r is Err ==> after.store() == self.store()
        &&& r matches Ok(n) ==> if keys.len() == 0 || !self.knows(key) {
            n == 0 && after.store() == self.store()
        } else {
            known matches Some((id, _)) && {
                let rows = locker_rows(self.store().records, id);
                &&& n == present(rows, keys)
                &&& after.store() == self.store().after_all(removals(rows, id, keys))
            }
        }
        &&& self.serves() && !taken(self.shared.handles.seats(), key) ==> (r matches Err(e) ==> keys.len() > 0
            && self.knows(key) && known is None && id_refused(self.store(), key, e))
    }

    /// Remove some records, readable or not, with the chunks behind them, in
    /// one commit. Says how many were there. Refused while the locker is open.
    pub fn quarantine(&mut self, name: &str, keys: &Vec<Vec<u8>>) -> (r: Result<usize>)
        ensures
            old(self).quarantine_gives(name@, views(keys@), r, *final(self)),
    {
        match self.ensure_open() {
            Ok(()) => {},
            Err(e) => return Err(e),
        }
        match self.refuse_open(name, " is still open; close it before quarantining records") {
            Ok(()) => {},
            Err(e) => return Err(e),
        }
        if keys.len() == 0 {
            return Ok(0);
        }
        match self.locker_exists(name) {
            Ok(true) => {},
            Ok(false) => return Ok(0),
            Err(e) => return Err(e),
        }
        let ghost before = self.store();
        let id: u32 = match self.locker_id(name) {
            Ok(id) => id,
            Err(e) => return Err(e),
        };
        assert(self.store() == before);
        let inner = self.maintenance_inner(id, name);
        let (ops, removed) = match self.removal_ops(&inner, keys) {
            Ok(pair) => pair,
            Err(e) => return Err(e),
        };
        if ops.len() != 0 {
            proof {
                removing_spares_names(locker_rows(before.records, id), id, views(keys@));
            }
            match self.commit_rows(ops) {
                Ok(()) => {},
                Err(e) => return Err(e),
            }
        } else {
            assert(changes(ops@) =~= Seq::<Change>::empty());
        }
        Ok(removed)
    }

    /// The ops that remove some records, and how many there are.
    fn removal_ops(&self, inner: &Inner, keys: &Vec<Vec<u8>>) -> (r: Result<(Vec<Op>, usize)>)
        ensures
            ({
                let rows = locker_rows(self.store().records, inner.id);
                &&& r matches Ok((ops, n)) ==> changes(ops@) == removals(rows, inner.id, views(keys@)) && n == present(
                    rows,
                    views(keys@),
                )
                &&& self.shared.backend.answers() ==> r is Ok
            }),
    {
        let ghost rows = locker_rows(self.store().records, inner.id);
        let ghost all = views(keys@);
        let mut ops: Vec<Op> = Vec::new();
        let mut removed: usize = 0;
        let mut i: usize = 0;
        proof {
            assert(all.take(0) =~= Seq::<Seq<u8>>::empty());
            assert(changes(ops@) =~= removals(rows, inner.id, all.take(0)));
        }
        while i < keys.len()
            invariant
                rows == locker_rows(self.store().records, inner.id),
                all == views(keys@),
                i <= keys@.len(),
                removed <= i,
                removed == present(rows, all.take(i as int)),
                changes(ops@) == removals(rows, inner.id, all.take(i as int)),
            decreases keys.len() - i,
        {
            proof {
                assert(all.take(i + 1).drop_last() =~= all.take(i as int));
                assert(all.take(i + 1).last() == keys@[i as int]@);
            }
            match inner.fetch(&self.shared.backend, keys[i].as_slice()) {
                Err(e) => return Err(e),
                Ok(None) => {},
                Ok(Some(existing)) => {
                    // A pointer too broken to read still has its record
                    // removed; its chunks are unreachable either way.
                    if let Ok(pointer) = ChunkPointer::parse(existing.as_slice()) {
                        push_op(&mut ops, gc_ops(&pointer));
                    }
                    push_op(&mut ops, inner.delete_op(keys[i].as_slice()));
                    removed += 1;
                },
            }
            i += 1;
        }
        assert(all.take(keys@.len() as int) =~= all);
        Ok((ops, removed))
    }

    /// What erasing a locker gives: whether there was one, and then nothing of
    /// it is left. Refused while it is open, and where its id cannot be read.
    pub open spec fn erasing_gives(self, name: Seq<char>, r: Result<bool>, after: Self) -> bool {
        let key = encode_utf8(name);
        &&& self.wf() ==> after.wf()
        &&& self.shared.backend.answers() ==> after.shared.backend.answers()
        &&& after.chain == self.chain
        &&& after.chains == self.chains
        &&& after.closed == self.closed
        &&& after.shared.values == self.shared.values
        &&& after.shared.ticks == self.shared.ticks
        &&& after.shared.tabs == self.shared.tabs
        &&& after.shared.coherence == self.shared.coherence
        &&& after.shared.handles.seats() == self.shared.handles.seats()
        &&& after.shared.handles.upcoming() == self.shared.handles.upcoming()
        &&& self.closed ==> (r matches Err(e) && e is Closed) && after == self
        &&& !self.closed && taken(self.shared.handles.seats(), key) ==> (r matches Err(e) && invalid_with(
            e,
            "locker "@ + quoted(name) + " is still open; close it before deleting it"@,
        )) && after == self
        &&& r is Err ==> after.store() == self.store()
        &&& r matches Ok(gone) ==> gone == self.knows(key)
        &&& r == Ok::<bool, Error>(false) ==> after == self
        &&& r == Ok::<bool, Error>(true) ==> (named(self.store(), self.registry@, key) matches Some((id, store)) && {
            &&& after.store() == store.after_all(erasure(store.records, key, id))
            &&& after.registry@ == self.registry@.remove(key)
        })
        &&& self.serves() && !taken(self.shared.handles.seats(), key) ==> match r {
            Ok(_) => self.knows(key) ==> named(self.store(), self.registry@, key) is Some,
            Err(e) => self.knows(key) && named(self.store(), self.registry@, key) is None && id_refused(
                self.store(),
                key,
                e,
            ),
        }
    }

    /// Delete a locker and everything it stores, permanently. `false` if no
    /// locker is registered under the name. Refused while the locker is open.
    ///
    /// Records, the chunks they point at, the name and the schema tag all go
    /// in **one** commit. The locker's id is *not* recycled: recreating the
    /// same name allocates a fresh one.
    pub fn delete_locker(&mut self, name: &str) -> (r: Result<bool>)
        ensures
            old(self).erasing_gives(name@, r, *final(self)),
    {
        match self.ensure_open() {
            Ok(()) => {},
            Err(e) => return Err(e),
        }
        match self.refuse_open(name, " is still open; close it before deleting it") {
            Ok(()) => {},
            Err(e) => return Err(e),
        }
        match self.locker_exists(name) {
            Ok(true) => {},
            Ok(false) => return Ok(false),
            Err(e) => return Err(e),
        }
        let ghost before = self.store();
        let id: u32 = match self.locker_id(name) {
            Ok(id) => id,
            Err(e) => return Err(e),
        };
        assert(self.store() == before);
        let inner = self.maintenance_inner(id, name);
        let mut ops = match inner.clear_value_ops(&self.shared.backend) {
            Ok(ops) => ops,
            Err(e) => return Err(e),
        };
        push_op(&mut ops, Op::Delete { table: Table::Meta, key: locker_key_of(name) });
        push_op(&mut ops, Op::Delete { table: Table::Meta, key: schema_key_of(id) });
        match self.shared.backend.commit(ops) {
            Ok(()) => {},
            Err(e) => return Err(e),
        }
        let key = name_bytes(name);
        self.registry.remove(key.as_slice());
        self.shared.handles.forget(key.as_slice());
        proof {
            erasing_forgets_one_name(before, name.spec_bytes(), id);
            if old(self).wf() {
                assert forall|n: Seq<u8>| #[trigger] self.registry@.contains_key(n) implies number_at(
                    self.store(),
                    locker_key(n),
                ) == Some(self.registry@[n]) by {
                    assert(old(self).registry@.contains_key(n));
                }
            }
        }
        assert(self.registry@ =~= old(self).registry@.remove(name.spec_bytes()));
        Ok(true)
    }
}

/// Erasing a locker forgets its name and no other.
pub(crate) proof fn erasing_forgets_one_name(store: Store, name: Seq<u8>, id: LockerId)
    ensures
        forall|other: Seq<u8>|
            other != name ==> number_at(
                store.after_all(erasure(store.records, name, id)),
                #[trigger] locker_key(other),
            ) == number_at(store, locker_key(other)),
{
    let head = clears(store.records, id);
    let first = Change::Delete { table: Table::Meta, key: locker_key(name) };
    let second = Change::Delete { table: Table::Meta, key: schema_key(id) };
    clearing_spares_names(store.records, id);
    a_spared_table_stays(store, head, Table::Meta);
    after_all_pushes(store, head, first);
    after_all_pushes(store, head.push(first), second);
    assert forall|other: Seq<u8>| other != name implies number_at(
        store.after_all(erasure(store.records, name, id)),
        #[trigger] locker_key(other),
    ) == number_at(store, locker_key(other)) by {
        crate::bank::meta_keys_are_apart(other, id);
        let n = crate::meta::locker_prefix().len() as int;
        assert(locker_key(other).skip(n) =~= other);
        assert(locker_key(name).skip(n) =~= name);
    }
}

/// Clearing a locker reaches nothing that is remembered of names.
proof fn clearing_spares_names(records: Rows, id: LockerId)
    ensures
        spares(clears(records, id), Table::Meta),
{
    let rows = locker_rows(records, id);
    crate::locker::lazy_laws::gc_all_spares_records(rows, listing(rows.dom()));
}

/// What erasing a locker does: everything it stores, its name and its schema
/// tag. The counter its id came from stays.
pub open spec fn erasure(records: Rows, name: Seq<u8>, id: LockerId) -> Seq<Change> {
    clears(records, id).push(Change::Delete { table: Table::Meta, key: locker_key(name) }).push(
        Change::Delete { table: Table::Meta, key: schema_key(id) },
    )
}

} // verus!
