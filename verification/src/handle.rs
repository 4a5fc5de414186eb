//! The bytes-only view of a bank, and the requests it answers.
//!
//! Every operation of a handle held elsewhere becomes a [`Job`] carrying
//! **plain data only**; the bank's owner answers it with [`Bank::serve`].
//! Values still travel through the bank's filter chain, so they are checksummed
//! exactly like typed ones: a locker reached this way is precisely a locker of
//! `Vec<u8>`.

use std::ops::Bound;

use vstd::prelude::*;
use vstd::string::StringSliceAdditionalSpecFns;
use vstd::utf8::{encode_utf8, valid_utf8};

use crate::backend::api::{
    after_all_pushes, changes, option_view, push_op, keys_within, scan_keys, Backend, Change, KeyRange, Op, Span,
    Store, Table, Usage,
};
use crate::bank::{keeping_gives, unready, Bank, Keeping};
use crate::codec::value::{decode, encode, packed, Value};
use crate::codec::FilterChain;
use crate::error::{Error, Result};
use crate::key::{encode as encode_key, locker_range, stored, LockerId};
use crate::locker::eager::{decoded_as, decodes, undecoded};
use crate::locker::lazy_laws::table_of;
use crate::locker::inner::{
    everything_is_within, locker_rows, record_delete, record_put, records_clear, walking_reads_the_locker,
};
use crate::locker::listing::spelt;
use crate::locker::policy::share;
use crate::locker::resident::Resident;
use crate::meta::name_bytes;
use crate::sorted::views;

verus! {

/// Depth of the job queue before senders feel back-pressure.
pub const JOB_QUEUE: usize = 128;

/// One request to the bank's owner.
pub enum Job {
    Get { locker: String, key: String },
    Put { locker: String, key: String, value: Vec<u8> },
    Delete { locker: String, key: String },
    Keys { locker: String, prefix: String },
    Clear { locker: String },
    GetMany { locker: String, keys: Vec<String> },
    PutAll { locker: String, entries: Vec<(String, Vec<u8>)> },
    DeleteAll { locker: String, keys: Vec<String> },
    Entries { locker: String, prefix: String },
    ContainsKey { locker: String, key: String },
    Len { locker: String },
    LockerExists { name: String },
    LockerNames,
    DeleteLocker { name: String },
    FlushAll,
    /// `said` is what the platform said when it was asked to keep the data.
    Persist { said: Keeping },
    /// `said` is what the platform said when it was asked whether it keeps the
    /// data.
    IsPersisted { said: Keeping },
    ReportUsage,
}

/// The answer to a request.
pub enum Answer {
    Value(Result<Option<Vec<u8>>>),
    Done(Result<()>),
    Keys(Result<Vec<String>>),
    Values(Result<Vec<Option<Vec<u8>>>>),
    Entries(Result<Vec<(String, Vec<u8>)>>),
    Flag(Result<bool>),
    Count(Result<usize>),
    Usage(Result<Option<Usage>>),
}

/// `v` is the byte string a record holds.
pub open spec fn holds(chain: &FilterChain, record: Seq<u8>, v: Vec<u8>) -> bool {
    decoded_as::<Vec<u8>>(chain, record, packed(v@))
}

/// `found` is what a record, if there is one, holds.
pub open spec fn finds(chain: &FilterChain, record: Option<Seq<u8>>, found: Option<Vec<u8>>) -> bool {
    match (record, found) {
        (None, None) => true,
        (Some(record), Some(v)) => holds(chain, record, v),
        _ => false,
    }
}

/// A record, if there is one, can be read.
pub open spec fn legible(chain: &FilterChain, record: Option<Seq<u8>>) -> bool {
    record matches Some(record) ==> decodes::<Vec<u8>>(chain, record)
}

/// `e` is why the record of a key cannot be read.
pub open spec fn spoilt(chain: &FilterChain, store: Store, id: LockerId, key: Seq<u8>, e: Error) -> bool {
    store.lookup(Table::Records, stored(id, key)) matches Some(record) && undecoded(chain, record, e)
}

/// `list` stores entries under their keys, in order.
pub open spec fn puts(
    chain: &FilterChain,
    id: LockerId,
    entries: Seq<(String, Vec<u8>)>,
    list: Seq<Change>,
) -> bool {
    &&& list.len() == entries.len()
    &&& forall|i: int|
        0 <= i < entries.len() ==> ((#[trigger] list[i]) matches Change::Put { table, key, value } && table
            == Table::Records && key == stored(id, encode_utf8(entries[i].0@)) && chain.seals(
            packed(entries[i].1@),
            value,
        ))
}

/// A value was stored under a key, sealed.
pub open spec fn one_stored(
    chain: &FilterChain,
    id: LockerId,
    key: Seq<u8>,
    value: Seq<u8>,
    before: Store,
    after: Store,
) -> bool {
    exists|record: Seq<u8>| #[trigger]
        chain.seals(packed(value), record) && after == before.after(record_put(id, key, record))
}

/// Entries were stored, sealed, together.
pub open spec fn all_stored(
    chain: &FilterChain,
    id: LockerId,
    entries: Seq<(String, Vec<u8>)>,
    before: Store,
    after: Store,
) -> bool {
    exists|list: Seq<Change>| #[trigger] puts(chain, id, entries, list) && after == before.after_all(list)
}

/// What removing some keys does.
pub open spec fn deletes(id: LockerId, keys: Seq<String>) -> Seq<Change> {
    Seq::new(keys.len(), |i: int| record_delete(id, encode_utf8(keys[i]@)))
}

/// What requests for byte strings give: on a store that answers, a locker that
/// cannot be had is refused for the reason it cannot, and otherwise failure
/// comes only of bytes that cannot be read or sealed.
impl<B: Backend> Bank<B> {
    /// `r` fails where the bank is closed, and as getting the locker ready does.
    pub open spec fn raw_refused<T>(self, locker: Seq<u8>, r: Result<T>, after: Self) -> bool {
        &&& self.closed ==> (r matches Err(e) && e is Closed) && after == self
        &&& self.serves() && self.raw_ready(locker) is None ==> (r matches Err(e) && unready(
            self.store(),
            self.registry@,
            locker,
            <Vec<u8> as Value>::label(),
            &self.chain,
            e,
        ))
    }

    /// What reading a value gives.
    pub open spec fn raw_get_gives(self, locker: Seq<u8>, key: Seq<u8>, r: Result<Option<Vec<u8>>>, after: Self) -> bool {
        &&& self.only_readied(after)
        &&& self.raw_refused(locker, r, after)
        &&& r matches Ok(found) ==> (self.raw_ready(locker) matches Some((id, store)) && after.store() == store && finds(
            &self.chain,
            store.lookup(Table::Records, stored(id, key)),
            found,
        ))
        &&& self.serves() && (self.raw_ready(locker) matches Some((id, store)) && legible(
            &self.chain,
            store.lookup(Table::Records, stored(id, key)),
        )) ==> r is Ok
        &&& self.serves() ==> (self.raw_ready(locker) matches Some((id, store)) ==> (r matches Err(e)
            ==> spoilt(&self.chain, store, id, key, e)))
    }

    /// What storing a value gives.
    pub open spec fn raw_put_gives(self, locker: Seq<u8>, key: Seq<u8>, value: Seq<u8>, r: Result<()>, after: Self) -> bool {
        &&& after.same_bank(self)
        &&& self.raw_refused(locker, r, after)
        &&& r is Ok ==> (self.raw_ready(locker) matches Some((id, store)) && one_stored(
            &self.chain,
            id,
            key,
            value,
            store,
            after.store(),
        ))
        &&& r is Err ==> self.only_readied(after)
        &&& self.serves() && self.raw_ready(locker) is Some && self.chain.takes(packed(value)) ==> r is Ok
        &&& self.serves() && self.raw_ready(locker) is Some ==> (r matches Err(e)
            ==> self.chain.declines(packed(value), e))
    }

    /// What removing a key gives.
    pub open spec fn raw_delete_gives(self, locker: Seq<u8>, key: Seq<u8>, r: Result<()>, after: Self) -> bool {
        &&& after.same_bank(self)
        &&& self.raw_refused(locker, r, after)
        &&& r is Ok ==> (self.raw_ready(locker) matches Some((id, store)) && after.store() == store.after(
            record_delete(id, key),
        ))
        &&& r is Err ==> self.only_readied(after)
        &&& self.serves() && self.raw_ready(locker) is Some ==> r is Ok
    }

    /// What emptying a locker gives.
    pub open spec fn raw_clear_gives(self, locker: Seq<u8>, r: Result<()>, after: Self) -> bool {
        &&& after.same_bank(self)
        &&& self.raw_refused(locker, r, after)
        &&& r is Ok ==> (self.raw_ready(locker) matches Some((id, store)) && after.store() == store.after(
            records_clear(id),
        ))
        &&& r is Err ==> self.only_readied(after)
        &&& self.serves() && self.raw_ready(locker) is Some ==> r is Ok
    }

    /// What listing keys gives.
    pub open spec fn raw_keys_gives(self, locker: Seq<u8>, prefix: Seq<u8>, r: Result<Vec<String>>, after: Self) -> bool {
        &&& self.only_readied(after)
        &&& self.raw_refused(locker, r, after)
        &&& r matches Ok(keys) ==> (self.raw_ready(locker) matches Some((id, store)) && after.store() == store && spelt(
            keys@,
        ) == scan_keys(locker_rows(store.records, id), Span::prefix(prefix), false))
        &&& self.serves() ==> (self.raw_ready(locker) matches Some((id, store)) ==> {
            let keys = scan_keys(locker_rows(store.records, id), Span::prefix(prefix), false);
            &&& r is Ok <==> all_text(keys)
            &&& r matches Err(e) ==> e is Corrupt
        })
    }

    /// What reading many keys gives.
    pub open spec fn raw_get_many_gives(
        self,
        locker: Seq<u8>,
        keys: Seq<String>,
        r: Result<Vec<Option<Vec<u8>>>>,
        after: Self,
    ) -> bool {
        &&& self.only_readied(after)
        &&& self.raw_refused(locker, r, after)
        &&& r matches Ok(found) ==> (self.raw_ready(locker) matches Some((id, store)) && after.store() == store
            && found@.len() == keys.len() && forall|i: int|
            0 <= i < keys.len() ==> finds(
                &self.chain,
                store.lookup(Table::Records, stored(id, encode_utf8(keys[i]@))),
                #[trigger] found@[i],
            ))
        &&& self.serves() && (self.raw_ready(locker) matches Some((id, store)) && forall|i: int|
            0 <= i < keys.len() ==> legible(
                &self.chain,
                store.lookup(Table::Records, stored(id, encode_utf8((#[trigger] keys[i])@))),
            )) ==> r is Ok
        &&& self.serves() ==> (self.raw_ready(locker) matches Some((id, store)) ==> (r matches Err(e)
            ==> exists|i: int|
            0 <= i < keys.len() && #[trigger] spoilt(&self.chain, store, id, encode_utf8(keys[i]@), e)))
    }

    /// What storing many entries gives.
    pub open spec fn raw_put_all_gives(
        self,
        locker: Seq<u8>,
        entries: Seq<(String, Vec<u8>)>,
        r: Result<()>,
        after: Self,
    ) -> bool {
        &&& after.same_bank(self)
        &&& self.closed ==> (r matches Err(e) && e is Closed) && after == self
        &&& !self.closed && entries.len() == 0 ==> r is Ok && after == self
        &&& entries.len() > 0 ==> {
            &&& self.raw_refused(locker, r, after)
            &&& r is Ok ==> (self.raw_ready(locker) matches Some((id, store)) && all_stored(
                &self.chain,
                id,
                entries,
                store,
                after.store(),
            ))
            &&& r is Err ==> self.only_readied(after)
            &&& self.serves() && self.raw_ready(locker) is Some && (forall|i: int|
                0 <= i < entries.len() ==> self.chain.takes(packed((#[trigger] entries[i]).1@))) ==> r is Ok
            &&& self.serves() && self.raw_ready(locker) is Some ==> (r matches Err(e) ==> exists|i: int|
                0 <= i < entries.len() && #[trigger] self.chain.declines(packed(entries[i].1@), e))
        }
    }

    /// What removing many keys gives.
    pub open spec fn raw_delete_all_gives(self, locker: Seq<u8>, keys: Seq<String>, r: Result<()>, after: Self) -> bool {
        &&& after.same_bank(self)
        &&& self.closed ==> (r matches Err(e) && e is Closed) && after == self
        &&& !self.closed && keys.len() == 0 ==> r is Ok && after == self
        &&& keys.len() > 0 ==> {
            &&& self.raw_refused(locker, r, after)
            &&& r is Ok ==> (self.raw_ready(locker) matches Some((id, store)) && after.store() == store.after_all(
                deletes(id, keys),
            ))
            &&& r is Err ==> self.only_readied(after)
            &&& self.serves() && self.raw_ready(locker) is Some ==> r is Ok
        }
    }

    /// What listing entries gives.
    pub open spec fn raw_entries_gives(
        self,
        locker: Seq<u8>,
        prefix: Seq<u8>,
        r: Result<Vec<(String, Vec<u8>)>>,
        after: Self,
    ) -> bool {
        &&& self.only_readied(after)
        &&& self.raw_refused(locker, r, after)
        &&& r matches Ok(out) ==> (self.raw_ready(locker) matches Some((id, store)) && after.store() == store && {
            let rows = locker_rows(store.records, id);
            let keys = scan_keys(rows, Span::prefix(prefix), false);
            &&& out@.len() == keys.len()
            &&& forall|i: int|
                0 <= i < keys.len() ==> encode_utf8((#[trigger] out@[i]).0@) == keys[i] && holds(
                    &self.chain,
                    rows[keys[i]],
                    out@[i].1,
                )
        })
        &&& self.serves() && (self.raw_ready(locker) matches Some((id, store)) && {
            let rows = locker_rows(store.records, id);
            let keys = scan_keys(rows, Span::prefix(prefix), false);
            &&& all_text(keys)
            &&& forall|i: int| 0 <= i < keys.len() ==> decodes::<Vec<u8>>(&self.chain, rows[#[trigger] keys[i]])
        }) ==> r is Ok
        &&& self.serves() ==> (self.raw_ready(locker) matches Some((id, store)) ==> (r matches Err(e)
            ==> {
            let keys = scan_keys(locker_rows(store.records, id), Span::prefix(prefix), false);
            if all_text(keys) {
                exists|i: int| 0 <= i < keys.len() && #[trigger] spoilt(&self.chain, store, id, keys[i], e)
            } else {
                e is Corrupt
            }
        }))
    }

    /// What asking for a key gives.
    pub open spec fn raw_contains_key_gives(self, locker: Seq<u8>, key: Seq<u8>, r: Result<bool>, after: Self) -> bool {
        &&& self.only_readied(after)
        &&& self.raw_refused(locker, r, after)
        &&& r matches Ok(b) ==> (self.raw_ready(locker) matches Some((id, store)) && after.store() == store && b
            == locker_rows(store.records, id).contains_key(key))
        &&& self.serves() && self.raw_ready(locker) is Some ==> r is Ok
    }

    /// What counting the keys gives.
    pub open spec fn raw_len_gives(self, locker: Seq<u8>, r: Result<usize>, after: Self) -> bool {
        &&& self.only_readied(after)
        &&& self.raw_refused(locker, r, after)
        &&& r matches Ok(n) ==> (self.raw_ready(locker) matches Some((id, store)) && after.store() == store && n
            == locker_rows(store.records, id).dom().len())
        &&& self.serves() && self.raw_ready(locker) is Some ==> r is Ok
    }
}

impl<B: Backend> Bank<B> {
    /// The id of a locker of bytes and the store once it is ready; `None`
    /// where the name is taken by another type or chain.
    pub open spec fn raw_ready(self, locker: Seq<u8>) -> Option<(LockerId, Store)> {
        self.ready::<Vec<u8>>(locker, &self.chain)
    }

    /// Whether `after` is this bank with nothing stored but what readying a
    /// locker records.
    pub open spec fn only_readied(self, after: Self) -> bool {
        &&& after.same_bank(self)
        &&& after.store().records == self.store().records
        &&& after.store().chunks == self.store().chunks
    }

    fn raw_locker(&mut self, locker: &str) -> (r: Result<LockerId>)
        ensures
            old(self).only_readied(*final(self)),
            r matches Ok(id) ==> old(self).raw_ready(locker.spec_bytes()) == Some((id, final(self).store())),
            old(self).raw_refused(locker.spec_bytes(), r, *final(self)),
            old(self).serves() && old(self).raw_ready(locker.spec_bytes()) is Some ==> r is Ok,
    {
        let chain = share(&self.chain);
        self.prepare::<Vec<u8>>(locker, &chain)
    }

    /// Read a value.
    pub fn raw_get(&mut self, locker: &str, key: &str) -> (r: Result<Option<Vec<u8>>>)
        ensures
            old(self).raw_get_gives(locker.spec_bytes(), key.spec_bytes(), r, *final(self)),
    {
        let id: u32 = match self.raw_locker(locker) {
            Ok(id) => id,
            Err(e) => return Err(e),
        };
        let encoded = encode_key(id, key);
        match self.shared.backend.get(Table::Records, encoded.as_slice()) {
            Ok(Some(stored)) => match decode::<Vec<u8>>(stored.as_slice(), &self.chain) {
                Ok(v) => Ok(Some(v)),
                Err(e) => Err(e),
            },
            Ok(None) => Ok(None),
            Err(e) => Err(e),
        }
    }

    /// Commit one change to a locker of bytes.
    fn raw_commit(&mut self, op: Op) -> (r: Result<()>)
        requires
            table_of(op@) != Table::Meta,
        ensures
            final(self).same_bank(*old(self)),
            final(self).registry == old(self).registry,
            r is Ok ==> final(self).store() == old(self).store().after(op@),
            r is Err ==> final(self).store() == old(self).store(),
            old(self).shared.backend.answers() ==> r is Ok,
    {
        let mut ops: Vec<Op> = Vec::new();
        assert(changes(ops@) =~= Seq::<Change>::empty());
        push_op(&mut ops, op);
        proof {
            after_all_pushes(self.store(), Seq::empty(), op@);
            assert(changes(ops@) =~= Seq::<Change>::empty().push(op@));
            assert(self.store().after_all(Seq::<Change>::empty()) == self.store());
        }
        self.commit_rows(ops)
    }

    /// Write a value. Stored whole, whatever its size.
    pub fn raw_put(&mut self, locker: &str, key: &str, value: Vec<u8>) -> (r: Result<()>)
        ensures
            old(self).raw_put_gives(locker.spec_bytes(), key.spec_bytes(), value@, r, *final(self)),
    {
        let id: u32 = match self.raw_locker(locker) {
            Ok(id) => id,
            Err(e) => return Err(e),
        };
        let sealed = match encode(&value, &self.chain) {
            Ok(sealed) => sealed,
            Err(e) => return Err(e),
        };
        let ghost record = sealed@;
        let ghost store = self.store();
        let op = Op::Put { table: Table::Records, key: encode_key(id, key), value: sealed };
        proof {
            assert(value.payload() == packed(value@));
            assert(op@ == record_put(id, key.spec_bytes(), record));
        }
        let r = self.raw_commit(op);
        proof {
            if r is Ok {
                assert(old(self).chain.seals(packed(value@), record));
                assert(one_stored(&old(self).chain, id, key.spec_bytes(), value@, store, self.store()));
            }
        }
        r
    }

    /// Remove a key. Removing an absent key is not an error.
    pub fn raw_delete(&mut self, locker: &str, key: &str) -> (r: Result<()>)
        ensures
            old(self).raw_delete_gives(locker.spec_bytes(), key.spec_bytes(), r, *final(self)),
    {
        let id: u32 = match self.raw_locker(locker) {
            Ok(id) => id,
            Err(e) => return Err(e),
        };
        self.raw_commit(Op::Delete { table: Table::Records, key: encode_key(id, key) })
    }

    /// Remove everything in one locker.
    pub fn raw_clear(&mut self, locker: &str) -> (r: Result<()>)
        ensures
            old(self).raw_clear_gives(locker.spec_bytes(), r, *final(self)),
    {
        let id: u32 = match self.raw_locker(locker) {
            Ok(id) => id,
            Err(e) => return Err(e),
        };
        self.raw_commit(Op::DeleteRange { table: Table::Records, range: locker_range(id) })
    }

    /// List keys beginning with `prefix`, in byte order. A key that is not
    /// valid UTF-8 is refused rather than skipped.
    pub fn raw_keys(&mut self, locker: &str, prefix: &str) -> (r: Result<Vec<String>>)
        ensures
            old(self).raw_keys_gives(locker.spec_bytes(), prefix.spec_bytes(), r, *final(self)),
    {
        let id: u32 = match self.raw_locker(locker) {
            Ok(id) => id,
            Err(e) => return Err(e),
        };
        self.keys_under(id, locker, prefix)
    }

    /// The keys of a locker beginning with `prefix`, as text.
    fn keys_under(&self, id: LockerId, locker: &str, prefix: &str) -> (r: Result<Vec<String>>)
        ensures
            ({
                let keys = scan_keys(locker_rows(self.store().records, id), Span::prefix(prefix.spec_bytes()), false);
                &&& r matches Ok(out) ==> spelt(out@) == keys && forall|i: int|
                    0 <= i < keys.len() ==> locker_rows(self.store().records, id).contains_key(#[trigger] keys[i])
                &&& self.shared.backend.answers() ==> (r is Ok <==> all_text(keys)) && (r matches Err(e) ==> e is Corrupt)
            }),
    {
        let inner = self.maintenance_inner(id, locker);
        let prefix_bytes = name_bytes(prefix);
        let range = KeyRange::prefix(prefix_bytes.as_slice());
        let start: Bound<&[u8]> = borrowed(&range.start);
        let end: Bound<&[u8]> = borrowed(&range.end);
        let ghost all = scan_keys(locker_rows(self.store().records, id), Span::prefix(prefix.spec_bytes()), false);
        let keys = match inner.walk(&self.shared.backend, start, end, false) {
            Ok(keys) => keys,
            Err(e) => return Err(e),
        };
        assert(crate::key::user_span(start, end) == range@);
        let mut out: Vec<String> = Vec::new();
        let mut i: usize = 0;
        assert(spelt(out@) =~= all.take(0));
        while i < keys.len()
            invariant
                all == views(keys@),
                all == scan_keys(
                    locker_rows(self.store().records, id),
                    Span::prefix(prefix.spec_bytes()),
                    false,
                ),
                i <= keys@.len(),
                spelt(out@) == all.take(i as int),
                forall|j: int| 0 <= j < i ==> valid_utf8(#[trigger] all[j]),
            decreases keys.len() - i,
        {
            let ghost was = out@;
            assert(all[i as int] == keys@[i as int]@);
            match core::str::from_utf8(keys[i].as_slice()) {
                Ok(text) => {
                    out.push(String::from_str(text));
                    assert(spelt(out@) =~= spelt(was).push(all[i as int]));
                    assert(all.take(i + 1) =~= all.take(i as int).push(all[i as int]));
                },
                Err(e) => {
                    assert(!valid_utf8(all[i as int]));
                    return Err(
                        Error::Corrupt(
                            crate::text::two("stored key is not UTF-8: ", crate::utf8::complaint(&e).as_str()),
                        ),
                    );
                },
            }
            i += 1;
        }
        assert(all.take(keys@.len() as int) =~= all);
        proof {
            let rows = locker_rows(self.store().records, id);
            walking_reads_the_locker(self.store().records, id, Span::prefix(prefix.spec_bytes()), false);
            assert forall|j: int| 0 <= j < all.len() implies rows.contains_key(#[trigger] all[j]) by {
                assert(all.contains(all[j]));
                assert(keys_within(rows, Span::prefix(prefix.spec_bytes())).contains(all[j]));
            }
        }
        Ok(out)
    }

    /// Read many keys in **one** backend round trip. The answers are
    /// positional: slot `i` belongs to `keys[i]`, and `None` there means that
    /// key is absent.
    pub fn raw_get_many(&mut self, locker: &str, keys: Vec<String>) -> (r: Result<Vec<Option<Vec<u8>>>>)
        ensures
            old(self).raw_get_many_gives(locker.spec_bytes(), keys@, r, *final(self)),
    {
        let id: u32 = match self.raw_locker(locker) {
            Ok(id) => id,
            Err(e) => return Err(e),
        };
        self.get_each(id, &keys)
    }

    /// Read the records of some keys in one round trip, and decode each.
    fn get_each(&self, id: LockerId, keys: &Vec<String>) -> (r: Result<Vec<Option<Vec<u8>>>>)
        ensures
            r matches Ok(found) ==> found@.len() == keys@.len() && forall|i: int|
                0 <= i < keys@.len() ==> finds(
                    &self.chain,
                    self.store().lookup(Table::Records, stored(id, encode_utf8(keys@[i]@))),
                    #[trigger] found@[i],
                ),
            self.shared.backend.answers() && (forall|i: int|
                0 <= i < keys@.len() ==> legible(
                    &self.chain,
                    self.store().lookup(Table::Records, stored(id, encode_utf8((#[trigger] keys@[i])@))),
                )) ==> r is Ok,
            self.shared.backend.answers() ==> (r matches Err(e) ==> exists|i: int|
                0 <= i < keys@.len() && #[trigger] spoilt(&self.chain, self.store(), id, encode_utf8(keys@[i]@), e)),
    {
        let encoded = encode_all(id, keys);
        let ghost asked = views(encoded@);
        let records = match self.shared.backend.get_many(Table::Records, encoded) {
            Ok(records) => records,
            Err(e) => return Err(e),
        };
        let mut out: Vec<Option<Vec<u8>>> = Vec::new();
        let mut i: usize = 0;
        while i < records.len()
            invariant
                records@.len() == keys@.len(),
                asked.len() == keys@.len(),
                forall|j: int| 0 <= j < asked.len() ==> #[trigger] asked[j] == stored(id, encode_utf8(keys@[j]@)),
                forall|j: int|
                    0 <= j < asked.len() ==> option_view(#[trigger] records@[j]) == self.store().lookup(
                        Table::Records,
                        asked[j],
                    ),
                i <= records@.len(),
                out@.len() == i,
                forall|j: int|
                    0 <= j < i ==> finds(
                        &self.chain,
                        self.store().lookup(Table::Records, stored(id, encode_utf8(keys@[j]@))),
                        #[trigger] out@[j],
                    ),
            decreases records.len() - i,
        {
            assert(option_view(records@[i as int]) == self.store().lookup(Table::Records, asked[i as int]));
            match &records[i] {
                None => out.push(None),
                Some(record) => match decode::<Vec<u8>>(record.as_slice(), &self.chain) {
                    Ok(v) => out.push(Some(v)),
                    Err(e) => {
                        assert(!decodes::<Vec<u8>>(&self.chain, record@));
                        assert(!legible(
                            &self.chain,
                            self.store().lookup(Table::Records, stored(id, encode_utf8(keys@[i as int]@))),
                        ));
                        assert(spoilt(&self.chain, self.store(), id, encode_utf8(keys@[i as int]@), e));
                        return Err(e);
                    },
                },
            }
            i += 1;
        }
        Ok(out)
    }

    /// Write many entries in **one** atomic commit. An empty list never
    /// reaches the backend at all.
    pub fn raw_put_all(&mut self, locker: &str, entries: Vec<(String, Vec<u8>)>) -> (r: Result<()>)
        ensures
            old(self).raw_put_all_gives(locker.spec_bytes(), entries@, r, *final(self)),
    {
        match self.ensure_open() {
            Ok(()) => {},
            Err(e) => return Err(e),
        }
        if entries.len() == 0 {
            return Ok(());
        }
        let id: u32 = match self.raw_locker(locker) {
            Ok(id) => id,
            Err(e) => return Err(e),
        };
        let ops = match self.put_ops(id, &entries) {
            Ok(ops) => ops,
            Err(e) => return Err(e),
        };
        let ghost list = changes(ops@);
        let ghost store = self.store();
        assert(puts(&old(self).chain, id, entries@, list));
        let r = self.commit_rows(ops);
        assert(r is Ok ==> all_stored(&old(self).chain, id, entries@, store, self.store()));
        r
    }

    /// The ops that store some entries.
    fn put_ops(&self, id: LockerId, entries: &Vec<(String, Vec<u8>)>) -> (r: Result<Vec<Op>>)
        ensures
            r matches Ok(ops) ==> puts(&self.chain, id, entries@, changes(ops@)),
            (forall|i: int| 0 <= i < entries@.len() ==> self.chain.takes(packed((#[trigger] entries@[i]).1@)))
                ==> r is Ok,
            r matches Err(e) ==> exists|i: int|
                0 <= i < entries@.len() && #[trigger] self.chain.declines(packed(entries@[i].1@), e),
    {
        let mut ops: Vec<Op> = Vec::new();
        let mut i: usize = 0;
        assert(changes(ops@) =~= Seq::<Change>::empty());
        while i < entries.len()
            invariant
                i <= entries@.len(),
                changes(ops@).len() == i,
                forall|j: int|
                    0 <= j < i ==> ((#[trigger] changes(ops@)[j]) matches Change::Put { table, key, value } && table
                        == Table::Records && key == stored(id, encode_utf8(entries@[j].0@)) && self.chain.seals(
                        packed(entries@[j].1@),
                        value,
                    )),
            decreases entries.len() - i,
        {
            let ghost was = changes(ops@);
            assert(entries@[i as int].1.packs());
            let sealed = match encode(&entries[i].1, &self.chain) {
                Ok(sealed) => sealed,
                Err(e) => {
                    assert(self.chain.declines(packed(entries@[i as int].1@), e));
                    return Err(e);
                },
            };
            push_op(
                &mut ops,
                Op::Put { table: Table::Records, key: encode_key(id, entries[i].0.as_str()), value: sealed },
            );
            assert forall|j: int| 0 <= j < i + 1 implies ((#[trigger] changes(ops@)[j]) matches Change::Put {
                table,
                key,
                value,
            } && table == Table::Records && key == stored(id, encode_utf8(entries@[j].0@)) && self.chain.seals(
                packed(entries@[j].1@),
                value,
            )) by {
                if j < i {
                    assert(changes(ops@)[j] == was[j]);
                }
            }
            i += 1;
        }
        Ok(ops)
    }

    /// Remove many keys in **one** atomic commit. An empty list never reaches
    /// the backend.
    pub fn raw_delete_all(&mut self, locker: &str, keys: Vec<String>) -> (r: Result<()>)
        ensures
            old(self).raw_delete_all_gives(locker.spec_bytes(), keys@, r, *final(self)),
    {
        match self.ensure_open() {
            Ok(()) => {},
            Err(e) => return Err(e),
        }
        if keys.len() == 0 {
            return Ok(());
        }
        let id: u32 = match self.raw_locker(locker) {
            Ok(id) => id,
            Err(e) => return Err(e),
        };
        let ops = delete_ops(id, &keys);
        self.commit_rows(ops)
    }

    /// Every key and value beginning with `prefix`, in byte order.
    pub fn raw_entries(&mut self, locker: &str, prefix: &str) -> (r: Result<Vec<(String, Vec<u8>)>>)
        ensures
            old(self).raw_entries_gives(locker.spec_bytes(), prefix.spec_bytes(), r, *final(self)),
    {
        let id: u32 = match self.raw_locker(locker) {
            Ok(id) => id,
            Err(e) => return Err(e),
        };
        let keys = match self.keys_under(id, locker, prefix) {
            Ok(keys) => keys,
            Err(e) => return Err(e),
        };
        proof {
            let rows = locker_rows(self.store().records, id);
            let all = scan_keys(rows, Span::prefix(prefix.spec_bytes()), false);
            assert forall|i: int| 0 <= i < keys@.len() implies self.store().lookup(
                Table::Records,
                stored(id, encode_utf8((#[trigger] keys@[i])@)),
            ) == Some(rows[all[i]]) by {
                assert(spelt(keys@)[i] == all[i]);
                assert(rows.contains_key(all[i]));
            }
        }
        let found = match self.get_each(id, &keys) {
            Ok(found) => found,
            Err(e) => return Err(e),
        };
        proof {
            let rows = locker_rows(self.store().records, id);
            let all = scan_keys(rows, Span::prefix(prefix.spec_bytes()), false);
            assert forall|i: int| 0 <= i < found@.len() implies (#[trigger] found@[i]) is Some by {
                assert(self.store().lookup(Table::Records, stored(id, encode_utf8(keys@[i]@))) == Some(rows[all[i]]));
            }
        }
        zipped(keys, found)
    }

    /// Whether a key is stored. The value is never decoded.
    pub fn raw_contains_key(&mut self, locker: &str, key: &str) -> (r: Result<bool>)
        ensures
            old(self).raw_contains_key_gives(locker.spec_bytes(), key.spec_bytes(), r, *final(self)),
    {
        let id: u32 = match self.raw_locker(locker) {
            Ok(id) => id,
            Err(e) => return Err(e),
        };
        match self.shared.backend.get(Table::Records, encode_key(id, key).as_slice()) {
            Ok(found) => Ok(found.is_some()),
            Err(e) => Err(e),
        }
    }

    /// How many records a locker holds.
    pub fn raw_len(&mut self, locker: &str) -> (r: Result<usize>)
        ensures
            old(self).raw_len_gives(locker.spec_bytes(), r, *final(self)),
    {
        let id: u32 = match self.raw_locker(locker) {
            Ok(id) => id,
            Err(e) => return Err(e),
        };
        let inner = self.maintenance_inner(id, locker);
        match inner.walk(&self.shared.backend, Bound::Unbounded, Bound::Unbounded, false) {
            Ok(keys) => {
                proof {
                    let rows = locker_rows(self.store().records, id);
                    let span = Span { start: Bound::Unbounded, end: Bound::Unbounded };
                    everything_is_within(rows);
                    walking_reads_the_locker(self.store().records, id, span, false);
                    crate::sorted::the_listing_is(views(keys@), rows.dom());
                }
                Ok(keys.len())
            },
            Err(e) => Err(e),
        }
    }

    /// Answer one request. `open` are the lockers that are open beside it: a
    /// flush reaches every one of them, and nothing else touches them.
    pub fn serve(&mut self, job: Job, open: Vec<&mut Resident>) -> (answer: Answer)
        requires
            forall|i: int| 0 <= i < open@.len() ==> (*#[trigger] open@[i]).can_flush(),
        ensures
            answers_job(
                *old(self),
                Seq::new(open@.len(), |i: int| *open@[i]),
                job,
                answer,
                Seq::new(open@.len(), |i: int| *final(open@[i])),
                *final(self),
            ),
    {
        if let Job::FlushAll = &job {
            return Answer::Done(self.flush_all(open));
        }
        proof {
            assert(has_resolved(open));
            assert forall|i: int| 0 <= i < open@.len() implies *(#[trigger] open@[i]) == *final(open@[i]) by {
                assert(has_resolved(open@[i]));
            }
            assert(Seq::new(open@.len(), |i: int| *open@[i]) =~= Seq::new(open@.len(), |i: int| *final(open@[i])));
        }
        self.serve_alone(job)
    }

    /// Answer one request where no locker is open.
    pub fn serve_alone(&mut self, job: Job) -> (answer: Answer)
        ensures
            answers_job(*old(self), Seq::empty(), job, answer, Seq::empty(), *final(self)),
    {
        match job {
            Job::Get { locker, key } => Answer::Value(self.raw_get(locker.as_str(), key.as_str())),
            Job::Put { locker, key, value } => Answer::Done(self.raw_put(locker.as_str(), key.as_str(), value)),
            Job::Delete { locker, key } => Answer::Done(self.raw_delete(locker.as_str(), key.as_str())),
            Job::Keys { locker, prefix } => Answer::Keys(self.raw_keys(locker.as_str(), prefix.as_str())),
            Job::Clear { locker } => Answer::Done(self.raw_clear(locker.as_str())),
            Job::GetMany { locker, keys } => Answer::Values(self.raw_get_many(locker.as_str(), keys)),
            Job::PutAll { locker, entries } => Answer::Done(self.raw_put_all(locker.as_str(), entries)),
            Job::DeleteAll { locker, keys } => Answer::Done(self.raw_delete_all(locker.as_str(), keys)),
            Job::Entries { locker, prefix } => Answer::Entries(self.raw_entries(locker.as_str(), prefix.as_str())),
            Job::ContainsKey { locker, key } => Answer::Flag(
                self.raw_contains_key(locker.as_str(), key.as_str()),
            ),
            Job::Len { locker } => Answer::Count(self.raw_len(locker.as_str())),
            Job::LockerExists { name } => Answer::Flag(self.locker_exists(name.as_str())),
            Job::LockerNames => Answer::Keys(self.locker_names()),
            Job::DeleteLocker { name } => Answer::Flag(self.delete_locker(name.as_str())),
            Job::FlushAll => {
                let none: Vec<&mut Resident> = Vec::new();
                assert(Seq::new(none@.len(), |i: int| *none@[i]) =~= Seq::<Resident>::empty());
                assert(Seq::new(none@.len(), |i: int| *final(none@[i])) =~= Seq::<Resident>::empty());
                Answer::Done(self.flush_all(none))
            },
            Job::Persist { said } => Answer::Flag(self.persist(said)),
            Job::IsPersisted { said } => Answer::Flag(self.is_persisted(said)),
            Job::ReportUsage => Answer::Usage(self.usage()),
        }
    }
}

/// Every key can be spelt as text.
pub open spec fn all_text(keys: Seq<Seq<u8>>) -> bool {
    forall|i: int| 0 <= i < keys.len() ==> valid_utf8(#[trigger] keys[i])
}

/// A bound, borrowed.
fn borrowed<'a>(b: &'a Bound<Vec<u8>>) -> (r: Bound<&'a [u8]>)
    ensures
        crate::key::slice_bound(r) == crate::backend::api::bound_view(*b),
{
    match b {
        Bound::Unbounded => Bound::Unbounded,
        Bound::Included(k) => Bound::Included(k.as_slice()),
        Bound::Excluded(k) => Bound::Excluded(k.as_slice()),
    }
}

/// The stored forms of some keys.
fn encode_all(id: LockerId, keys: &Vec<String>) -> (out: Vec<Vec<u8>>)
    ensures
        views(out@).len() == keys@.len(),
        forall|i: int| 0 <= i < keys@.len() ==> #[trigger] views(out@)[i] == stored(id, encode_utf8(keys@[i]@)),
{
    let mut out: Vec<Vec<u8>> = Vec::new();
    let mut i: usize = 0;
    while i < keys.len()
        invariant
            i <= keys@.len(),
            out@.len() == i,
            forall|j: int| 0 <= j < i ==> (#[trigger] out@[j])@ == stored(id, encode_utf8(keys@[j]@)),
        decreases keys.len() - i,
    {
        out.push(encode_key(id, keys[i].as_str()));
        i += 1;
    }
    out
}

/// The ops that remove some keys.
fn delete_ops(id: LockerId, keys: &Vec<String>) -> (ops: Vec<Op>)
    ensures
        changes(ops@) == deletes(id, keys@),
{
    let ghost all = deletes(id, keys@);
    let mut ops: Vec<Op> = Vec::new();
    let mut i: usize = 0;
    assert(changes(ops@) =~= all.take(0));
    while i < keys.len()
        invariant
            i <= keys@.len(),
            all == deletes(id, keys@),
            changes(ops@) == all.take(i as int),
        decreases keys.len() - i,
    {
        push_op(&mut ops, Op::Delete { table: Table::Records, key: encode_key(id, keys[i].as_str()) });
        assert(all.take(i + 1) =~= all.take(i as int).push(all[i as int]));
        i += 1;
    }
    assert(all.take(keys@.len() as int) =~= all);
    ops
}

/// Keys with the values found under them; every one has to have been found.
fn zipped(keys: Vec<String>, found: Vec<Option<Vec<u8>>>) -> (r: Result<Vec<(String, Vec<u8>)>>)
    requires
        keys@.len() == found@.len(),
    ensures
        r is Ok <==> forall|i: int| 0 <= i < found@.len() ==> (#[trigger] found@[i]) is Some,
        r matches Ok(out) ==> out@.len() == keys@.len() && forall|i: int|
            0 <= i < keys@.len() ==> (#[trigger] out@[i]).0@ == keys@[i]@ && found@[i] == Some(out@[i].1),
{
    let n: usize = keys.len();
    let mut out: Vec<(String, Vec<u8>)> = Vec::new();
    let mut i: usize = 0;
    for value in it: found
        invariant
            it.seq() == found@,
            i == it.index(),
            n == keys@.len(),
            keys@.len() == found@.len(),
            i <= n,
            out@.len() == i,
            forall|j: int| 0 <= j < i ==> (#[trigger] found@[j]) is Some,
            forall|j: int|
                0 <= j < i ==> (#[trigger] out@[j]).0@ == keys@[j]@ && found@[j] == Some(out@[j].1),
    {
        assert(value == found@[i as int]);
        match value {
            Some(v) => out.push((String::from_str(keys[i].as_str()), v)),
            None => return Err(Error::corrupt("a listed key has no record")),
        }
        i += 1;
    }
    Ok(out)
}

/// `answer` is what a request is owed, and `left` is what it leaves of the open
/// lockers.
pub open spec fn answers_job<B: Backend>(
    before: Bank<B>,
    open: Seq<Resident>,
    job: Job,
    answer: Answer,
    left: Seq<Resident>,
    after: Bank<B>,
) -> bool {
    &&& job !is FlushAll ==> left == open
    &&& match (job, answer) {
        (Job::Get { locker, key }, Answer::Value(r)) => before.raw_get_gives(
            encode_utf8(locker@),
            encode_utf8(key@),
            r,
            after,
        ),
        (Job::Put { locker, key, value }, Answer::Done(r)) => before.raw_put_gives(
            encode_utf8(locker@),
            encode_utf8(key@),
            value@,
            r,
            after,
        ),
        (Job::Delete { locker, key }, Answer::Done(r)) => before.raw_delete_gives(
            encode_utf8(locker@),
            encode_utf8(key@),
            r,
            after,
        ),
        (Job::Keys { locker, prefix }, Answer::Keys(r)) => before.raw_keys_gives(
            encode_utf8(locker@),
            encode_utf8(prefix@),
            r,
            after,
        ),
        (Job::Clear { locker }, Answer::Done(r)) => before.raw_clear_gives(encode_utf8(locker@), r, after),
        (Job::GetMany { locker, keys }, Answer::Values(r)) => before.raw_get_many_gives(
            encode_utf8(locker@),
            keys@,
            r,
            after,
        ),
        (Job::PutAll { locker, entries }, Answer::Done(r)) => before.raw_put_all_gives(
            encode_utf8(locker@),
            entries@,
            r,
            after,
        ),
        (Job::DeleteAll { locker, keys }, Answer::Done(r)) => before.raw_delete_all_gives(
            encode_utf8(locker@),
            keys@,
            r,
            after,
        ),
        (Job::Entries { locker, prefix }, Answer::Entries(r)) => before.raw_entries_gives(
            encode_utf8(locker@),
            encode_utf8(prefix@),
            r,
            after,
        ),
        (Job::ContainsKey { locker, key }, Answer::Flag(r)) => before.raw_contains_key_gives(
            encode_utf8(locker@),
            encode_utf8(key@),
            r,
            after,
        ),
        (Job::Len { locker }, Answer::Count(r)) => before.raw_len_gives(encode_utf8(locker@), r, after),
        (Job::LockerExists { name }, Answer::Flag(r)) => after == before && before.exists_gives(encode_utf8(name@), r),
        (Job::LockerNames, Answer::Keys(r)) => after == before && before.names_give(r),
        (Job::DeleteLocker { name }, Answer::Flag(r)) => before.erasing_gives(name@, r, after),
        (Job::FlushAll, Answer::Done(r)) => before.flushing_gives(open, r, left, after),
        (Job::Persist { said }, Answer::Flag(r)) => after == before && if before.closed {
            r matches Err(e) && e is Closed
        } else {
            keeping_gives(said, r)
        },
        (Job::IsPersisted { said }, Answer::Flag(r)) => after == before && if before.closed {
            r matches Err(e) && e is Closed
        } else {
            keeping_gives(said, r)
        },
        (Job::ReportUsage, Answer::Usage(r)) => after == before && before.usage_gives(r),
        _ => false,
    }
}

} // verus!
