//! The bank: the root handle, and the registry that maps locker names to ids.
//!
//! Lockers are a key prefix, not a table, so each one needs a small numeric id.
//! The mapping from name to id lives in the `meta` table and is stable for the
//! life of the data — renaming is not supported, and an id is never reused, so
//! a stale key can never be read as belonging to a different locker.
//!
//! Ids are handed out by a persisted counter rather than a hash of the name. A
//! hash would collide eventually and, worse, silently: two lockers sharing a
//! prefix would interleave their keys.

use std::sync::Arc;

use vstd::prelude::*;
use vstd::string::StringSliceAdditionalSpecFns;
use vstd::utf8::{encode_utf8, valid_utf8};

use crate::backend::api::{after_all_pushes, changes, push_op, Backend, Change, Op, Store, Table, Usage};
use crate::backend::memory::MemoryBackend;
use crate::bytes::{be32, from_be32, same, u32_from_be, u32_to_be};
use crate::codec::value::{type_tag, Value};
use crate::codec::{default_chain, is_default, FilterChain};
use crate::coherence::Coherence;
use crate::error::{backend_with, corrupt_with, invalid_with, Error, Result};
use crate::key::LockerId;
use crate::locker::eager::{open_gives, Locker};
use crate::locker::handles::{deferring, joined, names_in_use, taken, Seat};
use crate::locker::inner::{Inner, Shared};
use crate::locker::lazy::{opened, LazyLocker};
use crate::locker::lazy_laws::{a_spared_table_stays, spares};
use crate::locker::listing::{spelt, texts, utf8_keys};
use crate::locker::name_laws::a_flush_keeps_the_names;
use crate::locker::policy::{share, LockerConfig};
use crate::locker::resident::{flush_gives, Resident};
use crate::meta::{
    chain_key, chain_key_of, format_version_key, locker_key, locker_key_of, locker_prefix, name_bytes,
    next_locker_id_key, schema_key, schema_key_of,
};
use crate::sorted::{listing, ByteMap};
use crate::text::{around, decimal, quoted, quoted_text, two};

verus! {

/// Version of the layout of a bank's tables.
pub const FORMAT_VERSION: u32 = 1;

/// Where a bank lives.
#[derive(Debug, Clone, PartialEq, Eq)]
#[non_exhaustive]
pub enum Location {
    /// In memory, gone with the last handle.
    Memory,
    /// A file. Native only.
    Path(String),
    /// A browser database. Web only.
    Web(String),
}

/// How to open a bank.
#[derive(Debug, Clone)]
pub struct BankConfig {
    pub location: Location,
    /// Whether to tell other tabs about writes. Honoured only on the web: it
    /// needs a channel name, and only a browser database has one.
    pub coherence: bool,
}

impl BankConfig {
    /// A bank in memory.
    pub fn memory() -> (c: Self)
        ensures
            c.location is Memory,
            !c.coherence,
    {
        BankConfig { location: Location::Memory, coherence: false }
    }

    /// A bank in a file.
    pub fn at(path: &str) -> (c: Self)
        ensures
            c.location matches Location::Path(p) && p@ == path@,
            !c.coherence,
    {
        BankConfig { location: Location::Path(String::from_str(path)), coherence: false }
    }

    /// A bank in a browser database.
    pub fn web(name: &str) -> (c: Self)
        ensures
            c.location matches Location::Web(n) && n@ == name@,
            !c.coherence,
    {
        BankConfig { location: Location::Web(String::from_str(name)), coherence: false }
    }

    /// Turn coherence on or off.
    pub fn with_coherence(self, on: bool) -> (c: Self)
        ensures
            c.location == self.location,
            c.coherence == on,
    {
        BankConfig { location: self.location, coherence: on }
    }

    /// Whether the location can be had on this platform: a file natively, a
    /// browser database on the web, and memory anywhere.
    pub fn check_platform(&self, web: bool) -> (r: Result<()>)
        ensures
            match self.location {
                Location::Memory => r is Ok,
                Location::Path(_) => if web {
                    r matches Err(e) && invalid_with(e, "Location::Path is native-only; use Location::Web on wasm"@)
                } else {
                    r is Ok
                },
                Location::Web(_) => if web {
                    r is Ok
                } else {
                    r matches Err(e) && invalid_with(e, "Location::Web is wasm-only; use Location::Path on native"@)
                },
            },
    {
        match &self.location {
            Location::Memory => Ok(()),
            Location::Path(_) => {
                if web {
                    Err(
                        Error::InvalidConfig(
                            String::from_str("Location::Path is native-only; use Location::Web on wasm"),
                        ),
                    )
                } else {
                    Ok(())
                }
            },
            Location::Web(_) => {
                if web {
                    Ok(())
                } else {
                    Err(
                        Error::InvalidConfig(
                            String::from_str("Location::Web is wasm-only; use Location::Path on native"),
                        ),
                    )
                }
            },
        }
    }

    /// Whether this bank tells other tabs about its writes.
    pub fn coherent(&self) -> (b: bool)
        ensures
            b == (self.coherence && self.location is Web),
    {
        match &self.location {
            Location::Web(_) => self.coherence,
            _ => false,
        }
    }
}

/// What a platform says of keeping a bank's data.
#[derive(Debug, Clone, PartialEq, Eq)]
pub enum Keeping {
    /// The data is in a file of its own: nothing evicts it, and nobody is asked.
    Always,
    /// There is nobody to ask.
    Nobody,
    /// The platform answered, if not always with yes or no.
    Answered(Option<bool>),
    /// Asking failed, with this complaint.
    Failed(String),
}

/// `r` is what a platform's word on keeping the data comes to: only a clear yes
/// counts as one.
pub open spec fn keeping_gives(said: Keeping, r: Result<bool>) -> bool {
    match said {
        Keeping::Always => r == Ok::<bool, Error>(true),
        Keeping::Nobody => r == Ok::<bool, Error>(false),
        Keeping::Answered(word) => r == Ok::<bool, Error>(word == Some(true)),
        Keeping::Failed(text) => r matches Err(e) && backend_with(e, text@),
    }
}

impl Keeping {
    fn answer(self) -> (r: Result<bool>)
        ensures
            keeping_gives(self, r),
    {
        match self {
            Keeping::Always => Ok(true),
            Keeping::Nobody => Ok(false),
            Keeping::Answered(Some(word)) => Ok(word),
            Keeping::Answered(None) => Ok(false),
            Keeping::Failed(text) => Err(Error::Backend(text)),
        }
    }
}

/// Read a stored four-byte integer.
fn u32_from(bytes: &[u8], what: &str) -> (r: Result<u32>)
    ensures
        r is Ok <==> bytes@.len() == 4,
        r matches Ok(n) ==> n == from_be32(bytes@),
        r matches Err(e) ==> corrupt_with(e, what@ + " is not a 4-byte integer"@),
{
    if bytes.len() == 4 {
        Ok(u32_from_be(bytes))
    } else {
        Err(Error::Corrupt(two(what, " is not a 4-byte integer")))
    }
}

/// The integer stored under a key, where it is four bytes long.
pub open spec fn number_at(store: Store, key: Seq<u8>) -> Option<u32> {
    match store.lookup(Table::Meta, key) {
        Some(raw) => if raw.len() == 4 {
            Some(from_be32(raw) as u32)
        } else {
            None
        },
        None => None,
    }
}

/// The next id to hand out; a missing counter starts at zero.
pub open spec fn next_id_of(store: Store) -> Option<u32> {
    match store.lookup(Table::Meta, next_locker_id_key()) {
        None => Some(0),
        Some(_) => number_at(store, next_locker_id_key()),
    }
}

/// What recording one thing in `meta` does.
pub open spec fn meta_put(key: Seq<u8>, value: Seq<u8>) -> Change {
    Change::Put { table: Table::Meta, key, value }
}

/// What registering a name does: the name and the moved counter, together.
pub open spec fn registration(name: Seq<u8>, id: u32) -> Seq<Change> {
    seq![meta_put(locker_key(name), be32(id)), meta_put(next_locker_id_key(), be32((id + 1) as u32))]
}

/// The id of a name, and the store once it has one: the one it is known by,
/// or the next one.
pub open spec fn named(store: Store, known: Map<Seq<u8>, u32>, name: Seq<u8>) -> Option<(u32, Store)> {
    if known.contains_key(name) {
        Some((known[name], store))
    } else if store.lookup(Table::Meta, locker_key(name)) is Some {
        match number_at(store, locker_key(name)) {
            Some(id) => Some((id, store)),
            None => None,
        }
    } else {
        match next_id_of(store) {
            Some(id) => if id < u32::MAX {
                Some((id, store.after_all(registration(name, id))))
            } else {
                None
            },
            None => None,
        }
    }
}

/// The store once a locker is bound to a value recorded under a key; `None`
/// where it is bound to another.
pub open spec fn bound(store: Store, key: Seq<u8>, value: Seq<u8>) -> Option<Store> {
    match store.lookup(Table::Meta, key) {
        None => Some(store.after(meta_put(key, value))),
        Some(raw) => if raw == value {
            Some(store)
        } else {
            None
        },
    }
}

/// The id of a locker about to be opened, and the store once it is registered
/// and bound to its type and its chain; `None` where that is refused.
pub open spec fn readied(
    store: Store,
    known: Map<Seq<u8>, u32>,
    name: Seq<u8>,
    tag: Seq<u8>,
    chain_id: u8,
) -> Option<(u32, Store)> {
    match named(store, known, name) {
        None => None,
        Some((id, s)) => match bound(s, schema_key(id), tag) {
            None => None,
            Some(s) => match bound(s, chain_key(id), seq![chain_id]) {
                None => None,
                Some(s) => Some((id, s)),
            },
        },
    }
}

/// Why a name is given no id.
pub open spec fn id_refused(store: Store, name: Seq<u8>, e: Error) -> bool {
    if store.lookup(Table::Meta, locker_key(name)) is Some {
        corrupt_with(e, "locker id"@ + " is not a 4-byte integer"@)
    } else if next_id_of(store) is None {
        corrupt_with(e, "next locker id"@ + " is not a 4-byte integer"@)
    } else {
        backend_with(e, "locker id space is exhausted"@)
    }
}

/// Why a locker cannot be had as the type called `tag`.
pub open spec fn schema_refused(store: Store, id: u32, tag: Seq<char>, e: Error) -> bool {
    let raw = store.lookup(Table::Meta, schema_key(id))->0;
    if valid_utf8(raw) {
        e matches Error::SchemaMismatch { stored, requested } && encode_utf8(stored@) == raw && requested@ == tag
    } else {
        e is Corrupt
    }
}

/// Why a locker cannot be had under a filter chain.
pub open spec fn chain_refused(store: Store, id: u32, chain: &FilterChain, e: Error) -> bool {
    let raw = store.lookup(Table::Meta, chain_key(id))->0;
    if raw.len() == 1 {
        e matches Error::SchemaMismatch { stored, requested } && stored@ == "filter chain "@ + decimal(raw[0] as nat)
            + "; this locker's values were sealed with it"@ && requested@ == chain.description()
            + " — reopen the locker with the chain it was written under, or use a new locker name"@
    } else {
        corrupt_with(e, "a locker's filter chain id is not a single byte"@)
    }
}

/// What is said of a chain where values were sealed with another.
fn wrong_chain(stored: u8, chain: &FilterChain) -> (e: Error)
    ensures
        e matches Error::SchemaMismatch { stored: s, requested } && s@ == "filter chain "@ + decimal(stored as nat)
            + "; this locker's values were sealed with it"@ && requested@ == chain.description()
            + " — reopen the locker with the chain it was written under, or use a new locker name"@,
{
    Error::SchemaMismatch {
        stored: around("filter chain ", stored as u64, "; this locker's values were sealed with it"),
        requested: two(
            chain.describe().as_str(),
            " — reopen the locker with the chain it was written under, or use a new locker name",
        ),
    }
}

/// Why a locker is not made ready to be opened.
pub open spec fn unready(
    store: Store,
    known: Map<Seq<u8>, u32>,
    name: Seq<u8>,
    tag: Seq<char>,
    chain: &FilterChain,
    e: Error,
) -> bool {
    match named(store, known, name) {
        None => id_refused(store, name, e),
        Some((id, s)) => match bound(s, schema_key(id), encode_utf8(tag)) {
            None => schema_refused(s, id, tag, e),
            Some(s) => chain_refused(s, id, chain, e),
        },
    }
}

/// What is said of a second handle where one of the two defers its writes.
pub open spec fn second_deferred(name: Seq<char>) -> Seq<char> {
    "locker "@ + quoted(name)
        + " is already open and one of the two handles uses Commit::Deferred; a deferred locker may have only one live handle, because two staging buffers over one name overwrite each other. Close the other handle first, or share this one."@
}

/// What opening a locker of either sort does to the bank, and when it is
/// refused before the locker is looked at.
pub open spec fn seating<B: Backend, T: Value, L>(
    before: Bank<B>,
    name: &str,
    config: LockerConfig,
    r: Result<L>,
    after: Bank<B>,
) -> bool {
    let key = name.spec_bytes();
    let chain = before.chain_of(&config);
    &&& before.wf() ==> after.wf()
    &&& after.chain == before.chain
    &&& after.closed == before.closed
    &&& after.store().records == before.store().records
    &&& after.store().chunks == before.store().chunks
    &&& after.shared.values == before.shared.values
    &&& after.shared.ticks == before.shared.ticks
    &&& after.shared.coherence == before.shared.coherence
    &&& after.shared.tabs == before.shared.tabs
    &&& before.shared.backend.answers() ==> after.shared.backend.answers()
    &&& before.closed ==> (r matches Err(e) && e is Closed) && after == before
    &&& !before.closed && !before.admits(key, &config) ==> (r matches Err(e) && invalid_with(e, second_deferred(name@)))
        && after == before
    &&& r is Err ==> after.shared.handles == before.shared.handles && after.chains == before.chains
    &&& r is Ok ==> before.admits(key, &config) && before.ready::<T>(key, &chain) is Some
    &&& before.serves() && before.admits(key, &config) && before.ready::<T>(key, &chain) is None ==> (
    r matches Err(e) && unready(before.store(), before.registry@, key, T::label(), &chain, e))
}

/// A handle that was just opened, as the bank sees it.
pub open spec fn seated<B: Backend, T: Value>(
    before: Bank<B>,
    name: &str,
    config: LockerConfig,
    inner: Inner,
    after: Bank<B>,
) -> bool {
    &&& before.ready::<T>(name.spec_bytes(), &before.chain_of(&config)) == Some((inner.id, after.store()))
    &&& after.registry@ == before.registry@.insert(name.spec_bytes(), inner.id)
    &&& inner.chain == before.chain_of(&config)
    &&& after.chains@ == before.chains@.insert(name.spec_bytes(), before.chain_of(&config))
    &&& inner.config == config
    &&& inner.name@ == name@
    &&& inner.ticket == before.shared.handles.upcoming()
    &&& after.shared.handles.seats() == joined(
        before.shared.handles.seats(),
        Seat { ticket: inner.ticket, name: name.spec_bytes(), defers: config.batch() is Some, shared: false },
    )
}

/// `r` is what opening an eager locker under a name gives.
pub open spec fn opens_eager<B: Backend, T: Value>(
    before: Bank<B>,
    name: &str,
    config: LockerConfig,
    r: Result<Locker<T>>,
    after: Bank<B>,
) -> bool {
    let key = name.spec_bytes();
    let chain = before.chain_of(&config);
    &&& seating::<B, T, Locker<T>>(before, name, config, r, after)
    &&& r matches Ok(l) ==> seated::<B, T>(before, name, config, l.res.inner, after) && open_gives::<T>(
        after.store(),
        false,
        &chain,
        l.res.inner.id,
        name@,
        config,
        r,
    )
    &&& before.serves() && before.admits(key, &config) && before.shared.handles.upcoming() < u64::MAX ==> (
    before.ready::<T>(key, &chain) matches Some((id, store)) ==> open_gives::<T>(
        store,
        true,
        &chain,
        id,
        name@,
        config,
        r,
    ))
}

/// `r` is what opening a lazy locker under a name gives.
pub open spec fn opens_lazy<B: Backend, T: Value>(
    before: Bank<B>,
    name: &str,
    config: LockerConfig,
    r: Result<LazyLocker<T>>,
    after: Bank<B>,
) -> bool {
    let key = name.spec_bytes();
    let chain = before.chain_of(&config);
    &&& seating::<B, T, LazyLocker<T>>(before, name, config, r, after)
    &&& r matches Ok(l) ==> seated::<B, T>(before, name, config, l.res.inner, after) && opened(
        after.store(),
        l.res.inner.id,
        config,
        l,
    )
    &&& before.serves() && before.admits(key, &config) && before.ready::<T>(key, &chain) is Some
        && before.shared.handles.upcoming() < u64::MAX ==> r is Ok
}

/// The root handle on a store.
pub struct Bank<B> {
    pub shared: Shared<B>,
    pub chain: Arc<FilterChain>,
    /// The ids of names looked up before.
    pub registry: ByteMap<LockerId>,
    /// The chains that names were opened with, by this bank.
    pub chains: ByteMap<Arc<FilterChain>>,
    pub closed: bool,
}

/// Why a store's layout is refused.
pub open spec fn layout_refused(store: Store, e: Error) -> bool {
    match number_at(store, format_version_key()) {
        None => corrupt_with(e, "format version"@ + " is not a 4-byte integer"@),
        // The layout version is wider than what the error reports.
        Some(found) => e == (Error::UnsupportedVersion {
            found: (if found < 255 {
                found as u8
            } else {
                255u8
            }),
            supported: 1,
        }),
    }
}

/// Whether a store's layout is one this build reads: recorded as such, or not
/// recorded yet.
pub open spec fn layout_fits(store: Store) -> bool {
    match store.lookup(Table::Meta, format_version_key()) {
        None => true,
        Some(_) => number_at(store, format_version_key()) == Some(FORMAT_VERSION),
    }
}

/// The store once its layout version is recorded.
pub open spec fn stamped(store: Store) -> Store {
    match store.lookup(Table::Meta, format_version_key()) {
        None => store.after(meta_put(format_version_key(), be32(FORMAT_VERSION))),
        Some(_) => store,
    }
}

/// One commit of one change.
proof fn one_change(store: Store, list: Seq<Op>, change: Change)
    requires
        changes(list) == Seq::<Change>::empty().push(change),
    ensures
        store.after_all(changes(list)) == store.after(change),
{
    after_all_pushes(store, Seq::empty(), change);
    assert(store.after_all(Seq::<Change>::empty()) == store);
}

impl Bank<MemoryBackend> {
    /// Open a bank in memory.
    pub fn in_memory() -> (r: Result<Self>)
        ensures
            r matches Ok(bank) && bank.store() == stamped(Store::empty()) && bank.fresh() && bank.shared.backend.answers()
                && is_default(*bank.chain) && !bank.shared.coherence.enabled_spec()
                && !bank.shared.tabs,
    {
        Bank::with_backend(MemoryBackend::new())
    }
}

impl<B: Backend> Bank<B> {
    /// What the store holds.
    pub open spec fn store(self) -> Store {
        self.shared.backend.store()
    }

    /// Whether the bank is open and its store answers.
    pub open spec fn serves(self) -> bool {
        !self.closed && self.shared.backend.answers()
    }

    /// Whether nothing but the store and what is remembered of names differs
    /// from before, and these still agree.
    pub open spec fn same_bank(self, other: Self) -> bool {
        &&& other.wf() ==> self.wf()
        &&& other.shared.backend.answers() ==> self.shared.backend.answers()
        &&& other.shared.backend.forced() ==> self.shared.backend.forced()
        &&& other.shared.backend.shut() ==> self.shared.backend.shut()
        &&& self.chain == other.chain
        &&& self.chains == other.chains
        &&& self.closed == other.closed
        &&& self.shared.values == other.shared.values
        &&& self.shared.ticks == other.shared.ticks
        &&& self.shared.coherence == other.shared.coherence
        &&& self.shared.tabs == other.shared.tabs
        &&& self.shared.handles == other.shared.handles
    }

    /// What is remembered of names agrees with the store.
    pub open spec fn wf(self) -> bool {
        &&& self.shared.handles.wf()
        &&& forall|name: Seq<u8>| #[trigger]
            self.registry@.contains_key(name) ==> number_at(self.store(), locker_key(name)) == Some(
                self.registry@[name],
            )
    }

    /// Open a bank over a backend of the caller's own.
    pub fn with_backend(backend: B) -> (r: Result<Self>)
        ensures
            r matches Ok(bank) ==> layout_fits(backend.store()) && bank.store() == stamped(backend.store())
                && bank.fresh() && is_default(*bank.chain)
                && !bank.shared.coherence.enabled_spec() && !bank.shared.tabs,
            backend.answers() ==> match r {
                Ok(bank) => layout_fits(backend.store()) && bank.shared.backend.answers(),
                Err(e) => !layout_fits(backend.store()) && layout_refused(backend.store(), e),
            },
    {
        Bank::with_backend_and_chain(backend, default_chain())
    }

    /// Open a bank over a backend and a filter chain of the caller's own.
    pub fn with_backend_and_chain(backend: B, chain: FilterChain) -> (r: Result<Self>)
        ensures
            r matches Ok(bank) ==> layout_fits(backend.store()) && bank.store() == stamped(backend.store())
                && bank.fresh() && *bank.chain == chain && !bank.shared.coherence.enabled_spec() && !bank.shared.tabs,
            backend.answers() ==> match r {
                Ok(bank) => layout_fits(backend.store()) && bank.shared.backend.answers(),
                Err(e) => !layout_fits(backend.store()) && layout_refused(backend.store(), e),
            },
    {
        Bank::assembled(backend, chain, Coherence::disabled(), false)
    }

    /// Nothing is open, nothing is remembered.
    pub open spec fn fresh(self) -> bool {
        &&& !self.closed
        &&& self.wf()
        &&& self.registry@ == Map::<Seq<u8>, LockerId>::empty()
        &&& self.chains@ == Map::<Seq<u8>, Arc<FilterChain>>::empty()
        &&& self.shared.handles.seats().len() == 0
        &&& self.shared.handles.upcoming() == 0
        &&& self.shared.values.cursor() is None
        &&& self.shared.ticks.cursor() is None
    }

    /// Open a bank over a backend, a chain and a channel. `tabs` says whether
    /// the store can have other writers than this process.
    pub fn assembled(backend: B, chain: FilterChain, coherence: Coherence, tabs: bool) -> (r: Result<Self>)
        ensures
            r matches Ok(bank) ==> layout_fits(backend.store()) && bank.store() == stamped(backend.store())
                && bank.fresh() && *bank.chain == chain && bank.shared.coherence == coherence && bank.shared.tabs == tabs,
            backend.answers() ==> match r {
                Ok(bank) => layout_fits(backend.store()) && bank.shared.backend.answers(),
                Err(e) => !layout_fits(backend.store()) && layout_refused(backend.store(), e),
            },
    {
        let mut shared = Shared::new(backend);
        shared.coherence = coherence;
        shared.tabs = tabs;
        let mut bank = Bank {
            shared,
            chain: Arc::new(chain),
            registry: ByteMap::new(),
            chains: ByteMap::new(),
            closed: false,
        };
        match bank.check_or_write_format_version() {
            Ok(()) => Ok(bank),
            Err(e) => Err(e),
        }
    }

    /// Record the layout version, or refuse a store written under another.
    fn check_or_write_format_version(&mut self) -> (r: Result<()>)
        ensures
            final(self).same_bank(*old(self)),
            final(self).registry == old(self).registry,
            r is Ok ==> layout_fits(old(self).store()) && final(self).store() == stamped(old(self).store()),
            r is Err ==> final(self).store() == old(self).store(),
            old(self).shared.backend.answers() ==> final(self).shared.backend.answers() && (r is Ok <==> layout_fits(
                old(self).store(),
            )) && (r matches Err(e) ==> layout_refused(old(self).store(), e)),
    {
        let key = name_bytes("format_version");
        let raw = match self.shared.backend.get(Table::Meta, key.as_slice()) {
            Ok(raw) => raw,
            Err(e) => return Err(e),
        };
        match raw {
            Some(raw) => {
                let found: u32 = match u32_from(raw.as_slice(), "format version") {
                    Ok(found) => found,
                    Err(e) => return Err(e),
                };
                if found != FORMAT_VERSION {
                    // Saturating because the layout version is wider than what
                    // the error reports; the exact number only has to be
                    // legible.
                    let legible: u8 = if found < 255 {
                        found as u8
                    } else {
                        255
                    };
                    return Err(Error::UnsupportedVersion { found: legible, supported: 1 });
                }
                Ok(())
            },
            None => {
                let mut ops: Vec<Op> = Vec::new();
                assert(changes(ops@) =~= Seq::<Change>::empty());
                push_op(&mut ops, Op::Put { table: Table::Meta, key, value: u32_to_be(FORMAT_VERSION) });
                proof {
                    one_change(self.store(), ops@, meta_put(format_version_key(), be32(FORMAT_VERSION)));
                }
                self.shared.backend.commit(ops)
            },
        }
    }

    /// Commit changes to what lockers hold, none of them to what is remembered
    /// of names.
    pub(crate) fn commit_rows(&mut self, ops: Vec<Op>) -> (r: Result<()>)
        requires
            spares(changes(ops@), Table::Meta),
        ensures
            final(self).same_bank(*old(self)),
            final(self).registry == old(self).registry,
            r is Ok ==> final(self).store() == old(self).store().after_all(changes(ops@)),
            r is Err ==> final(self).store() == old(self).store(),
            old(self).shared.backend.answers() ==> r is Ok,
    {
        proof {
            a_spared_table_stays(self.store(), changes(ops@), Table::Meta);
        }
        self.shared.backend.commit(ops)
    }

    /// Refuse an operation on a closed bank.
    pub(crate) fn ensure_open(&self) -> (r: Result<()>)
        ensures
            r is Ok <==> !self.closed,
            r matches Err(e) ==> e is Closed,
    {
        if self.closed {
            Err(Error::Closed)
        } else {
            Ok(())
        }
    }

    /// What asking for the usage gives.
    pub open spec fn usage_gives(self, r: Result<Option<Usage>>) -> bool {
        &&& self.closed ==> (r matches Err(e) && e is Closed)
        &&& r matches Ok(u) ==> self.shared.backend.reports(u)
        &&& !self.closed && self.shared.backend.answers() ==> r is Ok
    }

    /// What asking for a locker's name gives.
    pub open spec fn exists_gives(self, name: Seq<u8>, r: Result<bool>) -> bool {
        &&& self.closed ==> (r matches Err(e) && e is Closed)
        &&& r matches Ok(b) ==> b == self.knows(name)
        &&& !self.closed && (self.shared.backend.answers() || self.registry@.contains_key(name)) ==> r is Ok
    }

    /// What making everything durable gives: the first failure among the
    /// lockers' own flushes, or else how the backend's went.
    pub open spec fn flushing_gives(
        self,
        open: Seq<Resident>,
        r: Result<()>,
        left: Seq<Resident>,
        after: Self,
    ) -> bool {
        &&& left.len() == open.len()
        &&& self.wf() ==> after.wf()
        &&& after.chain == self.chain
        &&& after.chains == self.chains
        &&& after.closed == self.closed
        &&& after.registry == self.registry
        &&& self.closed ==> (r matches Err(e) && e is Closed) && after == self && left == open
        &&& !self.closed ==> exists|states: Seq<Shared<B>>, outcomes: Seq<Result<()>>| #[trigger]
            flushed_in_turn(open, states, outcomes, left) && states[0] == self.shared && forced_out(
                states.last(),
                outcomes,
                r,
                after.shared,
            )
    }

    /// What closing the bank gives: a flush, and then nothing more is posted or
    /// asked of the backend, however the flush went. Closing twice is not an
    /// error.
    pub open spec fn closing_gives(
        self,
        open: Seq<Resident>,
        r: Result<()>,
        left: Seq<Resident>,
        after: Self,
    ) -> bool {
        &&& after.closed
        &&& self.closed ==> r is Ok && after == self && left == open
        &&& !self.closed ==> exists|flushed: Result<()>, mid: Self| #[trigger]
            self.flushing_gives(open, flushed, left, mid) && {
                &&& flushed is Err ==> r == flushed
                &&& flushed is Ok && mid.shared.backend.answers() ==> r is Ok
                &&& r is Ok || mid.shared.backend.answers() ==> after.shared.backend.shut()
                &&& mid.shared.backend.forced() ==> after.shared.backend.forced()
                &&& !after.shared.coherence.enabled_spec()
                &&& after.shared.coherence.waiting() == mid.shared.coherence.waiting()
                &&& after.chain == mid.chain
                &&& after.chains == mid.chains
                &&& after.registry == mid.registry
                &&& after.shared.handles == mid.shared.handles
                &&& after.shared.values == mid.shared.values
                &&& after.shared.ticks == mid.shared.ticks
                &&& after.shared.tabs == mid.shared.tabs
            }
    }

    /// Storage usage, where the platform reports it.
    pub fn usage(&self) -> (r: Result<Option<Usage>>)
        ensures
            self.usage_gives(r),
    {
        match self.ensure_open() {
            Ok(()) => self.shared.backend.usage(),
            Err(e) => Err(e),
        }
    }

    /// The filter chain values are sealed with.
    pub fn chain(&self) -> (chain: &Arc<FilterChain>)
        ensures
            chain == self.chain,
    {
        &self.chain
    }

    /// The backend.
    pub fn backend(&self) -> (backend: &B)
        ensures
            *backend == self.shared.backend,
    {
        &self.shared.backend
    }

    /// The id of a locker name, registering it if it is new.
    ///
    /// Registration and the counter's move land together, so a failure cannot
    /// leave a name pointing at an id the counter will hand out again.
    pub fn locker_id(&mut self, name: &str) -> (r: Result<LockerId>)
        ensures
            final(self).same_bank(*old(self)),
            r matches Ok(id) ==> named(old(self).store(), old(self).registry@, name.spec_bytes()) == Some(
                (id, final(self).store()),
            ) && final(self).registry@ == old(self).registry@.insert(name.spec_bytes(), id),
            r is Err ==> final(self).store() == old(self).store() && final(self).registry == old(self).registry,
            old(self).closed ==> (r matches Err(e) && e is Closed) && *final(self) == *old(self),
            old(self).serves() ==> {
                let name = name.spec_bytes();
                let store = old(self).store();
                &&& final(self).shared.backend.answers()
                &&& r is Ok <==> named(store, old(self).registry@, name) is Some
                &&& r matches Err(e) ==> id_refused(store, name, e)
            },
            old(self).wf() ==> final(self).wf(),
    {
        match self.ensure_open() {
            Ok(()) => {},
            Err(e) => return Err(e),
        }
        let key = name_bytes(name);
        let ghost store = self.store();
        let ghost known = self.registry@;
        if let Some(id) = self.registry.get(key.as_slice()) {
            let id: u32 = *id;
            assert(known =~= known.insert(key@, id));
            return Ok(id);
        }
        // One round trip, not two: whether the name is known and what the next
        // free id is are both `meta` keys.
        let mut keys: Vec<Vec<u8>> = Vec::new();
        keys.push(locker_key_of(name));
        keys.push(name_bytes("next_locker_id"));
        let ghost asked = keys@;
        let found = match self.shared.backend.get_many(Table::Meta, keys) {
            Ok(found) => found,
            Err(e) => return Err(e),
        };
        assert(asked[0]@ == locker_key(key@) && asked[1]@ == next_locker_id_key());
        if let Some(raw) = &found[0] {
            let id: u32 = match u32_from(raw.as_slice(), "locker id") {
                Ok(id) => id,
                Err(e) => return Err(e),
            };
            self.registry.insert(key, id);
            return Ok(id);
        }
        let id: u32 = match &found[1] {
            Some(raw) => match u32_from(raw.as_slice(), "next locker id") {
                Ok(next) => next,
                Err(e) => return Err(e),
            },
            None => 0,
        };
        let bumped: u32 = match id.checked_add(1) {
            Some(bumped) => bumped,
            None => return Err(Error::backend("locker id space is exhausted")),
        };
        let mut ops: Vec<Op> = Vec::new();
        assert(changes(ops@) =~= Seq::<Change>::empty());
        push_op(&mut ops, Op::Put { table: Table::Meta, key: locker_key_of(name), value: u32_to_be(id) });
        push_op(
            &mut ops,
            Op::Put { table: Table::Meta, key: name_bytes("next_locker_id"), value: u32_to_be(bumped) },
        );
        assert(changes(ops@) =~= registration(key@, id));
        match self.shared.backend.commit(ops) {
            Ok(()) => {},
            Err(e) => return Err(e),
        }
        proof {
            registering(store, key@, id);
            if old(self).wf() {
                assert forall|other: Seq<u8>| #[trigger] known.contains_key(other) implies number_at(
                    store.after_all(registration(key@, id)),
                    locker_key(other),
                ) == Some(known[other]) by {
                    assert(number_at(store, locker_key(other)) is Some);
                    assert(locker_key(other) != locker_key(key@));
                }
            }
        }
        self.registry.insert(key, id);
        Ok(id)
    }

    /// Bind a locker to a type, or refuse one bound to another.
    pub fn bind_schema(&mut self, id: LockerId, tag: &str) -> (r: Result<()>)
        ensures
            final(self).same_bank(*old(self)),
            final(self).registry == old(self).registry,
            r is Ok ==> bound(old(self).store(), schema_key(id), tag.spec_bytes()) == Some(final(self).store()),
            r is Err ==> final(self).store() == old(self).store(),
            old(self).closed ==> (r matches Err(e) && e is Closed) && *final(self) == *old(self),
            old(self).serves() ==> {
                &&& final(self).shared.backend.answers()
                &&& r is Ok <==> bound(old(self).store(), schema_key(id), tag.spec_bytes()) is Some
                &&& r matches Err(e) ==> schema_refused(old(self).store(), id, tag@, e)
            },
    {
        match self.ensure_open() {
            Ok(()) => {},
            Err(e) => return Err(e),
        }
        let key = schema_key_of(id);
        let raw = match self.shared.backend.get(Table::Meta, key.as_slice()) {
            Ok(raw) => raw,
            Err(e) => return Err(e),
        };
        let tag_bytes = name_bytes(tag);
        match raw {
            Some(raw) => {
                if same(raw.as_slice(), tag_bytes.as_slice()) {
                    return Ok(());
                }
                match core::str::from_utf8(raw.as_slice()) {
                    Ok(stored) => Err(
                        Error::SchemaMismatch { stored: String::from_str(stored), requested: String::from_str(tag) },
                    ),
                    Err(e) => Err(
                        Error::Corrupt(two("schema tag is not UTF-8: ", crate::utf8::complaint(&e).as_str())),
                    ),
                }
            },
            None => {
                let mut ops: Vec<Op> = Vec::new();
                assert(changes(ops@) =~= Seq::<Change>::empty());
                push_op(&mut ops, Op::Put { table: Table::Meta, key, value: tag_bytes });
                proof {
                    one_change(self.store(), ops@, meta_put(schema_key(id), tag.spec_bytes()));
                }
                self.shared.backend.commit(ops)
            },
        }
    }

    /// Bind a locker to a filter chain, or refuse one bound to another: its
    /// values could not be opened.
    fn bind_chain(&mut self, id: LockerId, chain: &FilterChain) -> (r: Result<()>)
        ensures
            final(self).same_bank(*old(self)),
            final(self).registry == old(self).registry,
            r is Ok ==> bound(old(self).store(), chain_key(id), seq![chain.id_spec()]) == Some(final(self).store()),
            r is Err ==> final(self).store() == old(self).store(),
            old(self).shared.backend.answers() ==> {
                &&& final(self).shared.backend.answers()
                &&& r is Ok <==> bound(old(self).store(), chain_key(id), seq![chain.id_spec()]) is Some
                &&& r matches Err(e) ==> chain_refused(old(self).store(), id, chain, e)
            },
    {
        let key = chain_key_of(id);
        let raw = match self.shared.backend.get(Table::Meta, key.as_slice()) {
            Ok(raw) => raw,
            Err(e) => return Err(e),
        };
        match raw {
            Some(raw) => {
                if raw.len() != 1 {
                    return Err(Error::corrupt("a locker's filter chain id is not a single byte"));
                }
                let stored: u8 = raw[0];
                assert(raw@ =~= seq![stored]);
                if stored != chain.id() {
                    assert(raw@[0] != seq![chain.id_spec()][0]);
                    return Err(wrong_chain(stored, chain));
                }
                Ok(())
            },
            None => {
                let mut value: Vec<u8> = Vec::new();
                value.push(chain.id());
                assert(value@ =~= seq![chain.id_spec()]);
                let mut ops: Vec<Op> = Vec::new();
                assert(changes(ops@) =~= Seq::<Change>::empty());
                push_op(&mut ops, Op::Put { table: Table::Meta, key, value });
                proof {
                    one_change(self.store(), ops@, meta_put(chain_key(id), seq![chain.id_spec()]));
                }
                self.shared.backend.commit(ops)
            },
        }
    }

    /// Everything that has to hold before a locker is opened: it has an id,
    /// and it is bound to its type and its chain.
    pub fn prepare<T: Value>(&mut self, name: &str, chain: &FilterChain) -> (r: Result<LockerId>)
        ensures
            final(self).same_bank(*old(self)),
            r matches Ok(id) ==> old(self).ready::<T>(name.spec_bytes(), chain) == Some((id, final(self).store()))
                && final(self).registry@ == old(self).registry@.insert(name.spec_bytes(), id),
            final(self).store().records == old(self).store().records,
            final(self).store().chunks == old(self).store().chunks,
            old(self).closed ==> (r matches Err(e) && e is Closed) && *final(self) == *old(self),
            old(self).serves() ==> {
                &&& final(self).shared.backend.answers()
                &&& r is Ok <==> old(self).ready::<T>(name.spec_bytes(), chain) is Some
                &&& r matches Err(e) ==> unready(
                    old(self).store(),
                    old(self).registry@,
                    name.spec_bytes(),
                    T::label(),
                    chain,
                    e,
                )
            },
            old(self).wf() ==> final(self).wf(),
    {
        let ghost store = self.store();
        let ghost key = name.spec_bytes();
        let id: u32 = match self.locker_id(name) {
            Ok(id) => id,
            Err(e) => return Err(e),
        };
        proof {
            naming_touches_no_record(store, old(self).registry@, key);
            assert forall|n: Seq<u8>| #[trigger] self.registry@.contains_key(n) && old(self).wf() implies number_at(
                self.store().after(meta_put(schema_key(id), encode_utf8(T::label()))),
                locker_key(n),
            ) == Some(self.registry@[n]) by {
                meta_keys_are_apart(n, id);
            }
        }
        let tag = type_tag::<T>();
        match self.bind_schema(id, tag.as_str()) {
            Ok(()) => {},
            Err(e) => return Err(e),
        }
        proof {
            assert forall|n: Seq<u8>| #[trigger] self.registry@.contains_key(n) && old(self).wf() implies number_at(
                self.store().after(meta_put(chain_key(id), seq![chain.id_spec()])),
                locker_key(n),
            ) == Some(self.registry@[n]) by {
                meta_keys_are_apart(n, id);
            }
        }
        match self.bind_chain(id, chain) {
            Ok(()) => {},
            Err(e) => return Err(e),
        }
        Ok(id)
    }

    /// The id a locker will have and the store once it is ready to be opened;
    /// `None` where that is refused.
    pub open spec fn ready<T: Value>(self, name: Seq<u8>, chain: &FilterChain) -> Option<(LockerId, Store)> {
        readied(self.store(), self.registry@, name, encode_utf8(T::label()), chain.id_spec())
    }

    /// The chain a locker's values are sealed with: its own, or the bank's.
    fn chain_for(&self, config: &LockerConfig) -> (chain: Arc<FilterChain>)
        ensures
            chain == self.chain_of(config),
    {
        match &config.chain {
            Some(chain) => share(chain),
            None => share(&self.chain),
        }
    }

    /// [`Bank::chain_for`], as mathematics.
    pub open spec fn chain_of(self, config: &LockerConfig) -> Arc<FilterChain> {
        match config.chain {
            Some(chain) => chain,
            None => self.chain,
        }
    }

    /// The chain that a locker's values were sealed with, where it is at hand:
    /// the one the locker was opened with, or the bank's. A locker that nothing
    /// is recorded of was written with the bank's. `None` where the locker is
    /// bound to another chain.
    pub open spec fn chain_behind(self, id: LockerId, name: Seq<u8>) -> Option<Arc<FilterChain>> {
        match self.store().lookup(Table::Meta, chain_key(id)) {
            None => Some(self.chain),
            Some(raw) => if self.chains@.contains_key(name) && raw == seq![self.chains@[name].id_spec()] {
                Some(self.chains@[name])
            } else if raw == seq![self.chain.id_spec()] {
                Some(self.chain)
            } else {
                None
            },
        }
    }

    /// [`Bank::chain_behind`], executable; refused where the chain is not at
    /// hand.
    pub(crate) fn find_chain(&self, id: LockerId, name: &str) -> (r: Result<Arc<FilterChain>>)
        ensures
            r matches Ok(chain) ==> self.chain_behind(id, name.spec_bytes()) == Some(chain),
            self.shared.backend.answers() ==> match r {
                Ok(_) => true,
                Err(e) => self.chain_behind(id, name.spec_bytes()) is None && chain_refused(
                    self.store(),
                    id,
                    &self.chain,
                    e,
                ),
            },
    {
        let raw = match self.shared.backend.get(Table::Meta, chain_key_of(id).as_slice()) {
            Ok(raw) => raw,
            Err(e) => return Err(e),
        };
        let raw = match raw {
            Some(raw) => raw,
            None => return Ok(share(&self.chain)),
        };
        if raw.len() != 1 {
            return Err(Error::corrupt("a locker's filter chain id is not a single byte"));
        }
        let stored: u8 = raw[0];
        assert(raw@ =~= seq![stored]);
        assert forall|x: u8| #[trigger] seq![x] == raw@ <==> x == stored by {
            assert(seq![x][0] == x);
        }
        if let Some(chain) = self.chains.get(name_bytes(name).as_slice()) {
            if chain.id() == stored {
                return Ok(share(chain));
            }
        }
        if self.chain.id() == stored {
            return Ok(share(&self.chain));
        }
        Err(wrong_chain(stored, &self.chain))
    }

    /// Refuse a second handle where either one defers its writes: two staging
    /// buffers over one name overwrite each other.
    fn refuse_second_deferred_handle(&self, name: &str, config: &LockerConfig) -> (r: Result<()>)
        ensures
            r is Ok <==> self.admits(name.spec_bytes(), config),
            r matches Err(e) ==> invalid_with(e, second_deferred(name@)),
    {
        if self.shared.handles.admits(name_bytes(name).as_slice(), config.defers_writes()) {
            return Ok(());
        }
        let head = two("locker ", quoted_text(name).as_str());
        Err(
            Error::InvalidConfig(
                two(
                    head.as_str(),
                    " is already open and one of the two handles uses Commit::Deferred; a deferred locker may have only one live handle, because two staging buffers over one name overwrite each other. Close the other handle first, or share this one.",
                ),
            ),
        )
    }

    /// Whether a handle on a name may be opened beside those that are.
    pub open spec fn admits(self, name: Seq<u8>, config: &LockerConfig) -> bool {
        !(taken(self.shared.handles.seats(), name) && (config.batch() is Some || deferring(
            self.shared.handles.seats(),
            name,
        )))
    }

    /// Register a handle that was just opened.
    fn register_open(&mut self, name: &str, defers: bool, chain: Arc<FilterChain>) -> (r: Result<u64>)
        ensures
            final(self).shared.backend == old(self).shared.backend,
            final(self).chain == old(self).chain,
            final(self).closed == old(self).closed,
            final(self).registry == old(self).registry,
            final(self).shared.values == old(self).shared.values,
            final(self).shared.ticks == old(self).shared.ticks,
            final(self).shared.coherence == old(self).shared.coherence,
            final(self).shared.tabs == old(self).shared.tabs,
            r matches Ok(ticket) ==> ticket == old(self).shared.handles.upcoming() && final(self).shared.handles.seats() == joined(
                old(self).shared.handles.seats(),
                Seat { ticket, name: name.spec_bytes(), defers, shared: false },
            ) && final(self).chains@ == old(self).chains@.insert(name.spec_bytes(), chain),
            r is Err ==> *final(self) == *old(self),
            r is Err <==> old(self).shared.handles.upcoming() == u64::MAX,
            old(self).wf() && !(taken(old(self).shared.handles.seats(), name.spec_bytes()) && (defers || deferring(
                old(self).shared.handles.seats(),
                name.spec_bytes(),
            ))) ==> final(self).wf(),
    {
        let key = name_bytes(name);
        match self.shared.handles.register(key.as_slice(), defers) {
            Ok(ticket) => {
                self.chains.insert(key, chain);
                Ok(ticket)
            },
            Err(e) => Err(e),
        }
    }

    /// Open an eager locker: everything resident, reads immediate.
    pub fn locker<T: Value>(&mut self, name: &str) -> (r: Result<Locker<T>>)
        ensures
            opens_eager(*old(self), name, LockerConfig::usual(), r, *final(self)),
    {
        self.locker_with(name, LockerConfig::default())
    }

    /// As [`Bank::locker`], with a configuration.
    pub fn locker_with<T: Value>(&mut self, name: &str, config: LockerConfig) -> (r: Result<Locker<T>>)
        ensures
            opens_eager(*old(self), name, config, r, *final(self)),
    {
        match self.ensure_open() {
            Ok(()) => {},
            Err(e) => return Err(e),
        }
        match self.refuse_second_deferred_handle(name, &config) {
            Ok(()) => {},
            Err(e) => return Err(e),
        }
        let chain = self.chain_for(&config);
        let id: u32 = match self.prepare::<T>(name, &chain) {
            Ok(id) => id,
            Err(e) => return Err(e),
        };
        let defers: bool = config.defers_writes();
        let behind = share(&chain);
        let mut locker = match Locker::<T>::open(
            &self.shared.backend,
            chain,
            id,
            String::from_str(name),
            config,
            0,
        ) {
            Ok(locker) => locker,
            Err(e) => return Err(e),
        };
        match self.register_open(name, defers, behind) {
            Ok(ticket) => {
                locker.res.inner.ticket = ticket;
            },
            Err(e) => return Err(e),
        }
        Ok(locker)
    }

    /// Open a lazy locker: keys resident, values on demand.
    pub fn lazy_locker<T: Value>(&mut self, name: &str) -> (r: Result<LazyLocker<T>>)
        ensures
            opens_lazy(*old(self), name, LockerConfig::usual(), r, *final(self)),
    {
        self.lazy_locker_with(name, LockerConfig::default())
    }

    /// As [`Bank::lazy_locker`], with a configuration.
    pub fn lazy_locker_with<T: Value>(&mut self, name: &str, config: LockerConfig) -> (r: Result<LazyLocker<T>>)
        ensures
            opens_lazy(*old(self), name, config, r, *final(self)),
    {
        match self.ensure_open() {
            Ok(()) => {},
            Err(e) => return Err(e),
        }
        match self.refuse_second_deferred_handle(name, &config) {
            Ok(()) => {},
            Err(e) => return Err(e),
        }
        let chain = self.chain_for(&config);
        let id: u32 = match self.prepare::<T>(name, &chain) {
            Ok(id) => id,
            Err(e) => return Err(e),
        };
        let defers: bool = config.defers_writes();
        let behind = share(&chain);
        let mut locker = match LazyLocker::<T>::open(
            &self.shared.backend,
            chain,
            id,
            String::from_str(name),
            config,
            0,
        ) {
            Ok(locker) => locker,
            Err(e) => return Err(e),
        };
        match self.register_open(name, defers, behind) {
            Ok(ticket) => {
                locker.res.inner.ticket = ticket;
            },
            Err(e) => return Err(e),
        }
        Ok(locker)
    }

    /// Let go of a handle that was dropped without being closed.
    pub fn release(&mut self, ticket: u64)
        ensures
            final(self).shared.handles.seats() == crate::locker::handles::but(
                old(self).shared.handles.seats(),
                ticket,
            ),
            final(self).shared.handles.upcoming() == old(self).shared.handles.upcoming(),
            *final(self) == (Bank {
                shared: (Shared { handles: final(self).shared.handles, ..old(self).shared }),
                ..*old(self)
            }),
            old(self).wf() ==> final(self).wf(),
    {
        self.shared.handles.release(ticket);
    }

    /// Whether a live handle to this locker exists.
    pub fn is_locker_open(&self, name: &str) -> (b: bool)
        ensures
            b == taken(self.shared.handles.seats(), name.spec_bytes()),
    {
        self.shared.handles.is_open(name_bytes(name).as_slice())
    }

    /// The names of every open locker, in byte order.
    pub fn open_locker_names(&self) -> (names: Vec<String>)
        ensures
            spelt(names@) == texts(listing(names_in_use(self.shared.handles.seats()))),
    {
        utf8_keys(&self.shared.handles.names())
    }

    /// Whether a locker name is registered in the store.
    pub fn locker_exists(&self, name: &str) -> (r: Result<bool>)
        ensures
            self.exists_gives(name.spec_bytes(), r),
    {
        match self.ensure_open() {
            Ok(()) => {},
            Err(e) => return Err(e),
        }
        if self.registry.contains_key(name_bytes(name).as_slice()) {
            return Ok(true);
        }
        match self.shared.backend.get(Table::Meta, locker_key_of(name).as_slice()) {
            Ok(found) => Ok(found.is_some()),
            Err(e) => Err(e),
        }
    }

    /// Whether a name is registered.
    pub open spec fn knows(self, name: Seq<u8>) -> bool {
        self.registry@.contains_key(name) || self.store().lookup(Table::Meta, locker_key(name)) is Some
    }

    /// Ask the platform to keep this bank's data. A file is kept without being
    /// asked; `said` is what came back where the platform was.
    pub fn persist(&self, said: Keeping) -> (r: Result<bool>)
        ensures
            self.closed ==> (r matches Err(e) && e is Closed),
            !self.closed ==> keeping_gives(said, r),
    {
        match self.ensure_open() {
            Ok(()) => said.answer(),
            Err(e) => Err(e),
        }
    }

    /// Whether the platform keeps this bank's data. Nothing evicts a file behind
    /// the application; `said` is what a platform that may said.
    pub fn is_persisted(&self, said: Keeping) -> (r: Result<bool>)
        ensures
            self.closed ==> (r matches Err(e) && e is Closed),
            !self.closed ==> keeping_gives(said, r),
    {
        match self.ensure_open() {
            Ok(()) => said.answer(),
            Err(e) => Err(e),
        }
    }

    /// Commit what every open locker has staged, then ask the backend to make
    /// everything durable. `open` are the lockers that are open. One whose flush
    /// fails keeps its batch and does not stop the others; the first failure is
    /// what is reported.
    pub fn flush_all(&mut self, open: Vec<&mut Resident>) -> (r: Result<()>)
        requires
            forall|i: int| 0 <= i < open@.len() ==> (*#[trigger] open@[i]).can_flush(),
        ensures
            old(self).flushing_gives(
                Seq::new(open@.len(), |i: int| *open@[i]),
                r,
                Seq::new(open@.len(), |i: int| *final(open@[i])),
                *final(self),
            ),
    {
        match self.ensure_open() {
            Ok(()) => {},
            Err(e) => {
                proof {
                    assert(has_resolved(open));
                    assert forall|i: int| 0 <= i < open@.len() implies *(#[trigger] open@[i]) == *final(open@[i]) by {
                        assert(has_resolved(open@[i]));
                    }
                    assert(Seq::new(open@.len(), |i: int| *open@[i]) =~= Seq::new(
                        open@.len(),
                        |i: int| *final(open@[i]),
                    ));
                }
                return Err(e);
            },
        }
        let ghost mut states: Seq<Shared<B>> = seq![self.shared];
        let ghost mut outcomes: Seq<Result<()>> = Seq::empty();
        let ghost list = open@;
        let mut first: Option<Error> = None;
        for res in it: open
            invariant
                it.seq() == list,
                outcomes.len() == it.index(),
                states.len() == it.index() + 1,
                states[0] == old(self).shared,
                states.last() == self.shared,
                self.chain == old(self).chain,
                self.chains == old(self).chains,
                self.closed == old(self).closed,
                self.registry == old(self).registry,
                old(self).wf() ==> self.wf(),
                forall|i: int| 0 <= i < list.len() ==> (*#[trigger] list[i]).can_flush(),
                forall|i: int|
                    0 <= i < it.index() ==> flush_gives(
                        *#[trigger] list[i],
                        states[i],
                        outcomes[i] is Ok,
                        *final(list[i]),
                        states[i + 1],
                    ),
                match first {
                    None => forall|i: int| 0 <= i < it.index() ==> (#[trigger] outcomes[i]) is Ok,
                    Some(e) => exists|i: int|
                        0 <= i < it.index() && #[trigger] first_failure(outcomes, i) && outcomes[i] == Err::<(), Error>(e),
                },
        {
            let ghost i = it.index() as int;
            let ghost before = *self;
            let outcome = res.flush(&mut self.shared);
            proof {
                assert(flush_gives(*list[i], before.shared, outcome is Ok, *final(list[i]), self.shared));
                a_flush_keeps_the_names(*list[i], before.shared, outcome is Ok, *final(list[i]), self.shared);
                assert forall|name: Seq<u8>| #[trigger] self.registry@.contains_key(name) && old(self).wf() implies number_at(
                    self.store(),
                    locker_key(name),
                ) == Some(self.registry@[name]) by {
                    assert(number_at(before.store(), locker_key(name)) == Some(before.registry@[name]));
                }
                let so_far = outcomes;
                states = states.push(self.shared);
                outcomes = outcomes.push(outcome);
                assert forall|j: int| #[trigger] first_failure(so_far, j) implies first_failure(outcomes, j)
                    && outcomes[j] == so_far[j] by {
                    assert forall|k: int| 0 <= k < j implies (#[trigger] outcomes[k]) is Ok by {
                        assert(so_far[k] is Ok);
                    }
                }
            }
            if first.is_none() {
                if let Err(e) = outcome {
                    first = Some(e);
                    assert(first_failure(outcomes, i));
                }
            }
        }
        let flushed = self.shared.backend.flush();
        proof {
            let befores = Seq::new(list.len(), |i: int| *list[i]);
            let left = Seq::new(list.len(), |i: int| *final(list[i]));
            assert forall|i: int| 0 <= i < befores.len() implies #[trigger] flushed_at(
                befores,
                states,
                outcomes,
                left,
                i,
            ) by {
                assert(flush_gives(*list[i], states[i], outcomes[i] is Ok, *final(list[i]), states[i + 1]));
            }
            assert(flushed_in_turn(befores, states, outcomes, left));
            if first is None {
                assert forall|i: int| !(#[trigger] first_failure(outcomes, i)) by {
                    if 0 <= i < outcomes.len() {
                        assert(outcomes[i] is Ok);
                    }
                }
            }
        }
        match first {
            Some(e) => Err(e),
            None => flushed,
        }
    }

    /// Close the bank: flush, and close regardless of how that went. The flush
    /// error is still returned. Closing twice is not an error.
    pub fn close(&mut self, open: Vec<&mut Resident>) -> (r: Result<()>)
        requires
            forall|i: int| 0 <= i < open@.len() ==> (*#[trigger] open@[i]).can_flush(),
        ensures
            old(self).closing_gives(
                Seq::new(open@.len(), |i: int| *open@[i]),
                r,
                Seq::new(open@.len(), |i: int| *final(open@[i])),
                *final(self),
            ),
    {
        if self.closed {
            proof {
                assert(has_resolved(open));
                assert forall|i: int| 0 <= i < open@.len() implies *(#[trigger] open@[i]) == *final(open@[i]) by {
                    assert(has_resolved(open@[i]));
                }
                assert(Seq::new(open@.len(), |i: int| *open@[i]) =~= Seq::new(
                    open@.len(),
                    |i: int| *final(open@[i]),
                ));
            }
            return Ok(());
        }
        let ghost befores = Seq::new(open@.len(), |i: int| *open@[i]);
        let ghost left = Seq::new(open@.len(), |i: int| *final(open@[i]));
        let flushed = self.flush_all(open);
        let ghost mid = *self;
        let ghost outcome = flushed;
        assert(old(self).flushing_gives(befores, outcome, left, mid));
        self.closed = true;
        // Stop posting before the backend goes: a channel still listening
        // would call into a bank that no longer works.
        self.shared.coherence.close();
        let closed = self.shared.backend.close();
        match flushed {
            Ok(()) => closed,
            Err(e) => Err(e),
        }
    }

    /// Whether [`Bank::close`] has been called.
    pub fn is_closed(&self) -> (b: bool)
        ensures
            b == self.closed,
    {
        self.closed
    }
}

/// One locker after the other was flushed, each as if it were the only one: what
/// came of one does not stop the next.
pub open spec fn flushed_in_turn<B: Backend>(
    open: Seq<Resident>,
    states: Seq<Shared<B>>,
    outcomes: Seq<Result<()>>,
    left: Seq<Resident>,
) -> bool {
    &&& states.len() == open.len() + 1
    &&& outcomes.len() == open.len()
    &&& left.len() == open.len()
    &&& forall|i: int| 0 <= i < open.len() ==> #[trigger] flushed_at(open, states, outcomes, left, i)
}

/// The flush of one locker of several.
pub open spec fn flushed_at<B: Backend>(
    open: Seq<Resident>,
    states: Seq<Shared<B>>,
    outcomes: Seq<Result<()>>,
    left: Seq<Resident>,
    i: int,
) -> bool {
    flush_gives(open[i], states[i], outcomes[i] is Ok, left[i], states[i + 1])
}

/// The backend was asked to make everything durable, and the first failure, or
/// else its answer, is what is reported.
pub open spec fn forced_out<B: Backend>(
    shared: Shared<B>,
    outcomes: Seq<Result<()>>,
    r: Result<()>,
    now: Shared<B>,
) -> bool {
    &&& now == (Shared { backend: now.backend, ..shared })
    &&& now.backend.store() == shared.backend.store()
    &&& r is Ok || shared.backend.answers() ==> now.backend.forced()
    &&& shared.backend.answers() ==> now.backend.answers()
    &&& (exists|i: int| first_failure(outcomes, i)) ==> exists|i: int| #[trigger]
        first_failure(outcomes, i) && r == outcomes[i]
    &&& shared.backend.answers() && (forall|i: int| 0 <= i < outcomes.len() ==> (#[trigger] outcomes[i]) is Ok)
        ==> r is Ok
}

/// The first outcome that is a failure.
pub open spec fn first_failure(outcomes: Seq<Result<()>>, i: int) -> bool {
    &&& 0 <= i < outcomes.len()
    &&& outcomes[i] is Err
    &&& forall|j: int| 0 <= j < i ==> (#[trigger] outcomes[j]) is Ok
}

/// Giving a name an id touches no record and no chunk.
proof fn naming_touches_no_record(store: Store, known: Map<Seq<u8>, u32>, name: Seq<u8>)
    ensures
        named(store, known, name) matches Some((id, after)) ==> after.records == store.records && after.chunks
            == store.chunks,
{
    if let Some(id) = next_id_of(store) {
        if id < u32::MAX {
            registering(store, name, id);
        }
    }
}

/// Names and the counter are kept under different keys.
pub proof fn meta_keys_are_apart(name: Seq<u8>, id: LockerId)
    ensures
        locker_key(name) != next_locker_id_key(),
        locker_key(name) != format_version_key(),
        locker_key(name) != schema_key(id),
        locker_key(name) != chain_key(id),
        schema_key(id) != next_locker_id_key(),
        schema_key(id) != chain_key(id),
        chain_key(id) != next_locker_id_key(),
        schema_key(id) != format_version_key(),
        chain_key(id) != format_version_key(),
        next_locker_id_key() != format_version_key(),
{
    first_bytes();
    assert(locker_key(name)[0] == locker_prefix()[0]);
    assert(schema_key(id)[0] == "schema::".spec_bytes()[0]);
    assert(chain_key(id)[0] == "chain::".spec_bytes()[0]);
}

/// The first byte of each fixed name.
proof fn first_bytes()
    ensures
        "locker::".spec_bytes().len() > 0,
        "locker::".spec_bytes()[0] == 108,
        "schema::".spec_bytes().len() > 0,
        "schema::".spec_bytes()[0] == 115,
        "chain::".spec_bytes().len() > 0,
        "chain::".spec_bytes()[0] == 99,
        "next_locker_id".spec_bytes().len() > 0,
        "next_locker_id".spec_bytes()[0] == 110,
        "format_version".spec_bytes().len() > 0,
        "format_version".spec_bytes()[0] == 102,
{
    reveal_strlit("locker::");
    reveal_strlit("schema::");
    reveal_strlit("chain::");
    reveal_strlit("next_locker_id");
    reveal_strlit("format_version");
    first_byte("locker::"@, 'l');
    first_byte("schema::"@, 's');
    first_byte("chain::"@, 'c');
    first_byte("next_locker_id"@, 'n');
    first_byte("format_version"@, 'f');
}

/// Text that starts with an ASCII letter starts with its byte.
pub(crate) proof fn first_byte(text: Seq<char>, c: char)
    requires
        text.len() > 0,
        text[0] == c,
        (c as u32) < 128,
    ensures
        encode_utf8(text).len() > 0,
        encode_utf8(text)[0] == c as u8,
{
    reveal_with_fuel(encode_utf8, 2);
    let scalar = c as u32;
    assert((scalar & 0x7F) as u8 == scalar as u8) by (bit_vector)
        requires
            scalar < 128,
    ;
    assert(encode_utf8(text)[0] == vstd::utf8::encode_scalar(scalar)[0]);
}

/// Registering a name records it and moves the counter.
pub(crate) proof fn registering(store: Store, name: Seq<u8>, id: u32)
    requires
        id < u32::MAX,
    ensures
        ({
            let after = store.after_all(registration(name, id));
            &&& after.records == store.records
            &&& after.chunks == store.chunks
            &&& after.meta == store.meta.insert(locker_key(name), be32(id)).insert(
                next_locker_id_key(),
                be32((id + 1) as u32),
            )
            &&& number_at(after, locker_key(name)) == Some(id)
            &&& next_id_of(after) == Some((id + 1) as u32)
            &&& forall|other: Seq<u8>|
                other != name ==> #[trigger] number_at(after, locker_key(other)) == number_at(store, locker_key(other))
        }),
{
    let list = registration(name, id);
    let one = meta_put(locker_key(name), be32(id));
    let two = meta_put(next_locker_id_key(), be32((id + 1) as u32));
    assert(list =~= Seq::<Change>::empty().push(one).push(two));
    after_all_pushes(store, Seq::<Change>::empty().push(one), two);
    after_all_pushes(store, Seq::empty(), one);
    assert(store.after_all(Seq::<Change>::empty()) == store);
    meta_keys_are_apart(name, 0);
    crate::bytes::be32_round_trips(id);
    crate::bytes::be32_round_trips((id + 1) as u32);
    let after = store.after_all(list);
    assert forall|other: Seq<u8>| other != name implies #[trigger] number_at(after, locker_key(other)) == number_at(
        store,
        locker_key(other),
    ) by {
        meta_keys_are_apart(other, 0);
        if locker_key(other) == locker_key(name) {
            assert(other =~= locker_key(other).skip(locker_prefix().len() as int));
            assert(name =~= locker_key(name).skip(locker_prefix().len() as int));
        }
    }
}

} // verus!
