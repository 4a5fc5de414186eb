//! What every backend owes, asked of a backend that forgets on reopening and
//! of one that does not.

use std::cell::{RefCell, RefMut};
use std::ops::Bound::{Excluded, Included};
use std::ops::{Bound, RangeBounds};
use std::rc::{Rc, Weak};
use std::sync::Arc;

use crossbank::backend::api::{
    Backend, CommitOptions, KeyRange, Op, ScanPage, ScanRequest, Table,
};
use crossbank::codec::value::Value;
use crossbank::harness::Caps;
use crossbank::key::{encode, LockerId};
use crossbank::locker::inner::Inner;
use crossbank::locker::resident::Resident;
use crossbank::sorted::ByteMap;
use crossbank::{
    Bank, Commit, Error, Event, EventStream, Keeping, LazyLocker, Locker, LockerConfig, MemoryBackend,
    OnCorrupt, Policy, Reader, Result, Transaction, Usage, Writer,
};

type V = String;

fn v(s: &str) -> V {
    s.to_string()
}

/// A number, eight bytes wide.
struct Number(u64);

impl Value for Number {
    fn tag() -> String {
        "u64".to_string()
    }
    fn to_payload(&self) -> Result<Vec<u8>> {
        postcard::to_allocvec(&self.0).map_err(|e| Error::Filter(e.to_string()))
    }
    fn from_payload(payload: &[u8]) -> Result<Self> {
        postcard::from_bytes(payload)
            .map(Number)
            .map_err(|e| Error::Corrupt(e.to_string()))
    }
}

/// A handle onto a store that outlives it.
struct Disk {
    store: Rc<RefCell<MemoryBackend>>,
    open: bool,
}

impl Disk {
    fn check(&self) -> Result<()> {
        if self.open {
            Ok(())
        } else {
            Err(Error::Closed)
        }
    }
}

impl Backend for Disk {
    fn get(&self, table: Table, key: &[u8]) -> Result<Option<Vec<u8>>> {
        self.check()?;
        self.store.borrow().get(table, key)
    }
    fn get_many(&self, table: Table, keys: Vec<Vec<u8>>) -> Result<Vec<Option<Vec<u8>>>> {
        self.check()?;
        self.store.borrow().get_many(table, keys)
    }
    fn scan(&self, request: ScanRequest) -> Result<ScanPage> {
        self.check()?;
        self.store.borrow().scan(request)
    }
    fn scan_page_size(&self) -> usize {
        self.store.borrow().scan_page_size()
    }
    fn commit(&mut self, ops: Vec<Op>) -> Result<()> {
        self.check()?;
        self.store.borrow_mut().commit(ops)
    }
    fn commit_with(&mut self, ops: Vec<Op>, options: CommitOptions) -> Result<()> {
        self.check()?;
        self.store.borrow_mut().commit_with(ops, options)
    }
    fn usage(&self) -> Result<Option<Usage>> {
        self.check()?;
        self.store.borrow().usage()
    }
    fn flush(&mut self) -> Result<()> {
        self.check()?;
        self.store.borrow_mut().flush()
    }
    fn close(&mut self) -> Result<()> {
        self.open = false;
        Ok(())
    }
}

/// Hands out backends: onto one store, or onto a fresh one each time.
struct Harness {
    kept: Option<Rc<RefCell<MemoryBackend>>>,
}

impl Harness {
    fn caps(&self) -> Caps {
        Caps {
            persists_across_open: self.kept.is_some(),
            reports_usage: true,
        }
    }
    fn open(&self) -> Disk {
        let store = match &self.kept {
            Some(store) => store.clone(),
            None => Rc::new(RefCell::new(MemoryBackend::new())),
        };
        Disk { store, open: true }
    }
}

fn harnesses() -> [Harness; 2] {
    [
        Harness {
            kept: Some(Rc::new(RefCell::new(MemoryBackend::new()))),
        },
        Harness { kept: None },
    ]
}

type Vault = Rc<RefCell<Bank<Disk>>>;

/// A locker of either sort, as its bank flushes it.
trait Staging {
    fn resident(&mut self) -> &mut Resident;
}

impl<T> Staging for Locker<T> {
    fn resident(&mut self) -> &mut Resident {
        &mut self.res
    }
}

impl<T> Staging for LazyLocker<T> {
    fn resident(&mut self) -> &mut Resident {
        &mut self.res
    }
}

struct Opened {
    bank: Vault,
    lockers: RefCell<Vec<Weak<RefCell<dyn Staging>>>>,
}

fn bank(h: &Harness) -> Result<Opened> {
    Ok(Opened {
        bank: Rc::new(RefCell::new(Bank::with_backend(h.open())?)),
        lockers: RefCell::new(Vec::new()),
    })
}

impl Opened {
    fn lazy_locker<T: Value + 'static>(&self, name: &str) -> Result<Lazy<T>> {
        self.lazy_locker_with(name, LockerConfig::default())
    }
    fn lazy_locker_with<T: Value + 'static>(&self, name: &str, config: LockerConfig) -> Result<Lazy<T>> {
        let locker = self.bank.borrow_mut().lazy_locker_with(name, config)?;
        let locker: Rc<RefCell<LazyLocker<T>>> = Rc::new(RefCell::new(locker));
        let known: Rc<RefCell<dyn Staging>> = locker.clone();
        self.lockers.borrow_mut().push(Rc::downgrade(&known));
        Ok(Lazy {
            locker,
            bank: self.bank.clone(),
        })
    }
    fn locker<T: Value + 'static>(&self, name: &str) -> Result<Eager<T>> {
        self.locker_with(name, LockerConfig::default())
    }
    fn locker_with<T: Value + 'static>(&self, name: &str, config: LockerConfig) -> Result<Eager<T>> {
        let locker = self.bank.borrow_mut().locker_with(name, config)?;
        let locker: Rc<RefCell<Locker<T>>> = Rc::new(RefCell::new(locker));
        let known: Rc<RefCell<dyn Staging>> = locker.clone();
        self.lockers.borrow_mut().push(Rc::downgrade(&known));
        Ok(Eager {
            locker,
            bank: self.bank.clone(),
        })
    }
    fn commit(&self, ops: Vec<Op>) -> Result<()> {
        self.bank.borrow_mut().shared.backend.commit(ops)
    }
    fn locker_id(&self, name: &str) -> Result<LockerId> {
        self.bank.borrow_mut().locker_id(name)
    }
    fn locker_exists(&self, name: &str) -> Result<bool> {
        self.bank.borrow().locker_exists(name)
    }
    fn locker_names(&self) -> Result<Vec<String>> {
        self.bank.borrow().locker_names()
    }
    fn locker_bytes(&self, name: &str) -> Result<u64> {
        self.bank.borrow_mut().locker_bytes(name)
    }
    fn delete_locker(&self, name: &str) -> Result<bool> {
        self.bank.borrow_mut().delete_locker(name)
    }
    fn verify(&self, name: &str) -> Result<Vec<Vec<u8>>> {
        self.bank.borrow_mut().verify(name)
    }
    fn quarantine(&self, name: &str, keys: &Vec<Vec<u8>>) -> Result<usize> {
        self.bank.borrow_mut().quarantine(name, keys)
    }
    fn is_locker_open(&self, name: &str) -> bool {
        self.bank.borrow().is_locker_open(name)
    }
    fn open_locker_names(&self) -> Vec<String> {
        self.bank.borrow().open_locker_names()
    }
    fn usage(&self) -> Result<Option<Usage>> {
        self.bank.borrow().usage()
    }
    fn is_persisted(&self) -> Result<bool> {
        self.bank.borrow().is_persisted(Keeping::Always)
    }
    fn with_open<R>(&self, f: impl FnOnce(Vec<&mut Resident>) -> R) -> R {
        let live: Vec<Rc<RefCell<dyn Staging>>> =
            self.lockers.borrow().iter().filter_map(|l| l.upgrade()).collect();
        let mut guards: Vec<RefMut<dyn Staging>> = live.iter().map(|l| l.borrow_mut()).collect();
        f(guards.iter_mut().map(|l| l.resident()).collect())
    }
    fn flush_all(&self) -> Result<()> {
        self.with_open(|open| self.bank.borrow_mut().flush_all(open))
    }
    fn close(&self) -> Result<()> {
        self.with_open(|open| self.bank.borrow_mut().close(open))
    }
    fn is_closed(&self) -> bool {
        self.bank.borrow().is_closed()
    }
}

/// A lazy locker with the bank it came from.
struct Lazy<T> {
    locker: Rc<RefCell<LazyLocker<T>>>,
    bank: Vault,
}

/// An eager locker with the bank it came from.
struct Eager<T> {
    locker: Rc<RefCell<Locker<T>>>,
    bank: Vault,
}

/// A transaction with everything it reads from.
struct Tx<'a, T> {
    staged: RefCell<Transaction<T>>,
    inner: &'a Inner,
    backend: &'a Disk,
}

impl<T: Value> Tx<'_, T> {
    fn put(&self, key: &str, value: T) -> Result<()> {
        self.staged.borrow_mut().put(key, value)
    }
    fn delete(&self, key: &str) -> Result<()> {
        self.staged.borrow_mut().delete(key)
    }
    fn clear(&self) -> Result<()> {
        self.staged.borrow_mut().clear()
    }
    fn get(&self, key: &str) -> Result<Option<T>> {
        self.staged.borrow().get(self.inner, self.backend, key)
    }
}

fn str_bound<'a>(bound: Bound<&&'a str>) -> Bound<&'a str> {
    match bound {
        Bound::Unbounded => Bound::Unbounded,
        Bound::Included(s) => Bound::Included(s),
        Bound::Excluded(s) => Bound::Excluded(s),
    }
}

fn byte_bound<'a>(bound: Bound<&&'a [u8]>) -> Bound<&'a [u8]> {
    match bound {
        Bound::Unbounded => Bound::Unbounded,
        Bound::Included(s) => Bound::Included(s),
        Bound::Excluded(s) => Bound::Excluded(s),
    }
}

impl<T: Value> Lazy<T> {
    fn get(&self, key: &str) -> Result<Option<T>> {
        self.locker.borrow_mut().get(&mut self.bank.borrow_mut().shared, key)
    }
    fn get_by(&self, key: &[u8]) -> Result<Option<T>> {
        self.locker.borrow_mut().get_by(&mut self.bank.borrow_mut().shared, key)
    }
    fn put(&self, key: &str, value: &T) -> Result<()> {
        self.locker.borrow_mut().put(&mut self.bank.borrow_mut().shared, key, value)
    }
    fn put_by(&self, key: &[u8], value: &T) -> Result<()> {
        self.locker.borrow_mut().put_by(&mut self.bank.borrow_mut().shared, key, value)
    }
    fn delete(&self, key: &str) -> Result<()> {
        self.locker.borrow_mut().delete(&mut self.bank.borrow_mut().shared, key)
    }
    fn delete_by(&self, key: &[u8]) -> Result<()> {
        self.locker.borrow_mut().delete_by(&mut self.bank.borrow_mut().shared, key)
    }
    fn clear(&self) -> Result<()> {
        self.locker.borrow_mut().clear(&mut self.bank.borrow_mut().shared)
    }
    fn flush(&self) -> Result<()> {
        self.locker.borrow_mut().flush(&mut self.bank.borrow_mut().shared)
    }
    fn close(&self) -> Result<()> {
        self.locker.borrow_mut().close(&mut self.bank.borrow_mut().shared)
    }
    fn evict_to(&self, bytes: u64) -> Result<usize> {
        self.locker.borrow_mut().evict_to(&mut self.bank.borrow_mut().shared, bytes)
    }
    fn put_all(&self, entries: Vec<(String, T)>) -> Result<()> {
        self.locker.borrow_mut().put_all(&mut self.bank.borrow_mut().shared, entries)
    }
    fn delete_all<K: AsRef<str>>(&self, keys: impl IntoIterator<Item = K>) -> Result<()> {
        let keys = keys.into_iter().map(|k| k.as_ref().to_string()).collect();
        self.locker.borrow_mut().delete_all(&mut self.bank.borrow_mut().shared, &keys)
    }
    fn transact(&self, f: impl FnOnce(&Tx<T>) -> Result<()>) -> Result<()> {
        self.locker
            .borrow_mut()
            .transact(&mut self.bank.borrow_mut().shared, |tx, inner, backend| {
                let tx = Tx {
                    staged: RefCell::new(tx),
                    inner,
                    backend,
                };
                f(&tx)?;
                Ok(tx.staged.into_inner())
            })
    }
    fn range<'a>(&self, range: impl RangeBounds<&'a str>) -> Result<Vec<(String, T)>> {
        self.locker.borrow().range(
            &self.bank.borrow().shared.backend,
            str_bound(range.start_bound()),
            str_bound(range.end_bound()),
        )
    }
    fn range_rev<'a>(&self, range: impl RangeBounds<&'a str>) -> Result<Vec<(String, T)>> {
        self.locker.borrow().range_rev(
            &self.bank.borrow().shared.backend,
            str_bound(range.start_bound()),
            str_bound(range.end_bound()),
        )
    }
    fn range_by<'a>(&self, range: impl RangeBounds<&'a [u8]>) -> Result<Vec<(Vec<u8>, T)>> {
        self.locker.borrow().range_by(
            &self.bank.borrow().shared.backend,
            byte_bound(range.start_bound()),
            byte_bound(range.end_bound()),
        )
    }
    fn to_map(&self) -> Result<ByteMap<T>> {
        self.locker.borrow().to_map(&self.bank.borrow().shared.backend)
    }
    fn len(&self) -> usize {
        self.locker.borrow().len()
    }
    fn pending(&self) -> usize {
        self.locker.borrow().pending()
    }
    fn pending_bytes(&self) -> u64 {
        self.locker.borrow().pending_bytes()
    }
    fn budget_used(&self) -> u64 {
        self.locker.borrow().budget_used()
    }
    fn contains_key(&self, key: &str) -> bool {
        self.locker.borrow().contains_key(key)
    }
    fn contains_key_by(&self, key: &[u8]) -> bool {
        self.locker.borrow().contains_key_by(key)
    }
    fn keys(&self) -> Vec<String> {
        self.locker.borrow().keys()
    }
    fn keys_bytes(&self) -> Vec<Vec<u8>> {
        self.locker.borrow().keys_bytes()
    }
    fn keys_with_prefix(&self, prefix: &str) -> Vec<String> {
        self.locker.borrow().keys_with_prefix(prefix)
    }
    fn has_non_utf8_keys(&self) -> bool {
        self.locker.borrow().has_non_utf8_keys()
    }
    fn watch(&self) -> EventStream {
        self.locker.borrow_mut().watch()
    }
    fn range_rev_by<'a>(&self, range: impl RangeBounds<&'a [u8]>) -> Result<Vec<(Vec<u8>, T)>> {
        self.locker.borrow().range_rev_by(
            &self.bank.borrow().shared.backend,
            byte_bound(range.start_bound()),
            byte_bound(range.end_bound()),
        )
    }
    fn is_empty(&self) -> bool {
        self.locker.borrow().is_empty()
    }
    fn is_closed(&self) -> bool {
        self.locker.borrow().is_closed()
    }
}

impl Lazy<Vec<u8>> {
    fn writer(&self, key: &str) -> Result<Writing> {
        let writer = self
            .locker
            .borrow_mut()
            .writer(&mut self.bank.borrow_mut().shared, key)?;
        Ok(Writing {
            writer: Some(writer),
            locker: self.locker.clone(),
            bank: self.bank.clone(),
        })
    }
    fn reader(&self, key: &str) -> Result<Option<Reader>> {
        self.locker
            .borrow()
            .reader(&self.bank.borrow().shared.backend, key)
    }
}

/// A stream of bytes on its way in.
struct Writing {
    writer: Option<Writer>,
    locker: Rc<RefCell<LazyLocker<Vec<u8>>>>,
    bank: Vault,
}

impl Writing {
    fn write_chunk(&mut self, bytes: &[u8]) -> Result<()> {
        self.writer.as_mut().unwrap().write_chunk(
            &mut self.locker.borrow_mut(),
            &mut self.bank.borrow_mut().shared,
            bytes,
        )
    }
    fn abort(mut self) -> Result<()> {
        self.writer
            .take()
            .unwrap()
            .abort(&mut self.locker.borrow_mut(), &mut self.bank.borrow_mut().shared)
    }
}

impl<T: Value> Eager<T> {
    fn get(&self, key: &str) -> Option<Arc<T>> {
        self.locker.borrow().get(key)
    }
    fn put(&self, key: &str, value: T) -> Result<Arc<T>> {
        self.locker.borrow_mut().put(&mut self.bank.borrow_mut().shared, key, value)
    }
    fn delete(&self, key: &str) -> Result<()> {
        self.locker.borrow_mut().delete(&mut self.bank.borrow_mut().shared, key)
    }
    fn clear(&self) -> Result<()> {
        self.locker.borrow_mut().clear(&mut self.bank.borrow_mut().shared)
    }
    fn flush(&self) -> Result<()> {
        self.locker.borrow_mut().flush(&mut self.bank.borrow_mut().shared)
    }
    fn close(&self) -> Result<()> {
        self.locker.borrow_mut().close(&mut self.bank.borrow_mut().shared)
    }
    fn put_all(&self, entries: Vec<(String, T)>) -> Result<()> {
        self.locker.borrow_mut().put_all(&mut self.bank.borrow_mut().shared, entries)
    }
    fn range<'a>(&self, range: impl RangeBounds<&'a str>) -> Vec<(String, Arc<T>)> {
        self.locker
            .borrow()
            .range(str_bound(range.start_bound()), str_bound(range.end_bound()))
    }
    fn to_map(&self) -> ByteMap<Arc<T>> {
        self.locker.borrow().to_map()
    }
    fn len(&self) -> usize {
        self.locker.borrow().len()
    }
    fn pending(&self) -> usize {
        self.locker.borrow().pending()
    }
    fn is_closed(&self) -> bool {
        self.locker.borrow().is_closed()
    }
    fn corrupt_keys(&self) -> Vec<Vec<u8>> {
        self.locker.borrow().corrupt_keys()
    }
}

fn tiny_chunks() -> LockerConfig {
    LockerConfig::default().with_chunk_size(32)
}

/// Count every stored row in one table, paging the way a real caller does.
fn count_rows(bank: &Opened, table: Table) -> Result<usize> {
    let mut range = KeyRange::all();
    let mut seen = 0usize;
    loop {
        let page = bank.bank.borrow().backend().scan(ScanRequest {
            table,
            range: range.clone(),
            reverse: false,
            limit: 64,
            want_values: false,
        })?;
        seen += page.items.len();
        match page.resume {
            Some(last) => range.start = Bound::Excluded(last),
            None => break,
        }
    }
    Ok(seen)
}

#[test]
fn put_get_roundtrip() -> Result<()> {
    for h in &harnesses() {
        let bank = bank(h)?;
        let locker = bank.lazy_locker::<V>("l")?;

        locker.put("k", &v("value"))?;
        assert_eq!(locker.get("k")?, Some(v("value")));
    }
    Ok(())
}

#[test]
fn missing_key_is_none() -> Result<()> {
    for h in &harnesses() {
        let bank = bank(h)?;
        let locker = bank.lazy_locker::<V>("l")?;

        assert_eq!(locker.get("absent")?, None);
        assert!(!locker.contains_key("absent"));
    }
    Ok(())
}

/// A stored empty value and a missing key are different things.
#[test]
fn empty_value_is_not_a_missing_key() -> Result<()> {
    for h in &harnesses() {
        let bank = bank(h)?;
        let locker = bank.lazy_locker::<V>("l")?;

        locker.put("empty", &v(""))?;

        assert_eq!(locker.get("empty")?, Some(v("")));
        assert_eq!(locker.get("never_written")?, None);
        assert!(locker.contains_key("empty"));
    }
    Ok(())
}

#[test]
fn overwrite_replaces_value() -> Result<()> {
    for h in &harnesses() {
        let bank = bank(h)?;
        let locker = bank.lazy_locker::<V>("l")?;

        locker.put("k", &v("first"))?;
        locker.put("k", &v("second"))?;

        assert_eq!(locker.get("k")?, Some(v("second")));
        assert_eq!(locker.len(), 1, "overwrite must not add a second key");
    }
    Ok(())
}

#[test]
fn delete_is_idempotent() -> Result<()> {
    for h in &harnesses() {
        let bank = bank(h)?;
        let locker = bank.lazy_locker::<V>("l")?;

        locker.put("k", &v("value"))?;
        locker.delete("k")?;
        locker.delete("k")?;
        locker.delete("never_existed")?;

        assert_eq!(locker.get("k")?, None);
    }
    Ok(())
}

/// A clear must be bounded by its own locker.
#[test]
fn clear_empties_only_its_own_locker() -> Result<()> {
    for h in &harnesses() {
        let bank = bank(h)?;
        let one = bank.lazy_locker::<V>("one")?;
        let two = bank.lazy_locker::<V>("two")?;

        one.put("k", &v("from one"))?;
        two.put("k", &v("from two"))?;

        one.clear()?;

        assert_eq!(one.get("k")?, None);
        assert_eq!(
            two.get("k")?,
            Some(v("from two")),
            "clearing one locker must not disturb another"
        );
    }
    Ok(())
}

#[test]
fn keys_are_ordered_by_utf8_bytes() -> Result<()> {
    for h in &harnesses() {
        let bank = bank(h)?;
        let locker = bank.lazy_locker::<V>("l")?;

        for k in ["c", "a", "B", "b", "A"] {
            locker.put(k, &v("x"))?;
        }

        // Uppercase sorts below lowercase in ASCII, which is byte order.
        assert_eq!(locker.keys(), vec!["A", "B", "a", "b", "c"]);
    }
    Ok(())
}

/// The case that makes the web backend honest.
#[test]
fn keys_above_the_bmp_sort_bytewise() -> Result<()> {
    for h in &harnesses() {
        let bank = bank(h)?;
        let locker = bank.lazy_locker::<V>("l")?;

        for k in ["\u{1F34E}", "\u{E000}", "\u{FFFD}", "a"] {
            locker.put(k, &v("x"))?;
        }

        assert_eq!(
            locker.keys(),
            vec!["a", "\u{E000}", "\u{FFFD}", "\u{1F34E}"],
            "keys must sort by UTF-8 bytes, not UTF-16 code units"
        );
    }
    Ok(())
}

#[test]
fn prefix_listing_stops_at_the_boundary() -> Result<()> {
    for h in &harnesses() {
        let bank = bank(h)?;
        let locker = bank.lazy_locker::<V>("l")?;

        for k in [
            "BTCUSDT::1",
            "BTCUSDT::2",
            "BTCUSDU::1",
            "BTC",
            "ETHUSDT::1",
        ] {
            locker.put(k, &v("x"))?;
        }

        assert_eq!(
            locker.keys_with_prefix("BTCUSDT::"),
            vec!["BTCUSDT::1", "BTCUSDT::2"]
        );
    }
    Ok(())
}

#[test]
fn every_backend_ranges_from_included_to_excluded() -> Result<()> {
    for h in &harnesses() {
        let bank = bank(h)?;
        let locker = bank.lazy_locker::<V>("l")?;

        for k in ["a", "b", "c", "d"] {
            locker.put(k, &v(k))?;
        }

        let keys: Vec<String> = locker
            .range("b".."d")?
            .into_iter()
            .map(|(k, _)| k)
            .collect();
        assert_eq!(keys, vec!["b", "c"]);
    }
    Ok(())
}

#[test]
fn every_backend_descends_a_reverse_range() -> Result<()> {
    for h in &harnesses() {
        let bank = bank(h)?;
        let locker = bank.lazy_locker::<V>("l")?;

        for k in ["a", "b", "c"] {
            locker.put(k, &v(k))?;
        }

        let keys: Vec<String> = locker
            .range_rev(..)?
            .into_iter()
            .map(|(k, _)| k)
            .collect();
        assert_eq!(keys, vec!["c", "b", "a"]);
    }
    Ok(())
}

/// Every scan pages, because an IndexedDB cursor cannot outlive its
/// transaction. This proves paging neither skips nor repeats across the
/// boundary.
#[test]
fn paging_covers_every_key_exactly_once() -> Result<()> {
    for h in &harnesses() {
        let bank = bank(h)?;
        let locker = bank.lazy_locker::<V>("l")?;

        let n: usize = 600; // comfortably past the internal page size
        for i in 0..n {
            locker.put(&format!("k{i:04}"), &v("x"))?;
        }

        let all = locker.range(..)?;
        assert_eq!(all.len(), n);

        let mut keys: Vec<String> = all.into_iter().map(|(k, _)| k).collect();
        keys.dedup();
        assert_eq!(keys.len(), n, "paging must not repeat a key");
        assert_eq!(locker.len(), n, "the index must agree with storage");
    }
    Ok(())
}

#[test]
fn transaction_commit_is_atomic() -> Result<()> {
    for h in &harnesses() {
        let bank = bank(h)?;
        let locker = bank.lazy_locker::<V>("l")?;

        locker
            .transact(|tx| {
                tx.put("chunk::0", v("a"))?;
                tx.put("chunk::1", v("b"))?;
                tx.put("manifest", v("done"))?;
                Ok(())
            })?;

        assert_eq!(locker.get("chunk::0")?, Some(v("a")));
        assert_eq!(locker.get("chunk::1")?, Some(v("b")));
        assert_eq!(locker.get("manifest")?, Some(v("done")));
    }
    Ok(())
}

/// The property that will make chunked writes safe: a failure partway through
/// leaves the previous state intact, never a blend.
#[test]
fn transaction_rollback_writes_nothing() -> Result<()> {
    for h in &harnesses() {
        let bank = bank(h)?;
        let locker = bank.lazy_locker::<V>("l")?;

        locker.put("existing", &v("old"))?;

        let outcome: Result<()> = locker
            .transact(|tx| {
                tx.put("a", v("1"))?;
                tx.put("b", v("2"))?;
                Err(Error::backend("deliberate failure"))
            });
        assert!(outcome.is_err(), "the transaction should have failed");

        assert_eq!(locker.get("a")?, None);
        assert_eq!(locker.get("b")?, None);
        assert_eq!(locker.get("existing")?, Some(v("old")));
        assert_eq!(locker.len(), 1, "the index must not have been touched");
    }
    Ok(())
}

#[test]
fn transaction_reads_its_own_writes() -> Result<()> {
    for h in &harnesses() {
        let bank = bank(h)?;
        let locker = bank.lazy_locker::<V>("l")?;

        locker.put("k", &v("stored"))?;

        locker
            .transact(|tx| {
                assert_eq!(tx.get("k")?, Some(v("stored")));
                tx.put("k", v("staged"))?;
                assert_eq!(tx.get("k")?, Some(v("staged")));
                tx.delete("k")?;
                assert_eq!(tx.get("k")?, None);
                Ok(())
            })?;

        assert_eq!(locker.get("k")?, None);
    }
    Ok(())
}

#[test]
fn watch_reports_writes_and_deletes() -> Result<()> {
    for h in &harnesses() {
        let bank = bank(h)?;
        let locker = bank.lazy_locker::<V>("l")?;

        let mut events = locker.watch();

        locker.put("k", &v("value"))?;
        locker.delete("k")?;

        assert_eq!(events.try_recv(), Some(Event::Put { key: "k".into() }));
        assert_eq!(
            events.try_recv(),
            Some(Event::Deleted { key: "k".into() })
        );
    }
    Ok(())
}

/// Persistence, asserted in both directions.
#[test]
fn reopen_matches_declared_persistence() -> Result<()> {
    for h in &harnesses() {
        {
            let bank = bank(h)?;
            let locker = bank.lazy_locker::<V>("l")?;
            locker.put("k", &v("survives"))?;
        }

        let bank = bank(h)?;
        let locker = bank.lazy_locker::<V>("l")?;

        if h.caps().persists_across_open {
            assert_eq!(
                locker.get("k")?,
                Some(v("survives")),
                "a persistent backend must find its data after reopening"
            );
        } else {
            assert_eq!(
                locker.get("k")?,
                None,
                "a non-persistent backend must NOT find data after reopening"
            );
        }
    }
    Ok(())
}

/// Reopening a locker under a different value type is refused.
#[test]
fn schema_mismatch_is_refused() -> Result<()> {
    for h in &harnesses() {
        let bank = bank(h)?;
        bank.lazy_locker::<V>("typed")?;

        match bank.lazy_locker::<Number>("typed") {
            Err(Error::SchemaMismatch { .. }) => {}
            Err(other) => panic!("expected SchemaMismatch, got {other:?}"),
            Ok(_) => panic!("opening a locker as a different type should have been refused"),
        }
    }
    Ok(())
}

/// A value larger than the chunk size round-trips through `put`/`get`.
#[test]
fn a_value_larger_than_the_chunk_size_round_trips() -> Result<()> {
    for h in &harnesses() {
        let bank = bank(h)?;
        let locker = bank.lazy_locker_with::<V>("l", tiny_chunks())?;
        let big = "x".repeat(200);
        locker.put("k", &big)?;
        assert_eq!(locker.get("k")?, Some(big));
    }
    Ok(())
}

/// Overwriting a chunked value replaces it and does not blend old chunks.
#[test]
fn overwriting_a_chunked_value_replaces_it() -> Result<()> {
    for h in &harnesses() {
        let bank = bank(h)?;
        let locker = bank.lazy_locker_with::<V>("l", tiny_chunks())?;
        locker.put("k", &"a".repeat(200))?;
        locker.put("k", &"b".repeat(180))?;
        assert_eq!(locker.get("k")?, Some("b".repeat(180)));
    }
    Ok(())
}

/// Deleting a chunked value makes it gone.
#[test]
fn deleting_a_chunked_value_removes_it() -> Result<()> {
    for h in &harnesses() {
        let bank = bank(h)?;
        let locker = bank.lazy_locker_with::<V>("l", tiny_chunks())?;
        locker.put("k", &"z".repeat(200))?;
        locker.delete("k")?;
        assert_eq!(locker.get("k")?, None);
        assert!(!locker.contains_key("k"));
    }
    Ok(())
}

/// An unfinished writer leaves the previous complete value intact.
#[test]
fn unfinished_writer_leaves_the_previous_value() -> Result<()> {
    for h in &harnesses() {
        let bank = bank(h)?;
        let locker = bank
            .lazy_locker_with::<Vec<u8>>("bytes", tiny_chunks())?;
        locker.put("k", &vec![1u8; 80])?;

        let mut writer = locker.writer("k")?;
        writer.write_chunk(&[9u8; 40])?;
        writer.abort()?;

        assert_eq!(locker.get("k")?, Some(vec![1u8; 80]));
    }
    Ok(())
}

/// Closing a bank releases the store, and reopening finds the same data.
#[test]
fn close_then_reopen_sees_the_same_data() -> Result<()> {
    for h in &harnesses() {
        let first = bank(h)?;
        let locker = first.lazy_locker::<V>("l")?;
        locker.put("k", &v("survives"))?;

        first.close()?;
        assert!(first.is_closed(), "close() must be observable");

        let second = bank(h)?;
        let locker = second.lazy_locker::<V>("l")?;

        if h.caps().persists_across_open {
            assert_eq!(
                locker.get("k")?,
                Some(v("survives")),
                "a persistent backend must find its data after close and reopen"
            );
        } else {
            assert_eq!(
                locker.get("k")?,
                None,
                "a non-persistent backend must NOT find data after close and reopen"
            );
        }
    }
    Ok(())
}

/// Everything refuses politely after a close. Nothing panics, nothing lies.
#[test]
fn operations_after_close_report_closed() -> Result<()> {
    for h in &harnesses() {
        let bank = bank(h)?;
        let lazy = bank.lazy_locker::<V>("lazy")?;
        let eager = bank.locker::<V>("eager")?;
        let survivor = bank.lazy_locker::<V>("survivor")?;

        lazy.put("k", &v("x"))?;
        eager.put("k", v("x"))?;

        assert!(bank.is_locker_open("lazy"));
        assert!(bank.is_locker_open("eager"));

        lazy.close()?;
        eager.close()?;

        // A closed locker reads as empty; `is_closed` is what tells the two apart.
        assert!(lazy.is_closed());
        assert_eq!(lazy.len(), 0);
        assert!(!lazy.contains_key("k"));
        assert!(eager.is_closed());
        assert_eq!(eager.get("k"), None, "an eager get must not fail");
        assert_eq!(eager.len(), 0);

        assert!(!bank.is_locker_open("lazy"), "a closed locker is not open");
        assert!(!bank.is_locker_open("eager"));
        assert_eq!(bank.open_locker_names(), vec!["survivor".to_string()]);

        assert!(matches!(lazy.get("k"), Err(Error::Closed)));
        assert!(matches!(lazy.put("k", &v("y")), Err(Error::Closed)));
        assert!(matches!(lazy.delete("k"), Err(Error::Closed)));
        assert!(matches!(lazy.clear(), Err(Error::Closed)));
        assert!(matches!(
            lazy.transact(|tx| {
                tx.put("k", v("y"))?;
                Ok(())
            }),
            Err(Error::Closed)
        ));
        assert!(matches!(eager.put("k", v("y")), Err(Error::Closed)));
        assert!(matches!(eager.delete("k"), Err(Error::Closed)));
        assert!(matches!(eager.clear(), Err(Error::Closed)));

        // The streaming pair too: a `Writer` commits chunks of its own, so a
        // closed locker must not be able to open one.
        let bytes = bank.lazy_locker::<Vec<u8>>("bytes")?;
        bytes.put("k", &vec![1u8, 2, 3])?;
        bytes.close()?;
        assert!(matches!(bytes.writer("k"), Err(Error::Closed)));
        assert!(matches!(bytes.reader("k"), Err(Error::Closed)));

        // Now the bank itself. A locker that was never individually closed still
        // has to stop working, because the store underneath it is gone.
        bank.close()?;
        assert!(bank.is_closed());

        assert!(matches!(survivor.get("k"), Err(Error::Closed)));
        assert!(matches!(
            survivor.put("k", &v("y")),
            Err(Error::Closed)
        ));
        assert!(matches!(survivor.delete("k"), Err(Error::Closed)));
        assert!(matches!(
            bank.lazy_locker::<V>("opened_too_late"),
            Err(Error::Closed)
        ));
    }
    Ok(())
}

/// Closing twice is not an error, at either level.
#[test]
fn close_is_idempotent() -> Result<()> {
    for h in &harnesses() {
        let first = bank(h)?;
        let locker = first.lazy_locker::<V>("l")?;
        locker.put("k", &v("x"))?;

        locker.close()?;
        locker.close()?;
        assert!(locker.is_closed());

        first.close()?;
        first.close()?;
        assert!(first.is_closed());

        // And the store is genuinely released, not merely flagged: a second close
        // must not have left anything behind that blocks the next open.
        let second = bank(h)?;
        second.lazy_locker::<V>("l")?;
        second.close()?;
    }
    Ok(())
}

/// Deleting a locker takes its records and its chunk payloads with it.
#[test]
fn delete_locker_removes_records_and_chunks() -> Result<()> {
    for h in &harnesses() {
        let bank = bank(h)?;
        let locker = bank.lazy_locker_with::<V>("doomed", tiny_chunks())?;

        locker.put("small", &v("inline"))?;
        locker.put("big", &"x".repeat(200))?;

        assert!(
            count_rows(&bank, Table::Chunks)? > 0,
            "the setup must actually have chunked something"
        );
        assert!(bank.locker_exists("doomed")?);
        assert!(bank.locker_bytes("doomed")? > 200);

        // An open handle would be left serving data that no longer exists.
        assert!(matches!(
            bank.delete_locker("doomed"),
            Err(Error::InvalidConfig(_))
        ));

        locker.close()?;
        assert!(bank.delete_locker("doomed")?);

        assert_eq!(
            count_rows(&bank, Table::Records)?,
            0
        );
        assert_eq!(
            count_rows(&bank, Table::Chunks)?,
            0,
            "every chunk the deleted locker pointed at must be gone too"
        );
        assert!(!bank.locker_exists("doomed")?);
        assert_eq!(bank.locker_bytes("doomed")?, 0);
        assert!(
            !bank.delete_locker("doomed")?,
            "deleting a name that is not there is not an error"
        );
    }
    Ok(())
}

/// A delete stops at the locker boundary, exactly as `clear` does.
#[test]
fn delete_locker_leaves_other_lockers_intact() -> Result<()> {
    for h in &harnesses() {
        let bank = bank(h)?;
        let doomed = bank.lazy_locker_with::<V>("doomed", tiny_chunks())?;
        let keeper = bank.lazy_locker_with::<V>("keeper", tiny_chunks())?;

        doomed.put("k", &"x".repeat(200))?;
        keeper.put("k", &"y".repeat(200))?;
        keeper.put("inline", &v("kept"))?;

        doomed.close()?;
        assert!(bank.delete_locker("doomed")?);

        assert_eq!(keeper.get("k")?, Some("y".repeat(200)));
        assert_eq!(keeper.get("inline")?, Some(v("kept")));
        assert!(bank.locker_exists("keeper")?);
        assert!(
            bank.locker_names()?.contains(&"keeper".to_string()),
            "the surviving locker must still be registered"
        );
        assert!(!bank.locker_names()?.contains(&"doomed".to_string()));
    }
    Ok(())
}

/// Ids are never recycled, so a stale record can never be read as a new
/// locker's. Recreating a deleted name gets a fresh id.
#[test]
fn a_deleted_locker_name_gets_a_fresh_id() -> Result<()> {
    for h in &harnesses() {
        let bank = bank(h)?;
        let locker = bank.lazy_locker::<V>("recycled")?;
        let first = bank.locker_id("recycled")?;
        locker.put("k", &v("old"))?;
        locker.close()?;

        assert!(bank.delete_locker("recycled")?);

        let reborn = bank.lazy_locker::<V>("recycled")?;
        let second = bank.locker_id("recycled")?;

        assert_ne!(
            first, second,
            "a deleted locker's id must never be handed out again"
        );
        assert_eq!(
            reborn.get("k")?,
            None,
            "the recreated locker must start empty"
        );
    }
    Ok(())
}

/// Keys are bytes, not strings — and they sort bytewise on every backend.
#[test]
fn binary_keys_round_trip_and_sort_bytewise() -> Result<()> {
    for h in &harnesses() {
        let bank = bank(h)?;
        let locker = bank.lazy_locker::<V>("l")?;

        let binary: [&[u8]; 3] = [&[0xFF], &[0x00], &[0x80, 0x01]];
        for (i, key) in binary.iter().enumerate() {
            locker.put_by(key, &v(&format!("b{i}")))?;
        }
        locker.put("a", &v("text"))?;

        for (i, key) in binary.iter().enumerate() {
            assert_eq!(
                locker.get_by(key)?,
                Some(v(&format!("b{i}"))),
                "a binary key must read back under the bytes it was written with"
            );
            assert!(locker.contains_key_by(key));
        }
        assert_eq!(locker.get("a")?, Some(v("text")));
        assert_eq!(locker.len(), 4);

        assert_eq!(
            locker.keys_bytes(),
            vec![vec![0x00], b"a".to_vec(), vec![0x80, 0x01], vec![0xFF],],
            "keys must come back in bytewise order"
        );

        // The `&str` listing skips what it cannot spell, and says so rather than
        // failing or pretending the locker holds only what it can name. Note that
        // 0x00 IS valid UTF-8 — a one-character NUL string — so it survives the
        // filter while 0xFF and 0x80 0x01 do not.
        assert_eq!(locker.keys(), vec!["\u{0}".to_string(), "a".to_string()]);
        assert!(locker.has_non_utf8_keys());

        locker.delete_by(&[0xFF])?;
        assert_eq!(locker.get_by(&[0xFF])?, None);
        assert_eq!(locker.len(), 3);
    }
    Ok(())
}

/// A bulk write is one commit, and a refused one writes nothing.
#[test]
fn put_all_is_atomic() -> Result<()> {
    for h in &harnesses() {
        let bank = bank(h)?;
        let lazy = bank.lazy_locker::<V>("bulk")?;

        let entries: Vec<(String, V)> = (0..50)
            .map(|i| (format!("k{i:03}"), v(&format!("v{i}"))))
            .collect();
        lazy.put_all(entries)?;

        assert_eq!(lazy.len(), 50);
        for i in 0..50 {
            assert_eq!(
                lazy.get(&format!("k{i:03}"))?,
                Some(v(&format!("v{i}"))),
                "every entry of a put_all must be present"
            );
        }

        lazy.delete_all(["k000", "k001", "never_written"])?;
        assert_eq!(lazy.len(), 48);
        assert_eq!(lazy.get("k000")?, None);

        // Now the negative half, on an eager locker whose inline limit the second
        // entry breaks. No Fault backend needed: the refusal is crossbank's own.
        let eager = bank
            .locker_with::<V>("strict", LockerConfig::default().with_max_inline(64))?;
        let mixed = vec![
            ("ok".to_string(), v("small")),
            ("bad".to_string(), "x".repeat(10_000)),
        ];
        assert!(
            matches!(eager.put_all(mixed), Err(Error::ValueTooLarge { .. })),
            "an oversized entry must refuse the whole put_all"
        );
        assert_eq!(eager.len(), 0, "a refused put_all must write NOTHING");
        assert!(eager.get("ok").is_none());

        // And storage agrees with RAM: reopening finds nothing either.
        eager.close()?;
        let reopened = bank
            .locker_with::<V>("strict", LockerConfig::default().with_max_inline(64))?;
        assert_eq!(reopened.len(), 0);
    }
    Ok(())
}

/// `to_map` is a bulk view of exactly what key-by-key reads return.
#[test]
fn to_map_matches_key_by_key_reads() -> Result<()> {
    for h in &harnesses() {
        let bank = bank(h)?;
        let lazy = bank.lazy_locker::<V>("l")?;

        let entries: Vec<(String, V)> = (0..40)
            .map(|i| (format!("k{i:03}"), v(&format!("v{i}"))))
            .collect();
        lazy.put_all(entries)?;
        lazy.put("empty", &v(""))?;

        let map = lazy.to_map()?;
        assert_eq!(map.len(), lazy.len());
        for key in lazy.keys() {
            assert_eq!(
                map.get(key.as_bytes()),
                lazy.get(&key)?.as_ref(),
                "to_map and get must agree about {key:?}"
            );
        }
        assert_eq!(map.get(b"empty"), Some(&v("")), "an empty value is a value");

        // The eager locker answers the same question from RAM.
        let eager = bank.locker::<V>("e")?;
        eager
            .put_all(vec![("a".to_string(), v("1")), ("b".to_string(), v("2"))])?;
        let eager_map = eager.to_map();
        assert_eq!(eager_map.len(), 2);
        assert_eq!(eager_map.get(b"a").map(|x| x.as_str()), Some("1"));
        assert_eq!(
            eager
                .range("a".."b")
                .into_iter()
                .map(|(k, _)| k)
                .collect::<Vec<_>>(),
            vec!["a".to_string()]
        );
    }
    Ok(())
}

/// One unreadable record does not have to cost you the locker.
#[test]
fn a_corrupt_record_is_skipped_when_configured() -> Result<()> {
    for h in &harnesses() {
        let bank = bank(h)?;
        let locker = bank.locker::<V>("l")?;
        locker.put("good", v("keep"))?;
        locker.put("bad", v("lose"))?;
        let id = bank.locker_id("l")?;
        locker.close()?;

        // Overwrite the stored bytes with something that is neither a CBNK
        // envelope nor a CCHK pointer.
        bank.commit(vec![Op::Put {
                table: Table::Records,
                key: encode(id, "bad"),
                value: b"not a CBNK envelope".to_vec(),
            }])?;

        // The default refuses rather than serving a locker that quietly lost a key.
        assert!(
            matches!(bank.locker::<V>("l"), Err(Error::Corrupt(_))),
            "OnCorrupt::Fail must refuse to open over an unreadable record"
        );

        let skipping = bank
            .locker_with::<V>(
                "l",
                LockerConfig::default().with_on_corrupt(OnCorrupt::Skip),
            )?;
        assert_eq!(skipping.corrupt_keys(), vec![b"bad".to_vec()]);
        assert!(skipping.get("bad").is_none());
        assert_eq!(skipping.get("good").as_deref(), Some(&v("keep")));
        assert_eq!(skipping.len(), 1);

        // verify sees the same thing, and may run while the locker is open.
        assert_eq!(bank.verify("l")?, vec![b"bad".to_vec()]);

        // quarantine may not: it would invalidate the open handle's RAM index.
        assert!(matches!(
            bank.quarantine("l", &vec![b"bad".to_vec()]),
            Err(Error::InvalidConfig(_))
        ));
        skipping.close()?;

        assert_eq!(bank.quarantine("l", &vec![b"bad".to_vec()])?, 1);
        assert!(
            bank.verify("l")?.is_empty(),
            "quarantine must remove exactly the damage verify reported"
        );

        // And the strict open works again, with the untouched record intact.
        let healed = bank.locker::<V>("l")?;
        assert_eq!(healed.len(), 1);
        assert_eq!(healed.get("good").as_deref(), Some(&v("keep")));
    }
    Ok(())
}

/// A transactional overwrite drops the chunks the old value owned.
#[test]
fn a_transaction_overwrite_gcs_the_old_chunks() -> Result<()> {
    for h in &harnesses() {
        let bank = bank(h)?;
        let locker = bank.lazy_locker_with::<V>("l", tiny_chunks())?;

        locker.put("k", &"x".repeat(200))?;
        assert!(
            count_rows(&bank, Table::Chunks)? > 0,
            "the setup must actually have chunked something"
        );

        // put_all is transact underneath.
        locker.put_all(vec![("k".to_string(), v("small"))])?;
        assert_eq!(locker.get("k")?, Some(v("small")));
        assert_eq!(
            count_rows(&bank, Table::Chunks)?,
            0,
            "overwriting a chunked value in a transaction must free its chunks"
        );

        // And the same for a transactional clear.
        locker.put("k", &"y".repeat(200))?;
        assert!(count_rows(&bank, Table::Chunks)? > 0);
        locker
            .transact(|tx| {
                tx.clear()?;
                Ok(())
            })?;
        assert_eq!(locker.get("k")?, None);
        assert_eq!(
            count_rows(&bank, Table::Chunks)?,
            0,
            "clearing in a transaction must free the chunks too"
        );
    }
    Ok(())
}

/// A staged lazy put chunks exactly as a direct one does.
#[test]
fn a_transaction_chunks_a_large_lazy_value() -> Result<()> {
    for h in &harnesses() {
        let bank = bank(h)?;
        let locker = bank.lazy_locker_with::<V>("l", tiny_chunks())?;
        let big = "q".repeat(200);

        locker.put_all(vec![("k".to_string(), big.clone())])?;

        assert!(
            count_rows(&bank, Table::Chunks)? > 1,
            "a value past the chunk size must be split, even inside a transaction"
        );
        assert_eq!(locker.get("k")?, Some(big));
    }
    Ok(())
}

/// Two lockers allocating chunked values at once get distinct value ids.
#[test]
fn concurrent_chunk_writers_do_not_collide() -> Result<()> {
    for h in &harnesses() {
        let bank = bank(h)?;
        let first = bank.lazy_locker_with::<V>("first", tiny_chunks())?;
        let second = bank.lazy_locker_with::<V>("second", tiny_chunks())?;

        let a = "a".repeat(200);
        let b = "b".repeat(200);
        let (l, r) = (first.put("k", &a), second.put("k", &b));
        l?;
        r?;

        assert_eq!(first.get("k")?, Some(a.clone()));
        assert_eq!(second.get("k")?, Some(b.clone()));
        let both = count_rows(&bank, Table::Chunks)?;

        // Two handles on ONE name are the same hazard: they share stored data but
        // are separate objects.
        let one = bank.lazy_locker_with::<V>("shared", tiny_chunks())?;
        let two = bank.lazy_locker_with::<V>("shared", tiny_chunks())?;
        let (l, r) = (one.put("x", &a), two.put("y", &b));
        l?;
        r?;
        assert_eq!(one.get("x")?, Some(a));
        assert_eq!(one.get("y")?, Some(b));

        assert_eq!(
            count_rows(&bank, Table::Chunks)?,
            both * 2,
            "four chunked values must own four disjoint sets of chunks"
        );
    }
    Ok(())
}

/// One unreadable chunk pointer does not wedge maintenance forever.
#[test]
fn a_corrupt_chunk_pointer_does_not_block_delete() -> Result<()> {
    for h in &harnesses() {
        let bank = bank(h)?;
        let locker = bank.lazy_locker_with::<V>("l", tiny_chunks())?;
        locker.put("good", &v("keep"))?;
        locker.put("bad", &v("lose"))?;
        let id = bank.locker_id("l")?;

        // A record that claims to be a chunk pointer but cannot be parsed as one.
        bank.commit(vec![Op::Put {
                table: Table::Records,
                key: encode(id, "bad"),
                value: b"CCHK truncated".to_vec(),
            }])?;

        // Counting bytes must survive it, treating the record as inline.
        assert!(bank.locker_bytes("l")? > 0);

        // So must clearing it out.
        locker.clear()?;
        assert_eq!(locker.len(), 0);

        locker.put("good", &v("keep"))?;
        bank.commit(vec![Op::Put {
                table: Table::Records,
                key: encode(id, "good"),
                value: b"CCHK truncated".to_vec(),
            }])?;
        locker.close()?;
        assert!(bank.delete_locker("l")?);
        assert_eq!(count_rows(&bank, Table::Records)?, 0);
    }
    Ok(())
}

/// A name stays open until every handle opened under it is gone.
#[test]
fn a_name_is_open_until_every_handle_closes() -> Result<()> {
    for h in &harnesses() {
        let bank = bank(h)?;
        let first = bank.lazy_locker::<V>("l")?;
        let second = bank.lazy_locker::<V>("l")?;
        first.put("k", &v("x"))?;

        assert!(bank.is_locker_open("l"));
        second.close()?;
        assert!(
            bank.is_locker_open("l"),
            "the first handle is still live, so the name is still open"
        );
        assert_eq!(bank.open_locker_names(), vec!["l".to_string()]);
        assert!(matches!(
            bank.delete_locker("l"),
            Err(Error::InvalidConfig(_))
        ));

        // The surviving handle still works, which is the point.
        assert_eq!(first.get("k")?, Some(v("x")));

        first.close()?;
        assert!(!bank.is_locker_open("l"));
        assert!(bank.open_locker_names().is_empty());
        assert!(bank.delete_locker("l")?);
    }
    Ok(())
}

/// A range that cannot contain anything answers with nothing.
#[test]
fn a_degenerate_range_is_empty_not_a_panic() -> Result<()> {
    for h in &harnesses() {
        let bank = bank(h)?;
        let lazy = bank.lazy_locker::<V>("lazy")?;
        let eager = bank.locker::<V>("eager")?;
        for k in ["a", "b", "c"] {
            lazy.put(k, &v(k))?;
            eager.put(k, v(k))?;
        }

        assert!(lazy.range("z".."a")?.is_empty(), "inverted, lazy");
        assert!(eager.range("z".."a").is_empty(), "inverted, eager");
        assert!(lazy.range_rev("z".."a")?.is_empty());
        assert!(lazy.range_by(&b"z"[..]..&b"a"[..])?.is_empty());
        assert!(lazy.range_rev_by(&b"z"[..]..&b"a"[..])?.is_empty());

        assert!(lazy.range((Excluded("b"), Excluded("b")))?.is_empty());
        assert!(eager.range((Excluded("b"), Excluded("b"))).is_empty());
        assert!(lazy.range((Included("b"), Excluded("b")))?.is_empty());
        assert!(eager.range((Included("b"), Excluded("b"))).is_empty());

        // A sane range still works, so the guard has not eaten everything.
        assert_eq!(lazy.range("a".."c")?.len(), 2);
        assert_eq!(eager.range("a".."c").len(), 2);
    }
    Ok(())
}

/// Usage is reported exactly where the harness declares it is.
#[test]
fn usage_is_reported_where_declared() -> Result<()> {
    for h in &harnesses() {
        let bank = bank(h)?;
        let locker = bank.lazy_locker::<Vec<u8>>("bulk")?;

        // 64 KiB of incompressible-enough bytes, so a filter chain with LZ4 in it
        // cannot shrink the write down to nothing.
        let payload: Vec<u8> = (0..65_536u32)
            .map(|i| (i.wrapping_mul(2_654_435_761) >> 13) as u8)
            .collect();
        locker.put("blob", &payload)?;

        let usage = bank.usage()?;
        if h.caps().reports_usage {
            let usage = match usage {
                Some(u) => u,
                None => panic!("a backend declaring reports_usage must report usage"),
            };
            assert!(
                usage.used > 0,
                "after writing 64 KiB a reporting backend must show a non-zero figure"
            );
            if let Some(available) = usage.available {
                assert!(
                    available > 0,
                    "a quota, when reported at all, must leave room for something"
                );
            }
        } else {
            assert!(
                usage.is_none(),
                "a backend that does not report usage must say so rather than guess"
            );
        }

        // A read, never a prompt: safe to call on any path, on every platform.
        let persisted = bank.is_persisted()?;
        assert!(persisted, "nothing evicts a native file behind our back");

        // A closed bank answers Closed rather than reaching for the platform.
        bank.close()?;
        assert!(matches!(bank.usage(), Err(Error::Closed)));
    }
    Ok(())
}

/// A lazy locker with a byte budget stays inside it.
#[test]
fn evictable_locker_stays_under_its_budget() -> Result<()> {
    for h in &harnesses() {
        let bank = bank(h)?;
        let locker = bank
            .lazy_locker_with::<Vec<u8>>(
                "capped",
                LockerConfig::default().with_policy(Policy::Evictable { max_bytes: 4_096 }),
            )?;

        // Ten 1 KiB values into a 4 KiB budget. Six of them have to go.
        for i in 0..10u32 {
            locker
                .put(&format!("k{i:02}"), &vec![i as u8; 1_000])?;
            assert!(
                locker.budget_used() <= 4_096,
                "budget exceeded after {i} writes: {}",
                locker.budget_used()
            );
        }

        assert!(locker.len() <= 4, "at most four 1 KiB values fit in 4 KiB");
        assert!(!locker.is_empty(), "the budget must not empty the locker");

        // The newest write is always the one that survives.
        assert_eq!(locker.get("k09")?, Some(vec![9u8; 1_000]));

        // Shedding further on demand works, and is reported.
        let before = locker.len();
        let shed = locker.evict_to(1_500)?;
        assert!(shed > 0, "asking for a smaller budget must shed something");
        assert_eq!(locker.len(), before - shed);
        assert!(locker.budget_used() <= 1_500);

        // An evicted key reads as absent, not as an error.
        for key in locker.keys() {
            assert!(locker.get(&key)?.is_some());
        }

        // A `Precious` locker refuses all of it: the budget is opt-in, and
        // `evict_to` never turns a locker that refuses eviction into one that
        // performs it.
        let precious = bank.lazy_locker::<Vec<u8>>("precious")?;
        for i in 0..10u32 {
            precious.put(&format!("k{i:02}"), &vec![0u8; 1_000])?;
        }
        assert_eq!(precious.len(), 10);
        assert_eq!(precious.evict_to(0)?, 0);
        assert_eq!(precious.len(), 10);
        assert_eq!(precious.budget_used(), 0, "no budget, nothing accounted");
    }
    Ok(())
}

/// Eviction sheds the least recently *used* key, not the least recently
/// written one.
#[test]
fn eviction_prefers_the_least_recently_used() -> Result<()> {
    for h in &harnesses() {
        let bank = bank(h)?;
        let locker = bank
            .lazy_locker_with::<Vec<u8>>(
                "lru",
                // Room for three 1 KiB values, not four.
                LockerConfig::default().with_policy(Policy::Evictable { max_bytes: 3_100 }),
            )?;
        let mut events = locker.watch();

        for key in ["a", "b", "c"] {
            locker.put(key, &vec![7u8; 1_000])?;
        }
        // Read `a`, making `b` the oldest by use even though `a` is oldest by
        // write. This is the whole distinction the case exists to pin.
        assert!(locker.get("a")?.is_some());

        locker.put("d", &vec![7u8; 1_000])?;

        assert!(locker.contains_key("a"), "a was read, so it must survive");
        assert!(!locker.contains_key("b"), "b was least recently used");
        assert!(locker.contains_key("c"));
        assert!(locker.contains_key("d"));
        assert_eq!(
            locker.get("b")?,
            None,
            "an evicted key reads as absent"
        );

        let mut evicted = Vec::new();
        while let Some(event) = events.try_recv() {
            if let Event::Evicted { key } = event {
                evicted.push(key);
            }
        }
        assert_eq!(
            evicted,
            vec![b"b".to_vec()],
            "eviction must be announced, and name the key that went"
        );
    }
    Ok(())
}

/// Eviction bookkeeping survives a reopen on a backend that persists.
#[test]
fn eviction_accounting_survives_a_reopen() -> Result<()> {
    for h in &harnesses() {
        let config = || LockerConfig::default().with_policy(Policy::Evictable { max_bytes: 3_100 });
        {
            let bank = bank(h)?;
            let locker = bank.lazy_locker_with::<Vec<u8>>("lru", config())?;
            for key in ["a", "b", "c"] {
                locker.put(key, &vec![7u8; 1_000])?;
            }
            assert_eq!(locker.budget_used(), 3_006);
            bank.close()?;
        }

        let bank = bank(h)?;
        let locker = bank.lazy_locker_with::<Vec<u8>>("lru", config())?;

        if !h.caps().persists_across_open {
            assert_eq!(
                locker.budget_used(),
                0,
                "nothing persisted, nothing accounted"
            );
            return Ok(());
        }

        assert_eq!(
            locker.budget_used(),
            3_006,
            "a reopened locker must recover what it is already holding"
        );

        // Writing one more still evicts exactly one, rather than starting the
        // budget over and holding four.
        locker.put("d", &vec![7u8; 1_000])?;
        assert_eq!(locker.len(), 3);
        assert!(locker.budget_used() <= 3_100);
    }
    Ok(())
}

/// Deferred writes are visible to their own handle at once, and durable once
/// flushed.
#[test]
fn deferred_writes_are_visible_before_flush_and_durable_after() -> Result<()> {
    for h in &harnesses() {
        let deferred = || LockerConfig::default().with_commit(Commit::Deferred { after: 4 });
        {
            let bank = bank(h)?;
            let locker = bank.lazy_locker_with::<V>("deferred", deferred())?;

            locker.put("a", &v("alpha"))?;
            locker.put("b", &v("beta"))?;

            assert_eq!(locker.pending(), 2, "two writes staged, none committed");
            assert!(locker.pending_bytes() > 0);

            // Visible to this handle immediately — that is the whole bargain.
            assert_eq!(locker.get("a")?, Some(v("alpha")));
            assert!(locker.contains_key("b"));
            assert_eq!(locker.len(), 2);
            assert_eq!(locker.keys(), vec!["a".to_string(), "b".to_string()]);

            // And invisible to storage until a flush.
            assert_eq!(
                bank.locker_bytes("deferred")?,
                0,
                "nothing may reach storage before the batch is flushed"
            );

            locker.flush()?;
            assert_eq!(locker.pending(), 0);
            assert_eq!(locker.pending_bytes(), 0);
            assert!(bank.locker_bytes("deferred")? > 0);

            // A full batch commits itself.
            for key in ["c", "d", "e", "f"] {
                locker.put(key, &v(key))?;
            }
            assert_eq!(locker.pending(), 0, "a full batch must flush itself");

            // A staged delete hides the key from its own handle too.
            locker.delete("a")?;
            assert_eq!(locker.pending(), 1);
            assert_eq!(locker.get("a")?, None);
            assert!(!locker.contains_key("a"));

            // `close` flushes, so the delete lands rather than being dropped.
            locker.close()?;
            bank.close()?;
        }

        let bank = bank(h)?;
        let locker = bank.lazy_locker_with::<V>("deferred", deferred())?;

        if h.caps().persists_across_open {
            assert_eq!(locker.get("b")?, Some(v("beta")));
            assert_eq!(locker.get("f")?, Some(v("f")));
            assert_eq!(
                locker.get("a")?,
                None,
                "the delete `close` flushed must have landed too"
            );
        } else {
            assert_eq!(locker.get("b")?, None);
        }

        // The same bargain on an eager locker, whose resident value is updated
        // when the write is staged.
        let eager = bank.locker_with::<V>("deferred_eager", deferred())?;
        eager.put("k", v("resident"))?;
        assert_eq!(eager.pending(), 1);
        assert_eq!(eager.get("k").as_deref(), Some(&v("resident")));
        assert_eq!(bank.locker_bytes("deferred_eager")?, 0);

        // `flush_all` reaches every open locker from one call.
        bank.flush_all()?;
        assert_eq!(eager.pending(), 0);
        assert!(bank.locker_bytes("deferred_eager")? > 0);
    }
    Ok(())
}
