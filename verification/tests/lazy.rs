//! Lazy lockers: keys resident, values on demand.

use std::cell::RefCell;
use std::ops::{Bound, RangeBounds};
use std::rc::Rc;
use std::sync::Arc;

use crossbank::codec::value::Value;
use crossbank::codec::default_chain;
use crossbank::coherence::{Announcement, Change};
use crossbank::key::LockerId;
use crossbank::locker::inner::{Inner, Shared};
use crossbank::sorted::ByteMap;
use crossbank::{
    LazyLocker, Error, Event, EventStream, LockerConfig, MemoryBackend, Policy, Result, Transaction,
};

type Pool = Rc<RefCell<Shared<MemoryBackend>>>;

fn pool() -> Pool {
    Rc::new(RefCell::new(Shared::new(MemoryBackend::new())))
}

/// A transaction with everything it reads from.
struct Tx<'a, T> {
    staged: RefCell<Transaction<T>>,
    inner: &'a Inner,
    backend: &'a MemoryBackend,
}

impl<T: Value> Tx<'_, T> {
    fn put(&self, key: &str, value: T) -> Result<()> {
        self.staged.borrow_mut().put(key, value)
    }
    fn delete(&self, key: &str) -> Result<()> {
        self.staged.borrow_mut().delete(key)
    }
    fn clear(&self) -> Result<()> {
        self.staged.borrow_mut().clear()
    }
    fn get(&self, key: &str) -> Result<Option<T>> {
        self.staged.borrow().get(self.inner, self.backend, key)
    }
}

fn str_bound<'a>(bound: Bound<&&'a str>) -> Bound<&'a str> {
    match bound {
        Bound::Unbounded => Bound::Unbounded,
        Bound::Included(s) => Bound::Included(s),
        Bound::Excluded(s) => Bound::Excluded(s),
    }
}

fn byte_bound<'a>(bound: Bound<&&'a [u8]>) -> Bound<&'a [u8]> {
    match bound {
        Bound::Unbounded => Bound::Unbounded,
        Bound::Included(s) => Bound::Included(s),
        Bound::Excluded(s) => Bound::Excluded(s),
    }
}

/// A lazy locker with the bank's share of it.
struct Open<T> {
    locker: RefCell<LazyLocker<T>>,
    shared: Pool,
}

fn open<T: Value>(pool: &Pool, id: LockerId, name: &str, config: LockerConfig) -> Result<Open<T>> {
    let locker = LazyLocker::open(
        &pool.borrow().backend,
        Arc::new(default_chain()),
        id,
        name.to_string(),
        config,
        0,
    )?;
    Ok(Open {
        locker: RefCell::new(locker),
        shared: pool.clone(),
    })
}

impl<T: Value> Open<T> {
    fn id(&self) -> LockerId {
        self.locker.borrow().res.inner.id
    }
    fn seal(&self, payload: &[u8]) -> Result<Vec<u8>> {
        self.locker.borrow().res.inner.chain.seal_slice(payload)
    }
    fn apply(&self, news: &Announcement) {
        self.locker.borrow_mut().apply(news)
    }
    fn get(&self, key: &str) -> Result<Option<T>> {
        self.locker.borrow_mut().get(&mut self.shared.borrow_mut(), key)
    }
    fn get_by(&self, key: &[u8]) -> Result<Option<T>> {
        self.locker.borrow_mut().get_by(&mut self.shared.borrow_mut(), key)
    }
    fn put(&self, key: &str, value: &T) -> Result<()> {
        self.locker.borrow_mut().put(&mut self.shared.borrow_mut(), key, value)
    }
    fn put_by(&self, key: &[u8], value: &T) -> Result<()> {
        self.locker.borrow_mut().put_by(&mut self.shared.borrow_mut(), key, value)
    }
    fn delete(&self, key: &str) -> Result<()> {
        self.locker.borrow_mut().delete(&mut self.shared.borrow_mut(), key)
    }
    fn delete_by(&self, key: &[u8]) -> Result<()> {
        self.locker.borrow_mut().delete_by(&mut self.shared.borrow_mut(), key)
    }
    fn clear(&self) -> Result<()> {
        self.locker.borrow_mut().clear(&mut self.shared.borrow_mut())
    }
    fn flush(&self) -> Result<()> {
        self.locker.borrow_mut().flush(&mut self.shared.borrow_mut())
    }
    fn close(&self) -> Result<()> {
        self.locker.borrow_mut().close(&mut self.shared.borrow_mut())
    }
    fn evict_to(&self, bytes: u64) -> Result<usize> {
        self.locker.borrow_mut().evict_to(&mut self.shared.borrow_mut(), bytes)
    }
    fn put_all(&self, entries: Vec<(String, T)>) -> Result<()> {
        self.locker.borrow_mut().put_all(&mut self.shared.borrow_mut(), entries)
    }
    fn delete_all<K: AsRef<str>>(&self, keys: impl IntoIterator<Item = K>) -> Result<()> {
        let keys = keys.into_iter().map(|k| k.as_ref().to_string()).collect();
        self.locker.borrow_mut().delete_all(&mut self.shared.borrow_mut(), &keys)
    }
    fn transact(&self, f: impl FnOnce(&Tx<T>) -> Result<()>) -> Result<()> {
        self.locker
            .borrow_mut()
            .transact(&mut self.shared.borrow_mut(), |tx, inner, backend| {
                let tx = Tx {
                    staged: RefCell::new(tx),
                    inner,
                    backend,
                };
                f(&tx)?;
                Ok(tx.staged.into_inner())
            })
    }
    fn range<'a>(&self, range: impl RangeBounds<&'a str>) -> Result<Vec<(String, T)>> {
        self.locker.borrow().range(
            &self.shared.borrow().backend,
            str_bound(range.start_bound()),
            str_bound(range.end_bound()),
        )
    }
    fn range_rev<'a>(&self, range: impl RangeBounds<&'a str>) -> Result<Vec<(String, T)>> {
        self.locker.borrow().range_rev(
            &self.shared.borrow().backend,
            str_bound(range.start_bound()),
            str_bound(range.end_bound()),
        )
    }
    fn range_by<'a>(&self, range: impl RangeBounds<&'a [u8]>) -> Result<Vec<(Vec<u8>, T)>> {
        self.locker.borrow().range_by(
            &self.shared.borrow().backend,
            byte_bound(range.start_bound()),
            byte_bound(range.end_bound()),
        )
    }
    fn latest(&self, limit: usize) -> Result<Vec<(String, T)>> {
        self.locker.borrow().latest(&self.shared.borrow().backend, limit)
    }
    fn entries(&self) -> Result<Vec<(String, T)>> {
        self.locker.borrow().entries(&self.shared.borrow().backend)
    }
    fn to_map(&self) -> Result<ByteMap<T>> {
        self.locker.borrow().to_map(&self.shared.borrow().backend)
    }
    fn len(&self) -> usize {
        self.locker.borrow().len()
    }
    fn pending(&self) -> usize {
        self.locker.borrow().pending()
    }
    fn pending_bytes(&self) -> u64 {
        self.locker.borrow().pending_bytes()
    }
    fn budget_used(&self) -> u64 {
        self.locker.borrow().budget_used()
    }
    fn contains_key(&self, key: &str) -> bool {
        self.locker.borrow().contains_key(key)
    }
    fn contains_key_by(&self, key: &[u8]) -> bool {
        self.locker.borrow().contains_key_by(key)
    }
    fn keys(&self) -> Vec<String> {
        self.locker.borrow().keys()
    }
    fn keys_bytes(&self) -> Vec<Vec<u8>> {
        self.locker.borrow().keys_bytes()
    }
    fn keys_with_prefix(&self, prefix: &str) -> Vec<String> {
        self.locker.borrow().keys_with_prefix(prefix)
    }
    fn has_non_utf8_keys(&self) -> bool {
        self.locker.borrow().has_non_utf8_keys()
    }
    fn watch(&self) -> EventStream {
        self.locker.borrow_mut().watch()
    }
    fn watch_key(&self, key: &str) -> EventStream {
        self.locker.borrow_mut().watch_key(key)
    }
    fn watch_keys(&self, keys: &[&str]) -> EventStream {
        let keys = keys.iter().map(|k| k.to_string()).collect();
        self.locker.borrow_mut().watch_keys(&keys)
    }
}

fn news(id: LockerId, cleared: bool, changes: Vec<(&[u8], bool)>) -> Announcement {
    Announcement {
        instance: 1,
        locker_id: id,
        epoch: 1,
        cleared,
        changes: changes
            .into_iter()
            .map(|(key, deleted)| Change {
                key: key.to_vec(),
                value: None,
                bytes: None,
                deleted,
            })
            .collect(),
    }
}

fn locker() -> Open<String> {
    open(&pool(), 1, "test", LockerConfig::default()).unwrap()
}

fn seeded(entries: &[(&str, &str)]) -> Open<String> {
    let l = locker();
    for (k, v) in entries {
        l.put(k, &v.to_string()).unwrap();
    }
    l
}

/// Another tab's write appears in this tab's index, and is announced.
#[test]
fn a_sink_folds_another_tabs_news_into_the_index() {
    let l = seeded(&[("a", "alpha")]);
    let mut events = l.watch();

    l.apply(&news(l.id(), false, vec![(b"b", false), (b"a", true)]));

    assert!(l.contains_key("b"), "another tab's write must be visible");
    assert!(!l.contains_key("a"), "another tab's delete must be visible");
    assert_eq!(events.try_recv(), Some(Event::Put { key: b"b".to_vec() }));
    assert_eq!(
        events.try_recv(),
        Some(Event::Deleted { key: b"a".to_vec() })
    );

    l.apply(&news(l.id(), true, Vec::new()));
    assert_eq!(l.len(), 0);
    assert_eq!(events.try_recv(), Some(Event::Cleared));
}

/// Another tab's news must move the byte budget, not just the index.
#[test]
fn a_sink_keeps_the_byte_budget_in_step_with_another_tab() {
    let l = open::<Vec<u8>>(&pool(), 1, "budget", LockerConfig::default().with_policy(Policy::Evictable { max_bytes: 10_000 }))
    .expect("open");
    l.put("mine", &vec![1u8; 100]).expect("put");
    let before = l.budget_used();
    assert!(before > 0);

    let id = l.id();

    // An inlined value: the receiver has the bytes and can size it exactly
    // by opening them through its own filter chain.
    let payload = postcard::to_allocvec(&vec![9u8; 500]).expect("encode");
    let sealed = l.seal(&payload).expect("seal");
    l.apply(&Announcement {
        instance: 2,
        locker_id: id,
        epoch: 1,
        cleared: false,
        changes: vec![Change {
            key: b"theirs".to_vec(),
            value: Some(sealed),
            bytes: None,
            deleted: false,
        }],
    });
    assert_eq!(
        l.budget_used(),
        before + payload.len() as u64,
        "a remote write must be accounted for"
    );

    // A remote delete gives the bytes back.
    l.apply(&Announcement {
        instance: 2,
        locker_id: id,
        epoch: 2,
        cleared: false,
        changes: vec![Change {
            key: b"theirs".to_vec(),
            value: None,
            bytes: None,
            deleted: true,
        }],
    });
    assert_eq!(l.budget_used(), before, "a remote delete must give it back");

    // A write whose size cannot be worked out marks the accounting dirty
    // rather than inventing a number.
    l.apply(&Announcement {
        instance: 2,
        locker_id: id,
        epoch: 3,
        cleared: false,
        changes: vec![Change {
            key: b"unknown".to_vec(),
            value: None,
            bytes: None,
            deleted: false,
        }],
    });
    assert!(l.contains_key("unknown"));

    // And a remote clear zeroes it.
    l.apply(&news(id, true, Vec::new()));
    assert_eq!(l.budget_used(), 0, "a remote clear must zero the budget");
}

/// A chunked remote write states its payload length, so it is accounted
/// for exactly even though its bytes could not ride along.
#[test]
fn a_sink_accounts_for_a_chunked_remote_write_from_its_pointer() {
    let l = open::<Vec<u8>>(&pool(), 1, "budget", LockerConfig::default().with_policy(Policy::Evictable { max_bytes: 10_000 }))
    .expect("open");
    l.apply(&Announcement {
        instance: 2,
        locker_id: l.id(),
        epoch: 1,
        cleared: false,
        changes: vec![Change {
            key: b"big".to_vec(),
            value: None,
            bytes: Some(4_242),
            deleted: false,
        }],
    });
    assert_eq!(l.budget_used(), 4_242);
}

/// A closed locker absorbs nothing. Its index is deliberately empty, and
/// repopulating it from a message would make `is_closed` a lie.
#[test]
fn a_closed_locker_ignores_the_channel() {
    let l = seeded(&[("a", "alpha")]);
    l.close().unwrap();
    l.apply(&news(l.id(), false, vec![(b"b", false)]));
    assert_eq!(l.len(), 0);
}

#[test]
fn put_then_get_round_trips() {
    let l = seeded(&[("a", "alpha")]);
    assert_eq!(l.get("a").unwrap(), Some("alpha".into()));
}

#[test]
fn a_missing_key_is_none_not_an_error() {
    let l = locker();
    assert_eq!(l.get("nope").unwrap(), None);
}

#[test]
fn an_empty_value_is_distinguishable_from_a_missing_key() {
    let l = locker();
    l.put("empty", &String::new()).unwrap();
    assert_eq!(l.get("empty").unwrap(), Some(String::new()));
    assert_eq!(l.get("absent").unwrap(), None);
}

#[test]
fn overwriting_replaces_rather_than_appends() {
    let l = seeded(&[("k", "first")]);
    l.put("k", &"second".to_string()).unwrap();
    assert_eq!(l.get("k").unwrap(), Some("second".into()));
    assert_eq!(l.len(), 1);
}

#[test]
fn the_index_tracks_writes_and_deletes() {
    let l = seeded(&[("a", "1"), ("b", "2")]);
    assert_eq!(l.len(), 2);
    assert!(l.contains_key("a"));

    l.delete("a").unwrap();
    assert!(!l.contains_key("a"));
    assert_eq!(l.len(), 1);
}

#[test]
fn deleting_an_absent_key_is_not_an_error() {
    let l = locker();
    l.delete("ghost").unwrap();
}

#[test]
fn a_transaction_commits_every_write_together() {
    let l = locker();
    l.transact(|tx| {
        tx.put("a", "1".to_string())?;
        tx.put("b", "2".to_string())?;
        tx.put("manifest", "done".to_string())?;
        Ok(())
    })
    .unwrap();

    assert_eq!(l.len(), 3);
    assert_eq!(l.get("manifest").unwrap(), Some("done".into()));
}

#[test]
fn a_failed_transaction_writes_nothing() {
    // The property that makes chunked writes safe: a crash or error partway
    // through must leave the previous state intact, not a half-written one.
    let l = seeded(&[("existing", "old")]);

    let outcome: Result<()> = l.transact(|tx| {
        tx.put("a", "1".to_string())?;
        tx.put("b", "2".to_string())?;
        Err(Error::backend("something went wrong"))
    });
    assert!(outcome.is_err());

    assert_eq!(l.get("a").unwrap(), None);
    assert_eq!(l.get("b").unwrap(), None);
    assert_eq!(l.get("existing").unwrap(), Some("old".into()));
    assert_eq!(l.len(), 1, "the index must not have been touched either");
}

#[test]
fn a_transaction_reads_its_own_writes() {
    let l = seeded(&[("k", "stored")]);
    l.transact(|tx| {
        assert_eq!(tx.get("k")?, Some("stored".to_string()));
        tx.put("k", "staged".to_string())?;
        assert_eq!(tx.get("k")?, Some("staged".to_string()));
        tx.delete("k")?;
        assert_eq!(tx.get("k")?, None);
        Ok(())
    })
    .unwrap();

    assert_eq!(l.get("k").unwrap(), None);
}

#[test]
fn later_staged_writes_win_over_earlier_ones() {
    let l = locker();
    l.transact(|tx| {
        tx.put("k", "first".to_string())?;
        tx.put("k", "second".to_string())?;
        Ok(())
    })
    .unwrap();
    assert_eq!(l.get("k").unwrap(), Some("second".into()));
}

#[test]
fn an_empty_transaction_is_a_no_op() {
    let l = seeded(&[("k", "v")]);
    l.transact(|_tx| Ok(())).unwrap();
    assert_eq!(l.get("k").unwrap(), Some("v".into()));
}

#[test]
fn a_staged_clear_hides_earlier_keys_from_reads() {
    let l = seeded(&[("a", "1")]);
    l.transact(|tx| {
        tx.clear()?;
        assert_eq!(tx.get("a")?, None);
        tx.put("fresh", "new".to_string())?;
        Ok(())
    })
    .unwrap();

    assert_eq!(l.get("a").unwrap(), None);
    assert_eq!(l.get("fresh").unwrap(), Some("new".into()));
    assert_eq!(l.len(), 1);
}

#[test]
fn writes_and_deletes_are_announced_to_watchers() {
    let l = locker();
    let mut events = l.watch();

    l.put("k", &"v".to_string()).unwrap();
    l.delete("k").unwrap();

    assert_eq!(
        events.try_recv(),
        Some(Event::Put { key: "k".into() })
    );
    assert_eq!(
        events.try_recv(),
        Some(Event::Deleted { key: "k".into() })
    );
}

#[test]
fn clearing_announces_one_event_not_one_per_key() {
    // A clear over a hundred thousand keys must not flood subscribers.
    let l = seeded(&[("a", "1"), ("b", "2"), ("c", "3")]);
    let mut events = l.watch();

    l.clear().unwrap();

    assert_eq!(events.try_recv(), Some(Event::Cleared));
    assert!(
        events.try_recv().is_none(),
        "clear must produce exactly one event"
    );
}

#[test]
fn a_key_watcher_ignores_other_keys() {
    let l = locker();
    let mut events = l.watch_key("wanted");

    l.put("ignored", &"x".to_string()).unwrap();
    l.put("wanted", &"y".to_string()).unwrap();

    assert_eq!(
        events.try_recv(),
        Some(Event::Put {
            key: "wanted".into()
        })
    );
}

#[test]
fn a_rolled_back_transaction_announces_nothing() {
    // Subscribers must never be told about a write that did not happen.
    let l = locker();
    let mut events = l.watch();

    let outcome: Result<()> = l.transact(|tx| {
        tx.put("a", "1".to_string())?;
        Err(Error::backend("nope"))
    });
    assert!(outcome.is_err());

    assert!(events.try_recv().is_none(), "rollback must be silent");
}

#[test]
fn a_committed_transaction_announces_every_change() {
    let l = locker();
    let mut events = l.watch();

    l.transact(|tx| {
        tx.put("a", "1".to_string())?;
        tx.put("b", "2".to_string())?;
        Ok(())
    })
    .unwrap();

    assert_eq!(
        events.try_recv(),
        Some(Event::Put { key: "a".into() })
    );
    assert_eq!(
        events.try_recv(),
        Some(Event::Put { key: "b".into() })
    );
}

#[test]
fn keys_come_back_in_byte_order() {
    let l = seeded(&[("c", "3"), ("a", "1"), ("b", "2")]);
    assert_eq!(l.keys(), vec!["a", "b", "c"]);
}

#[test]
fn prefix_listing_stops_at_the_prefix_boundary() {
    let l = seeded(&[
        ("BTCUSDT::1", "x"),
        ("BTCUSDT::2", "y"),
        ("BTCUSDU::1", "z"),
        ("ETHUSDT::1", "w"),
    ]);
    assert_eq!(
        l.keys_with_prefix("BTCUSDT::"),
        vec!["BTCUSDT::1", "BTCUSDT::2"]
    );
}

#[test]
fn range_is_inclusive_start_exclusive_end() {
    let l = seeded(&[("a", "1"), ("b", "2"), ("c", "3"), ("d", "4")]);
    let got = l.range("b".."d").unwrap();
    assert_eq!(
        got,
        vec![
            ("b".to_string(), "2".to_string()),
            ("c".to_string(), "3".to_string())
        ]
    );
}

#[test]
fn an_unbounded_range_returns_everything() {
    let l = seeded(&[("a", "1"), ("b", "2")]);
    assert_eq!(l.range(..).unwrap().len(), 2);
}

#[test]
fn reverse_range_descends() {
    let l = seeded(&[("a", "1"), ("b", "2"), ("c", "3")]);
    let keys: Vec<_> = l.range_rev(..)
        .unwrap()
        .into_iter()
        .map(|(k, _)| k)
        .collect();
    assert_eq!(keys, vec!["c", "b", "a"]);
}

#[test]
fn latest_takes_from_the_top() {
    let l = seeded(&[("a", "1"), ("b", "2"), ("c", "3"), ("d", "4")]);
    let keys: Vec<_> = l.latest(2)
        .unwrap()
        .into_iter()
        .map(|(k, _)| k)
        .collect();
    assert_eq!(keys, vec!["d", "c"]);
}

#[test]
fn clear_empties_the_locker_and_its_index() {
    let l = seeded(&[("a", "1"), ("b", "2")]);
    l.clear().unwrap();
    assert_eq!(l.len(), 0);
    assert_eq!(l.get("a").unwrap(), None);
}

#[test]
fn clear_does_not_touch_a_neighbouring_locker() {
    // The failure this guards: a DeleteRange whose upper bound leaks past
    // the locker prefix and wipes the next locker's data.
    let backend = pool();

    let one: Open<String> = open(&backend, 1, "one", LockerConfig::default())
    .unwrap();
    let two: Open<String> = open(&backend, 2, "two", LockerConfig::default())
    .unwrap();

    one.put("k", &"one".to_string()).unwrap();
    two.put("k", &"two".to_string()).unwrap();

    one.clear().unwrap();

    assert_eq!(one.get("k").unwrap(), None);
    assert_eq!(
        two.get("k").unwrap(),
        Some("two".into()),
        "clearing one locker must not disturb another"
    );
}

#[test]
fn reopening_rebuilds_the_index_from_storage() {
    let backend = pool();

    let first: Open<String> = open(&backend, 1, "l", LockerConfig::default())
    .unwrap();
    for i in 0..5 {
        first.put(&format!("k{i}"), &format!("v{i}")).unwrap();
    }
    drop(first);

    let second: Open<String> = open(&backend, 1, "l", LockerConfig::default())
    .unwrap();
    assert_eq!(second.len(), 5);
    assert_eq!(second.get("k3").unwrap(), Some("v3".into()));
}

#[test]
fn opening_pages_past_a_single_scan_page() {
    // SCAN_PAGE is 256; prove the paging loop in walk() actually continues
    // rather than silently truncating the index.
    let backend = pool();

    let first: Open<String> = open(&backend, 1, "l", LockerConfig::default())
    .unwrap();
    for i in 0..600 {
        first.put(&format!("k{i:04}"), &"v".to_string()).unwrap();
    }
    drop(first);

    let second: Open<String> = open(&backend, 1, "l", LockerConfig::default())
    .unwrap();
    assert_eq!(second.len(), 600);
}

#[test]
fn a_range_spanning_many_pages_returns_every_entry() {
    let l = locker();
    for i in 0..600 {
        l.put(&format!("k{i:04}"), &"v".to_string()).unwrap();
    }
    assert_eq!(l.range(..).unwrap().len(), 600);
}

#[test]
fn binary_keys_round_trip_and_are_listed_separately() {
    let l = locker();
    l.put_by(&[0xFF], &"high".to_string()).unwrap();
    l.put_by(&[0x80, 0x01], &"mid".to_string()).unwrap();
    l.put("a", &"text".to_string()).unwrap();

    assert_eq!(l.get_by(&[0xFF]).unwrap(), Some("high".into()));
    assert!(l.contains_key_by(&[0x80, 0x01]));
    assert_eq!(
        l.keys_bytes(),
        vec![b"a".to_vec(), vec![0x80, 0x01], vec![0xFF]]
    );
    assert_eq!(l.keys(), vec!["a".to_string()]);
    assert!(l.has_non_utf8_keys());

    l.delete_by(&[0xFF]).unwrap();
    assert!(!l.contains_key_by(&[0xFF]));
}

#[test]
fn a_binary_range_yields_raw_key_bytes() {
    let l = locker();
    for k in [&[0x00u8][..], &[0x80][..], &[0xFF][..]] {
        l.put_by(k, &"v".to_string()).unwrap();
    }
    let low: &[u8] = &[0x00];
    let high: &[u8] = &[0xFF];
    let got = l.range_by(low..high).unwrap();
    let keys: Vec<Vec<u8>> = got.into_iter().map(|(k, _)| k).collect();
    assert_eq!(keys, vec![vec![0x00], vec![0x80]]);

    // The str range refuses to invent names for binary keys. 0x00 is a
    // legal UTF-8 NUL string, so it is the only one that survives.
    let named: Vec<String> = l.range(..)
        .unwrap()
        .into_iter()
        .map(|(k, _)| k)
        .collect();
    assert_eq!(named, vec!["\u{0}".to_string()]);
}

#[test]
fn a_binary_key_watcher_sees_bytes_not_a_string() {
    let l = locker();
    let mut events = l.watch();
    l.put_by(&[0xFF], &"v".to_string()).unwrap();

    let event = events.try_recv().unwrap();
    assert_eq!(event.key_bytes(), &[0xFF]);
    assert_eq!(event.key(), None, "a binary key has no UTF-8 view");
}

#[test]
fn put_all_and_delete_all_are_single_commits() {
    let l = locker();
    let entries: Vec<(String, String)> = (0..50)
        .map(|i| (format!("k{i:03}"), format!("v{i}")))
        .collect();
    l.put_all(entries).unwrap();

    assert_eq!(l.len(), 50);
    assert_eq!(l.get("k049").unwrap(), Some("v49".into()));

    l.delete_all(["k000", "k001", "never_written"]).unwrap();
    assert_eq!(l.len(), 48);
    assert_eq!(l.get("k000").unwrap(), None);
}

#[test]
fn entries_and_to_map_match_key_by_key_reads() {
    let l = seeded(&[("a", "1"), ("b", "2"), ("c", "3")]);

    let entries = l.entries().unwrap();
    assert_eq!(entries.len(), 3);

    let map = l.to_map().unwrap();
    for key in l.keys() {
        assert_eq!(map.get(key.as_bytes()), l.get(&key).unwrap().as_ref());
    }
}

#[test]
fn to_map_skips_a_key_it_cannot_spell() {
    let l = locker();
    l.put("a", &"1".to_string()).unwrap();
    l.put_by(&[0xFF], &"2".to_string()).unwrap();

    let map = l.to_map().unwrap();
    assert_eq!(map.len(), 1, "a binary key has no place in a String map");
    assert!(map.contains_key(b"a"));
    // But it is still there, and still readable by bytes.
    assert_eq!(l.len(), 2);
    assert_eq!(l.get_by(&[0xFF]).unwrap(), Some("2".into()));
}

#[test]
fn watch_keys_covers_several_keys_at_once() {
    let l = locker();
    let mut events = l.watch_keys(&["a", "b"]);

    l.put("ignored", &"x".to_string()).unwrap();
    l.put("a", &"1".to_string()).unwrap();
    l.delete("b").unwrap();

    assert_eq!(
        events.try_recv(),
        Some(Event::Put { key: b"a".to_vec() })
    );
    assert_eq!(
        events.try_recv(),
        Some(Event::Deleted { key: b"b".to_vec() })
    );
}

#[test]
fn keys_may_contain_astral_plane_characters() {
    let l = seeded(&[("\u{1F34E}", "apple"), ("\u{E000}", "private")]);
    // UTF-8 byte order puts U+E000 (EE 80 80) below U+1F34E (F0 9F 8D 8E).
    assert_eq!(l.keys(), vec!["\u{E000}", "\u{1F34E}"]);
}
