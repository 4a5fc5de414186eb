//! Eager lockers: the whole locker in memory, reads that cannot fail.

use std::cell::RefCell;
use std::ops::{Bound, RangeBounds};
use std::rc::Rc;
use std::sync::Arc;

use crossbank::codec::value::Value;
use crossbank::codec::default_chain;
use crossbank::coherence::{Announcement, Change};
use crossbank::key::LockerId;
use crossbank::locker::inner::{Inner, Shared};
use crossbank::sorted::ByteMap;
use crossbank::{
    Locker, Error, Event, EventStream, LockerConfig, MemoryBackend, Policy, Result, Transaction,
};

type Pool = Rc<RefCell<Shared<MemoryBackend>>>;

fn pool() -> Pool {
    Rc::new(RefCell::new(Shared::new(MemoryBackend::new())))
}

/// A transaction with everything it reads from.
struct Tx<'a, T> {
    staged: RefCell<Transaction<T>>,
    inner: &'a Inner,
    backend: &'a MemoryBackend,
}

impl<T: Value> Tx<'_, T> {
    fn put(&self, key: &str, value: T) -> Result<()> {
        self.staged.borrow_mut().put(key, value)
    }
    fn delete(&self, key: &str) -> Result<()> {
        self.staged.borrow_mut().delete(key)
    }
    fn clear(&self) -> Result<()> {
        self.staged.borrow_mut().clear()
    }
    fn get(&self, key: &str) -> Result<Option<T>> {
        self.staged.borrow().get(self.inner, self.backend, key)
    }
}

fn str_bound<'a>(bound: Bound<&&'a str>) -> Bound<&'a str> {
    match bound {
        Bound::Unbounded => Bound::Unbounded,
        Bound::Included(s) => Bound::Included(s),
        Bound::Excluded(s) => Bound::Excluded(s),
    }
}

/// An eager locker with the bank's share of it.
struct Open<T> {
    locker: RefCell<Locker<T>>,
    shared: Pool,
}

fn open<T: Value>(pool: &Pool, id: LockerId, name: &str, config: LockerConfig) -> Result<Open<T>> {
    let locker = Locker::open(
        &pool.borrow().backend,
        Arc::new(default_chain()),
        id,
        name.to_string(),
        config,
        0,
    )?;
    Ok(Open {
        locker: RefCell::new(locker),
        shared: pool.clone(),
    })
}

impl<T: Value> Open<T> {
    fn id(&self) -> LockerId {
        self.locker.borrow().res.inner.id
    }
    fn seal(&self, value: &T) -> Result<Vec<u8>> {
        let payload = value.to_payload()?;
        self.locker.borrow().res.inner.chain.seal_slice(&payload)
    }
    fn apply(&self, news: &Announcement) {
        self.locker.borrow_mut().apply(news)
    }
    fn get(&self, key: &str) -> Option<Arc<T>> {
        self.locker.borrow().get(key)
    }
    fn get_by(&self, key: &[u8]) -> Option<Arc<T>> {
        self.locker.borrow().get_by(key)
    }
    fn get_or(&self, key: &str, default: T) -> Arc<T> {
        self.locker.borrow().get_or(key, default)
    }
    fn with<R>(&self, key: &str, f: impl FnOnce(&T) -> R) -> Option<R> {
        self.locker.borrow().with(key, f)
    }
    fn put(&self, key: &str, value: T) -> Result<Arc<T>> {
        self.locker.borrow_mut().put(&mut self.shared.borrow_mut(), key, value)
    }
    fn put_by(&self, key: &[u8], value: T) -> Result<Arc<T>> {
        self.locker.borrow_mut().put_by(&mut self.shared.borrow_mut(), key, value)
    }
    fn delete(&self, key: &str) -> Result<()> {
        self.locker.borrow_mut().delete(&mut self.shared.borrow_mut(), key)
    }
    fn delete_by(&self, key: &[u8]) -> Result<()> {
        self.locker.borrow_mut().delete_by(&mut self.shared.borrow_mut(), key)
    }
    fn clear(&self) -> Result<()> {
        self.locker.borrow_mut().clear(&mut self.shared.borrow_mut())
    }
    fn flush(&self) -> Result<()> {
        self.locker.borrow_mut().flush(&mut self.shared.borrow_mut())
    }
    fn close(&self) -> Result<()> {
        self.locker.borrow_mut().close(&mut self.shared.borrow_mut())
    }
    fn put_all(&self, entries: Vec<(String, T)>) -> Result<()> {
        self.locker.borrow_mut().put_all(&mut self.shared.borrow_mut(), entries)
    }
    fn delete_all<K: AsRef<str>>(&self, keys: impl IntoIterator<Item = K>) -> Result<()> {
        let keys = keys.into_iter().map(|k| k.as_ref().to_string()).collect();
        self.locker.borrow_mut().delete_all(&mut self.shared.borrow_mut(), &keys)
    }
    fn transact(&self, f: impl FnOnce(&Tx<T>) -> Result<()>) -> Result<()> {
        self.locker
            .borrow_mut()
            .transact(&mut self.shared.borrow_mut(), |tx, inner, backend| {
                let tx = Tx {
                    staged: RefCell::new(tx),
                    inner,
                    backend,
                };
                f(&tx)?;
                Ok(tx.staged.into_inner())
            })
    }
    fn range<'a>(&self, range: impl RangeBounds<&'a str>) -> Vec<(String, Arc<T>)> {
        self.locker
            .borrow()
            .range(str_bound(range.start_bound()), str_bound(range.end_bound()))
    }
    fn to_map(&self) -> ByteMap<Arc<T>> {
        self.locker.borrow().to_map()
    }
    fn len(&self) -> usize {
        self.locker.borrow().len()
    }
    fn pending(&self) -> usize {
        self.locker.borrow().pending()
    }
    fn contains_key(&self, key: &str) -> bool {
        self.locker.borrow().contains_key(key)
    }
    fn contains_key_by(&self, key: &[u8]) -> bool {
        self.locker.borrow().contains_key_by(key)
    }
    fn keys(&self) -> Vec<String> {
        self.locker.borrow().keys()
    }
    fn keys_bytes(&self) -> Vec<Vec<u8>> {
        self.locker.borrow().keys_bytes()
    }
    fn keys_with_prefix(&self, prefix: &str) -> Vec<String> {
        self.locker.borrow().keys_with_prefix(prefix)
    }
    fn has_non_utf8_keys(&self) -> bool {
        self.locker.borrow().has_non_utf8_keys()
    }
    fn watch(&self) -> EventStream {
        self.locker.borrow_mut().watch()
    }
    fn watch_keys(&self, keys: &[&str]) -> EventStream {
        let keys = keys.iter().map(|k| k.to_string()).collect();
        self.locker.borrow_mut().watch_keys(&keys)
    }
}

impl<T: Value + Clone> Open<T> {
    fn get_cloned(&self, key: &str) -> Option<T> {
        self.locker.borrow().get_cloned(key)
    }
}

fn open_with(config: LockerConfig) -> Result<Open<String>> {
    open(&pool(), 1, "test", config)
}

fn locker() -> Open<String> {
    open_with(LockerConfig::default()).unwrap()
}

/// An eager locker takes another tab's small write straight into RAM.
#[test]
fn a_sink_replaces_a_resident_value_from_an_inline_write() {
    let l = locker();
    l.put("k", "mine".into()).unwrap();
    let mut events = l.watch();

    let sealed = l.seal(&"theirs".to_string()).unwrap();
    l.apply(&Announcement {
        instance: 2,
        locker_id: l.id(),
        epoch: 1,
        cleared: false,
        changes: vec![Change {
            key: b"k".to_vec(),
            value: Some(sealed),
            bytes: None,
            deleted: false,
        }],
    });

    assert_eq!(l.get("k").as_deref(), Some(&"theirs".to_string()));
    assert_eq!(events.try_recv(), Some(Event::Put { key: b"k".to_vec() }));
}

/// A write too large to carry drops the resident copy and says so.
#[test]
fn a_write_it_cannot_hold_goes_stale_rather_than_lying() {
    let l = locker();
    l.put("k", "mine".into()).unwrap();
    let mut events = l.watch();

    l.apply(&Announcement {
        instance: 2,
        locker_id: l.id(),
        epoch: 1,
        cleared: false,
        changes: vec![Change {
            key: b"k".to_vec(),
            value: None,
            bytes: None,
            deleted: false,
        }],
    });

    assert_eq!(l.get("k"), None, "a value we cannot decode is not held");
    assert_eq!(events.try_recv(), Some(Event::Stale { key: b"k".to_vec() }));
}

#[test]
fn get_is_synchronous_and_returns_what_was_put() {
    let l = locker();
    l.put("theme", "dark".into()).unwrap();
    // Nothing to wait for. That is the feature.
    assert_eq!(l.get("theme").as_deref(), Some(&"dark".to_string()));
}

#[test]
fn eager_a_missing_key_is_none() {
    let l = locker();
    assert!(l.get("nope").is_none());
}

#[test]
fn overwriting_replaces() {
    let l = locker();
    l.put("k", "first".into()).unwrap();
    l.put("k", "second".into()).unwrap();
    assert_eq!(l.get("k").as_deref(), Some(&"second".to_string()));
    assert_eq!(l.len(), 1);
}

#[test]
fn delete_removes_from_ram_and_storage() {
    let l = locker();
    l.put("k", "v".into()).unwrap();
    l.delete("k").unwrap();
    assert!(l.get("k").is_none());
    assert_eq!(l.len(), 0);
}

#[test]
fn a_transaction_updates_ram_only_after_it_commits() {
    let l = locker();
    l.transact(|tx| {
        tx.put("a", "1".to_string())?;
        tx.put("b", "2".to_string())?;
        Ok(())
    })
    .unwrap();

    assert_eq!(l.len(), 2);
    assert_eq!(l.get("a").as_deref(), Some(&"1".to_string()));
}

#[test]
fn a_failed_transaction_leaves_the_resident_copy_alone() {
    let l = locker();
    l.put("existing", "old".into()).unwrap();

    let outcome: Result<()> = l.transact(|tx| {
        tx.put("a", "1".to_string())?;
        Err(Error::backend("nope"))
    });
    assert!(outcome.is_err());

    assert!(l.get("a").is_none());
    assert_eq!(l.get("existing").as_deref(), Some(&"old".to_string()));
    assert_eq!(l.len(), 1);
}

#[test]
fn a_transaction_respects_the_inline_size_limit() {
    // The limit must not be bypassable by routing a write through a
    // transaction instead of put().
    let l = open_with(LockerConfig::default().with_max_inline(64)).unwrap();

    let outcome: Result<()> = l.transact(|tx| {
        tx.put("big", "x".repeat(10_000))?;
        Ok(())
    });

    assert!(matches!(outcome, Err(Error::ValueTooLarge { .. })));
    assert!(l.get("big").is_none());
}

#[test]
fn an_eager_locker_announces_its_writes() {
    let l = locker();
    let mut events = l.watch();

    l.put("theme", "dark".into()).unwrap();

    assert_eq!(
        events.try_recv(),
        Some(Event::Put {
            key: "theme".into()
        })
    );
}

#[test]
fn keys_are_ordered_and_prefix_filtering_stops_at_the_boundary() {
    let l = locker();
    for k in ["ui::b", "ui::a", "uj::a"] {
        l.put(k, "v".into()).unwrap();
    }
    assert_eq!(l.keys(), vec!["ui::a", "ui::b", "uj::a"]);
    assert_eq!(l.keys_with_prefix("ui::"), vec!["ui::a", "ui::b"]);
}

#[test]
fn an_oversized_value_is_refused_and_names_the_alternative() {
    let l = open_with(LockerConfig::default().with_max_inline(64)).unwrap();
    let big = "x".repeat(10_000);

    match l.put("big", big) {
        Err(Error::ValueTooLarge { max_inline, .. }) => {
            assert_eq!(max_inline, 64);
        }
        other => panic!("expected ValueTooLarge, got {other:?}"),
    }
    // And it must not have half-landed.
    assert!(l.get("big").is_none());
}

#[test]
fn an_evictable_policy_is_refused_at_open() {
    // Eviction plus residency would leave a RAM replica surviving the
    // eviction, so the combination is rejected rather than reconciled.
    let config = LockerConfig::default().with_policy(Policy::Evictable { max_bytes: 1024 });
    match open_with(config) {
        Err(Error::InvalidConfig(msg)) => {
            assert!(msg.contains("lazy locker"), "should name the fix: {msg}")
        }
        other => panic!("expected InvalidConfig, got {:?}", other.err()),
    }
}

#[test]
fn reopening_restores_every_value() {
    let backend = pool();

    let first: Open<String> = open(&backend, 1, "l", LockerConfig::default())
    .unwrap();
    first.put("a", "alpha".into()).unwrap();
    first.put("b", "beta".into()).unwrap();
    drop(first);

    let second: Open<String> = open(&backend, 1, "l", LockerConfig::default())
    .unwrap();
    assert_eq!(second.len(), 2);
    assert_eq!(second.get("a").as_deref(), Some(&"alpha".to_string()));
}

#[test]
fn opening_over_too_much_data_fails_loudly() {
    // The guardrail against typing locker() where lazy_locker() was meant.
    let backend = pool();

    let seed: Open<String> = open(&backend, 1, "l", LockerConfig::default())
    .unwrap();
    for i in 0..50 {
        seed.put(&format!("k{i:03}"), "x".repeat(200)).unwrap();
    }
    drop(seed);

    let reopened: Result<Open<String>> = open(&backend, 1, "l", LockerConfig::default().with_eager_budget(1024));

    match reopened {
        Err(Error::LockerTooLarge { budget, .. }) => assert_eq!(budget, 1024),
        other => panic!("expected LockerTooLarge, got {:?}", other.map(|_| "ok")),
    }
}

#[test]
fn clear_empties_ram_and_storage() {
    let l = locker();
    l.put("a", "1".into()).unwrap();
    l.clear().unwrap();
    assert_eq!(l.len(), 0);
    assert!(l.get("a").is_none());
}

#[test]
fn binary_keys_live_alongside_text_ones() {
    let l = locker();
    l.put_by(&[0xFF], "high".into()).unwrap();
    l.put_by(&[0x00], "low".into()).unwrap();
    l.put("a", "text".into()).unwrap();

    assert_eq!(l.get_by(&[0xFF]).as_deref(), Some(&"high".to_string()));
    assert!(l.contains_key_by(&[0x00]));
    assert_eq!(
        l.keys_bytes(),
        vec![vec![0x00], b"a".to_vec(), vec![0xFF]],
        "keys must be ordered bytewise"
    );
    // The str listing skips what it cannot spell, and admits to it. Note
    // 0x00 IS valid UTF-8 (a NUL string), so it survives the filter.
    assert_eq!(l.keys(), vec!["\u{0}".to_string(), "a".to_string()]);
    assert!(l.has_non_utf8_keys());

    l.delete_by(&[0xFF]).unwrap();
    assert!(l.get_by(&[0xFF]).is_none());
    assert_eq!(l.len(), 2);
}

#[test]
fn a_locker_of_text_keys_reports_no_binary_ones() {
    let l = locker();
    l.put("a", "1".into()).unwrap();
    assert!(!l.has_non_utf8_keys());
    assert_eq!(l.keys_bytes(), vec![b"a".to_vec()]);
}

#[test]
fn get_ergonomics_cover_clone_default_and_borrow() {
    let l = locker();
    l.put("theme", "dark".into()).unwrap();

    assert_eq!(l.get_cloned("theme"), Some("dark".to_string()));
    assert_eq!(l.get_cloned("absent"), None);

    assert_eq!(*l.get_or("theme", "light".into()), "dark".to_string());
    assert_eq!(*l.get_or("absent", "light".into()), "light".to_string());
    // The default is a read-time fallback, never a write.
    assert!(!l.contains_key("absent"));

    assert_eq!(l.with("theme", |v| v.len()), Some(4));
    assert_eq!(l.with("absent", |v| v.len()), None);
}

#[test]
fn put_all_lands_as_one_commit() {
    let l = locker();
    let entries: Vec<(String, String)> = (0..50)
        .map(|i| (format!("k{i:03}"), format!("v{i}")))
        .collect();
    l.put_all(entries).unwrap();

    assert_eq!(l.len(), 50);
    assert_eq!(l.get("k049").as_deref(), Some(&"v49".to_string()));

    l.delete_all(["k000", "k001"]).unwrap();
    assert_eq!(l.len(), 48);
    assert!(l.get("k000").is_none());
}

#[test]
fn a_put_all_carrying_an_oversized_value_writes_nothing() {
    // The atomicity claim, stated as a negative: one bad entry must not
    // leave the good ones behind.
    let l = open_with(LockerConfig::default().with_max_inline(64)).unwrap();
    let entries = vec![
        ("ok".to_string(), "small".to_string()),
        ("bad".to_string(), "x".repeat(10_000)),
    ];

    assert!(matches!(
        l.put_all(entries),
        Err(Error::ValueTooLarge { .. })
    ));
    assert_eq!(l.len(), 0, "a refused put_all must write nothing at all");
}

#[test]
fn an_empty_bulk_operation_is_a_no_op() {
    let l = locker();
    l.put("k", "v".into()).unwrap();
    l.put_all(Vec::<(String, String)>::new()).unwrap();
    l.delete_all(Vec::<String>::new()).unwrap();
    assert_eq!(l.len(), 1);
}

#[test]
fn range_and_to_map_read_straight_from_ram() {
    let l = locker();
    for k in ["a", "b", "c", "d"] {
        l.put(k, k.to_uppercase()).unwrap();
    }

    let keys: Vec<String> = l.range("b".."d").into_iter().map(|(k, _)| k).collect();
    assert_eq!(keys, vec!["b", "c"]);
    assert_eq!(l.range(..).len(), 4);

    let map = l.to_map();
    assert_eq!(map.len(), 4);
    assert_eq!(map.get(b"c").map(|v| v.as_str()), Some("C"));
}

#[test]
fn watch_keys_passes_any_named_key_and_every_clear() {
    let l = locker();
    let mut events = l.watch_keys(&["a", "b"]);

    l.put("ignored", "x".into()).unwrap();
    l.put("b", "y".into()).unwrap();
    l.clear().unwrap();

    assert_eq!(
        events.try_recv(),
        Some(Event::Put { key: b"b".to_vec() })
    );
    assert_eq!(events.try_recv(), Some(Event::Cleared));
}

#[test]
fn values_are_shared_not_cloned_per_read() {
    let l = locker();
    let stored = l.put("k", "v".into()).unwrap();
    let read = l.get("k").unwrap();
    assert!(
        Arc::ptr_eq(&stored, &read),
        "reads should hand back the same Arc, not a fresh clone"
    );
}
