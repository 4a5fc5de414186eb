//! Byte-string requests, answered one at a time.

use std::cell::{Cell, RefCell};
use std::rc::Rc;

use crossbank::backend::api::{Backend, CommitOptions, Op, ScanPage, ScanRequest, Table};
use crossbank::codec::{default_chain, FilterChain};
use crossbank::handle::{Answer, Job};
use crossbank::{
    Bank, Commit, Error, Keeping, LazyLocker, LockerConfig, MemoryBackend, Result, Usage,
};

/// A bank that is asked for everything by request.
struct Remote<B> {
    bank: RefCell<Bank<B>>,
}

impl<B: Backend> Remote<B> {
    fn ask(&self, job: Job) -> Answer {
        self.bank.borrow_mut().serve(job, Vec::new())
    }
    fn done(&self, job: Job) -> Result<()> {
        match self.ask(job) {
            Answer::Done(r) => r,
            _ => panic!("not the answer to this request"),
        }
    }
    fn flag(&self, job: Job) -> Result<bool> {
        match self.ask(job) {
            Answer::Flag(r) => r,
            _ => panic!("not the answer to this request"),
        }
    }
    fn names(&self, job: Job) -> Result<Vec<String>> {
        match self.ask(job) {
            Answer::Keys(r) => r,
            _ => panic!("not the answer to this request"),
        }
    }
    fn get(&self, locker: &str, key: &str) -> Result<Option<Vec<u8>>> {
        match self.ask(Job::Get {
            locker: locker.into(),
            key: key.into(),
        }) {
            Answer::Value(r) => r,
            _ => panic!("not the answer to this request"),
        }
    }
    fn put(&self, locker: &str, key: &str, value: Vec<u8>) -> Result<()> {
        self.done(Job::Put {
            locker: locker.into(),
            key: key.into(),
            value,
        })
    }
    fn delete(&self, locker: &str, key: &str) -> Result<()> {
        self.done(Job::Delete {
            locker: locker.into(),
            key: key.into(),
        })
    }
    fn clear(&self, locker: &str) -> Result<()> {
        self.done(Job::Clear {
            locker: locker.into(),
        })
    }
    fn keys(&self, locker: &str, prefix: &str) -> Result<Vec<String>> {
        self.names(Job::Keys {
            locker: locker.into(),
            prefix: prefix.into(),
        })
    }
    fn get_many(&self, locker: &str, keys: Vec<String>) -> Result<Vec<Option<Vec<u8>>>> {
        match self.ask(Job::GetMany {
            locker: locker.into(),
            keys,
        }) {
            Answer::Values(r) => r,
            _ => panic!("not the answer to this request"),
        }
    }
    fn put_all(&self, locker: &str, entries: Vec<(String, Vec<u8>)>) -> Result<()> {
        self.done(Job::PutAll {
            locker: locker.into(),
            entries,
        })
    }
    fn delete_all(&self, locker: &str, keys: Vec<String>) -> Result<()> {
        self.done(Job::DeleteAll {
            locker: locker.into(),
            keys,
        })
    }
    fn entries(&self, locker: &str, prefix: &str) -> Result<Vec<(String, Vec<u8>)>> {
        match self.ask(Job::Entries {
            locker: locker.into(),
            prefix: prefix.into(),
        }) {
            Answer::Entries(r) => r,
            _ => panic!("not the answer to this request"),
        }
    }
    fn contains_key(&self, locker: &str, key: &str) -> Result<bool> {
        self.flag(Job::ContainsKey {
            locker: locker.into(),
            key: key.into(),
        })
    }
    fn len(&self, locker: &str) -> Result<usize> {
        match self.ask(Job::Len {
            locker: locker.into(),
        }) {
            Answer::Count(r) => r,
            _ => panic!("not the answer to this request"),
        }
    }
    fn locker_exists(&self, name: &str) -> Result<bool> {
        self.flag(Job::LockerExists { name: name.into() })
    }
    fn locker_names(&self) -> Result<Vec<String>> {
        self.names(Job::LockerNames)
    }
    fn delete_locker(&self, name: &str) -> Result<bool> {
        self.flag(Job::DeleteLocker { name: name.into() })
    }
    fn flush_all(&self) -> Result<()> {
        self.done(Job::FlushAll)
    }
    fn persist(&self) -> Result<bool> {
        self.flag(Job::Persist {
            said: Keeping::Always,
        })
    }
    fn is_persisted(&self) -> Result<bool> {
        self.flag(Job::IsPersisted {
            said: Keeping::Always,
        })
    }
    fn usage(&self) -> Result<Option<Usage>> {
        match self.ask(Job::ReportUsage) {
            Answer::Usage(r) => r,
            _ => panic!("not the answer to this request"),
        }
    }
}

fn serve_while<B: Backend, T>(bank: Bank<B>, body: impl FnOnce(Remote<B>) -> T) -> T {
    body(Remote {
        bank: RefCell::new(bank),
    })
}

fn with_service<T>(body: impl FnOnce(Remote<MemoryBackend>) -> T) -> T {
    serve_while(Bank::with_backend(MemoryBackend::new()).unwrap(), body)
}

/// [`with_service`] over a backend the test built, so it can watch what
/// the bank actually asks the storage layer to do.
fn with_service_over<B: Backend, T>(backend: B, body: impl FnOnce(Remote<B>) -> T) -> T {
    serve_while(Bank::with_backend(backend).unwrap(), body)
}

/// A backend that watches commits: it counts them, and can refuse one that
/// carries more record ops than a test allows.
///
/// The cap counts `Records` ops rather than every op, deliberately.
/// Registering a locker name legitimately commits **two** `Meta` ops at
/// once — the name-to-id record and the id counter, which must land
/// together — so a cap on `ops.len()` would fail every operation before it
/// reached a single record and prove nothing about batching.
struct WatchedCommits {
    inner: MemoryBackend,
    commits: Rc<Cell<usize>>,
    max_record_ops: Option<usize>,
}

impl WatchedCommits {
    fn with(max_record_ops: Option<usize>) -> (Self, Rc<Cell<usize>>) {
        let commits = Rc::new(Cell::new(0));
        let watched = Self {
            inner: MemoryBackend::new(),
            commits: commits.clone(),
            max_record_ops,
        };
        (watched, commits)
    }

    fn counting() -> (Self, Rc<Cell<usize>>) {
        Self::with(None)
    }

    fn capped(max_record_ops: usize) -> (Self, Rc<Cell<usize>>) {
        Self::with(Some(max_record_ops))
    }

    fn weigh(&self, ops: &[Op]) -> Result<()> {
        self.commits.set(self.commits.get() + 1);
        let Some(max) = self.max_record_ops else {
            return Ok(());
        };
        let records = ops
            .iter()
            .filter(|op| {
                matches!(
                    op,
                    Op::Put {
                        table: Table::Records,
                        ..
                    } | Op::Delete {
                        table: Table::Records,
                        ..
                    }
                )
            })
            .count();
        if records > max {
            return Err(Error::backend("too many record ops in one commit"));
        }
        Ok(())
    }
}

impl Backend for WatchedCommits {
    fn get(&self, table: Table, key: &[u8]) -> Result<Option<Vec<u8>>> {
        self.inner.get(table, key)
    }

    fn get_many(&self, table: Table, keys: Vec<Vec<u8>>) -> Result<Vec<Option<Vec<u8>>>> {
        self.inner.get_many(table, keys)
    }

    fn scan(&self, request: ScanRequest) -> Result<ScanPage> {
        self.inner.scan(request)
    }

    fn scan_page_size(&self) -> usize {
        self.inner.scan_page_size()
    }

    fn commit(&mut self, ops: Vec<Op>) -> Result<()> {
        self.weigh(&ops)?;
        self.inner.commit(ops)
    }

    fn commit_with(&mut self, ops: Vec<Op>, options: CommitOptions) -> Result<()> {
        self.weigh(&ops)?;
        self.inner.commit_with(ops, options)
    }

    fn usage(&self) -> Result<Option<Usage>> {
        self.inner.usage()
    }

    fn flush(&mut self) -> Result<()> {
        self.inner.flush()
    }

    fn close(&mut self) -> Result<()> {
        self.inner.close()
    }
}

#[test]
fn put_then_get_round_trips_through_the_service() {
    let got = with_service(|remote| {
        remote.put("l", "k", b"value".to_vec()).unwrap();
        remote.get("l", "k").unwrap()
    });
    assert_eq!(got, Some(b"value".to_vec()));
}

#[test]
fn handle_a_missing_key_is_none() {
    let got = with_service(|remote| { remote.get("l", "absent").unwrap() });
    assert_eq!(got, None);
}

#[test]
fn handle_an_empty_value_is_not_a_missing_key() {
    let (empty, absent) = with_service(|remote| {
        remote.put("l", "empty", Vec::new()).unwrap();
        (
            remote.get("l", "empty").unwrap(),
            remote.get("l", "absent").unwrap(),
        )
    });
    assert_eq!(empty, Some(Vec::new()));
    assert_eq!(absent, None);
}

#[test]
fn delete_and_clear_work_remotely() {
    let (after_delete, after_clear) = with_service(|remote| {
        remote.put("l", "a", b"1".to_vec()).unwrap();
        remote.put("l", "b", b"2".to_vec()).unwrap();
        remote.delete("l", "a").unwrap();
        let after_delete = remote.keys("l", "").unwrap();
        remote.clear("l").unwrap();
        (after_delete, remote.keys("l", "").unwrap())
    });
    assert_eq!(after_delete, vec!["b"]);
    assert!(after_clear.is_empty());
}

#[test]
fn keys_filters_by_prefix_and_orders_bytewise() {
    let keys = with_service(|remote| {
        for k in ["b::2", "a::1", "b::1"] {
            remote.put("l", k, b"x".to_vec()).unwrap();
        }
        remote.keys("l", "b::").unwrap()
    });
    assert_eq!(keys, vec!["b::1", "b::2"]);
}

#[test]
fn put_all_then_get_many_reads_every_entry_back() {
    let (got, absent) = with_service(|remote| {
        remote
            .put_all(
                "l",
                vec![
                    ("a".to_string(), b"1".to_vec()),
                    ("b".to_string(), Vec::new()),
                    ("c".to_string(), b"3".to_vec()),
                ],
            )
            .unwrap();

        // Positional, and asked for in an order that is not the stored
        // one: slot i must belong to keys[i], not to the i-th record.
        let got = remote
            .get_many("l", vec!["c".to_string(), "a".to_string(), "b".to_string()])
            .unwrap();
        let absent = remote
            .get_many("l", vec!["a".to_string(), "nope".to_string()])
            .unwrap();
        (got, absent)
    });

    assert_eq!(
        got,
        vec![Some(b"3".to_vec()), Some(b"1".to_vec()), Some(Vec::new())],
        "an empty stored value is not a missing key"
    );
    assert_eq!(absent, vec![Some(b"1".to_vec()), None]);
}

#[test]
fn put_all_and_delete_all_with_empty_lists_are_no_ops() {
    // "Nothing to write" must cost nothing — no commit, and on the web no
    // IndexedDB transaction at all.
    let (backend, watched) = WatchedCommits::counting();

    let commits = with_service_over(backend, |remote| {
        // Opening the bank writes the format version; the question is
        // what the two empty calls cost from here.
        watched.set(0);
        remote.put_all("l", Vec::new()).unwrap();
        remote.delete_all("l", Vec::new()).unwrap();
        watched.get()
    });

    assert_eq!(commits, 0, "an empty bulk call must not reach the backend");
}

#[test]
fn delete_all_removes_only_the_named_keys() {
    let left = with_service(|remote| {
        remote
            .put_all(
                "l",
                vec![
                    ("a".to_string(), b"1".to_vec()),
                    ("b".to_string(), b"2".to_vec()),
                    ("c".to_string(), b"3".to_vec()),
                ],
            )
            .unwrap();
        // "never_written" is deliberate: deleting an absent key is not an
        // error, and must not take a neighbour with it.
        remote
            .delete_all("l", vec!["a".to_string(), "never_written".to_string()])
            .unwrap();
        remote.keys("l", "").unwrap()
    });

    assert_eq!(left, vec!["b", "c"]);
}

#[test]
fn entries_returns_prefixed_pairs_in_byte_order_with_values() {
    let (prefixed, everything) = with_service(|remote| {
        remote
            .put_all(
                "l",
                vec![
                    ("b::2".to_string(), b"two".to_vec()),
                    ("a::1".to_string(), b"one".to_vec()),
                    ("b::1".to_string(), b"ONE".to_vec()),
                ],
            )
            .unwrap();
        (
            remote.entries("l", "b::").unwrap(),
            remote.entries("l", "").unwrap(),
        )
    });

    assert_eq!(
        prefixed,
        vec![
            ("b::1".to_string(), b"ONE".to_vec()),
            ("b::2".to_string(), b"two".to_vec()),
        ]
    );
    assert_eq!(
        everything
            .iter()
            .map(|(k, _)| k.clone())
            .collect::<Vec<_>>(),
        vec!["a::1", "b::1", "b::2"]
    );
}

#[test]
fn entries_pages_past_a_single_scan_page() {
    // Sized FROM the backend, never from a literal: the moment a backend
    // advertises a bigger page, a fixture pinned to a constant stops
    // crossing a page boundary and quietly tests nothing.
    let backend = MemoryBackend::new();
    let count = backend.scan_page_size() * 2 + 3;

    let entries = with_service_over(backend, |remote| {
        let written: Vec<(String, Vec<u8>)> = (0..count)
            .map(|i| (format!("k{i:06}"), format!("v{i}").into_bytes()))
            .collect();
        remote.put_all("l", written).unwrap();
        remote.entries("l", "").unwrap()
    });

    assert_eq!(entries.len(), count, "the paging loop dropped records");
    assert_eq!(entries[0], ("k000000".to_string(), b"v0".to_vec()));
    assert_eq!(
        entries[count - 1],
        (
            format!("k{:06}", count - 1),
            format!("v{}", count - 1).into_bytes()
        ),
        "the last page must carry its values, not just its keys"
    );
}

#[test]
fn contains_key_and_len_agree_with_keys() {
    let (present, absent, len, keys) = with_service(|remote| {
        remote
            .put_all(
                "l",
                vec![
                    ("a".to_string(), b"1".to_vec()),
                    ("b".to_string(), b"2".to_vec()),
                ],
            )
            .unwrap();
        (
            remote.contains_key("l", "a").unwrap(),
            remote.contains_key("l", "z").unwrap(),
            remote.len("l").unwrap(),
            remote.keys("l", "").unwrap(),
        )
    });

    assert!(present);
    assert!(!absent);
    assert_eq!(len, keys.len());
    assert_eq!(len, 2);
}

#[test]
fn locker_exists_names_and_delete_locker_round_trip_remotely() {
    let (before, after_write, names, deleted, deleted_again, left) =
        with_service(|remote| {
            let before = remote.locker_exists("settings").unwrap();
            remote
                .put("settings", "theme", b"dark".to_vec())
                .unwrap();
            remote
                .put("notes", "first", b"hello".to_vec())
                .unwrap();

            let after_write = remote.locker_exists("settings").unwrap();
            let names = remote.locker_names().unwrap();
            let deleted = remote.delete_locker("settings").unwrap();
            let deleted_again = remote.delete_locker("settings").unwrap();
            let left = remote.locker_names().unwrap();
            (before, after_write, names, deleted, deleted_again, left)
        });

    assert!(!before, "an unwritten name is not registered");
    assert!(after_write);
    assert_eq!(names, vec!["notes", "settings"]);
    assert!(deleted);
    assert!(
        !deleted_again,
        "deleting an absent locker is false, not an error"
    );
    assert_eq!(left, vec!["notes"]);
}

#[test]
fn flush_all_persist_is_persisted_and_usage_answer_remotely() {
    // These are pass-throughs, so the assertion is that the round trip
    // happens at all and the answer is the bank's own — not that any
    // particular platform reports usage.
    let (persisted, is_persisted, usage) = with_service(|remote| {
        remote.put("l", "k", b"v".to_vec()).unwrap();
        remote.flush_all().unwrap();
        (
            remote.persist().unwrap(),
            remote.is_persisted().unwrap(),
            remote.usage().unwrap(),
        )
    });

    // The memory backend under this bank reports the bytes it holds, so
    // the answer travelling back over the channel is a real one rather
    // than a default.
    let usage = usage.expect("the memory backend reports its own usage");
    assert!(usage.used > 0, "a bank that was written to uses bytes");

    // Natively the file is the persistence, so both answer true.
    assert!(persisted);
    assert!(is_persisted);
}

#[test]
fn put_all_is_one_commit() {
    // Half one: a backend that refuses a commit carrying two record ops.
    // If `put_all` wrote its entries one commit at a time the cap would
    // never fire and this would pass for the wrong reason — so the
    // assertion is that it DOES fire, and that nothing landed.
    let (backend, _) = WatchedCommits::capped(1);

    let (failed, left) = with_service_over(backend, |remote| {
        let failed = remote
            .put_all(
                "l",
                vec![
                    ("a".to_string(), b"1".to_vec()),
                    ("b".to_string(), b"2".to_vec()),
                ],
            );
        (failed, remote.keys("l", "").unwrap())
    });

    assert!(
        failed.is_err(),
        "two entries must ride in one commit, so the one-record cap must refuse it"
    );
    assert!(
        left.is_empty(),
        "a refused commit is atomic: nothing at all may land"
    );

    // Half two: the same call on a backend that only counts. Exactly one
    // commit, for three entries.
    let (backend, watched) = WatchedCommits::counting();

    let commits = with_service_over(backend, |remote| {
        // Touch the locker first, so the name registration's own
        // commits are not counted as part of the write.
        remote.len("l").unwrap();
        watched.set(0);
        remote
            .put_all(
                "l",
                vec![
                    ("a".to_string(), b"1".to_vec()),
                    ("b".to_string(), b"2".to_vec()),
                    ("c".to_string(), b"3".to_vec()),
                ],
            )
            .unwrap();
        watched.get()
    });

    assert_eq!(
        commits, 1,
        "three entries, one commit — one fsync, one transaction"
    );
}

/// A checksum-only chain is reachable from the public API and round trips.
#[test]
fn a_checksum_only_chain_round_trips_and_describes_itself() {
    assert_eq!(FilterChain::checksum_only().describe(), "chain 2 (crc32)");
    assert_ne!(
        FilterChain::checksum_only().describe(),
        default_chain().describe(),
        "a chain that transforms bytes differently must not look the same"
    );
    assert_ne!(
        FilterChain::checksum_only().id(),
        default_chain().id(),
        "the id is the compatibility gate; a collision would misdecode values"
    );

    let bank = Bank::with_backend_and_chain(
            MemoryBackend::new(),
            FilterChain::checksum_only(),
        )
        .unwrap();
    let got = serve_while(bank, |remote| {
        remote
            .put("l", "k", b"incompressible".to_vec())
            .unwrap();
        remote.get("l", "k").unwrap()
    });

    assert_eq!(got, Some(b"incompressible".to_vec()));
}

/// A byte-string locker is exactly a typed locker of `Vec<u8>`: same envelope,
/// same filter chain, same schema tag. The two views must agree.
#[test]
fn remote_writes_are_visible_to_the_typed_api() {
    let mut bank = Bank::with_backend(MemoryBackend::new()).unwrap();
    let job = Job::Put {
        locker: "shared".into(),
        key: "k".into(),
        value: b"bytes".to_vec(),
    };
    match bank.serve(job, Vec::new()) {
        Answer::Done(r) => r.unwrap(),
        _ => panic!("not the answer to this request"),
    }
    let mut typed = bank.lazy_locker::<Vec<u8>>("shared").unwrap();
    assert_eq!(
        typed.get(&mut bank.shared, "k").unwrap(),
        Some(b"bytes".to_vec())
    );
}

#[test]
fn a_flush_by_request_reaches_the_open_lockers() {
    let mut bank = Bank::in_memory().unwrap();
    let deferred = || LockerConfig::default().with_commit(Commit::Deferred { after: 8 });
    let mut a: LazyLocker<String> = bank.lazy_locker_with("a", deferred()).unwrap();
    let mut b: LazyLocker<String> = bank.lazy_locker_with("b", deferred()).unwrap();
    a.put(&mut bank.shared, "k", &"1".to_string()).unwrap();
    b.put(&mut bank.shared, "k", &"2".to_string()).unwrap();
    assert_eq!(bank.locker_bytes("a").unwrap(), 0);
    match bank.serve(Job::FlushAll, vec![&mut a.res, &mut b.res]) {
        Answer::Done(r) => r.unwrap(),
        _ => panic!("not the answer to this request"),
    }
    assert_eq!((a.pending(), b.pending()), (0, 0));
    assert!(bank.locker_bytes("a").unwrap() > 0);
    assert!(bank.locker_bytes("b").unwrap() > 0);
    // Anything else leaves them alone.
    a.put(&mut bank.shared, "k", &"3".to_string()).unwrap();
    match bank.serve(Job::LockerNames, vec![&mut a.res]) {
        Answer::Keys(r) => assert_eq!(r.unwrap(), vec!["a", "b"]),
        _ => panic!("not the answer to this request"),
    }
    assert_eq!(a.pending(), 1);
}
