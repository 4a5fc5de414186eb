//! When a commit is forced out, over a store that holds back what it may.

use std::cell::Cell;
use std::rc::Rc;

use crossbank::backend::api::{Backend, CommitOptions, Op, ScanPage, ScanRequest, Table};
use crossbank::{
    Bank, Commit, Durability, LazyLocker, Locker, LockerConfig, MemoryBackend, Result, Usage,
};

/// Counts the commits that nothing has forced out yet.
struct Lagging {
    inner: MemoryBackend,
    behind: Rc<Cell<usize>>,
}

impl Backend for Lagging {
    fn get(&self, table: Table, key: &[u8]) -> Result<Option<Vec<u8>>> {
        self.inner.get(table, key)
    }
    fn get_many(&self, table: Table, keys: Vec<Vec<u8>>) -> Result<Vec<Option<Vec<u8>>>> {
        self.inner.get_many(table, keys)
    }
    fn scan(&self, request: ScanRequest) -> Result<ScanPage> {
        self.inner.scan(request)
    }
    fn scan_page_size(&self) -> usize {
        self.inner.scan_page_size()
    }
    fn commit(&mut self, ops: Vec<Op>) -> Result<()> {
        self.inner.commit(ops)
    }
    fn commit_with(&mut self, ops: Vec<Op>, options: CommitOptions) -> Result<()> {
        if options.durability == Durability::Eventual {
            self.behind.set(self.behind.get() + 1);
        }
        self.inner.commit_with(ops, options)
    }
    fn usage(&self) -> Result<Option<Usage>> {
        self.inner.usage()
    }
    fn flush(&mut self) -> Result<()> {
        self.behind.set(0);
        self.inner.flush()
    }
    fn close(&mut self) -> Result<()> {
        self.inner.close()
    }
}

fn lagging() -> (Bank<Lagging>, Rc<Cell<usize>>) {
    let behind = Rc::new(Cell::new(0));
    let store = Lagging {
        inner: MemoryBackend::new(),
        behind: behind.clone(),
    };
    (Bank::with_backend(store).unwrap(), behind)
}

fn eventual() -> LockerConfig {
    LockerConfig::default().with_durability(Durability::Eventual)
}

#[test]
fn an_immediate_locker_leaves_nothing_to_force() {
    let (mut bank, behind) = lagging();
    let mut lazy: LazyLocker<String> = bank.lazy_locker("lazy").unwrap();
    lazy.put(&mut bank.shared, "a", &"1".to_string()).unwrap();
    assert_eq!(behind.get(), 0);
    let mut eager: Locker<String> = bank.locker("eager").unwrap();
    eager.put(&mut bank.shared, "a", "1".to_string()).unwrap();
    assert_eq!(behind.get(), 0);
}

#[test]
fn an_immediate_locker_flushes_no_backend() {
    let (mut bank, behind) = lagging();
    let mut slow: LazyLocker<String> = bank.lazy_locker_with("slow", eventual()).unwrap();
    slow.put(&mut bank.shared, "a", &"1".to_string()).unwrap();
    let mut fast: LazyLocker<String> = bank.lazy_locker("fast").unwrap();
    fast.flush(&mut bank.shared).unwrap();
    assert_eq!(behind.get(), 1);
}

#[test]
fn a_flush_forces_an_eventual_lazy_locker() {
    let (mut bank, behind) = lagging();
    let mut l: LazyLocker<String> = bank
        .lazy_locker_with("l", eventual().with_commit(Commit::Deferred { after: 8 }))
        .unwrap();
    l.put(&mut bank.shared, "a", &"1".to_string()).unwrap();
    assert_eq!(behind.get(), 0, "nothing was committed yet");
    l.flush(&mut bank.shared).unwrap();
    assert_eq!(l.pending(), 0);
    assert_eq!(behind.get(), 0, "the commit was forced out with the batch");
    l.put(&mut bank.shared, "b", &"2".to_string()).unwrap();
    l.close(&mut bank.shared).unwrap();
    assert_eq!(behind.get(), 0);
}

#[test]
fn a_flush_forces_an_eventual_eager_locker() {
    let (mut bank, behind) = lagging();
    let mut l: Locker<String> = bank.locker_with("l", eventual()).unwrap();
    l.put(&mut bank.shared, "a", "1".to_string()).unwrap();
    l.put(&mut bank.shared, "b", "2".to_string()).unwrap();
    assert_eq!(behind.get(), 2);
    l.flush(&mut bank.shared).unwrap();
    assert_eq!(behind.get(), 0);
}

#[test]
fn flushing_a_bank_forces_every_locker() {
    let (mut bank, behind) = lagging();
    let mut l: LazyLocker<String> = bank.lazy_locker_with("l", eventual()).unwrap();
    l.put(&mut bank.shared, "a", &"1".to_string()).unwrap();
    assert_eq!(behind.get(), 1);
    bank.flush_all(Vec::new()).unwrap();
    assert_eq!(behind.get(), 0);
    l.put(&mut bank.shared, "b", &"2".to_string()).unwrap();
    bank.close(Vec::new()).unwrap();
    assert_eq!(behind.get(), 0);
}
