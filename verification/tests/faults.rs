//! Planned failures, and what a bank makes of them.

use std::cell::RefCell;
use std::rc::Rc;

use crossbank::backend::api::{Backend, CommitOptions, Op, ScanPage, ScanRequest, Table};
use crossbank::fault::{Fault, FaultPlan, Injection};
use crossbank::{Bank, Commit, Error, LockerConfig, MemoryBackend, Result, Usage};

fn put(key: &[u8], value: &[u8]) -> Op {
    Op::Put {
        table: Table::Records,
        key: key.to_vec(),
        value: value.to_vec(),
    }
}

fn delete(key: &[u8]) -> Op {
    Op::Delete {
        table: Table::Records,
        key: key.to_vec(),
    }
}

#[test]
fn nothing_armed_changes_nothing() {
    let mut fault = Fault::new();
    assert!(fault.fired());
    assert_eq!(
        fault.intercept(vec![put(b"a", b"1")]).unwrap(),
        vec![put(b"a", b"1")]
    );
}

#[test]
fn a_refusal_fires_once_on_the_commit_that_covers_its_op() {
    let mut fault = Fault::new();
    fault.arm(FaultPlan::new(2, Injection::Abort));
    assert!(fault.intercept(vec![put(b"a", b"1"), put(b"b", b"2")]).is_ok());
    assert!(!fault.fired());
    match fault.intercept(vec![put(b"c", b"3")]) {
        Err(Error::Backend(text)) => assert_eq!(
            text,
            "fault: the commit was aborted before it reached storage"
        ),
        other => panic!("expected a refusal, got {other:?}"),
    }
    assert!(fault.fired());
    assert!(fault.intercept(vec![put(b"c", b"3")]).is_ok());
}

#[test]
fn each_refusal_has_its_own_error() {
    let mut fault = Fault::new();
    fault.arm(FaultPlan::new(0, Injection::Io));
    match fault.intercept(vec![delete(b"a")]) {
        Err(Error::Backend(text)) => {
            assert_eq!(text, "fault: the device reported an I/O error")
        }
        other => panic!("expected an I/O error, got {other:?}"),
    }
    fault.arm(FaultPlan::new(0, Injection::Quota));
    assert_eq!(
        fault.intercept(vec![put(b"abc", b"12345"), delete(b"xy")]),
        Err(Error::QuotaExceeded {
            needed: 10,
            available: None
        })
    );
}

#[test]
fn damage_waits_for_a_put() {
    let mut fault = Fault::new();
    fault.arm(FaultPlan::new(0, Injection::Truncate { keep: 2 }));
    assert_eq!(
        fault.intercept(vec![delete(b"a")]).unwrap(),
        vec![delete(b"a")]
    );
    assert!(!fault.fired());
    assert_eq!(
        fault
            .intercept(vec![delete(b"a"), put(b"b", b"12345"), put(b"c", b"67890")])
            .unwrap(),
        vec![delete(b"a"), put(b"b", b"12"), put(b"c", b"67890")]
    );
    assert!(fault.fired());
}

#[test]
fn corruption_flips_one_byte_and_spares_an_empty_value() {
    let mut fault = Fault::new();
    fault.arm(FaultPlan::new(0, Injection::Corrupt { flip: 7 }));
    assert_eq!(
        fault.intercept(vec![put(b"b", &[1, 2, 3, 4, 5])]).unwrap(),
        vec![put(b"b", &[1, 2, 0xFC, 4, 5])]
    );
    fault.arm(FaultPlan::new(0, Injection::Corrupt { flip: 7 }));
    assert_eq!(
        fault.intercept(vec![put(b"b", b"")]).unwrap(),
        vec![put(b"b", b"")]
    );
    assert!(fault.fired());
}

/// A store behind a plan that a test can arm at any time.
struct Faulty {
    inner: MemoryBackend,
    fault: Rc<RefCell<Fault>>,
}

impl Backend for Faulty {
    fn get(&self, table: Table, key: &[u8]) -> Result<Option<Vec<u8>>> {
        self.inner.get(table, key)
    }
    fn get_many(&self, table: Table, keys: Vec<Vec<u8>>) -> Result<Vec<Option<Vec<u8>>>> {
        self.inner.get_many(table, keys)
    }
    fn scan(&self, request: ScanRequest) -> Result<ScanPage> {
        self.inner.scan(request)
    }
    fn scan_page_size(&self) -> usize {
        self.inner.scan_page_size()
    }
    fn commit(&mut self, ops: Vec<Op>) -> Result<()> {
        let ops = self.fault.borrow_mut().intercept(ops)?;
        self.inner.commit(ops)
    }
    fn commit_with(&mut self, ops: Vec<Op>, options: CommitOptions) -> Result<()> {
        let ops = self.fault.borrow_mut().intercept(ops)?;
        self.inner.commit_with(ops, options)
    }
    fn usage(&self) -> Result<Option<Usage>> {
        self.inner.usage()
    }
    fn flush(&mut self) -> Result<()> {
        self.inner.flush()
    }
    fn close(&mut self) -> Result<()> {
        self.inner.close()
    }
}

fn faulty() -> (Bank<Faulty>, Rc<RefCell<Fault>>) {
    let fault = Rc::new(RefCell::new(Fault::new()));
    let store = Faulty {
        inner: MemoryBackend::new(),
        fault: fault.clone(),
    };
    (Bank::with_backend(store).unwrap(), fault)
}

fn abort(fault: &Rc<RefCell<Fault>>) {
    fault
        .borrow_mut()
        .arm(FaultPlan::new(0, Injection::Abort));
}

#[test]
fn a_refused_put_leaves_the_old_value_and_the_index() {
    let (mut bank, fault) = faulty();
    let mut l = bank.lazy_locker::<String>("l").unwrap();
    l.put(&mut bank.shared, "k", &"old".to_string()).unwrap();
    abort(&fault);
    assert!(l.put(&mut bank.shared, "k", &"new".to_string()).is_err());
    abort(&fault);
    assert!(l.put(&mut bank.shared, "other", &"new".to_string()).is_err());
    assert_eq!(l.keys(), vec!["k"]);
    assert_eq!(
        l.get(&mut bank.shared, "k").unwrap(),
        Some("old".to_string())
    );
}

#[test]
fn a_refused_flush_keeps_the_batch_for_the_next() {
    let (mut bank, fault) = faulty();
    let config = LockerConfig::default().with_commit(Commit::Deferred { after: 10 });
    let mut l = bank.lazy_locker_with::<String>("l", config).unwrap();
    l.put(&mut bank.shared, "a", &"1".to_string()).unwrap();
    l.put(&mut bank.shared, "b", &"2".to_string()).unwrap();
    abort(&fault);
    assert!(l.flush(&mut bank.shared).is_err());
    assert_eq!(l.pending(), 2);
    l.flush(&mut bank.shared).unwrap();
    assert_eq!(l.pending(), 0);
    assert_eq!(l.get(&mut bank.shared, "b").unwrap(), Some("2".to_string()));
}

#[test]
fn a_refused_eager_put_leaves_the_resident_value() {
    let (mut bank, fault) = faulty();
    let mut l = bank.locker::<String>("l").unwrap();
    l.put(&mut bank.shared, "k", "old".into()).unwrap();
    abort(&fault);
    assert!(l.put(&mut bank.shared, "k", "new".into()).is_err());
    assert_eq!(l.get("k").as_deref(), Some(&"old".to_string()));
}

/// A refused chunked write takes an id, and the next one takes another.
#[test]
fn an_id_taken_in_vain_is_never_taken_again() {
    let (mut bank, fault) = faulty();
    let config = LockerConfig::default().with_chunk_size(16);
    let mut l = bank.lazy_locker_with::<Vec<u8>>("l", config).unwrap();
    abort(&fault);
    assert!(l.put(&mut bank.shared, "a", &vec![1; 100]).is_err());
    l.put(&mut bank.shared, "a", &vec![2; 100]).unwrap();
    l.put(&mut bank.shared, "b", &vec![3; 100]).unwrap();
    assert_eq!(l.get(&mut bank.shared, "a").unwrap(), Some(vec![2; 100]));
    assert_eq!(l.get(&mut bank.shared, "b").unwrap(), Some(vec![3; 100]));
}

#[test]
fn stored_damage_is_caught_on_reading() {
    let (mut bank, fault) = faulty();
    let mut l = bank.lazy_locker::<String>("l").unwrap();
    fault
        .borrow_mut()
        .arm(FaultPlan::new(0, Injection::Corrupt { flip: 9 }));
    l.put(&mut bank.shared, "k", &"value".to_string()).unwrap();
    assert!(l.get(&mut bank.shared, "k").unwrap_err().is_corruption());
    assert_eq!(bank.verify("l").unwrap(), vec![b"k".to_vec()]);
}

/// A closed eager locker is gone with whatever could not be stored; a lazy one
/// keeps its batch and can still be flushed.
#[test]
fn a_failed_close_loses_an_eager_batch_and_keeps_a_lazy_one() {
    let config = || LockerConfig::default().with_commit(Commit::Deferred { after: 10 });
    let (mut bank, fault) = faulty();
    let mut eager = bank.locker_with::<String>("e", config()).unwrap();
    eager.put(&mut bank.shared, "k", "v".into()).unwrap();
    abort(&fault);
    assert!(eager.close(&mut bank.shared).is_err());
    assert!(eager.is_closed());
    assert_eq!(eager.pending(), 0);
    assert_eq!(eager.flush(&mut bank.shared), Err(Error::Closed));
    assert_eq!(eager.close(&mut bank.shared), Ok(()));

    let mut lazy = bank.lazy_locker_with::<String>("l", config()).unwrap();
    lazy.put(&mut bank.shared, "k", &"v".to_string()).unwrap();
    abort(&fault);
    assert!(lazy.close(&mut bank.shared).is_err());
    assert_eq!(lazy.pending(), 1);
    lazy.flush(&mut bank.shared).unwrap();
    assert_eq!(lazy.pending(), 0);
    let mut again = bank.lazy_locker::<String>("l").unwrap();
    assert_eq!(
        again.get(&mut bank.shared, "k").unwrap(),
        Some("v".to_string())
    );
}

/// The last piece of a stream lands with its pointer or not at all.
#[test]
fn a_refused_finish_writes_nothing() {
    let (mut bank, fault) = faulty();
    let config = LockerConfig::default().with_chunk_size(4);
    let mut l = bank.lazy_locker_with::<Vec<u8>>("l", config).unwrap();
    l.put(&mut bank.shared, "k", &vec![1]).unwrap();
    let mut writer = l.writer(&mut bank.shared, "k").unwrap();
    writer
        .write_chunk(&mut l, &mut bank.shared, b"abcdefghij")
        .unwrap();
    let used = bank.usage().unwrap();
    abort(&fault);
    assert!(writer.finish(&mut l, &mut bank.shared).is_err());
    assert_eq!(bank.usage().unwrap(), used);
    assert_eq!(l.get(&mut bank.shared, "k").unwrap(), Some(vec![1]));
}

#[test]
fn the_first_failed_flush_is_what_is_reported() {
    let (mut bank, fault) = faulty();
    let deferred = || LockerConfig::default().with_commit(Commit::Deferred { after: 8 });
    let mut a = bank.lazy_locker_with::<String>("a", deferred()).unwrap();
    let mut b = bank.locker_with::<String>("b", deferred()).unwrap();
    a.put(&mut bank.shared, "k", &"1".to_string()).unwrap();
    b.put(&mut bank.shared, "k", "2".to_string()).unwrap();
    fault.borrow_mut().arm(FaultPlan::new(0, Injection::Io));
    assert_eq!(
        bank.flush_all(vec![&mut a.res, &mut b.res]),
        Err(Error::backend("fault: the device reported an I/O error"))
    );
    // The one that failed keeps its batch, and did not stop the other.
    assert_eq!((a.pending(), b.pending()), (1, 0));
    assert_eq!(bank.locker_bytes("a").unwrap(), 0);
    assert!(bank.locker_bytes("b").unwrap() > 0);
    // Closing flushes too, and closes whatever came of it.
    b.put(&mut bank.shared, "l", "3".to_string()).unwrap();
    fault.borrow_mut().arm(FaultPlan::new(0, Injection::Abort));
    assert_eq!(
        bank.close(vec![&mut a.res, &mut b.res]),
        Err(Error::backend(
            "fault: the commit was aborted before it reached storage"
        ))
    );
    assert_eq!((a.pending(), b.pending()), (1, 0));
    assert!(bank.is_closed());
}
