//! What the library promises of all inputs, on a few of them.

use std::ops::Bound;
use std::sync::Arc;

use crossbank::backend::api::{Backend, KeyRange, Op, ScanRequest, Table};
use crossbank::codec::value::{pack, unpack, Value};
use crossbank::codec::{default_chain, FilterChain};
use crossbank::coherence::{announcement_from_ops, Announcement, Change, Coherence};
use crossbank::key::{decode_bytes, encode_bytes, encode_range_bytes, is_degenerate, LockerId};
use crossbank::locker::batch::{merge_batches, staged_view, Pending};
use crossbank::locker::chunk::{chunk_key, is_pointer, split, ChunkPointer, ValueIds, FLAG_POSTCARD};
use crossbank::locker::handles::Handles;
use crossbank::locker::lru::{encode_entry, parse_entry, Entry, LruState, Ticks};
use crossbank::watch::{settle, Fate, Watchers};
use crossbank::{
    Bank, Commit, Durability, Error, Event, Keeping, LazyLocker, Locker, LockerConfig,
    MemoryBackend, Policy, Transaction,
};

fn lazy(config: LockerConfig) -> (Bank<MemoryBackend>, LazyLocker<Vec<u8>>) {
    let mut bank = Bank::in_memory().unwrap();
    let locker = bank.lazy_locker_with("l", config).unwrap();
    (bank, locker)
}

fn rows(bank: &Bank<MemoryBackend>, table: Table) -> usize {
    bank.backend()
        .scan(ScanRequest {
            table,
            range: KeyRange::all(),
            reverse: false,
            limit: 100_000,
            want_values: false,
        })
        .unwrap()
        .items
        .len()
}

#[test]
fn opening_undoes_sealing_for_every_stock_chain() {
    let payload: Vec<u8> = (0..=255u8).cycle().take(5000).collect();
    for chain in [
        FilterChain::raw(),
        FilterChain::checksum_only(),
        default_chain(),
    ] {
        let sealed = chain.seal(payload.clone()).unwrap();
        assert_ne!(sealed, payload);
        assert_eq!(chain.open(&sealed).unwrap(), payload);
    }
    let packed = default_chain().seal(vec![0; 100_000]).unwrap();
    assert!(packed.len() < 2_000, "compression does its work");
}

#[test]
fn a_checksum_is_the_one_everybody_computes() {
    let sealed = FilterChain::checksum_only()
        .seal(b"123456789".to_vec())
        .unwrap();
    assert_eq!(&sealed[..6], b"CBNK\x01\x02");
    assert_eq!(&sealed[6..15], b"123456789");
    assert_eq!(&sealed[15..], 0xCBF4_3926u32.to_le_bytes());
}

#[test]
fn a_payload_is_its_length_and_its_bytes() {
    assert_eq!(pack(&b"ab".to_vec()).unwrap(), vec![2, b'a', b'b']);
    let long = vec![7u8; 300];
    let packed = pack(&long).unwrap();
    assert_eq!(&packed[..2], &[0xAC, 0x02]);
    assert_eq!(unpack(&packed).unwrap(), long);
    assert!(matches!(unpack(&[5, 1, 2]), Err(Error::Corrupt(_))));
    assert_eq!("hé".to_string().to_payload().unwrap(), vec![3, b'h', 0xC3, 0xA9]);
    assert!(matches!(
        String::from_payload(&[1, 0xFF]),
        Err(Error::Corrupt(_))
    ));
}

#[test]
fn stored_keys_keep_their_order_and_their_locker() {
    let keys: [&[u8]; 4] = [b"", b"a", b"a\0", b"\xff"];
    for pair in keys.windows(2) {
        assert!(encode_bytes(7, pair[0]) < encode_bytes(7, pair[1]));
    }
    for key in keys {
        assert_eq!(decode_bytes(7, &encode_bytes(7, key)).unwrap(), key);
        assert!(decode_bytes(8, &encode_bytes(7, key)).is_err());
    }
    let range = encode_range_bytes(7, Bound::Unbounded, Bound::Unbounded);
    assert!(range.contains(&encode_bytes(7, b"\xff\xff")));
    assert!(!range.contains(&encode_bytes(8, b"")));
    assert!(!range.contains(&encode_bytes(6, b"\xff")));
    let last: LockerId = u32::MAX;
    let range = encode_range_bytes(last, Bound::Unbounded, Bound::Unbounded);
    assert!(range.contains(&encode_bytes(last, b"\xff")));
}

#[test]
fn ranges_that_hold_nothing_are_known() {
    let (a, b): (&[u8], &[u8]) = (b"a", b"b");
    assert!(is_degenerate(Bound::Included(b), Bound::Included(a)));
    assert!(is_degenerate(Bound::Excluded(a), Bound::Excluded(a)));
    assert!(is_degenerate(Bound::Included(a), Bound::Excluded(a)));
    assert!(!is_degenerate(Bound::Included(a), Bound::Included(a)));
    assert!(!is_degenerate(Bound::Included(a), Bound::Excluded(b)));
}

#[test]
fn pieces_glue_back() {
    let payload: Vec<u8> = (0..100u8).collect();
    let parts = split(&payload, 33);
    assert_eq!(
        parts.iter().map(|p| p.len()).collect::<Vec<_>>(),
        vec![33, 33, 33, 1]
    );
    assert_eq!(parts.concat(), payload);
    assert!(split(&[], 10).is_empty());
}

#[test]
fn chunks_of_two_values_are_apart() {
    assert!(chunk_key(1, u32::MAX) < chunk_key(2, 0));
    assert_eq!(chunk_key(1, 2), vec![0, 0, 0, 0, 0, 0, 0, 1, 0, 0, 0, 2]);
    let sealed = default_chain().seal(b"x".to_vec()).unwrap();
    assert!(!is_pointer(&sealed));
    let pointer = ChunkPointer {
        value_id: 9,
        n_chunks: 2,
        total_len: 20,
        flags: FLAG_POSTCARD,
    };
    assert!(is_pointer(&pointer.encode()));
}

#[test]
fn ids_are_handed_out_once_and_run_out_loudly() {
    let mut ids = ValueIds::new();
    let mut backend = MemoryBackend::new();
    let (first, bump) = ids.allocate(&backend).unwrap();
    assert_eq!(first, 0);
    backend.commit(vec![bump]).unwrap();
    assert_eq!(ids.allocate(&backend).unwrap().0, 1);

    // A fresh allocator starts past what was recorded.
    assert_eq!(ValueIds::new().allocate(&backend).unwrap().0, 1);

    let mut full = ValueIds::new();
    assert!(matches!(full.seed_and_take(u64::MAX), Err(Error::Backend(_))));
    let mut clock = Ticks::new();
    assert_eq!(clock.allocate(&backend).unwrap(), 0);
    assert_eq!(clock.allocate(&backend).unwrap(), 1);
}

#[test]
fn an_accounting_entry_round_trips() {
    let entry = Entry {
        tick: 0x0102_0304_0506_0708,
        bytes: 9,
    };
    assert_eq!(parse_entry(&encode_entry(entry)), Some(entry));
    assert_eq!(parse_entry(&[1, 2, 3]), None);
}

#[test]
fn the_last_write_of_a_batch_is_what_is_read() {
    let put = |key: &[u8], payload: &[u8]| Pending::Put {
        key: key.to_vec(),
        payload: payload.to_vec(),
    };
    let staged = vec![put(b"a", b"1"), put(b"b", b"2")];
    let tx = vec![Pending::Delete { key: b"a".to_vec() }, put(b"b", b"3")];
    let merged = merge_batches(&staged, &tx);
    assert_eq!(staged_view(&merged, b"a"), Some(None));
    assert_eq!(staged_view(&merged, b"b"), Some(Some(b"3".to_vec())));
    assert_eq!(staged_view(&merged, b"c"), None);
    let cleared = merge_batches(&merged, &vec![Pending::Clear]);
    assert_eq!(staged_view(&cleared, b"c"), Some(None));
}

#[test]
fn a_put_is_got_back_whatever_its_shape() {
    for config in [
        LockerConfig::default(),
        LockerConfig::default().with_chunk_size(8),
        LockerConfig::default().with_commit(Commit::Deferred { after: 3 }),
        LockerConfig::default().with_policy(Policy::Evictable { max_bytes: 500 }),
    ] {
        let (mut bank, mut l) = lazy(config);
        for i in 0..10u8 {
            let value = vec![i; 10 + i as usize];
            l.put(&mut bank.shared, "k", &value).unwrap();
            assert_eq!(l.get(&mut bank.shared, "k").unwrap(), Some(value));
            l.put(&mut bank.shared, "other", &vec![i]).unwrap();
        }
        l.delete(&mut bank.shared, "k").unwrap();
        assert_eq!(l.get(&mut bank.shared, "k").unwrap(), None);
        assert_eq!(l.get(&mut bank.shared, "other").unwrap(), Some(vec![9]));
        l.clear(&mut bank.shared).unwrap();
        assert_eq!(l.get(&mut bank.shared, "other").unwrap(), None);
        assert!(l.is_empty());
    }
}

#[test]
fn a_flush_changes_nothing_of_what_is_read() {
    let config = LockerConfig::default()
        .with_commit(Commit::Deferred { after: 100 })
        .with_chunk_size(8);
    let (mut bank, mut l) = lazy(config);
    l.put(&mut bank.shared, "a", &vec![1; 50]).unwrap();
    l.put(&mut bank.shared, "b", &vec![2; 3]).unwrap();
    l.delete(&mut bank.shared, "b").unwrap();
    assert_eq!(rows(&bank, Table::Records), 0);
    let before = (
        l.get(&mut bank.shared, "a").unwrap(),
        l.get(&mut bank.shared, "b").unwrap(),
    );
    l.flush(&mut bank.shared).unwrap();
    assert_eq!(rows(&bank, Table::Records), 1);
    assert_eq!(
        (
            l.get(&mut bank.shared, "a").unwrap(),
            l.get(&mut bank.shared, "b").unwrap()
        ),
        before
    );
}

#[test]
fn a_transaction_takes_what_was_staged_with_it() {
    let config = LockerConfig::default().with_commit(Commit::Deferred { after: 100 });
    let (mut bank, mut l) = lazy(config);
    l.put(&mut bank.shared, "a", &vec![1]).unwrap();
    let mut tx = Transaction::new();
    tx.put("b", vec![2]).unwrap();
    tx.delete("a").unwrap();
    assert_eq!(
        tx.get(&l.res.inner, bank.backend(), "b").unwrap(),
        Some(vec![2])
    );
    l.commit_transaction(&mut bank.shared, tx).unwrap();
    assert_eq!(l.pending(), 0);
    assert_eq!(l.keys(), vec!["b"]);
    assert_eq!(l.get(&mut bank.shared, "a").unwrap(), None);
    assert_eq!(l.get(&mut bank.shared, "b").unwrap(), Some(vec![2]));
}

/// Whatever is overwritten, removed or cleared gives its chunks back, and no
/// other value loses any.
#[test]
fn chunks_go_with_the_value_that_owned_them() {
    let (mut bank, mut l) = lazy(LockerConfig::default().with_chunk_size(8));
    let mut other = bank
        .lazy_locker_with::<Vec<u8>>("other", LockerConfig::default().with_chunk_size(8))
        .unwrap();
    other.put(&mut bank.shared, "k", &vec![5; 31]).unwrap();
    let kept = rows(&bank, Table::Chunks);

    l.put(&mut bank.shared, "a", &vec![1; 100]).unwrap();
    l.put(&mut bank.shared, "b", &vec![2; 100]).unwrap();
    l.put(&mut bank.shared, "a", &vec![3; 100]).unwrap();
    let full = rows(&bank, Table::Chunks);
    l.delete(&mut bank.shared, "a").unwrap();
    assert!(rows(&bank, Table::Chunks) < full);
    l.clear(&mut bank.shared).unwrap();
    assert_eq!(rows(&bank, Table::Chunks), kept);
    assert_eq!(
        other.get(&mut bank.shared, "k").unwrap(),
        Some(vec![5; 31])
    );
}

#[test]
fn a_budget_is_met_and_its_total_stays_exact() {
    let config = LockerConfig::default().with_policy(Policy::Evictable { max_bytes: 100 });
    let (mut bank, mut l) = lazy(config);
    for i in 0..20u8 {
        l.put(&mut bank.shared, &format!("k{i:02}"), &vec![i; 29])
            .unwrap();
    }
    assert_eq!(l.keys(), vec!["k17", "k18", "k19"]);
    assert_eq!(l.budget_used(), 90);
    assert_eq!(l.evict_to(&mut bank.shared, 40).unwrap(), 2);
    assert_eq!(l.budget_used(), 30);
    assert_eq!(l.keys(), vec!["k19"]);

    let mut state = LruState::new(10);
    assert_eq!(state.total(), 0);
    state.record(b"a", Entry { tick: 1, bytes: 4 });
    state.record(b"b", Entry { tick: 2, bytes: 6 });
    assert_eq!(state.total(), 10);
}

/// A value alone over the budget is stored all the same: a write never sheds
/// itself.
#[test]
fn a_write_never_sheds_itself() {
    let config = LockerConfig::default().with_policy(Policy::Evictable { max_bytes: 10 });
    let (mut bank, mut l) = lazy(config);
    l.put(&mut bank.shared, "small", &vec![1; 5]).unwrap();
    l.put(&mut bank.shared, "big", &vec![2; 50]).unwrap();
    assert_eq!(l.keys(), vec!["big"]);
    assert_eq!(
        l.get(&mut bank.shared, "big").unwrap(),
        Some(vec![2; 50])
    );
}

#[test]
fn an_erased_name_starts_over_under_a_new_id() {
    let mut bank = Bank::in_memory().unwrap();
    let first = bank.locker_id("l").unwrap();
    let other = bank.locker_id("other").unwrap();
    assert!(bank.delete_locker("l").unwrap());
    let again = bank.locker_id("l").unwrap();
    assert!(again != first && again != other);
    assert!(!bank.delete_locker("never").unwrap());
}

#[test]
fn ids_run_out_loudly() {
    let mut bank = Bank::in_memory().unwrap();
    bank.shared
        .backend
        .commit(vec![Op::Put {
            table: Table::Meta,
            key: b"next_locker_id".to_vec(),
            value: u32::MAX.to_be_bytes().to_vec(),
        }])
        .unwrap();
    match bank.locker_id("l") {
        Err(Error::Backend(text)) => assert_eq!(text, "locker id space is exhausted"),
        other => panic!("expected exhaustion, got {other:?}"),
    }
    assert!(bank.locker_names().unwrap().is_empty());
}

#[test]
fn a_layout_that_cannot_be_read_is_damage() {
    let mut backend = MemoryBackend::new();
    backend
        .commit(vec![Op::Put {
            table: Table::Meta,
            key: b"format_version".to_vec(),
            value: vec![1],
        }])
        .unwrap();
    match Bank::with_backend(backend).map(|_| ()) {
        Err(Error::Corrupt(text)) => assert_eq!(text, "format version is not a 4-byte integer"),
        other => panic!("expected damage, got {other:?}"),
    }
}

#[test]
fn a_locker_is_bound_to_its_chain() {
    let mut bank = Bank::in_memory().unwrap();
    drop(bank.lazy_locker::<String>("l").unwrap());
    let config = LockerConfig::default().with_chain(Arc::new(FilterChain::checksum_only()));
    match bank.lazy_locker_with::<String>("l", config) {
        Err(Error::SchemaMismatch { stored, requested }) => {
            assert_eq!(stored, "filter chain 1; this locker's values were sealed with it");
            assert_eq!(
                requested,
                "chain 2 (crc32) — reopen the locker with the chain it was written under, or use a new locker name"
            );
        }
        other => panic!("expected a mismatch, got {:?}", other.err()),
    }
}

#[test]
fn a_deferred_locker_has_one_handle() {
    let deferred = || LockerConfig::default().with_commit(Commit::Deferred { after: 5 });
    let mut bank = Bank::in_memory().unwrap();
    let mut first = bank.lazy_locker_with::<String>("l", deferred()).unwrap();
    match bank.lazy_locker::<String>("l") {
        Err(Error::InvalidConfig(text)) => assert!(text.starts_with("locker \"l\" is already open")),
        other => panic!("expected a refusal, got {:?}", other.err()),
    }
    first.close(&mut bank.shared).unwrap();
    let second = bank.lazy_locker::<String>("l").unwrap();
    assert!(bank.lazy_locker_with::<String>("l", deferred()).is_err());
    bank.release(second.res.inner.ticket);
    assert!(bank.lazy_locker_with::<String>("l", deferred()).is_ok());
}

#[test]
fn handles_on_one_name_know_it() {
    let mut handles = Handles::new();
    let a = handles.register(b"l", false).unwrap();
    assert!(!handles.shares(a));
    let b = handles.register(b"l", false).unwrap();
    assert!(handles.shares(a) && handles.shares(b));
    assert!(!handles.admits(b"l", true));
    assert!(handles.admits(b"m", true));
    handles.release(a);
    assert!(handles.is_open(b"l"));
    handles.release(b);
    assert!(!handles.is_open(b"l"));
}

#[test]
fn a_gap_is_reported_before_it_closes() {
    assert_eq!(settle(0, Fate::Taken, Fate::Taken), Some(0));
    assert_eq!(settle(0, Fate::Taken, Fate::Full), Some(1));
    assert_eq!(settle(3, Fate::Full, Fate::Taken), Some(4));
    assert_eq!(settle(3, Fate::Taken, Fate::Full), Some(1));
    assert_eq!(settle(3, Fate::Gone, Fate::Taken), None);
    assert_eq!(settle(0, Fate::Taken, Fate::Gone), None);

    let mut watchers = Watchers::new();
    let mut stream = watchers.subscribe(None, 0);
    watchers.broadcast(&Event::Cleared);
    watchers.broadcast(&Event::Put { key: b"a".to_vec() });
    watchers.broadcast(&Event::Put { key: b"b".to_vec() });
    assert_eq!(stream.try_recv(), Some(Event::Cleared));
    watchers.broadcast(&Event::Put { key: b"c".to_vec() });
    assert_eq!(stream.try_recv(), Some(Event::Lagged { skipped: 2 }));
}

#[test]
fn news_is_posted_once_it_is_true() {
    let mut coherence = Coherence::open(7);
    assert!(coherence.is_enabled());
    let ops = vec![Op::Put {
        table: Table::Records,
        key: encode_bytes(1, b"k"),
        value: b"CBNKsmall".to_vec(),
    }];
    let news = coherence.prepare(1, &ops).unwrap();
    assert!(!coherence.is_foreign(&news));
    assert!(coherence.take_outbox().is_empty());
    coherence.post(news);
    let sent = coherence.take_outbox();
    assert_eq!(sent.len(), 1);
    assert_eq!(sent[0].changes[0].key, b"k".to_vec());
    assert!(coherence.take_outbox().is_empty());
    coherence.close();
    assert!(coherence.prepare(1, &ops).is_none());
    assert!(announcement_from_ops(7, 2, 1, &ops).is_none(), "another locker's");
}

/// A bank with a channel announces every write that lands, under its locker.
#[test]
fn a_coherent_bank_announces_its_writes() {
    let mut bank = Bank::assembled(
        MemoryBackend::new(),
        default_chain(),
        Coherence::open(3),
        true,
    )
    .unwrap();
    let mut l = bank.locker::<String>("l").unwrap();
    l.put(&mut bank.shared, "k", "v".into()).unwrap();
    let sent = bank.shared.coherence.take_outbox();
    assert_eq!(sent.len(), 1);
    assert_eq!(sent[0].instance, 3);
    assert_eq!(sent[0].locker_id, l.res.inner.id);
    assert_eq!(sent[0].changes[0].key, b"k".to_vec());

    // Older news cannot undo a newer local write.
    let stale = Announcement {
        instance: 4,
        locker_id: l.res.inner.id,
        epoch: sent[0].epoch,
        cleared: false,
        changes: vec![Change {
            key: b"k".to_vec(),
            value: None,
            bytes: None,
            deleted: true,
        }],
    };
    l.apply(&stale);
    assert_eq!(l.get("k").as_deref(), Some(&"v".to_string()));
}

#[test]
fn usage_is_the_bytes_that_are_held() {
    let mut bank = Bank::in_memory().unwrap();
    let before = bank.usage().unwrap().unwrap().used;
    bank.shared
        .backend
        .commit(vec![Op::Put {
            table: Table::Chunks,
            key: vec![1; 10],
            value: vec![2; 90],
        }])
        .unwrap();
    assert_eq!(bank.usage().unwrap().unwrap().used, before + 100);
    bank.close(Vec::new()).unwrap();
    assert_eq!(bank.usage(), Err(Error::Closed));
    assert_eq!(bank.flush_all(Vec::new()), Err(Error::Closed));
}

#[test]
fn only_a_clear_yes_keeps_the_data() {
    let mut bank = Bank::in_memory().unwrap();
    for (said, kept) in [
        (Keeping::Always, Ok(true)),
        (Keeping::Nobody, Ok(false)),
        (Keeping::Answered(Some(true)), Ok(true)),
        (Keeping::Answered(Some(false)), Ok(false)),
        (Keeping::Answered(None), Ok(false)),
        (
            Keeping::Failed("refused".to_string()),
            Err(Error::backend("refused")),
        ),
    ] {
        assert_eq!(bank.persist(said.clone()), kept);
        assert_eq!(bank.is_persisted(said), kept);
    }
    bank.close(Vec::new()).unwrap();
    assert_eq!(bank.persist(Keeping::Always), Err(Error::Closed));
    assert_eq!(bank.is_persisted(Keeping::Always), Err(Error::Closed));
    assert_eq!(bank.close(Vec::new()), Ok(()));
}

#[test]
fn a_default_is_read_and_never_written() {
    let (mut bank, mut l) = lazy(LockerConfig::default());
    l.put(&mut bank.shared, "k", &vec![1]).unwrap();
    assert_eq!(l.get_or(&mut bank.shared, "k", vec![9]).unwrap(), vec![1]);
    assert_eq!(l.get_or(&mut bank.shared, "absent", vec![9]).unwrap(), vec![9]);
    assert_eq!(l.keys(), vec!["k"]);
    l.close(&mut bank.shared).unwrap();
    assert_eq!(l.get_or(&mut bank.shared, "k", vec![9]), Err(Error::Closed));
}

/// Epochs count the commits that had something to say.
#[test]
fn only_news_moves_the_epoch() {
    let mut coherence = Coherence::open(7);
    let put = |id: LockerId| {
        vec![Op::Put {
            table: Table::Records,
            key: encode_bytes(id, b"k"),
            value: b"CBNKsmall".to_vec(),
        }]
    };
    assert_eq!(coherence.prepare(1, &put(1)).unwrap().epoch, 1);
    assert!(coherence.prepare(1, &put(2)).is_none());
    assert!(coherence.prepare(1, &Vec::new()).is_none());
    assert_eq!(coherence.prepare(1, &put(1)).unwrap().epoch, 2);
}

/// A coherent bank whose store other tabs write to as well.
fn coherent(instance: u32) -> (Bank<MemoryBackend>, LazyLocker<Vec<u8>>) {
    let mut bank = Bank::assembled(
        MemoryBackend::new(),
        default_chain(),
        Coherence::open(instance),
        true,
    )
    .unwrap();
    let locker = bank
        .lazy_locker_with("l", LockerConfig::default().with_chunk_size(8))
        .unwrap();
    (bank, locker)
}

#[test]
fn every_commit_with_news_is_posted_under_its_own_epoch() {
    let (mut bank, mut l) = coherent(7);
    l.put(&mut bank.shared, "a", &vec![1]).unwrap();
    l.delete(&mut bank.shared, "a").unwrap();
    l.clear(&mut bank.shared).unwrap();
    let sent = bank.shared.coherence.take_outbox();
    assert_eq!(
        sent.iter().map(|a| (a.instance, a.epoch, a.cleared)).collect::<Vec<_>>(),
        vec![(7, 1, false), (7, 2, false), (7, 3, true)]
    );
    assert_eq!(sent[0].changes[0].key, b"a".to_vec());
    assert!(sent[1].changes[0].deleted);
    assert!(sent.iter().all(|a| a.locker_id == l.res.inner.id));
}

/// A key another tab wrote is no longer known to be small.
#[test]
fn a_write_over_another_tabs_value_drops_its_chunks() {
    let (mut bank, mut l) = coherent(7);
    l.put(&mut bank.shared, "k", &vec![1]).unwrap();
    let pointer = ChunkPointer {
        value_id: 90,
        n_chunks: 1,
        total_len: 3,
        flags: FLAG_POSTCARD,
    };
    bank.shared
        .backend
        .commit(vec![
            Op::Put {
                table: Table::Chunks,
                key: chunk_key(90, 0),
                value: default_chain().seal(vec![2, 8, 9]).unwrap(),
            },
            Op::Put {
                table: Table::Records,
                key: encode_bytes(l.res.inner.id, b"k"),
                value: pointer.encode(),
            },
        ])
        .unwrap();
    l.apply(&Announcement {
        instance: 8,
        locker_id: l.res.inner.id,
        epoch: 1,
        cleared: false,
        changes: vec![Change {
            key: b"k".to_vec(),
            value: None,
            bytes: Some(3),
            deleted: false,
        }],
    });
    assert_eq!(l.get(&mut bank.shared, "k").unwrap(), Some(vec![8, 9]));
    l.put(&mut bank.shared, "k", &vec![3]).unwrap();
    assert_eq!(bank.backend().get(Table::Chunks, &chunk_key(90, 0)).unwrap(), None);
}

#[test]
fn older_news_does_not_undo_a_write() {
    let mut bank = Bank::assembled(
        MemoryBackend::new(),
        default_chain(),
        Coherence::open(7),
        true,
    )
    .unwrap();
    let mut l: Locker<String> = bank.locker("l").unwrap();
    l.put(&mut bank.shared, "k", "mine".to_string()).unwrap();
    assert_eq!(bank.shared.coherence.take_outbox()[0].epoch, 1);
    let gone = |epoch: u64| Announcement {
        instance: 8,
        locker_id: 0,
        epoch,
        cleared: false,
        changes: vec![Change {
            key: b"k".to_vec(),
            value: None,
            bytes: None,
            deleted: true,
        }],
    };
    l.apply(&gone(1));
    assert_eq!(l.get("k").as_deref(), Some(&"mine".to_string()));
    l.apply(&gone(2));
    assert_eq!(l.get("k"), None);
}

/// Whatever lockers store, shed and clear, every name keeps its id.
#[test]
fn lockers_leave_the_names_alone() {
    let mut bank = Bank::in_memory().unwrap();
    let config = LockerConfig::default()
        .with_chunk_size(8)
        .with_policy(Policy::Evictable { max_bytes: 40 });
    let mut l: LazyLocker<Vec<u8>> = bank.lazy_locker_with("l", config).unwrap();
    let other = bank.locker_id("other").unwrap();
    for i in 0..6u8 {
        l.put_by(&mut bank.shared, &[i], &vec![i; 16]).unwrap();
    }
    assert!(l.len() < 6, "the budget sheds");
    l.delete_by(&mut bank.shared, &[5]).unwrap();
    l.clear(&mut bank.shared).unwrap();
    bank.flush_all(vec![&mut l.res]).unwrap();
    assert_eq!(bank.locker_names().unwrap(), vec!["l", "other"]);
    let mut again = Bank::with_backend(bank.shared.backend).unwrap();
    assert_eq!(again.locker_id("l").unwrap(), l.res.inner.id);
    assert_eq!(again.locker_id("other").unwrap(), other);
}

/// Whatever is asked of a closed bank, and of what is left of it, is refused.
#[test]
fn a_closed_bank_refuses_everything() {
    let mut bank = Bank::in_memory().unwrap();
    let mut lazy: LazyLocker<String> = bank.lazy_locker("lazy").unwrap();
    let mut eager: Locker<String> = bank.locker("eager").unwrap();
    let eventual = LockerConfig::default().with_durability(Durability::Eventual);
    let mut slow: LazyLocker<String> = bank.lazy_locker_with("slow", eventual).unwrap();
    lazy.put(&mut bank.shared, "k", &"v".to_string()).unwrap();
    eager.put(&mut bank.shared, "k", "v".to_string()).unwrap();
    bank.close(vec![&mut lazy.res, &mut eager.res, &mut slow.res]).unwrap();

    assert!(matches!(bank.locker::<String>("eager"), Err(Error::Closed)));
    assert!(matches!(bank.lazy_locker::<String>("new"), Err(Error::Closed)));
    assert_eq!(bank.locker_exists("lazy"), Err(Error::Closed));
    assert_eq!(bank.locker_id("lazy"), Err(Error::Closed));
    assert_eq!(bank.locker_names(), Err(Error::Closed));
    assert_eq!(bank.locker_bytes("lazy"), Err(Error::Closed));
    assert_eq!(bank.verify("lazy"), Err(Error::Closed));
    assert_eq!(bank.quarantine("lazy", &Vec::new()), Err(Error::Closed));
    assert_eq!(bank.delete_locker("lazy"), Err(Error::Closed));
    assert_eq!(bank.usage(), Err(Error::Closed));
    assert_eq!(bank.flush_all(Vec::new()), Err(Error::Closed));
    assert_eq!(bank.raw_get("lazy", "k"), Err(Error::Closed));
    assert_eq!(bank.raw_put("lazy", "k", vec![1]), Err(Error::Closed));
    assert_eq!(bank.raw_put_all("lazy", Vec::new()), Err(Error::Closed));
    assert_eq!(bank.raw_delete_all("lazy", Vec::new()), Err(Error::Closed));
    assert_eq!(bank.raw_len("lazy"), Err(Error::Closed));

    let shared = &mut bank.shared;
    assert_eq!(lazy.get(shared, "k"), Err(Error::Closed));
    assert_eq!(lazy.put(shared, "k", &"w".to_string()), Err(Error::Closed));
    assert_eq!(lazy.delete(shared, "k"), Err(Error::Closed));
    assert_eq!(lazy.clear(shared), Err(Error::Closed));
    assert_eq!(slow.flush(shared), Err(Error::Closed));
    assert_eq!(eager.put(shared, "k", "w".to_string()), Err(Error::Closed));
    assert_eq!(eager.delete(shared, "k"), Err(Error::Closed));
    assert_eq!(
        eager.get("k").as_deref(),
        Some(&"v".to_string()),
        "what is held in memory stays"
    );
    assert_eq!(shared.backend.flush(), Err(Error::Closed));
    assert_eq!(shared.backend.get(Table::Meta, b"k"), Err(Error::Closed));
}

#[test]
fn an_absent_locker_is_not_deleted_whatever_became_of_the_counter() {
    let mut store = MemoryBackend::new();
    store
        .commit(vec![Op::Put {
            table: Table::Meta,
            key: b"next_locker_id".to_vec(),
            value: b"odd".to_vec(),
        }])
        .unwrap();
    let mut bank = Bank::with_backend(store).unwrap();
    assert_eq!(bank.delete_locker("absent"), Ok(false));
    assert!(matches!(bank.locker_id("absent"), Err(Error::Corrupt(_))));
}

#[test]
fn news_of_another_locker_is_not_heeded() {
    let (mut bank, mut lazy) = coherent(7);
    let mut eager: Locker<String> = bank.locker("eager").unwrap();
    lazy.put(&mut bank.shared, "k", &vec![1]).unwrap();
    eager.put(&mut bank.shared, "k", "v".to_string()).unwrap();
    let cleared = |locker_id: LockerId| Announcement {
        instance: 8,
        locker_id,
        epoch: 90,
        cleared: true,
        changes: Vec::new(),
    };
    lazy.apply(&cleared(eager.res.inner.id));
    eager.apply(&cleared(lazy.res.inner.id));
    assert_eq!((lazy.len(), eager.len()), (1, 1));
    lazy.apply(&cleared(lazy.res.inner.id));
    eager.apply(&cleared(eager.res.inner.id));
    assert_eq!((lazy.len(), eager.len()), (0, 0));
}

/// Two subscriptions are two queues: what one reads the other still has.
#[test]
fn every_subscriber_has_a_stream_of_its_own() {
    let (mut bank, mut l) = lazy(LockerConfig::default());
    let mut all = l.watch();
    let mut one = l.watch_key("k");
    l.put(&mut bank.shared, "k", &vec![1]).unwrap();
    l.put(&mut bank.shared, "other", &vec![2]).unwrap();
    let put = |key: &str| Some(Event::Put { key: key.as_bytes().to_vec() });
    assert_eq!(all.try_recv(), put("k"));
    assert_eq!(one.try_recv(), put("k"));
    assert_eq!(all.try_recv(), put("other"));
    assert_eq!((all.try_recv(), one.try_recv()), (None, None));
}

#[test]
fn a_closed_locker_lists_nothing() {
    let (mut bank, mut l) = lazy(LockerConfig::default());
    l.put(&mut bank.shared, "k", &vec![1]).unwrap();
    assert_eq!(l.entries(bank.backend()).unwrap().len(), 1);
    l.close(&mut bank.shared).unwrap();
    assert_eq!(l.entries(bank.backend()), Err(Error::Closed));
    assert_eq!(l.latest(bank.backend(), 1), Err(Error::Closed));
    assert_eq!(
        l.range_by(bank.backend(), Bound::Unbounded, Bound::Unbounded),
        Err(Error::Closed)
    );
}

/// Whatever bit of what is stored goes wrong, nothing is read back.
#[test]
fn bit_rot_is_refused_by_the_stock_chains() {
    for chain in [default_chain(), FilterChain::checksum_only()] {
        let stored = chain.seal(b"a value worth keeping, worth keeping".to_vec()).unwrap();
        assert!(chain.open(&stored).is_ok());
        for at in 0..stored.len() {
            for bit in 0..8 {
                let mut damaged = stored.clone();
                damaged[at] ^= 1 << bit;
                assert!(chain.open(&damaged).is_err(), "byte {at}, bit {bit}");
            }
        }
    }
}

/// A header, the compressed bytes, and four bytes that sum them up.
#[test]
fn the_default_chain_stores_what_it_compressed_and_its_sum() {
    let value = vec![3u8; 500];
    let stored = default_chain().seal(value.clone()).unwrap();
    let (rest, sum) = stored.split_at(stored.len() - 4);
    assert_eq!(lz4_flex::decompress_size_prepended(&rest[6..]).unwrap(), value);
    assert_eq!(sum, crc32fast::hash(&rest[6..]).to_le_bytes());
}

/// The default chain adds a tenth and a few bytes at most, so a locker takes
/// every value that is short enough for that.
#[test]
fn a_short_value_is_stored_whatever_it_holds() {
    let mut noise: u64 = 88172645463325252;
    for len in [0usize, 1, 100, 900] {
        let value: Vec<u8> = (0..len)
            .map(|_| {
                noise ^= noise << 13;
                noise ^= noise >> 7;
                noise ^= noise << 17;
                noise as u8
            })
            .collect();
        let payload = pack(&value).unwrap();
        let most = 6 + 24 + payload.len() * 110 / 100 + 4;
        assert!(default_chain().seal(payload.clone()).unwrap().len() <= most);
        let mut bank = Bank::in_memory().unwrap();
        let config = LockerConfig::default().with_max_inline(most);
        let mut l: Locker<Vec<u8>> = bank.locker_with("l", config).unwrap();
        assert_eq!(*l.put(&mut bank.shared, "k", value.clone()).unwrap(), value);
    }
}

/// A queue that never took more than it has room for misses nothing.
#[test]
fn who_has_room_misses_nothing() {
    let mut w = Watchers::new();
    for capacity in [0usize, 1, 3, 10] {
        let mut rx = w.subscribe(None, capacity);
        for i in 0..=capacity {
            w.broadcast(&Event::Put { key: vec![i as u8] });
        }
        for i in 0..=capacity {
            assert_eq!(rx.try_recv(), Some(Event::Put { key: vec![i as u8] }));
        }
        assert_eq!(rx.try_recv(), None);
    }
}

/// What a put sheds is told before the put, to those who asked for it.
#[test]
fn a_put_is_told_after_what_it_shed() {
    let config = LockerConfig::default().with_policy(Policy::Evictable { max_bytes: 250 });
    let (mut bank, mut l) = lazy(config);
    l.put(&mut bank.shared, "a", &vec![1; 100]).unwrap();
    l.put(&mut bank.shared, "b", &vec![2; 100]).unwrap();
    let mut all = l.watch();
    let mut of_a = l.watch_key("a");
    let mut of_b = l.watch_key("b");
    l.put(&mut bank.shared, "c", &vec![3; 100]).unwrap();
    assert_eq!(all.try_recv(), Some(Event::Evicted { key: b"a".to_vec() }));
    assert_eq!(all.try_recv(), Some(Event::Put { key: b"c".to_vec() }));
    assert_eq!(all.try_recv(), None);
    assert_eq!(of_a.try_recv(), Some(Event::Evicted { key: b"a".to_vec() }));
    assert_eq!(of_a.try_recv(), None);
    assert_eq!(of_b.try_recv(), None);
}

/// A write works the accounting out again where news had left it open.
#[test]
fn a_write_leaves_the_accounting_complete() {
    let config = LockerConfig::default().with_policy(Policy::Evictable { max_bytes: 10_000 });
    let (mut bank, mut l) = lazy(config);
    l.put(&mut bank.shared, "a", &vec![1; 100]).unwrap();
    l.apply(&Announcement {
        instance: 2,
        locker_id: l.res.inner.id,
        epoch: 1,
        cleared: false,
        changes: vec![Change {
            key: b"unknown".to_vec(),
            value: None,
            bytes: None,
            deleted: false,
        }],
    });
    assert!(l.res.lru.as_ref().unwrap().is_dirty());
    l.put(&mut bank.shared, "b", &vec![1; 100]).unwrap();
    assert!(!l.res.lru.as_ref().unwrap().is_dirty());
    assert_eq!(l.res.lru.as_ref().unwrap().total(), 202);
}

/// Where nothing is split, the size of a piece does not matter.
#[test]
fn a_locker_that_splits_nothing_needs_no_chunk_size() {
    let (mut bank, mut l) = lazy(LockerConfig::default().with_chunk_size(0));
    l.delete(&mut bank.shared, "k").unwrap();
    l.delete_by(&mut bank.shared, b"k").unwrap();
    l.clear(&mut bank.shared).unwrap();
    l.flush(&mut bank.shared).unwrap();
    bank.flush_all(vec![&mut l.res]).unwrap();
    l.close(&mut bank.shared).unwrap();
    assert!(l.is_closed());
}

/// Erasing a locker leaves every other name its id.
#[test]
fn erasing_a_locker_leaves_the_other_names_their_ids() {
    let mut bank = Bank::in_memory().unwrap();
    let one = bank.locker_id("one").unwrap();
    let two = bank.locker_id("two").unwrap();
    let three = bank.locker_id("three").unwrap();
    assert!(bank.delete_locker("two").unwrap());
    assert_eq!(bank.locker_id("one").unwrap(), one);
    assert_eq!(bank.locker_id("three").unwrap(), three);
    assert!(bank.locker_id("two").unwrap() > two);
}

/// A flush of everything that is open leaves nothing staged.
#[test]
fn a_flush_of_all_leaves_nothing_staged() {
    let mut bank = Bank::in_memory().unwrap();
    let config = LockerConfig::default().with_commit(Commit::Deferred { after: 100 });
    let mut a: LazyLocker<Vec<u8>> = bank.lazy_locker_with("a", config.clone()).unwrap();
    let mut b: Locker<Vec<u8>> = bank.locker_with("b", config).unwrap();
    a.put(&mut bank.shared, "k", &vec![1]).unwrap();
    b.put(&mut bank.shared, "k", vec![2]).unwrap();
    assert_eq!((a.res.staged.len(), b.res.staged.len()), (1, 1));
    bank.flush_all(vec![&mut a.res, &mut b.res]).unwrap();
    assert_eq!((a.res.staged.len(), b.res.staged.len()), (0, 0));
    a.put(&mut bank.shared, "k", &vec![3]).unwrap();
    bank.close(vec![&mut a.res, &mut b.res]).unwrap();
    assert!(a.res.staged.is_empty());
}
