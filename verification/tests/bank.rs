//! The bank: names, ids, schemas and what survives a reopen.

use std::sync::Arc;

use crossbank::backend::api::{Backend, KeyRange, Op, ScanRequest, Table};
use crossbank::bank::FORMAT_VERSION;
use crossbank::codec::value::Value;
use crossbank::key::{encode, LockerId};
use crossbank::{
    Bank, BankConfig, Error, FilterChain, LockerConfig, MemoryBackend, OnCorrupt, Result,
};

/// A number, eight bytes wide.
struct Number(u64);

impl Value for Number {
    fn tag() -> String {
        "u64".to_string()
    }
    fn to_payload(&self) -> Result<Vec<u8>> {
        postcard::to_allocvec(&self.0).map_err(|e| Error::Filter(e.to_string()))
    }
    fn from_payload(payload: &[u8]) -> Result<Self> {
        postcard::from_bytes(payload)
            .map(Number)
            .map_err(|e| Error::Corrupt(e.to_string()))
    }
}

fn bank() -> Bank<MemoryBackend> {
    Bank::with_backend(MemoryBackend::new()).unwrap()
}

/// Replace a stored record's bytes with something no decoder can read.
fn corrupt_record(bank: &mut Bank<MemoryBackend>, id: LockerId, key: &str) {
    bank.shared
        .backend
        .commit(vec![Op::Put {
            table: Table::Records,
            key: encode(id, key),
            value: b"not a CBNK envelope".to_vec(),
        }])
        .unwrap();
}

/// The coherence flag is accepted everywhere and refuses nothing.
#[test]
fn the_coherence_flag_is_accepted_and_native_ignores_it() {
    let config = BankConfig::memory().with_coherence(true);
    assert!(config.coherence);
    assert!(!BankConfig::memory().coherence, "never on by default");

    config.check_platform(false).unwrap();
    assert!(!config.coherent(), "a native bank has no other tab");
    let mut bank = bank();
    let mut locker = bank.lazy_locker::<String>("l").unwrap();
    locker.put(&mut bank.shared, "k", &"v".to_string()).unwrap();
    assert_eq!(locker.get(&mut bank.shared, "k").unwrap(), Some("v".to_string()));
    bank.close(Vec::new()).unwrap();
}

#[test]
fn a_corrupt_record_can_be_skipped_verified_and_quarantined() {
    let mut b = bank();
    let mut l = b.locker::<String>("l").unwrap();
    l.put(&mut b.shared, "good", "keep".into()).unwrap();
    l.put(&mut b.shared, "bad", "lose".into()).unwrap();
    let id = b.locker_id("l").unwrap();
    l.close(&mut b.shared).unwrap();

    corrupt_record(&mut b, id, "bad");

    // The default refuses to open at all rather than serving a half view.
    assert!(matches!(
        b.locker::<String>("l"),
        Err(Error::Corrupt(_))
    ));

    // Asked to skip, it opens, names the casualty, and leaves it on disk.
    let mut skipping = b.locker_with::<String>(
        "l",
        LockerConfig::default().with_on_corrupt(OnCorrupt::Skip),
    )
    .unwrap();
    assert_eq!(skipping.corrupt_keys(), vec![b"bad".to_vec()]);
    assert!(skipping.get("bad").is_none());
    assert_eq!(skipping.get("good").as_deref(), Some(&"keep".to_string()));
    assert_eq!(skipping.len(), 1);

    // verify surveys the same damage, and runs happily while open.
    assert_eq!(b.verify("l").unwrap(), vec![b"bad".to_vec()]);

    // quarantine will not act behind an open handle.
    assert!(matches!(
        b.quarantine("l", &vec![b"bad".to_vec()]),
        Err(Error::InvalidConfig(_))
    ));
    skipping.close(&mut b.shared).unwrap();

    assert_eq!(b.quarantine("l", &vec![b"bad".to_vec()]).unwrap(), 1);
    assert!(b.verify("l").unwrap().is_empty());

    // And now the strict open succeeds again, with the good record intact.
    let healed = b.locker::<String>("l").unwrap();
    assert_eq!(healed.len(), 1);
    assert_eq!(healed.get("good").as_deref(), Some(&"keep".to_string()));
}

#[test]
fn quarantining_an_absent_key_removes_nothing() {
    let mut b = bank();
    let mut l = b.lazy_locker::<String>("l").unwrap();
    l.put(&mut b.shared, "k", &"v".to_string()).unwrap();
    l.close(&mut b.shared).unwrap();

    assert_eq!(b.quarantine("l", &vec![b"ghost".to_vec()]).unwrap(), 0);
    assert_eq!(b.quarantine("l", &Vec::new()).unwrap(), 0);
    assert_eq!(
        b.quarantine("never_registered", &vec![b"k".to_vec()]).unwrap(),
        0
    );

    let reopened = b.lazy_locker::<String>("l").unwrap();
    assert_eq!(reopened.len(), 1);
}

#[test]
fn verifying_an_unknown_locker_is_empty_not_an_error() {
    let mut b = bank();
    assert!(b.verify("never_registered").unwrap().is_empty());
}

#[test]
fn a_lazy_get_reports_corruption_even_when_skipping() {
    // Skip governs OPEN. Answering a direct read with `None` would claim
    // the key was never written, which is a lie about bytes still on disk.

    let mut b = bank();
    let mut l = b.lazy_locker::<String>("l").unwrap();
    l.put(&mut b.shared, "bad", &"v".to_string()).unwrap();
    let id = b.locker_id("l").unwrap();
    l.close(&mut b.shared).unwrap();
    corrupt_record(&mut b, id, "bad");

    let mut skipping = b.lazy_locker_with::<String>(
        "l",
        LockerConfig::default().with_on_corrupt(OnCorrupt::Skip),
    )
    .unwrap();
    assert!(skipping.corrupt_keys().is_empty(), "nothing read yet");

    assert!(skipping.get(&mut b.shared, "bad").is_err());
    assert_eq!(skipping.corrupt_keys(), vec![b"bad".to_vec()]);
    // The key is still indexed: it exists, it just cannot be read.
    assert!(skipping.contains_key("bad"));
}

#[test]
fn ids_are_stable_across_lookups() {
    let mut b = bank();
    let first = b.locker_id("settings").unwrap();
    let again = b.locker_id("settings").unwrap();
    assert_eq!(first, again);
}

#[test]
fn distinct_names_get_distinct_ids() {
    let mut b = bank();
    let a = b.locker_id("a").unwrap();
    let c = b.locker_id("b").unwrap();
    assert_ne!(a, c);
}

#[test]
fn ids_survive_reopening_over_the_same_backend() {
    // The registry cache must not be the source of truth, or a second
    // handle would allocate fresh ids over existing data.
    let mut first = bank();
    let settings = first.locker_id("settings").unwrap();
    let candles = first.locker_id("candles").unwrap();

    let mut second = Bank::with_backend(first.shared.backend).unwrap();
    assert_eq!(second.locker_id("settings").unwrap(), settings);
    assert_eq!(second.locker_id("candles").unwrap(), candles);
}

#[test]
fn a_fresh_name_after_reopen_does_not_reuse_an_id() {
    // Reusing an id would make a stale key readable as a different
    // locker's, which is the failure a persisted counter prevents.
    let mut first = bank();
    let a = first.locker_id("a").unwrap();
    let b_id = first.locker_id("b").unwrap();

    let mut second = Bank::with_backend(first.shared.backend).unwrap();
    let c = second.locker_id("c").unwrap();
    assert_ne!(c, a);
    assert_ne!(c, b_id);
}

#[test]
fn locker_names_lists_every_registration() {
    let mut b = bank();
    for name in ["ui_settings", "candle_cache", "reports"] {
        b.locker_id(name).unwrap();
    }

    let mut names = b.locker_names().unwrap();
    names.sort();
    assert_eq!(names, vec!["candle_cache", "reports", "ui_settings"]);
}

#[test]
fn locker_names_pages_past_one_scan_page() {
    // The registry scan pages at 256; prove the loop actually continues.
    let mut b = bank();
    for i in 0..300 {
        b.locker_id(&format!("locker_{i:04}")).unwrap();
    }
    assert_eq!(b.locker_names().unwrap().len(), 300);
}

#[test]
fn a_locker_name_may_contain_awkward_bytes() {
    let mut b = bank();
    let weird = "name with spaces :: and 🍎";
    b.locker_id(weird).unwrap();
    assert_eq!(b.locker_names().unwrap(), vec![weird]);
}

#[test]
fn binding_the_same_schema_twice_is_fine() {
    let mut b = bank();
    let id = b.locker_id("x").unwrap();
    b.bind_schema(id, "Settings").unwrap();
    b.bind_schema(id, "Settings").unwrap();
}

#[test]
fn rebinding_a_different_schema_is_refused() {
    // The guard against opening Locker<A> over data written as Locker<B>.
    let mut b = bank();
    let id = b.locker_id("x").unwrap();
    b.bind_schema(id, "Settings").unwrap();

    match b.bind_schema(id, "ReportMeta") {
        Err(Error::SchemaMismatch { stored, requested }) => {
            assert_eq!(stored, "Settings");
            assert_eq!(requested, "ReportMeta");
        }
        other => panic!("expected a schema mismatch, got {other:?}"),
    }
}

#[test]
fn schemas_are_per_locker_not_global() {
    let mut b = bank();
    let one = b.locker_id("one").unwrap();
    let two = b.locker_id("two").unwrap();
    b.bind_schema(one, "Settings").unwrap();
    b.bind_schema(two, "ReportMeta").unwrap();
}

#[test]
fn lockers_open_from_the_bank_and_persist() {
    let mut first = bank();
    let mut settings = first.locker::<String>("ui_settings").unwrap();
    settings.put(&mut first.shared, "theme", "dark".into()).unwrap();

    let mut candles = first.lazy_locker::<String>("candle_cache").unwrap();
    candles.put(&mut first.shared, "BTCUSDT::1", &"ohlc".to_string()).unwrap();

    let mut second = Bank::with_backend(first.shared.backend).unwrap();
    let settings = second.locker::<String>("ui_settings").unwrap();
    assert_eq!(settings.get("theme").as_deref(), Some(&"dark".to_string()));

    let mut candles = second.lazy_locker::<String>("candle_cache").unwrap();
    assert_eq!(
        candles.get(&mut second.shared, "BTCUSDT::1").unwrap(),
        Some("ohlc".into())
    );
}

#[test]
fn two_lockers_do_not_see_each_other() {
    let mut b = bank();
    let mut one = b.locker::<String>("one").unwrap();
    let mut two = b.locker::<String>("two").unwrap();

    one.put(&mut b.shared, "k", "from one".into()).unwrap();
    two.put(&mut b.shared, "k", "from two".into()).unwrap();

    assert_eq!(one.get("k").as_deref(), Some(&"from one".to_string()));
    assert_eq!(two.get("k").as_deref(), Some(&"from two".to_string()));
}

#[test]
fn reopening_a_locker_as_a_different_type_is_refused() {
    // The schema guard, exercised end to end through the public API.
    let mut b = bank();
    b.locker::<String>("x").unwrap();

    match b.locker::<Number>("x") {
        Err(Error::SchemaMismatch { .. }) => {}
        other => panic!("expected a schema mismatch, got {:?}", other.map(|_| "ok")),
    }
}

#[test]
fn a_future_format_version_is_refused() {
    let mut backend = MemoryBackend::new();
    backend.commit(vec![Op::Put {
        table: Table::Meta,
        key: b"format_version".to_vec(),
        value: (FORMAT_VERSION + 1).to_be_bytes().to_vec(),
    }])
    .unwrap();

    assert!(matches!(
        Bank::with_backend(backend),
        Err(Error::UnsupportedVersion { .. })
    ));
}

#[test]
fn open_memory_round_trips() {
    BankConfig::memory().check_platform(false).unwrap();
    let mut bank = Bank::in_memory().unwrap();
    let mut locker = bank.locker::<String>("ui_settings").unwrap();
    locker.put(&mut bank.shared, "theme", "dark".into()).unwrap();
    assert_eq!(locker.get("theme").as_deref(), Some(&"dark".to_string()));
}

#[test]
fn open_web_is_refused_on_native() {
    match BankConfig::web("should-not-open").check_platform(false) {
        Err(Error::InvalidConfig(msg)) => {
            assert!(msg.contains("wasm-only"), "{msg}");
        }
        other => panic!("expected InvalidConfig, got {other:?}"),
    }
}

#[test]
fn delete_bank_refuses_a_web_location_on_native() {
    assert!(matches!(
        BankConfig::web("nope").check_platform(false),
        Err(Error::InvalidConfig(_))
    ));
}

#[test]
fn deleting_a_memory_bank_is_a_no_op() {
    BankConfig::memory().check_platform(false).unwrap();
}

/// Every row of a table, as the puts that make another like it.
fn rows_as_puts(bank: &Bank<MemoryBackend>, table: Table) -> Vec<Op> {
    bank.backend()
        .scan(ScanRequest {
            table,
            range: KeyRange::all(),
            reverse: false,
            limit: 1000,
            want_values: true,
        })
        .unwrap()
        .items
        .into_iter()
        .map(|(key, value)| Op::Put {
            table,
            key,
            value: value.unwrap(),
        })
        .collect()
}

#[test]
fn a_survey_opens_records_with_the_lockers_own_chain() {
    let mut b = bank();
    let config = || LockerConfig::default().with_chain(Arc::new(FilterChain::raw()));
    let mut l = b.lazy_locker_with::<String>("l", config()).unwrap();
    l.put(&mut b.shared, "k", &"v".to_string()).unwrap();
    assert_eq!(b.verify("l"), Ok(Vec::new()));
    let id = b.locker_id("l").unwrap();
    corrupt_record(&mut b, id, "bad");
    assert_eq!(b.verify("l"), Ok(vec![b"bad".to_vec()]));
    l.close(&mut b.shared).unwrap();
    assert_eq!(b.quarantine("l", &vec![b"bad".to_vec()]), Ok(1));
    assert_eq!(b.verify("l"), Ok(Vec::new()));

    // A bank that never opened the locker does not have its chain, and says so
    // rather than call what it holds damaged.
    let mut store = MemoryBackend::new();
    store.commit(rows_as_puts(&b, Table::Meta)).unwrap();
    store.commit(rows_as_puts(&b, Table::Records)).unwrap();
    let mut again = Bank::with_backend(store).unwrap();
    match again.verify("l") {
        Err(Error::SchemaMismatch { stored, .. }) => assert_eq!(
            stored,
            "filter chain 0; this locker's values were sealed with it"
        ),
        other => panic!("expected a chain mismatch, got {other:?}"),
    }
    let mut l = again.lazy_locker_with::<String>("l", config()).unwrap();
    assert_eq!(again.verify("l"), Ok(Vec::new()));
    assert_eq!(l.get(&mut again.shared, "k").unwrap(), Some("v".to_string()));
}
