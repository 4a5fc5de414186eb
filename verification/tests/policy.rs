//! Chunk pointers, byte accounting and locker settings.

use std::sync::Arc;

use crossbank::codec::{FilterChain, MAX_DECODED_BYTES};
use crossbank::locker::chunk::{is_pointer, ChunkPointer, FLAG_POSTCARD, FLAG_RAW, POINTER_LEN};
use crossbank::locker::lru::{encode_entry, parse_entry, Entry, LruState};
use crossbank::{Commit, Durability, Error, LockerConfig, OnCorrupt, Policy};


#[test]
fn pointer_round_trips() {
    let p = ChunkPointer {
        value_id: 42,
        n_chunks: 3,
        total_len: 1000,
        flags: FLAG_POSTCARD,
    };
    let encoded = p.encode();
    assert_eq!(encoded.len(), POINTER_LEN);
    assert!(is_pointer(&encoded));
    assert_eq!(ChunkPointer::parse(&encoded).unwrap(), p);
}

/// A pointer is read straight off storage, and both of its numbers size
/// an allocation. A corrupt one claiming `u32::MAX` chunks must be
/// refused before anything is reserved — on wasm the allocation failure
/// would be a `panic=abort` app kill, not an error anyone can catch.
#[test]
fn an_absurd_chunk_count_is_refused() {
    let raw = ChunkPointer {
        value_id: 42,
        n_chunks: u32::MAX,
        total_len: 1000,
        flags: FLAG_POSTCARD,
    }
    .encode();
    assert!(matches!(ChunkPointer::parse(&raw), Err(Error::Corrupt(_))));
}

#[test]
fn a_length_past_the_envelope_ceiling_is_refused() {
    let raw = ChunkPointer {
        value_id: 42,
        n_chunks: 1,
        total_len: MAX_DECODED_BYTES as u64 + 1,
        flags: FLAG_POSTCARD,
    }
    .encode();
    assert!(matches!(ChunkPointer::parse(&raw), Err(Error::Corrupt(_))));
}

/// A `Writer` closed without a single `write` stores exactly this, so it
/// must stay legal.
#[test]
fn an_empty_streamed_value_is_still_a_legal_pointer() {
    let p = ChunkPointer {
        value_id: 7,
        n_chunks: 0,
        total_len: 0,
        flags: FLAG_RAW,
    };
    assert_eq!(ChunkPointer::parse(&p.encode()).unwrap(), p);
}

#[test]
fn inline_envelopes_are_not_pointers() {
    assert!(!is_pointer(b"CBNK...."));
    assert!(!is_pointer(b"short"));
}


fn state() -> LruState {
    let mut s = LruState::new(100);
    for (key, tick, bytes) in [(b"a", 1u64, 40u64), (b"b", 2, 40), (b"c", 3, 20)] {
        s.record(key, Entry { tick, bytes });
    }
    s
}

#[test]
fn entry_records_round_trip() {
    let e = Entry {
        tick: 9_000_000_000,
        bytes: 4096,
    };
    assert_eq!(parse_entry(&encode_entry(e)), Some(e));
    assert_eq!(parse_entry(b"short"), None);
}

#[test]
fn an_oversized_value_saturates_rather_than_wrapping() {
    let e = Entry {
        tick: 1,
        bytes: u64::from(u32::MAX) + 10_000,
    };
    let back = parse_entry(&encode_entry(e)).expect("fixed width");
    assert_eq!(back.bytes, u64::from(u32::MAX));
}

#[test]
fn a_put_inside_the_budget_evicts_nothing() {
    let s = state();
    let plan = s.plan(
        &vec![(b"c".to_vec(), Entry { tick: 4, bytes: 20 })],
        &vec![],
        false,
        s.max_bytes(),
        &vec![b"c".to_vec()],
    );
    assert!(plan.victims.is_empty());
    assert_eq!(plan.total, 100);
}

#[test]
fn going_over_sheds_the_lowest_tick_first() {
    let s = state();
    // 40 + 40 + 20 + 30 = 130 > 100, so the oldest (a, tick 1) goes.
    let plan = s.plan(
        &vec![(b"d".to_vec(), Entry { tick: 4, bytes: 30 })],
        &vec![],
        false,
        s.max_bytes(),
        &vec![b"d".to_vec()],
    );
    assert_eq!(plan.victims, vec![b"a".to_vec()]);
    assert_eq!(plan.total, 90);
}

#[test]
fn the_key_being_written_is_never_its_own_victim() {
    let s = state();
    // One value larger than the whole budget: everything else goes, and
    // the key that caused it stays. Refusing to store what we were just
    // asked to store would be the wrong failure.
    let plan = s.plan(
        &vec![(
            b"big".to_vec(),
            Entry {
                tick: 9,
                bytes: 500,
            },
        )],
        &vec![],
        false,
        s.max_bytes(),
        &vec![b"big".to_vec()],
    );
    assert_eq!(plan.victims.len(), 3);
    assert_eq!(plan.total, 500);
}

#[test]
fn a_read_bumps_the_tick_and_defers_the_write() {
    let mut s = state();
    s.touch(b"a", 99);
    assert_eq!(s.pending_len(), 1);
    let (keys, ops) = s.pending_ops(7, &vec![]);
    assert_eq!(keys, vec![b"a".to_vec()]);
    assert_eq!(ops.len(), 1);
    // A key the same commit already records is not written twice.
    assert!(s.pending_ops(7, &vec![b"a".to_vec()]).1.is_empty());
    let plan = s.plan(
        &vec![(
            b"d".to_vec(),
            Entry {
                tick: 100,
                bytes: 30,
            },
        )],
        &vec![],
        false,
        s.max_bytes(),
        &vec![b"d".to_vec()],
    );
    // `a` is no longer the oldest, so `b` is shed instead.
    assert_eq!(plan.victims, vec![b"b".to_vec()]);
}

#[test]
fn touching_a_key_we_do_not_hold_records_nothing() {
    let mut s = state();
    s.touch(b"absent", 42);
    assert_eq!(s.pending_len(), 0);
}


#[test]
fn defaults_are_conservative() {
    let c = LockerConfig::default();
    assert_eq!(c.max_inline, 256 * 1024);
    assert_eq!(c.eager_budget, 32 * 1024 * 1024);
    assert_eq!(c.policy, Policy::Precious);
    assert_eq!(c.chunk_size, 256 * 1024);
    assert_eq!(c.commit, Commit::Immediate);
    assert_eq!(c.durability, Durability::Immediate);
}

#[test]
fn durability_is_immediate_unless_asked_otherwise() {
    // The same rule as `commit`: nobody loses a write they did not ask to
    // risk. `Eventual` must be typed out.
    assert_eq!(Durability::default(), Durability::Immediate);
    assert!(!LockerConfig::default().is_eventual());
    let c = LockerConfig::default().with_durability(Durability::Eventual);
    assert_eq!(c.durability, Durability::Eventual);
    assert!(c.is_eventual());
}

#[test]
fn writes_are_immediate_unless_asked_otherwise() {
    // Deferring by default would mean data silently lost for anyone who
    // never learned they had to flush. Opt in to the risk, never out.
    assert_eq!(Commit::default(), Commit::Immediate);
    let c = LockerConfig::default().with_commit(Commit::Deferred { after: 8 });
    assert_eq!(c.commit, Commit::Deferred { after: 8 });
}

#[test]
fn failing_on_corruption_is_the_default() {
    // Opening over data we cannot read must be loud. Skipping silently
    // would turn data loss into a shrug.
    assert_eq!(OnCorrupt::default(), OnCorrupt::Fail);
    assert_eq!(LockerConfig::default().on_corrupt, OnCorrupt::Fail);
}

#[test]
fn precious_is_the_default_policy() {
    // Defaulting to evictable would mean data silently disappearing for
    // anyone who did not think about it. Safe by default, opt in to loss.
    assert_eq!(Policy::default(), Policy::Precious);
}

#[test]
fn builders_compose() {
    let c = LockerConfig::default()
        .with_max_inline(1024)
        .with_eager_budget(2048)
        .with_policy(Policy::Evictable { max_bytes: 4096 })
        .with_on_corrupt(OnCorrupt::Skip)
        .with_chunk_size(64)
        .with_durability(Durability::Eventual)
        .with_chain(Arc::new(FilterChain::raw()));
    assert_eq!(c.on_corrupt, OnCorrupt::Skip);
    assert_eq!(c.durability, Durability::Eventual);
    assert_eq!(c.max_inline, 1024);
    assert_eq!(c.eager_budget, 2048);
    assert_eq!(c.policy, Policy::Evictable { max_bytes: 4096 });
    assert_eq!(c.chunk_size, 64);
    assert_eq!(c.chain_id(), Some(0));
}

/// A chain compares by the id that gates format compatibility, not by
/// pointer identity — two `Arc`s over the same chain must not read as two
/// different configs.
#[test]
fn configs_compare_a_chain_by_its_id() {
    let a = LockerConfig::default().with_chain(Arc::new(FilterChain::raw()));
    let b = LockerConfig::default().with_chain(Arc::new(FilterChain::raw()));
    assert!(a == b);
    assert!(a != LockerConfig::default());
}
