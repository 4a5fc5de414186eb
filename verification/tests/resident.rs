//! Batches of staged writes and what they come to.

use crossbank::locker::batch::{accounting, Pending};
use crossbank::{Commit, LockerConfig};

#[test]
fn a_batch_of_one_is_not_deferral() {
    // Both degenerate settings must read as `Immediate` rather than
    // staging a write nobody will ever flush.
    for after in [0usize, 1] {
        let config = LockerConfig::default()
            .with_commit(Commit::Deferred { after });
        assert!(matches!(config.commit, Commit::Deferred { .. }));
        assert_eq!(
            match config.commit {
                Commit::Deferred { after } if after <= 1 => None,
                Commit::Deferred { after } => Some(after),
                Commit::Immediate => None,
            },
            None
        );
    }
}

#[test]
fn accounting_collapses_a_batch() {
    let entries = vec![
        Pending::Put {
            key: b"a".to_vec(),
            payload: vec![0; 10],
        },
        Pending::Put {
            key: b"a".to_vec(),
            payload: vec![0; 20],
        },
        Pending::Delete { key: b"b".to_vec() },
    ];
    let (updates, removals, cleared) = accounting(&entries);
    assert_eq!(updates, vec![(b"a".to_vec(), 20)]);
    assert_eq!(removals, vec![b"b".to_vec()]);
    assert!(!cleared);
}

#[test]
fn a_clear_wipes_the_batch_before_it() {
    let entries = vec![
        Pending::Put {
            key: b"a".to_vec(),
            payload: vec![0; 10],
        },
        Pending::Clear,
        Pending::Put {
            key: b"c".to_vec(),
            payload: vec![0; 5],
        },
    ];
    let (updates, removals, cleared) = accounting(&entries);
    assert!(cleared);
    assert!(removals.is_empty());
    assert_eq!(updates, vec![(b"c".to_vec(), 5)]);
}

#[test]
fn a_key_deleted_twice_is_removed_once() {
    let entries = vec![
        Pending::Put {
            key: b"a".to_vec(),
            payload: vec![0; 10],
        },
        Pending::Put {
            key: b"a".to_vec(),
            payload: vec![0; 20],
        },
        Pending::Delete { key: b"b".to_vec() },
        Pending::Delete { key: b"b".to_vec() },
    ];
    assert_eq!(
        accounting(&entries),
        (vec![(b"a".to_vec(), 20)], vec![b"b".to_vec()], false)
    );
}
