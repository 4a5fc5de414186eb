//! What a commit tells other tabs.

use crossbank::backend::{Op, Table};
use crossbank::coherence::{announcement_from_ops, INLINE_LIMIT};
use crossbank::key::LockerId;


fn put(id: LockerId, key: &str, value: Vec<u8>) -> Op {
    Op::Put {
        table: Table::Records,
        key: crossbank::key::encode(id, key),
        value,
    }
}

#[test]
fn a_small_write_carries_its_bytes() {
    let a = announcement_from_ops(1, 7, 3, &vec![put(7, "k", vec![1, 2, 3])]).expect("news");
    assert_eq!(a.locker_id, 7);
    assert_eq!(a.epoch, 3);
    assert!(!a.cleared);
    assert_eq!(a.changes.len(), 1);
    assert_eq!(a.changes[0].key, b"k".to_vec());
    assert_eq!(a.changes[0].value, Some(vec![1, 2, 3]));
    assert!(!a.changes[0].deleted);
}

#[test]
fn a_large_write_names_the_key_and_nothing_else() {
    let big = vec![0u8; INLINE_LIMIT + 1];
    let a = announcement_from_ops(1, 7, 0, &vec![put(7, "k", big)]).expect("news");
    assert_eq!(a.changes[0].value, None);
    assert!(
        !a.changes[0].deleted,
        "a large write is not a delete; a receiver must not drop the key"
    );
}

#[test]
fn a_chunk_pointer_is_never_inlined() {
    let pointer = crossbank::locker::chunk::ChunkPointer {
        value_id: 1,
        n_chunks: 2,
        total_len: 9,
        flags: crossbank::locker::chunk::FLAG_POSTCARD,
    }
    .encode();
    let a = announcement_from_ops(1, 7, 0, &vec![put(7, "k", pointer)]).expect("news");
    assert_eq!(a.changes[0].value, None);
    assert!(!a.changes[0].deleted);
    assert_eq!(
        a.changes[0].bytes,
        Some(9),
        "a pointer states its payload length so a receiver can account for it"
    );
}

#[test]
fn a_clear_supersedes_the_writes_before_it() {
    let ops = vec![
        put(7, "a", vec![1]),
        Op::DeleteRange {
            table: Table::Records,
            range: crossbank::key::locker_range(7),
        },
        put(7, "b", vec![2]),
    ];
    let a = announcement_from_ops(1, 7, 0, &ops).expect("news");
    assert!(a.cleared);
    assert_eq!(a.changes.len(), 1, "only the writes after the clear");
    assert_eq!(a.changes[0].key, b"b".to_vec());
}

#[test]
fn bookkeeping_alone_is_not_news() {
    let ops = vec![Op::Put {
        table: Table::Meta,
        key: b"next_tick".to_vec(),
        value: vec![0; 8],
    }];
    assert!(announcement_from_ops(1, 7, 0, &ops).is_none());
}
