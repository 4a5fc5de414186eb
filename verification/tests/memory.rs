//! The store that keeps everything in memory.

use std::ops::Bound;

use crossbank::backend::{Backend, KeyRange, MemoryBackend, Op, ScanPage, ScanRequest, Table};


fn scan_all(b: &MemoryBackend, reverse: bool, limit: usize) -> ScanPage {
    b.scan(ScanRequest {
        table: Table::Records,
        range: KeyRange::all(),
        reverse,
        limit,
        want_values: true,
    })
    .unwrap()
}

fn put(key: &[u8], value: &[u8]) -> Op {
    Op::Put {
        table: Table::Records,
        key: key.to_vec(),
        value: value.to_vec(),
    }
}

#[test]
fn commit_then_get_round_trips() {
    let mut b = MemoryBackend::new();
    b.commit(vec![put(b"k", b"v")]).unwrap();
    assert_eq!(
        b.get(Table::Records, b"k").unwrap(),
        Some(b"v".to_vec())
    );
}

#[test]
fn memory_an_empty_value_is_not_a_missing_key() {
    // A real distinction crossbank must preserve. wise_apple's existing
    // Dart bridge collapses these two, treating an empty payload as absent.
    let mut b = MemoryBackend::new();
    b.commit(vec![put(b"empty", b"")]).unwrap();

    assert_eq!(
        b.get(Table::Records, b"empty").unwrap(),
        Some(Vec::new())
    );
    assert_eq!(b.get(Table::Records, b"absent").unwrap(), None);
}

#[test]
fn keys_come_back_in_bytewise_order() {
    let mut b = MemoryBackend::new();
    b.commit(vec![put(b"b", b"1"), put(b"a", b"2"), put(b"c", b"3")]).unwrap();

    let keys: Vec<_> = scan_all(&b, false, 100)
        .items
        .into_iter()
        .map(|(k, _)| k)
        .collect();
    assert_eq!(keys, vec![b"a".to_vec(), b"b".to_vec(), b"c".to_vec()]);
}

#[test]
fn reverse_scan_descends() {
    let mut b = MemoryBackend::new();
    b.commit(vec![put(b"a", b"1"), put(b"b", b"2"), put(b"c", b"3")]).unwrap();

    let keys: Vec<_> = scan_all(&b, true, 100)
        .items
        .into_iter()
        .map(|(k, _)| k)
        .collect();
    assert_eq!(keys, vec![b"c".to_vec(), b"b".to_vec(), b"a".to_vec()]);
}

#[test]
fn an_exhausted_scan_reports_no_resume_point() {
    // The bug this guards against is an infinite paging loop: a range that
    // is finished must say so, not hand back a cursor forever.
    let mut b = MemoryBackend::new();
    b.commit(vec![put(b"a", b"1"), put(b"b", b"2")]).unwrap();

    let page = scan_all(&b, false, 100);
    assert_eq!(page.items.len(), 2);
    assert_eq!(page.resume, None);
}

#[test]
fn a_full_page_resumes_without_skipping_or_repeating() {
    let mut b = MemoryBackend::new();
    b.commit(vec![
        put(b"a", b"1"),
        put(b"b", b"2"),
        put(b"c", b"3"),
        put(b"d", b"4"),
    ])
    .unwrap();

    let mut seen = Vec::new();
    let mut start = Bound::Unbounded;
    loop {
        let page = b.scan(ScanRequest {
            table: Table::Records,
            range: KeyRange {
                start: start.clone(),
                end: Bound::Unbounded,
            },
            reverse: false,
            limit: 2,
            want_values: false,
        })
        .unwrap();

        seen.extend(page.items.iter().map(|(k, _)| k.clone()));
        match page.resume {
            Some(last) => start = Bound::Excluded(last),
            None => break,
        }
    }

    assert_eq!(
        seen,
        vec![b"a".to_vec(), b"b".to_vec(), b"c".to_vec(), b"d".to_vec()],
        "paging must cover every key exactly once"
    );
}

#[test]
fn want_values_false_omits_payloads() {
    let mut b = MemoryBackend::new();
    b.commit(vec![put(b"a", b"payload")]).unwrap();

    let page = b.scan(ScanRequest {
        table: Table::Records,
        range: KeyRange::all(),
        reverse: false,
        limit: 10,
        want_values: false,
    })
    .unwrap();

    assert_eq!(page.items[0].1, None);
}

#[test]
fn delete_range_removes_only_the_prefix() {
    let mut b = MemoryBackend::new();
    b.commit(vec![
        put(b"p::1", b"x"),
        put(b"p::2", b"y"),
        put(b"q::1", b"z"),
    ])
    .unwrap();

    b.commit(vec![Op::DeleteRange {
        table: Table::Records,
        range: KeyRange::prefix(b"p::"),
    }])
    .unwrap();

    let keys: Vec<_> = scan_all(&b, false, 100)
        .items
        .into_iter()
        .map(|(k, _)| k)
        .collect();
    assert_eq!(keys, vec![b"q::1".to_vec()]);
}

#[test]
fn tables_are_independent() {
    let mut b = MemoryBackend::new();
    b.commit(vec![
        Op::Put {
            table: Table::Meta,
            key: b"k".to_vec(),
            value: b"meta".to_vec(),
        },
        Op::Put {
            table: Table::Records,
            key: b"k".to_vec(),
            value: b"record".to_vec(),
        },
    ])
    .unwrap();

    assert_eq!(
        b.get(Table::Meta, b"k").unwrap(),
        Some(b"meta".to_vec())
    );
    assert_eq!(
        b.get(Table::Records, b"k").unwrap(),
        Some(b"record".to_vec())
    );
    assert_eq!(b.get(Table::Chunks, b"k").unwrap(), None);
}

#[test]
fn get_many_preserves_request_order_and_gaps() {
    let mut b = MemoryBackend::new();
    b.commit(vec![put(b"a", b"1"), put(b"c", b"3")]).unwrap();

    let got = b.get_many(
        Table::Records,
        vec![b"c".to_vec(), b"missing".to_vec(), b"a".to_vec()],
    )
    .unwrap();

    assert_eq!(
        got,
        vec![Some(b"3".to_vec()), None, Some(b"1".to_vec())],
        "results must line up positionally with the requested keys"
    );
}

#[test]
fn a_page_filled_by_the_last_key_reports_no_resume_point() {
    let mut b = MemoryBackend::new();
    b.commit(vec![put(b"a", b"1"), put(b"b", b"2")]).unwrap();
    for reverse in [false, true] {
        let page = scan_all(&b, reverse, 2);
        assert_eq!(page.items.len(), 2);
        assert_eq!(page.resume, None, "the range is exhausted");
        assert!(scan_all(&b, reverse, 1).resume.is_some());
        assert_eq!(scan_all(&b, reverse, 0).resume, None);
    }
}
