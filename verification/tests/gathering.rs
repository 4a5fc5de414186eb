//! Pages put together row by row, and what a platform's failures mean.

use std::ops::Bound;

use crossbank::backend::api::{Backend, KeyRange, Op, ScanRequest, Table};
use crossbank::backend::gather::{
    browser_failure, file_failure, gathered, range_is_all, rows_to_read, Gather,
};
use crossbank::{Error, MemoryBackend};

#[test]
fn a_page_that_fills_with_more_behind_it_can_be_resumed() {
    let mut page = Gather::new(2, true);
    page.take(b"a".to_vec(), Some(b"1".to_vec()));
    assert!(!page.is_full());
    page.take(b"b".to_vec(), Some(b"2".to_vec()));
    assert!(page.is_full());
    let page = page.into_page(true);
    assert_eq!(page.resume, Some(b"b".to_vec()));
    assert_eq!(
        page.items,
        vec![
            (b"a".to_vec(), Some(b"1".to_vec())),
            (b"b".to_vec(), Some(b"2".to_vec()))
        ]
    );
}

#[test]
fn a_page_with_nothing_behind_it_ends_the_range() {
    let mut page = Gather::new(1, true);
    page.take(b"a".to_vec(), Some(b"1".to_vec()));
    assert_eq!(page.into_page(false).resume, None);

    let mut page = Gather::new(2, true);
    page.take(b"a".to_vec(), Some(b"1".to_vec()));
    assert_eq!(page.into_page(true).resume, None, "not full, so at the end");

    assert_eq!(Gather::new(0, true).into_page(true).resume, None);
}

#[test]
fn values_nobody_asked_for_are_left_out() {
    let mut page = Gather::new(1, false);
    page.take(b"a".to_vec(), Some(b"1".to_vec()));
    assert_eq!(page.into_page(false).items, vec![(b"a".to_vec(), None)]);
}

#[test]
fn only_a_range_open_at_both_ends_is_everything() {
    assert!(range_is_all(&KeyRange::all()));
    assert!(!range_is_all(&KeyRange {
        start: Bound::Unbounded,
        end: Bound::Excluded(b"z".to_vec())
    }));
    assert!(!range_is_all(&KeyRange {
        start: Bound::Included(Vec::new()),
        end: Bound::Unbounded
    }));
}

#[test]
fn a_full_disk_is_a_quota_problem() {
    assert_eq!(
        file_failure("committing", "I/O error: No space left on device"),
        Error::QuotaExceeded {
            needed: 0,
            available: Some(0)
        }
    );
    assert_eq!(
        file_failure("committing", "ENOSPC"),
        Error::QuotaExceeded {
            needed: 0,
            available: Some(0)
        }
    );
    assert_eq!(
        file_failure("committing", "locked"),
        Error::Backend("committing: locked".into())
    );
}

#[test]
fn a_browser_says_quota_in_its_own_word() {
    assert_eq!(
        browser_failure("QuotaExceededError: no room"),
        Error::QuotaExceeded {
            needed: 0,
            available: None
        }
    );
    assert_eq!(
        browser_failure("blocked"),
        Error::Backend("blocked".into())
    );
}

/// What a cursor reads comes to the page that a table in memory answers with.
#[test]
fn a_cursor_answers_as_memory_does() {
    let mut memory = MemoryBackend::new();
    let rows: Vec<(Vec<u8>, Vec<u8>)> = (0..4u8).map(|i| (vec![b'a' + i], vec![i; 3])).collect();
    let ops = rows
        .iter()
        .map(|(key, value)| Op::Put {
            table: Table::Records,
            key: key.clone(),
            value: value.clone(),
        })
        .collect();
    memory.commit(ops).unwrap();
    for limit in [0usize, 1, 3, 4, 5, usize::MAX] {
        for reverse in [false, true] {
            for want_values in [false, true] {
                let request = || ScanRequest {
                    table: Table::Records,
                    range: KeyRange::all(),
                    reverse,
                    limit,
                    want_values,
                };
                let mut walk = rows.clone();
                if reverse {
                    walk.reverse();
                }
                let read = walk
                    .into_iter()
                    .take(rows_to_read(&request()))
                    .map(|(k, v)| (k, if want_values { Some(v) } else { None }))
                    .collect();
                let page = gathered(&request(), read);
                let expected = memory.scan(request()).unwrap();
                assert_eq!(page.items, expected.items, "limit {limit}");
                assert_eq!(page.resume, expected.resume, "limit {limit}");
            }
        }
    }
}
