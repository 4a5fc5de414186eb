//! Ranges, table names, errors and the crate's name.

use std::ops::Bound;

use crossbank::backend::{KeyRange, Table};
use crossbank::{Error, Result, NAME};


#[test]
fn prefix_range_covers_exactly_the_prefixed_keys() {
    let r = KeyRange::prefix(b"ab");
    assert!(r.contains(b"ab"));
    assert!(r.contains(b"abz"));
    assert!(r.contains(b"ab\xFF\xFF"));
    assert!(!r.contains(b"aa"));
    assert!(!r.contains(b"ac"));
    assert!(!r.contains(b"b"));
}

#[test]
fn prefix_of_all_ff_bytes_has_no_upper_bound() {
    // 0xFF has no successor byte, so the range must stay open above rather
    // than wrapping to something that excludes real keys.
    let r = KeyRange::prefix(&[0xFF, 0xFF]);
    assert_eq!(r.end, Bound::Unbounded);
    assert!(r.contains(&[0xFF, 0xFF, 0x00]));
    assert!(!r.contains(&[0xFE]));
}

#[test]
fn empty_prefix_is_everything() {
    let r = KeyRange::prefix(b"");
    assert_eq!(r.end, Bound::Unbounded);
    assert!(r.contains(b""));
    assert!(r.contains(b"anything"));
}

#[test]
fn table_names_are_stable() {
    // These strings are on-disk identifiers. Changing one is a format break,
    // so pin them.
    assert_eq!(Table::Meta.name(), "meta");
    assert_eq!(Table::Records.name(), "records");
    assert_eq!(Table::Chunks.name(), "chunks");
    assert_eq!(Table::all().len(), 3);
}


#[test]
fn crate_name_is_stable() {
    assert_eq!(NAME, "crossbank");
}


/// The constraint this module exists to enforce. If a `JsValue` ever ends
/// up inside `Error`, this stops compiling.
#[test]
fn error_is_send_sync_static() {
    fn assert_bounds<T: Send + Sync + 'static>() {}
    assert_bounds::<Error>();
    assert_bounds::<Result<Vec<u8>>>();
}

#[test]
fn quota_message_reads_sensibly_without_an_estimate() {
    let with = Error::QuotaExceeded {
        needed: 10,
        available: Some(4),
    };
    assert_eq!(
        with.message(),
        "quota exceeded: needed 10 bytes, 4 available"
    );

    let without = Error::QuotaExceeded {
        needed: 10,
        available: None,
    };
    assert_eq!(without.message(), "quota exceeded: needed 10 bytes");
}

#[test]
fn value_too_large_names_the_alternative() {
    let e = Error::ValueTooLarge {
        bytes: 41_000_000,
        max_inline: 262_144,
    };
    assert!(
        e.message().contains("lazy locker"),
        "the error must tell the caller what to do instead: {}",
            e.message()
    );
}
