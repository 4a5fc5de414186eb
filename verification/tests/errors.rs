//! What errors say, and which of them speak of damaged bytes.

use crossbank::Error;

#[test]
fn every_error_has_its_text() {
    let cases: Vec<(Error, &str)> = vec![
        (
            Error::backend("disk on fire"),
            "storage backend failed: disk on fire",
        ),
        (
            Error::QuotaExceeded {
                needed: 10,
                available: Some(3),
            },
            "quota exceeded: needed 10 bytes, 3 available",
        ),
        (
            Error::QuotaExceeded {
                needed: 10,
                available: None,
            },
            "quota exceeded: needed 10 bytes",
        ),
        (
            Error::ValueTooLarge {
                bytes: 100,
                max_inline: 64,
            },
            "value of 100 bytes exceeds the 64 byte inline limit for an eager locker; use a lazy locker instead",
        ),
        (
            Error::LockerTooLarge {
                bytes: 2048,
                budget: 1024,
            },
            "eager locker holds 2048 bytes, over its 1024 byte budget; use a lazy locker instead",
        ),
        (
            Error::InvalidConfig("no".into()),
            "invalid configuration: no",
        ),
        (Error::corrupt("bits"), "stored data is corrupt: bits"),
        (
            Error::UnsupportedVersion {
                found: 9,
                supported: 1,
            },
            "envelope version 9 is not readable by this build (supports 1)",
        ),
        (Error::Filter("lz4".into()), "codec or cipher failed: lz4"),
        (Error::Closed, "the bank has been closed"),
    ];
    for (error, text) in cases {
        assert_eq!(error.message(), text);
    }
}

/// Quoted text is escaped, not merely put between quotes.
#[test]
fn a_mismatch_quotes_both_sides() {
    let error = Error::SchemaMismatch {
        stored: "a\"b\n".into(),
        requested: "plain".into(),
    };
    assert_eq!(
        error.message(),
        "schema mismatch: stored as \"a\\\"b\\n\", opened as \"plain\""
    );
}

#[test]
fn damage_is_told_from_failure() {
    assert!(Error::corrupt("x").is_corruption());
    assert!(Error::Filter("x".into()).is_corruption());
    assert!(Error::UnsupportedVersion {
        found: 2,
        supported: 1
    }
    .is_corruption());
    assert!(Error::SchemaMismatch {
        stored: "a".into(),
        requested: "b".into()
    }
    .is_corruption());
    assert!(!Error::backend("x").is_corruption());
    assert!(!Error::Closed.is_corruption());
    assert!(!Error::InvalidConfig("x".into()).is_corruption());
}
