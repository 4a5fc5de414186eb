//! crossbank's error type.
//!
//! An error carries text and numbers only, so it crosses threads wherever the
//! caller's own errors do.

use vstd::prelude::*;

use crate::text::{around, around_two, decimal, quoted, quoted_text, two};

verus! {

/// The result type used throughout the public API.
pub type Result<T> = core::result::Result<T, Error>;

/// Why an operation was refused or failed.
#[derive(Debug, Clone, PartialEq, Eq)]
#[non_exhaustive]
#[allow(inconsistent_fields)]
pub enum Error {
    /// The underlying store failed for a reason that is not modelled here.
    Backend(String),
    /// The store is full. `available` is the backend's own estimate and may be
    /// absent where the platform does not report one.
    QuotaExceeded { needed: u64, available: Option<u64> },
    /// A value was handed to an eager locker that is too large to hold
    /// resident. Oversized values belong in a lazy locker.
    ValueTooLarge { bytes: usize, max_inline: usize },
    /// An eager locker's contents exceed its resident budget, discovered while
    /// opening it.
    LockerTooLarge { bytes: u64, budget: u64 },
    /// The stored data was written under a different type or filter chain than
    /// the one being opened.
    SchemaMismatch { stored: String, requested: String },
    /// The request contradicts how the bank or the locker is set up.
    InvalidConfig(String),
    /// A stored value failed its checksum or could not be decoded.
    Corrupt(String),
    /// The stored bytes carry a format version this build cannot read.
    UnsupportedVersion { found: u8, supported: u8 },
    /// A codec or cipher failed.
    Filter(String),
    /// The bank or locker this handle belongs to has shut down.
    Closed,
}

/// The text of an error, for people.
pub open spec fn message_of(e: Error) -> Seq<char> {
    match e {
        Error::Backend(msg) => "storage backend failed: "@ + msg@,
        Error::QuotaExceeded { needed, available } => match available {
            Some(a) => "quota exceeded: needed "@ + decimal(needed as nat) + " bytes, "@ + decimal(a as nat)
                + " available"@,
            None => "quota exceeded: needed "@ + decimal(needed as nat) + " bytes"@,
        },
        Error::ValueTooLarge { bytes, max_inline } => "value of "@ + decimal(bytes as nat)
            + " bytes exceeds the "@ + decimal(max_inline as nat)
            + " byte inline limit for an eager locker; use a lazy locker instead"@,
        Error::LockerTooLarge { bytes, budget } => "eager locker holds "@ + decimal(bytes as nat)
            + " bytes, over its "@ + decimal(budget as nat) + " byte budget; use a lazy locker instead"@,
        Error::SchemaMismatch { stored, requested } => "schema mismatch: stored as "@ + quoted(stored@)
            + ", opened as "@ + quoted(requested@),
        Error::InvalidConfig(msg) => "invalid configuration: "@ + msg@,
        Error::Corrupt(msg) => "stored data is corrupt: "@ + msg@,
        Error::UnsupportedVersion { found, supported } => "envelope version "@ + decimal(found as nat)
            + " is not readable by this build (supports "@ + decimal(supported as nat) + ")"@,
        Error::Filter(msg) => "codec or cipher failed: "@ + msg@,
        Error::Closed => "the bank has been closed"@,
    }
}

/// `e` is a complaint about stored bytes, with exactly this text.
pub open spec fn corrupt_with(e: Error, text: Seq<char>) -> bool {
    e matches Error::Corrupt(msg) && msg@ == text
}

/// Two errors of one sort that hold the same text and numbers.
pub open spec fn says_the_same(a: Error, b: Error) -> bool {
    match (a, b) {
        (Error::Backend(x), Error::Backend(y)) => x@ == y@,
        (Error::InvalidConfig(x), Error::InvalidConfig(y)) => x@ == y@,
        (Error::Corrupt(x), Error::Corrupt(y)) => x@ == y@,
        (Error::Filter(x), Error::Filter(y)) => x@ == y@,
        (
            Error::SchemaMismatch { stored: s, requested: r },
            Error::SchemaMismatch { stored: t, requested: q },
        ) => s@ == t@ && r@ == q@,
        _ => a == b,
    }
}

/// `e` is a failure of the store, with exactly this text.
pub open spec fn backend_with(e: Error, text: Seq<char>) -> bool {
    e matches Error::Backend(msg) && msg@ == text
}

/// `e` says that a counter has no number left to hand out: of values, of
/// moments, or of the chunks of one value.
pub open spec fn spent(e: Error) -> bool {
    ||| backend_with(e, "value id space is exhausted"@)
    ||| backend_with(e, "tick space is exhausted"@)
    ||| backend_with(e, "chunk sequence space is exhausted"@)
}

/// `e` is a refused configuration, with exactly this text.
pub open spec fn invalid_with(e: Error, text: Seq<char>) -> bool {
    e matches Error::InvalidConfig(msg) && msg@ == text
}

impl Error {
    /// Convenience for backends reporting an opaque platform failure.
    pub fn backend(msg: &str) -> (e: Self)
        ensures
            backend_with(e, msg@),
    {
        Error::Backend(String::from_str(msg))
    }

    /// A complaint about stored bytes.
    pub fn corrupt(msg: &str) -> (e: Self)
        ensures
            corrupt_with(e, msg@),
    {
        Error::Corrupt(String::from_str(msg))
    }

    /// Whether stored bytes were read but could not be decoded, as opposed to
    /// not being read at all.
    pub open spec fn spec_is_corruption(self) -> bool {
        self is Corrupt || self is UnsupportedVersion || self is SchemaMismatch || self is Filter
    }

    /// Whether stored bytes were read but could not be decoded, as opposed to
    /// not being read at all.
    pub fn is_corruption(&self) -> (b: bool)
        ensures
            b == self.spec_is_corruption(),
    {
        match self {
            Error::Corrupt(_) => true,
            Error::UnsupportedVersion { .. } => true,
            Error::SchemaMismatch { .. } => true,
            Error::Filter(_) => true,
            _ => false,
        }
    }

    /// The text of this error, for people.
    pub fn message(&self) -> (text: String)
        ensures
            text@ == message_of(*self),
    {
        match self {
            Error::Backend(msg) => two("storage backend failed: ", msg.as_str()),
            Error::QuotaExceeded { needed, available } => match available {
                Some(a) => around_two("quota exceeded: needed ", *needed, " bytes, ", *a, " available"),
                None => around("quota exceeded: needed ", *needed, " bytes"),
            },
            Error::ValueTooLarge { bytes, max_inline } => around_two(
                "value of ",
                *bytes as u64,
                " bytes exceeds the ",
                *max_inline as u64,
                " byte inline limit for an eager locker; use a lazy locker instead",
            ),
            Error::LockerTooLarge { bytes, budget } => around_two(
                "eager locker holds ",
                *bytes,
                " bytes, over its ",
                *budget,
                " byte budget; use a lazy locker instead",
            ),
            Error::SchemaMismatch { stored, requested } => two(
                "schema mismatch: stored as ",
                quoted_text(stored.as_str()).as_str(),
            ).concat(", opened as ").concat(quoted_text(requested.as_str()).as_str()),
            Error::InvalidConfig(msg) => two("invalid configuration: ", msg.as_str()),
            Error::Corrupt(msg) => two("stored data is corrupt: ", msg.as_str()),
            Error::UnsupportedVersion { found, supported } => around_two(
                "envelope version ",
                *found as u64,
                " is not readable by this build (supports ",
                *supported as u64,
                ")",
            ),
            Error::Filter(msg) => two("codec or cipher failed: ", msg.as_str()),
            Error::Closed => String::from_str("the bank has been closed"),
        }
    }
}

} // verus!
