//! Key encoding.
//!
//! Every user key is stored as bytes, never as a platform string, so the order
//! of keys is the same everywhere: bytewise.
//!
//! # Layout
//!
//! ```text
//! [locker_id: u32 big-endian][user key bytes]
//! ```
//!
//! Big-endian so numeric locker order matches byte order. No separator byte:
//! the prefix is fixed width, so locker `n` already owns exactly the range
//! `[n, n+1)`.

use std::ops::Bound;

use vstd::prelude::*;
use vstd::string::*;
use vstd::utf8::*;

use crate::backend::api::{a_prefix_span_holds_what_starts_with_it, KeyRange, Span};
use crate::bytes::{
    append_is_injective, be32, be32_keeps_the_order, before, before_by_head, before_is_asymmetric,
    before_is_total, before_is_transitive, before_under_a_prefix, a_prefix_comes_first, joined, order,
    starts_with, u32_from_be, u32_to_be, Order,
};
use crate::error::{corrupt_with, Error, Result};
use crate::text::{around_two, decimal, two};

verus! {

/// Identifies a locker within a bank. Assigned by the locker registry in
/// `meta` and stable for the life of the data.
pub type LockerId = u32;

/// Width of the locker prefix, in bytes.
pub const PREFIX_LEN: usize = 4;

/// The stored form of a user key.
pub open spec fn stored(locker: LockerId, key: Seq<u8>) -> Seq<u8> {
    be32(locker) + key
}

/// The user key a stored key carries, if it is one of this locker's.
pub open spec fn carried(locker: LockerId, encoded: Seq<u8>) -> Option<Seq<u8>> {
    if starts_with(encoded, be32(locker)) {
        Some(encoded.skip(4))
    } else {
        None
    }
}

/// The byte string a borrowed bound names.
pub open spec fn slice_bound(b: Bound<&[u8]>) -> Bound<Seq<u8>> {
    match b {
        Bound::Unbounded => Bound::Unbounded,
        Bound::Included(k) => Bound::Included(k@),
        Bound::Excluded(k) => Bound::Excluded(k@),
    }
}

/// The range between two bounds on user keys.
pub open spec fn user_span(start: Bound<&[u8]>, end: Bound<&[u8]>) -> Span {
    Span { start: slice_bound(start), end: slice_bound(end) }
}

/// The stored form of a range of user keys: an open edge becomes the locker's
/// own edge.
pub open spec fn stored_span(locker: LockerId, span: Span) -> Span {
    Span {
        start: match span.start {
            Bound::Unbounded => Span::prefix(be32(locker)).start,
            Bound::Included(k) => Bound::Included(stored(locker, k)),
            Bound::Excluded(k) => Bound::Excluded(stored(locker, k)),
        },
        end: match span.end {
            Bound::Unbounded => Span::prefix(be32(locker)).end,
            Bound::Included(k) => Bound::Included(stored(locker, k)),
            Bound::Excluded(k) => Bound::Excluded(stored(locker, k)),
        },
    }
}

/// A stored key carries exactly the user key it was made from.
pub proof fn storing_round_trips(locker: LockerId, key: Seq<u8>)
    ensures
        carried(locker, stored(locker, key)) == Some(key),
{
    assert(stored(locker, key).take(4) =~= be32(locker));
    assert(stored(locker, key).skip(4) =~= key);
}

/// What a locker's stored key carries stores back to the same bytes.
pub proof fn carrying_round_trips(locker: LockerId, encoded: Seq<u8>)
    ensures
        carried(locker, encoded) matches Some(key) ==> stored(locker, key) == encoded,
{
    if starts_with(encoded, be32(locker)) {
        assert(be32(locker) + encoded.skip(4) =~= encoded);
    }
}

/// No two lockers share a stored key.
pub proof fn lockers_are_disjoint(a: LockerId, key_a: Seq<u8>, b: LockerId, key_b: Seq<u8>)
    ensures
        stored(a, key_a) == stored(b, key_b) <==> a == b && key_a == key_b,
        a != b ==> carried(b, stored(a, key_a)) is None,
{
    crate::bytes::be32_round_trips(a);
    crate::bytes::be32_round_trips(b);
    if stored(a, key_a) == stored(b, key_b) {
        append_is_injective(be32(a), key_a, be32(b), key_b);
    }
    assert(stored(a, key_a).take(4) =~= be32(a));
}

/// Stored keys sort by locker number first, and bytewise inside one locker.
pub proof fn storing_keeps_the_order(a: LockerId, key_a: Seq<u8>, b: LockerId, key_b: Seq<u8>)
    ensures
        before(stored(a, key_a), stored(b, key_b)) <==> a < b || a == b && before(key_a, key_b),
{
    if a == b {
        before_under_a_prefix(be32(a), key_a, key_b);
    } else {
        crate::bytes::be32_round_trips(a);
        crate::bytes::be32_round_trips(b);
        before_by_head(be32(a), key_a, be32(b), key_b);
        be32_keeps_the_order(a, b);
    }
}

/// A stored range holds a user key exactly when the user range does.
pub proof fn a_stored_span_holds_the_same_keys(locker: LockerId, span: Span, key: Seq<u8>)
    ensures
        stored_span(locker, span).contains(stored(locker, key)) <==> span.contains(key),
{
    let x = stored(locker, key);
    assert(x.take(4) =~= be32(locker));
    a_prefix_span_holds_what_starts_with_it(be32(locker), x);
    match span.start {
        Bound::Unbounded => {},
        Bound::Included(k) => {
            before_under_a_prefix(be32(locker), key, k);
        },
        Bound::Excluded(k) => {
            before_under_a_prefix(be32(locker), k, key);
        },
    }
    match span.end {
        Bound::Unbounded => {},
        Bound::Included(k) => {
            before_under_a_prefix(be32(locker), k, key);
        },
        Bound::Excluded(k) => {
            before_under_a_prefix(be32(locker), key, k);
        },
    }
}

/// A stored range never leaves its locker, whatever the user's bounds.
pub proof fn a_stored_span_stays_inside(locker: LockerId, span: Span, x: Seq<u8>)
    requires
        stored_span(locker, span).contains(x),
    ensures
        starts_with(x, be32(locker)),
{
    let prefix = be32(locker);
    let home = Span::prefix(prefix);
    assert(!before(x, prefix)) by {
        match span.start {
            Bound::Unbounded => {},
            Bound::Included(k) => {
                let low = stored(locker, k);
                assert(low.take(4) =~= prefix);
                a_prefix_comes_first(prefix, low);
                before_is_total(low, x);
                if before(x, prefix) {
                    before_is_total(low, prefix);
                    if before(prefix, low) {
                        before_is_transitive(x, prefix, low);
                    }
                }
            },
            Bound::Excluded(k) => {
                let low = stored(locker, k);
                assert(low.take(4) =~= prefix);
                a_prefix_comes_first(prefix, low);
                if before(x, prefix) {
                    before_is_transitive(low, x, prefix);
                }
            },
        }
    }
    assert(home.contains(x)) by {
        match span.end {
            Bound::Unbounded => {},
            Bound::Included(k) => {
                let high = stored(locker, k);
                assert(high.take(4) =~= prefix);
                a_prefix_span_holds_what_starts_with_it(prefix, high);
                if let Bound::Excluded(end) = home.end {
                    before_is_total(x, high);
                    if before(x, high) {
                        before_is_transitive(x, high, end);
                    }
                }
            },
            Bound::Excluded(k) => {
                let high = stored(locker, k);
                assert(high.take(4) =~= prefix);
                a_prefix_span_holds_what_starts_with_it(prefix, high);
                if let Bound::Excluded(end) = home.end {
                    before_is_transitive(x, high, end);
                }
            },
        }
    }
    a_prefix_span_holds_what_starts_with_it(prefix, x);
}

/// Encode a binary user key for storage.
///
/// This is the primitive; [`encode`] is the `&str` view of it.
pub fn encode_bytes(locker: LockerId, key: &[u8]) -> (out: Vec<u8>)
    ensures
        out@ == stored(locker, key@),
{
    joined(u32_to_be(locker).as_slice(), key)
}

/// Encode a user key for storage.
pub fn encode(locker: LockerId, key: &str) -> (out: Vec<u8>)
    ensures
        out@ == stored(locker, key.spec_bytes()),
{
    encode_bytes(locker, key.as_bytes())
}

/// Recover the user key from a stored key.
///
/// Fails if the key is too short to carry a prefix, or belongs to a different
/// locker, or is not valid UTF-8.
pub fn decode(locker: LockerId, encoded: &[u8]) -> (r: Result<&str>)
    ensures
        r is Ok <==> (carried(locker, encoded@) matches Some(key) && valid_utf8(key)),
        r matches Ok(text) ==> Some(text.spec_bytes()) == carried(locker, encoded@),
        r matches Err(e) ==> e is Corrupt,
{
    let rest = match decode_bytes(locker, encoded) {
        Ok(rest) => rest,
        Err(e) => return Err(e),
    };
    match core::str::from_utf8(rest) {
        Ok(text) => Ok(text),
        Err(e) => Err(Error::Corrupt(two("stored key is not UTF-8: ", crate::utf8::complaint(&e).as_str()))),
    }
}

/// Recover the raw user key bytes from a stored key.
///
/// Unlike [`decode`] this never fails on a non-UTF-8 key: binary keys are a
/// first-class thing to store, so only a missing or foreign locker prefix is
/// an error here.
pub fn decode_bytes(locker: LockerId, encoded: &[u8]) -> (r: Result<&[u8]>)
    ensures
        match r {
            Ok(rest) => carried(locker, encoded@) == Some(rest@),
            Err(e) => carried(locker, encoded@) is None && corrupt_with(
                e,
                if encoded@.len() < PREFIX_LEN {
                    "stored key is "@ + decimal(encoded@.len()) + " bytes, shorter than the "@ + decimal(
                        PREFIX_LEN as nat,
                    ) + " byte locker prefix"@
                } else {
                    "stored key belongs to locker "@ + decimal(
                        crate::bytes::from_be32(encoded@.take(4)) as nat,
                    ) + ", not "@ + decimal(locker as nat) + ""@
                },
            ),
        },
{
    if encoded.len() < PREFIX_LEN {
        return Err(
            Error::Corrupt(
                around_two(
                    "stored key is ",
                    encoded.len() as u64,
                    " bytes, shorter than the ",
                    PREFIX_LEN as u64,
                    " byte locker prefix",
                ),
            ),
        );
    }
    let prefix = vstd::slice::slice_subrange(encoded, 0, PREFIX_LEN);
    let rest = vstd::slice::slice_subrange(encoded, PREFIX_LEN, encoded.len());
    let found: u32 = u32_from_be(prefix);
    assert(encoded@.subrange(0, 4) =~= encoded@.take(4));
    assert(encoded@.subrange(4, encoded@.len() as int) =~= encoded@.skip(4));
    if found != locker {
        proof {
            crate::bytes::be32_round_trips(found);
            crate::bytes::be32_round_trips(locker);
        }
        return Err(
            Error::Corrupt(
                around_two("stored key belongs to locker ", found as u64, ", not ", locker as u64, ""),
            ),
        );
    }
    Ok(rest)
}

/// The range covering every key in a locker.
pub fn locker_range(locker: LockerId) -> (r: KeyRange)
    ensures
        r@ == Span::prefix(be32(locker)),
        forall|x: Seq<u8>| #[trigger] r@.contains(x) <==> carried(locker, x) is Some,
{
    KeyRange::prefix(u32_to_be(locker).as_slice())
}

/// The range covering every key in a locker beginning with `prefix`.
pub fn prefix_range(locker: LockerId, prefix: &str) -> (r: KeyRange)
    ensures
        r@ == Span::prefix(stored(locker, prefix.spec_bytes())),
        forall|x: Seq<u8>| #[trigger] r@.contains(x) <==> starts_with(x, stored(locker, prefix.spec_bytes())),
{
    prefix_range_bytes(locker, prefix.as_bytes())
}

/// As [`prefix_range`], over a binary prefix.
pub fn prefix_range_bytes(locker: LockerId, prefix: &[u8]) -> (r: KeyRange)
    ensures
        r@ == Span::prefix(stored(locker, prefix@)),
        forall|x: Seq<u8>| #[trigger] r@.contains(x) <==> starts_with(x, stored(locker, prefix@)),
{
    KeyRange::prefix(encode_bytes(locker, prefix).as_slice())
}

/// Translate a user-space bound into stored-key space.
///
/// An unbounded user bound does **not** become an unbounded stored bound — it
/// becomes the locker's own edge, or the scan would wander into a neighbouring
/// locker's keys.
pub fn encode_range(locker: LockerId, start: Bound<&str>, end: Bound<&str>) -> (r: KeyRange)
    ensures
        r@ == stored_span(locker, Span { start: str_bound(start), end: str_bound(end) }),
{
    encode_range_bytes(locker, as_bytes(start), as_bytes(end))
}

/// As [`encode_range`], over binary bounds.
pub fn encode_range_bytes(locker: LockerId, start: Bound<&[u8]>, end: Bound<&[u8]>) -> (r: KeyRange)
    ensures
        r@ == stored_span(locker, user_span(start, end)),
{
    let home = locker_range(locker);
    let start = match start {
        Bound::Unbounded => home.start,
        Bound::Included(k) => Bound::Included(encode_bytes(locker, k)),
        Bound::Excluded(k) => Bound::Excluded(encode_bytes(locker, k)),
    };
    let end = match end {
        Bound::Unbounded => home.end,
        Bound::Included(k) => Bound::Included(encode_bytes(locker, k)),
        Bound::Excluded(k) => Bound::Excluded(encode_bytes(locker, k)),
    };
    KeyRange { start, end }
}

/// The bytes a text bound names.
pub open spec fn str_bound(b: Bound<&str>) -> Bound<Seq<u8>> {
    match b {
        Bound::Unbounded => Bound::Unbounded,
        Bound::Included(k) => Bound::Included(k.spec_bytes()),
        Bound::Excluded(k) => Bound::Excluded(k.spec_bytes()),
    }
}

/// Reinterpret a `&str` bound as a byte bound. Free — a `&str` is its bytes.
pub fn as_bytes(bound: Bound<&str>) -> (r: Bound<&[u8]>)
    ensures
        slice_bound(r) == str_bound(bound),
{
    match bound {
        Bound::Unbounded => Bound::Unbounded,
        Bound::Included(k) => Bound::Included(k.as_bytes()),
        Bound::Excluded(k) => Bound::Excluded(k.as_bytes()),
    }
}

/// The bounds are given the wrong way round, or close on an excluded key.
pub open spec fn degenerate(span: Span) -> bool {
    match (span.start, span.end) {
        (Bound::Included(s), Bound::Included(e)) => before(e, s),
        (Bound::Included(s), Bound::Excluded(e)) => !before(s, e),
        (Bound::Excluded(s), Bound::Included(e)) => !before(s, e),
        (Bound::Excluded(s), Bound::Excluded(e)) => !before(s, e),
        _ => false,
    }
}

/// A degenerate range holds nothing.
pub proof fn a_degenerate_span_is_empty(span: Span, key: Seq<u8>)
    requires
        degenerate(span),
    ensures
        !span.contains(key),
{
    if span.contains(key) {
        let s = match span.start {
            Bound::Included(s) => s,
            Bound::Excluded(s) => s,
            Bound::Unbounded => key,
        };
        let e = match span.end {
            Bound::Included(e) => e,
            Bound::Excluded(e) => e,
            Bound::Unbounded => key,
        };
        before_is_total(s, key);
        before_is_total(key, e);
        before_is_total(s, e);
        if before(s, key) && before(key, e) {
            before_is_transitive(s, key, e);
        }
        if before(e, s) {
            before_is_asymmetric(e, s);
        }
    }
}

/// Whether a range of user keys is degenerate, and so holds nothing.
pub fn is_degenerate(start: Bound<&[u8]>, end: Bound<&[u8]>) -> (b: bool)
    ensures
        b == degenerate(user_span(start, end)),
{
    match (start, end) {
        (Bound::Included(s), Bound::Included(e)) => match order(e, s) {
            Order::Less => true,
            _ => false,
        },
        (Bound::Included(s), Bound::Excluded(e)) => match order(s, e) {
            Order::Less => false,
            _ => true,
        },
        (Bound::Excluded(s), Bound::Included(e)) => match order(s, e) {
            Order::Less => false,
            _ => true,
        },
        (Bound::Excluded(s), Bound::Excluded(e)) => match order(s, e) {
            Order::Less => false,
            _ => true,
        },
        _ => false,
    }
}

/// A range that is not degenerate holds the ends it includes, and where it
/// excludes both, one comes before the other.
pub proof fn a_span_that_is_not_degenerate_holds_its_ends(span: Span)
    requires
        !degenerate(span),
    ensures
        span.start matches Bound::Included(s) ==> span.contains(s),
        span.end matches Bound::Included(e) ==> span.contains(e),
        span.start matches Bound::Excluded(s) ==> (span.end matches Bound::Excluded(e) ==> before(s, e)),
{
    if let Bound::Included(s) = span.start {
        crate::bytes::before_is_irreflexive(s);
    }
    if let Bound::Included(e) = span.end {
        crate::bytes::before_is_irreflexive(e);
    }
}

} // verus!
