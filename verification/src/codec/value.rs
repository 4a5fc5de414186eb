//! Serialisation of values.
//!
//! `postcard` for the wire format: compact and stable. It is deliberately
//! **not** self-describing, which is why a locker records a schema tag —
//! without one, opening a locker as the wrong type decodes garbage into a
//! perfectly valid-looking value rather than failing.

use vstd::prelude::*;
use vstd::utf8::*;

use super::api::FilterChain;
use crate::bytes::{copy, starts_with};
use crate::error::{Error, Result};
use crate::text::two;

verus! {

/// A number in groups of seven bits, least significant first, each but the
/// last marked by its high bit.
pub open spec fn varint(n: nat) -> Seq<u8>
    decreases n,
{
    if n < 128 {
        seq![n as u8]
    } else {
        seq![(n % 128 + 128) as u8] + varint(n / 128)
    }
}

/// The postcard form of a byte vector: its length, then its bytes.
pub open spec fn packed(value: Seq<u8>) -> Seq<u8> {
    varint(value.len()) + value
}

/// How many bytes the number at the front of `s` takes.
pub open spec fn head_len(s: Seq<u8>) -> Option<nat>
    decreases s.len(),
{
    if s.len() == 0 {
        None
    } else if s[0] < 128 {
        Some(1)
    } else {
        match head_len(s.skip(1)) {
            Some(n) => Some(n + 1),
            None => None,
        }
    }
}

/// The number at the front of `s`.
pub open spec fn head_value(s: Seq<u8>) -> nat
    decreases s.len(),
{
    if s.len() == 0 {
        0
    } else if s[0] < 128 {
        s[0] as nat
    } else {
        (s[0] - 128) as nat + 128 * head_value(s.skip(1))
    }
}

/// The bytes that a length at the front of `s` delimits.
pub open spec fn delimited(s: Seq<u8>) -> Option<Seq<u8>> {
    match head_len(s) {
        Some(k) => if k + head_value(s) <= s.len() {
            Some(s.subrange(k as int, (k + head_value(s)) as int))
        } else {
            None
        },
        None => None,
    }
}

/// A number in front of anything reads back, and takes as many bytes as it was
/// written with.
proof fn a_number_reads_back(n: nat, rest: Seq<u8>)
    ensures
        head_len(varint(n) + rest) == Some(varint(n).len()),
        head_value(varint(n) + rest) == n,
    decreases n,
{
    let s = varint(n) + rest;
    if n < 128 {
        assert(s[0] == n as u8);
    } else {
        a_number_reads_back(n / 128, rest);
        assert(s[0] == (n % 128 + 128) as u8);
        assert(s.skip(1) =~= varint(n / 128) + rest);
        assert(n == n % 128 + 128 * (n / 128)) by (nonlinear_arith);
    }
}

/// The most bytes a length at the front of a payload takes.
pub const MAX_HEAD: usize = 10;

/// A number takes a byte at least, and no more than there are.
pub proof fn a_head_is_within(s: Seq<u8>)
    ensures
        head_len(s) matches Some(k) ==> 0 < k <= s.len(),
    decreases s.len(),
{
    if s.len() > 0 && s[0] >= 128 {
        a_head_is_within(s.skip(1));
    }
}

/// What follows a number does not change it.
pub proof fn a_head_needs_no_more(s: Seq<u8>, rest: Seq<u8>)
    requires
        head_len(s) is Some,
    ensures
        head_len(s + rest) == head_len(s),
        head_value(s + rest) == head_value(s),
    decreases s.len(),
{
    if s[0] >= 128 {
        a_head_needs_no_more(s.skip(1), rest);
        assert((s + rest).skip(1) =~= s.skip(1) + rest);
    }
}

/// A number is all there as soon as its own bytes are.
pub proof fn a_head_is_soon_there(s: Seq<u8>, n: int)
    requires
        n <= s.len(),
        head_len(s) matches Some(k) && k <= n,
    ensures
        head_len(s.take(n)) == head_len(s),
        head_value(s.take(n)) == head_value(s),
    decreases s.len(),
{
    a_head_is_within(s);
    if s[0] >= 128 {
        a_head_is_soon_there(s.skip(1), n - 1);
        assert(s.take(n).skip(1) =~= s.skip(1).take(n - 1));
    }
}

/// A length that fits a machine number takes no more bytes than allowed for.
pub proof fn a_length_is_short(n: nat)
    requires
        n <= u64::MAX,
    ensures
        varint(n).len() <= MAX_HEAD,
{
    reveal_with_fuel(varint, 10);
}

/// What starts with a packed vector delimits that vector.
pub proof fn a_packed_front_is_delimited(s: Seq<u8>, value: Seq<u8>)
    requires
        starts_with(s, packed(value)),
    ensures
        head_len(s) == Some(varint(value.len()).len()),
        head_value(s) == value.len(),
        delimited(s) == Some(value),
{
    let whole = packed(value);
    let rest = s.skip(whole.len() as int);
    let k = varint(value.len()).len() as int;
    assert(s =~= whole + rest);
    assert(s =~= varint(value.len()) + (value + rest));
    a_number_reads_back(value.len(), value + rest);
    assert(s.subrange(k, k + value.len()) =~= value);
}

/// The number at a place, and how many bytes it takes, where that is not more
/// than a machine number holds.
pub fn read_head(s: &[u8], at: usize, most: usize) -> (r: Option<(usize, u64)>)
    requires
        at <= s@.len(),
    ensures
        r matches Some((k, n)) ==> k <= most && head_len(s@.skip(at as int)) == Some(k as nat) && head_value(
            s@.skip(at as int),
        ) == n,
        r is None ==> (head_len(s@.skip(at as int)) matches Some(k) ==> k > most || head_value(s@.skip(at as int))
            > u64::MAX),
    decreases most,
{
    let ghost here = s@.skip(at as int);
    proof {
        a_head_is_within(here);
    }
    if most == 0 || at >= s.len() {
        return None;
    }
    let b: u8 = s[at];
    assert(here[0] == b);
    if b < 128 {
        return Some((1, b as u64));
    }
    assert(here.skip(1) =~= s@.skip(at + 1));
    match read_head(s, at + 1, most - 1) {
        None => None,
        Some((k, n)) => {
            if n >= 0x0200_0000_0000_0000 {
                None
            } else {
                Some((k + 1, (b - 128) as u64 + 128 * n))
            }
        },
    }
}

/// The payload of a byte vector delimits exactly that vector, so two vectors
/// with one payload are equal.
pub proof fn a_payload_reads_back(value: Seq<u8>)
    ensures
        delimited(packed(value)) == Some(value),
{
    a_number_reads_back(value.len(), value);
    let s = packed(value);
    let k = varint(value.len()).len() as int;
    assert(s.subrange(k, k + value.len()) =~= value);
}

/// `postcard::to_allocvec` of a byte vector: the length as a varint, then the
/// bytes. A growing vector is never full, so it does not fail.
#[verifier::external_body]
fn to_postcard(value: &Vec<u8>) -> (r: core::result::Result<Vec<u8>, String>)
    ensures
        r is Ok,
        r->Ok_0@ == packed(value@),
{
    postcard::to_allocvec(value).map_err(|e| e.to_string())
}

/// `postcard::from_bytes` into a byte vector reads back what
/// `postcard::to_allocvec` wrote and ignores what follows it. What it reads is
/// always what the length at the front delimits; whether it accepts a length
/// spelled with more bytes than needed is not said, for that differs with the
/// machine's word. An error is handed back as its text.
#[verifier::external_body]
fn from_postcard(payload: &[u8]) -> (r: core::result::Result<Vec<u8>, String>)
    ensures
        r is Ok ==> delimited(payload@) == Some(r->Ok_0@),
        forall|value: Seq<u8>| #[trigger]
            starts_with(payload@, packed(value)) ==> r is Ok && r->Ok_0@ == value,
{
    postcard::from_bytes(payload).map_err(|e| e.to_string())
}

/// Serialise a byte vector.
pub fn pack(value: &Vec<u8>) -> (r: Result<Vec<u8>>)
    ensures
        r matches Ok(out) && out@ == packed(value@),
{
    match to_postcard(value) {
        Ok(payload) => Ok(payload),
        Err(text) => Err(Error::Filter(two("postcard serialisation failed: ", text.as_str()))),
    }
}

/// Read a byte vector back from its payload.
pub fn unpack(payload: &[u8]) -> (r: Result<Vec<u8>>)
    ensures
        r matches Ok(out) ==> delimited(payload@) == Some(out@),
        forall|value: Seq<u8>| #[trigger]
            starts_with(payload@, packed(value)) ==> (r matches Ok(out) && out@ == value),
        r matches Err(e) ==> e is Corrupt,
{
    match from_postcard(payload) {
        Ok(value) => Ok(value),
        Err(text) => Err(Error::Corrupt(two("postcard deserialisation failed: ", text.as_str()))),
    }
}

/// Something a locker can hold.
///
/// Implement this for a type to keep it in a locker. Two values are the same
/// to a locker when their payloads are.
///
/// The spec functions are what an implementation is held to where it is
/// verified; one that is not need not name them.
pub trait Value: Sized {
    /// The identity of the type, as text.
    open spec fn label() -> Seq<char> {
        arbitrary()
    }

    /// The serialised form.
    open spec fn payload(&self) -> Seq<u8> {
        arbitrary()
    }

    /// Whether the value can be serialised.
    open spec fn packs(&self) -> bool {
        arbitrary()
    }

    /// The payload of the value that reading a payload gives, where it gives
    /// one.
    open spec fn reading(payload: Seq<u8>) -> Option<Seq<u8>> {
        arbitrary()
    }

    /// A stable identity for the type, recorded per locker so a later open
    /// under a different type is refused rather than mis-decoded.
    fn tag() -> (tag: String)
        ensures
            tag@ == Self::label(),
    ;

    /// Serialise.
    fn to_payload(&self) -> (r: Result<Vec<u8>>)
        ensures
            r is Ok <==> self.packs(),
            r matches Ok(p) ==> p@ == self.payload(),
    ;

    /// Read a value back. Whatever a value serialises to reads back as that
    /// value.
    fn from_payload(payload: &[u8]) -> (r: Result<Self>)
        ensures
            r matches Ok(v) ==> Self::reading(payload@) == Some(v.payload()),
            forall|v: Self|
                v.packs() && #[trigger] v.payload() == payload@ ==> r is Ok && r->Ok_0.payload() == payload@,
            r matches Err(e) ==> e.spec_is_corruption(),
    ;
}

/// What starts with itself.
proof fn whole(s: Seq<u8>)
    ensures
        starts_with(s, s),
{
    assert(s.take(s.len() as int) =~= s);
}

impl Value for Vec<u8> {
    open spec fn label() -> Seq<char> {
        "alloc::vec::Vec<u8>"@
    }

    open spec fn payload(&self) -> Seq<u8> {
        packed(self@)
    }

    open spec fn packs(&self) -> bool {
        true
    }

    open spec fn reading(payload: Seq<u8>) -> Option<Seq<u8>> {
        match delimited(payload) {
            Some(bytes) => Some(packed(bytes)),
            None => None,
        }
    }

    fn tag() -> (tag: String) {
        String::from_str("alloc::vec::Vec<u8>")
    }

    fn to_payload(&self) -> (r: Result<Vec<u8>>) {
        pack(self)
    }

    fn from_payload(payload: &[u8]) -> (r: Result<Self>) {
        proof {
            whole(payload@);
        }
        unpack(payload)
    }
}

impl Value for String {
    open spec fn label() -> Seq<char> {
        "alloc::string::String"@
    }

    open spec fn payload(&self) -> Seq<u8> {
        packed(encode_utf8(self@))
    }

    open spec fn packs(&self) -> bool {
        true
    }

    open spec fn reading(payload: Seq<u8>) -> Option<Seq<u8>> {
        match delimited(payload) {
            Some(bytes) => if valid_utf8(bytes) {
                Some(packed(bytes))
            } else {
                None
            },
            None => None,
        }
    }

    fn tag() -> (tag: String) {
        String::from_str("alloc::string::String")
    }

    fn to_payload(&self) -> (r: Result<Vec<u8>>) {
        pack(&copy(self.as_str().as_bytes()))
    }

    fn from_payload(payload: &[u8]) -> (r: Result<Self>) {
        proof {
            whole(payload@);
            assert forall|v: String| #[trigger] v.payload() == payload@ implies valid_utf8(encode_utf8(v@)) by {
                encode_utf8_valid_utf8(v@);
            }
        }
        match unpack(payload) {
            Ok(bytes) => match crate::utf8::text_of(bytes.as_slice()) {
                Some(text) => Ok(text),
                None => Err(Error::corrupt("postcard deserialisation failed: text is not UTF-8")),
            },
            Err(e) => Err(e),
        }
    }
}

/// Serialise `value` and wrap it for storage.
pub fn encode<T: Value>(value: &T, chain: &FilterChain) -> (r: Result<Vec<u8>>)
    ensures
        value.packs() && chain.takes(value.payload()) ==> r is Ok,
        r is Ok ==> value.packs(),
        value.packs() ==> chain.seal_gives(value.payload(), r),
{
    match value.to_payload() {
        Ok(payload) => chain.seal(payload),
        Err(e) => Err(e),
    }
}

/// Unwrap and deserialise a stored value.
pub fn decode<T: Value>(stored: &[u8], chain: &FilterChain) -> (r: Result<T>)
    ensures
        r matches Ok(v) ==> (chain.opened(stored@) matches Some(p) && T::reading(p) == Some(v.payload())),
        forall|v: T|
            v.packs() && chain.opened(stored@) == Some(#[trigger] v.payload()) ==> r is Ok && r->Ok_0.payload()
                == v.payload(),
        r matches Err(e) ==> if chain.opened(stored@) is Some {
            e.spec_is_corruption()
        } else {
            chain.refuses(stored@, e)
        },
{
    match chain.open(stored) {
        Ok(payload) => T::from_payload(payload.as_slice()),
        Err(e) => Err(e),
    }
}

/// A stable identity for `T`. See [`Value::tag`].
pub fn type_tag<T: Value>() -> (tag: String)
    ensures
        tag@ == T::label(),
{
    T::tag()
}

} // verus!
