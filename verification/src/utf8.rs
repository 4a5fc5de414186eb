//! Reading byte strings as text.

use vstd::prelude::*;
use vstd::string::*;
use vstd::utf8::*;

verus! {

/// Why bytes are not text: `core::str::Utf8Error`, opaque here.
#[verifier::external_type_specification]
#[verifier::external_body]
pub struct ExUtf8Error(core::str::Utf8Error);

/// `core::str::from_utf8` succeeds on exactly the well-formed UTF-8, and hands
/// back text whose bytes are the ones it was given.
pub assume_specification<'a>[ core::str::from_utf8 ](v: &'a [u8]) -> (r: core::result::Result<
    &'a str,
    core::str::Utf8Error,
>)
    ensures
        r is Ok <==> valid_utf8(v@),
        r matches Ok(s) ==> s.spec_bytes() == v@,
;

/// The `Display` text of a `core::str::Utf8Error`. Nothing is said of it: it
/// is for people.
#[verifier::external_body]
pub(crate) fn complaint(e: &core::str::Utf8Error) -> (text: String) {
    format!("{e}")
}

/// The text that bytes spell, where they spell any.
pub fn text_of(v: &[u8]) -> (r: Option<String>)
    ensures
        r is Some <==> valid_utf8(v@),
        r matches Some(s) ==> encode_utf8(s@) == v@,
{
    match core::str::from_utf8(v) {
        Ok(s) => Some(s.to_owned()),
        Err(_) => None,
    }
}

} // verus!
