//! How the keys of the `meta` table are spelled.

use vstd::prelude::*;
use vstd::string::*;

use crate::bytes::{be32, copy, extend, joined, u32_to_be};
use crate::key::LockerId;

verus! {

/// The key of the bank's layout version.
pub open spec fn format_version_key() -> Seq<u8> {
    "format_version".spec_bytes()
}

/// The key of the next locker id to hand out.
pub open spec fn next_locker_id_key() -> Seq<u8> {
    "next_locker_id".spec_bytes()
}

/// The key of the next chunk value id to hand out.
pub open spec fn next_value_id_key() -> Seq<u8> {
    "next_value_id".spec_bytes()
}

/// The key of the next tick to hand out.
pub open spec fn next_tick_key() -> Seq<u8> {
    "next_tick".spec_bytes()
}

/// What every registration key begins with.
pub open spec fn locker_prefix() -> Seq<u8> {
    "locker::".spec_bytes()
}

/// The registration key of a locker name.
pub open spec fn locker_key(name: Seq<u8>) -> Seq<u8> {
    locker_prefix() + name
}

/// The key of a locker's schema tag.
pub open spec fn schema_key(id: LockerId) -> Seq<u8> {
    "schema::".spec_bytes() + be32(id)
}

/// The key of a locker's filter chain id.
pub open spec fn chain_key(id: LockerId) -> Seq<u8> {
    "chain::".spec_bytes() + be32(id)
}

/// What every accounting key of a locker begins with.
pub open spec fn lru_prefix(id: LockerId) -> Seq<u8> {
    "lru::".spec_bytes() + be32(id) + "::".spec_bytes()
}

/// The accounting key of a user key.
pub open spec fn lru_key(id: LockerId, key: Seq<u8>) -> Seq<u8> {
    lru_prefix(id) + key
}

/// The bytes of a fixed name.
pub fn name_bytes(name: &str) -> (v: Vec<u8>)
    ensures
        v@ == name.spec_bytes(),
{
    copy(name.as_bytes())
}

/// [`locker_key`] as an executable function.
pub fn locker_key_of(name: &str) -> (v: Vec<u8>)
    ensures
        v@ == locker_key(name.spec_bytes()),
{
    joined("locker::".as_bytes(), name.as_bytes())
}

/// [`schema_key`] as an executable function.
pub fn schema_key_of(id: LockerId) -> (v: Vec<u8>)
    ensures
        v@ == schema_key(id),
{
    joined("schema::".as_bytes(), u32_to_be(id).as_slice())
}

/// [`chain_key`] as an executable function.
pub fn chain_key_of(id: LockerId) -> (v: Vec<u8>)
    ensures
        v@ == chain_key(id),
{
    joined("chain::".as_bytes(), u32_to_be(id).as_slice())
}

/// [`lru_prefix`] as an executable function.
pub fn lru_prefix_of(id: LockerId) -> (v: Vec<u8>)
    ensures
        v@ == lru_prefix(id),
{
    let mut v = joined("lru::".as_bytes(), u32_to_be(id).as_slice());
    extend(&mut v, "::".as_bytes());
    v
}

/// [`lru_key`] as an executable function.
pub fn lru_key_of(id: LockerId, key: &[u8]) -> (v: Vec<u8>)
    ensures
        v@ == lru_key(id, key@),
{
    let mut v = lru_prefix_of(id);
    extend(&mut v, key);
    v
}

} // verus!
