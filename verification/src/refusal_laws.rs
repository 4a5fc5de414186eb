//! What a refusal says: a name, a type, a chain, a layout or a record that cannot
//! be had is refused in a way that tells which it was.

use vstd::prelude::*;
use vstd::utf8::encode_utf8;

use crate::backend::api::{Backend, Store, Table};
use crate::backend::gather::occurs;
use crate::bank::{layout_refused, named, next_id_of, number_at, unready};
use crate::bytes::starts_with;
use crate::codec::value::Value;
use crate::codec::{is_default, FilterChain};
use crate::error::Error;
use crate::locker::batch::{moves, Move};
use crate::locker::chunk::misspelt;
use crate::locker::eager::{self, Locker};
use crate::locker::inner::Shared;
use crate::meta::{format_version_key, locker_key, schema_key};

verus! {

/// A locker that cannot be had is refused for what it is: damage where its id or
/// the counter cannot be read, a failure of the store where the ids ran out, and a
/// mismatch where it is bound to another type or another chain, which names both.
pub proof fn a_locker_is_refused_for_what_it_is(
    store: Store,
    known: Map<Seq<u8>, u32>,
    name: Seq<u8>,
    tag: Seq<char>,
    chain: &FilterChain,
    e: Error,
)
    requires
        unready(store, known, name, tag, chain, e),
        crate::bank::readied(store, known, name, encode_utf8(tag), chain.id_spec()) is None,
    ensures
        !known.contains_key(name) && store.lookup(Table::Meta, locker_key(name)) is Some && number_at(
            store,
            locker_key(name),
        ) is None ==> e is Corrupt,
        !known.contains_key(name) && store.lookup(Table::Meta, locker_key(name)) is None && next_id_of(store) is None
            ==> e is Corrupt,
        !known.contains_key(name) && store.lookup(Table::Meta, locker_key(name)) is None && next_id_of(store) == Some(
            u32::MAX,
        ) ==> e is Backend,
        named(store, known, name) matches Some((id, s)) ==> (s.lookup(Table::Meta, schema_key(id)) matches Some(raw)
            ==> (raw != encode_utf8(tag) && vstd::utf8::valid_utf8(raw) ==> (e matches Error::SchemaMismatch {
            stored,
            requested,
        } && encode_utf8(stored@) == raw && requested@ == tag))),
{
}

/// A store of another layout is refused as of another version, and one whose
/// version cannot be read as damaged.
pub proof fn a_layout_is_refused_for_what_it_is(store: Store, e: Error, version: u32)
    requires
        layout_refused(store, e),
    ensures
        number_at(store, format_version_key()) == Some(version) ==> e is UnsupportedVersion,
        number_at(store, format_version_key()) == Some(version) && version < 255 ==> e == (Error::UnsupportedVersion {
            found: version as u8,
            supported: 1,
        }),
        number_at(store, format_version_key()) is None ==> e is Corrupt,
{
}

/// A record that begins like a pointer and is none that may be followed is refused
/// as of another version where that is what it says, and as damaged otherwise.
pub proof fn a_pointer_is_refused_for_what_it_is(raw: Seq<u8>, e: Error)
    requires
        misspelt(raw, e),
    ensures
        e is Corrupt || e is UnsupportedVersion,
        raw.len() != 26 ==> e is Corrupt,
        raw.len() == 26 && starts_with(raw, crate::locker::chunk::pointer_magic()) && raw[4] != 1 ==> e == (
        Error::UnsupportedVersion { found: raw[4], supported: 1 }),
{
}

/// An eager transaction is refused on a store that answers only where one of its
/// values is too large once sealed.
pub proof fn an_eager_transaction_is_refused_where_a_value_is_too_large<B: Backend, T: Value>(
    before: Locker<T>,
    shared: Shared<B>,
    list: Seq<Move>,
    e: Error,
    after: Locker<T>,
    now: Shared<B>,
)
    requires
        eager::commit_through(before, shared, list, Err::<(), Error>(e), after, now),
        before.wf(),
        !before.res.inner.closed,
        list.len() > 0,
        shared.backend.answers(),
        is_default(*before.res.inner.chain),
    ensures
        e matches Error::ValueTooLarge { bytes, max_inline } && max_inline == before.res.inner.config.max_inline && bytes
            > max_inline,
{
    let all = moves(before.res.staged@) + list;
    assert(crate::locker::transaction::all_taken(before.res.inner, all)) by {
        assert forall|key: Seq<u8>| #[trigger] crate::locker::batch::latest(all).contains_key(key) implies (
        crate::locker::batch::latest(all)[key] matches Some(payload) ==> before.res.inner.chain.takes(payload)) by {
            if let Some(payload) = crate::locker::batch::latest(all)[key] {
                assert(before.res.inner.chain.takes(payload));
            }
        }
    }
}

/// A text occurs in another where the other is something, the text, and something
/// more.
pub proof fn a_text_occurs_where_it_stands(needle: Seq<u8>, hay: Seq<u8>)
    ensures
        occurs(needle, hay) <==> exists|i: int|
            0 <= i <= hay.len() - needle.len() && #[trigger] hay.subrange(i, i + needle.len()) == needle,
{
    if occurs(needle, hay) {
        let i = choose|i: int| 0 <= i <= hay.len() && starts_with(#[trigger] hay.skip(i), needle);
        assert(hay.subrange(i, i + needle.len()) =~= hay.skip(i).take(needle.len() as int));
    }
    if exists|i: int| 0 <= i <= hay.len() - needle.len() && #[trigger] hay.subrange(i, i + needle.len()) == needle {
        let i = choose|i: int|
            0 <= i <= hay.len() - needle.len() && #[trigger] hay.subrange(i, i + needle.len()) == needle;
        assert(hay.skip(i).take(needle.len() as int) =~= hay.subrange(i, i + needle.len()));
        assert(starts_with(hay.skip(i), needle));
    }
}

/// What was durable stays so where commits are durable when they return, and what
/// is silent posts nothing.
pub proof fn what_was_durable_stays_durable<B: Backend>(
    shared: Shared<B>,
    now: Shared<B>,
    before: crate::locker::inner::Inner,
    after: crate::locker::inner::Inner,
)
    ensures
        now.stays_forced(shared, crate::backend::api::Durability::Immediate) && shared.backend.forced()
            ==> now.backend.forced(),
        now.silent(shared, before, after) ==> now.coherence.waiting() == shared.coherence.waiting()
            && now.coherence.epoch_spec() == shared.coherence.epoch_spec(),
{
}

} // verus!
