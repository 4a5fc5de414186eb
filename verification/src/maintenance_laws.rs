//! What upkeep of a locker promises, told by its records: a survey names exactly
//! those that a read refuses, weighing counts every byte stored for it once,
//! quarantine removes what it is told and its chunks and nothing else, and an
//! erased locker leaves nothing behind.


use vstd::prelude::*;

use crate::backend::api::{
    a_prefix_span_holds_what_starts_with_it, after_all_pushes, keys_within, Backend, Change, Rows, Span, Store, Table,
};
use crate::backend::memory::capped;
use crate::bank::{named, Bank};
use crate::bytes::{be32, be64, before, starts_with};
use crate::codec::value::Value;
use crate::codec::FilterChain;
use crate::error::{Error, Result};
use crate::key::{stored, LockerId};
use crate::locker::chunk::{chunk_at, gc, glued, parsed, points};
use crate::locker::eager::weight_of;
use crate::locker::inner::{clears, first_chunks, gc_all, loaded, locker_rows, record_delete, records_clear, Inner};
use crate::locker::listing_laws::{in_order, rows_are_finite};
use crate::locker::transaction::loads;
use crate::maintenance::{chunk_weight, erasure, full_weight, present, removals, unreadable};
use crate::meta::{locker_key, locker_prefix, schema_key};
use crate::sorted::{a_finite_set_is_listed, listing, views};

verus! {

/// Whether some pieces are what the chunks of a value hold, each in its place.
pub open spec fn chunks_hold(chain: &FilterChain, chunks: Rows, value_id: u64, pieces: Seq<Seq<u8>>) -> bool {
    forall|i: int|
        0 <= i < pieces.len() ==> chunks.contains_key(#[trigger] chunk_at(value_id, i as u32)) && chain.opened(
            chunks[chunk_at(value_id, i as u32)],
        ) == Some(pieces[i])
}

/// The chunks that open, one after the other.
proof fn chunks_in_their_places(chain: &FilterChain, chunks: Rows, value_id: u64, n: int) -> (pieces: Seq<Seq<u8>>)
    requires
        0 <= n <= u32::MAX,
    ensures
        crate::locker::io::front_of(chain, chunks, value_id, n) matches Some(all) ==> pieces.len() == n && chunks_hold(
            chain,
            chunks,
            value_id,
            pieces,
        ) && all == glued(pieces),
    decreases n,
{
    if n <= 0 {
        Seq::empty()
    } else {
        let short = chunks_in_their_places(chain, chunks, value_id, n - 1);
        let at = chunk_at(value_id, (n - 1) as u32);
        if crate::locker::io::front_of(chain, chunks, value_id, n) is Some {
            let piece = chain.opened(chunks[at])->0;
            let all = short.push(piece);
            assert(all.drop_last() =~= short);
            assert forall|i: int| 0 <= i < all.len() implies chunks.contains_key(
                #[trigger] chunk_at(value_id, i as u32),
            ) && chain.opened(chunks[chunk_at(value_id, i as u32)]) == Some(all[i]) by {
                if i < short.len() {
                    assert(short[i] == all[i]);
                }
            }
            all
        } else {
            short
        }
    }
}

/// Pieces in their places are what the chunks add up to.
proof fn pieces_add_up(chain: &FilterChain, chunks: Rows, value_id: u64, pieces: Seq<Seq<u8>>)
    requires
        pieces.len() <= u32::MAX,
        chunks_hold(chain, chunks, value_id, pieces),
    ensures
        crate::locker::io::front_of(chain, chunks, value_id, pieces.len() as int) == Some(glued(pieces)),
    decreases pieces.len(),
{
    if pieces.len() > 0 {
        let short = pieces.drop_last();
        assert forall|i: int| 0 <= i < short.len() implies chunks.contains_key(#[trigger] chunk_at(value_id, i as u32))
            && chain.opened(chunks[chunk_at(value_id, i as u32)]) == Some(short[i]) by {
            assert(short[i] == pieces[i]);
        }
        pieces_add_up(chain, chunks, value_id, short);
        assert(chunks.contains_key(chunk_at(value_id, (pieces.len() - 1) as u32)));
    }
}

/// A record that is no pointer loads where the chain opens it, to what that
/// gives. A pointer loads where it can be followed, every one of its chunks is
/// there and opens, and they add up to the length it declares; and to them, one
/// after the other.
pub proof fn a_record_loads_where_all_of_it_opens(chain: &FilterChain, chunks: Rows, record: Seq<u8>, payload: Seq<u8>)
    ensures
        !points(record) ==> loaded(*chain, chunks, record) == chain.opened(record),
        points(record) && parsed(record) is None ==> loaded(*chain, chunks, record) is None,
        points(record) && parsed(record) is Some ==> (loaded(*chain, chunks, record) == Some(payload) <==> exists|
            pieces: Seq<Seq<u8>>,
        |
            pieces.len() == parsed(record)->0.n_chunks && #[trigger] chunks_hold(
                chain,
                chunks,
                parsed(record)->0.value_id,
                pieces,
            ) && payload == glued(pieces) && payload.len() == parsed(record)->0.total_len),
{
    if points(record) && parsed(record) is Some {
        let p = parsed(record)->0;
        let found = chunks_in_their_places(chain, chunks, p.value_id, p.n_chunks as int);
        assert(crate::locker::io::front_of(chain, chunks, p.value_id, p.n_chunks as int) == first_chunks(
            *chain,
            chunks,
            p.value_id,
            p.n_chunks as int,
        ));
        if exists|pieces: Seq<Seq<u8>>|
            pieces.len() == p.n_chunks && #[trigger] chunks_hold(chain, chunks, p.value_id, pieces) && payload == glued(
                pieces,
            ) && payload.len() == p.total_len {
            let pieces = choose|pieces: Seq<Seq<u8>>|
                pieces.len() == p.n_chunks && #[trigger] chunks_hold(chain, chunks, p.value_id, pieces) && payload
                    == glued(pieces) && payload.len() == p.total_len;
            pieces_add_up(chain, chunks, p.value_id, pieces);
        }
    }
}

/// A chunked value of which a chunk is missing or damaged does not load.
pub proof fn a_lost_chunk_is_noticed(chain: &FilterChain, chunks: Rows, record: Seq<u8>, i: u32)
    requires
        points(record),
        parsed(record) matches Some(p) && i < p.n_chunks && (!chunks.contains_key(chunk_at(p.value_id, i))
            || chain.opened(chunks[chunk_at(p.value_id, i)]) is None),
    ensures
        loaded(*chain, chunks, record) is None,
{
    let p = parsed(record)->0;
    if crate::locker::io::whole_of(chain, chunks, p) is Some {
        let found = chunks_in_their_places(chain, chunks, p.value_id, p.n_chunks as int);
        assert(chunk_at(p.value_id, i) == chunk_at(p.value_id, (i as int) as u32));
    }
}

/// A survey names exactly the keys whose records cannot be read, inline or
/// chunked, in byte order: reading one of them is an error, and any other record
/// of the locker loads.
pub proof fn a_survey_names_what_cannot_be_read<B: Backend, T: Value>(
    bank: Bank<B>,
    name: Seq<u8>,
    bad: Vec<Vec<u8>>,
    after: Bank<B>,
    id: LockerId,
    chain: &FilterChain,
    key: Seq<u8>,
    inner: &Inner,
    r: Result<Option<T>>,
)
    requires
        bank.survey_gives(name, Ok::<Vec<Vec<u8>>, Error>(bad), after),
        bank.knows(name),
        named(bank.store(), bank.registry@, name) matches Some((n, _)) && n == id,
        bank.chain_behind(id, name) matches Some(c) && *c == *chain,
        bank.store().is_finite(),
        inner.id == id,
        *inner.chain == *chain,
        loads::<B, T>(inner, &bank.shared.backend, key, r),
    ensures
        ({
            let rows = locker_rows(bank.store().records, id);
            let chunks = bank.store().chunks;
            &&& rows.contains_key(key) && loaded(*chain, chunks, rows[key]) is None ==> views(bad@).contains(key)
            &&& bank.shared.backend.answers() ==> (views(bad@).contains(key) <==> rows.contains_key(key) && loaded(
                *chain,
                chunks,
                rows[key],
            ) is None)
            &&& bank.shared.backend.answers() ==> in_order(views(bad@), false)
            &&& bank.shared.backend.answers() && views(bad@).contains(key) ==> r is Err
            &&& bad@.len() == 0 && rows.contains_key(key) ==> loaded(*chain, chunks, rows[key]) is Some
        }),
{
    let rows = locker_rows(bank.store().records, id);
    let chunks = bank.store().chunks;
    let broken = unreadable(rows, chunks, chain);
    rows_are_finite(bank.store().records, id);
    vstd::set_lib::lemma_set_subset_finite(rows.dom(), broken);
    a_finite_set_is_listed(broken);
    assert(broken.contains(key) <==> listing(broken).contains(key));
    if bad@.len() == 0 && broken.contains(key) {
        let i = views(bad@).index_of(key);
    }
}

/// What some numbers add up to.
pub open spec fn summed(list: Seq<nat>) -> nat {
    list.fold_left(0nat, |a: nat, b: nat| a + b)
}

/// The bytes of some rows are those of each, added up.
pub(crate) proof fn rows_weigh_what_each_does(rows: Rows, keys: Seq<Seq<u8>>)
    ensures
        weight_of(rows, keys) == summed(keys.map_values(|k: Seq<u8>| rows[k].len())),
    decreases keys.len(),
{
    let f = |k: Seq<u8>| rows[k].len();
    if keys.len() > 0 {
        rows_weigh_what_each_does(rows, keys.drop_last());
        assert(keys.map_values(f).drop_last() =~= keys.drop_last().map_values(f));
        assert(keys.map_values(f).last() == rows[keys.last()].len());
    }
}

/// The bytes of every chunk of a value are those of each row whose key begins
/// with the value's id, added up, each once.
pub proof fn chunks_weigh_what_each_does(chunks: Rows, value_id: u64) -> (keys: Seq<Seq<u8>>)
    requires
        chunks.dom().finite(),
    ensures
        keys.no_duplicates(),
        forall|k: Seq<u8>| #[trigger] keys.contains(k) <==> chunks.contains_key(k) && starts_with(k, be64(value_id)),
        chunk_weight(chunks, value_id) == summed(keys.map_values(|k: Seq<u8>| chunks[k].len())),
{
    let dom = keys_within(chunks, Span::prefix(be64(value_id)));
    vstd::set_lib::lemma_set_subset_finite(chunks.dom(), dom);
    a_finite_set_is_listed(dom);
    let keys = listing(dom);
    crate::sorted::ascending_has_no_duplicates(keys);
    rows_weigh_what_each_does(chunks, keys);
    assert forall|k: Seq<u8>| #[trigger] keys.contains(k) <==> chunks.contains_key(k) && starts_with(
        k,
        be64(value_id),
    ) by {
        a_prefix_span_holds_what_starts_with_it(be64(value_id), k);
        assert(dom.contains(k) <==> keys.contains(k));
    }
    keys
}

/// What a locker weighs is what each of its records weighs, with the chunks it
/// points at where it is a pointer, added up.
proof fn a_locker_weighs_what_each_record_does(rows: Rows, chunks: Rows, keys: Seq<Seq<u8>>)
    ensures
        full_weight(rows, chunks, keys) == summed(
            keys.map_values(
                |k: Seq<u8>|
                    rows[k].len() + if parsed(rows[k]) is Some {
                        chunk_weight(chunks, parsed(rows[k])->0.value_id)
                    } else {
                        0
                    },
            ),
        ),
    decreases keys.len(),
{
    let f = |k: Seq<u8>|
        rows[k].len() + if parsed(rows[k]) is Some {
            chunk_weight(chunks, parsed(rows[k])->0.value_id)
        } else {
            0
        };
    if keys.len() > 0 {
        a_locker_weighs_what_each_record_does(rows, chunks, keys.drop_last());
        assert(keys.map_values(f).drop_last() =~= keys.drop_last().map_values(f));
        assert(keys.map_values(f).last() == f(keys.last()));
    }
}

/// Weighing a locker counts every record it stores once, and every chunk that a
/// record points at; a name that is not registered weighs nothing.
pub proof fn weighing_counts_every_record<B: Backend>(
    bank: Bank<B>,
    name: Seq<u8>,
    n: u64,
    after: Bank<B>,
    id: LockerId,
) -> (keys: Seq<Seq<u8>>)
    requires
        bank.weighing_gives(name, Ok::<u64, Error>(n), after),
        bank.store().is_finite(),
        bank.knows(name) ==> (named(bank.store(), bank.registry@, name) matches Some((known, _)) && known == id),
    ensures
        !bank.knows(name) ==> n == 0,
        bank.knows(name) ==> {
            let rows = locker_rows(bank.store().records, id);
            &&& keys.no_duplicates()
            &&& forall|k: Seq<u8>| #[trigger] keys.contains(k) <==> rows.contains_key(k)
            &&& n == capped(
                summed(
                    keys.map_values(
                        |k: Seq<u8>|
                            rows[k].len() + if parsed(rows[k]) is Some {
                                chunk_weight(bank.store().chunks, parsed(rows[k])->0.value_id)
                            } else {
                                0
                            },
                    ),
                ),
            )
        },
{
    let rows = locker_rows(bank.store().records, id);
    rows_are_finite(bank.store().records, id);
    a_finite_set_is_listed(rows.dom());
    let keys = listing(rows.dom());
    crate::sorted::ascending_has_no_duplicates(keys);
    a_locker_weighs_what_each_record_does(rows, bank.store().chunks, keys);
    assert forall|k: Seq<u8>| #[trigger] keys.contains(k) <==> rows.contains_key(k) by {
        assert(rows.dom().contains(k) <==> keys.contains(k));
    }
    keys
}

/// How many of some keys are there is how many of them a record is under.
pub proof fn what_is_present_is_counted(rows: Rows, keys: Seq<Seq<u8>>)
    ensures
        present(rows, keys) == keys.filter(|k: Seq<u8>| rows.contains_key(k)).len(),
    decreases keys.len(),
{
    reveal(Seq::filter);
    if keys.len() > 0 {
        what_is_present_is_counted(rows, keys.drop_last());
    }
}

/// What removing some records takes reaches only them and their chunks.
proof fn removing_reaches_only_what_it_names(store: Store, id: LockerId, keys: Seq<Seq<u8>>)
    ensures
        ({
            let rows = locker_rows(store.records, id);
            let after = store.after_all(removals(rows, id, keys));
            &&& after.meta == store.meta
            &&& forall|k: Seq<u8>| #[trigger]
                after.records.contains_key(k) <==> store.records.contains_key(k) && !exists|i: int|
                    0 <= i < keys.len() && k == stored(id, #[trigger] keys[i])
            &&& forall|k: Seq<u8>| #[trigger] after.records.contains_key(k) ==> after.records[k] == store.records[k]
            &&& forall|k: Seq<u8>| #[trigger]
                after.chunks.contains_key(k) <==> store.chunks.contains_key(k) && !exists|i: int|
                    0 <= i < keys.len() && rows.contains_key(#[trigger] keys[i]) && parsed(rows[keys[i]]) is Some
                        && starts_with(k, be64(parsed(rows[keys[i]])->0.value_id))
            &&& forall|k: Seq<u8>| #[trigger] after.chunks.contains_key(k) ==> after.chunks[k] == store.chunks[k]
        }),
    decreases keys.len(),
{
    let rows = locker_rows(store.records, id);
    if keys.len() > 0 {
        let short = keys.drop_last();
        let v = keys.last();
        removing_reaches_only_what_it_names(store, id, short);
        let so_far = removals(rows, id, short);
        let mid = store.after_all(so_far);
        let after = store.after_all(removals(rows, id, keys));
        if rows.contains_key(v) {
            let list = match parsed(rows[v]) {
                Some(p) => so_far.push(gc(p)),
                None => so_far,
            };
            after_all_pushes(store, list, record_delete(id, v));
            if let Some(p) = parsed(rows[v]) {
                after_all_pushes(store, so_far, gc(p));
                assert forall|k: Seq<u8>| Span::prefix(be64(p.value_id)).contains(k) <==> starts_with(
                    k,
                    be64(p.value_id),
                ) by {
                    a_prefix_span_holds_what_starts_with_it(be64(p.value_id), k);
                }
            }
        }
        assert forall|k: Seq<u8>| #[trigger]
            after.records.contains_key(k) <==> store.records.contains_key(k) && !exists|i: int|
                0 <= i < keys.len() && k == stored(id, #[trigger] keys[i]) by {
            named_before_or_last(id, keys, k);
        }
        assert forall|k: Seq<u8>| #[trigger]
            after.chunks.contains_key(k) <==> store.chunks.contains_key(k) && !exists|i: int|
                0 <= i < keys.len() && rows.contains_key(#[trigger] keys[i]) && parsed(rows[keys[i]]) is Some
                    && starts_with(k, be64(parsed(rows[keys[i]])->0.value_id)) by {
            if exists|i: int|
                0 <= i < short.len() && rows.contains_key(#[trigger] short[i]) && parsed(rows[short[i]]) is Some
                    && starts_with(k, be64(parsed(rows[short[i]])->0.value_id)) {
                let i = choose|i: int|
                    0 <= i < short.len() && rows.contains_key(#[trigger] short[i]) && parsed(rows[short[i]]) is Some
                        && starts_with(k, be64(parsed(rows[short[i]])->0.value_id));
                assert(keys[i] == short[i]);
            }
            if exists|i: int|
                0 <= i < keys.len() && rows.contains_key(#[trigger] keys[i]) && parsed(rows[keys[i]]) is Some
                    && starts_with(k, be64(parsed(rows[keys[i]])->0.value_id)) {
                let i = choose|i: int|
                    0 <= i < keys.len() && rows.contains_key(#[trigger] keys[i]) && parsed(rows[keys[i]]) is Some
                        && starts_with(k, be64(parsed(rows[keys[i]])->0.value_id));
                if i < short.len() {
                    assert(short[i] == keys[i]);
                }
            }
            assert(keys[keys.len() - 1] == v);
        }
    }
}

/// A key is named by the last of a list or by those before it.
proof fn named_before_or_last(id: LockerId, keys: Seq<Seq<u8>>, k: Seq<u8>)
    requires
        keys.len() > 0,
    ensures
        (exists|i: int| 0 <= i < keys.len() && k == stored(id, #[trigger] keys[i])) <==> k == stored(id, keys.last()) || (
        exists|i: int| 0 <= i < keys.drop_last().len() && k == stored(id, #[trigger] keys.drop_last()[i])),
{
    let short = keys.drop_last();
    if exists|i: int| 0 <= i < keys.len() && k == stored(id, #[trigger] keys[i]) {
        let i = choose|i: int| 0 <= i < keys.len() && k == stored(id, #[trigger] keys[i]);
        if i < short.len() {
            assert(short[i] == keys[i]);
        }
    }
    if exists|i: int| 0 <= i < short.len() && k == stored(id, #[trigger] short[i]) {
        let i = choose|i: int| 0 <= i < short.len() && k == stored(id, #[trigger] short[i]);
        assert(keys[i] == short[i]);
    }
    assert(keys[keys.len() - 1] == keys.last());
}

/// Quarantine removes the records it is told to, with the chunks behind them, and
/// nothing else, and says how many there were.
pub proof fn quarantine_removes_what_it_is_told<B: Backend>(
    bank: Bank<B>,
    name: Seq<char>,
    keys: Seq<Seq<u8>>,
    n: usize,
    after: Bank<B>,
    id: LockerId,
)
    requires
        bank.quarantine_gives(name, keys, Ok::<usize, Error>(n), after),
        keys.len() > 0,
        bank.knows(vstd::utf8::encode_utf8(name)),
        named(bank.store(), bank.registry@, vstd::utf8::encode_utf8(name)) matches Some((known, _)) && known == id,
    ensures
        ({
            let rows = locker_rows(bank.store().records, id);
            &&& n == keys.filter(|k: Seq<u8>| rows.contains_key(k)).len()
            &&& after.store().meta == bank.store().meta
            &&& forall|k: Seq<u8>| #[trigger]
                after.store().records.contains_key(k) <==> bank.store().records.contains_key(k) && !exists|i: int|
                    0 <= i < keys.len() && k == stored(id, #[trigger] keys[i])
            &&& forall|k: Seq<u8>| #[trigger]
                after.store().records.contains_key(k) ==> after.store().records[k] == bank.store().records[k]
            &&& forall|k: Seq<u8>| #[trigger]
                after.store().chunks.contains_key(k) <==> bank.store().chunks.contains_key(k) && !exists|i: int|
                    0 <= i < keys.len() && rows.contains_key(#[trigger] keys[i]) && parsed(rows[keys[i]]) is Some
                        && starts_with(k, be64(parsed(rows[keys[i]])->0.value_id))
            &&& forall|k: Seq<u8>| #[trigger]
                after.store().chunks.contains_key(k) ==> after.store().chunks[k] == bank.store().chunks[k]
        }),
{
    what_is_present_is_counted(locker_rows(bank.store().records, id), keys);
    removing_reaches_only_what_it_names(bank.store(), id, keys);
}

/// Dropping the chunks behind some records drops exactly those that one of them
/// points at.
proof fn dropping_reaches_only_what_is_pointed_at(store: Store, rows: Rows, keys: Seq<Seq<u8>>)
    ensures
        ({
            let after = store.after_all(gc_all(rows, keys));
            &&& after.meta == store.meta
            &&& after.records == store.records
            &&& forall|k: Seq<u8>| #[trigger]
                after.chunks.contains_key(k) <==> store.chunks.contains_key(k) && !exists|i: int|
                    0 <= i < keys.len() && points(rows[#[trigger] keys[i]]) && parsed(rows[keys[i]]) is Some
                        && starts_with(k, be64(parsed(rows[keys[i]])->0.value_id))
            &&& forall|k: Seq<u8>| #[trigger] after.chunks.contains_key(k) ==> after.chunks[k] == store.chunks[k]
        }),
    decreases keys.len(),
{
    if keys.len() > 0 {
        let short = keys.drop_last();
        let record = rows[keys.last()];
        dropping_reaches_only_what_is_pointed_at(store, rows, short);
        let so_far = gc_all(rows, short);
        let after = store.after_all(gc_all(rows, keys));
        if points(record) && parsed(record) is Some {
            let p = parsed(record)->0;
            after_all_pushes(store, so_far, gc(p));
            assert forall|k: Seq<u8>| Span::prefix(be64(p.value_id)).contains(k) <==> starts_with(k, be64(p.value_id)) by {
                a_prefix_span_holds_what_starts_with_it(be64(p.value_id), k);
            }
        }
        assert forall|k: Seq<u8>| #[trigger]
            after.chunks.contains_key(k) <==> store.chunks.contains_key(k) && !exists|i: int|
                0 <= i < keys.len() && points(rows[#[trigger] keys[i]]) && parsed(rows[keys[i]]) is Some && starts_with(
                    k,
                    be64(parsed(rows[keys[i]])->0.value_id),
                ) by {
            if exists|i: int|
                0 <= i < short.len() && points(rows[#[trigger] short[i]]) && parsed(rows[short[i]]) is Some
                    && starts_with(k, be64(parsed(rows[short[i]])->0.value_id)) {
                let i = choose|i: int|
                    0 <= i < short.len() && points(rows[#[trigger] short[i]]) && parsed(rows[short[i]]) is Some
                        && starts_with(k, be64(parsed(rows[short[i]])->0.value_id));
                assert(keys[i] == short[i]);
            }
            if exists|i: int|
                0 <= i < keys.len() && points(rows[#[trigger] keys[i]]) && parsed(rows[keys[i]]) is Some && starts_with(
                    k,
                    be64(parsed(rows[keys[i]])->0.value_id),
                ) {
                let i = choose|i: int|
                    0 <= i < keys.len() && points(rows[#[trigger] keys[i]]) && parsed(rows[keys[i]]) is Some
                        && starts_with(k, be64(parsed(rows[keys[i]])->0.value_id));
                if i < short.len() {
                    assert(short[i] == keys[i]);
                }
            }
            assert(keys[keys.len() - 1] == keys.last());
        }
    }
}

/// Whether a chunk is behind one of a locker's records.
pub open spec fn is_behind(rows: Rows, k: Seq<u8>) -> bool {
    exists|key: Seq<u8>| #[trigger]
        rows.contains_key(key) && points(rows[key]) && parsed(rows[key]) is Some && starts_with(
            k,
            be64(parsed(rows[key])->0.value_id),
        )
}

/// Clearing a locker removes every record of it and every chunk behind one of
/// them, and nothing else at all.
pub proof fn a_clear_removes_the_locker_and_nothing_else(store: Store, id: LockerId)
    requires
        store.is_finite(),
    ensures
        ({
            let rows = locker_rows(store.records, id);
            let after = store.after_all(clears(store.records, id));
            &&& after.meta == store.meta
            &&& forall|k: Seq<u8>| #[trigger]
                after.records.contains_key(k) <==> store.records.contains_key(k) && !starts_with(k, be32(id))
            &&& forall|k: Seq<u8>| #[trigger] after.records.contains_key(k) ==> after.records[k] == store.records[k]
            &&& forall|k: Seq<u8>| #[trigger]
                after.chunks.contains_key(k) <==> store.chunks.contains_key(k) && !is_behind(rows, k)
            &&& forall|k: Seq<u8>| #[trigger] after.chunks.contains_key(k) ==> after.chunks[k] == store.chunks[k]
        }),
{
    let rows = locker_rows(store.records, id);
    let keys = listing(rows.dom());
    rows_are_finite(store.records, id);
    a_finite_set_is_listed(rows.dom());
    dropping_reaches_only_what_is_pointed_at(store, rows, keys);
    after_all_pushes(store, gc_all(rows, keys), records_clear(id));
    let after = store.after_all(clears(store.records, id));
    assert forall|k: Seq<u8>| Span::prefix(be32(id)).contains(k) <==> starts_with(k, be32(id)) by {
        a_prefix_span_holds_what_starts_with_it(be32(id), k);
    }
    assert forall|k: Seq<u8>| #[trigger] after.chunks.contains_key(k) <==> store.chunks.contains_key(k) && !is_behind(
        rows,
        k,
    ) by {
        if is_behind(rows, k) {
            let key = choose|key: Seq<u8>| #[trigger]
                rows.contains_key(key) && points(rows[key]) && parsed(rows[key]) is Some && starts_with(
                    k,
                    be64(parsed(rows[key])->0.value_id),
                );
            assert(rows.dom().contains(key));
            let i = keys.index_of(key);
            assert(keys[i] == key);
        }
        if exists|i: int|
            0 <= i < keys.len() && points(rows[#[trigger] keys[i]]) && parsed(rows[keys[i]]) is Some && starts_with(
                k,
                be64(parsed(rows[keys[i]])->0.value_id),
            ) {
            let i = choose|i: int|
                0 <= i < keys.len() && points(rows[#[trigger] keys[i]]) && parsed(rows[keys[i]]) is Some && starts_with(
                    k,
                    be64(parsed(rows[keys[i]])->0.value_id),
                );
            assert(keys.contains(keys[i]));
            assert(rows.dom().contains(keys[i]));
            assert(rows.contains_key(keys[i]));
        }
    }
}

/// An erased locker leaves nothing behind: no record, no chunk behind one, no
/// name and no type; and nothing else in the store is touched.
pub proof fn an_erased_locker_leaves_nothing(store: Store, name: Seq<u8>, id: LockerId)
    requires
        store.is_finite(),
    ensures
        ({
            let rows = locker_rows(store.records, id);
            let after = store.after_all(erasure(store.records, name, id));
            &&& forall|k: Seq<u8>| #[trigger]
                after.meta.contains_key(k) <==> store.meta.contains_key(k) && k != locker_key(name) && k != schema_key(
                    id,
                )
            &&& forall|k: Seq<u8>| #[trigger] after.meta.contains_key(k) ==> after.meta[k] == store.meta[k]
            &&& forall|k: Seq<u8>| #[trigger]
                after.records.contains_key(k) <==> store.records.contains_key(k) && !starts_with(k, be32(id))
            &&& forall|k: Seq<u8>| #[trigger] after.records.contains_key(k) ==> after.records[k] == store.records[k]
            &&& forall|k: Seq<u8>| #[trigger]
                after.chunks.contains_key(k) <==> store.chunks.contains_key(k) && !is_behind(rows, k)
            &&& forall|k: Seq<u8>| #[trigger] after.chunks.contains_key(k) ==> after.chunks[k] == store.chunks[k]
        }),
{
    a_clear_removes_the_locker_and_nothing_else(store, id);
    let head = clears(store.records, id);
    let first = Change::Delete { table: Table::Meta, key: locker_key(name) };
    let second = Change::Delete { table: Table::Meta, key: schema_key(id) };
    after_all_pushes(store, head, first);
    after_all_pushes(store, head.push(first), second);
}

/// The names of a bank's lockers are exactly those that are registered, in byte
/// order.
pub proof fn every_registered_name_is_listed<B: Backend>(bank: Bank<B>, names: Vec<String>)
    requires
        bank.names_give(Ok::<Vec<String>, Error>(names)),
        bank.store().is_finite(),
    ensures
        in_order(crate::locker::listing::spelt(names@), false),
        forall|name: Seq<u8>| #[trigger]
            crate::locker::listing::spelt(names@).contains(name) <==> bank.store().meta.contains_key(locker_key(name)),
{
    let meta = bank.store().meta;
    let prefix = locker_prefix();
    let dom = keys_within(meta, Span::prefix(prefix));
    vstd::set_lib::lemma_set_subset_finite(meta.dom(), dom);
    a_finite_set_is_listed(dom);
    let keys = listing(dom);
    let all = crate::locker::listing::spelt(names@);
    assert forall|i: int| 0 <= i < keys.len() implies #[trigger] keys[i] == prefix + all[i] by {
        assert(keys.contains(keys[i]));
        assert(dom.contains(keys[i]));
        a_prefix_span_holds_what_starts_with_it(prefix, keys[i]);
        assert(all[i] == keys[i].skip(prefix.len() as int));
        assert(keys[i] =~= prefix + keys[i].skip(prefix.len() as int));
    }
    assert forall|i: int, j: int| 0 <= i < j < all.len() implies before(#[trigger] all[i], #[trigger] all[j]) by {
        assert(before(keys[i], keys[j]));
        crate::bytes::before_under_a_prefix(prefix, all[i], all[j]);
    }
    assert forall|name: Seq<u8>| #[trigger] all.contains(name) <==> meta.contains_key(locker_key(name)) by {
        a_prefix_span_holds_what_starts_with_it(prefix, locker_key(name));
        assert(locker_key(name).take(prefix.len() as int) =~= prefix);
        if meta.contains_key(locker_key(name)) {
            assert(dom.contains(locker_key(name)));
            let i = keys.index_of(locker_key(name));
            assert(keys[i].skip(prefix.len() as int) =~= name);
        }
        if all.contains(name) {
            let i = all.index_of(name);
            assert(keys.contains(keys[i]));
            assert(dom.contains(keys[i]));
        }
    }
}

} // verus!
