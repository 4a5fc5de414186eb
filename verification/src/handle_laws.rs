//! What requests to a bank promise of one another: what was put is what is got,
//! by itself and among many, what was deleted is not, and the questions about a
//! locker's keys all tell the same story.

use vstd::prelude::*;
use vstd::utf8::encode_utf8;

use crate::backend::api::{
    a_prefix_span_holds_what_starts_with_it, keys_within, Backend, Change, Span, Store, Table,
};
use crate::backend::store_laws::{reaches, the_last_mutation_of_a_row_decides};
use crate::bank::{bound, meta_keys_are_apart, named, number_at, readied, registering, Bank};
use crate::bytes::{be32, starts_with};
use crate::codec::value::{a_payload_reads_back, packed, Value};
use crate::error::{Error, Result};
use crate::handle::{deletes, finds, puts};
use crate::key::{lockers_are_disjoint, stored, LockerId};
use crate::locker::inner::locker_rows;
use crate::locker::listing::spelt;
use crate::locker::listing_laws::{in_order, rows_are_finite};
use crate::meta::{chain_key, locker_key, schema_key};
use crate::sorted::{a_finite_set_is_listed, listing, the_listing_is};

verus! {

/// A locker that was made ready is found ready again, under the same id and with
/// nothing more to record, whatever happened to its records meanwhile.
pub proof fn what_is_ready_stays_ready(
    store: Store,
    known: Map<Seq<u8>, u32>,
    name: Seq<u8>,
    tag: Seq<u8>,
    chain_id: u8,
    later: Store,
    known_later: Map<Seq<u8>, u32>,
)
    requires
        known.contains_key(name) ==> number_at(store, locker_key(name)) == Some(known[name]),
        readied(store, known, name, tag, chain_id) matches Some((_, s)) && later.meta == s.meta,
        known_later.contains_key(name) ==> number_at(later, locker_key(name)) == Some(known_later[name]),
    ensures
        readied(store, known, name, tag, chain_id) matches Some((id, _)) && readied(
            later,
            known_later,
            name,
            tag,
            chain_id,
        ) == Some((id, later)),
{
    let (id, ready) = readied(store, known, name, tag, chain_id)->0;
    let (_, first) = named(store, known, name)->0;
    meta_keys_are_apart(name, id);
    assert(number_at(first, locker_key(name)) == Some(id)) by {
        if !known.contains_key(name) && store.lookup(Table::Meta, locker_key(name)) is None {
            registering(store, name, id);
        }
    }
    let second = bound(first, schema_key(id), tag)->0;
    let third = bound(second, chain_key(id), seq![chain_id])->0;
    assert(third == ready);
    assert(second.lookup(Table::Meta, locker_key(name)) == first.lookup(Table::Meta, locker_key(name)));
    assert(third.lookup(Table::Meta, locker_key(name)) == second.lookup(Table::Meta, locker_key(name)));
    assert(second.lookup(Table::Meta, schema_key(id)) == Some(tag));
    assert(third.lookup(Table::Meta, schema_key(id)) == Some(tag));
    assert(third.lookup(Table::Meta, chain_key(id)) == Some(seq![chain_id]));
    assert(later.lookup(Table::Meta, locker_key(name)) == third.lookup(Table::Meta, locker_key(name)));
    assert(later.lookup(Table::Meta, schema_key(id)) == Some(tag));
    assert(later.lookup(Table::Meta, chain_key(id)) == Some(seq![chain_id]));
    assert(number_at(later, locker_key(name)) == Some(id));
}

/// The locker a request found is the one the next request finds.
proof fn the_same_locker<B: Backend>(before: Bank<B>, locker: Seq<u8>, after: Bank<B>)
    requires
        before.wf(),
        after.same_bank(before),
        before.raw_ready(locker) matches Some((_, s)) && after.store().meta == s.meta,
    ensures
        before.raw_ready(locker) matches Some((id, _)) && after.raw_ready(locker) == Some((id, after.store())),
{
    what_is_ready_stays_ready(
        before.store(),
        before.registry@,
        locker,
        encode_utf8(<Vec<u8> as Value>::label()),
        before.chain.id_spec(),
        after.store(),
        after.registry@,
    );
}

/// Bytes put are the bytes got by the next request, under the same key; under any
/// other key the same is got as would have been.
pub proof fn what_a_request_puts_the_next_gets<B: Backend>(
    before: Bank<B>,
    locker: Seq<u8>,
    key: Seq<u8>,
    value: Seq<u8>,
    mid: Bank<B>,
    other: Seq<u8>,
    found: Option<Vec<u8>>,
    after: Bank<B>,
)
    requires
        before.wf(),
        before.raw_put_gives(locker, key, value, Ok::<(), Error>(()), mid),
        mid.raw_get_gives(locker, other, Ok::<Option<Vec<u8>>, Error>(found), after),
        before.chain.keeps(packed(value)),
    ensures
        other == key ==> (found matches Some(v) && v@ == value),
        other != key ==> (before.raw_ready(locker) matches Some((id, store)) && finds(
            &before.chain,
            store.lookup(Table::Records, stored(id, other)),
            found,
        )),
{
    let (id, store) = before.raw_ready(locker)->0;
    let record = choose|record: Seq<u8>| #[trigger]
        before.chain.seals(packed(value), record) && mid.store() == store.after(
            crate::locker::inner::record_put(id, key, record),
        );
    the_same_locker(before, locker, mid);
    lockers_are_disjoint(id, key, id, other);
    if other == key {
        assert(before.chain.opened(record) == Some(packed(value)));
        a_payload_reads_back(value);
        if let Some(v) = found {
            a_payload_reads_back(v@);
        }
    }
}

/// A deleted key is not got by the next request, and any other as before.
pub proof fn what_a_request_deletes_the_next_does_not_get<B: Backend>(
    before: Bank<B>,
    locker: Seq<u8>,
    key: Seq<u8>,
    mid: Bank<B>,
    other: Seq<u8>,
    found: Option<Vec<u8>>,
    after: Bank<B>,
)
    requires
        before.wf(),
        before.raw_delete_gives(locker, key, Ok::<(), Error>(()), mid),
        mid.raw_get_gives(locker, other, Ok::<Option<Vec<u8>>, Error>(found), after),
    ensures
        other == key ==> found is None,
        other != key ==> (before.raw_ready(locker) matches Some((id, store)) && finds(
            &before.chain,
            store.lookup(Table::Records, stored(id, other)),
            found,
        )),
{
    let (id, store) = before.raw_ready(locker)->0;
    the_same_locker(before, locker, mid);
    lockers_are_disjoint(id, key, id, other);
}

/// A cleared locker has nothing to get, and no key.
pub proof fn what_a_request_clears_the_next_finds_empty<B: Backend>(
    before: Bank<B>,
    locker: Seq<u8>,
    mid: Bank<B>,
    key: Seq<u8>,
    found: Option<Vec<u8>>,
    after: Bank<B>,
    n: usize,
    later: Bank<B>,
)
    requires
        before.wf(),
        before.raw_clear_gives(locker, Ok::<(), Error>(()), mid),
        mid.raw_get_gives(locker, key, Ok::<Option<Vec<u8>>, Error>(found), after),
        mid.raw_len_gives(locker, Ok::<usize, Error>(n), later),
    ensures
        found is None,
        n == 0,
{
    let (id, store) = before.raw_ready(locker)->0;
    the_same_locker(before, locker, mid);
    let rows = locker_rows(mid.store().records, id);
    assert forall|k: Seq<u8>| !(#[trigger] rows.contains_key(k)) by {
        a_prefix_span_holds_what_starts_with_it(be32(id), stored(id, k));
        assert(stored(id, k).take(4) =~= be32(id));
    }
    assert(rows.dom() =~= Set::<Seq<u8>>::empty());
    assert(!rows.contains_key(key));
}

/// Many entries put together are got one by one, each key as its last entry has
/// it; a key that none of them names is got as before.
pub proof fn what_a_request_puts_together_is_got<B: Backend>(
    before: Bank<B>,
    locker: Seq<u8>,
    entries: Seq<(String, Vec<u8>)>,
    mid: Bank<B>,
    i: int,
    key: Seq<u8>,
    found: Option<Vec<u8>>,
    after: Bank<B>,
)
    requires
        before.wf(),
        entries.len() > 0,
        before.raw_put_all_gives(locker, entries, Ok::<(), Error>(()), mid),
        mid.raw_get_gives(locker, key, Ok::<Option<Vec<u8>>, Error>(found), after),
        -1 <= i < entries.len(),
        i >= 0 ==> encode_utf8(entries[i].0@) == key && before.chain.keeps(packed(entries[i].1@)),
        forall|j: int| i < j < entries.len() ==> encode_utf8((#[trigger] entries[j]).0@) != key,
    ensures
        i >= 0 ==> (found matches Some(v) && v@ == entries[i].1@),
        i < 0 ==> (before.raw_ready(locker) matches Some((id, store)) && finds(
            &before.chain,
            store.lookup(Table::Records, stored(id, key)),
            found,
        )),
{
    let (id, store) = before.raw_ready(locker)->0;
    let list = choose|list: Seq<Change>| #[trigger]
        puts(&before.chain, id, entries, list) && mid.store() == store.after_all(list);
    assert(mid.store().meta == store.meta) by {
        puts_spare_meta(store, list);
    }
    the_same_locker(before, locker, mid);
    let at = stored(id, key);
    assert forall|j: int| i < j < list.len() implies !reaches(#[trigger] list[j], Table::Records, at) by {
        assert(encode_utf8(entries[j].0@) != key);
        lockers_are_disjoint(id, encode_utf8(entries[j].0@), id, key);
    }
    if i >= 0 {
        assert(reaches(list[i], Table::Records, at));
    }
    the_last_mutation_of_a_row_decides(store, list, i, Table::Records, at);
    if i >= 0 {
        a_payload_reads_back(entries[i].1@);
        if let Some(v) = found {
            a_payload_reads_back(v@);
        }
    }
}

/// Storing records touches no `meta`.
proof fn puts_spare_meta(store: Store, list: Seq<Change>)
    requires
        forall|i: int|
            0 <= i < list.len() ==> ((#[trigger] list[i]) matches Change::Put { table, .. } && table == Table::Records),
    ensures
        store.after_all(list).meta == store.meta,
    decreases list.len(),
{
    if list.len() > 0 {
        let short = list.drop_last();
        assert forall|i: int| 0 <= i < short.len() implies ((#[trigger] short[i]) matches Change::Put { table, .. }
            && table == Table::Records) by {
            assert(short[i] == list[i]);
        }
        puts_spare_meta(store, short);
        assert(list[list.len() - 1] == list.last());
    }
}

/// Many keys deleted together are gone, every one of them, and a key that is not
/// among them is got as before.
pub proof fn what_a_request_deletes_together_is_gone(store: Store, id: LockerId, keys: Seq<String>, key: Seq<u8>)
    ensures
        (exists|i: int| 0 <= i < keys.len() && encode_utf8((#[trigger] keys[i])@) == key) ==> store.after_all(
            deletes(id, keys),
        ).lookup(Table::Records, stored(id, key)) is None,
        (forall|i: int| 0 <= i < keys.len() ==> encode_utf8((#[trigger] keys[i])@) != key) ==> store.after_all(
            deletes(id, keys),
        ).lookup(Table::Records, stored(id, key)) == store.lookup(Table::Records, stored(id, key)),
    decreases keys.len(),
{
    let list = deletes(id, keys);
    if keys.len() > 0 {
        let short = keys.drop_last();
        assert(list.drop_last() =~= deletes(id, short));
        what_a_request_deletes_together_is_gone(store, id, short, key);
        let last = encode_utf8(keys.last()@);
        lockers_are_disjoint(id, last, id, key);
        assert(keys[keys.len() - 1] == keys.last());
        if exists|i: int| 0 <= i < keys.len() && encode_utf8((#[trigger] keys[i])@) == key {
            let i = choose|i: int| 0 <= i < keys.len() && encode_utf8((#[trigger] keys[i])@) == key;
            if i < short.len() {
                assert(short[i] == keys[i]);
            }
        }
        if forall|i: int| 0 <= i < keys.len() ==> encode_utf8((#[trigger] keys[i])@) != key {
            assert forall|i: int| 0 <= i < short.len() implies encode_utf8((#[trigger] short[i])@) != key by {
                assert(short[i] == keys[i]);
            }
        }
    }
}

/// Reading many keys gives for each what reading it alone gives, in the order
/// asked for.
pub proof fn many_are_got_as_each_alone<B: Backend>(
    bank: Bank<B>,
    locker: Seq<u8>,
    keys: Seq<String>,
    many: Vec<Option<Vec<u8>>>,
    i: int,
    one: Option<Vec<u8>>,
    after_many: Bank<B>,
    after_one: Bank<B>,
)
    requires
        bank.raw_get_many_gives(locker, keys, Ok::<Vec<Option<Vec<u8>>>, Error>(many), after_many),
        0 <= i < keys.len(),
        bank.raw_get_gives(locker, encode_utf8(keys[i]@), Ok::<Option<Vec<u8>>, Error>(one), after_one),
    ensures
        many@.len() == keys.len(),
        many@[i] is Some <==> one is Some,
        many@[i] matches Some(v) ==> (one matches Some(w) && v@ == w@),
{
    let (id, store) = bank.raw_ready(locker)->0;
    assert(finds(&bank.chain, store.lookup(Table::Records, stored(id, encode_utf8(keys[i]@))), many@[i]));
    if let (Some(v), Some(w)) = (many@[i], one) {
        a_payload_reads_back(v@);
        a_payload_reads_back(w@);
    }
}

/// A key is there exactly where reading it finds something.
pub proof fn a_key_is_there_where_something_is_got<B: Backend>(
    bank: Bank<B>,
    locker: Seq<u8>,
    key: Seq<u8>,
    there: bool,
    found: Option<Vec<u8>>,
    after_asking: Bank<B>,
    after_reading: Bank<B>,
)
    requires
        bank.raw_contains_key_gives(locker, key, Ok::<bool, Error>(there), after_asking),
        bank.raw_get_gives(locker, key, Ok::<Option<Vec<u8>>, Error>(found), after_reading),
    ensures
        there <==> found is Some,
{
}

/// The keys with a prefix are listed in byte order: those that are there and
/// begin with it, and no others. Without a prefix they are as many as the locker
/// is said to hold.
pub proof fn keys_are_listed_and_counted<B: Backend>(
    bank: Bank<B>,
    locker: Seq<u8>,
    prefix: Seq<u8>,
    keys: Vec<String>,
    key: Seq<u8>,
    there: bool,
    n: usize,
    after_listing: Bank<B>,
    after_asking: Bank<B>,
    after_counting: Bank<B>,
)
    requires
        bank.store().is_finite(),
        bank.raw_keys_gives(locker, prefix, Ok::<Vec<String>, Error>(keys), after_listing),
        bank.raw_contains_key_gives(locker, key, Ok::<bool, Error>(there), after_asking),
        bank.raw_len_gives(locker, Ok::<usize, Error>(n), after_counting),
        after_listing.store().is_finite(),
    ensures
        in_order(spelt(keys@), false),
        spelt(keys@).contains(key) <==> there && starts_with(key, prefix),
        prefix.len() == 0 ==> n == keys@.len(),
        n >= keys@.len(),
{
    let (id, store) = bank.raw_ready(locker)->0;
    let rows = locker_rows(store.records, id);
    rows_are_finite(store.records, id);
    let dom = keys_within(rows, Span::prefix(prefix));
    vstd::set_lib::lemma_set_subset_finite(rows.dom(), dom);
    vstd::set_lib::lemma_len_subset(dom, rows.dom());
    a_finite_set_is_listed(dom);
    the_listing_is(listing(dom), dom);
    let all = spelt(keys@);
    a_prefix_span_holds_what_starts_with_it(prefix, key);
    assert(dom.contains(key) <==> all.contains(key));
    if prefix.len() == 0 {
        assert forall|k: Seq<u8>| rows.dom().contains(k) implies dom.contains(k) by {
            a_prefix_span_holds_what_starts_with_it(prefix, k);
            assert(k.take(0) =~= prefix);
        }
        assert(dom =~= rows.dom());
    }
    assert(all.len() == keys@.len());
}

/// The entries with a prefix are the keys with it, each with what reading it
/// gives.
pub proof fn entries_are_the_keys_with_their_values<B: Backend>(
    bank: Bank<B>,
    locker: Seq<u8>,
    prefix: Seq<u8>,
    keys: Vec<String>,
    entries: Vec<(String, Vec<u8>)>,
    i: int,
    one: Option<Vec<u8>>,
    after_keys: Bank<B>,
    after_entries: Bank<B>,
    after_one: Bank<B>,
)
    requires
        bank.raw_keys_gives(locker, prefix, Ok::<Vec<String>, Error>(keys), after_keys),
        bank.raw_entries_gives(locker, prefix, Ok::<Vec<(String, Vec<u8>)>, Error>(entries), after_entries),
        0 <= i < keys@.len(),
        bank.raw_get_gives(locker, encode_utf8(keys@[i]@), Ok::<Option<Vec<u8>>, Error>(one), after_one),
        bank.raw_ready(locker) matches Some((_, store)) && store.is_finite(),
    ensures
        entries@.len() == keys@.len(),
        encode_utf8(entries@[i].0@) == encode_utf8(keys@[i]@),
        one matches Some(v) && v@ == entries@[i].1@,
{
    let (id, store) = bank.raw_ready(locker)->0;
    let rows = locker_rows(store.records, id);
    rows_are_finite(store.records, id);
    let dom = keys_within(rows, Span::prefix(prefix));
    vstd::set_lib::lemma_set_subset_finite(rows.dom(), dom);
    a_finite_set_is_listed(dom);
    let all = listing(dom);
    assert(spelt(keys@)[i] == all[i]);
    assert(all.contains(all[i]));
    assert(dom.contains(all[i]));
    assert(encode_utf8(entries@[i].0@) == all[i]);
    a_payload_reads_back(entries@[i].1@);
    if let Some(v) = one {
        a_payload_reads_back(v@);
    }
}

/// Many keys that a request deleted together are not got by the next, and any other
/// is got as before.
pub proof fn what_a_request_deletes_together_the_next_does_not_get<B: Backend>(
    before: Bank<B>,
    locker: Seq<u8>,
    keys: Seq<String>,
    mid: Bank<B>,
    key: Seq<u8>,
    found: Option<Vec<u8>>,
    after: Bank<B>,
)
    requires
        before.wf(),
        keys.len() > 0,
        before.raw_delete_all_gives(locker, keys, Ok::<(), Error>(()), mid),
        mid.raw_get_gives(locker, key, Ok::<Option<Vec<u8>>, Error>(found), after),
    ensures
        (exists|i: int| 0 <= i < keys.len() && encode_utf8((#[trigger] keys[i])@) == key) ==> found is None,
        (forall|i: int| 0 <= i < keys.len() ==> encode_utf8((#[trigger] keys[i])@) != key) ==> (before.raw_ready(
            locker,
        ) matches Some((id, store)) && finds(&before.chain, store.lookup(Table::Records, stored(id, key)), found)),
{
    let (id, store) = before.raw_ready(locker)->0;
    deletes_spare_meta(store, id, keys);
    the_same_locker(before, locker, mid);
    what_a_request_deletes_together_is_gone(store, id, keys, key);
}

/// Removing records touches no `meta`.
proof fn deletes_spare_meta(store: Store, id: LockerId, keys: Seq<String>)
    ensures
        store.after_all(deletes(id, keys)).meta == store.meta,
    decreases keys.len(),
{
    if keys.len() > 0 {
        let short = keys.drop_last();
        deletes_spare_meta(store, id, short);
        assert(deletes(id, keys).drop_last() =~= deletes(id, short));
    }
}

/// A request succeeds on an open bank whose store answers, with the default chain,
/// for a locker that can be had: puts of anything, deletes, clears, questions for a
/// key and for how many there are, and reads of what is not there.
pub proof fn an_ordinary_request_succeeds<B: Backend>(
    bank: Bank<B>,
    locker: Seq<u8>,
    key: Seq<u8>,
    value: Seq<u8>,
    put: Result<()>,
    deleted: Result<()>,
    cleared: Result<()>,
    there: Result<bool>,
    count: Result<usize>,
    found: Result<Option<Vec<u8>>>,
    after: Bank<B>,
)
    requires
        !bank.closed,
        bank.shared.backend.answers(),
        crate::codec::is_default(*bank.chain),
        bank.raw_ready(locker) is Some,
    ensures
        bank.raw_put_gives(locker, key, value, put, after) ==> put is Ok,
        bank.raw_delete_gives(locker, key, deleted, after) ==> deleted is Ok,
        bank.raw_clear_gives(locker, cleared, after) ==> cleared is Ok,
        bank.raw_contains_key_gives(locker, key, there, after) ==> there is Ok,
        bank.raw_len_gives(locker, count, after) ==> count is Ok,
        (bank.raw_ready(locker) matches Some((id, store)) && store.lookup(Table::Records, stored(id, key)) is None)
            && bank.raw_get_gives(locker, key, found, after) ==> (found matches Ok(None)),
{
    assert(bank.chain.takes(packed(value)));
}

} // verus!
