//! What a listing shows: stored keys with the staged writes laid over them, in
//! byte order, with a limit; and which of them can be spelt as text.

use std::ops::Bound;

use vstd::prelude::*;
use vstd::utf8::{encode_utf8, valid_utf8};

use super::batch::{latest, payloads, reads, wipes, Move};
use crate::backend::api::{at_most, keys_within, Rows, Span};
use crate::bytes::{copy, has_prefix, order, starts_with, Order};
use crate::key::user_span;
use crate::sorted::{listing, lists, the_listing_is, views, ByteMap};
use crate::utf8::text_of;

verus! {

/// Where one entry of a listing comes from. A stored record is a sealed
/// envelope; a staged one is the bare payload, so they decode differently.
pub enum Source {
    Stored,
    Staged(Seq<u8>),
}

/// What a key shows, where it shows anything: a staged write hides what is
/// stored.
pub open spec fn shows(rows: Rows, list: Seq<Move>, key: Seq<u8>) -> Option<Source> {
    match reads(list, key) {
        Some(Some(payload)) => Some(Source::Staged(payload)),
        Some(None) => None,
        None => if rows.contains_key(key) {
            Some(Source::Stored)
        } else {
            None
        },
    }
}

/// The keys of a range that show something.
pub open spec fn shown(rows: Rows, list: Seq<Move>, span: Span) -> Set<Seq<u8>> {
    Set::new(|k: Seq<u8>| span.contains(k) && shows(rows, list, k) is Some)
}

/// A set of keys, in order.
pub open spec fn ordered(keys: Set<Seq<u8>>, reverse: bool) -> Seq<Seq<u8>> {
    if reverse {
        listing(keys).reverse()
    } else {
        listing(keys)
    }
}

/// The front of a sequence, where there is a limit.
pub open spec fn limited(keys: Seq<Seq<u8>>, limit: Option<usize>) -> Seq<Seq<u8>> {
    match limit {
        Some(n) => keys.take(at_most(keys.len() as int, n as int)),
        None => keys,
    }
}

/// The keys a listing names.
pub open spec fn listed(rows: Rows, list: Seq<Move>, span: Span, reverse: bool, limit: Option<usize>) -> Seq<Seq<u8>> {
    limited(ordered(shown(rows, list, span), reverse), limit)
}

/// Whether a key lies between two bounds.
pub fn in_bounds(key: &[u8], start: Bound<&[u8]>, end: Bound<&[u8]>) -> (b: bool)
    ensures
        b == user_span(start, end).contains(key@),
{
    let above: bool = match start {
        Bound::Unbounded => true,
        Bound::Included(s) => match order(key, s) {
            Order::Less => false,
            _ => true,
        },
        Bound::Excluded(s) => match order(key, s) {
            Order::Greater => true,
            _ => false,
        },
    };
    let below: bool = match end {
        Bound::Unbounded => true,
        Bound::Included(e) => match order(key, e) {
            Order::Greater => false,
            _ => true,
        },
        Bound::Excluded(e) => match order(key, e) {
            Order::Less => true,
            _ => false,
        },
    };
    above && below
}

/// The sources of a map, as mathematics.
pub open spec fn sourced(map: Map<Seq<u8>, Option<Vec<u8>>>, rows: Rows, list: Seq<Move>) -> bool {
    forall|k: Seq<u8>| #[trigger]
        map.contains_key(k) ==> shows(rows, list, k) == Some(
            match map[k] {
                Some(payload) => Source::Staged(payload@),
                None => Source::Stored,
            },
        )
}

/// Lay staged writes over stored keys: each key that shows something, with its
/// staged payload or nothing where it is stored.
pub(crate) fn overlay(
    stored: Vec<Vec<u8>>,
    cleared: bool,
    last: &ByteMap<Option<Vec<u8>>>,
    start: Bound<&[u8]>,
    end: Bound<&[u8]>,
    rows: Ghost<Rows>,
    list: Ghost<Seq<Move>>,
) -> (merged: ByteMap<Option<Vec<u8>>>)
    requires
        cleared == wipes(list@),
        payloads(last@) == latest(list@),
        lists(views(stored@), keys_within(rows@, user_span(start, end))),
    ensures
        merged@.dom() == shown(rows@, list@, user_span(start, end)),
        sourced(merged@, rows@, list@),
{
    let ghost span = user_span(start, end);
    let ghost all = views(stored@);
    let mut merged: ByteMap<Option<Vec<u8>>> = ByteMap::new();
    if !cleared {
        let mut i: usize = 0;
        while i < stored.len()
            invariant
                i <= stored@.len(),
                all == views(stored@),
                forall|k: Seq<u8>| #[trigger] merged@.contains_key(k) <==> all.take(i as int).contains(k),
                forall|k: Seq<u8>| #[trigger] merged@.contains_key(k) ==> merged@[k] is None,
            decreases stored.len() - i,
        {
            proof {
                assert forall|k: Seq<u8>| all.take(i + 1).contains(k) <==> all.take(i as int).contains(k) || k
                    == all[i as int] by {
                    if all.take(i as int).contains(k) {
                        let j = all.take(i as int).index_of(k);
                        assert(all.take(i + 1)[j] == k);
                    }
                    if all.take(i + 1).contains(k) {
                        let j = all.take(i + 1).index_of(k);
                        if j < i {
                            assert(all.take(i as int)[j] == k);
                        }
                    }
                    assert(all.take(i + 1)[i as int] == all[i as int]);
                }
            }
            merged.insert(copy(stored[i].as_slice()), None);
            i += 1;
        }
        assert(all.take(stored@.len() as int) =~= all);
    }
    let ghost base = merged@;
    proof {
        assert forall|k: Seq<u8>| #[trigger] base.contains_key(k) <==> !cleared && rows@.contains_key(k)
            && span.contains(k) by {
            assert(keys_within(rows@, span).contains(k) <==> all.contains(k));
        }
    }
    let n: usize = last.len();
    let ghost keys = last.keys();
    let mut i: usize = 0;
    while i < n
        invariant
            span == user_span(start, end),
            n == keys.len(),
            keys == last.keys(),
            lists(keys, last@.dom()),
            last.values().len() == n,
            forall|k: int|
                0 <= k < keys.len() ==> last@.contains_key(#[trigger] keys[k]) && last@[keys[k]] == last.values()[k],
            i <= n,
            forall|k: Seq<u8>| #[trigger]
                merged@.contains_key(k) <==> if keys.take(i as int).contains(k) {
                    last@[k] is Some && span.contains(k)
                } else {
                    base.contains_key(k)
                },
            forall|k: Seq<u8>| #[trigger]
                merged@.contains_key(k) ==> merged@[k] == if keys.take(i as int).contains(k) {
                    last@[k]
                } else {
                    base[k]
                } || (keys.take(i as int).contains(k) && merged@[k] is Some && last@[k] is Some && merged@[k]->0@
                    == last@[k]->0@),
        decreases n - i,
    {
        let ghost was = merged@;
        let ghost key = keys[i as int];
        proof {
            assert forall|k: Seq<u8>| keys.take(i + 1).contains(k) <==> keys.take(i as int).contains(k) || k == key by {
                if keys.take(i as int).contains(k) {
                    let j = keys.take(i as int).index_of(k);
                    assert(keys.take(i + 1)[j] == k);
                }
                if keys.take(i + 1).contains(k) {
                    let j = keys.take(i + 1).index_of(k);
                    if j < i {
                        assert(keys.take(i as int)[j] == k);
                    }
                }
                assert(keys.take(i + 1)[i as int] == key);
            }
            assert(last@.contains_key(keys[i as int]));
        }
        match last.value_at(i) {
            Some(payload) => {
                if in_bounds(last.key_at(i).as_slice(), start, end) {
                    merged.insert(copy(last.key_at(i).as_slice()), Some(copy(payload.as_slice())));
                } else {
                    merged.remove(last.key_at(i).as_slice());
                }
            },
            None => {
                merged.remove(last.key_at(i).as_slice());
            },
        }
        i += 1;
    }
    proof {
        assert(keys.take(n as int) =~= keys);
        assert forall|k: Seq<u8>| #[trigger] keys.contains(k) <==> latest(list@).contains_key(k) by {
            assert(last@.dom().contains(k) <==> keys.contains(k));
            assert(payloads(last@).contains_key(k) <==> last@.contains_key(k));
        }
        assert forall|k: Seq<u8>| #[trigger] last@.contains_key(k) implies latest(list@)[k] == (match last@[k] {
            Some(b) => Some(b@),
            None => None::<Seq<u8>>,
        }) by {
            assert(payloads(last@).contains_key(k));
        }
        assert forall|k: Seq<u8>| #[trigger] merged@.dom().contains(k) <==> shown(rows@, list@, span).contains(k) by {
            assert(merged@.contains_key(k) <==> merged@.dom().contains(k));
            assert(keys.contains(k) <==> last@.dom().contains(k));
            assert(base.contains_key(k) <==> !cleared && rows@.contains_key(k) && span.contains(k));
        }
        assert(merged@.dom() =~= shown(rows@, list@, span));
        assert forall|k: Seq<u8>| #[trigger] merged@.contains_key(k) implies shows(rows@, list@, k) == Some(
            match merged@[k] {
                Some(payload) => Source::Staged(payload@),
                None => Source::Stored,
            },
        ) by {
            assert(keys.contains(k) <==> last@.dom().contains(k));
        }
    }
    merged
}

/// With nothing staged, what is shown is what is stored.
pub proof fn nothing_staged_shows_what_is_stored(rows: Rows, span: Span)
    ensures
        shown(rows, Seq::empty(), span) == keys_within(rows, span),
        forall|k: Seq<u8>|
            rows.contains_key(k) ==> #[trigger] shows(rows, Seq::empty(), k) == Some(Source::Stored),
{
    assert(shown(rows, Seq::empty(), span) =~= keys_within(rows, span));
}

/// The keys that can be spelt as text.
pub open spec fn texts(keys: Seq<Seq<u8>>) -> Seq<Seq<u8>>
    decreases keys.len(),
{
    if keys.len() == 0 {
        Seq::empty()
    } else {
        let rest = texts(keys.drop_last());
        if valid_utf8(keys.last()) {
            rest.push(keys.last())
        } else {
            rest
        }
    }
}

/// The bytes of a list of texts.
pub open spec fn spelt(list: Seq<String>) -> Seq<Seq<u8>> {
    Seq::new(list.len(), |i: int| encode_utf8(list[i]@))
}

/// Of some keys, those that can be spelt as text. The others are **skipped**,
/// not an error: a listing must never fail because of a key it cannot spell.
pub fn utf8_keys(keys: &Vec<Vec<u8>>) -> (out: Vec<String>)
    ensures
        spelt(out@) == texts(views(keys@)),
{
    let ghost all = views(keys@);
    let mut out: Vec<String> = Vec::new();
    let mut i: usize = 0;
    assert(spelt(out@) =~= texts(all.take(0)));
    while i < keys.len()
        invariant
            i <= keys@.len(),
            all == views(keys@),
            spelt(out@) == texts(all.take(i as int)),
        decreases keys.len() - i,
    {
        let ghost was = out@;
        assert(all.take(i + 1).drop_last() =~= all.take(i as int));
        assert(all.take(i + 1).last() == keys@[i as int]@);
        if let Some(text) = text_of(keys[i].as_slice()) {
            out.push(text);
            assert(spelt(out@) =~= spelt(was).push(all[i as int]));
        }
        i += 1;
    }
    assert(all.take(keys@.len() as int) =~= all);
    out
}

/// Whether some keys include one that cannot be spelt as text.
pub fn any_not_utf8(keys: &Vec<Vec<u8>>) -> (b: bool)
    ensures
        b == exists|i: int| 0 <= i < keys@.len() && !valid_utf8((#[trigger] keys@[i])@),
{
    let mut i: usize = 0;
    while i < keys.len()
        invariant
            i <= keys@.len(),
            forall|j: int| 0 <= j < i ==> valid_utf8((#[trigger] keys@[j])@),
        decreases keys.len() - i,
    {
        if text_of(keys[i].as_slice()).is_none() {
            assert(!valid_utf8(keys@[i as int]@));
            return true;
        }
        i += 1;
    }
    false
}

/// The entries whose keys can be spelt as text.
pub open spec fn text_entries<T>(entries: Seq<(Seq<u8>, T)>) -> Seq<(Seq<u8>, T)>
    decreases entries.len(),
{
    if entries.len() == 0 {
        Seq::empty()
    } else {
        let rest = text_entries(entries.drop_last());
        if valid_utf8(entries.last().0) {
            rest.push(entries.last())
        } else {
            rest
        }
    }
}

/// Entries by their key bytes.
pub open spec fn by_bytes<T>(entries: Seq<(Vec<u8>, T)>) -> Seq<(Seq<u8>, T)> {
    Seq::new(entries.len(), |i: int| (entries[i].0@, entries[i].1))
}

/// Entries by the bytes of their text.
pub open spec fn by_text<T>(entries: Seq<(String, T)>) -> Seq<(Seq<u8>, T)> {
    Seq::new(entries.len(), |i: int| (encode_utf8(entries[i].0@), entries[i].1))
}

/// Drop the entries whose keys are not UTF-8.
pub fn utf8_entries<T>(entries: Vec<(Vec<u8>, T)>) -> (out: Vec<(String, T)>)
    ensures
        by_text(out@) == text_entries(by_bytes(entries@)),
{
    let ghost all = by_bytes(entries@);
    let mut out: Vec<(String, T)> = Vec::new();
    assert(by_text(out@) =~= text_entries(all.take(0)));
    for entry in it: entries
        invariant
            it.seq() == entries@,
            all == by_bytes(entries@),
            by_text(out@) == text_entries(all.take(it.index() as int)),
    {
        let ghost i = it.index() as int;
        let ghost was = out@;
        assert(all.take(i + 1).drop_last() =~= all.take(i));
        assert(all.take(i + 1).last() == (entry.0@, entry.1));
        if let Some(text) = text_of(entry.0.as_slice()) {
            out.push((text, entry.1));
            assert(by_text(out@) =~= by_text(was).push(all[i]));
        }
    }
    assert(all.take(entries@.len() as int) =~= all);
    out
}

/// The keys of a map that begin with a prefix.
pub open spec fn prefixed(dom: Set<Seq<u8>>, prefix: Seq<u8>) -> Set<Seq<u8>> {
    Set::new(|k: Seq<u8>| dom.contains(k) && starts_with(k, prefix))
}

/// The keys beginning with `prefix`, in byte order.
pub fn keys_with_prefix<V>(map: &ByteMap<V>, prefix: &[u8]) -> (keys: Vec<Vec<u8>>)
    ensures
        views(keys@) == listing(prefixed(map@.dom(), prefix@)),
{
    let n: usize = map.len();
    let ghost all = map.keys();
    let mut keys: Vec<Vec<u8>> = Vec::new();
    let mut i: usize = 0;
    let ghost mut from: Seq<int> = Seq::empty();
    while i < n
        invariant
            n == all.len(),
            all == map.keys(),
            lists(all, map@.dom()),
            i <= n,
            from.len() == keys@.len(),
            forall|j: int| 0 <= j < from.len() ==> 0 <= #[trigger] from[j] < i && keys@[j]@ == all[from[j]] && starts_with(all[from[j]], prefix@),
            forall|j: int, k: int| 0 <= j < k < from.len() ==> #[trigger] from[j] < #[trigger] from[k],
            forall|j: int| 0 <= j < i && starts_with(#[trigger] all[j], prefix@) ==> from.contains(j),
        decreases n - i,
    {
        if has_prefix(map.key_at(i).as_slice(), prefix) {
            keys.push(copy(map.key_at(i).as_slice()));
            proof {
                let was = from;
                from = from.push(i as int);
                assert(from[was.len() as int] == i);
                assert forall|j: int| 0 <= j < i + 1 && starts_with(#[trigger] all[j], prefix@) implies from.contains(
                    j,
                ) by {
                    if j < i {
                        let x = was.index_of(j);
                        assert(from[x] == j);
                    }
                }
            }
        }
        i += 1;
    }
    proof {
        let dom = prefixed(map@.dom(), prefix@);
        let found = views(keys@);
        assert forall|j: int, k: int| 0 <= j < k < found.len() implies crate::bytes::before(
            #[trigger] found[j],
            #[trigger] found[k],
        ) by {
            assert(from[j] < from[k]);
            assert(crate::bytes::before(all[from[j]], all[from[k]]));
        }
        assert forall|k: Seq<u8>| #[trigger] dom.contains(k) <==> found.contains(k) by {
            if dom.contains(k) {
                assert(map@.dom().contains(k));
                let x = all.index_of(k);
                assert(starts_with(all[x], prefix@));
                let y = from.index_of(x);
                assert(from[y] == x);
                assert(found[y] == k);
            }
            if found.contains(k) {
                let y = found.index_of(k);
                assert(all[from[y]] == k);
                assert(all.contains(k));
            }
        }
        the_listing_is(found, dom);
    }
    keys
}

/// The bytes of a list of texts.
pub fn key_bytes_of(keys: &Vec<String>) -> (out: Vec<Vec<u8>>)
    ensures
        views(out@) == spelt(keys@),
{
    let ghost all = spelt(keys@);
    let mut out: Vec<Vec<u8>> = Vec::new();
    let mut i: usize = 0;
    assert(views(out@) =~= all.take(0));
    while i < keys.len()
        invariant
            i <= keys@.len(),
            all == spelt(keys@),
            views(out@) == all.take(i as int),
        decreases keys.len() - i,
    {
        let ghost was = out@;
        out.push(crate::meta::name_bytes(keys[i].as_str()));
        assert(views(out@) =~= views(was).push(all[i as int]));
        assert(all.take(i + 1) =~= all.take(i as int).push(all[i as int]));
        i += 1;
    }
    assert(all.take(keys@.len() as int) =~= all);
    out
}

/// The map a list of entries makes; a later entry replaces an earlier one.
pub open spec fn map_of<T>(entries: Seq<(Seq<u8>, T)>) -> Map<Seq<u8>, T>
    decreases entries.len(),
{
    if entries.len() == 0 {
        Map::empty()
    } else {
        map_of(entries.drop_last()).insert(entries.last().0, entries.last().1)
    }
}

/// Entries by key.
pub fn keyed<T>(entries: Vec<(String, T)>) -> (map: ByteMap<T>)
    ensures
        map@ == map_of(by_text(entries@)),
{
    let ghost all = by_text(entries@);
    let mut map: ByteMap<T> = ByteMap::new();
    assert(map@ =~= map_of(all.take(0)));
    for entry in it: entries
        invariant
            it.seq() == entries@,
            all == by_text(entries@),
            map@ == map_of(all.take(it.index() as int)),
    {
        let ghost i = it.index() as int;
        assert(all.take(i + 1).drop_last() =~= all.take(i));
        assert(all.take(i + 1).last() == all[i]);
        assert(entry == entries@[i]);
        map.insert(crate::meta::name_bytes(entry.0.as_str()), entry.1);
    }
    assert(all.take(entries@.len() as int) =~= all);
    map
}

} // verus!
