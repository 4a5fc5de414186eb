//! What a listing shows, told by its entries: exactly the keys of the range that
//! read as something, in byte order or the other way round, each with the value
//! that a read of it gives; with a limit, the front of that and no less.

use std::ops::Bound;

use vstd::prelude::*;
use vstd::utf8::{encode_utf8, valid_utf8};

use super::batch::{latest, moves, Move};
use super::batch_laws::latest_is_finite;
use super::eager::{within, Locker};
use super::lazy::{listing_answers, value_answers, LazyLocker};
use super::listing::{by_bytes, by_text, listed, map_of, ordered, prefixed, shown, shows, text_entries, texts, Source};
use super::staging_laws::{
    bears_on, decides, the_last_write_of_a_key_decides, what_no_write_bears_on_is_left_alone,
};
use crate::backend::api::{Backend, Rows, Span};
use crate::bytes::{before, before_is_asymmetric, before_is_irreflexive, before_is_total};
use crate::codec::value::Value;
use crate::error::{Error, Result};
use crate::key::stored;
use crate::sorted::{a_finite_set_is_listed, listing, lists, the_listing_is};

verus! {

/// A staged write hides what is stored: a key whose last staged write is a put
/// shows that payload, one that was deleted or cleared away shows nothing, and
/// one that nothing staged bears on shows what is stored, where anything is.
pub proof fn a_staged_write_hides_what_is_stored(rows: Rows, list: Seq<Move>, i: int, key: Seq<u8>)
    requires
        decides(list, i, key) || (i < 0 && forall|j: int| 0 <= j < list.len() ==> !bears_on(#[trigger] list[j], key)),
    ensures
        i >= 0 ==> match list[i] {
            Move::Put { payload, .. } => shows(rows, list, key) == Some(Source::Staged(payload)),
            _ => shows(rows, list, key) is None,
        },
        i < 0 ==> shows(rows, list, key) == if rows.contains_key(key) {
            Some(Source::Stored)
        } else {
            None
        },
{
    if i >= 0 {
        the_last_write_of_a_key_decides(list, i, key, Set::empty(), 0);
    } else {
        what_no_write_bears_on_is_left_alone(list, key, Set::empty(), 0);
    }
}

/// What is shown of a store with finitely many records is finite.
proof fn what_is_shown_is_finite(rows: Rows, list: Seq<Move>, span: Span)
    requires
        rows.dom().finite(),
    ensures
        shown(rows, list, span).finite(),
{
    latest_is_finite(list);
    let all = rows.dom().union(latest(list).dom());
    assert(shown(rows, list, span).subset_of(all)) by {
        assert forall|k: Seq<u8>| shown(rows, list, span).contains(k) implies all.contains(k) by {
            assert(shows(rows, list, k) is Some);
        }
    }
    vstd::set_lib::lemma_set_subset_finite(all, shown(rows, list, span));
}

/// Whether keys stand in byte order, or the other way round; no key stands twice.
pub open spec fn in_order(keys: Seq<Seq<u8>>, reverse: bool) -> bool {
    forall|i: int, j: int|
        0 <= i < j < keys.len() ==> if reverse {
            before(#[trigger] keys[j], #[trigger] keys[i])
        } else {
            before(keys[i], keys[j])
        }
}

/// A listing names exactly the keys of the range that show something, in order,
/// and with a limit as many of them from the front as there are, or as the limit
/// lets through.
pub proof fn a_listing_names_what_is_shown(
    rows: Rows,
    list: Seq<Move>,
    span: Span,
    reverse: bool,
    limit: Option<usize>,
)
    requires
        rows.dom().finite(),
    ensures
        ({
            let all = listed(rows, list, span, reverse, None);
            let some = listed(rows, list, span, reverse, limit);
            &&& in_order(all, reverse)
            &&& forall|k: Seq<u8>| #[trigger]
                all.contains(k) <==> span.contains(k) && shows(rows, list, k) is Some
            &&& some.len() <= all.len()
            &&& some == all.take(some.len() as int)
            &&& limit is None ==> some.len() == all.len()
            &&& limit matches Some(n) ==> (all.len() <= n ==> some.len() == all.len()) && (all.len() > n ==> some.len()
                == n)
        }),
{
    let dom = shown(rows, list, span);
    what_is_shown_is_finite(rows, list, span);
    a_finite_set_is_listed(dom);
    the_listing_is(listing(dom), dom);
    let up = listing(dom);
    let all = listed(rows, list, span, reverse, None);
    let some = listed(rows, list, span, reverse, limit);
    assert(all.len() == up.len());
    assert forall|i: int, j: int| 0 <= i < j < all.len() implies if reverse {
        before(#[trigger] all[j], #[trigger] all[i])
    } else {
        before(all[i], all[j])
    } by {
        if reverse {
            assert(all[i] == up[up.len() - 1 - i] && all[j] == up[up.len() - 1 - j]);
        }
    }
    assert forall|k: Seq<u8>| #[trigger] all.contains(k) <==> span.contains(k) && shows(rows, list, k) is Some by {
        assert(dom.contains(k) <==> up.contains(k));
        if reverse {
            if up.contains(k) {
                let i = up.index_of(k);
                assert(all[up.len() - 1 - i] == k);
            }
            if all.contains(k) {
                let i = all.index_of(k);
                assert(up[up.len() - 1 - i] == k);
            }
        }
    }
    assert(some =~= all.take(some.len() as int));
}

/// A listing gives exactly the keys of the range that show something, in order,
/// each with the value it shows; a limit of `n` gives the first `n` of that, or
/// all of it where there are no more.
pub proof fn a_limited_listing_is_the_front_of_the_whole<B: Backend, T: Value>(
    l: LazyLocker<T>,
    backend: &B,
    span: Span,
    reverse: bool,
    limit: usize,
    whole: Vec<(Vec<u8>, T)>,
    some: Vec<(Vec<u8>, T)>,
)
    requires
        backend.store().is_finite(),
        listing_answers(
            &l.res.inner,
            backend,
            moves(l.res.staged@),
            l.keys_shown(backend, span, reverse, None),
            Ok::<Vec<(Vec<u8>, T)>, Error>(whole),
        ),
        listing_answers(
            &l.res.inner,
            backend,
            moves(l.res.staged@),
            l.keys_shown(backend, span, reverse, Some(limit)),
            Ok::<Vec<(Vec<u8>, T)>, Error>(some),
        ),
    ensures
        some@.len() == if whole@.len() <= limit {
            whole@.len()
        } else {
            limit as nat
        },
        forall|i: int|
            0 <= i < some@.len() ==> (#[trigger] some@[i]).0@ == whole@[i].0@ && some@[i].1.payload()
                == whole@[i].1.payload(),
        forall|i: int, j: int|
            0 <= i < j < whole@.len() ==> if reverse {
                before((#[trigger] whole@[j]).0@, (#[trigger] whole@[i]).0@)
            } else {
                before(whole@[i].0@, whole@[j].0@)
            },
        forall|i: int| 0 <= i < whole@.len() ==> span.contains((#[trigger] whole@[i]).0@),
        forall|key: Seq<u8>|
            span.contains(key) && #[trigger] shows(
                super::inner::locker_rows(backend.store().records, l.res.inner.id),
                moves(l.res.staged@),
                key,
            ) is Some ==> exists|i: int| 0 <= i < whole@.len() && (#[trigger] whole@[i]).0@ == key,
{
    let rows = super::inner::locker_rows(backend.store().records, l.res.inner.id);
    let list = moves(l.res.staged@);
    rows_are_finite(backend.store().records, l.res.inner.id);
    a_listing_names_what_is_shown(rows, list, span, reverse, None);
    a_listing_names_what_is_shown(rows, list, span, reverse, Some(limit));
    let all = listed(rows, list, span, reverse, None);
    let front = listed(rows, list, span, reverse, Some(limit));
    reveal(value_answers);
    assert forall|i: int| 0 <= i < some@.len() implies (#[trigger] some@[i]).0@ == whole@[i].0@ && some@[i].1.payload()
        == whole@[i].1.payload() by {
        assert(front[i] == all.take(front.len() as int)[i]);
        assert(whole@[i].0@ == all[i]);
    }
    assert forall|i: int, j: int| 0 <= i < j < whole@.len() implies if reverse {
        before((#[trigger] whole@[j]).0@, (#[trigger] whole@[i]).0@)
    } else {
        before(whole@[i].0@, whole@[j].0@)
    } by {
        assert(whole@[i].0@ == all[i] && whole@[j].0@ == all[j]);
    }
    assert forall|i: int| 0 <= i < whole@.len() implies span.contains((#[trigger] whole@[i]).0@) by {
        assert(all.contains(all[i]));
    }
    assert forall|key: Seq<u8>| span.contains(key) && #[trigger] shows(rows, list, key) is Some implies exists|i: int|
        0 <= i < whole@.len() && (#[trigger] whole@[i]).0@ == key by {
        assert(all.contains(key));
        let i = all.index_of(key);
        assert(whole@[i].0@ == key);
    }
}

/// A locker of a store with finitely many records has finitely many.
pub(crate) proof fn rows_are_finite(records: Rows, id: crate::key::LockerId)
    requires
        records.dom().finite(),
    ensures
        super::inner::locker_rows(records, id).dom().finite(),
{
    let rows = super::inner::locker_rows(records, id);
    let user = |k: Seq<u8>| k.skip(4);
    let all = records.dom().map(user);
    records.dom().lemma_map_finite(user);
    assert forall|k: Seq<u8>| rows.dom().contains(k) implies all.contains(k) by {
        assert(records.dom().contains(stored(id, k)));
        assert(stored(id, k).skip(4) =~= k);
        assert(user(stored(id, k)) == k);
    }
    assert(rows.dom().subset_of(all));
    vstd::set_lib::lemma_set_subset_finite(all, rows.dom());
}

/// A listing the other way round names the same keys, last first.
pub proof fn a_reverse_listing_is_the_listing_reversed(rows: Rows, list: Seq<Move>, span: Span)
    requires
        rows.dom().finite(),
    ensures
        listed(rows, list, span, true, None).len() == listed(rows, list, span, false, None).len(),
        forall|i: int|
            0 <= i < listed(rows, list, span, true, None).len() ==> (#[trigger] listed(rows, list, span, true, None)[i])
                == listed(rows, list, span, false, None)[listed(rows, list, span, false, None).len() - 1 - i],
{
    let dom = shown(rows, list, span);
    what_is_shown_is_finite(rows, list, span);
    a_finite_set_is_listed(dom);
    assert(ordered(dom, true) == listing(dom).reverse());
}

/// Of some keys, those that can be spelt as text are kept, in order, and the
/// others are left out.
pub proof fn what_can_be_spelt_is_kept(keys: Seq<Seq<u8>>)
    ensures
        texts(keys) == keys.filter(|k: Seq<u8>| valid_utf8(k)),
    decreases keys.len(),
{
    reveal(Seq::filter);
    if keys.len() > 0 {
        what_can_be_spelt_is_kept(keys.drop_last());
    } else {
        assert(texts(keys) =~= keys.filter(|k: Seq<u8>| valid_utf8(k)));
    }
}

/// Of some entries, those whose keys can be spelt as text are kept, in order,
/// and the others are left out.
pub proof fn what_can_be_spelt_is_kept_with_its_value<T>(entries: Seq<(Seq<u8>, T)>)
    ensures
        text_entries(entries) == entries.filter(|e: (Seq<u8>, T)| valid_utf8(e.0)),
    decreases entries.len(),
{
    reveal(Seq::filter);
    if entries.len() > 0 {
        what_can_be_spelt_is_kept_with_its_value(entries.drop_last());
    } else {
        assert(text_entries(entries) =~= entries.filter(|e: (Seq<u8>, T)| valid_utf8(e.0)));
    }
}

/// A map of entries holds every key they name, with the value of the last entry
/// that names it, and no other key.
pub proof fn a_map_holds_the_last_entry_of_a_key<T>(entries: Seq<(Seq<u8>, T)>, i: int, key: Seq<u8>)
    requires
        -1 <= i < entries.len(),
        i >= 0 ==> entries[i].0 == key,
        forall|j: int| i < j < entries.len() ==> (#[trigger] entries[j]).0 != key,
    ensures
        i >= 0 ==> map_of(entries).contains_key(key) && map_of(entries)[key] == entries[i].1,
        i < 0 ==> !map_of(entries).contains_key(key),
    decreases entries.len(),
{
    if entries.len() > 0 && i < entries.len() - 1 {
        let short = entries.drop_last();
        assert(entries[entries.len() - 1].0 != key);
        if i >= 0 {
            assert(short[i] == entries[i]);
        }
        assert forall|j: int| i < j < short.len() implies (#[trigger] short[j]).0 != key by {
            assert(short[j] == entries[j]);
        }
        a_map_holds_the_last_entry_of_a_key(short, i, key);
    }
}

/// A listing of keys with a prefix names exactly those that begin with its bytes,
/// in byte order.
pub proof fn a_prefix_lists_what_begins_with_it(dom: Set<Seq<u8>>, prefix: Seq<u8>)
    requires
        dom.finite(),
    ensures
        in_order(listing(prefixed(dom, prefix)), false),
        forall|key: Seq<u8>| #[trigger]
            listing(prefixed(dom, prefix)).contains(key) <==> dom.contains(key) && prefix.len() <= key.len() && (
            forall|i: int| 0 <= i < prefix.len() ==> key[i] == #[trigger] prefix[i]),
{
    let some = prefixed(dom, prefix);
    vstd::set_lib::lemma_set_subset_finite(dom, some);
    a_finite_set_is_listed(some);
    assert forall|key: Seq<u8>| #[trigger] listing(some).contains(key) <==> dom.contains(key) && prefix.len()
        <= key.len() && (forall|i: int| 0 <= i < prefix.len() ==> key[i] == #[trigger] prefix[i]) by {
        assert(some.contains(key) <==> listing(some).contains(key));
        if prefix.len() <= key.len() {
            let head = key.take(prefix.len() as int);
            if head == prefix {
                assert forall|i: int| 0 <= i < prefix.len() implies key[i] == #[trigger] prefix[i] by {
                    assert(head[i] == prefix[i]);
                }
            }
            if forall|i: int| 0 <= i < prefix.len() ==> key[i] == #[trigger] prefix[i] {
                assert(head =~= prefix);
            }
        }
    }
}

/// An eager locker lists exactly what it holds of a range, in byte order, each
/// key with its own value.
pub proof fn an_eager_listing_gives_what_is_held<T: Value>(l: Locker<T>, span: Span)
    requires
        l.values@.dom().finite(),
    ensures
        forall|i: int, j: int|
            0 <= i < j < l.entries_within(span).len() ==> before(
                (#[trigger] l.entries_within(span)[i]).0,
                (#[trigger] l.entries_within(span)[j]).0,
            ),
        forall|i: int|
            0 <= i < l.entries_within(span).len() ==> span.contains((#[trigger] l.entries_within(span)[i]).0)
                && l.values@.contains_key(l.entries_within(span)[i].0) && l.values@[l.entries_within(span)[i].0]
                == l.entries_within(span)[i].1,
        forall|key: Seq<u8>|
            span.contains(key) && #[trigger] l.values@.contains_key(key) ==> exists|i: int|
                0 <= i < l.entries_within(span).len() && (#[trigger] l.entries_within(span)[i]) == (
                    key,
                    l.values@[key],
                ),
{
    let dom = within(l.values@.dom(), span);
    vstd::set_lib::lemma_set_subset_finite(l.values@.dom(), dom);
    a_finite_set_is_listed(dom);
    let keys = listing(dom);
    let all = l.entries_within(span);
    assert forall|i: int| 0 <= i < all.len() implies span.contains((#[trigger] all[i]).0) && l.values@.contains_key(
        all[i].0,
    ) && l.values@[all[i].0] == all[i].1 by {
        assert(keys.contains(keys[i]));
        assert(dom.contains(keys[i]));
    }
    assert forall|key: Seq<u8>| span.contains(key) && #[trigger] l.values@.contains_key(key) implies exists|i: int|
        0 <= i < all.len() && (#[trigger] all[i]) == (key, l.values@[key]) by {
        assert(dom.contains(key));
        let i = keys.index_of(key);
        assert(all[i] == (key, l.values@[key]));
    }
    assert forall|i: int, j: int| 0 <= i < j < all.len() implies before(
        (#[trigger] all[i]).0,
        (#[trigger] all[j]).0,
    ) by {
        assert(before(keys[i], keys[j]));
    }
}

/// What a bound lets through: an included end lets through itself and what lies
/// on the range's side of it, an excluded one only the latter, and no bound
/// everything.
pub proof fn a_range_holds_what_lies_between_its_bounds(span: Span, key: Seq<u8>)
    ensures
        span.contains(key) <==> (match span.start {
            Bound::Unbounded => true,
            Bound::Included(s) => key == s || before(s, key),
            Bound::Excluded(s) => key != s && !before(key, s),
        }) && (match span.end {
            Bound::Unbounded => true,
            Bound::Included(e) => key == e || before(key, e),
            Bound::Excluded(e) => key != e && !before(e, key),
        }),
{
    before_is_irreflexive(key);
    match span.start {
        Bound::Unbounded => {},
        Bound::Included(s) => one_way_or_the_other(s, key),
        Bound::Excluded(s) => one_way_or_the_other(s, key),
    }
    match span.end {
        Bound::Unbounded => {},
        Bound::Included(e) => one_way_or_the_other(e, key),
        Bound::Excluded(e) => one_way_or_the_other(e, key),
    }
}

/// Two strings are equal, or one comes before the other and not after it.
proof fn one_way_or_the_other(a: Seq<u8>, b: Seq<u8>)
    ensures
        a == b || before(a, b) || before(b, a),
        before(a, b) ==> !before(b, a),
{
    before_is_total(a, b);
    if before(a, b) {
        before_is_asymmetric(a, b);
    }
}

/// Byte order is decided at the first place where two strings differ, and a
/// string comes before its own continuations.
pub proof fn byte_order_is_decided_at_the_first_difference(a: Seq<u8>, b: Seq<u8>, n: int)
    requires
        0 <= n <= a.len(),
        n <= b.len(),
        forall|i: int| 0 <= i < n ==> a[i] == #[trigger] b[i],
    ensures
        n < a.len() && n < b.len() && a[n] < b[n] ==> before(a, b) && !before(b, a),
        n == a.len() && n < b.len() ==> before(a, b) && !before(b, a),
        n == a.len() && n == b.len() ==> !before(a, b),
    decreases n,
{
    if n > 0 {
        assert(a[0] == b[0]);
        let x = a.skip(1);
        let y = b.skip(1);
        assert forall|i: int| 0 <= i < n - 1 implies x[i] == #[trigger] y[i] by {
            assert(a[i + 1] == b[i + 1]);
        }
        byte_order_is_decided_at_the_first_difference(x, y, n - 1);
    }
}

/// Entries whose keys can all be spelt are all kept.
proof fn all_are_spelt<T>(entries: Seq<(Seq<u8>, T)>)
    requires
        forall|i: int| 0 <= i < entries.len() ==> valid_utf8((#[trigger] entries[i]).0),
    ensures
        text_entries(entries) == entries,
    decreases entries.len(),
{
    if entries.len() > 0 {
        let short = entries.drop_last();
        assert forall|i: int| 0 <= i < short.len() implies valid_utf8((#[trigger] short[i]).0) by {
            assert(short[i] == entries[i]);
        }
        all_are_spelt(short);
        assert(entries[entries.len() - 1] == entries.last());
        assert(text_entries(entries) =~= entries);
    } else {
        assert(text_entries(entries) =~= entries);
    }
}

/// A listing by text with a limit is the front of the one without: as many entries
/// as the limit lets through, or all of them where there are no more, and the same
/// ones, wherever every key can be spelt.
pub proof fn a_limited_text_listing_is_the_front_of_the_whole<B: Backend, T: Value>(
    l: LazyLocker<T>,
    backend: &B,
    span: Span,
    reverse: bool,
    limit: usize,
    whole: Vec<(String, T)>,
    some: Vec<(String, T)>,
)
    requires
        backend.store().is_finite(),
        super::lazy::text_listing(
            &l,
            backend,
            l.keys_shown(backend, span, reverse, None),
            Ok::<Vec<(String, T)>, Error>(whole),
        ),
        super::lazy::text_listing(
            &l,
            backend,
            l.keys_shown(backend, span, reverse, Some(limit)),
            Ok::<Vec<(String, T)>, Error>(some),
        ),
        forall|i: int|
            0 <= i < l.keys_shown(backend, span, reverse, None).len() ==> valid_utf8(
                #[trigger] l.keys_shown(backend, span, reverse, None)[i],
            ),
    ensures
        some@.len() == if whole@.len() <= limit {
            whole@.len()
        } else {
            limit as nat
        },
        forall|i: int|
            0 <= i < some@.len() ==> encode_utf8((#[trigger] some@[i]).0@) == encode_utf8(whole@[i].0@)
                && some@[i].1.payload() == whole@[i].1.payload(),
        forall|i: int, j: int|
            0 <= i < j < whole@.len() ==> if reverse {
                before(encode_utf8((#[trigger] whole@[j]).0@), encode_utf8((#[trigger] whole@[i]).0@))
            } else {
                before(encode_utf8(whole@[i].0@), encode_utf8(whole@[j].0@))
            },
{
    let list = moves(l.res.staged@);
    let all_keys = l.keys_shown(backend, span, reverse, None);
    let some_keys = l.keys_shown(backend, span, reverse, Some(limit));
    let raw_whole = choose|raw: Result<Vec<(Vec<u8>, T)>>|
        {
            &&& #[trigger] listing_answers(&l.res.inner, backend, list, all_keys, raw)
            &&& match raw {
                Ok(entries) => by_text(whole@) == text_entries(by_bytes(entries@)),
                Err(e) => false,
            }
        };
    let raw_some = choose|raw: Result<Vec<(Vec<u8>, T)>>|
        {
            &&& #[trigger] listing_answers(&l.res.inner, backend, list, some_keys, raw)
            &&& match raw {
                Ok(entries) => by_text(some@) == text_entries(by_bytes(entries@)),
                Err(e) => false,
            }
        };
    let a = raw_whole->Ok_0;
    let b = raw_some->Ok_0;
    a_limited_listing_is_the_front_of_the_whole(l, backend, span, reverse, limit, a, b);
    assert forall|i: int| 0 <= i < by_bytes(a@).len() implies valid_utf8((#[trigger] by_bytes(a@)[i]).0) by {
        assert(a@[i].0@ == all_keys[i]);
    }
    assert forall|i: int| 0 <= i < by_bytes(b@).len() implies valid_utf8((#[trigger] by_bytes(b@)[i]).0) by {
        assert(b@[i].0@ == a@[i].0@);
        assert(a@[i].0@ == all_keys[i]);
    }
    all_are_spelt(by_bytes(a@));
    all_are_spelt(by_bytes(b@));
    assert(by_text(whole@) == by_bytes(a@));
    assert(by_text(some@) == by_bytes(b@));
    assert forall|i: int| 0 <= i < some@.len() implies encode_utf8((#[trigger] some@[i]).0@) == encode_utf8(
        whole@[i].0@,
    ) && some@[i].1.payload() == whole@[i].1.payload() by {
        assert(by_text(some@)[i] == by_bytes(b@)[i]);
        assert(by_text(whole@)[i] == by_bytes(a@)[i]);
        assert(b@[i].0@ == a@[i].0@);
    }
    assert forall|i: int, j: int| 0 <= i < j < whole@.len() implies if reverse {
        before(encode_utf8((#[trigger] whole@[j]).0@), encode_utf8((#[trigger] whole@[i]).0@))
    } else {
        before(encode_utf8(whole@[i].0@), encode_utf8(whole@[j].0@))
    } by {
        assert(by_text(whole@)[i] == by_bytes(a@)[i]);
        assert(by_text(whole@)[j] == by_bytes(a@)[j]);
        assert(a@[i].0@ == by_bytes(a@)[i].0 && a@[j].0@ == by_bytes(a@)[j].0);
    }
}

} // verus!
