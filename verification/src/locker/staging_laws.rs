//! What a list of writes comes to, told by the places of its writes: the last
//! one that bears on a key decides what the key reads as, whether it is listed,
//! what it is charged and whether it is struck off, and a key that none bears
//! on stays as it was.

use vstd::prelude::*;

use super::batch::{
    all_told, indexed, keys_but, reads, removed, staged_bytes, updates_but, weighed, wipes, Move,
};
use super::eager::applied;
use crate::watch::News;

verus! {

/// Whether a write bears on a key: it names it, or clears everything.
pub open spec fn bears_on(m: Move, key: Seq<u8>) -> bool {
    match m {
        Move::Put { key: k, .. } => k == key,
        Move::Delete { key: k } => k == key,
        Move::Clear => true,
    }
}

/// Whether the write at a place is the last of a list that bears on a key.
pub open spec fn decides(list: Seq<Move>, i: int, key: Seq<u8>) -> bool {
    &&& 0 <= i < list.len()
    &&& bears_on(list[i], key)
    &&& forall|j: int| i < j < list.len() ==> !bears_on(#[trigger] list[j], key)
}

/// Leaving one key out of some updates leaves the others where they were.
proof fn the_other_updates_stay(updates: Seq<(Seq<u8>, u64)>, gone: Seq<u8>, u: (Seq<u8>, u64))
    ensures
        updates_but(updates, gone).contains(u) <==> updates.contains(u) && u.0 != gone,
    decreases updates.len(),
{
    if updates.len() > 0 {
        let short = updates.drop_last();
        let rest = updates_but(short, gone);
        let all = updates_but(updates, gone);
        the_other_updates_stay(short, gone, u);
        if updates.contains(u) {
            let i = updates.index_of(u);
            if i < short.len() {
                assert(short[i] == u);
            }
        }
        if short.contains(u) {
            let i = short.index_of(u);
            assert(updates[i] == u);
        }
        assert(updates[updates.len() - 1] == updates.last());
        if updates.last().0 != gone {
            assert(all == rest.push(updates.last()));
            assert(all[rest.len() as int] == updates.last());
            if rest.contains(u) {
                let i = rest.index_of(u);
                assert(all[i] == u);
            }
            if all.contains(u) {
                let i = all.index_of(u);
                if i < rest.len() {
                    assert(rest[i] == u);
                }
            }
        }
    }
}

/// Leaving one key out of some keys leaves the others where they were.
proof fn the_other_keys_stay(keys: Seq<Seq<u8>>, gone: Seq<u8>, k: Seq<u8>)
    ensures
        keys_but(keys, gone).contains(k) <==> keys.contains(k) && k != gone,
    decreases keys.len(),
{
    if keys.len() > 0 {
        let short = keys.drop_last();
        let rest = keys_but(short, gone);
        let all = keys_but(keys, gone);
        the_other_keys_stay(short, gone, k);
        if keys.contains(k) {
            let i = keys.index_of(k);
            if i < short.len() {
                assert(short[i] == k);
            }
        }
        if short.contains(k) {
            let i = short.index_of(k);
            assert(keys[i] == k);
        }
        assert(keys[keys.len() - 1] == keys.last());
        if keys.last() != gone {
            assert(all == rest.push(keys.last()));
            assert(all[rest.len() as int] == keys.last());
            if rest.contains(k) {
                let i = rest.index_of(k);
                assert(all[i] == k);
            }
            if all.contains(k) {
                let i = all.index_of(k);
                if i < rest.len() {
                    assert(rest[i] == k);
                }
            }
        }
    }
}

/// One more element of a sequence.
proof fn one_more_element<A>(s: Seq<A>, a: A, x: A)
    ensures
        s.push(a).contains(x) <==> s.contains(x) || x == a,
{
    let all = s.push(a);
    assert(all[s.len() as int] == a);
    if s.contains(x) {
        let i = s.index_of(x);
        assert(all[i] == x);
    }
    if all.contains(x) {
        let i = all.index_of(x);
        if i < s.len() {
            assert(s[i] == x);
        }
    }
}

/// What one more write does to what a list charges and strikes off.
proof fn one_more_write(list: Seq<Move>, u: (Seq<u8>, u64), k: Seq<u8>)
    requires
        list.len() > 0,
    ensures
        weighed(list).contains(u) <==> match list.last() {
            Move::Put { key, payload } => u == (key, payload.len() as u64) || (weighed(list.drop_last()).contains(u)
                && u.0 != key),
            Move::Delete { key } => weighed(list.drop_last()).contains(u) && u.0 != key,
            Move::Clear => false,
        },
        removed(list).contains(k) <==> match list.last() {
            Move::Put { key, .. } => removed(list.drop_last()).contains(k) && k != key,
            Move::Delete { key } => k == key || (removed(list.drop_last()).contains(k) && k != key),
            Move::Clear => false,
        },
{
    let w = weighed(list.drop_last());
    let d = removed(list.drop_last());
    match list.last() {
        Move::Put { key, payload } => {
            the_other_updates_stay(w, key, u);
            one_more_element(updates_but(w, key), (key, payload.len() as u64), u);
            the_other_keys_stay(d, key, k);
        },
        Move::Delete { key } => {
            the_other_updates_stay(w, key, u);
            the_other_keys_stay(d, key, k);
            one_more_element(keys_but(d, key), key, k);
        },
        Move::Clear => {},
    }
}

/// The last write of a list that bears on a key decides: a put leaves the key
/// with its payload, listed, and charged for exactly that payload; a delete or a
/// clear leaves it with nothing, unlisted and uncharged, and only a delete
/// strikes it off by name.
pub proof fn the_last_write_of_a_key_decides(list: Seq<Move>, i: int, key: Seq<u8>, keys: Set<Seq<u8>>, bytes: u64)
    requires
        decides(list, i, key),
    ensures
        reads(list, key) == Some(
            match list[i] {
                Move::Put { payload, .. } => Some(payload),
                _ => None,
            },
        ),
        indexed(keys, list).contains(key) <==> list[i] is Put,
        weighed(list).contains((key, bytes)) <==> (list[i] matches Move::Put { payload, .. } && bytes
            == payload.len() as u64),
        removed(list).contains(key) <==> list[i] is Delete,
    decreases list.len(),
{
    let short = list.drop_last();
    one_more_write(list, (key, bytes), key);
    if i < list.len() - 1 {
        assert(!bears_on(list[list.len() - 1], key));
        assert(short[i] == list[i]);
        assert forall|j: int| i < j < short.len() implies !bears_on(#[trigger] short[j], key) by {
            assert(short[j] == list[j]);
        }
        the_last_write_of_a_key_decides(short, i, key, keys, bytes);
    } else if list.last() is Delete {
        // What was charged for the key before is struck.
        assert((key, bytes).0 == key);
    }
}

/// A key that no write of a list bears on reads, is listed, charged and struck
/// off as if there were no list.
pub proof fn what_no_write_bears_on_is_left_alone(list: Seq<Move>, key: Seq<u8>, keys: Set<Seq<u8>>, bytes: u64)
    requires
        forall|j: int| 0 <= j < list.len() ==> !bears_on(#[trigger] list[j], key),
    ensures
        reads(list, key) is None,
        indexed(keys, list).contains(key) <==> keys.contains(key),
        !weighed(list).contains((key, bytes)),
        !removed(list).contains(key),
    decreases list.len(),
{
    if list.len() > 0 {
        let short = list.drop_last();
        assert(!bears_on(list[list.len() - 1], key));
        assert forall|j: int| 0 <= j < short.len() implies !bears_on(#[trigger] short[j], key) by {
            assert(short[j] == list[j]);
        }
        what_no_write_bears_on_is_left_alone(short, key, keys, bytes);
        one_more_write(list, (key, bytes), key);
    }
}

/// Either some write of a list is the last to bear on a key, or none bears on it.
pub proof fn some_write_decides_or_none(list: Seq<Move>, key: Seq<u8>) -> (i: int)
    ensures
        decides(list, i, key) || (i < 0 && forall|j: int| 0 <= j < list.len() ==> !bears_on(#[trigger] list[j], key)),
    decreases list.len(),
{
    if list.len() == 0 {
        -1
    } else if bears_on(list.last(), key) {
        list.len() - 1
    } else {
        let short = list.drop_last();
        let i = some_write_decides_or_none(short, key);
        if i >= 0 {
            assert(list[i] == short[i]);
        }
        assert forall|j: int| 0 <= j && i < j < list.len() implies !bears_on(
            #[trigger] list[j],
            key,
        ) by {
            if j < short.len() {
                assert(list[j] == short[j]);
            }
        }
        i
    }
}

/// A list wipes what was there before it exactly where it holds a clear.
pub proof fn a_list_wipes_where_it_clears(list: Seq<Move>)
    ensures
        wipes(list) <==> exists|i: int| 0 <= i < list.len() && (#[trigger] list[i]) is Clear,
    decreases list.len(),
{
    if list.len() > 0 {
        let short = list.drop_last();
        a_list_wipes_where_it_clears(short);
        if wipes(short) {
            let i = choose|i: int| 0 <= i < short.len() && (#[trigger] short[i]) is Clear;
            assert(list[i] is Clear);
        }
        if list.last() is Clear {
            assert(list[list.len() - 1] is Clear);
        }
        if exists|i: int| 0 <= i < list.len() && (#[trigger] list[i]) is Clear {
            let i = choose|i: int| 0 <= i < list.len() && (#[trigger] list[i]) is Clear;
            if i < short.len() {
                assert(short[i] is Clear);
            }
        }
    }
}

/// What a list leaves in memory is what its last writes say: a key whose last
/// write is a put holds that payload, one that was deleted or cleared away holds
/// nothing, and one that none bears on holds what it held.
pub proof fn what_is_held_follows_the_last_writes(before: Map<Seq<u8>, Seq<u8>>, list: Seq<Move>, i: int, key: Seq<u8>)
    requires
        decides(list, i, key) || (i < 0 && forall|j: int| 0 <= j < list.len() ==> !bears_on(#[trigger] list[j], key)),
    ensures
        i >= 0 ==> match list[i] {
            Move::Put { payload, .. } => applied(before, list).contains_key(key) && applied(before, list)[key]
                == payload,
            _ => !applied(before, list).contains_key(key),
        },
        i < 0 ==> (applied(before, list).contains_key(key) <==> before.contains_key(key)) && (before.contains_key(key)
            ==> applied(before, list)[key] == before[key]),
    decreases list.len(),
{
    if list.len() > 0 {
        let short = list.drop_last();
        if i < list.len() - 1 {
            assert(!bears_on(list[list.len() - 1], key));
            if i >= 0 {
                assert(short[i] == list[i]);
            }
            assert forall|j: int| 0 <= j && i < j < short.len() implies !bears_on(
                #[trigger] short[j],
                key,
            ) by {
                assert(short[j] == list[j]);
            }
            what_is_held_follows_the_last_writes(before, short, i, key);
        }
    }
}

/// Watchers are told of every write of a list, one event for each, in order, of
/// its own sort and its own key.
pub proof fn every_write_is_told(list: Seq<Move>, i: int)
    requires
        0 <= i < list.len(),
    ensures
        all_told(list).len() == list.len(),
        match list[i] {
            Move::Put { key, .. } => all_told(list)[i] == (News::Put { key }),
            Move::Delete { key } => all_told(list)[i] == (News::Deleted { key }),
            Move::Clear => all_told(list)[i] == News::Cleared,
        },
{
}

/// The payload bytes of two lists in a row are those of both, and a list of one
/// write has those of its payload, where it has one.
pub proof fn staged_bytes_add_up(older: Seq<Move>, newer: Seq<Move>, m: Move)
    ensures
        staged_bytes(older + newer) == staged_bytes(older) + staged_bytes(newer),
        staged_bytes(seq![m]) == match m {
            Move::Put { payload, .. } => payload.len(),
            _ => 0,
        },
        staged_bytes(Seq::empty()) == 0,
    decreases newer.len(),
{
    reveal_with_fuel(staged_bytes, 2);
    assert(seq![m].drop_last() =~= Seq::<Move>::empty());
    if newer.len() == 0 {
        assert(older + newer =~= older);
    } else {
        staged_bytes_add_up(older, newer.drop_last(), m);
        assert((older + newer).drop_last() =~= older + newer.drop_last());
        assert((older + newer).last() == newer.last());
    }
}

} // verus!
