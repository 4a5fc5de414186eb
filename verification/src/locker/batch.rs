//! A list of writes waiting for one commit: what it adds up to, how one key
//! reads through it, and what it does to a key index and a byte budget.

use vstd::prelude::*;

use crate::bytes::{copy, same};
use crate::sorted::{views, ByteMap};
use crate::watch::{Event, News};

verus! {

/// One write waiting for a commit.
///
/// Payload bytes rather than a value: encoding happens when the write is
/// staged, so a flush is pure I/O and no user code can run inside it.
#[derive(Debug)]
pub enum Pending {
    Put { key: Vec<u8>, payload: Vec<u8> },
    Delete { key: Vec<u8> },
    Clear,
}

/// One write waiting for a commit, as mathematics.
#[verifier::ext_equal]
pub enum Move {
    Put { key: Seq<u8>, payload: Seq<u8> },
    Delete { key: Seq<u8> },
    Clear,
}

impl View for Pending {
    type V = Move;

    open spec fn view(&self) -> Move {
        match *self {
            Pending::Put { key, payload } => Move::Put { key: key@, payload: payload@ },
            Pending::Delete { key } => Move::Delete { key: key@ },
            Pending::Clear => Move::Clear,
        }
    }
}

/// The writes of a list, in order.
pub open spec fn moves(list: Seq<Pending>) -> Seq<Move> {
    Seq::new(list.len(), |i: int| list[i]@)
}

/// Whether a list holds a clear.
pub open spec fn wipes(list: Seq<Move>) -> bool
    decreases list.len(),
{
    if list.len() == 0 {
        false
    } else {
        list.last() is Clear || wipes(list.drop_last())
    }
}

/// What a list leaves each key it names since its last clear with: a payload,
/// or nothing.
pub open spec fn latest(list: Seq<Move>) -> Map<Seq<u8>, Option<Seq<u8>>>
    decreases list.len(),
{
    if list.len() == 0 {
        Map::empty()
    } else {
        match list.last() {
            Move::Put { key, payload } => latest(list.drop_last()).insert(key, Some(payload)),
            Move::Delete { key } => latest(list.drop_last()).insert(key, None),
            Move::Clear => Map::empty(),
        }
    }
}

/// How a key reads through a list: not at all, as nothing, or as a payload.
pub open spec fn reads(list: Seq<Move>, key: Seq<u8>) -> Option<Option<Seq<u8>>> {
    if latest(list).contains_key(key) {
        Some(latest(list)[key])
    } else if wipes(list) {
        Some(None)
    } else {
        None
    }
}

/// The later of two lists has the last word on every key it touches.
pub proof fn later_writes_win(older: Seq<Move>, newer: Seq<Move>, key: Seq<u8>)
    ensures
        reads(older + newer, key) == match reads(newer, key) {
            Some(answer) => Some(answer),
            None => reads(older, key),
        },
    decreases newer.len(),
{
    let all = older + newer;
    if newer.len() == 0 {
        assert(all =~= older);
    } else {
        assert(all.drop_last() =~= older + newer.drop_last());
        assert(all.last() == newer.last());
        later_writes_win(older, newer.drop_last(), key);
    }
}

/// A list's own last write of a key is what the key reads as.
pub proof fn a_staged_write_is_read(list: Seq<Move>, last: Move, key: Seq<u8>)
    ensures
        reads(list.push(last), key) == match last {
            Move::Put { key: k, payload } => if k == key {
                Some(Some(payload))
            } else {
                reads(list, key)
            },
            Move::Delete { key: k } => if k == key {
                Some(None)
            } else {
                reads(list, key)
            },
            Move::Clear => Some(None),
        },
{
    assert(list.push(last).drop_last() =~= list);
}

/// The set of keys an index holds once a list is applied to it.
pub open spec fn indexed(keys: Set<Seq<u8>>, list: Seq<Move>) -> Set<Seq<u8>>
    decreases list.len(),
{
    if list.len() == 0 {
        keys
    } else {
        match list.last() {
            Move::Put { key, .. } => indexed(keys, list.drop_last()).insert(key),
            Move::Delete { key } => indexed(keys, list.drop_last()).remove(key),
            Move::Clear => Set::empty(),
        }
    }
}

/// What watchers are told of a write.
pub open spec fn told(m: Move) -> News {
    match m {
        Move::Put { key, .. } => News::Put { key },
        Move::Delete { key } => News::Deleted { key },
        Move::Clear => News::Cleared,
    }
}

/// What watchers are told of a list.
pub open spec fn all_told(list: Seq<Move>) -> Seq<News> {
    Seq::new(list.len(), |i: int| told(list[i]))
}

/// Some updates without those of one key.
pub open spec fn updates_but(updates: Seq<(Seq<u8>, u64)>, key: Seq<u8>) -> Seq<(Seq<u8>, u64)>
    decreases updates.len(),
{
    if updates.len() == 0 {
        Seq::empty()
    } else {
        let rest = updates_but(updates.drop_last(), key);
        if updates.last().0 == key {
            rest
        } else {
            rest.push(updates.last())
        }
    }
}

/// Some keys without one.
pub open spec fn keys_but(keys: Seq<Seq<u8>>, key: Seq<u8>) -> Seq<Seq<u8>>
    decreases keys.len(),
{
    if keys.len() == 0 {
        Seq::empty()
    } else {
        let rest = keys_but(keys.drop_last(), key);
        if keys.last() == key {
            rest
        } else {
            rest.push(keys.last())
        }
    }
}

/// The keys a list writes, with what they weigh: each where its last write
/// stands.
pub open spec fn weighed(list: Seq<Move>) -> Seq<(Seq<u8>, u64)>
    decreases list.len(),
{
    if list.len() == 0 {
        Seq::empty()
    } else {
        let so_far = weighed(list.drop_last());
        match list.last() {
            Move::Put { key, payload } => updates_but(so_far, key).push((key, payload.len() as u64)),
            Move::Delete { key } => updates_but(so_far, key),
            Move::Clear => Seq::empty(),
        }
    }
}

/// The keys a list removes, each where its last removal stands.
pub open spec fn removed(list: Seq<Move>) -> Seq<Seq<u8>>
    decreases list.len(),
{
    if list.len() == 0 {
        Seq::empty()
    } else {
        let so_far = removed(list.drop_last());
        match list.last() {
            Move::Put { key, .. } => keys_but(so_far, key),
            Move::Delete { key } => keys_but(so_far, key).push(key),
            Move::Clear => Seq::empty(),
        }
    }
}

/// The keys of some updates.
pub open spec fn names_of(updates: Seq<(Seq<u8>, u64)>) -> Seq<Seq<u8>> {
    Seq::new(updates.len(), |i: int| updates[i].0)
}

/// The updates a vector holds.
pub open spec fn sizes(updates: Seq<(Vec<u8>, u64)>) -> Seq<(Seq<u8>, u64)> {
    Seq::new(updates.len(), |i: int| (updates[i].0@, updates[i].1))
}

/// The payload bytes of a list.
pub open spec fn staged_bytes(list: Seq<Move>) -> nat
    decreases list.len(),
{
    if list.len() == 0 {
        0
    } else {
        staged_bytes(list.drop_last()) + match list.last() {
            Move::Put { payload, .. } => payload.len(),
            _ => 0,
        }
    }
}

proof fn one_further(list: Seq<Pending>, i: int)
    requires
        0 <= i < list.len(),
    ensures
        moves(list).take(i + 1).drop_last() == moves(list).take(i),
        moves(list).take(i + 1).last() == list[i]@,
        moves(list).take(i + 1) == moves(list).take(i).push(list[i]@),
{
    assert(moves(list).take(i + 1).drop_last() =~= moves(list).take(i));
    assert(moves(list).take(i + 1) =~= moves(list).take(i).push(list[i]@));
}

proof fn to_the_end(list: Seq<Pending>)
    ensures
        moves(list).take(list.len() as int) == moves(list),
        moves(list).take(0).len() == 0,
{
    assert(moves(list).take(list.len() as int) =~= moves(list));
}

impl Pending {
    /// Another one like it.
    pub fn copied(&self) -> (p: Pending)
        ensures
            p@ == self@,
    {
        match self {
            Pending::Put { key, payload } => Pending::Put {
                key: copy(key.as_slice()),
                payload: copy(payload.as_slice()),
            },
            Pending::Delete { key } => Pending::Delete { key: copy(key.as_slice()) },
            Pending::Clear => Pending::Clear,
        }
    }

    /// What watchers are told of it.
    pub fn event(&self) -> (e: Event)
        ensures
            e@ == told(self@),
    {
        match self {
            Pending::Put { key, .. } => Event::Put { key: copy(key.as_slice()) },
            Pending::Delete { key } => Event::Deleted { key: copy(key.as_slice()) },
            Pending::Clear => Event::Cleared,
        }
    }
}

/// The staged payload for a key: `None` when nothing staged has touched it,
/// `Some(None)` when the last thing staged removed it.
pub fn staged_view(entries: &Vec<Pending>, key: &[u8]) -> (r: Option<Option<Vec<u8>>>)
    ensures
        match r {
            None => reads(moves(entries@), key@) is None,
            Some(None) => reads(moves(entries@), key@) == Some(None::<Seq<u8>>),
            Some(Some(payload)) => reads(moves(entries@), key@) == Some(Some(payload@)),
        },
{
    let ghost list = moves(entries@);
    let mut n: usize = entries.len();
    proof {
        to_the_end(entries@);
    }
    // Later entries win, so scan backwards and stop at the first hit.
    while n > 0
        invariant
            n <= entries@.len(),
            list == moves(entries@),
            reads(list, key@) == reads(list.take(n as int), key@),
        decreases n,
    {
        n -= 1;
        proof {
            one_further(entries@, n as int);
            a_staged_write_is_read(list.take(n as int), list[n as int], key@);
        }
        match &entries[n] {
            Pending::Put { key: k, payload } => {
                if same(k.as_slice(), key) {
                    return Some(Some(copy(payload.as_slice())));
                }
            },
            Pending::Delete { key: k } => {
                if same(k.as_slice(), key) {
                    return Some(None);
                }
            },
            Pending::Clear => {
                return Some(None);
            },
        }
    }
    assert(list.take(0).len() == 0);
    None
}

/// What a batch leaves each key with, and whether it cleared everything
/// before.
pub fn collapse(entries: &Vec<Pending>) -> (r: (bool, ByteMap<Option<Vec<u8>>>))
    ensures
        r.0 == wipes(moves(entries@)),
        payloads(r.1@) == latest(moves(entries@)),
{
    let ghost list = moves(entries@);
    let mut cleared: bool = false;
    let mut last: ByteMap<Option<Vec<u8>>> = ByteMap::new();
    let mut i: usize = 0;
    proof {
        to_the_end(entries@);
        assert(payloads(last@) =~= latest(list.take(0)));
    }
    while i < entries.len()
        invariant
            i <= entries@.len(),
            list == moves(entries@),
            cleared == wipes(list.take(i as int)),
            payloads(last@) == latest(list.take(i as int)),
        decreases entries.len() - i,
    {
        let ghost was = last@;
        proof {
            one_further(entries@, i as int);
        }
        match &entries[i] {
            Pending::Put { key, payload } => {
                last.insert(copy(key.as_slice()), Some(copy(payload.as_slice())));
                assert(payloads(last@) =~= payloads(was).insert(key@, Some(payload@)));
            },
            Pending::Delete { key } => {
                last.insert(copy(key.as_slice()), None);
                assert(payloads(last@) =~= payloads(was).insert(key@, None));
            },
            Pending::Clear => {
                last.clear();
                cleared = true;
                assert(payloads(last@) =~= Map::<Seq<u8>, Option<Seq<u8>>>::empty());
            },
        }
        i += 1;
    }
    proof {
        to_the_end(entries@);
    }
    (cleared, last)
}

/// The payloads of a map, as mathematics.
pub open spec fn payloads(map: Map<Seq<u8>, Option<Vec<u8>>>) -> Map<Seq<u8>, Option<Seq<u8>>> {
    map.map_values(
        |v: Option<Vec<u8>>|
            match v {
                Some(b) => Some(b@),
                None => None::<Seq<u8>>,
            },
    )
}

/// Apply a batch to a key index.
pub fn apply_to_index(index: &mut ByteMap<()>, entries: &Vec<Pending>)
    ensures
        final(index)@.dom() == indexed(old(index)@.dom(), moves(entries@)),
{
    let ghost list = moves(entries@);
    let mut i: usize = 0;
    proof {
        to_the_end(entries@);
    }
    while i < entries.len()
        invariant
            i <= entries@.len(),
            list == moves(entries@),
            index@.dom() == indexed(old(index)@.dom(), list.take(i as int)),
        decreases entries.len() - i,
    {
        let ghost was = index@.dom();
        proof {
            one_further(entries@, i as int);
        }
        match &entries[i] {
            Pending::Put { key, .. } => {
                index.insert(copy(key.as_slice()), ());
                assert(index@.dom() =~= was.insert(key@));
            },
            Pending::Delete { key } => {
                index.remove(key.as_slice());
                assert(index@.dom() =~= was.remove(key@));
            },
            Pending::Clear => {
                index.clear();
                assert(index@.dom() =~= Set::<Seq<u8>>::empty());
            },
        }
        i += 1;
    }
    proof {
        to_the_end(entries@);
    }
}

/// Drop the updates of one key.
fn drop_updates(updates: Vec<(Vec<u8>, u64)>, key: &[u8]) -> (kept: Vec<(Vec<u8>, u64)>)
    ensures
        sizes(kept@) == updates_but(sizes(updates@), key@),
{
    let ghost all = sizes(updates@);
    let mut kept: Vec<(Vec<u8>, u64)> = Vec::new();
    let mut i: usize = 0;
    assert(sizes(kept@) =~= updates_but(all.take(0), key@));
    while i < updates.len()
        invariant
            i <= updates@.len(),
            all == sizes(updates@),
            sizes(kept@) == updates_but(all.take(i as int), key@),
        decreases updates.len() - i,
    {
        let ghost was = kept@;
        assert(all.take(i + 1).drop_last() =~= all.take(i as int));
        assert(all.take(i + 1).last() == (updates@[i as int].0@, updates@[i as int].1));
        if !same(updates[i].0.as_slice(), key) {
            kept.push((copy(updates[i].0.as_slice()), updates[i].1));
            assert(sizes(kept@) =~= sizes(was).push(all[i as int]));
        }
        i += 1;
    }
    assert(all.take(updates@.len() as int) =~= all);
    kept
}

/// Drop every copy of one key.
fn drop_key(keys: Vec<Vec<u8>>, key: &[u8]) -> (kept: Vec<Vec<u8>>)
    ensures
        views(kept@) == keys_but(views(keys@), key@),
{
    let ghost all = views(keys@);
    let mut kept: Vec<Vec<u8>> = Vec::new();
    let mut i: usize = 0;
    assert(views(kept@) =~= keys_but(all.take(0), key@));
    while i < keys.len()
        invariant
            i <= keys@.len(),
            all == views(keys@),
            views(kept@) == keys_but(all.take(i as int), key@),
        decreases keys.len() - i,
    {
        let ghost was = kept@;
        assert(all.take(i + 1).drop_last() =~= all.take(i as int));
        assert(all.take(i + 1).last() == keys@[i as int]@);
        if !same(keys[i].as_slice(), key) {
            kept.push(copy(keys[i].as_slice()));
            assert(views(kept@) =~= views(was).push(all[i as int]));
        }
        i += 1;
    }
    assert(all.take(keys@.len() as int) =~= all);
    kept
}

/// What a batch of staged writes does to the byte budget, collapsed: keys
/// written with their payload sizes, keys removed, and whether anything before
/// was cleared.
pub fn accounting(entries: &Vec<Pending>) -> (r: (Vec<(Vec<u8>, u64)>, Vec<Vec<u8>>, bool))
    ensures
        sizes(r.0@) == weighed(moves(entries@)),
        views(r.1@) == removed(moves(entries@)),
        r.2 == wipes(moves(entries@)),
{
    let ghost list = moves(entries@);
    let mut updates: Vec<(Vec<u8>, u64)> = Vec::new();
    let mut removals: Vec<Vec<u8>> = Vec::new();
    let mut cleared: bool = false;
    let mut i: usize = 0;
    proof {
        to_the_end(entries@);
        assert(sizes(updates@) =~= weighed(list.take(0)));
        assert(views(removals@) =~= removed(list.take(0)));
    }
    while i < entries.len()
        invariant
            i <= entries@.len(),
            list == moves(entries@),
            sizes(updates@) == weighed(list.take(i as int)),
            views(removals@) == removed(list.take(i as int)),
            cleared == wipes(list.take(i as int)),
        decreases entries.len() - i,
    {
        proof {
            one_further(entries@, i as int);
        }
        match &entries[i] {
            Pending::Put { key, payload } => {
                updates = drop_updates(updates, key.as_slice());
                removals = drop_key(removals, key.as_slice());
                let ghost was = updates@;
                updates.push((copy(key.as_slice()), payload.len() as u64));
                assert(sizes(updates@) =~= sizes(was).push((key@, payload@.len() as u64)));
            },
            Pending::Delete { key } => {
                updates = drop_updates(updates, key.as_slice());
                removals = drop_key(removals, key.as_slice());
                let ghost was = removals@;
                removals.push(copy(key.as_slice()));
                assert(views(removals@) =~= views(was).push(key@));
            },
            Pending::Clear => {
                updates = Vec::new();
                removals = Vec::new();
                cleared = true;
                assert(sizes(updates@) =~= Seq::<(Seq<u8>, u64)>::empty());
                assert(views(removals@) =~= Seq::<Seq<u8>>::empty());
            },
        }
        i += 1;
    }
    proof {
        to_the_end(entries@);
    }
    (updates, removals, cleared)
}

/// What is left without a key holds what it held, but for that key.
proof fn a_key_is_left_out(keys: Seq<Seq<u8>>, key: Seq<u8>)
    ensures
        forall|k: Seq<u8>| #[trigger] keys_but(keys, key).contains(k) <==> keys.contains(k) && k != key,
        keys.no_duplicates() ==> keys_but(keys, key).no_duplicates(),
    decreases keys.len(),
{
    if keys.len() > 0 {
        let rest = keys_but(keys.drop_last(), key);
        a_key_is_left_out(keys.drop_last(), key);
        assert(keys =~= keys.drop_last().push(keys.last()));
        assert forall|k: Seq<u8>| keys.contains(k) <==> keys.drop_last().contains(k) || k == keys.last() by {
            if keys.contains(k) {
                let i = keys.index_of(k);
                if i < keys.len() - 1 {
                    assert(keys.drop_last()[i] == k);
                }
            }
            if keys.drop_last().contains(k) {
                let i = keys.drop_last().index_of(k);
                assert(keys[i] == k);
            }
        }
        if keys.last() != key {
            let all = rest.push(keys.last());
            assert forall|k: Seq<u8>| #[trigger] all.contains(k) <==> rest.contains(k) || k == keys.last() by {
                if rest.contains(k) {
                    let i = rest.index_of(k);
                    assert(all[i] == k);
                }
                assert(all[rest.len() as int] == keys.last());
            }
            if keys.no_duplicates() {
                assert(keys.drop_last().no_duplicates());
                assert(!keys.drop_last().contains(keys.last())) by {
                    if keys.drop_last().contains(keys.last()) {
                        let i = keys.drop_last().index_of(keys.last());
                        assert(keys[i] == keys[keys.len() - 1]);
                    }
                }
                assert(!rest.contains(keys.last()));
                assert(all.no_duplicates());
            }
        } else if keys.no_duplicates() {
            assert(keys.drop_last().no_duplicates());
        }
    } else {
        assert(keys_but(keys, key).len() == 0);
    }
}

/// The names of what is left without a key.
proof fn an_update_is_left_out(updates: Seq<(Seq<u8>, u64)>, key: Seq<u8>)
    ensures
        names_of(updates_but(updates, key)) == keys_but(names_of(updates), key),
    decreases updates.len(),
{
    if updates.len() > 0 {
        an_update_is_left_out(updates.drop_last(), key);
        assert(names_of(updates).drop_last() =~= names_of(updates.drop_last()));
        assert(names_of(updates).last() == updates.last().0);
        if updates.last().0 != key {
            let rest = updates_but(updates.drop_last(), key);
            assert(names_of(rest.push(updates.last())) =~= names_of(rest).push(updates.last().0));
        }
    } else {
        assert(names_of(updates_but(updates, key)) =~= keys_but(names_of(updates), key));
    }
}

/// What a batch does is collapsed: a key stands once among those written or
/// once among those removed, never in both, however often the batch names it.
pub proof fn a_batch_names_a_key_once(list: Seq<Move>)
    ensures
        names_of(weighed(list)).no_duplicates(),
        removed(list).no_duplicates(),
        forall|k: Seq<u8>| !(#[trigger] names_of(weighed(list)).contains(k) && removed(list).contains(k)),
    decreases list.len(),
{
    if list.len() > 0 {
        let before = list.drop_last();
        a_batch_names_a_key_once(before);
        let w = weighed(before);
        let d = removed(before);
        match list.last() {
            Move::Put { key, payload } => {
                a_key_is_left_out(names_of(w), key);
                an_update_is_left_out(w, key);
                a_key_is_left_out(d, key);
                let rest = updates_but(w, key);
                let one = (key, payload.len() as u64);
                assert(names_of(rest.push(one)) =~= names_of(rest).push(key));
                one_more_name(names_of(rest), key);
            },
            Move::Delete { key } => {
                a_key_is_left_out(names_of(w), key);
                an_update_is_left_out(w, key);
                a_key_is_left_out(d, key);
                one_more_name(keys_but(d, key), key);
            },
            Move::Clear => {},
        }
    }
}

proof fn one_more_name(keys: Seq<Seq<u8>>, key: Seq<u8>)
    requires
        keys.no_duplicates(),
        !keys.contains(key),
    ensures
        keys.push(key).no_duplicates(),
        forall|k: Seq<u8>| #[trigger] keys.push(key).contains(k) <==> keys.contains(k) || k == key,
{
    let all = keys.push(key);
    assert forall|k: Seq<u8>| #[trigger] all.contains(k) <==> keys.contains(k) || k == key by {
        if keys.contains(k) {
            let i = keys.index_of(k);
            assert(all[i] == k);
        }
        assert(all[keys.len() as int] == key);
    }
}

/// The keys of some updates.
pub fn update_names(updates: &Vec<(Vec<u8>, u64)>) -> (keys: Vec<Vec<u8>>)
    ensures
        views(keys@) == names_of(sizes(updates@)),
{
    let ghost all = names_of(sizes(updates@));
    let mut keys: Vec<Vec<u8>> = Vec::new();
    let mut i: usize = 0;
    assert(views(keys@) =~= all.take(0));
    while i < updates.len()
        invariant
            i <= updates@.len(),
            all == names_of(sizes(updates@)),
            views(keys@) == all.take(i as int),
        decreases updates.len() - i,
    {
        let ghost was = keys@;
        keys.push(copy(updates[i].0.as_slice()));
        assert(views(keys@) =~= views(was).push(all[i as int]));
        assert(all.take(i + 1) =~= all.take(i as int).push(all[i as int]));
        i += 1;
    }
    assert(all.take(updates@.len() as int) =~= all);
    keys
}

/// The payload bytes staged, or the most that can be counted.
pub fn pending_bytes(entries: &Vec<Pending>) -> (n: u64)
    ensures
        n == crate::backend::memory::capped(staged_bytes(moves(entries@))),
{
    let ghost list = moves(entries@);
    let mut total: u64 = 0;
    let mut i: usize = 0;
    proof {
        to_the_end(entries@);
    }
    while i < entries.len()
        invariant
            i <= entries@.len(),
            list == moves(entries@),
            total == crate::backend::memory::capped(staged_bytes(list.take(i as int))),
        decreases entries.len() - i,
    {
        proof {
            one_further(entries@, i as int);
        }
        if let Pending::Put { payload, .. } = &entries[i] {
            total = total.saturating_add(payload.len() as u64);
        }
        i += 1;
    }
    proof {
        to_the_end(entries@);
    }
    total
}

/// One deferred batch followed by one transaction's write-set, as a single
/// ordered list of mutations.
///
/// Order is what makes this correct: the staged writes are older, so they go
/// first and the transaction's writes overwrite them wherever both name the
/// same key.
pub fn merge_batches(staged: &Vec<Pending>, tx: &Vec<Pending>) -> (merged: Vec<Pending>)
    ensures
        moves(merged@) == moves(staged@) + moves(tx@),
{
    let mut merged = copy_batch(staged);
    let mut more = copy_batch(tx);
    let ghost a = merged@;
    let ghost b = more@;
    merged.append(&mut more);
    assert(moves(merged@) =~= moves(a) + moves(b));
    merged
}

/// A copy of a batch, oldest first.
pub fn copy_batch(list: &Vec<Pending>) -> (out: Vec<Pending>)
    ensures
        moves(out@) == moves(list@),
{
    let mut out: Vec<Pending> = Vec::new();
    let mut i: usize = 0;
    assert(moves(out@) =~= moves(list@).take(0));
    while i < list.len()
        invariant
            i <= list@.len(),
            moves(out@) == moves(list@).take(i as int),
        decreases list.len() - i,
    {
        let ghost was = out@;
        out.push(list[i].copied());
        proof {
            one_further(list@, i as int);
            assert(moves(out@) =~= moves(was).push(list@[i as int]@));
        }
        i += 1;
    }
    proof {
        to_the_end(list@);
    }
    out
}

} // verus!
