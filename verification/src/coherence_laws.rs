//! What one tab's commit tells the others, and what they make of it: every
//! record that was written or removed is named, nothing else is, and a tab that
//! heeds the news ends up listing and holding what the store holds.

use vstd::prelude::*;

use crate::backend::api::{
    a_prefix_span_holds_what_starts_with_it, after_all_pushes, Change, Span, Store, Table,
};
use crate::bytes::{be32};
use crate::codec::value::Value;
use crate::codec::FilterChain;
use crate::coherence::{news_of, words, Announcement, Coherence, Word};
use crate::key::{carried, carrying_round_trips, lockers_are_disjoint, stored, storing_round_trips, LockerId};
use crate::locker::batch::{indexed, Move};
use crate::locker::chunk::{parsed, points};
use crate::locker::eager::{absorbed, decoded_as, decodes, held, held_after, news_after, seen_as, Locker};
use crate::locker::inner::{locker_rows, named_in, news_posted, noted, remembered, Epochs};
use crate::locker::lazy::{heard, heard_size, ledger_heard, move_of};
use crate::locker::resident::Ledger;
use crate::watch::News;

verus! {

/// Whether a mutation removes everything a locker stores.
pub open spec fn clears_all(id: LockerId, change: Change) -> bool {
    change == (Change::DeleteRange { table: Table::Records, range: Span::prefix(be32(id)) })
}

/// Whether a word says that a record was written: its key, and the record itself
/// where it is short and no pointer, or else the length that a pointer declares.
pub open spec fn says_written(word: Word, key: Seq<u8>, record: Seq<u8>) -> bool {
    &&& word.key == key
    &&& !word.deleted
    &&& record.len() <= 4096 && !points(record) ==> word.value == Some(record)
    &&& record.len() > 4096 || points(record) ==> word.value is None
    &&& points(record) && parsed(record) is Some ==> word.bytes == Some(parsed(record)->0.total_len)
    &&& !points(record) || parsed(record) is None ==> word.bytes is None
}

/// Whether a word says that a record was removed.
pub open spec fn says_removed(word: Word, key: Seq<u8>) -> bool {
    word.key == key && word.deleted && word.value is None && word.bytes is None
}

/// One more mutation adds to what a commit tells exactly its own word: a record
/// of the locker that is written or removed adds one and keeps all the others, a
/// clear replaces them, and anything else changes nothing.
pub proof fn one_more_mutation_adds_its_word(
    id: LockerId,
    list: Seq<Change>,
    last: Change,
    key: Seq<u8>,
    record: Seq<u8>,
)
    ensures
        ({
            let (cleared, said) = news_of(id, list);
            let (cleared_now, said_now) = news_of(id, list.push(last));
            &&& last == (Change::Put { table: Table::Records, key: stored(id, key), value: record }) ==> cleared_now
                == cleared && said_now.len() == said.len() + 1 && said_now.take(said.len() as int) == said
                && says_written(said_now.last(), key, record)
            &&& last == (Change::Delete { table: Table::Records, key: stored(id, key) }) ==> cleared_now == cleared
                && said_now.len() == said.len() + 1 && said_now.take(said.len() as int) == said && says_removed(
                said_now.last(),
                key,
            )
            &&& clears_all(id, last) ==> cleared_now && said_now.len() == 0
            &&& !clears_all(id, last) && (match last {
                Change::Put { table: Table::Records, key: k, .. } => forall|u: Seq<u8>| k != #[trigger] stored(id, u),
                Change::Delete { table: Table::Records, key: k } => forall|u: Seq<u8>| k != #[trigger] stored(id, u),
                _ => true,
            }) ==> cleared_now == cleared && said_now == said
        }),
        news_of(id, Seq::empty()) == (false, Seq::<Word>::empty()),
{
    let all = list.push(last);
    assert(all.drop_last() =~= list);
    assert(all.last() == last);
    storing_round_trips(id, key);
    let said = news_of(id, list).1;
    let said_now = news_of(id, all).1;
    match last {
        Change::Put { table: Table::Records, key: k, .. } => {
            carrying_round_trips(id, k);
            if carried(id, k) is Some {
                assert(said_now.take(said.len() as int) =~= said);
            }
        },
        Change::Delete { table: Table::Records, key: k } => {
            carrying_round_trips(id, k);
            if carried(id, k) is Some {
                assert(said_now.take(said.len() as int) =~= said);
            }
        },
        _ => {},
    }
}

/// Every record a commit writes or removes after its last clear is named in what
/// it tells: the word is there, and says what was done.
pub proof fn every_record_write_is_announced(
    id: LockerId,
    list: Seq<Change>,
    i: int,
    key: Seq<u8>,
    record: Seq<u8>,
) -> (n: int)
    requires
        0 <= i < list.len(),
        list[i] == (Change::Put { table: Table::Records, key: stored(id, key), value: record }) || list[i] == (
        Change::Delete { table: Table::Records, key: stored(id, key) }),
        forall|j: int| i < j < list.len() ==> !clears_all(id, #[trigger] list[j]),
    ensures
        0 <= n < news_of(id, list).1.len(),
        if list[i] is Put {
            says_written(news_of(id, list).1[n], key, record)
        } else {
            says_removed(news_of(id, list).1[n], key)
        },
    decreases list.len(),
{
    let short = list.drop_last();
    let last = list.last();
    assert(short.push(last) =~= list);
    let said = news_of(id, short).1;
    let said_now = news_of(id, list).1;
    if i == list.len() - 1 {
        one_more_mutation_adds_its_word(id, short, last, key, record);
        said.len() as int
    } else {
        assert(short[i] == list[i]);
        assert forall|j: int| i < j < short.len() implies !clears_all(id, #[trigger] short[j]) by {
            assert(short[j] == list[j]);
        }
        let n = every_record_write_is_announced(id, short, i, key, record);
        assert(!clears_all(id, list[list.len() - 1]));
        match last {
            Change::Put { table: Table::Records, key: k, value } => {
                carrying_round_trips(id, k);
                assert forall|u: Seq<u8>| k == #[trigger] stored(id, u) implies carried(id, k) == Some(u) by {
                    storing_round_trips(id, u);
                }
                one_more_mutation_adds_its_word(id, short, last, carried(id, k)->0, value);
            },
            Change::Delete { table: Table::Records, key: k } => {
                carrying_round_trips(id, k);
                assert forall|u: Seq<u8>| k == #[trigger] stored(id, u) implies carried(id, k) == Some(u) by {
                    storing_round_trips(id, u);
                }
                one_more_mutation_adds_its_word(id, short, last, carried(id, k)->0, record);
            },
            _ => one_more_mutation_adds_its_word(id, short, last, key, record),
        }
        assert(said_now[n] == said[n]) by {
            if said_now.len() > said.len() {
                assert(said_now.take(said.len() as int)[n] == said[n]);
            }
        }
        n
    }
}

/// Nothing is announced that was not done: every word names a record of the
/// locker that the commit wrote or removed, and a clear is announced only where
/// there was one.
pub proof fn only_what_was_done_is_announced(id: LockerId, list: Seq<Change>)
    ensures
        forall|n: int|
            0 <= n < news_of(id, list).1.len() ==> exists|i: int|
                0 <= i < list.len() && match #[trigger] list[i] {
                    Change::Put { table: Table::Records, key, value } => key == stored(
                        id,
                        (#[trigger] news_of(id, list).1[n]).key,
                    ) && says_written(news_of(id, list).1[n], news_of(id, list).1[n].key, value),
                    Change::Delete { table: Table::Records, key } => key == stored(id, news_of(id, list).1[n].key)
                        && says_removed(news_of(id, list).1[n], news_of(id, list).1[n].key),
                    _ => false,
                },
        news_of(id, list).0 <==> exists|i: int| 0 <= i < list.len() && clears_all(id, #[trigger] list[i]),
    decreases list.len(),
{
    if list.len() > 0 {
        let short = list.drop_last();
        let last = list.last();
        only_what_was_done_is_announced(id, short);
        match last {
            Change::Put { table: Table::Records, key, .. } => carrying_round_trips(id, key),
            Change::Delete { table: Table::Records, key } => carrying_round_trips(id, key),
            _ => {},
        }
        let said = news_of(id, short).1;
        let now = news_of(id, list).1;
        assert forall|n: int| 0 <= n < now.len() implies exists|i: int|
            0 <= i < list.len() && match #[trigger] list[i] {
                Change::Put { table: Table::Records, key, value } => key == stored(id, (#[trigger] now[n]).key)
                    && says_written(now[n], now[n].key, value),
                Change::Delete { table: Table::Records, key } => key == stored(id, now[n].key) && says_removed(
                    now[n],
                    now[n].key,
                ),
                _ => false,
            } by {
            if n < said.len() && now.len() >= said.len() && now[n] == said[n] {
                let i = choose|i: int|
                    0 <= i < short.len() && match #[trigger] short[i] {
                        Change::Put { table: Table::Records, key, value } => key == stored(id, said[n].key)
                            && says_written(said[n], said[n].key, value),
                        Change::Delete { table: Table::Records, key } => key == stored(id, said[n].key) && says_removed(
                            said[n],
                            said[n].key,
                        ),
                        _ => false,
                    };
                assert(list[i] == short[i]);
            } else {
                assert(list[list.len() - 1] == last);
            }
        }
        if news_of(id, short).0 {
            let i = choose|i: int| 0 <= i < short.len() && clears_all(id, #[trigger] short[i]);
            assert(list[i] == short[i]);
        }
        if clears_all(id, last) {
            assert(clears_all(id, list[list.len() - 1]));
        }
        if exists|i: int| 0 <= i < list.len() && clears_all(id, #[trigger] list[i]) {
            let i = choose|i: int| 0 <= i < list.len() && clears_all(id, #[trigger] list[i]);
            if i < short.len() {
                assert(clears_all(id, short[i]));
            }
        }
    }
}

/// Whether every range of records that a commit removes is the whole locker, or
/// none of it.
pub open spec fn ranges_are_whole(id: LockerId, list: Seq<Change>) -> bool {
    forall|i: int|
        0 <= i < list.len() ==> match #[trigger] list[i] {
            Change::DeleteRange { table: Table::Records, range } => range == Span::prefix(be32(id)) || forall|
                key: Seq<u8>,
            | !range.contains(#[trigger] stored(id, key)),
            _ => true,
        }
}

/// A tab that lists the keys a locker stores, and folds in what a commit told of
/// it, lists the keys that the locker then stores.
pub proof fn every_tab_lists_what_is_stored(store: Store, id: LockerId, list: Seq<Change>)
    requires
        ranges_are_whole(id, list),
    ensures
        indexed(
            locker_rows(store.records, id).dom(),
            heard(news_of(id, list).0, news_of(id, list).1),
        ) == locker_rows(store.after_all(list).records, id).dom(),
    decreases list.len(),
{
    let keys = locker_rows(store.records, id).dom();
    if list.len() == 0 {
        assert(heard(false, Seq::empty()) =~= Seq::<Move>::empty());
    } else {
        let short = list.drop_last();
        let last = list.last();
        assert(list[list.len() - 1] == last);
        assert forall|i: int| 0 <= i < short.len() implies match #[trigger] short[i] {
            Change::DeleteRange { table: Table::Records, range } => range == Span::prefix(be32(id)) || forall|
                key: Seq<u8>,
            | !range.contains(#[trigger] stored(id, key)),
            _ => true,
        } by {
            assert(short[i] == list[i]);
        }
        every_tab_lists_what_is_stored(store, id, short);
        assert(short.push(last) =~= list);
        after_all_pushes(store, short, last);
        let mid = store.after_all(short);
        let now = store.after_all(list);
        let (cleared, said) = news_of(id, short);
        let all = heard(cleared, said);
        let was = locker_rows(mid.records, id).dom();
        let is = locker_rows(now.records, id).dom();
        assert forall|a: Seq<u8>, b: Seq<u8>| #[trigger] stored(id, a) == #[trigger] stored(id, b) implies a == b by {
            lockers_are_disjoint(id, a, id, b);
        }
        match last {
            Change::Put { table: Table::Records, key, value } => {
                carrying_round_trips(id, key);
                if let Some(k) = carried(id, key) {
                    let word = news_of(id, list).1.last();
                    assert(heard(cleared, said.push(word)) =~= all.push(move_of(word)));
                    assert(all.push(move_of(word)).drop_last() =~= all);
                    assert(is =~= was.insert(k));
                } else {
                    assert forall|k: Seq<u8>| key != #[trigger] stored(id, k) by {
                        storing_round_trips(id, k);
                    }
                    assert(is =~= was);
                }
            },
            Change::Delete { table: Table::Records, key } => {
                carrying_round_trips(id, key);
                if let Some(k) = carried(id, key) {
                    let word = news_of(id, list).1.last();
                    assert(heard(cleared, said.push(word)) =~= all.push(move_of(word)));
                    assert(all.push(move_of(word)).drop_last() =~= all);
                    assert(is =~= was.remove(k));
                } else {
                    assert forall|k: Seq<u8>| key != #[trigger] stored(id, k) by {
                        storing_round_trips(id, k);
                    }
                    assert(is =~= was);
                }
            },
            Change::DeleteRange { table: Table::Records, range } => {
                if range == Span::prefix(be32(id)) {
                    assert(heard(true, Seq::empty()) =~= seq![Move::Clear]);
                    assert forall|k: Seq<u8>| !(#[trigger] is.contains(k)) by {
                        a_prefix_span_holds_what_starts_with_it(be32(id), stored(id, k));
                        assert(stored(id, k).take(4) =~= be32(id));
                    }
                    assert(is =~= Set::<Seq<u8>>::empty());
                } else {
                    assert(is =~= was);
                }
            },
            _ => {
                assert(is =~= was);
            },
        }
    }
}

/// Whether the word at a place is the last that names a key.
pub open spec fn has_the_last_word(said: Seq<Word>, n: int, key: Seq<u8>) -> bool {
    &&& 0 <= n < said.len()
    &&& said[n].key == key
    &&& forall|m: int| n < m < said.len() ==> (#[trigger] said[m]).key != key
}

/// What is held of a key once words are taken in is what the last word on it
/// left, where this tab has nothing of its own to put before it.
proof fn the_last_word_is_held(
    start: Map<Seq<u8>, Seq<u8>>,
    memory: Map<Seq<u8>, u64>,
    epoch: u64,
    said: Seq<Word>,
    seen: Seq<Option<Seq<u8>>>,
    n: int,
    key: Seq<u8>,
)
    requires
        seen.len() == said.len(),
        has_the_last_word(said, n, key) || (n < 0 && forall|m: int| 0 <= m < said.len() ==> (#[trigger] said[m]).key
            != key),
        !(memory.contains_key(key) && memory[key] >= epoch),
    ensures
        n >= 0 ==> match seen[n] {
            Some(payload) => held_after(start, memory, epoch, said, seen).contains_key(key) && held_after(
                start,
                memory,
                epoch,
                said,
                seen,
            )[key] == payload,
            None => !held_after(start, memory, epoch, said, seen).contains_key(key),
        },
        n < 0 ==> held_after(start, memory, epoch, said, seen).contains_key(key) == start.contains_key(key) && (
        start.contains_key(key) ==> held_after(start, memory, epoch, said, seen)[key] == start[key]),
    decreases said.len(),
{
    if said.len() > 0 {
        let short = said.drop_last();
        if n < said.len() - 1 {
            assert(said[said.len() - 1].key != key);
            if n >= 0 {
                assert(short[n] == said[n]);
            }
            assert forall|m: int| 0 <= m && n < m < short.len() implies (#[trigger] short[m]).key != key by {
                assert(short[m] == said[m]);
            }
            the_last_word_is_held(start, memory, epoch, short, seen.drop_last(), n, key);
        }
    }
}

/// What another tab says of a key is what this tab then holds: the value it
/// carried, where it carried one that decodes, and nothing where the key was
/// deleted or its value could not be had. A key of which nothing is said stays as
/// it was, unless everything was cleared.
pub proof fn what_another_tab_says_is_held<T: Value>(
    before: Locker<T>,
    announcement: &Announcement,
    seen: Seq<Option<Seq<u8>>>,
    after: Locker<T>,
    n: int,
    key: Seq<u8>,
)
    requires
        absorbed(before, announcement, seen, after),
        has_the_last_word(words(announcement.changes@), n, key) || (n < 0 && forall|m: int|
            0 <= m < words(announcement.changes@).len() ==> (#[trigger] words(announcement.changes@)[m]).key != key),
        announcement.cleared || !before.res.inner.epochs.memory().contains_key(key)
            || before.res.inner.epochs.memory()[key] < announcement.epoch,
    ensures
        n >= 0 ==> ({
            let word = words(announcement.changes@)[n];
            &&& word.deleted ==> !held(after.values@).contains_key(key)
            &&& !word.deleted && word.value is None ==> !held(after.values@).contains_key(key)
            &&& !word.deleted && word.value is Some && decodes::<T>(&before.res.inner.chain, word.value->0)
                && held(after.values@).contains_key(key) ==> decoded_as::<T>(
                &before.res.inner.chain,
                word.value->0,
                held(after.values@)[key],
            )
            &&& !word.deleted && word.value is Some && !held(after.values@).contains_key(key) ==> !decodes::<T>(
                &before.res.inner.chain,
                word.value->0,
            )
        }),
        n < 0 && announcement.cleared ==> !held(after.values@).contains_key(key),
        n < 0 && !announcement.cleared ==> held(after.values@).contains_key(key) == held(before.values@).contains_key(
            key,
        ) && (held(before.values@).contains_key(key) ==> held(after.values@)[key] == held(before.values@)[key]),
{
    let said = words(announcement.changes@);
    let memory = if announcement.cleared {
        Map::empty()
    } else {
        before.res.inner.epochs.memory()
    };
    let start = if announcement.cleared {
        Map::empty()
    } else {
        held(before.values@)
    };
    the_last_word_is_held(start, memory, announcement.epoch, said, seen, n, key);
    if n >= 0 {
        assert(seen_as::<T>(&before.res.inner.chain, said[n], seen[n]));
    }
}

/// Watchers hear of another tab's words one by one, in order: a write, a removal,
/// or that a value went stale, each under its own key. Words on keys that this
/// tab wrote no earlier are passed over.
pub proof fn another_tabs_words_are_told_in_order(
    memory: Map<Seq<u8>, u64>,
    epoch: u64,
    said: Seq<Word>,
    seen: Seq<Option<Seq<u8>>>,
    word: Word,
    found: Option<Seq<u8>>,
)
    requires
        seen.len() == said.len(),
    ensures
        ({
            let told = news_after(memory, epoch, said, seen);
            let told_now = news_after(memory, epoch, said.push(word), seen.push(found));
            if memory.contains_key(word.key) && memory[word.key] >= epoch {
                told_now == told
            } else {
                &&& told_now.len() == told.len() + 1
                &&& told_now.take(told.len() as int) == told
                &&& found is Some ==> told_now.last() == (News::Put { key: word.key })
                &&& found is None && word.deleted ==> told_now.last() == (News::Deleted { key: word.key })
                &&& found is None && !word.deleted ==> told_now.last() == (News::Stale { key: word.key })
            }
        }),
        news_after(memory, epoch, Seq::empty(), Seq::empty()).len() == 0,
{
    assert(said.push(word).drop_last() =~= said);
    assert(seen.push(found).drop_last() =~= seen);
    let told = news_after(memory, epoch, said, seen);
    let told_now = news_after(memory, epoch, said.push(word), seen.push(found));
    if told_now.len() > told.len() {
        assert(told_now.take(told.len() as int) =~= told);
    }
}

/// A commit that landed and has news is posted once, behind what was posted
/// before, as this bank's and this locker's, under an epoch of its own; one that
/// failed, or has none, is not posted at all.
pub proof fn a_commit_with_news_is_posted_once(
    id: LockerId,
    before: Epochs,
    was: Coherence,
    out: Seq<Change>,
    landed: bool,
    after: Epochs,
    now: Coherence,
)
    requires
        news_posted(id, before, was, out, landed, after, now),
    ensures
        !was.enabled_spec() || !landed ==> now.waiting() == was.waiting() && after == before,
        !news_of(id, out).0 && news_of(id, out).1.len() == 0 ==> now.waiting() == was.waiting() && now.epoch_spec()
            == was.epoch_spec(),
        was.enabled_spec() && landed && (news_of(id, out).0 || news_of(id, out).1.len() > 0) ==> {
            &&& now.waiting().len() == was.waiting().len() + 1
            &&& forall|i: int|
                0 <= i < was.waiting().len() ==> (#[trigger] now.waiting()[i]) == was.waiting()[i]
            &&& now.waiting().last().instance == was.instance_spec()
            &&& now.waiting().last().locker_id == id
            &&& now.waiting().last().epoch == now.epoch_spec()
            &&& now.waiting().last().cleared == news_of(id, out).0
            &&& words(now.waiting().last().changes@) == news_of(id, out).1
        },
        was.enabled_spec() && (news_of(id, out).0 || news_of(id, out).1.len() > 0) && was.epoch_spec() < u64::MAX
            ==> now.epoch_spec() == was.epoch_spec() + 1,
{
    if now.waiting().len() == was.waiting().len() + 1 && now.waiting().drop_last() == was.waiting() {
        assert forall|i: int| 0 <= i < was.waiting().len() implies (#[trigger] now.waiting()[i])
            == was.waiting()[i] by {
            assert(now.waiting().drop_last()[i] == now.waiting()[i]);
        }
    }
}

/// What this tab remembers of its own commit: every key it told of, at the epoch
/// it told it under, and of every other what it did before.
pub proof fn a_commit_is_remembered(memory: Map<Seq<u8>, u64>, said: Seq<Word>, epoch: u64, key: Seq<u8>)
    ensures
        ({
            let now = noted(memory, named_in(said), epoch);
            &&& (exists|i: int| 0 <= i < said.len() && (#[trigger] said[i]).key == key) ==> now.contains_key(key)
                && now[key] == epoch
            &&& (forall|i: int| 0 <= i < said.len() ==> (#[trigger] said[i]).key != key) ==> now.contains_key(key)
                == memory.contains_key(key) && (memory.contains_key(key) ==> now[key] == memory[key])
        }),
    decreases said.len(),
{
    if said.len() > 0 {
        let short = said.drop_last();
        a_commit_is_remembered(memory, short, epoch, key);
        assert(named_in(said).drop_last() =~= named_in(short));
        assert(named_in(said).last() == said.last().key);
        assert(said[said.len() - 1] == said.last());
        if exists|i: int| 0 <= i < said.len() && (#[trigger] said[i]).key == key {
            let i = choose|i: int| 0 <= i < said.len() && (#[trigger] said[i]).key == key;
            if i < short.len() {
                assert(short[i].key == key);
            }
        }
        if forall|i: int| 0 <= i < said.len() ==> (#[trigger] said[i]).key != key {
            assert forall|i: int| 0 <= i < short.len() implies (#[trigger] short[i]).key != key by {
                assert(short[i] == said[i]);
            }
        }
    }
}

/// The size another tab's word tells of a write is that of the payload: of a
/// record that was carried, what it opens to, and of a pointer, the length it
/// declares. A record that was neither carried nor a pointer tells none.
pub proof fn a_word_tells_the_size_of_its_payload(chain: &FilterChain, key: Seq<u8>, record: Seq<u8>, word: Word)
    requires
        says_written(word, key, record),
    ensures
        record.len() <= 4096 && !points(record) && chain.opened(record) is Some ==> heard_size(chain, word)
            == Some(chain.opened(record)->0.len() as u64),
        points(record) && parsed(record) is Some ==> heard_size(chain, word) == Some(parsed(record)->0.total_len),
        record.len() > 4096 && !points(record) ==> heard_size(chain, word) is None,
{
}

/// News is taken in once: an epoch that was absorbed, or an earlier one, is not
/// heeded again. News of another locker never is.
pub proof fn news_is_taken_in_once<T: Value>(
    before: Locker<T>,
    first: &Announcement,
    seen: Seq<Option<Seq<u8>>>,
    after: Locker<T>,
    second: Announcement,
)
    requires
        absorbed(before, first, seen, after),
    ensures
        second.epoch <= first.epoch ==> !after.heeds(second),
        second.locker_id != after.res.inner.id ==> !after.heeds(second),
        after.res.inner.closed ==> !after.heeds(second),
        !after.res.inner.closed && second.locker_id == after.res.inner.id && second.epoch > first.epoch ==> after.heeds(
            second,
        ),
{
}

/// What another tab wrote is charged to the byte budget here as its last word on
/// each key says: what was deleted weighs nothing any more, and what was written
/// weighs what the word tells.
pub proof fn what_another_tab_wrote_is_charged(
    led: Ledger,
    dirty: bool,
    chain: &FilterChain,
    said: Seq<Word>,
    n: int,
    key: Seq<u8>,
)
    requires
        has_the_last_word(said, n, key) || (n < 0 && forall|m: int| 0 <= m < said.len() ==> (#[trigger] said[m]).key
            != key),
    ensures
        ({
            let (now, unsure) = ledger_heard((led, dirty), chain, said);
            &&& n >= 0 && said[n].deleted ==> !now.books.contains_key(key)
            &&& n >= 0 && !said[n].deleted ==> now.books.contains_key(key)
            &&& n >= 0 && !said[n].deleted && heard_size(chain, said[n]) is Some ==> now.books[key].bytes == heard_size(
                chain,
                said[n],
            )->0
            &&& n >= 0 && !said[n].deleted && heard_size(chain, said[n]) is None ==> unsure
            &&& n < 0 ==> now.books.contains_key(key) == led.books.contains_key(key) && (led.books.contains_key(key)
                ==> now.books[key] == led.books[key])
            &&& dirty ==> unsure
            &&& now.limit == led.limit
        }),
    decreases said.len(),
{
    if said.len() > 0 {
        let short = said.drop_last();
        let m = if n < said.len() - 1 {
            n
        } else {
            -1
        };
        if n < said.len() - 1 {
            assert(said[said.len() - 1].key != key);
            if n >= 0 {
                assert(short[n] == said[n]);
            }
            assert forall|j: int| 0 <= j && n < j < short.len() implies (#[trigger] short[j]).key != key by {
                assert(short[j] == said[j]);
            }
            what_another_tab_wrote_is_charged(led, dirty, chain, short, n, key);
        } else {
            still_unsure(led, dirty, chain, short);
        }
    }
}

/// An accounting that is known to be incomplete stays so.
proof fn still_unsure(led: Ledger, dirty: bool, chain: &FilterChain, said: Seq<Word>)
    ensures
        dirty ==> ledger_heard((led, dirty), chain, said).1,
        ledger_heard((led, dirty), chain, said).0.limit == led.limit,
    decreases said.len(),
{
    if said.len() > 0 {
        still_unsure(led, dirty, chain, said.drop_last());
    }
}

/// Whether the mutation at a place is the last of a commit that bears on a key of
/// a locker: it writes or removes its record, and after it no other does, nor is
/// the locker cleared.
pub open spec fn is_last_on(id: LockerId, list: Seq<Change>, i: int, key: Seq<u8>) -> bool {
    &&& 0 <= i < list.len()
    &&& forall|j: int|
        i < j < list.len() ==> !clears_all(id, #[trigger] list[j]) && match list[j] {
            Change::Put { table: Table::Records, key: k, .. } => k != stored(id, key),
            Change::Delete { table: Table::Records, key: k } => k != stored(id, key),
            _ => true,
        }
}

/// The last mutation of a commit on a key has the last word on it.
pub proof fn the_last_mutation_has_the_last_word(
    id: LockerId,
    list: Seq<Change>,
    i: int,
    key: Seq<u8>,
    record: Seq<u8>,
) -> (n: int)
    requires
        is_last_on(id, list, i, key),
        list[i] == (Change::Put { table: Table::Records, key: stored(id, key), value: record }) || list[i] == (
        Change::Delete { table: Table::Records, key: stored(id, key) }),
    ensures
        has_the_last_word(news_of(id, list).1, n, key),
        if list[i] is Put {
            says_written(news_of(id, list).1[n], key, record)
        } else {
            says_removed(news_of(id, list).1[n], key)
        },
    decreases list.len(),
{
    let short = list.drop_last();
    let last = list.last();
    assert(short.push(last) =~= list);
    let said = news_of(id, short).1;
    let now = news_of(id, list).1;
    if i == list.len() - 1 {
        one_more_mutation_adds_its_word(id, short, last, key, record);
        said.len() as int
    } else {
        assert(short[i] == list[i]);
        assert forall|j: int| i < j < short.len() implies !clears_all(id, #[trigger] short[j]) && match short[j] {
            Change::Put { table: Table::Records, key: k, .. } => k != stored(id, key),
            Change::Delete { table: Table::Records, key: k } => k != stored(id, key),
            _ => true,
        } by {
            assert(short[j] == list[j]);
        }
        let n = the_last_mutation_has_the_last_word(id, short, i, key, record);
        assert(list[list.len() - 1] == last);
        assert(!clears_all(id, last));
        match last {
            Change::Put { table: Table::Records, key: k, value } => {
                carrying_round_trips(id, k);
                assert forall|u: Seq<u8>| k == #[trigger] stored(id, u) implies carried(id, k) == Some(u) by {
                    storing_round_trips(id, u);
                }
                one_more_mutation_adds_its_word(id, short, last, carried(id, k)->0, value);
            },
            Change::Delete { table: Table::Records, key: k } => {
                carrying_round_trips(id, k);
                assert forall|u: Seq<u8>| k == #[trigger] stored(id, u) implies carried(id, k) == Some(u) by {
                    storing_round_trips(id, u);
                }
                one_more_mutation_adds_its_word(id, short, last, carried(id, k)->0, record);
            },
            _ => one_more_mutation_adds_its_word(id, short, last, key, record),
        }
        if now.len() > said.len() {
            assert forall|m: int| 0 <= m < said.len() implies now[m] == #[trigger] said[m] by {
                assert(now.take(said.len() as int)[m] == said[m]);
            }
            assert(now.last().key != key);
        }
        assert(now[n] == said[n]);
        assert forall|m: int| n < m < now.len() implies (#[trigger] now[m]).key != key by {
            if m < said.len() {
                assert(now[m] == said[m]);
            } else {
                assert(now[m] == now.last());
            }
        }
        n
    }
}

/// A tab that heeds the news of a commit holds what the commit stored: of a record
/// short enough to be carried, the value it decodes to; of one that was removed,
/// nothing; and of one too long to be carried, nothing rather than what is no
/// longer true.
pub proof fn every_tab_holds_what_was_stored<T: Value>(
    id: LockerId,
    list: Seq<Change>,
    i: int,
    key: Seq<u8>,
    record: Seq<u8>,
    before: Locker<T>,
    announcement: &Announcement,
    seen: Seq<Option<Seq<u8>>>,
    after: Locker<T>,
)
    requires
        is_last_on(id, list, i, key),
        list[i] == (Change::Put { table: Table::Records, key: stored(id, key), value: record }) || list[i] == (
        Change::Delete { table: Table::Records, key: stored(id, key) }),
        announcement.cleared == news_of(id, list).0,
        words(announcement.changes@) == news_of(id, list).1,
        absorbed(before, announcement, seen, after),
        announcement.cleared || !before.res.inner.epochs.memory().contains_key(key)
            || before.res.inner.epochs.memory()[key] < announcement.epoch,
    ensures
        list[i] is Delete ==> !held(after.values@).contains_key(key),
        list[i] is Put && (record.len() > 4096 || points(record)) ==> !held(after.values@).contains_key(key),
        list[i] is Put && record.len() <= 4096 && !points(record) && decodes::<T>(&before.res.inner.chain, record)
            ==> held(after.values@).contains_key(key) && decoded_as::<T>(
            &before.res.inner.chain,
            record,
            held(after.values@)[key],
        ),
{
    let n = the_last_mutation_has_the_last_word(id, list, i, key, record);
    what_another_tab_says_is_held(before, announcement, seen, after, n, key);
}

/// A tab remembers its own commits while they are of no more keys than it keeps,
/// and starts over past that.
pub proof fn a_memory_is_kept_while_it_fits(memory: Map<Seq<u8>, u64>, said: Seq<Word>, epoch: u64)
    ensures
        noted(memory, named_in(said), epoch).dom().len() <= 4096 ==> remembered(memory, named_in(said), epoch) == noted(
            memory,
            named_in(said),
            epoch,
        ),
        noted(memory, named_in(said), epoch).dom().len() > 4096 ==> remembered(memory, named_in(said), epoch) == Map::<
            Seq<u8>,
            u64,
        >::empty(),
{
}

} // verus!
