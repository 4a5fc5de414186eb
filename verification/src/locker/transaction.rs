//! Transactions: a write-set staged in memory, applied as one atomic commit.
//!
//! * Writes are encoded immediately and buffered.
//! * `get` reads your own writes first, then falls through to storage.
//! * Nothing is visible outside the transaction until it commits.
//! * A transaction that is dropped rolls back: nothing is written, and the
//!   in-memory index is untouched.

use vstd::prelude::*;
use vstd::string::StringSliceAdditionalSpecFns;

use super::batch::{collapse, latest, moves, payloads, reads, staged_view, wipes, Move, Pending};
use super::chunk::FLAG_POSTCARD;
use super::inner::{
    clears, gc_list, gc_refused, kept_inline, locker_rows, put_refused, readable, record_delete, record_put, records_clear, stores, unread, Inner,
    Prior, Shared,
};
use crate::backend::api::{append_ops, changes, push_op, Backend, Change, Op, Rows, Table};
use crate::bytes::copy;
use crate::codec::value::Value;
use crate::error::{Error, Result};
use crate::key::encode_bytes;
use crate::sorted::listing;

verus! {

/// What kind of locker a batch is for.
#[derive(Debug, Clone, Copy, PartialEq, Eq, Structural)]
pub enum TxMode {
    /// Values live in memory: every record is inline and none may be larger
    /// than the locker accepts.
    Eager,
    /// Values are read on demand: large ones are chunked.
    Lazy,
}

/// `part` is what leaving one key with `what` takes.
pub open spec fn part_fits(
    inner: Inner,
    mode: TxMode,
    records: Rows,
    prior: Prior,
    key: Seq<u8>,
    what: Option<Seq<u8>>,
    id: u64,
    part: Seq<Change>,
) -> bool {
    match mode {
        TxMode::Lazy => gc_list(records, inner.id, key, prior) matches Some(dropped) && match what {
            None => part == dropped.push(record_delete(inner.id, key)),
            Some(payload) => stores(inner, key, payload, FLAG_POSTCARD, dropped, id, part),
        },
        TxMode::Eager => match what {
            None => part == seq![record_delete(inner.id, key)],
            Some(payload) => exists|record: Seq<u8>|
                inner.chain.seals(payload, record) && record.len() <= inner.config.max_inline && part == seq![
                    #[trigger] record_put(inner.id, key, record),
                ],
        },
    }
}

/// The next value id once one key is left with `what`.
pub open spec fn id_after(inner: Inner, mode: TxMode, what: Option<Seq<u8>>, id: u64) -> u64 {
    if mode is Lazy && (what matches Some(payload) && !kept_inline(inner.config, payload.len(), FLAG_POSTCARD)) {
        (id + 1) as u64
    } else {
        id
    }
}

/// `parts` are what leaving each of `keys` as `last` has it takes, each with
/// the value id it is given.
pub open spec fn spells(
    inner: Inner,
    mode: TxMode,
    records: Rows,
    prior: Prior,
    keys: Seq<Seq<u8>>,
    last: Map<Seq<u8>, Option<Seq<u8>>>,
    parts: Seq<Seq<Change>>,
    ids: Seq<u64>,
) -> bool {
    &&& parts.len() == keys.len()
    &&& ids.len() == keys.len() + 1
    &&& forall|i: int|
        #![trigger parts[i]]
        0 <= i < keys.len() ==> part_fits(inner, mode, records, prior, keys[i], last[keys[i]], ids[i], parts[i])
            && ids[i + 1] == id_after(inner, mode, last[keys[i]], ids[i])
}

/// Lists of changes one after the other.
pub open spec fn flat(parts: Seq<Seq<Change>>) -> Seq<Change>
    decreases parts.len(),
{
    if parts.len() == 0 {
        Seq::empty()
    } else {
        flat(parts.drop_last()) + parts.last()
    }
}

/// What clearing the locker first takes, where a batch does.
pub open spec fn opening(inner: Inner, mode: TxMode, records: Rows, list: Seq<Move>) -> Seq<Change> {
    if !wipes(list) {
        Seq::empty()
    } else {
        match mode {
            TxMode::Eager => seq![records_clear(inner.id)],
            TxMode::Lazy => clears(records, inner.id),
        }
    }
}

/// What is known of the records under a batch's keys: nothing, unless the
/// batch clears them away first.
pub open spec fn prior_of(list: Seq<Move>) -> Prior {
    if wipes(list) {
        Prior::Absent
    } else {
        Prior::Unknown
    }
}

/// `out` is what a batch does to the store: the clear, if it holds one, then
/// every key it names, once, in key order, as its last write left it. Value
/// ids run from `first` to `next`.
pub open spec fn batched(
    inner: Inner,
    mode: TxMode,
    records: Rows,
    list: Seq<Move>,
    first: u64,
    next: u64,
    out: Seq<Change>,
) -> bool {
    exists|parts: Seq<Seq<Change>>, ids: Seq<u64>|
        {
            &&& #[trigger] spells(
                inner,
                mode,
                records,
                prior_of(list),
                listing(latest(list).dom()),
                latest(list),
                parts,
                ids,
            )
            &&& ids[0] == first
            &&& ids.last() == next
            &&& out == opening(inner, mode, records, list) + flat(parts)
        }
}

/// One key can be left with `what`.
pub open spec fn part_possible(
    inner: Inner,
    mode: TxMode,
    records: Rows,
    prior: Prior,
    key: Seq<u8>,
    what: Option<Seq<u8>>,
) -> bool {
    match mode {
        TxMode::Lazy => gc_list(records, inner.id, key, prior) is Some && (what matches Some(payload) ==> inner.fits(
            payload,
            FLAG_POSTCARD,
        )),
        TxMode::Eager => what matches Some(payload) ==> inner.chain.takes(payload) && forall|record: Seq<u8>| #[trigger]
            inner.chain.seals(payload, record) ==> record.len() <= inner.config.max_inline,
    }
}

/// Nothing about a batch or the records it replaces stands in its way.
pub open spec fn possible(inner: Inner, mode: TxMode, records: Rows, list: Seq<Move>) -> bool {
    forall|key: Seq<u8>| #[trigger]
        latest(list).contains_key(key) ==> part_possible(inner, mode, records, prior_of(list), key, latest(list)[key])
}

/// One more key, with what it takes.
proof fn one_more_part(
    inner: &Inner,
    mode: TxMode,
    records: Rows,
    prior: Prior,
    keys: Seq<Seq<u8>>,
    key: Seq<u8>,
    last: Map<Seq<u8>, Option<Seq<u8>>>,
    parts: Seq<Seq<Change>>,
    ids: Seq<u64>,
    part: Seq<Change>,
    next: u64,
)
    requires
        spells(*inner, mode, records, prior, keys, last, parts, ids),
        part_fits(*inner, mode, records, prior, key, last[key], ids.last(), part),
        next == id_after(*inner, mode, last[key], ids.last()),
    ensures
        spells(*inner, mode, records, prior, keys.push(key), last, parts.push(part), ids.push(next)),
{
    let all = keys.push(key);
    let more = parts.push(part);
    let now = ids.push(next);
    assert forall|k: int|
        #![trigger more[k]]
        0 <= k < all.len() implies part_fits(*inner, mode, records, prior, all[k], last[all[k]], now[k], more[k])
        && now[k + 1] == id_after(*inner, mode, last[all[k]], now[k]) by {
        if k < keys.len() {
            assert(more[k] == parts[k]);
        }
    }
}

/// Turn a batch into backend ops, collapsed: the last write of each key is the
/// only one stored.
pub fn ops_for_pending<B: Backend>(
    inner: &Inner,
    shared: &mut Shared<B>,
    entries: &Vec<Pending>,
    mode: TxMode,
) -> (r: Result<Vec<Op>>)
    requires
        mode is Lazy ==> inner.config.chunk_size > 0,
    ensures
        final(shared).carries_on(*old(shared)),
        final(shared).backend == old(shared).backend,
        final(shared).ticks == old(shared).ticks,
        final(shared).coherence == old(shared).coherence,
        r matches Ok(ops) ==> batched(
            *inner,
            mode,
            old(shared).backend.store().records,
            moves(entries@),
            old(shared).next_id(),
            final(shared).next_id(),
            changes(ops@),
        ),
        mode is Eager && all_taken(*inner, moves(entries@)) ==> (r matches Err(e) ==> too_large(*inner, moves(entries@), e)),
        old(shared).backend.answers() && old(shared).backend.store().is_finite() && possible(
            *inner,
            mode,
            old(shared).backend.store().records,
            moves(entries@),
        ) && (mode is Lazy ==> (old(shared).values.upcoming(old(shared).backend.store()) matches Some(id) && id
            + latest(moves(entries@)).dom().len() < u64::MAX)) ==> r is Ok,
        old(shared).backend.shut() ==> (r matches Err(e) ==> inner.shut_out(e)),
        old(shared).backend.answers() ==> (r matches Err(e) ==> parts_refused(
            *inner,
            mode,
            old(shared).backend.store().records,
            moves(entries@),
            e,
        )),
{
    let ghost list = moves(entries@);
    let ghost store = shared.backend.store();
    let ghost records = store.records;
    let ghost first = shared.next_id();
    let (cleared, last) = collapse(entries);
    let ghost ends = latest(list);
    let ghost head = opening(*inner, mode, records, list);
    let mut ops: Vec<Op> = Vec::new();
    assert(changes(ops@) =~= Seq::<Change>::empty());
    if cleared {
        match mode {
            TxMode::Eager => {
                push_op(&mut ops, inner.clear_op());
                assert(changes(ops@) =~= seq![records_clear(inner.id)]);
            },
            TxMode::Lazy => {
                ops = match inner.clear_value_ops(&shared.backend) {
                    Ok(ops) => ops,
                    Err(e) => return Err(e),
                };
            },
        }
    }
    assert(changes(ops@) == head);
    let prior = if cleared {
        Prior::Absent
    } else {
        Prior::Unknown
    };
    let n: usize = last.len();
    let ghost keys = last.keys();
    let ghost mut parts: Seq<Seq<Change>> = Seq::empty();
    let ghost mut ids: Seq<u64> = seq![first];
    proof {
        assert(ends.dom() =~= last@.dom());
        crate::sorted::the_listing_is(keys, ends.dom());
        assert(head + flat(parts) =~= head);
    }
    let mut i: usize = 0;
    while i < n
        invariant
            mode is Lazy ==> inner.config.chunk_size > 0,
            list == moves(entries@),
            ends == latest(list),
            ends == payloads(last@),
            prior == prior_of(list),
            shared.backend == old(shared).backend,
            shared.ticks == old(shared).ticks,
            shared.coherence == old(shared).coherence,
            shared.carries_on(*old(shared)),
            store == shared.backend.store(),
            records == store.records,
            n == keys.len(),
            keys == last.keys(),
            keys == listing(ends.dom()),
            keys.len() == ends.dom().len(),
            last.values().len() == n,
            forall|k: int|
                0 <= k < keys.len() ==> last@.contains_key(#[trigger] keys[k]) && last@[keys[k]] == last.values()[k],
            i <= n,
            spells(*inner, mode, records, prior, keys.take(i as int), ends, parts, ids),
            ids[0] == first,
            ids.last() == shared.next_id(),
            changes(ops@) == head + flat(parts),
            old(shared).backend.answers() && possible(*inner, mode, records, list) && mode is Lazy && (old(
                shared,
            ).values.upcoming(store) matches Some(id) && id + ends.dom().len() < u64::MAX) ==> (
            shared.values.upcoming(store) matches Some(id) && id + (n - i) < u64::MAX),
        decreases n - i,
    {
        let ghost key = keys[i as int];
        let ghost what = ends[key];
        let ghost so_far = changes(ops@);
        proof {
            assert(last@.contains_key(keys[i as int]));
            assert(ends.contains_key(key));
            assert(what == match last@[key] {
                Some(b) => Some(b@),
                None => None::<Seq<u8>>,
            });
            assert(possible(*inner, mode, records, list) ==> part_possible(*inner, mode, records, prior, key, what));
        }
        let part = match part_ops(inner, shared, last.key_at(i), last.value_at(i), prior, mode) {
            Ok(part) => part,
            Err(e) => {
                assert(all_taken(*inner, list) ==> (what matches Some(payload) ==> inner.chain.takes(payload)));
                assert(shared.backend.answers() ==> latest(list).contains_key(key) && part_refused(
                    *inner,
                    mode,
                    records,
                    key,
                    latest(list)[key],
                    e,
                ));
                return Err(e);
            },
        };
        let ghost more = changes(part@);
        append_ops(&mut ops, part);
        proof {
            let was = parts;
            let had = ids;
            parts = parts.push(more);
            ids = ids.push(shared.next_id());
            assert(parts.drop_last() =~= was);
            assert(head + flat(parts) =~= (head + flat(was)) + more);
            assert(keys.take(i + 1) =~= keys.take(i as int).push(key));
            one_more_part(inner, mode, records, prior, keys.take(i as int), key, ends, was, had, more, shared.next_id());
        }
        i += 1;
    }
    assert(keys.take(n as int) =~= keys);
    Ok(ops)
}

/// `e` says that a payload, sealed, is larger than an eager locker accepts.
pub open spec fn oversized(inner: Inner, payload: Seq<u8>, e: Error) -> bool {
    e matches Error::ValueTooLarge { bytes, max_inline } && max_inline == inner.config.max_inline && bytes
        > max_inline && exists|record: Seq<u8>| #[trigger] inner.chain.seals(payload, record) && record.len() == bytes
}

/// The chain takes every payload a batch stores.
pub open spec fn all_taken(inner: Inner, list: Seq<Move>) -> bool {
    forall|key: Seq<u8>| #[trigger]
        latest(list).contains_key(key) ==> (latest(list)[key] matches Some(payload) ==> inner.chain.takes(payload))
}

/// `e` says that some payload of a batch is larger than an eager locker
/// accepts.
pub open spec fn too_large(inner: Inner, list: Seq<Move>, e: Error) -> bool {
    exists|key: Seq<u8>| #[trigger]
        latest(list).contains_key(key) && (latest(list)[key] matches Some(payload) && oversized(inner, payload, e))
}

/// `e` is why a payload cannot be stored under a key, whichever id is next.
pub open spec fn ever_refused(inner: Inner, records: Rows, key: Seq<u8>, payload: Seq<u8>, e: Error) -> bool {
    exists|upcoming: Option<u64>| #[trigger] put_refused(inner, records, upcoming, key, payload, FLAG_POSTCARD, e)
}

/// `e` is why a key cannot be left with `what` where the store answers.
pub open spec fn part_refused(
    inner: Inner,
    mode: TxMode,
    records: Rows,
    key: Seq<u8>,
    what: Option<Seq<u8>>,
    e: Error,
) -> bool {
    match mode {
        TxMode::Lazy => match what {
            None => gc_refused(records, inner.id, key, e),
            Some(payload) => ever_refused(inner, records, key, payload, e),
        },
        TxMode::Eager => match what {
            None => false,
            Some(payload) => inner.chain.declines(payload, e) || oversized(inner, payload, e),
        },
    }
}

/// `e` is why some write of a batch cannot be spelt where the store answers.
pub open spec fn parts_refused(inner: Inner, mode: TxMode, records: Rows, list: Seq<Move>, e: Error) -> bool {
    exists|key: Seq<u8>| #[trigger]
        latest(list).contains_key(key) && part_refused(inner, mode, records, key, latest(list)[key], e)
}

/// The ops that leave one key with `what`.
fn part_ops<B: Backend>(
    inner: &Inner,
    shared: &mut Shared<B>,
    key: &[u8],
    what: &Option<Vec<u8>>,
    prior: Prior,
    mode: TxMode,
) -> (r: Result<Vec<Op>>)
    requires
        mode is Lazy ==> inner.config.chunk_size > 0,
    ensures
        final(shared).carries_on(*old(shared)),
        final(shared).backend == old(shared).backend,
        final(shared).ticks == old(shared).ticks,
        final(shared).coherence == old(shared).coherence,
        ({
            let store = old(shared).backend.store();
            let last = match *what {
                Some(b) => Some(b@),
                None => None::<Seq<u8>>,
            };
            let id = old(shared).next_id();
            &&& r matches Ok(ops) ==> {
                &&& part_fits(*inner, mode, store.records, prior, key@, last, id, changes(ops@))
                &&& final(shared).next_id() == id_after(*inner, mode, last, id)
                &&& old(shared).values.upcoming(store) is Some ==> final(shared).values.upcoming(store) is Some
            }
            &&& mode is Eager ==> (r matches Err(e) ==> last is Some && (inner.chain.takes(last->0) ==> oversized(
                *inner,
                last->0,
                e,
            )))
            &&& old(shared).backend.answers() && part_possible(*inner, mode, store.records, prior, key@, last) && (
            mode is Lazy ==> (old(shared).values.upcoming(store) matches Some(next) && next < u64::MAX)) ==> r is Ok
            &&& old(shared).backend.shut() ==> (r matches Err(e) ==> inner.shut_out(e))
            &&& old(shared).backend.answers() ==> (r matches Err(e) ==> part_refused(
                *inner,
                mode,
                store.records,
                key@,
                last,
                e,
            ))
        }),
{
    match mode {
        TxMode::Lazy => match what {
            None => {
                let r = inner.delete_value_ops(&shared.backend, key, prior);
                let ghost records = shared.backend.store().records;
                assert(shared.backend.answers() ==> (r matches Err(e) ==> part_refused(
                    *inner,
                    TxMode::Lazy,
                    records,
                    key@,
                    None,
                    e,
                )));
                r
            },
            Some(payload) => {
                let r = inner.put_payload_ops(shared, key, copy(payload.as_slice()), FLAG_POSTCARD, prior);
                let ghost store = old(shared).backend.store();
                assert(store == shared.backend.store());
                proof {
                    if r is Err {
                        let e = r->Err_0;
                        if shared.backend.answers() {
                            let id = old(shared).values.upcoming(store);
                            assert(put_refused(*inner, store.records, id, key@, payload@, FLAG_POSTCARD, e));
                            assert(ever_refused(*inner, store.records, key@, payload@, e));
                            assert(part_refused(*inner, TxMode::Lazy, store.records, key@, Some(payload@), e));
                        }
                    }
                }
                r
            },
        },
        TxMode::Eager => {
            let mut ops: Vec<Op> = Vec::new();
            assert(changes(ops@) =~= Seq::<Change>::empty());
            match what {
                None => {
                    push_op(&mut ops, inner.delete_op(key));
                    assert(changes(ops@) =~= seq![record_delete(inner.id, key@)]);
                },
                Some(payload) => {
                    let sealed = match inner.seal_limited(payload.as_slice()) {
                        Ok(sealed) => sealed,
                        Err(e) => return Err(e),
                    };
                    let ghost record = sealed@;
                    push_op(
                        &mut ops,
                        Op::Put { table: Table::Records, key: encode_bytes(inner.id, key), value: sealed },
                    );
                    assert(changes(ops@) =~= seq![record_put(inner.id, key@, record)]);
                },
            }
            Ok(ops)
        },
    }
}

/// A staged write-set.
///
/// There is no handle on an open transaction of the backend: the writes are
/// staged here, in memory, and the backend sees one commit of pure bytes.
pub struct Transaction<T> {
    staged: Vec<Pending>,
    /// The value of each staged put, in the same places.
    values: Vec<Option<T>>,
}

impl<T: Value> Transaction<T> {
    /// The staged writes, in order.
    pub closed spec fn staged_moves(self) -> Seq<Move> {
        moves(self.staged@)
    }

    /// The values staged, in the same places.
    pub closed spec fn staged_values(self) -> Seq<Option<T>> {
        self.values@
    }

    /// Every staged put comes with the value it was made from.
    pub open spec fn wf(self) -> bool {
        &&& self.staged_values().len() == self.staged_moves().len()
        &&& forall|i: int|
            0 <= i < self.staged_moves().len() ==> match #[trigger] self.staged_moves()[i] {
                Move::Put { payload, .. } => self.staged_values()[i] matches Some(v) && v.payload() == payload
                    && v.packs(),
                _ => self.staged_values()[i] is None,
            }
    }

    /// An empty write-set.
    pub fn new() -> (tx: Self)
        ensures
            tx.wf(),
            tx.staged_moves().len() == 0,
    {
        Transaction { staged: Vec::new(), values: Vec::new() }
    }

    /// Stage a write. Encoding happens now, so no user code ever runs while a
    /// backend transaction is open.
    pub fn put(&mut self, key: &str, value: T) -> (r: Result<()>)
        requires
            old(self).wf(),
        ensures
            final(self).wf(),
            r is Ok <==> value.packs(),
            r is Ok ==> final(self).staged_moves() == old(self).staged_moves().push(
                Move::Put { key: key.spec_bytes(), payload: value.payload() },
            ),
            r is Err ==> *final(self) == *old(self),
    {
        self.put_by(crate::meta::name_bytes(key).as_slice(), value)
    }

    /// As [`Transaction::put`], under a binary key.
    pub fn put_by(&mut self, key: &[u8], value: T) -> (r: Result<()>)
        requires
            old(self).wf(),
        ensures
            final(self).wf(),
            r is Ok <==> value.packs(),
            r is Ok ==> final(self).staged_moves() == old(self).staged_moves().push(
                Move::Put { key: key@, payload: value.payload() },
            ),
            r is Err ==> *final(self) == *old(self),
    {
        let payload = match value.to_payload() {
            Ok(payload) => payload,
            Err(e) => return Err(e),
        };
        self.push(Pending::Put { key: copy(key), payload }, Some(value));
        Ok(())
    }

    /// Stage a delete. Deleting an absent key is not an error.
    pub fn delete(&mut self, key: &str) -> (r: Result<()>)
        requires
            old(self).wf(),
        ensures
            r is Ok,
            final(self).wf(),
            final(self).staged_moves() == old(self).staged_moves().push(
                Move::Delete { key: key.spec_bytes() },
            ),
    {
        self.delete_by(crate::meta::name_bytes(key).as_slice())
    }

    /// As [`Transaction::delete`], under a binary key.
    pub fn delete_by(&mut self, key: &[u8]) -> (r: Result<()>)
        requires
            old(self).wf(),
        ensures
            r is Ok,
            final(self).wf(),
            final(self).staged_moves() == old(self).staged_moves().push(Move::Delete { key: key@ }),
    {
        self.push(Pending::Delete { key: copy(key) }, None);
        Ok(())
    }

    /// Stage a clear of the whole locker.
    pub fn clear(&mut self) -> (r: Result<()>)
        requires
            old(self).wf(),
        ensures
            r is Ok,
            final(self).wf(),
            final(self).staged_moves() == old(self).staged_moves().push(Move::Clear),
    {
        self.push(Pending::Clear, None);
        Ok(())
    }

    fn push(&mut self, entry: Pending, value: Option<T>)
        requires
            old(self).wf(),
            match entry@ {
                Move::Put { payload, .. } => value matches Some(v) && v.payload() == payload && v.packs(),
                _ => value is None,
            },
        ensures
            final(self).wf(),
            final(self).staged_moves() == old(self).staged_moves().push(entry@),
    {
        let ghost was = self.staged_moves();
        self.staged.push(entry);
        self.values.push(value);
        assert(self.staged_moves() =~= was.push(entry@));
        assert forall|i: int| 0 <= i < self.staged_moves().len() implies match #[trigger] self.staged_moves()[i] {
            Move::Put { payload, .. } => self.staged_values()[i] matches Some(v) && v.payload() == payload
                && v.packs(),
            _ => self.staged_values()[i] is None,
        } by {
            if i < was.len() {
                assert(self.staged_moves()[i] == was[i]);
            }
        }
    }

    /// Read, seeing this transaction's own staged writes first.
    pub fn get<B: Backend>(&self, inner: &Inner, backend: &B, key: &str) -> (r: Result<Option<T>>)
        ensures
            sees::<B, T>(self.staged_moves(), inner, backend, key.spec_bytes(), r),
    {
        self.get_by(inner, backend, crate::meta::name_bytes(key).as_slice())
    }

    /// As [`Transaction::get`], under a binary key.
    pub fn get_by<B: Backend>(&self, inner: &Inner, backend: &B, key: &[u8]) -> (r: Result<Option<T>>)
        ensures
            sees::<B, T>(self.staged_moves(), inner, backend, key@, r),
    {
        match staged_view(&self.staged, key) {
            Some(None) => Ok(None),
            Some(Some(payload)) => match T::from_payload(payload.as_slice()) {
                Ok(value) => Ok(Some(value)),
                Err(e) => Err(e),
            },
            None => inner.load_value(backend, key),
        }
    }

    /// How many mutations are queued.
    pub fn len(&self) -> (n: usize)
        ensures
            n == self.staged_moves().len(),
    {
        self.staged.len()
    }

    /// Whether nothing is queued.
    pub fn is_empty(&self) -> (b: bool)
        ensures
            b == (self.staged_moves().len() == 0),
    {
        self.staged.len() == 0
    }

    /// The write-set, and the values of its puts.
    pub fn into_parts(self) -> (r: (Vec<Pending>, Vec<Option<T>>))
        ensures
            moves(r.0@) == self.staged_moves(),
            r.1@ == self.staged_values(),
    {
        (self.staged, self.values)
    }
}

/// `r` is what reading `key` gives where `list` is staged over what is stored.
pub open spec fn sees<B: Backend, T: Value>(
    list: Seq<Move>,
    inner: &Inner,
    backend: &B,
    key: Seq<u8>,
    r: Result<Option<T>>,
) -> bool {
    match reads(list, key) {
        Some(None) => r == Ok::<Option<T>, Error>(None),
        Some(Some(payload)) => {
            &&& r matches Ok(found) ==> found is Some && T::reading(payload) == Some(found->0.payload())
            &&& forall|v: T|
                v.packs() && #[trigger] v.payload() == payload ==> (r matches Ok(Some(w)) && w.payload() == payload)
            &&& r matches Err(e) ==> e.spec_is_corruption()
        },
        None => loads::<B, T>(inner, backend, key, r),
    }
}

/// `r` is what reading `key` from storage gives.
pub open spec fn loads<B: Backend, T: Value>(inner: &Inner, backend: &B, key: Seq<u8>, r: Result<Option<T>>) -> bool {
    let rows = locker_rows(backend.store().records, inner.id);
    let chunks = backend.store().chunks;
    &&& r matches Ok(None) ==> !rows.contains_key(key)
    &&& r matches Ok(Some(v)) ==> rows.contains_key(key) && (readable(*inner.chain, chunks, rows[key]) matches Some(p)
        && T::reading(p) == Some(v.payload()))
    &&& backend.answers() && !rows.contains_key(key) ==> r is Ok
    &&& forall|v: T|
        backend.answers() && rows.contains_key(key) && v.packs() && readable(*inner.chain, chunks, rows[key]) == Some(
            #[trigger] v.payload(),
        ) ==> (r matches Ok(Some(w)) && w.payload() == v.payload())
    &&& backend.shut() ==> (r matches Err(e) && e is Closed)
    &&& backend.answers() ==> (r matches Err(e) ==> rows.contains_key(key) && unread(
        *inner.chain,
        chunks,
        rows[key],
        e,
    ))
}

} // verus!
