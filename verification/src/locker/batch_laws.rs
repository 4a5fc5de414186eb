//! What holds of a store once a batch has landed: every key reads as it was
//! staged, nothing else is disturbed, and shedding takes only its victims.

use vstd::prelude::*;

use super::batch::{latest, reads, wipes, Move};
use super::chunk::FLAG_POSTCARD;
use super::inner::{gc_list, loaded, locker_rows, readable, stores, Inner, Prior};
use super::laws::{
    a_clear_empties_only_its_locker, a_delete_removes_only_its_key, a_write_disturbs_nothing_else,
    a_written_key_is_there, our_chain, owned, owns,
    survives, tidy, what_is_written_is_read,
};
use super::transaction::{batched, flat, id_after, opening, part_fits, prior_of, spells, TxMode};
use crate::backend::api::{after_all_appends, Change, Rows, Store};
use crate::codec::FilterChain;
use crate::key::{stored, storing_round_trips, LockerId};
use crate::sorted::{a_finite_set_is_listed, ascending_has_no_duplicates, listing};

verus! {

/// A record is stored as it was and loads to what it did.
pub open spec fn unmoved(chain: FilterChain, before: Store, after: Store, k: Seq<u8>) -> bool {
    &&& after.records.contains_key(k) <==> before.records.contains_key(k)
    &&& before.records.contains_key(k) ==> after.records[k] == before.records[k] && loaded(
        chain,
        after.chunks,
        before.records[k],
    ) == loaded(chain, before.chunks, before.records[k])
}

/// A key was left with `what`, under an id from `first` on where it has one.
pub open spec fn left_with(inner: &Inner, after: Store, key: Seq<u8>, what: Option<Seq<u8>>, first: u64) -> bool {
    let at = stored(inner.id, key);
    match what {
        Some(payload) => {
            &&& after.records.contains_key(at)
            &&& owns(after.records, at) ==> owned(after.records, at) >= first
            &&& survives(inner, payload, FLAG_POSTCARD) ==> kept(*inner.chain, after, inner.id, key, what)
        },
        None => kept(*inner.chain, after, inner.id, key, what),
    }
}

/// A store holds `what` under a key of a locker: nothing, or a record that
/// reads as a payload.
pub open spec fn kept(chain: FilterChain, store: Store, id: LockerId, key: Seq<u8>, what: Option<Seq<u8>>) -> bool {
    let rows = locker_rows(store.records, id);
    match what {
        Some(_) => rows.contains_key(key) && readable(chain, store.chunks, rows[key]) == what,
        None => !rows.contains_key(key),
    }
}

/// None of the first `n` keys is stored under `k`.
pub open spec fn not_among(id: LockerId, keys: Seq<Seq<u8>>, n: int, k: Seq<u8>) -> bool {
    forall|j: int| 0 <= j < n ==> #[trigger] stored(id, keys[j]) != k
}

/// The store after the first `n` keys of a batch.
spec fn part_way(
    inner: &Inner,
    chain: FilterChain,
    base: Store,
    now: Store,
    keys: Seq<Seq<u8>>,
    last: Map<Seq<u8>, Option<Seq<u8>>>,
    n: int,
    first: u64,
    id: u64,
) -> bool {
    &&& first <= id
    &&& tidy(now.records, id)
    &&& forall|k: Seq<u8>| #[trigger] not_among(inner.id, keys, n, k) ==> unmoved(chain, base, now, k)
    &&& forall|j: int| 0 <= j < n ==> left_with(inner, now, #[trigger] keys[j], last[keys[j]], first)
}

/// One more key of a batch.
proof fn one_key_on(
    inner: &Inner,
    chain: FilterChain,
    records: Rows,
    base: Store,
    now: Store,
    prior: Prior,
    keys: Seq<Seq<u8>>,
    last: Map<Seq<u8>, Option<Seq<u8>>>,
    n: int,
    first: u64,
    id: u64,
    part: Seq<Change>,
)
    requires
        inner.config.chunk_size > 0,
        0 <= n < keys.len(),
        keys.no_duplicates(),
        part_way(inner, chain, base, now, keys, last, n, first, id),
        part_fits(*inner, TxMode::Lazy, records, prior, keys[n], last[keys[n]], id, part),
        prior is Unknown ==> base.records == records,
    ensures
        part_way(
            inner,
            chain,
            base,
            now.after_all(part),
            keys,
            last,
            n + 1,
            first,
            id_after(*inner, TxMode::Lazy, last[keys[n]], id),
        ),
{
    let key = keys[n];
    let at = stored(inner.id, key);
    let after = now.after_all(part);
    let next = id_after(*inner, TxMode::Lazy, last[key], id);
    assert(not_among(inner.id, keys, n, at)) by {
        assert forall|j: int| 0 <= j < n implies #[trigger] stored(inner.id, keys[j]) != at by {
            storing_round_trips(inner.id, keys[j]);
            storing_round_trips(inner.id, key);
        }
    }
    assert(unmoved(chain, base, now, at));
    assert(gc_list(now.records, inner.id, key, prior) == gc_list(records, inner.id, key, prior));
    match last[key] {
        Some(payload) => {
            a_written_key_is_there(inner, now, key, payload, FLAG_POSTCARD, prior, id, part);
            reveal(stores);
            if survives(inner, payload, FLAG_POSTCARD) {
                what_is_written_is_read(inner, now, key, payload, FLAG_POSTCARD, prior, id, part);
            }
            assert forall|k: Seq<u8>| k != at implies #[trigger] unmoved(chain, now, after, k) && undisturbed(
                inner,
                now,
                after,
                k,
            ) by {
                a_write_disturbs_nothing_else(inner, now, key, payload, FLAG_POSTCARD, prior, id, part, chain, k);
                a_write_disturbs_nothing_else(inner, now, key, payload, FLAG_POSTCARD, prior, id, part, our_chain(inner), k);
            }
            a_write_disturbs_nothing_else(
                inner,
                now,
                key,
                payload,
                FLAG_POSTCARD,
                prior,
                id,
                part,
                chain,
                some_other(at),
            );
        },
        None => {
            assert forall|k: Seq<u8>| k != at implies #[trigger] unmoved(chain, now, after, k) && undisturbed(
                inner,
                now,
                after,
                k,
            ) by {
                a_delete_removes_only_its_key(now, inner.id, key, prior, id, chain, k);
                a_delete_removes_only_its_key(now, inner.id, key, prior, id, our_chain(inner), k);
            }
            a_delete_removes_only_its_key(now, inner.id, key, prior, id, chain, some_other(at));
        },
    }
    assert forall|k: Seq<u8>| #[trigger] not_among(inner.id, keys, n + 1, k) implies unmoved(chain, base, after, k) by {
        assert(stored(inner.id, keys[n]) != k);
        assert(not_among(inner.id, keys, n, k)) by {
            assert forall|j: int| 0 <= j < n implies #[trigger] stored(inner.id, keys[j]) != k by {}
        }
        assert(unmoved(chain, base, now, k));
        assert(unmoved(chain, now, after, k));
    }
    assert forall|j: int| 0 <= j < n + 1 implies left_with(inner, after, #[trigger] keys[j], last[keys[j]], first) by {
        if j < n {
            assert(left_with(inner, now, keys[j], last[keys[j]], first));
            let k = stored(inner.id, keys[j]);
            storing_round_trips(inner.id, keys[j]);
            storing_round_trips(inner.id, key);
            assert(k != at);
            assert(unmoved(chain, now, after, k));
            assert(undisturbed(inner, now, after, k));
        }
    }
}

/// Read with the locker's own chain, a record is where it was and loads to
/// what it did.
spec fn undisturbed(inner: &Inner, before: Store, after: Store, k: Seq<u8>) -> bool {
    unmoved(*inner.chain, before, after, k)
}

/// Some key other than this one.
spec fn some_other(k: Seq<u8>) -> Seq<u8> {
    k.push(0)
}

/// The keys of a batch, one after the other.
proof fn all_keys_on(
    inner: &Inner,
    chain: FilterChain,
    records: Rows,
    base: Store,
    prior: Prior,
    keys: Seq<Seq<u8>>,
    last: Map<Seq<u8>, Option<Seq<u8>>>,
    parts: Seq<Seq<Change>>,
    ids: Seq<u64>,
    n: int,
)
    requires
        inner.config.chunk_size > 0,
        keys.no_duplicates(),
        spells(*inner, TxMode::Lazy, records, prior, keys, last, parts, ids),
        prior is Unknown ==> base.records == records,
        tidy(base.records, ids[0]),
        0 <= n <= keys.len(),
    ensures
        part_way(inner, chain, base, base.after_all(flat(parts.take(n))), keys, last, n, ids[0], ids[n]),
    decreases n,
{
    if n == 0 {
        assert(flat(parts.take(0)) =~= Seq::<Change>::empty());
        assert(base.after_all(Seq::<Change>::empty()) == base);
    } else {
        all_keys_on(inner, chain, records, base, prior, keys, last, parts, ids, n - 1);
        let m = n - 1;
        assert(parts.take(n).drop_last() =~= parts.take(m));
        assert(parts.take(n).last() == parts[m]);
        after_all_appends(base, flat(parts.take(m)), parts[m]);
        assert(keys.contains(keys[m]));
        assert(ids[m + 1] == id_after(*inner, TxMode::Lazy, last[keys[m]], ids[m]));
        one_key_on(
            inner,
            chain,
            records,
            base,
            base.after_all(flat(parts.take(m))),
            prior,
            keys,
            last,
            m,
            ids[0],
            ids[m],
            parts[m],
        );
    }
}

/// Once a batch has landed, every key of its locker reads as it did through
/// the staged batch: as the payload last staged, as nothing where it was
/// removed or cleared, and as before where the batch does not touch it. The
/// store stays tidy.
pub proof fn a_landed_batch_reads_as_staged(
    inner: &Inner,
    store: Store,
    list: Seq<Move>,
    first: u64,
    next: u64,
    out: Seq<Change>,
    key: Seq<u8>,
)
    requires
        inner.config.chunk_size > 0,
        batched(*inner, TxMode::Lazy, store.records, list, first, next, out),
        store.is_finite(),
        tidy(store.records, first),
    ensures
        ({
            let after = store.after_all(out);
            &&& tidy(after.records, next)
            &&& match reads(list, key) {
                Some(what) => left_with(inner, after, key, what, first),
                None => unmoved(*inner.chain, store, after, stored(inner.id, key)),
            }
        }),
{
    let last = latest(list);
    let keys = listing(last.dom());
    latest_is_finite(list);
    a_finite_set_is_listed(last.dom());
    ascending_has_no_duplicates(keys);
    let (parts, ids) = choose|parts: Seq<Seq<Change>>, ids: Seq<u64>|
        {
            &&& #[trigger] spells(*inner, TxMode::Lazy, store.records, prior_of(list), keys, last, parts, ids)
            &&& ids[0] == first
            &&& ids.last() == next
            &&& out == opening(*inner, TxMode::Lazy, store.records, list) + flat(parts)
        };
    let head = opening(*inner, TxMode::Lazy, store.records, list);
    let base = store.after_all(head);
    after_all_appends(store, head, flat(parts));
    if wipes(list) {
        clearing_for_a_batch(inner, store, first);
    } else {
        assert(head =~= Seq::<Change>::empty());
        assert(store.after_all(Seq::<Change>::empty()) == store);
    }
    ours(inner, store.records, base, prior_of(list), keys, last, parts, ids);
    assert(parts.take(parts.len() as int) =~= parts);
    let after = store.after_all(out);
    if last.contains_key(key) {
        assert(last.dom().contains(key));
        let j = keys.index_of(key);
        assert(left_with(inner, after, keys[j], last[keys[j]], first));
    } else {
        let k = stored(inner.id, key);
        assert forall|j: int| 0 <= j < keys.len() implies #[trigger] stored(inner.id, keys[j]) != k by {
            storing_round_trips(inner.id, keys[j]);
            storing_round_trips(inner.id, key);
            assert(keys.contains(keys[j]));
            assert(last.dom().contains(keys[j]));
        }
        assert(not_among(inner.id, keys, keys.len() as int, k));
        assert(undisturbed(inner, base, after, k));
    }
}

/// A batch with the locker's own chain.
proof fn ours(
    inner: &Inner,
    records: Rows,
    base: Store,
    prior: Prior,
    keys: Seq<Seq<u8>>,
    last: Map<Seq<u8>, Option<Seq<u8>>>,
    parts: Seq<Seq<Change>>,
    ids: Seq<u64>,
)
    requires
        inner.config.chunk_size > 0,
        keys.no_duplicates(),
        spells(*inner, TxMode::Lazy, records, prior, keys, last, parts, ids),
        prior is Unknown ==> base.records == records,
        tidy(base.records, ids[0]),
    ensures
        ({
            let after = base.after_all(flat(parts.take(parts.len() as int)));
            &&& tidy(after.records, ids[keys.len() as int])
            &&& forall|k: Seq<u8>| #[trigger]
                not_among(inner.id, keys, keys.len() as int, k) ==> undisturbed(inner, base, after, k)
            &&& forall|j: int| 0 <= j < keys.len() ==> left_with(inner, after, #[trigger] keys[j], last[keys[j]], ids[0])
        }),
{
    all_keys_on(inner, our_chain(inner), records, base, prior, keys, last, parts, ids, keys.len() as int);
}

/// A batch names finitely many keys.
pub(crate) proof fn latest_is_finite(list: Seq<Move>)
    ensures
        latest(list).dom().finite(),
    decreases list.len(),
{
    if list.len() > 0 {
        latest_is_finite(list.drop_last());
    }
}

/// The clear a batch opens with.
proof fn clearing_for_a_batch(inner: &Inner, store: Store, next: u64)
    requires
        store.is_finite(),
        tidy(store.records, next),
    ensures
        ({
            let after = store.after_all(super::inner::clears(store.records, inner.id));
            &&& tidy(after.records, next)
            &&& forall|k: Seq<u8>| !(#[trigger] after.records.contains_key(stored(inner.id, k)))
        }),
{
    let other: LockerId = if inner.id == 0 {
        1
    } else {
        0
    };
    a_clear_empties_only_its_locker(store, inner.id, next, our_chain(inner), other, Seq::empty());
    let after = store.after_all(super::inner::clears(store.records, inner.id));
    assert forall|k: Seq<u8>| !(#[trigger] after.records.contains_key(stored(inner.id, k))) by {
        assert(locker_rows(after.records, inner.id).contains_key(k) <==> after.records.contains_key(
            stored(inner.id, k),
        ));
    }
}

} // verus!
