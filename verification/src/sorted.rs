//! A map from byte strings to values, kept in key order.
//!
//! The entries are one sorted vector with nothing twice in it, so a key is
//! found by bisection, listing is a plain walk, and a range of keys is a
//! contiguous run.

use vstd::prelude::*;

use crate::bytes::{
    ascending, before, before_is_asymmetric, before_is_irreflexive, before_is_total, before_is_transitive,
    copy, order, same, Order,
};

verus! {

/// `keys` is exactly `dom`, in ascending order.
pub open spec fn lists(keys: Seq<Seq<u8>>, dom: Set<Seq<u8>>) -> bool {
    &&& ascending(keys)
    &&& forall|k: Seq<u8>| #[trigger] dom.contains(k) <==> keys.contains(k)
}

/// The members of `dom` in ascending order.
pub open spec fn listing(dom: Set<Seq<u8>>) -> Seq<Seq<u8>> {
    choose|keys: Seq<Seq<u8>>| lists(keys, dom)
}

/// An ascending sequence holds nothing twice.
pub proof fn ascending_has_no_duplicates(keys: Seq<Seq<u8>>)
    requires
        ascending(keys),
    ensures
        keys.no_duplicates(),
{
    assert forall|i: int, j: int| 0 <= i < keys.len() && 0 <= j < keys.len() && i != j implies keys[i] != keys[j] by {
        if i < j {
            before_is_asymmetric(keys[i], keys[j]);
        } else {
            before_is_asymmetric(keys[j], keys[i]);
        }
    }
}

/// Only one ascending sequence lists a set.
pub proof fn a_listing_is_unique(a: Seq<Seq<u8>>, b: Seq<Seq<u8>>, dom: Set<Seq<u8>>)
    requires
        lists(a, dom),
        lists(b, dom),
    ensures
        a == b,
    decreases a.len(),
{
    if a.len() == 0 {
        if b.len() > 0 {
            assert(b.contains(b[0]));
            assert(dom.contains(b[0]));
            assert(a.contains(b[0]));
        }
        assert(a =~= b);
    } else {
        assert(a.contains(a[0]));
        assert(dom.contains(a[0]));
        assert(b.contains(a[0]));
        assert(b.contains(b[0]));
        assert(dom.contains(b[0]));
        assert(a.contains(b[0]));
        let i = choose|i: int| 0 <= i < a.len() && a[i] == b[0];
        let j = choose|j: int| 0 <= j < b.len() && b[j] == a[0];
        if i > 0 && j > 0 {
            before_is_asymmetric(a[0], a[i]);
        }
        assert(a[0] == b[0]);
        let rest = dom.remove(a[0]);
        let ta = a.skip(1);
        let tb = b.skip(1);
        assert forall|k: Seq<u8>| #[trigger] rest.contains(k) <==> ta.contains(k) by {
            if rest.contains(k) {
                let n = choose|n: int| 0 <= n < a.len() && a[n] == k;
                assert(ta[n - 1] == k);
            }
            if ta.contains(k) {
                let n = choose|n: int| 0 <= n < ta.len() && ta[n] == k;
                assert(a[n + 1] == k);
                before_is_asymmetric(a[0], a[n + 1]);
                assert(a.contains(k));
            }
        }
        assert forall|k: Seq<u8>| #[trigger] rest.contains(k) <==> tb.contains(k) by {
            if rest.contains(k) {
                let n = choose|n: int| 0 <= n < b.len() && b[n] == k;
                assert(tb[n - 1] == k);
            }
            if tb.contains(k) {
                let n = choose|n: int| 0 <= n < tb.len() && tb[n] == k;
                assert(b[n + 1] == k);
                before_is_asymmetric(b[0], b[n + 1]);
                assert(b.contains(k));
            }
        }
        a_listing_is_unique(ta, tb, rest);
        assert(a =~= seq![a[0]] + ta);
        assert(b =~= seq![b[0]] + tb);
    }
}

/// A sequence that lists a set is the set's listing.
pub proof fn the_listing_is(keys: Seq<Seq<u8>>, dom: Set<Seq<u8>>)
    requires
        lists(keys, dom),
    ensures
        listing(dom) == keys,
        dom.finite(),
        dom.len() == keys.len(),
{
    a_listing_is_unique(keys, listing(dom), dom);
    ascending_has_no_duplicates(keys);
    keys.unique_seq_to_set();
    assert(dom =~= keys.to_set());
    vstd::seq_lib::seq_to_set_is_finite(keys);
}

/// A finite set has a listing.
pub proof fn a_finite_set_is_listed(dom: Set<Seq<u8>>)
    requires
        dom.finite(),
    ensures
        lists(listing(dom), dom),
    decreases dom.len(),
{
    if dom.len() == 0 {
        assert(dom =~= Set::empty());
        assert(lists(Seq::empty(), dom));
    } else {
        let k = dom.choose();
        let rest = dom.remove(k);
        a_finite_set_is_listed(rest);
        let tail = listing(rest);
        let at = count_before(tail, k);
        count_before_splits(tail, k);
        let keys = tail.insert(at, k);
        assert(!tail.contains(k));
        inserting_keeps_the_order(tail, at, k);
        assert(dom =~= rest.insert(k));
        assert(lists(keys, dom)) by {
            assert forall|x: Seq<u8>| #[trigger] dom.contains(x) <==> keys.contains(x) by {
                inserting_adds_one(tail, at, k, x);
            }
        }
    }
}

/// How many of an ascending run of keys sort before `k`.
pub open spec fn count_before(keys: Seq<Seq<u8>>, k: Seq<u8>) -> int
    decreases keys.len(),
{
    if keys.len() == 0 || !before(keys[0], k) {
        0
    } else {
        1 + count_before(keys.skip(1), k)
    }
}

/// `at` keys of an ascending sequence sort before `k`, and the rest do not.
pub open spec fn splits_at(keys: Seq<Seq<u8>>, k: Seq<u8>, at: int) -> bool {
    &&& 0 <= at <= keys.len()
    &&& forall|i: int| 0 <= i < at ==> before(#[trigger] keys[i], k)
    &&& forall|i: int| at <= i < keys.len() ==> !before(#[trigger] keys[i], k)
}

/// The count splits the sequence.
pub proof fn count_before_splits(keys: Seq<Seq<u8>>, k: Seq<u8>)
    requires
        ascending(keys),
    ensures
        splits_at(keys, k, count_before(keys, k)),
    decreases keys.len(),
{
    if keys.len() > 0 {
        if before(keys[0], k) {
            let tail = keys.skip(1);
            count_before_splits(tail, k);
            let n = count_before(tail, k);
            assert forall|i: int| 0 <= i < n + 1 implies before(#[trigger] keys[i], k) by {
                if i > 0 {
                    assert(tail[i - 1] == keys[i]);
                }
            }
            assert forall|i: int| n + 1 <= i < keys.len() implies !before(#[trigger] keys[i], k) by {
                assert(tail[i - 1] == keys[i]);
            }
        } else {
            assert forall|i: int| 0 <= i < keys.len() implies !before(#[trigger] keys[i], k) by {
                if i > 0 && before(keys[i], k) {
                    before_is_transitive(keys[0], keys[i], k);
                }
            }
        }
    }
}

/// Inserting a new key where it sorts keeps a sequence ascending.
pub proof fn inserting_keeps_the_order(keys: Seq<Seq<u8>>, at: int, k: Seq<u8>)
    requires
        ascending(keys),
        splits_at(keys, k, at),
        !keys.contains(k),
    ensures
        ascending(keys.insert(at, k)),
{
    let all = keys.insert(at, k);
    assert forall|i: int, j: int| 0 <= i < j < all.len() implies before(#[trigger] all[i], #[trigger] all[j]) by {
        if j == at {
            assert(all[i] == keys[i]);
        } else if i == at {
            assert(all[j] == keys[j - 1]);
            before_is_total(k, keys[j - 1]);
            assert(keys.contains(keys[j - 1]));
        } else {
            let a = if i < at { i } else { i - 1 };
            let b = if j < at { j } else { j - 1 };
            assert(all[i] == keys[a] && all[j] == keys[b]);
        }
    }
}

/// What a sequence holds after an insertion.
pub proof fn inserting_adds_one(keys: Seq<Seq<u8>>, at: int, k: Seq<u8>, x: Seq<u8>)
    requires
        0 <= at <= keys.len(),
    ensures
        keys.insert(at, k).contains(x) <==> keys.contains(x) || x == k,
{
    let all = keys.insert(at, k);
    assert(all[at] == k);
    if keys.contains(x) {
        let i = choose|i: int| 0 <= i < keys.len() && keys[i] == x;
        if i < at {
            assert(all[i] == x);
        } else {
            assert(all[i + 1] == x);
        }
    }
    if all.contains(x) {
        let i = choose|i: int| 0 <= i < all.len() && all[i] == x;
        if i < at {
            assert(keys[i] == x);
        } else if i > at {
            assert(keys[i - 1] == x);
        }
    }
}

/// The map that pairs each key with the value at its place.
pub open spec fn paired<V>(keys: Seq<Seq<u8>>, values: Seq<V>) -> Map<Seq<u8>, V> {
    Map::new(|k: Seq<u8>| keys.contains(k), |k: Seq<u8>| values[keys.index_of(k)])
}

/// A key with nothing twice is paired with the value at its own place.
pub proof fn paired_at<V>(keys: Seq<Seq<u8>>, values: Seq<V>, i: int)
    requires
        ascending(keys),
        0 <= i < keys.len(),
    ensures
        paired(keys, values).contains_key(keys[i]),
        paired(keys, values)[keys[i]] == values[i],
{
    assert(keys.contains(keys[i]));
    let j = keys.index_of(keys[i]);
    assert(0 <= j < keys.len() && keys[j] == keys[i]);
    if i < j {
        before_is_asymmetric(keys[i], keys[j]);
    } else if j < i {
        before_is_asymmetric(keys[j], keys[i]);
    }
}

/// A map from byte strings to values, in key order.
pub struct ByteMap<V> {
    entries: Vec<(Vec<u8>, V)>,
}

impl<V> View for ByteMap<V> {
    type V = Map<Seq<u8>, V>;

    closed spec fn view(&self) -> Map<Seq<u8>, V> {
        paired(self.keys(), self.values())
    }
}

impl<V> ByteMap<V> {
    /// The keys, ascending.
    pub closed spec fn keys(self) -> Seq<Seq<u8>> {
        Seq::new(self.entries@.len(), |i: int| self.entries@[i].0@)
    }

    /// The values, in the order of their keys.
    pub closed spec fn values(self) -> Seq<V> {
        Seq::new(self.entries@.len(), |i: int| self.entries@[i].1)
    }

    #[verifier::type_invariant]
    spec fn well_formed(self) -> bool {
        ascending(self.keys())
    }

    /// Keys and values describe the map and each other.
    pub proof fn reading(&self)
        requires
            ascending(self.keys()),
        ensures
            lists(self.keys(), self@.dom()),
            listing(self@.dom()) == self.keys(),
            self@.dom().finite(),
            self@.dom().len() == self.keys().len(),
            self.values().len() == self.keys().len(),
            forall|i: int|
                0 <= i < self.keys().len() ==> self@.contains_key(#[trigger] self.keys()[i])
                    && self@[self.keys()[i]] == self.values()[i],
    {
        assert forall|i: int| 0 <= i < self.keys().len() implies self@.contains_key(#[trigger] self.keys()[i])
            && self@[self.keys()[i]] == self.values()[i] by {
            paired_at(self.keys(), self.values(), i);
        }
        assert(lists(self.keys(), self@.dom()));
        the_listing_is(self.keys(), self@.dom());
    }

    /// An empty map.
    pub fn new() -> (m: Self)
        ensures
            m@ == Map::<Seq<u8>, V>::empty(),
    {
        let m = ByteMap { entries: Vec::new() };
        assert(m@ =~= Map::<Seq<u8>, V>::empty());
        m
    }

    /// How many keys there are.
    pub fn len(&self) -> (n: usize)
        ensures
            n == self@.dom().len(),
            self@.dom().finite(),
            n == self.keys().len(),
            lists(self.keys(), self@.dom()),
            listing(self@.dom()) == self.keys(),
            self.values().len() == self.keys().len(),
            forall|i: int|
                0 <= i < self.keys().len() ==> self@.contains_key(#[trigger] self.keys()[i])
                    && self@[self.keys()[i]] == self.values()[i],
    {
        proof {
            use_type_invariant(&*self);
            self.reading();
        }
        self.entries.len()
    }

    /// Whether there are none.
    pub fn is_empty(&self) -> (b: bool)
        ensures
            b == (self@.dom().len() == 0),
            b == (self@ == Map::<Seq<u8>, V>::empty()),
    {
        proof {
            use_type_invariant(&*self);
            self.reading();
            if self@.dom().len() == 0 {
                assert(self@ =~= Map::<Seq<u8>, V>::empty());
            }
        }
        self.entries.len() == 0
    }

    /// The key at a place in the order.
    pub fn key_at(&self, i: usize) -> (k: &Vec<u8>)
        requires
            i < self.keys().len(),
        ensures
            k@ == self.keys()[i as int],
    {
        &self.entries[i].0
    }

    /// The value at a place in the order.
    pub fn value_at(&self, i: usize) -> (v: &V)
        requires
            i < self.keys().len(),
        ensures
            *v == self.values()[i as int],
    {
        &self.entries[i].1
    }

    /// How many keys sort before `key`.
    pub fn position(&self, key: &[u8]) -> (at: usize)
        ensures
            splits_at(self.keys(), key@, at as int),
    {
        proof {
            use_type_invariant(&*self);
        }
        let mut low: usize = 0;
        let mut high: usize = self.entries.len();
        while low < high
            invariant
                ascending(self.keys()),
                0 <= low <= high <= self.entries.len(),
                self.keys().len() == self.entries.len(),
                forall|i: int| 0 <= i < low ==> before(#[trigger] self.keys()[i], key@),
                forall|i: int| high <= i < self.keys().len() ==> !before(#[trigger] self.keys()[i], key@),
            decreases high - low,
        {
            let mid: usize = low + (high - low) / 2;
            let is_before: bool = match order(self.entries[mid].0.as_slice(), key) {
                Order::Less => true,
                _ => false,
            };
            assert(self.keys()[mid as int] == self.entries@[mid as int].0@);
            if is_before {
                assert forall|i: int| 0 <= i < mid + 1 implies before(#[trigger] self.keys()[i], key@) by {
                    if i < mid {
                        before_is_transitive(self.keys()[i], self.keys()[mid as int], key@);
                    }
                }
                low = mid + 1;
            } else {
                assert forall|i: int| mid <= i < self.keys().len() implies !before(#[trigger] self.keys()[i], key@) by {
                    if i > mid && before(self.keys()[i], key@) {
                        before_is_transitive(self.keys()[mid as int], self.keys()[i], key@);
                    }
                }
                high = mid;
            }
        }
        low
    }

    /// Where `key` is, or where it would go.
    fn find(&self, key: &[u8]) -> (r: Result<usize, usize>)
        ensures
            match r {
                Ok(i) => i < self.keys().len() && self.keys()[i as int] == key@,
                Err(i) => splits_at(self.keys(), key@, i as int) && !self.keys().contains(key@),
            },
            ascending(self.keys()),
    {
        proof {
            use_type_invariant(&*self);
        }
        let at: usize = self.position(key);
        assert(self.keys().len() == self.entries.len());
        if at < self.entries.len() && same(self.entries[at].0.as_slice(), key) {
            assert(self.keys()[at as int] == self.entries@[at as int].0@);
            Ok(at)
        } else {
            proof {
                if self.keys().contains(key@) {
                    let i = choose|i: int| 0 <= i < self.keys().len() && self.keys()[i] == key@;
                    before_is_irreflexive(key@);
                    if i > at {
                        assert(before(self.keys()[at as int], self.keys()[i]));
                    }
                    assert(i == at);
                    assert(self.keys()[at as int] == self.entries@[at as int].0@);
                }
            }
            Err(at)
        }
    }

    /// The value under `key`.
    pub fn get(&self, key: &[u8]) -> (v: Option<&V>)
        ensures
            v matches Some(x) ==> self@.contains_key(key@) && *x == self@[key@],
            v is None ==> !self@.contains_key(key@),
            self@.dom().finite(),
    {
        proof {
            use_type_invariant(&*self);
            self.reading();
        }
        match self.find(key) {
            Ok(i) => {
                proof {
                    paired_at(self.keys(), self.values(), i as int);
                }
                Some(&self.entries[i].1)
            },
            Err(_) => None,
        }
    }

    /// Whether `key` is there.
    pub fn contains_key(&self, key: &[u8]) -> (b: bool)
        ensures
            b == self@.contains_key(key@),
    {
        self.get(key).is_some()
    }

    /// Put `value` under `key`, and hand back what it replaced.
    pub fn insert(&mut self, key: Vec<u8>, value: V) -> (replaced: Option<V>)
        ensures
            final(self)@ == old(self)@.insert(key@, value),
            replaced matches Some(x) ==> old(self)@.contains_key(key@) && x == old(self)@[key@],
            replaced is None ==> !old(self)@.contains_key(key@),
    {
        let ghost k = key@;
        let found = self.find(key.as_slice());
        let ghost keys = self.keys();
        let ghost values = self.values();
        let mut entries: Vec<(Vec<u8>, V)> = Vec::new();
        core::mem::swap(&mut entries, &mut self.entries);
        let ghost was = entries@;
        match found {
            Ok(i) => {
                let replaced = entries.remove(i);
                entries.insert(i, (key, value));
                assert(ByteMap { entries }.keys() =~= keys);
                let next = ByteMap { entries };
                proof {
                    paired_at(keys, values, i as int);
                    assert(next.entries@ =~= was.update(i as int, next.entries@[i as int]));
                    assert(next.keys() =~= keys);
                    assert(next.values() =~= values.update(i as int, value));
                    assert forall|x: Seq<u8>| next@.contains_key(x) implies next@[x] == old(self)@.insert(k, value)[x] by {
                        let n = keys.index_of(x);
                        paired_at(keys, values, n);
                        paired_at(next.keys(), next.values(), n);
                        if x == k {
                            paired_at(next.keys(), next.values(), i as int);
                        }
                    }
                    assert(next@ =~= old(self)@.insert(k, value));
                }
                *self = next;
                Some(replaced.1)
            },
            Err(i) => {
                proof {
                    inserting_keeps_the_order(keys, i as int, k);
                }
                entries.insert(i, (key, value));
                assert(ByteMap { entries }.keys() =~= keys.insert(i as int, k));
                let next = ByteMap { entries };
                proof {
                    assert(next.keys() =~= keys.insert(i as int, k));
                    assert(next.values() =~= values.insert(i as int, value));
                    assert forall|x: Seq<u8>| #[trigger] next@.contains_key(x) <==> old(self)@.insert(k, value).contains_key(x) by {
                        inserting_adds_one(keys, i as int, k, x);
                    }
                    assert forall|x: Seq<u8>| next@.contains_key(x) implies next@[x] == old(self)@.insert(k, value)[x] by {
                        let n = next.keys().index_of(x);
                        paired_at(next.keys(), next.values(), n);
                        if n < i {
                            paired_at(keys, values, n);
                            assert(keys.contains(keys[n]));
                        } else if n > i {
                            paired_at(keys, values, n - 1);
                            assert(keys.contains(keys[n - 1]));
                        }
                    }
                    assert(next@ =~= old(self)@.insert(k, value));
                }
                *self = next;
                None
            },
        }
    }

    /// Drop the keys at the places `from .. to`.
    pub fn cut(&mut self, from: usize, to: usize)
        requires
            from <= to <= old(self).keys().len(),
        ensures
            final(self).keys() == old(self).keys().take(from as int) + old(self).keys().skip(to as int),
            final(self)@ == old(self)@.remove_keys(old(self).keys().subrange(from as int, to as int).to_set()),
    {
        proof {
            use_type_invariant(&*self);
        }
        let ghost keys = self.keys();
        let ghost values = self.values();
        let mut entries: Vec<(Vec<u8>, V)> = Vec::new();
        core::mem::swap(&mut entries, &mut self.entries);
        let ghost was = entries@;
        let mut tail = entries.split_off(to);
        entries.truncate(from);
        entries.append(&mut tail);
        let ghost left = keys.take(from as int) + keys.skip(to as int);
        let ghost kept = values.take(from as int) + values.skip(to as int);
        proof {
            assert(entries@ =~= was.take(from as int) + was.skip(to as int));
            assert forall|i: int, j: int| 0 <= i < j < left.len() implies before(#[trigger] left[i], #[trigger] left[j]) by {
                let a = if i < from { i } else { i - from + to };
                let b = if j < from { j } else { j - from + to };
                assert(left[i] == keys[a] && left[j] == keys[b]);
            }
            assert(ByteMap { entries }.keys() =~= left);
        }
        let next = ByteMap { entries };
        proof {
            assert(next.keys() =~= left);
            assert(next.values() =~= kept);
            let gone = keys.subrange(from as int, to as int).to_set();
            assert forall|x: Seq<u8>| #[trigger] next@.contains_key(x) <==> old(self)@.contains_key(x) && !gone.contains(x) by {
                if keys.contains(x) {
                    let n = keys.index_of(x);
                    if from <= n < to {
                        assert(keys.subrange(from as int, to as int)[n - from] == x);
                    } else if n < from {
                        assert(left[n] == x);
                    } else {
                        assert(left[n - to + from] == x);
                    }
                }
                if left.contains(x) {
                    let n = left.index_of(x);
                    let a = if n < from { n } else { n - from + to };
                    assert(keys[a] == x);
                    if gone.contains(x) {
                        let m = choose|m: int| 0 <= m < to - from && keys.subrange(from as int, to as int)[m] == x;
                        assert(keys[m + from] == x);
                        ascending_has_no_duplicates(keys);
                    }
                }
            }
            assert forall|x: Seq<u8>| next@.contains_key(x) implies next@[x] == old(self)@[x] by {
                let n = left.index_of(x);
                paired_at(left, kept, n);
                let a = if n < from { n } else { n - from + to };
                paired_at(keys, values, a);
                assert(kept[n] == values[a]);
            }
            assert(next@ =~= old(self)@.remove_keys(gone));
        }
        *self = next;
    }

    /// Remove `key`, and hand back what was under it.
    pub fn remove(&mut self, key: &[u8]) -> (removed: Option<V>)
        ensures
            final(self)@ == old(self)@.remove(key@),
            removed matches Some(x) ==> old(self)@.contains_key(key@) && x == old(self)@[key@],
            removed is None ==> !old(self)@.contains_key(key@),
    {
        let found = self.find(key);
        match found {
            Ok(i) => {
                let ghost keys = self.keys();
                let ghost values = self.values();
                let mut entries: Vec<(Vec<u8>, V)> = Vec::new();
                core::mem::swap(&mut entries, &mut self.entries);
                let removed = entries.remove(i);
                proof {
                    let left = keys.remove(i as int);
                    assert forall|a: int, b: int| 0 <= a < b < left.len() implies before(#[trigger] left[a], #[trigger] left[b]) by {
                        let x = if a < i { a } else { a + 1 };
                        let y = if b < i { b } else { b + 1 };
                        assert(left[a] == keys[x] && left[b] == keys[y]);
                    }
                    assert(ByteMap { entries }.keys() =~= left);
                }
                let next = ByteMap { entries };
                proof {
                    let left = keys.remove(i as int);
                    assert(next.keys() =~= left);
                    assert(next.values() =~= values.remove(i as int));
                    paired_at(keys, values, i as int);
                    assert forall|x: Seq<u8>| #[trigger] next@.contains_key(x) <==> old(self)@.remove(key@).contains_key(x) by {
                        if left.contains(x) {
                            let n = left.index_of(x);
                            let a = if n < i { n } else { n + 1 };
                            assert(keys[a] == x);
                            ascending_has_no_duplicates(keys);
                        }
                        if keys.contains(x) && x != key@ {
                            let n = keys.index_of(x);
                            if n < i {
                                assert(left[n] == x);
                            } else {
                                assert(left[n - 1] == x);
                            }
                        }
                    }
                    assert forall|x: Seq<u8>| next@.contains_key(x) implies next@[x] == old(self)@.remove(key@)[x] by {
                        let n = left.index_of(x);
                        let a = if n < i { n } else { n + 1 };
                        paired_at(left, next.values(), n);
                        paired_at(keys, values, a);
                    }
                    assert(next@ =~= old(self)@.remove(key@));
                }
                *self = next;
                Some(removed.1)
            },
            Err(_) => {
                assert(old(self)@.remove(key@) =~= old(self)@);
                None
            },
        }
    }

    /// Drop everything.
    pub fn clear(&mut self)
        ensures
            final(self)@ == Map::<Seq<u8>, V>::empty(),
    {
        *self = ByteMap::new();
    }

    /// A copy of the keys, ascending.
    pub fn key_list(&self) -> (list: Vec<Vec<u8>>)
        ensures
            views(list@) == listing(self@.dom()),
    {
        let n: usize = self.len();
        let mut list: Vec<Vec<u8>> = Vec::new();
        let mut i: usize = 0;
        while i < n
            invariant
                n == self.keys().len(),
                i <= n,
                views(list@) == self.keys().take(i as int),
            decreases n - i,
        {
            let ghost so_far = list@;
            list.push(copy(self.key_at(i).as_slice()));
            assert(views(list@) =~= views(so_far).push(self.keys()[i as int]));
            assert(views(list@) =~= self.keys().take(i + 1));
            i += 1;
        }
        assert(self.keys().take(n as int) =~= self.keys());
        list
    }
}

/// The byte strings that a list of vectors holds.
pub open spec fn views(list: Seq<Vec<u8>>) -> Seq<Seq<u8>> {
    Seq::new(list.len(), |i: int| list[i]@)
}

} // verus!
