//! Reading a whole range, one page at a time.

use std::ops::Bound;

use vstd::prelude::*;

use super::api::{
    at_most, keys_within, rows_at, rows_of, scan_keys, Backend, KeyRange, Rows, ScanRequest, Span, Store, Table,
};
use crate::bytes::{ascending, before, before_is_asymmetric, before_is_irreflexive, before_is_transitive, copy};
use crate::error::Result;
use crate::sorted::{a_finite_set_is_listed, listing, the_listing_is, views};

verus! {

/// A walk over a range that has not been read to its end.
pub struct Pages {
    table: Table,
    range: KeyRange,
    reverse: bool,
    want_values: bool,
    done: bool,
}

/// A range with its near edge moved just past `last`.
pub open spec fn past(range: Span, reverse: bool, last: Seq<u8>) -> Span {
    if reverse {
        Span { end: Bound::Excluded(last), ..range }
    } else {
        Span { start: Bound::Excluded(last), ..range }
    }
}

/// Excluding the last key of a page leaves exactly the keys after it, in
/// either direction: nothing is skipped and nothing is read twice.
pub proof fn resuming_skips_what_was_shown(rows: Rows, range: Span, reverse: bool, n: int)
    requires
        rows.dom().finite(),
        0 < n <= scan_keys(rows, range, reverse).len(),
    ensures
        scan_keys(rows, past(range, reverse, scan_keys(rows, range, reverse)[n - 1]), reverse) == scan_keys(
            rows,
            range,
            reverse,
        ).skip(n),
{
    let dom = keys_within(rows, range);
    assert(dom =~= rows.dom().filter(|k: Seq<u8>| range.contains(k)));
    rows.dom().lemma_len_filter(|k: Seq<u8>| range.contains(k));
    a_finite_set_is_listed(dom);
    let all = listing(dom);
    let shown = scan_keys(rows, range, reverse);
    let last = shown[n - 1];
    let rest = past(range, reverse, last);
    let left = keys_within(rows, rest);
    let len = all.len() as int;
    let cut = if reverse { len - n } else { n };
    let kept = if reverse { all.take(cut) } else { all.skip(cut) };
    let at = if reverse { len - n } else { n - 1 };
    assert(last == all[at]);
    assert(ascending(kept)) by {
        assert forall|i: int, j: int| 0 <= i < j < kept.len() implies before(#[trigger] kept[i], #[trigger] kept[j]) by {
            if reverse {
                assert(kept[i] == all[i] && kept[j] == all[j]);
            } else {
                assert(kept[i] == all[i + cut] && kept[j] == all[j + cut]);
            }
        }
    }
    assert forall|k: Seq<u8>| #[trigger] left.contains(k) <==> kept.contains(k) by {
        if left.contains(k) {
            // The resumed range lies inside the old one.
            assert(range.contains(k)) by {
                assert(dom.contains(last)) by {
                    assert(all.contains(all[at]));
                }
                assert(range.contains(last));
                if reverse {
                    match range.end {
                        Bound::Unbounded => {},
                        Bound::Included(e) => {
                            if before(e, k) {
                                before_is_transitive(e, k, last);
                            }
                        },
                        Bound::Excluded(e) => {
                            before_is_transitive(k, last, e);
                        },
                    }
                } else {
                    match range.start {
                        Bound::Unbounded => {},
                        Bound::Included(s) => {
                            if before(k, s) {
                                before_is_transitive(last, k, s);
                            }
                        },
                        Bound::Excluded(s) => {
                            before_is_transitive(s, last, k);
                        },
                    }
                }
            }
            assert(dom.contains(k));
            let i = all.index_of(k);
            assert(all[i] == k);
            before_is_irreflexive(k);
            if reverse {
                if i >= cut {
                    if i > at {
                        before_is_asymmetric(all[at], all[i]);
                    }
                }
                assert(kept[i] == k);
            } else {
                if i < cut {
                    if i < at {
                        before_is_asymmetric(all[i], all[at]);
                    }
                }
                assert(kept[i - cut] == k);
            }
        }
        if kept.contains(k) {
            let j = kept.index_of(k);
            let i = if reverse { j } else { j + cut };
            assert(all[i] == k);
            assert(all.contains(k));
            assert(dom.contains(k));
            if reverse {
                assert(before(all[i], all[at]));
            } else {
                assert(before(all[at], all[i]));
            }
        }
    }
    the_listing_is(kept, left);
    if reverse {
        assert(kept.reverse() =~= shown.skip(n));
    } else {
        assert(kept =~= shown.skip(n));
    }
}

impl Pages {
    /// The table being read.
    pub closed spec fn table_spec(self) -> Table {
        self.table
    }

    /// Whether values are read too.
    pub closed spec fn wants_values(self) -> bool {
        self.want_values
    }

    /// The keys that are still to come, in order.
    pub closed spec fn left(self, store: Store) -> Seq<Seq<u8>> {
        if self.done {
            Seq::empty()
        } else {
            scan_keys(store.table(self.table), self.range@, self.reverse)
        }
    }

    /// How much there is still to do.
    pub closed spec fn fuel(self, store: Store) -> nat {
        if self.done {
            0
        } else {
            self.left(store).len() + 1
        }
    }

    /// Start at the edge of a range.
    pub fn new(table: Table, range: KeyRange, reverse: bool, want_values: bool) -> (p: Self)
        ensures
            p.table_spec() == table,
            p.wants_values() == want_values,
            !p.finished(),
            forall|store: Store| #[trigger] p.left(store) == scan_keys(store.table(table), range@, reverse),
    {
        Pages { table, range, reverse, want_values, done: false }
    }

    /// Whether the end has been reached.
    pub closed spec fn finished(self) -> bool {
        self.done
    }

    /// Whether the end has been reached.
    pub fn is_done(&self) -> (b: bool)
        ensures
            b == self.finished(),
            b ==> forall|store: Store| #[trigger] self.left(store).len() == 0,
    {
        self.done
    }

    /// Read the next page.
    pub fn next_page<B: Backend>(&mut self, backend: &B) -> (r: Result<Vec<(Vec<u8>, Option<Vec<u8>>)>>)
        requires
            !old(self).finished(),
        ensures
            r is Err ==> *final(self) == *old(self),
            backend.answers() ==> r is Ok,
            backend.shut() ==> (r matches Err(e) && e is Closed),
            final(self).table_spec() == old(self).table_spec(),
            final(self).wants_values() == old(self).wants_values(),
            r matches Ok(items) ==> {
                let was = old(self).left(backend.store());
                &&& items@.len() <= was.len()
                &&& rows_of(items@) == rows_at(
                    backend.store().table(old(self).table_spec()),
                    was.take(items@.len() as int),
                    old(self).wants_values(),
                )
                &&& final(self).left(backend.store()) == was.skip(items@.len() as int)
                &&& final(self).fuel(backend.store()) < old(self).fuel(backend.store())
            },
    {
        let ghost rows = backend.store().table(self.table);
        let ghost range = self.range@;
        let ghost was = self.left(backend.store());
        let limit: usize = backend.scan_page_size();
        let page = match backend.scan(
            ScanRequest {
                table: self.table,
                range: self.range.clone(),
                reverse: self.reverse,
                limit,
                want_values: self.want_values,
            },
        ) {
            Ok(page) => page,
            Err(e) => return Err(e),
        };
        proof {
            assert(rows_of(page.items@).len() == page.items@.len());
            let n = page.items@.len() as int;
            assert(n == at_most(was.len() as int, limit as int));
        }
        match page.resume {
            Some(last) => {
                proof {
                    let n = page.items@.len() as int;
                    resuming_skips_what_was_shown(rows, range, self.reverse, n);
                    assert(was.take(n).last() == was[n - 1]);
                }
                if self.reverse {
                    self.range.end = Bound::Excluded(last);
                } else {
                    self.range.start = Bound::Excluded(last);
                }
                assert(self.range@ == past(range, self.reverse, last@));
            },
            None => {
                assert(was.skip(was.len() as int) =~= Seq::<Seq<u8>>::empty());
                self.done = true;
            },
        }
        Ok(page.items)
    }
}

/// Every key of a range, in order, read page by page.
pub fn all_keys<B: Backend>(backend: &B, table: Table, range: KeyRange, reverse: bool) -> (r: Result<Vec<Vec<u8>>>)
    ensures
        backend.answers() ==> r is Ok,
        backend.shut() ==> (r matches Err(e) && e is Closed),
        r matches Ok(keys) ==> views(keys@) == scan_keys(backend.store().table(table), range@, reverse)
            && backend.store().is_finite(),
{
    let ghost rows = backend.store().table(table);
    let ghost all = scan_keys(rows, range@, reverse);
    let _size: usize = backend.scan_page_size();
    let mut keys: Vec<Vec<u8>> = Vec::new();
    let mut pages = Pages::new(table, range, reverse, false);
    proof {
        assert(all.skip(0) =~= all);
        assert(views(keys@) =~= all.take(0));
    }
    while !pages.is_done()
        invariant
            rows == backend.store().table(table),
            backend.store().is_finite(),
            pages.table_spec() == table,
            !pages.wants_values(),
            keys@.len() <= all.len(),
            pages.left(backend.store()) == all.skip(keys@.len() as int),
            views(keys@) == all.take(keys@.len() as int),
            backend.shut() ==> !pages.finished(),
        decreases pages.fuel(backend.store()),
    {
        let ghost from = keys@.len() as int;
        let ghost was = pages.left(backend.store());
        let items = match pages.next_page(backend) {
            Ok(items) => items,
            Err(e) => return Err(e),
        };
        let ghost read = rows_of(items@);
        let mut j: usize = 0;
        while j < items.len()
            invariant
                0 <= from <= all.len(),
                was == all.skip(from),
                items@.len() <= was.len(),
                read == rows_of(items@),
                read == rows_at(rows, was.take(items@.len() as int), false),
                j <= items@.len(),
                keys@.len() == from + j,
                views(keys@) == all.take(from + j),
            decreases items.len() - j,
        {
            let ghost so_far = keys@;
            proof {
                assert(read[j as int].0 == was[j as int]);
                assert(items@[j as int].0@ == all[from + j]);
            }
            keys.push(copy(items[j].0.as_slice()));
            assert(views(keys@) =~= views(so_far).push(all[from + j]));
            assert(all.take(from + j + 1) =~= all.take(from + j).push(all[from + j]));
            j += 1;
        }
        assert(was.skip(items@.len() as int) =~= all.skip(keys@.len() as int));
    }
    proof {
        assert(pages.left(backend.store()).len() == 0);
        assert(all.skip(keys@.len() as int).len() == 0);
        assert(all.take(keys@.len() as int) =~= all);
    }
    Ok(keys)
}

} // verus!
