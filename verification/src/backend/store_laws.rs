//! What a store makes of a commit and of a scan, told row by row: the last
//! mutation that reaches a row decides what it holds, and a page holds the first
//! rows of its range, all of them where there is room.

use vstd::prelude::*;

use super::api::{page_answers, scan_keys, Change, Rows, ScanPage, ScanRequest, Store, Table};
use super::memory::{bytes_used, store_bytes};
use crate::bytes::before;
use crate::sorted::{a_finite_set_is_listed, listing};

verus! {

/// Whether a mutation reaches a row.
pub open spec fn reaches(change: Change, table: Table, key: Seq<u8>) -> bool {
    match change {
        Change::Put { table: t, key: k, .. } => t == table && k == key,
        Change::Delete { table: t, key: k } => t == table && k == key,
        Change::DeleteRange { table: t, range } => t == table && range.contains(key),
    }
}

/// A commit does what its mutations say, in order: a row holds what the last one
/// that reaches it put there, or nothing where that removed it, and a row that
/// none reaches holds what it held.
pub proof fn the_last_mutation_of_a_row_decides(store: Store, list: Seq<Change>, i: int, table: Table, key: Seq<u8>)
    requires
        -1 <= i < list.len(),
        i >= 0 ==> reaches(list[i], table, key),
        forall|j: int| i < j < list.len() ==> !reaches(#[trigger] list[j], table, key),
    ensures
        store.after_all(list).lookup(table, key) == if i < 0 {
            store.lookup(table, key)
        } else {
            match list[i] {
                Change::Put { value, .. } => Some(value),
                _ => None,
            }
        },
    decreases list.len(),
{
    if list.len() > 0 {
        let short = list.drop_last();
        let mid = store.after_all(short);
        let last = list.last();
        if i < list.len() - 1 {
            assert(!reaches(list[list.len() - 1], table, key));
            if i >= 0 {
                assert(short[i] == list[i]);
            }
            assert forall|j: int| i < j < short.len() implies !reaches(#[trigger] short[j], table, key) by {
                assert(short[j] == list[j]);
            }
            the_last_mutation_of_a_row_decides(store, short, i, table, key);
        }
        assert(store.after_all(list) == mid.after(last));
    }
}

/// A page holds rows of its range in scan order, each with the value that is
/// stored, where values were asked for; as many as there are, or as the limit
/// lets through; none that is left out would come before one that is shown; and
/// there is a place to resume, the last row shown, exactly where the page is full
/// and something was left out.
pub proof fn a_page_holds_the_first_rows_of_its_range(rows: Rows, request: ScanRequest, page: ScanPage)
    requires
        rows.dom().finite(),
        page_answers(rows, request, page),
    ensures
        page.items@.len() <= request.limit,
        forall|i: int|
            0 <= i < page.items@.len() ==> rows.contains_key((#[trigger] page.items@[i]).0@) && request.range@.contains(
                page.items@[i].0@,
            ) && match page.items@[i].1 {
                Some(value) => request.want_values && value@ == rows[page.items@[i].0@],
                None => !request.want_values,
            },
        forall|i: int, j: int|
            0 <= i < j < page.items@.len() ==> if request.reverse {
                before((#[trigger] page.items@[j]).0@, (#[trigger] page.items@[i]).0@)
            } else {
                before(page.items@[i].0@, page.items@[j].0@)
            },
        forall|key: Seq<u8>| #[trigger]
            rows.contains_key(key) && request.range@.contains(key) ==> (exists|i: int|
                0 <= i < page.items@.len() && (#[trigger] page.items@[i]).0@ == key) || (page.items@.len()
                == request.limit && forall|i: int|
                0 <= i < page.items@.len() ==> if request.reverse {
                    before(key, (#[trigger] page.items@[i]).0@)
                } else {
                    before(page.items@[i].0@, key)
                }),
        page.resume is Some <==> request.limit > 0 && page.items@.len() == request.limit && exists|key: Seq<u8>|
            #[trigger] rows.contains_key(key) && request.range@.contains(key) && forall|i: int|
                0 <= i < page.items@.len() ==> (#[trigger] page.items@[i]).0@ != key,
        page.resume matches Some(last) ==> page.items@.len() > 0 && last@ == page.items@[page.items@.len() - 1].0@,
{
    let range = request.range@;
    let dom = super::api::keys_within(rows, range);
    vstd::set_lib::lemma_set_subset_finite(rows.dom(), dom);
    a_finite_set_is_listed(dom);
    crate::sorted::ascending_has_no_duplicates(listing(dom));
    let up = listing(dom);
    let keys = scan_keys(rows, range, request.reverse);
    let items = page.items@;
    let n = items.len() as int;
    let shown = keys.take(super::api::at_most(keys.len() as int, request.limit as int));
    let found = super::api::rows_of(items);
    assert(found.len() == n);
    assert forall|i: int| 0 <= i < keys.len() implies dom.contains(#[trigger] keys[i]) by {
        if request.reverse {
            assert(keys[i] == up[up.len() - 1 - i]);
            assert(up.contains(up[up.len() - 1 - i]));
        } else {
            assert(up.contains(up[i]));
        }
    }
    assert forall|i: int, j: int| 0 <= i < j < keys.len() implies if request.reverse {
        before(#[trigger] keys[j], #[trigger] keys[i])
    } else {
        before(keys[i], keys[j])
    } by {
        if request.reverse {
            assert(keys[i] == up[up.len() - 1 - i] && keys[j] == up[up.len() - 1 - j]);
        }
    }
    assert forall|i: int| 0 <= i < n implies (#[trigger] items[i]).0@ == keys[i] by {
        assert(found[i] == super::api::rows_at(rows, shown, request.want_values)[i]);
        assert(shown[i] == keys[i]);
    }
    assert forall|i: int| 0 <= i < n implies rows.contains_key((#[trigger] items[i]).0@) && range.contains(items[i].0@)
        && match items[i].1 {
        Some(value) => request.want_values && value@ == rows[items[i].0@],
        None => !request.want_values,
    } by {
        assert(dom.contains(keys[i]));
        assert(found[i] == super::api::rows_at(rows, shown, request.want_values)[i]);
    }
    assert forall|key: Seq<u8>| #[trigger] rows.contains_key(key) && range.contains(key) implies (exists|i: int|
        0 <= i < n && (#[trigger] items[i]).0@ == key) || (n == request.limit && forall|i: int|
        0 <= i < n ==> if request.reverse {
            before(key, (#[trigger] items[i]).0@)
        } else {
            before(items[i].0@, key)
        }) by {
        let at = place(dom, request.reverse, key);
        if at < n {
            assert(items[at].0@ == key);
        } else {
            assert forall|i: int| 0 <= i < n implies if request.reverse {
                before(key, (#[trigger] items[i]).0@)
            } else {
                before(items[i].0@, key)
            } by {
                assert(keys[i] == items[i].0@);
                assert(keys[at] == key);
            }
        }
    }
    if page.resume is Some {
        let next = keys[n];
        assert(dom.contains(next));
        assert(rows.contains_key(next));
        assert forall|i: int| 0 <= i < n implies (#[trigger] items[i]).0@ != next by {
            assert(keys[i] == items[i].0@);
            crate::bytes::before_is_irreflexive(next);
        }
        assert(shown.last() == keys[n - 1]);
    }
    if request.limit > 0 && n == request.limit && exists|key: Seq<u8>|
        #[trigger] rows.contains_key(key) && range.contains(key) && forall|i: int|
            0 <= i < n ==> (#[trigger] items[i]).0@ != key {
        let key = choose|key: Seq<u8>|
            #[trigger] rows.contains_key(key) && range.contains(key) && forall|i: int|
                0 <= i < n ==> (#[trigger] items[i]).0@ != key;
        let at = place(dom, request.reverse, key);
        if at < n {
            assert(items[at].0@ == key);
        }
    }
}

/// Where a key of a range stands in scan order.
proof fn place(dom: Set<Seq<u8>>, reverse: bool, key: Seq<u8>) -> (at: int)
    requires
        dom.finite(),
        dom.contains(key),
    ensures
        0 <= at < listing(dom).len(),
        (if reverse {
            listing(dom).reverse()
        } else {
            listing(dom)
        })[at] == key,
{
    a_finite_set_is_listed(dom);
    let up = listing(dom);
    let i = up.index_of(key);
    if reverse {
        assert(up.reverse()[up.len() - 1 - i] == key);
        up.len() - 1 - i
    } else {
        i
    }
}

/// The bytes of some rows are those of each key and each value, added up.
proof fn rows_take_what_each_does(keys: Seq<Seq<u8>>, rows: Rows)
    ensures
        bytes_used(keys, rows) == crate::maintenance_laws::summed(
            keys.map_values(|k: Seq<u8>| (k.len() + rows[k].len()) as nat),
        ),
    decreases keys.len(),
{
    let f = |k: Seq<u8>| (k.len() + rows[k].len()) as nat;
    if keys.len() > 0 {
        rows_take_what_each_does(keys.drop_last(), rows);
        assert(keys.map_values(f).drop_last() =~= keys.drop_last().map_values(f));
        assert(keys.map_values(f).last() == f(keys.last()));
    }
}

/// What a store takes is what the keys and values of each of its tables take, all
/// of them, each once.
pub proof fn a_store_takes_what_its_rows_do(store: Store) -> (lists: (Seq<Seq<u8>>, Seq<Seq<u8>>, Seq<Seq<u8>>))
    requires
        store.is_finite(),
    ensures
        lists.0.no_duplicates() && lists.1.no_duplicates() && lists.2.no_duplicates(),
        forall|k: Seq<u8>| #[trigger] lists.0.contains(k) <==> store.meta.contains_key(k),
        forall|k: Seq<u8>| #[trigger] lists.1.contains(k) <==> store.records.contains_key(k),
        forall|k: Seq<u8>| #[trigger] lists.2.contains(k) <==> store.chunks.contains_key(k),
        store_bytes(store) == crate::maintenance_laws::summed(
            lists.0.map_values(|k: Seq<u8>| (k.len() + store.meta[k].len()) as nat),
        ) + crate::maintenance_laws::summed(
            lists.1.map_values(|k: Seq<u8>| (k.len() + store.records[k].len()) as nat),
        ) + crate::maintenance_laws::summed(
            lists.2.map_values(|k: Seq<u8>| (k.len() + store.chunks[k].len()) as nat),
        ),
{
    a_finite_set_is_listed(store.meta.dom());
    a_finite_set_is_listed(store.records.dom());
    a_finite_set_is_listed(store.chunks.dom());
    let a = listing(store.meta.dom());
    let b = listing(store.records.dom());
    let c = listing(store.chunks.dom());
    crate::sorted::ascending_has_no_duplicates(a);
    crate::sorted::ascending_has_no_duplicates(b);
    crate::sorted::ascending_has_no_duplicates(c);
    rows_take_what_each_does(a, store.meta);
    rows_take_what_each_does(b, store.records);
    rows_take_what_each_does(c, store.chunks);
    assert forall|k: Seq<u8>| #[trigger] a.contains(k) <==> store.meta.contains_key(k) by {
        assert(store.meta.dom().contains(k) <==> a.contains(k));
    }
    assert forall|k: Seq<u8>| #[trigger] b.contains(k) <==> store.records.contains_key(k) by {
        assert(store.records.dom().contains(k) <==> b.contains(k));
    }
    assert forall|k: Seq<u8>| #[trigger] c.contains(k) <==> store.chunks.contains_key(k) by {
        assert(store.chunks.dom().contains(k) <==> c.contains(k));
    }
    (a, b, c)
}

/// A number that fits is kept, and one that does not is the largest that does.
pub proof fn a_number_that_fits_is_kept(n: nat)
    ensures
        n < 0x1_0000_0000_0000_0000 ==> super::memory::capped(n) == n,
        n >= 0x1_0000_0000_0000_0000 ==> super::memory::capped(n) == 0xFFFF_FFFF_FFFF_FFFF,
{
}

} // verus!
