//! What a store on a platform of its own decides: when a page is full, where
//! the next one resumes, and what a platform's complaint means.

use std::ops::Bound;

use vstd::prelude::*;
use vstd::string::StringSliceAdditionalSpecFns;

use super::api::{
    at_most, option_view, page_answers, rows_at, rows_of, scan_keys, KeyRange, Row, Rows, ScanPage, ScanRequest, Span,
};
use crate::bytes::{copy, has_prefix, starts_with};
use crate::error::{backend_with, Error};
use crate::text::two;

verus! {

/// A page being read off a cursor, one row at a time.
///
/// The cursor's owner feeds rows until the page is full or the cursor is done,
/// then says whether the cursor stands on another row.
pub struct Gather {
    items: Vec<(Vec<u8>, Option<Vec<u8>>)>,
    limit: usize,
    want_values: bool,
}

impl Gather {
    /// The rows taken so far.
    pub closed spec fn taken(self) -> Seq<Row> {
        rows_of(self.items@)
    }

    /// How many rows make a page.
    pub closed spec fn most(self) -> usize {
        self.limit
    }

    /// Whether values are kept.
    pub closed spec fn keeps_values(self) -> bool {
        self.want_values
    }

    /// An empty page.
    pub fn new(limit: usize, want_values: bool) -> (g: Self)
        ensures
            g.taken().len() == 0,
            g.most() == limit,
            g.keeps_values() == want_values,
    {
        Gather { items: Vec::new(), limit, want_values }
    }

    /// Whether the page holds as many rows as it may.
    pub fn is_full(&self) -> (b: bool)
        ensures
            b == (self.taken().len() >= self.most()),
    {
        self.items.len() >= self.limit
    }

    /// Take the row the cursor stands on.
    pub fn take(&mut self, key: Vec<u8>, value: Option<Vec<u8>>)
        ensures
            final(self).most() == old(self).most(),
            final(self).keeps_values() == old(self).keeps_values(),
            final(self).taken() == old(self).taken().push(
                (
                    key@,
                    if old(self).keeps_values() {
                        option_view(value)
                    } else {
                        None
                    },
                ),
            ),
    {
        let ghost was = self.items@;
        let kept: Option<Vec<u8>> = if self.want_values {
            value
        } else {
            None
        };
        self.items.push((key, kept));
        assert(rows_of(self.items@) =~= rows_of(was).push((key@, option_view(kept))));
    }

    /// The page. A resume point is offered only when the page filled and the
    /// cursor stands on another row: a filled page with nothing beyond must
    /// still say that it is the last.
    pub fn into_page(self, more: bool) -> (page: ScanPage)
        ensures
            rows_of(page.items@) == self.taken(),
            match page.resume {
                Some(last) => more && self.taken().len() >= self.most() && self.taken().len() > 0 && last@
                    == self.taken().last().0,
                None => !more || self.taken().len() < self.most() || self.taken().len() == 0,
            },
    {
        let n: usize = self.items.len();
        let resume: Option<Vec<u8>> = if more && n >= self.limit && n > 0 {
            Some(copy(self.items[n - 1].0.as_slice()))
        } else {
            None
        };
        ScanPage { items: self.items, resume }
    }
}

/// A page gathered from a cursor that walks a range in order answers the
/// request it was opened for.
pub proof fn a_gathered_page_answers(rows: Rows, request: ScanRequest, g: Gather, more: bool, page: ScanPage)
    requires
        g.most() == request.limit,
        ({
            let keys = scan_keys(rows, request.range@, request.reverse);
            let n = g.taken().len() as int;
            &&& n <= keys.len()
            &&& n <= request.limit
            &&& g.taken() == rows_at(rows, keys.take(n), request.want_values)
            &&& more == (n < keys.len())
            &&& more ==> n == request.limit
        }),
        rows_of(page.items@) == g.taken(),
        match page.resume {
            Some(last) => more && g.taken().len() >= g.most() && g.taken().len() > 0 && last@ == g.taken().last().0,
            None => !more || g.taken().len() < g.most() || g.taken().len() == 0,
        },
    ensures
        page_answers(rows, request, page),
{
    let keys = scan_keys(rows, request.range@, request.reverse);
    let n = g.taken().len() as int;
    assert(n == at_most(keys.len() as int, request.limit as int));
    if let Some(last) = page.resume {
        assert(g.taken().last() == g.taken()[n - 1]);
        assert(keys.take(n).last() == keys[n - 1]);
    }
}

/// `walked` is what a cursor opened for a request reads of `rows`: the rows of
/// the range in scan order, to its end or to one row past the page.
pub open spec fn cursor_reads(rows: Rows, request: ScanRequest, walked: Seq<Row>) -> bool {
    let keys = scan_keys(rows, request.range@, request.reverse);
    let n = at_most(keys.len() as int, request.limit + 1);
    walked == rows_at(rows, keys.take(n), request.want_values)
}

/// How many rows a cursor has to read for a request: one more than the page
/// holds tells whether there is another page.
pub fn rows_to_read(request: &ScanRequest) -> (n: usize)
    ensures
        n == if request.limit < usize::MAX {
            request.limit + 1
        } else {
            usize::MAX as int
        },
{
    request.limit.saturating_add(1)
}

/// The page a scan answers with, from what a cursor read for it. Whatever the
/// table holds, this is the page that a table in memory answers with.
pub fn gathered(request: &ScanRequest, walked: Vec<(Vec<u8>, Option<Vec<u8>>)>) -> (page: ScanPage)
    ensures
        forall|rows: Rows| #[trigger] cursor_reads(rows, *request, rows_of(walked@)) ==> page_answers(rows, *request, page),
{
    let ghost all = rows_of(walked@);
    let total: usize = walked.len();
    let mut g = Gather::new(request.limit, true);
    let ghost list = walked@;
    assert(g.taken() =~= all.take(0));
    let mut more: bool = false;
    for row in it: walked
        invariant
            it.seq() == list,
            all == rows_of(list),
            g.most() == request.limit,
            g.keeps_values(),
            g.taken() == all.take(at_most(it.index() as int, request.limit as int)),
            more == (it.index() > request.limit),
    {
        let ghost i = it.index() as int;
        assert(row == list[i]);
        if g.is_full() {
            more = true;
        } else {
            let (key, value) = row;
            g.take(key, value);
            assert(all[i] == (key@, option_view(value)));
            assert(all.take(i + 1) =~= all.take(i).push(all[i]));
        }
    }
    let page = g.into_page(more);
    proof {
        assert forall|rows: Rows| #[trigger] cursor_reads(rows, *request, all) implies page_answers(
            rows,
            *request,
            page,
        ) by {
            let keys = scan_keys(rows, request.range@, request.reverse);
            let n = g.taken().len() as int;
            let m = at_most(keys.len() as int, request.limit + 1);
            assert(all.len() == m);
            assert(g.taken() =~= rows_at(rows, keys.take(n), request.want_values));
            a_gathered_page_answers(rows, *request, g, more, page);
        }
    }
    page
}

/// One request over one table has one answer: pages read off a cursor and
/// pages read in memory hold the same rows and resume at the same place.
pub proof fn a_page_is_determined(rows: Rows, request: ScanRequest, a: ScanPage, b: ScanPage)
    requires
        page_answers(rows, request, a),
        page_answers(rows, request, b),
    ensures
        rows_of(a.items@) == rows_of(b.items@),
        option_view(a.resume) == option_view(b.resume),
{
}

/// Whether a range is the whole table.
pub fn range_is_all(range: &KeyRange) -> (b: bool)
    ensures
        b == (range@ == (Span { start: Bound::Unbounded, end: Bound::Unbounded })),
{
    let open_start: bool = match &range.start {
        Bound::Unbounded => true,
        _ => false,
    };
    let open_end: bool = match &range.end {
        Bound::Unbounded => true,
        _ => false,
    };
    open_start && open_end
}

/// Whether a byte string occurs in another.
pub open spec fn occurs(needle: Seq<u8>, hay: Seq<u8>) -> bool {
    exists|i: int| 0 <= i <= hay.len() && starts_with(#[trigger] hay.skip(i), needle)
}

/// Whether a text occurs in another.
fn mentions(hay: &str, needle: &str) -> (b: bool)
    ensures
        b == occurs(needle.spec_bytes(), hay.spec_bytes()),
{
    let text = hay.as_bytes();
    let word = needle.as_bytes();
    let n: usize = text.len();
    let mut i: usize = 0;
    loop
        invariant
            i <= n,
            n == text@.len(),
            text@ == hay.spec_bytes(),
            word@ == needle.spec_bytes(),
            forall|j: int| 0 <= j < i ==> !starts_with(#[trigger] text@.skip(j), word@),
        decreases n - i,
    {
        let rest = vstd::slice::slice_subrange(text, i, n);
        assert(rest@ =~= text@.skip(i as int));
        if has_prefix(rest, word) {
            return true;
        }
        if i == n {
            return false;
        }
        i += 1;
    }
}

/// A platform says that it ran out of room.
pub open spec fn says_full(message: Seq<u8>) -> bool {
    occurs("No space left".spec_bytes(), message) || occurs("ENOSPC".spec_bytes(), message)
}

/// What a file store's complaint means. Running out of disk is a quota
/// problem, not an opaque failure, and a caller can do something about it.
pub fn file_failure(context: &str, message: &str) -> (e: Error)
    ensures
        if says_full(message.spec_bytes()) {
            e == (Error::QuotaExceeded { needed: 0, available: Some(0) })
        } else {
            backend_with(e, context@ + ": "@ + message@)
        },
{
    if mentions(message, "No space left") || mentions(message, "ENOSPC") {
        return Error::QuotaExceeded { needed: 0, available: Some(0) };
    }
    let head = two(context, ": ");
    Error::Backend(two(head.as_str(), message))
}

/// What a browser database's complaint means.
pub fn browser_failure(message: &str) -> (e: Error)
    ensures
        if occurs("QuotaExceeded".spec_bytes(), message.spec_bytes()) {
            e == (Error::QuotaExceeded { needed: 0, available: None })
        } else {
            backend_with(e, message@)
        },
{
    if mentions(message, "QuotaExceeded") {
        return Error::QuotaExceeded { needed: 0, available: None };
    }
    Error::backend(message)
}

} // verus!
