//! What an envelope is, told byte by byte, and what it takes to open one: its
//! header first, then every filter in turn, the last one applied being the first
//! one undone.

use vstd::prelude::*;

use super::api::{header, unwound, Filter, FilterChain, HEADER_LEN, VERSION};
use super::filters::{crc32, Crc32, Lz4};
use crate::bytes::{from_le32, le32, le32_round_trips};
use crate::error::Error;

verus! {

/// An envelope begins with the magic bytes, the layout version and the id of its
/// chain.
pub proof fn an_envelope_says_whose_it_is(chain: &FilterChain, payload: Seq<u8>, sealed: Seq<u8>)
    requires
        chain.seals(payload, sealed),
    ensures
        sealed.len() >= 6,
        sealed[0] == 0x43 && sealed[1] == 0x42 && sealed[2] == 0x4E && sealed[3] == 0x4B,
        sealed[4] == VERSION,
        sealed[5] == chain.id_spec(),
{
    let head = sealed.take(HEADER_LEN as int);
    let h = header(chain.id_spec());
    assert(head[0] == h[0] && head[1] == h[1] && head[2] == h[2] && head[3] == h[3]);
    assert(head[4] == h[4] && head[5] == h[5]);
}

/// Bytes with anything else in front are opened by no chain, and what is said of
/// them tells why: too short or no envelope at all, another layout, or another
/// chain.
pub proof fn a_header_is_checked_first(chain: &FilterChain, stored: Seq<u8>, e: Error)
    ensures
        stored.len() < 6 ==> chain.opened(stored) is None && (chain.refuses(stored, e) ==> e is Corrupt),
        stored.len() >= 6 && !(stored[0] == 0x43 && stored[1] == 0x42 && stored[2] == 0x4E && stored[3] == 0x4B)
            ==> chain.opened(stored) is None && (chain.refuses(stored, e) ==> e is Corrupt),
        stored.len() >= 6 && stored[0] == 0x43 && stored[1] == 0x42 && stored[2] == 0x4E && stored[3] == 0x4B
            && stored[4] != VERSION ==> chain.opened(stored) is None && (chain.refuses(stored, e) ==> e == (
        Error::UnsupportedVersion { found: stored[4], supported: VERSION })),
        stored.len() >= 6 && stored[0] == 0x43 && stored[1] == 0x42 && stored[2] == 0x4E && stored[3] == 0x4B
            && stored[4] == VERSION && stored[5] != chain.id_spec() ==> chain.opened(stored) is None && (chain.refuses(
            stored,
            e,
        ) ==> e is SchemaMismatch),
{
    let h = header(chain.id_spec());
    if stored.len() >= 6 {
        let head = stored.take(HEADER_LEN as int);
        assert(forall|i: int| 0 <= i < 6 ==> head[i] == stored[i]);
        if head == h {
            assert(head[0] == h[0] && head[1] == h[1] && head[2] == h[2] && head[3] == h[3]);
            assert(head[4] == h[4] && head[5] == h[5]);
        }
        let four = stored.take(4);
        assert(forall|i: int| 0 <= i < 4 ==> four[i] == stored[i]);
        if stored[0] == 0x43 && stored[1] == 0x42 && stored[2] == 0x4E && stored[3] == 0x4B {
            assert(four =~= super::api::magic());
        } else if four == super::api::magic() {
            assert(four[0] == 0x43 && four[1] == 0x42 && four[2] == 0x4E && four[3] == 0x4B);
        }
    }
}

/// Whether a trace leads from stored bytes back to a payload, each filter undoing
/// what it did, last filter first.
pub open spec fn undoes(filters: Seq<Box<dyn Filter>>, n: int, body: Seq<u8>, payload: Seq<u8>, trace: Seq<Seq<u8>>) -> bool {
    &&& trace.len() == n + 1
    &&& trace[n] == body
    &&& trace[0] == payload
    &&& forall|i: int| 0 <= i < n ==> filters[i].reversed(trace[i + 1]) == Some(#[trigger] trace[i])
}

/// Filters are undone in the opposite order, every one of them.
proof fn filters_are_undone_one_by_one(filters: Seq<Box<dyn Filter>>, n: int, body: Seq<u8>, payload: Seq<u8>)
    requires
        0 <= n <= filters.len(),
    ensures
        unwound(filters, n, body) == Some(payload) <==> exists|trace: Seq<Seq<u8>>| #[trigger]
            undoes(filters, n, body, payload, trace),
    decreases n,
{
    if n == 0 {
        if body == payload {
            assert(undoes(filters, 0, body, payload, seq![body]));
        }
    } else {
        if let Some(mid) = filters[n - 1].reversed(body) {
            filters_are_undone_one_by_one(filters, n - 1, mid, payload);
            if unwound(filters, n, body) == Some(payload) {
                let short = choose|trace: Seq<Seq<u8>>| #[trigger] undoes(filters, n - 1, mid, payload, trace);
                let all = short.push(body);
                assert forall|i: int| 0 <= i < n implies filters[i].reversed(all[i + 1]) == Some(#[trigger] all[i]) by {
                    assert(all[i] == short[i]);
                    if i < n - 1 {
                        assert(all[i + 1] == short[i + 1]);
                    }
                }
                assert(undoes(filters, n, body, payload, all));
            }
        }
        if exists|trace: Seq<Seq<u8>>| #[trigger] undoes(filters, n, body, payload, trace) {
            let trace = choose|trace: Seq<Seq<u8>>| #[trigger] undoes(filters, n, body, payload, trace);
            let mid = trace[n - 1];
            assert(filters[n - 1].reversed(trace[n - 1 + 1]) == Some(trace[n - 1]));
            let short = trace.drop_last();
            assert forall|i: int| 0 <= i < n - 1 implies filters[i].reversed(short[i + 1]) == Some(
                #[trigger] short[i],
            ) by {
                assert(short[i] == trace[i] && short[i + 1] == trace[i + 1]);
            }
            assert(undoes(filters, n - 1, mid, payload, short));
            filters_are_undone_one_by_one(filters, n - 1, mid, payload);
        }
    }
}

/// An envelope opens to a payload exactly where its header is this chain's and
/// its filters, the last one first, lead from what follows back to the payload.
pub proof fn an_envelope_opens_filter_by_filter(chain: &FilterChain, stored: Seq<u8>, payload: Seq<u8>)
    requires
        stored.len() >= 6,
        stored[0] == 0x43 && stored[1] == 0x42 && stored[2] == 0x4E && stored[3] == 0x4B,
        stored[4] == VERSION,
        stored[5] == chain.id_spec(),
    ensures
        chain.opened(stored) == Some(payload) <==> exists|trace: Seq<Seq<u8>>| #[trigger]
            undoes(chain.filters(), chain.filters().len() as int, stored.skip(6), payload, trace),
{
    assert(stored.take(HEADER_LEN as int) =~= header(chain.id_spec()));
    filters_are_undone_one_by_one(chain.filters(), chain.filters().len() as int, stored.skip(6), payload);
}

/// A checksum covers every byte in front of it: bytes are taken back exactly
/// where they end in the four bytes of the checksum of all the rest, and that
/// rest is what is taken back.
pub proof fn a_checksum_covers_every_byte(stored: Seq<u8>, body: Seq<u8>)
    ensures
        Crc32.reversed(stored) == Some(body) <==> stored == body + le32(crc32(body)),
        Crc32.forwards(body, stored) <==> stored == body + le32(crc32(body)),
{
    le32_round_trips(crc32(body));
    if stored == body + le32(crc32(body)) {
        assert(stored.take(stored.len() - 4) =~= body);
        assert(stored.skip(stored.len() - 4) =~= le32(crc32(body)));
    }
    if Crc32.reversed(stored) == Some(body) {
        let tail = stored.skip(stored.len() - 4);
        assert(from_le32(tail) == crc32(body));
        a_number_is_spelt_one_way(tail, crc32(body));
        assert(stored =~= body + tail);
    }
}

/// Four bytes that spell a number are the bytes it is spelt with.
proof fn a_number_is_spelt_one_way(tail: Seq<u8>, n: u32)
    requires
        tail.len() == 4,
        from_le32(tail) == n,
    ensures
        tail == le32(n),
{
    le32_round_trips(n);
    let other = le32(n);
    assert(other.len() == 4);
    assert(from_le32(other) == n);
    assert(tail[0] == other[0] && tail[1] == other[1] && tail[2] == other[2] && tail[3] == other[3]);
    assert(tail =~= other);
}

/// What follows the header is what the filters made of the payload, each of what
/// the one before it made, first filter first.
pub proof fn filters_are_applied_in_order(chain: &FilterChain, payload: Seq<u8>, sealed: Seq<u8>) -> (trace: Seq<Seq<u8>>)
    requires
        chain.seals(payload, sealed),
    ensures
        trace.len() == chain.filters().len() + 1,
        trace[0] == payload,
        trace.last() == sealed.skip(6),
        forall|i: int|
            0 <= i < chain.filters().len() ==> chain.filters()[i].forwards(#[trigger] trace[i], trace[i + 1]),
{
    let n = chain.filters().len() as int;
    choose|trace: Seq<Seq<u8>>| super::api::traces(chain.filters(), n, payload, sealed.skip(6), trace)
}

/// A chain without filters adds its header and nothing else, and takes nothing
/// else off.
pub proof fn a_raw_chain_adds_its_header_alone(chain: &FilterChain, payload: Seq<u8>, sealed: Seq<u8>)
    requires
        chain.filters().len() == 0,
    ensures
        chain.seals(payload, sealed) <==> sealed == header(chain.id_spec()) + payload,
        chain.opened(header(chain.id_spec()) + payload) == Some(payload),
{
    let all = header(chain.id_spec()) + payload;
    assert(all.take(HEADER_LEN as int) =~= header(chain.id_spec()));
    assert(all.skip(HEADER_LEN as int) =~= payload);
    super::api::winding_none(chain.filters(), payload, sealed.skip(HEADER_LEN as int));
    if chain.seals(payload, sealed) {
        assert(sealed =~= sealed.take(HEADER_LEN as int) + sealed.skip(HEADER_LEN as int));
    }
}

/// What was compressed is expanded to what it was, up to the most that is ever
/// expanded.
pub proof fn what_was_compressed_is_expanded(input: Seq<u8>, output: Seq<u8>)
    requires
        Lz4.forwards(input, output),
        input.len() <= 268_435_456,
    ensures
        Lz4.reversed(output) == Some(input),
{
}

} // verus!
