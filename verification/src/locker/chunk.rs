//! Chunked values: a pointer in `records` and payload pieces in `chunks`.
//!
//! Small values stay inline. A value whose payload exceeds the configured
//! chunk size is split; each piece is sealed through the filter chain
//! independently, so peak memory on the read path is one piece.

use vstd::prelude::*;

use crate::backend::api::{Backend, Change, KeyRange, Op, Span, Store, Table};
use crate::bytes::{
    be32, be64, be64_round_trips, be32_round_trips, copy, extend, from_be32, from_be64, joined, starts_with,
    u32_from_be, u32_to_be, u64_from_be, u64_to_be,
};
use crate::codec::MAX_DECODED_BYTES;
use crate::error::{backend_with, corrupt_with, spent, Error, Result};
use crate::meta::{self, name_bytes};
use crate::sorted::views;
use crate::text::{around_two, decimal};

verus! {

/// Version of the pointer record.
pub const POINTER_VERSION: u8 = 1;

/// Length of the pointer record.
pub const POINTER_LEN: usize = 26;

/// The stored payload is a serialised value.
pub const FLAG_POSTCARD: u8 = 0;

/// The stored payload is raw bytes, as a [`crate::locker::io::Writer`] wrote
/// them.
pub const FLAG_RAW: u8 = 1;

/// Magic of a chunk pointer, `CCHK`. Distinct from the inline envelope's, so
/// the load path can branch on four bytes.
pub open spec fn pointer_magic() -> Seq<u8> {
    seq![0x43u8, 0x43u8, 0x48u8, 0x4Bu8]
}

/// Where the pieces of a chunked value are, and what they add up to.
#[derive(Debug, Clone, Copy, PartialEq, Eq, Structural)]
pub struct ChunkPointer {
    pub value_id: u64,
    pub n_chunks: u32,
    pub total_len: u64,
    pub flags: u8,
}

/// The record of a pointer.
pub open spec fn pointer_bytes(p: ChunkPointer) -> Seq<u8> {
    pointer_magic() + seq![POINTER_VERSION, p.flags] + be64(p.value_id) + be32(p.n_chunks) + be64(p.total_len)
}

/// A pointer that may be followed: no longer than anything may decode to, and
/// at least one byte to a chunk.
pub open spec fn legal(p: ChunkPointer) -> bool {
    p.total_len <= MAX_DECODED_BYTES && p.n_chunks <= p.total_len
}

/// The pointer a record spells, if it is one that may be followed.
pub open spec fn parsed(raw: Seq<u8>) -> Option<ChunkPointer> {
    if raw.len() == POINTER_LEN && raw.take(4) == pointer_magic() && raw[4] == POINTER_VERSION && legal(
        fields_of(raw),
    ) {
        Some(fields_of(raw))
    } else {
        None
    }
}

/// The fields at their places in a record.
pub open spec fn fields_of(raw: Seq<u8>) -> ChunkPointer {
    ChunkPointer {
        flags: raw[5],
        value_id: from_be64(raw.subrange(6, 14)) as u64,
        n_chunks: from_be32(raw.subrange(14, 18)) as u32,
        total_len: from_be64(raw.subrange(18, 26)) as u64,
    }
}

/// `e` is why a record is no pointer that may be followed.
pub open spec fn misspelt(raw: Seq<u8>, e: Error) -> bool {
    if raw.len() != POINTER_LEN || raw.take(4) != pointer_magic() {
        corrupt_with(e, "not a chunk pointer"@)
    } else if raw[4] != POINTER_VERSION {
        e == (Error::UnsupportedVersion { found: raw[4], supported: POINTER_VERSION })
    } else if fields_of(raw).total_len > MAX_DECODED_BYTES {
        corrupt_with(
            e,
            "chunk pointer declares "@ + decimal(fields_of(raw).total_len as nat) + " bytes, over the "@ + decimal(
                MAX_DECODED_BYTES as nat,
            ) + " byte limit"@,
        )
    } else {
        corrupt_with(
            e,
            "chunk pointer declares "@ + decimal(fields_of(raw).n_chunks as nat) + " chunks for "@ + decimal(
                fields_of(raw).total_len as nat,
            ) + " bytes; a chunk holds at least one byte"@,
        )
    }
}

/// A record begins like a pointer.
pub open spec fn points(raw: Seq<u8>) -> bool {
    starts_with(raw, pointer_magic())
}

/// The parts of a pointer's record are where they are looked for.
pub(crate) proof fn pointer_layout(p: ChunkPointer)
    ensures
        pointer_bytes(p).len() == POINTER_LEN,
        pointer_bytes(p).take(4) == pointer_magic(),
        pointer_bytes(p)[4] == POINTER_VERSION,
        fields_of(pointer_bytes(p)) == p,
{
    let raw = pointer_bytes(p);
    be64_round_trips(p.value_id);
    be32_round_trips(p.n_chunks);
    be64_round_trips(p.total_len);
    assert(raw.take(4) =~= pointer_magic());
    assert(raw.subrange(6, 14) =~= be64(p.value_id));
    assert(raw.subrange(14, 18) =~= be32(p.n_chunks));
    assert(raw.subrange(18, 26) =~= be64(p.total_len));
}

/// A pointer that may be followed reads back as it was written.
pub proof fn a_pointer_round_trips(p: ChunkPointer)
    requires
        legal(p),
    ensures
        parsed(pointer_bytes(p)) == Some(p),
        points(pointer_bytes(p)),
{
    pointer_layout(p);
}

/// A value sealed inline never looks like a pointer.
pub proof fn an_envelope_is_no_pointer(chain: &crate::codec::FilterChain, payload: Seq<u8>, sealed: Seq<u8>)
    requires
        chain.seals(payload, sealed),
    ensures
        !points(sealed),
{
    let h = crate::codec::api::header(chain.id_spec());
    assert(sealed[1] == sealed.take(6)[1]);
    assert(h[1] == 0x42u8);
    if points(sealed) {
        assert(sealed[1] == sealed.take(4)[1]);
    }
}

impl ChunkPointer {
    /// The record of this pointer.
    pub fn encode(self) -> (out: Vec<u8>)
        ensures
            out@ == pointer_bytes(self),
    {
        let mut out: Vec<u8> = Vec::with_capacity(POINTER_LEN);
        out.push(0x43);
        out.push(0x43);
        out.push(0x48);
        out.push(0x4B);
        out.push(POINTER_VERSION);
        out.push(self.flags);
        assert(out@ =~= pointer_magic() + seq![POINTER_VERSION, self.flags]);
        extend(&mut out, u64_to_be(self.value_id).as_slice());
        extend(&mut out, u32_to_be(self.n_chunks).as_slice());
        extend(&mut out, u64_to_be(self.total_len).as_slice());
        out
    }

    /// Read a pointer back.
    ///
    /// Both numbers size an allocation on the read path, so a pointer that
    /// claims more than any value may decode to, or more chunks than bytes, is
    /// refused here. No chunk at all stays legal: a writer closed without a
    /// single write stores exactly that.
    pub fn parse(raw: &[u8]) -> (r: Result<Self>)
        ensures
            r is Ok <==> parsed(raw@) is Some,
            r matches Ok(p) ==> parsed(raw@) == Some(p) && pointer_bytes(p) == raw@,
            r matches Err(e) ==> misspelt(raw@, e),
    {
        if raw.len() != POINTER_LEN || !is_pointer(raw) {
            return Err(Error::corrupt("not a chunk pointer"));
        }
        if raw[4] != POINTER_VERSION {
            return Err(Error::UnsupportedVersion { found: raw[4], supported: POINTER_VERSION });
        }
        let value_id: u64 = u64_from_be(vstd::slice::slice_subrange(raw, 6, 14));
        let n_chunks: u32 = u32_from_be(vstd::slice::slice_subrange(raw, 14, 18));
        let total_len: u64 = u64_from_be(vstd::slice::slice_subrange(raw, 18, 26));
        if total_len > MAX_DECODED_BYTES as u64 {
            return Err(
                Error::Corrupt(
                    around_two(
                        "chunk pointer declares ",
                        total_len,
                        " bytes, over the ",
                        MAX_DECODED_BYTES as u64,
                        " byte limit",
                    ),
                ),
            );
        }
        if n_chunks as u64 > total_len {
            return Err(
                Error::Corrupt(
                    around_two(
                        "chunk pointer declares ",
                        n_chunks as u64,
                        " chunks for ",
                        total_len,
                        " bytes; a chunk holds at least one byte",
                    ),
                ),
            );
        }
        let p = ChunkPointer { flags: raw[5], value_id, n_chunks, total_len };
        proof {
            assert(raw@ =~= raw@.take(4) + seq![raw@[4], raw@[5]] + raw@.subrange(6, 14) + raw@.subrange(14, 18)
                + raw@.subrange(18, 26));
        }
        Ok(p)
    }
}

/// Whether a record begins like a pointer.
pub fn is_pointer(raw: &[u8]) -> (b: bool)
    ensures
        b == points(raw@),
{
    let b: bool = raw.len() >= 4 && raw[0] == 0x43 && raw[1] == 0x43 && raw[2] == 0x48 && raw[3] == 0x4B;
    assert(raw@.len() >= 4 ==> (b <==> raw@.take(4) =~= pointer_magic()));
    b
}

/// The key of one chunk: value id, then its place.
pub open spec fn chunk_at(value_id: u64, seq: u32) -> Seq<u8> {
    be64(value_id) + be32(seq)
}

/// `value_id: u64 BE || seq: u32 BE`
pub fn chunk_key(value_id: u64, seq: u32) -> (k: Vec<u8>)
    ensures
        k@ == chunk_at(value_id, seq),
{
    joined(u64_to_be(value_id).as_slice(), u32_to_be(seq).as_slice())
}

/// Chunk keys differ unless value and place agree.
pub proof fn chunk_keys_are_apart(a: u64, i: u32, b: u64, j: u32)
    ensures
        chunk_at(a, i) == chunk_at(b, j) <==> a == b && i == j,
        starts_with(chunk_at(a, i), be64(b)) <==> a == b,
{
    be64_round_trips(a);
    be64_round_trips(b);
    be32_round_trips(i);
    be32_round_trips(j);
    if chunk_at(a, i) == chunk_at(b, j) {
        crate::bytes::append_is_injective(be64(a), be32(i), be64(b), be32(j));
    }
    assert(chunk_at(a, i).take(8) =~= be64(a));
}

/// The range of every chunk of a value.
pub fn chunk_range(value_id: u64) -> (r: KeyRange)
    ensures
        r@ == Span::prefix(be64(value_id)),
        forall|k: Seq<u8>| #[trigger] r@.contains(k) <==> starts_with(k, be64(value_id)),
{
    KeyRange::prefix(u64_to_be(value_id).as_slice())
}

/// What dropping a value's chunks does.
pub open spec fn gc(p: ChunkPointer) -> Change {
    Change::DeleteRange { table: Table::Chunks, range: Span::prefix(be64(p.value_id)) }
}

/// The op that drops every chunk of a value.
pub fn gc_ops(pointer: &ChunkPointer) -> (op: Op)
    ensures
        op@ == gc(*pointer),
{
    Op::DeleteRange { table: Table::Chunks, range: chunk_range(pointer.value_id) }
}

/// The number a stored counter holds; a missing one starts at zero, and one
/// that is not eight bytes long is no counter.
pub open spec fn counter_of(raw: Option<Seq<u8>>) -> Option<u64> {
    match raw {
        None => Some(0u64),
        Some(bytes) => if bytes.len() == 8 {
            Some(from_be64(bytes) as u64)
        } else {
            None
        },
    }
}

/// The key of the next value id to hand out.
pub fn next_value_id_key() -> (k: Vec<u8>)
    ensures
        k@ == meta::next_value_id_key(),
{
    name_bytes("next_value_id")
}

/// What moving the value id counter to `next` does.
pub open spec fn counter_put(next: u64) -> Change {
    Change::Put { table: Table::Meta, key: meta::next_value_id_key(), value: be64(next) }
}

/// Hand out `current`, and the op that moves the stored counter past it.
pub fn bump_counter_ops(current: u64) -> (r: Result<(u64, Op)>)
    ensures
        match r {
            Ok((id, op)) => id == current && current < u64::MAX && op@ == counter_put((current + 1) as u64),
            Err(e) => current == u64::MAX && backend_with(e, "value id space is exhausted"@),
        },
{
    match current.checked_add(1) {
        Some(next) => Ok(
            (
                current,
                Op::Put {
                    table: Table::Meta,
                    key: next_value_id_key(),
                    value: u64_to_be(next),
                },
            ),
        ),
        None => Err(Error::backend("value id space is exhausted")),
    }
}

/// Read a stored counter.
pub fn parse_counter(raw: Option<&[u8]>) -> (r: Result<u64>)
    ensures
        match r {
            Ok(n) => counter_of(
                match raw {
                    Some(b) => Some(b@),
                    None => None,
                },
            ) == Some(n),
            Err(e) => raw matches Some(b) && b@.len() != 8 && corrupt_with(
                e,
                "next_value_id is not an 8-byte integer"@,
            ),
        },
{
    match raw {
        None => Ok(0),
        Some(bytes) => {
            if bytes.len() == 8 {
                Ok(u64_from_be(bytes))
            } else {
                Err(Error::corrupt("next_value_id is not an 8-byte integer"))
            }
        },
    }
}

/// The bank-wide allocator for chunk value ids.
///
/// One of these is owned by a bank and used by every locker it opens, so two
/// lockers can never hand out the same id and collide in the `chunks` table.
/// The cursor is seeded from `meta` on first use and then lives in memory.
#[derive(Debug)]
pub struct ValueIds {
    /// The next id to hand out. `None` until seeded from `meta`.
    next: Option<u64>,
}

impl ValueIds {
    /// The next id to hand out, once seeded.
    pub closed spec fn cursor(self) -> Option<u64> {
        self.next
    }

    /// The id an allocation is about to hand out, where the store holds
    /// `store`.
    pub open spec fn upcoming(self, store: Store) -> Option<u64> {
        match self.cursor() {
            Some(id) => Some(id),
            None => counter_of(store.lookup(Table::Meta, meta::next_value_id_key())),
        }
    }

    /// An unseeded allocator.
    pub fn new() -> (v: Self)
        ensures
            v.cursor() is None,
    {
        ValueIds { next: None }
    }

    /// Take the next id if the cursor is already seeded.
    pub fn take(&mut self) -> (r: Result<Option<u64>>)
        ensures
            match old(self).cursor() {
                None => r == Ok::<Option<u64>, Error>(None) && *final(self) == *old(self),
                Some(id) => if id < u64::MAX {
                    r == Ok::<Option<u64>, Error>(Some(id)) && final(self).cursor() == Some((id + 1) as u64)
                } else {
                    (r matches Err(e) && backend_with(e, "value id space is exhausted"@)) && *final(self) == *old(self)
                },
            },
    {
        match self.next {
            None => Ok(None),
            Some(id) => {
                let next: u64 = match advance(id) {
                    Ok(next) => next,
                    Err(e) => return Err(e),
                };
                self.next = Some(next);
                Ok(Some(id))
            },
        }
    }

    /// Seed from the stored counter and take one. The cursor only ever moves
    /// forward, so a stored counter behind it is ignored.
    pub fn seed_and_take(&mut self, stored: u64) -> (r: Result<u64>)
        ensures
            ({
                let id = match old(self).cursor() {
                    Some(current) => if current < stored {
                        stored
                    } else {
                        current
                    },
                    None => stored,
                };
                if id < u64::MAX {
                    r == Ok::<u64, Error>(id) && final(self).cursor() == Some((id + 1) as u64)
                } else {
                    (r matches Err(e) && backend_with(e, "value id space is exhausted"@)) && *final(self) == *old(self)
                }
            }),
    {
        let id: u64 = match self.next {
            Some(current) => if current < stored {
                stored
            } else {
                current
            },
            None => stored,
        };
        let next: u64 = match advance(id) {
            Ok(next) => next,
            Err(e) => return Err(e),
        };
        self.next = Some(next);
        Ok(id)
    }

    /// Allocate one id, plus the op that persists the new counter.
    pub fn allocate<B: Backend>(&mut self, backend: &B) -> (r: Result<(u64, Op)>)
        ensures
            match r {
                Ok((id, op)) => {
                    &&& old(self).upcoming(backend.store()) == Some(id)
                    &&& id < u64::MAX
                    &&& op@ == counter_put((id + 1) as u64)
                    &&& final(self).cursor() == Some((id + 1) as u64)
                },
                Err(_) => *final(self) == *old(self),
            },
            backend.answers() && (old(self).upcoming(backend.store()) matches Some(id) && id < u64::MAX) ==> r is Ok,
            r is Ok ==> (old(self).upcoming(backend.store()) matches Some(id) && id < u64::MAX),
            backend.shut() ==> (r matches Err(e) ==> e is Closed || spent(e)),
            backend.answers() ==> (r matches Err(e) ==> match old(self).upcoming(backend.store()) {
                None => corrupt_with(e, "next_value_id is not an 8-byte integer"@),
                Some(_) => backend_with(e, "value id space is exhausted"@),
            }),
    {
        match self.take() {
            Ok(Some(id)) => return bump_counter_ops(id),
            Ok(None) => {},
            Err(e) => return Err(e),
        }
        let raw = match backend.get(Table::Meta, next_value_id_key().as_slice()) {
            Ok(raw) => raw,
            Err(e) => return Err(e),
        };
        let stored: u64 = match &raw {
            Some(bytes) => match parse_counter(Some(bytes.as_slice())) {
                Ok(n) => n,
                Err(e) => return Err(e),
            },
            None => 0,
        };
        let id: u64 = match self.seed_and_take(stored) {
            Ok(id) => id,
            Err(e) => return Err(e),
        };
        bump_counter_ops(id)
    }
}

fn advance(id: u64) -> (r: Result<u64>)
    ensures
        match r {
            Ok(next) => id < u64::MAX && next == id + 1,
            Err(e) => id == u64::MAX && backend_with(e, "value id space is exhausted"@),
        },
{
    match id.checked_add(1) {
        Some(next) => Ok(next),
        None => Err(Error::backend("value id space is exhausted")),
    }
}

/// Once the counter's op has landed, an allocator opened afresh starts past
/// every id handed out before: an id is never handed out twice.
pub proof fn a_reopened_allocator_starts_past(store: Store, id: u64)
    requires
        id < u64::MAX,
    ensures
        counter_of(store.after(counter_put((id + 1) as u64)).lookup(Table::Meta, meta::next_value_id_key())) == Some(
            (id + 1) as u64,
        ),
{
    be64_round_trips((id + 1) as u64);
}

/// The pieces of a payload: `size` bytes each, but for a shorter last one.
pub open spec fn pieces(payload: Seq<u8>, size: int) -> Seq<Seq<u8>>
    decreases payload.len(),
{
    if payload.len() == 0 || size <= 0 {
        Seq::empty()
    } else if payload.len() <= size {
        seq![payload]
    } else {
        seq![payload.take(size)] + pieces(payload.skip(size), size)
    }
}

/// Byte strings one after the other.
pub open spec fn glued(list: Seq<Seq<u8>>) -> Seq<u8>
    decreases list.len(),
{
    if list.len() == 0 {
        Seq::empty()
    } else {
        glued(list.drop_last()) + list.last()
    }
}

/// Gluing a list with one in front.
pub proof fn glued_with_a_head(head: Seq<u8>, tail: Seq<Seq<u8>>)
    ensures
        glued(seq![head] + tail) == head + glued(tail),
    decreases tail.len(),
{
    let all = seq![head] + tail;
    if tail.len() == 0 {
        assert(all.drop_last() =~= Seq::<Seq<u8>>::empty());
        assert(glued(all.drop_last()) =~= Seq::<u8>::empty());
        assert(all.last() == head);
        assert(glued(all) =~= head);
        assert(head + glued(tail) =~= head);
    } else {
        glued_with_a_head(head, tail.drop_last());
        assert(all.drop_last() =~= seq![head] + tail.drop_last());
        assert(all.last() == tail.last());
        assert(glued(all) =~= head + glued(tail));
    }
}

/// The pieces of a payload glue back to the payload, none of them is empty or
/// longer than the size, and there are no more of them than bytes.
pub proof fn pieces_glue_back(payload: Seq<u8>, size: int)
    requires
        size > 0,
    ensures
        glued(pieces(payload, size)) == payload,
        pieces(payload, size).len() <= payload.len(),
        forall|i: int|
            0 <= i < pieces(payload, size).len() ==> 0 < (#[trigger] pieces(payload, size)[i]).len() <= size,
    decreases payload.len(),
{
    if payload.len() == 0 {
        assert(glued(pieces(payload, size)) =~= payload);
    } else if payload.len() <= size {
        let list = seq![payload];
        assert(list.drop_last() =~= Seq::<Seq<u8>>::empty());
        assert(glued(list.drop_last()) =~= Seq::<u8>::empty());
        assert(glued(list) =~= payload);
    } else {
        let head = payload.take(size);
        let rest = payload.skip(size);
        pieces_glue_back(rest, size);
        glued_with_a_head(head, pieces(rest, size));
        assert(head + rest =~= payload);
    }
}

/// Split a payload into its pieces.
pub fn split(payload: &[u8], size: usize) -> (list: Vec<Vec<u8>>)
    requires
        size > 0,
    ensures
        views(list@) == pieces(payload@, size as int),
{
    let mut list: Vec<Vec<u8>> = Vec::new();
    let mut from: usize = 0;
    assert(payload@.skip(0) =~= payload@);
    assert(views(list@) =~= Seq::<Seq<u8>>::empty());
    assert(views(list@) + pieces(payload@, size as int) =~= pieces(payload@, size as int));
    while from < payload.len()
        invariant
            size > 0,
            from <= payload@.len(),
            views(list@) + pieces(payload@.skip(from as int), size as int) == pieces(payload@, size as int),
        decreases payload.len() - from,
    {
        let ghost rest = payload@.skip(from as int);
        let ghost so_far = list@;
        let to: usize = if payload.len() - from <= size {
            payload.len()
        } else {
            from + size
        };
        list.push(copy(vstd::slice::slice_subrange(payload, from, to)));
        proof {
            let piece = payload@.subrange(from as int, to as int);
            assert(views(list@) =~= views(so_far).push(piece));
            assert(payload@.skip(to as int) =~= rest.skip(to - from));
            if rest.len() <= size {
                assert(piece =~= rest);
                assert(views(list@) + pieces(payload@.skip(to as int), size as int) =~= views(so_far) + seq![rest]);
            } else {
                assert(piece =~= rest.take(size as int));
                assert(views(list@) + pieces(payload@.skip(to as int), size as int) =~= views(so_far) + (seq![piece]
                    + pieces(rest.skip(size as int), size as int)));
            }
        }
        from = to;
    }
    assert(views(list@) + pieces(payload@.skip(from as int), size as int) =~= views(list@));
    list
}

/// A pointer may be followed exactly where it declares no more than anything may
/// decode to and at least one byte to a chunk; it then reads back as it was
/// written, and otherwise not at all.
pub proof fn a_pointer_is_followed_where_it_makes_sense(p: ChunkPointer)
    ensures
        p.total_len <= 268_435_456 && p.n_chunks <= p.total_len ==> parsed(pointer_bytes(p)) == Some(p),
        p.total_len > 268_435_456 || p.n_chunks > p.total_len ==> parsed(pointer_bytes(p)) is None,
        points(pointer_bytes(p)),
{
    pointer_layout(p);
}

} // verus!
