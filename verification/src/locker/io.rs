//! Streaming writer and reader for large `Vec<u8>` values.
//!
//! Both are refused on a closed locker: a `Writer` commits chunks of its own,
//! so a closed locker must not be able to open one.
//!
//! A `Writer` is not part of a transaction. It spans many commits. Dropping it
//! without [`Writer::finish`] leaves the previous complete value intact;
//! orphan chunks from the unfinished write are dropped on [`Writer::abort`].
//! Drop without abort leaks those orphans.

use vstd::prelude::*;
use vstd::string::StringSliceAdditionalSpecFns;

use super::batch_laws::kept;
use super::chunk::{
    chunk_at, chunk_key, counter_put, gc, gc_ops, glued, is_pointer, misspelt, parsed, pointer_bytes, points,
    ChunkPointer, FLAG_RAW,
};
use super::inner::{
    assembled, bookkeeping_is_no_news, first_chunks, gc_list, loaded, locker_rows, readable, record_put, Inner, Prior,
    Shared,
};
use super::lazy::{same_handle, LazyLocker};
use super::resident::keys_in;
use crate::backend::api::{after_all_appends, after_all_pushes, append_ops, changes, push_op, Backend, Change, Op, Rows, Store, Table};
use crate::bytes::{copy, extend, starts_with, tail_of};
use crate::codec::value::{
    a_head_is_soon_there, a_head_is_within, a_head_needs_no_more, a_length_is_short, a_packed_front_is_delimited,
    a_payload_reads_back, delimited, head_len, head_value, packed, read_head, unpack, MAX_HEAD,
};
use crate::codec::{FilterChain, MAX_DECODED_BYTES};
use crate::error::{corrupt_with, spent, Error, Result};
use crate::key::{encode_bytes, stored};
use crate::meta::name_bytes;
use crate::text::{between, decimal};
use crate::watch::{announced, Event, News};

verus! {

/// Writes a value one piece at a time, without ever holding it whole.
///
/// Each piece is sealed and committed on its own, so peak memory is a small
/// multiple of the locker's chunk size rather than of the value. Nothing under
/// the key changes until [`Writer::finish`]: a writer dropped or aborted leaves
/// the previous value exactly as it was.
pub struct Writer {
    key: Vec<u8>,
    value_id: u64,
    seq: u32,
    total_len: u64,
    buf: Vec<u8>,
    /// The pieces committed so far.
    done: Ghost<Seq<Seq<u8>>>,
}

/// The first pieces of a value are stored under its id.
pub open spec fn pieces_stored(chain: FilterChain, chunks: Rows, value_id: u64, done: Seq<Seq<u8>>) -> bool {
    forall|i: int|
        0 <= i < done.len() ==> chunks.contains_key(#[trigger] chunk_at(value_id, i as u32)) && chain.seals(
            done[i],
            chunks[chunk_at(value_id, i as u32)],
        )
}

/// Every piece holds something.
pub open spec fn none_empty(done: Seq<Seq<u8>>) -> bool {
    forall|i: int| 0 <= i < done.len() ==> (#[trigger] done[i]).len() > 0
}

/// Pieces were added behind those that were there, each of exactly a size.
pub open spec fn cut_to(before: Seq<Seq<u8>>, after: Seq<Seq<u8>>, size: nat) -> bool {
    &&& before.len() <= after.len()
    &&& after.take(before.len() as int) == before
    &&& forall|i: int| before.len() <= i < after.len() ==> (#[trigger] after[i]).len() == size
}

impl Writer {
    /// The key written to.
    pub closed spec fn target(self) -> Seq<u8> {
        self.key@
    }

    /// The id the chunks are stored under.
    pub closed spec fn id_spec(self) -> u64 {
        self.value_id
    }

    /// The pieces committed so far.
    pub closed spec fn pieces_done(self) -> Seq<Seq<u8>> {
        self.done@
    }

    /// The bytes taken but not committed yet.
    pub closed spec fn buffered(self) -> Seq<u8> {
        self.buf@
    }

    /// Everything taken so far.
    pub open spec fn taken(self) -> Seq<u8> {
        glued(self.pieces_done()) + self.buffered()
    }

    /// The pieces of the value once what is buffered is the last of them.
    pub open spec fn all_pieces(self) -> Seq<Seq<u8>> {
        if self.buffered().len() == 0 {
            self.pieces_done()
        } else {
            self.pieces_done().push(self.buffered())
        }
    }

    /// How long the value will claim to be.
    pub closed spec fn claimed(self) -> u64 {
        self.total_len
    }

    /// The counts agree with what was taken.
    pub closed spec fn wf(self) -> bool {
        &&& self.seq == self.done@.len()
        &&& self.total_len == self.taken().len()
        &&& none_empty(self.done@)
    }

    /// The writer's pieces are all in the store.
    pub open spec fn settled(self, chain: FilterChain, chunks: Rows) -> bool {
        pieces_stored(chain, chunks, self.id_spec(), self.pieces_done())
    }

    /// Begin a value: take an id and record that it is taken.
    fn start<B: Backend>(inner: &mut Inner, shared: &mut Shared<B>, key: Vec<u8>) -> (r: Result<Self>)
        ensures
            old(shared).backend.shut() ==> (r matches Err(e) && (e is Closed || spent(e))),
            final(shared).carries_on(*old(shared)),
            final(shared).stays_forced(*old(shared), old(inner).config.durability),
            final(shared).silent(*old(shared), *old(inner), *final(inner)),
            final(inner).same_but_news(*old(inner)),
            final(inner).watchers == old(inner).watchers,
            r is Err ==> final(shared).backend.store() == old(shared).backend.store(),
            r matches Ok(w) ==> {
                &&& w.wf()
                &&& w.target() == key@
                &&& w.pieces_done().len() == 0
                &&& w.taken().len() == 0
                &&& old(shared).values.upcoming(old(shared).backend.store()) == Some(w.id_spec())
                &&& w.id_spec() < u64::MAX
                &&& final(shared).backend.store() == old(shared).backend.store().after(
                    counter_put((w.id_spec() + 1) as u64),
                )
            },
            old(shared).backend.answers() && (old(shared).values.upcoming(
                old(shared).backend.store(),
            ) matches Some(id) && id < u64::MAX) ==> r is Ok,
    {
        let (value_id, bump) = match shared.values.allocate(&shared.backend) {
            Ok(pair) => pair,
            Err(e) => return Err(e),
        };
        let ghost store = shared.backend.store();
        let mut ops: Vec<Op> = Vec::new();
        assert(changes(ops@) =~= Seq::<Change>::empty());
        push_op(&mut ops, bump);
        proof {
            after_all_pushes(store, Seq::empty(), bump@);
            assert(changes(ops@) =~= Seq::<Change>::empty().push(bump@));
            bookkeeping_is_no_news(inner.id, changes(ops@));
            assert(store.after_all(Seq::<Change>::empty()) == store);
        }
        match inner.commit(shared, ops) {
            Ok(()) => {},
            Err(e) => return Err(e),
        }
        let w = Writer { key, value_id, seq: 0, total_len: 0, buf: Vec::new(), done: Ghost(Seq::empty()) };
        assert(glued(w.done@) =~= Seq::<u8>::empty());
        Ok(w)
    }

    /// Append `bytes`. Commits every full chunk.
    pub fn write_chunk<B: Backend>(
        &mut self,
        locker: &mut LazyLocker<Vec<u8>>,
        shared: &mut Shared<B>,
        bytes: &[u8],
    ) -> (r: Result<()>)
        requires
            old(locker).res.inner.config.chunk_size > 0,
            old(self).claimed() + bytes@.len() <= u64::MAX,
        ensures
            old(shared).backend.shut() ==> (r matches Err(e) ==> old(locker).res.inner.shut_out(e)),
            final(shared).carries_on(*old(shared)),
            final(shared).stays_forced(*old(shared), old(locker).res.inner.config.durability),
            final(shared).silent(*old(shared), old(locker).res.inner, final(locker).res.inner),
            same_handle(*final(locker), *old(locker)),
            same_but_epochs(*final(locker), *old(locker)),
            final(self).target() == old(self).target(),
            final(self).id_spec() == old(self).id_spec(),
            final(shared).backend.store().records == old(shared).backend.store().records,
            final(shared).backend.store().meta == old(shared).backend.store().meta,
            only_under(
                old(shared).backend.store().chunks,
                final(shared).backend.store().chunks,
                old(self).id_spec(),
            ),
            cut_to(
                old(self).pieces_done(),
                final(self).pieces_done(),
                old(locker).res.inner.config.chunk_size as nat,
            ),
            r is Ok ==> {
                &&& final(self).taken() == old(self).taken() + bytes@
                &&& final(self).buffered().len() < old(locker).res.inner.config.chunk_size
                &&& old(self).wf() ==> final(self).wf()
                &&& old(self).wf() && old(self).settled(*old(locker).res.inner.chain, old(shared).backend.store().chunks)
                    ==> final(self).settled(*old(locker).res.inner.chain, final(shared).backend.store().chunks)
            },
            old(shared).backend.answers() && old(self).wf() && old(self).pieces_done().len() + whole_pieces(
                old(self).buffered().len() + bytes@.len(),
                old(locker).res.inner.config.chunk_size as nat,
            ) <= u32::MAX && (forall|piece: Seq<u8>| #[trigger] old(locker).res.inner.chain.takes(piece)) ==> r is Ok,
    {
        let ghost fine = old(shared).backend.answers() && old(self).wf() && old(self).pieces_done().len()
            + whole_pieces(
            old(self).buffered().len() + bytes@.len(),
            old(locker).res.inner.config.chunk_size as nat,
        ) <= u32::MAX && (forall|piece: Seq<u8>| #[trigger] old(locker).res.inner.chain.takes(piece));
        extend(&mut self.buf, bytes);
        self.total_len += bytes.len() as u64;
        let ghost all = old(self).taken() + bytes@;
        let chunk_size: usize = locker.res.inner.config.chunk_size;
        assert(self.taken() =~= all);
        assert(cut_to(old(self).pieces_done(), self.pieces_done(), chunk_size as nat)) by {
            assert(self.pieces_done().take(self.pieces_done().len() as int) =~= self.pieces_done());
        }
        while self.buf.len() >= chunk_size
            invariant
                chunk_size > 0,
                cut_to(old(self).pieces_done(), self.pieces_done(), chunk_size as nat),
                chunk_size == locker.res.inner.config.chunk_size,
                same_handle(*locker, *old(locker)),
                same_but_epochs(*locker, *old(locker)),
                self.target() == old(self).target(),
                self.id_spec() == old(self).id_spec(),
                shared.backend.store().records == old(shared).backend.store().records,
                shared.backend.store().meta == old(shared).backend.store().meta,
                only_under(old(shared).backend.store().chunks, shared.backend.store().chunks, old(self).id_spec()),
                self.taken() == all,
                all == old(self).taken() + bytes@,
                self.total_len == old(self).total_len + bytes@.len(),
                old(self).wf() ==> self.wf(),
                old(self).wf() && old(self).settled(*old(locker).res.inner.chain, old(shared).backend.store().chunks)
                    ==> self.settled(*old(locker).res.inner.chain, shared.backend.store().chunks),
                shared.carries_on(*old(shared)),
                shared.stays_forced(*old(shared), old(locker).res.inner.config.durability),
                shared.silent(*old(shared), old(locker).res.inner, locker.res.inner),
                fine == (old(shared).backend.answers() && old(self).wf() && old(self).pieces_done().len() + whole_pieces(
                    old(self).buffered().len() + bytes@.len(),
                    old(locker).res.inner.config.chunk_size as nat,
                ) <= u32::MAX && (forall|piece: Seq<u8>| #[trigger] old(locker).res.inner.chain.takes(piece))),
                fine ==> self.pieces_done().len() + whole_pieces(self.buf@.len(), chunk_size as nat) <= u32::MAX,
            decreases self.buf.len(),
        {
            let ghost buf = self.buf@;
            let ghost so_far = self.pieces_done();
            let piece = copy(vstd::slice::slice_subrange(self.buf.as_slice(), 0, chunk_size));
            let rest = tail_of(self.buf.as_slice(), chunk_size);
            self.buf = rest;
            proof {
                assert(piece@ + self.buf@ =~= buf);
                assert(glued(self.done@) + buf =~= glued(self.done@) + piece@ + self.buf@);
                one_piece_less(buf.len(), chunk_size as nat);
            }
            match self.flush_piece(locker, shared, piece.as_slice(), Ghost(all)) {
                Ok(()) => {},
                Err(e) => return Err(e),
            }
            proof {
                let was = old(self).pieces_done();
                assert(self.pieces_done().take(was.len() as int) =~= so_far.take(was.len() as int));
            }
        }
        Ok(())
    }

    /// Commit one piece, already taken off the buffer.
    fn flush_piece<B: Backend>(
        &mut self,
        locker: &mut LazyLocker<Vec<u8>>,
        shared: &mut Shared<B>,
        piece: &[u8],
        all: Ghost<Seq<u8>>,
    ) -> (r: Result<()>)
        requires
            piece@.len() > 0,
            glued(old(self).pieces_done()) + piece@ + old(self).buffered() == all@,
        ensures
            old(shared).backend.shut() ==> (r matches Err(e) && old(locker).res.inner.shut_out(e)),
            final(shared).carries_on(*old(shared)),
            final(shared).stays_forced(*old(shared), old(locker).res.inner.config.durability),
            final(shared).silent(*old(shared), old(locker).res.inner, final(locker).res.inner),
            same_handle(*final(locker), *old(locker)),
            same_but_epochs(*final(locker), *old(locker)),
            final(self).target() == old(self).target(),
            final(self).id_spec() == old(self).id_spec(),
            final(self).buffered() == old(self).buffered(),
            final(self).claimed() == old(self).claimed(),
            final(shared).backend.store().records == old(shared).backend.store().records,
            final(shared).backend.store().meta == old(shared).backend.store().meta,
            only_under(
                old(shared).backend.store().chunks,
                final(shared).backend.store().chunks,
                old(self).id_spec(),
            ),
            r is Ok ==> {
                &&& final(self).taken() == all@
                &&& old(self).counts(all@) ==> final(self).wf()
                &&& old(self).counts(all@) && old(self).settled(
                    *old(locker).res.inner.chain,
                    old(shared).backend.store().chunks,
                ) ==> final(self).settled(*old(locker).res.inner.chain, final(shared).backend.store().chunks)
            },
            r is Ok ==> final(self).pieces_done() == old(self).pieces_done().push(piece@),
            r is Err ==> final(self).pieces_done() == old(self).pieces_done(),
            old(shared).backend.answers() && old(self).counts(all@) && old(self).pieces_done().len() < u32::MAX
                && old(locker).res.inner.chain.takes(piece@) ==> r is Ok,
    {
        let sealed = match locker.res.inner.chain.seal_slice(piece) {
            Ok(sealed) => sealed,
            Err(e) => return Err(e),
        };
        let next: u32 = match self.seq.checked_add(1) {
            Some(next) => next,
            None => return Err(Error::backend("chunk sequence space is exhausted")),
        };
        let ghost store = shared.backend.store();
        let ghost put = Change::Put {
            table: Table::Chunks,
            key: chunk_at(self.value_id, self.seq),
            value: sealed@,
        };
        let mut ops: Vec<Op> = Vec::new();
        assert(changes(ops@) =~= Seq::<Change>::empty());
        push_op(&mut ops, Op::Put { table: Table::Chunks, key: chunk_key(self.value_id, self.seq), value: sealed });
        proof {
            after_all_pushes(store, Seq::empty(), put);
            assert(changes(ops@) =~= Seq::<Change>::empty().push(put));
            assert(store.after_all(Seq::<Change>::empty()) == store);
            bookkeeping_is_no_news(locker.res.inner.id, changes(ops@));
            super::chunk::chunk_keys_are_apart(self.value_id, self.seq, self.value_id, 0);
        }
        match locker.res.inner.commit(shared, ops) {
            Ok(()) => {},
            Err(e) => return Err(e),
        }
        self.seq = next;
        let ghost was = self.done@;
        self.done = Ghost(was.push(piece@));
        proof {
            assert(self.done@.drop_last() =~= was);
            assert(glued(self.done@) =~= glued(was) + piece@);
            let chunks = shared.backend.store().chunks;
            assert forall|i: int|
                0 <= i < self.done@.len() && old(self).counts(all@) && old(self).settled(
                    *old(locker).res.inner.chain,
                    store.chunks,
                ) implies chunks.contains_key(#[trigger] chunk_at(self.value_id, i as u32)) && old(
                locker,
            ).res.inner.chain.seals(self.done@[i], chunks[chunk_at(self.value_id, i as u32)]) by {
                super::chunk::chunk_keys_are_apart(self.value_id, i as u32, self.value_id, old(self).seq);
                if i < was.len() {
                    assert(self.done@[i] == was[i]);
                    assert(store.chunks.contains_key(chunk_at(self.value_id, i as u32)));
                }
            }
        }
        Ok(())
    }

    /// The counts agree, where `all` is what was taken.
    pub closed spec fn counts(self, all: Seq<u8>) -> bool {
        &&& self.seq == self.done@.len()
        &&& self.total_len == all.len()
        &&& none_empty(self.done@)
    }

    /// Publish the value. The previous complete value is replaced atomically:
    /// the record's pointer swaps in one commit together with what is left in
    /// the buffer and the drop of the chunks behind the old record.
    pub fn finish<B: Backend>(self, locker: &mut LazyLocker<Vec<u8>>, shared: &mut Shared<B>) -> (r: Result<()>)
        ensures
            old(shared).backend.shut() ==> (r matches Err(e) && old(locker).res.inner.shut_out(e)),
            final(shared).carries_on(*old(shared)),
            final(shared).stays_forced(*old(shared), old(locker).res.inner.config.durability),
            final(shared).told(*old(shared), old(locker).res.inner, final(locker).res.inner),
            same_handle(*final(locker), *old(locker)),
            final(locker).res.staged == old(locker).res.staged,
            r is Err ==> final(shared).backend.store() == old(shared).backend.store() && same_but_epochs(
                *final(locker),
                *old(locker),
            ),
            r is Ok ==> {
                &&& old(locker).res.index is Some ==> keys_in(final(locker).res.index) == keys_in(
                    old(locker).res.index,
                ).insert(self.target())
                &&& announced(
                    old(locker).res.inner.watchers,
                    News::Put { key: self.target() },
                    final(locker).res.inner.watchers,
                )
                &&& final(locker).res.known_inline@ == old(locker).res.known_inline@.remove(self.target())
                &&& final(locker).res.lru == old(locker).res.lru
                &&& final(locker).corrupt == old(locker).corrupt
                &&& exists|whole: Seq<Seq<u8>>, mid: Store| #[trigger]
                    published(
                        *old(locker).res.inner.chain,
                        old(locker).res.inner.id,
                        self,
                        old(shared).backend.store(),
                        mid,
                        whole,
                        final(shared).backend.store(),
                    )
            },
            old(shared).backend.answers() && gc_list(
                old(shared).backend.store().records,
                old(locker).res.inner.id,
                self.target(),
                Prior::Unknown,
            ) is Some && (self.buffered().len() == 0 || (self.wf() && self.pieces_done().len() < u32::MAX
                && old(locker).res.inner.chain.takes(self.buffered()))) ==> r is Ok,
    {
        let mut w = self;
        let ghost before = shared.backend.store();
        let ops = match w.leftover_ops(&locker.res.inner, Ghost(before)) {
            Ok(ops) => ops,
            Err(e) => return Err(e),
        };
        let ghost mid = before.after_all(changes(ops@));
        match w.publish(ops, locker, shared) {
            Ok(()) => {},
            Err(e) => return Err(e),
        }
        proof {
            assert(w.taken() =~= glued(w.pieces_done()));
            assert(published(
                *old(locker).res.inner.chain,
                old(locker).res.inner.id,
                self,
                before,
                mid,
                w.pieces_done(),
                shared.backend.store(),
            ));
        }
        Ok(())
    }

    /// The ops that write what is left in the buffer as the last piece.
    fn leftover_ops(&mut self, inner: &Inner, store: Ghost<Store>) -> (r: Result<Vec<Op>>)
        ensures
            final(self).target() == old(self).target(),
            final(self).id_spec() == old(self).id_spec(),
            r matches Ok(ops) ==> {
                let mid = store@.after_all(changes(ops@));
                &&& final(self).claimed() == old(self).claimed()
                &&& final(self).taken() == old(self).taken()
                &&& final(self).buffered().len() == 0
                &&& final(self).pieces_done() == old(self).all_pieces()
                &&& old(self).wf() ==> final(self).wf()
                &&& mid.records == store@.records
                &&& mid.meta == store@.meta
                &&& only_under(store@.chunks, mid.chunks, old(self).id_spec())
                &&& old(self).wf() && old(self).settled(*inner.chain, store@.chunks) ==> final(self).settled(
                    *inner.chain,
                    mid.chunks,
                )
            },
            r matches Err(e) ==> inner.chain.declines(old(self).buffered(), e) || spent(e),
            old(self).buffered().len() == 0 ==> r is Ok,
            old(self).wf() && old(self).pieces_done().len() < u32::MAX && inner.chain.takes(old(self).buffered()) ==> r is Ok,
    {
        let mut ops: Vec<Op> = Vec::new();
        proof {
            assert(changes(ops@) =~= Seq::<Change>::empty());
            assert(store@.after_all(Seq::<Change>::empty()) == store@);
        }
        if self.buf.len() == 0 {
            return Ok(ops);
        }
        let sealed = match inner.chain.seal_slice(self.buf.as_slice()) {
            Ok(sealed) => sealed,
            Err(e) => return Err(e),
        };
        let next: u32 = match self.seq.checked_add(1) {
            Some(next) => next,
            None => return Err(Error::backend("chunk sequence space is exhausted")),
        };
        let ghost put = Change::Put {
            table: Table::Chunks,
            key: chunk_at(self.value_id, self.seq),
            value: sealed@,
        };
        push_op(&mut ops, Op::Put { table: Table::Chunks, key: chunk_key(self.value_id, self.seq), value: sealed });
        let ghost was = self.done@;
        let ghost piece = self.buf@;
        self.seq = next;
        self.done = Ghost(was.push(piece));
        self.buf = Vec::new();
        proof {
            after_all_pushes(store@, Seq::empty(), put);
            assert(changes(ops@) =~= Seq::<Change>::empty().push(put));
            super::chunk::chunk_keys_are_apart(self.value_id, old(self).seq, self.value_id, 0);
            assert(self.done@.drop_last() =~= was);
            assert(glued(self.done@) =~= glued(was) + piece);
            assert(self.taken() =~= old(self).taken());
            let chunks = store@.after_all(changes(ops@)).chunks;
            assert forall|i: int|
                0 <= i < self.done@.len() && old(self).wf() && old(self).settled(
                    *inner.chain,
                    store@.chunks,
                ) implies chunks.contains_key(#[trigger] chunk_at(self.value_id, i as u32)) && inner.chain.seals(
                self.done@[i],
                chunks[chunk_at(self.value_id, i as u32)],
            ) by {
                super::chunk::chunk_keys_are_apart(self.value_id, i as u32, self.value_id, old(self).seq);
                if i < was.len() {
                    assert(self.done@[i] == was[i]);
                    assert(store@.chunks.contains_key(chunk_at(self.value_id, i as u32)));
                }
            }
        }
        Ok(ops)
    }

    /// Swap the key's record for a pointer to the pieces, in one commit behind
    /// `head`.
    fn publish<B: Backend>(&self, head: Vec<Op>, locker: &mut LazyLocker<Vec<u8>>, shared: &mut Shared<B>) -> (r: Result<
        (),
    >)
        requires
            old(shared).backend.store().after_all(changes(head@)).records == old(shared).backend.store().records,
        ensures
            old(shared).backend.shut() ==> (r matches Err(e) && e is Closed),
            final(shared).carries_on(*old(shared)),
            final(shared).stays_forced(*old(shared), old(locker).res.inner.config.durability),
            final(shared).told(*old(shared), old(locker).res.inner, final(locker).res.inner),
            same_handle(*final(locker), *old(locker)),
            final(locker).res.staged == old(locker).res.staged,
            r is Err ==> final(shared).backend.store() == old(shared).backend.store() && same_but_epochs(
                *final(locker),
                *old(locker),
            ),
            r is Ok ==> {
                &&& old(locker).res.index is Some ==> keys_in(final(locker).res.index) == keys_in(
                    old(locker).res.index,
                ).insert(self.target())
                &&& announced(
                    old(locker).res.inner.watchers,
                    News::Put { key: self.target() },
                    final(locker).res.inner.watchers,
                )
                &&& final(locker).res.known_inline@ == old(locker).res.known_inline@.remove(self.target())
                &&& final(locker).res.lru == old(locker).res.lru
                &&& final(locker).corrupt == old(locker).corrupt
                &&& swapped(
                    old(locker).res.inner.id,
                    *self,
                    old(shared).backend.store().after_all(changes(head@)),
                    final(shared).backend.store(),
                )
            },
            old(shared).backend.answers() && gc_list(
                old(shared).backend.store().records,
                old(locker).res.inner.id,
                self.target(),
                Prior::Unknown,
            ) is Some ==> r is Ok,
    {
        let gone = match locker.res.inner.gc_behind(&shared.backend, self.key.as_slice(), Prior::Unknown) {
            Ok(ops) => ops,
            Err(e) => return Err(e),
        };
        let ghost store = shared.backend.store();
        let ghost first = changes(head@);
        let ghost dropped = changes(gone@);
        let mut ops = head;
        append_ops(&mut ops, gone);
        let pointer = ChunkPointer {
            value_id: self.value_id,
            n_chunks: self.seq,
            total_len: self.total_len,
            flags: FLAG_RAW,
        };
        push_op(
            &mut ops,
            Op::Put {
                table: Table::Records,
                key: encode_bytes(locker.res.inner.id, self.key.as_slice()),
                value: pointer.encode(),
            },
        );
        proof {
            let put = record_put(locker.res.inner.id, self.key@, pointer_bytes(pointer));
            assert(changes(ops@) =~= first + dropped.push(put));
            after_all_appends(store, first, dropped.push(put));
        }
        match locker.res.inner.commit(shared, ops) {
            Ok(()) => {},
            Err(e) => return Err(e),
        }
        // After the commit, like every other index update: an index entry for
        // a write that failed is worse than a missing one.
        match &mut locker.res.index {
            None => {},
            Some(index) => {
                let ghost was = index@.dom();
                index.insert(copy(self.key.as_slice()), ());
                assert(index@.dom() =~= was.insert(self.key@));
            },
        }
        locker.res.note_inline(self.key.as_slice(), false);
        locker.res.inner.announce(Event::Put { key: copy(self.key.as_slice()) });
        Ok(())
    }

    /// The pointer to everything committed.
    pub closed spec fn pointer(self) -> ChunkPointer {
        ChunkPointer { value_id: self.value_id, n_chunks: self.seq, total_len: self.total_len, flags: FLAG_RAW }
    }

    /// What the pointer says.
    pub proof fn the_pointer_counts_the_pieces(self)
        ensures
            self.pointer().value_id == self.id_spec(),
            self.pointer().total_len == self.claimed(),
            self.pointer().flags == FLAG_RAW,
            self.wf() ==> self.pointer().n_chunks == self.pieces_done().len() && self.claimed() == self.taken().len()
                && none_empty(self.pieces_done()),
    {
    }

    /// Drop this write and delete the chunks already committed. The previous
    /// complete value is unchanged.
    pub fn abort<B: Backend>(self, locker: &mut LazyLocker<Vec<u8>>, shared: &mut Shared<B>) -> (r: Result<()>)
        ensures
            old(shared).backend.shut() ==> (r matches Err(e) && e is Closed),
            final(shared).carries_on(*old(shared)),
            final(shared).stays_forced(*old(shared), old(locker).res.inner.config.durability),
            final(shared).silent(*old(shared), old(locker).res.inner, final(locker).res.inner),
            same_handle(*final(locker), *old(locker)),
            same_but_epochs(*final(locker), *old(locker)),
            old(shared).backend.answers() ==> r is Ok,
            r is Err ==> final(shared).backend.store() == old(shared).backend.store(),
            r is Ok ==> {
                let now = final(shared).backend.store();
                let was = old(shared).backend.store();
                &&& now.records == was.records
                &&& now.meta == was.meta
                &&& only_under(was.chunks, now.chunks, self.id_spec())
                &&& forall|k: Seq<u8>| #[trigger]
                    now.chunks.contains_key(k) ==> !crate::bytes::starts_with(k, crate::bytes::be64(self.id_spec()))
            },
    {
        let pointer = ChunkPointer { value_id: self.value_id, n_chunks: self.seq, total_len: 0, flags: FLAG_RAW };
        let ghost store = shared.backend.store();
        let mut ops: Vec<Op> = Vec::new();
        assert(changes(ops@) =~= Seq::<Change>::empty());
        push_op(&mut ops, gc_ops(&pointer));
        proof {
            after_all_pushes(store, Seq::empty(), gc(pointer));
            assert(changes(ops@) =~= Seq::<Change>::empty().push(gc(pointer)));
            bookkeeping_is_no_news(locker.res.inner.id, changes(ops@));
            assert(store.after_all(Seq::<Change>::empty()) == store);
            let after = store.after(gc(pointer));
            assert forall|k: Seq<u8>| #[trigger] after.chunks.contains_key(k) <==> store.chunks.contains_key(k)
                && !crate::bytes::starts_with(k, crate::bytes::be64(self.value_id)) by {
                crate::backend::api::a_prefix_span_holds_what_starts_with_it(crate::bytes::be64(self.value_id), k);
            }
        }
        locker.res.inner.commit(shared, ops)
    }
}

/// How many whole pieces of a size some bytes make.
pub open spec fn whole_pieces(len: nat, size: nat) -> nat {
    len / size
}

/// A piece taken off leaves one fewer.
proof fn one_piece_less(len: nat, size: nat)
    requires
        0 < size <= len,
    ensures
        whole_pieces(len, size) == whole_pieces((len - size) as nat, size) + 1,
{
    assert(len / size == (len - size) / (size as int) + 1) by (nonlinear_arith)
        requires
            0 < size <= len,
    ;
}

/// Chunks changed only under one id.
pub open spec fn only_under(before: Rows, after: Rows, value_id: u64) -> bool {
    super::laws::same_outside(before, after, value_id)
}

/// The same locker, untouched but for what it remembers of its own commits.
pub open spec fn same_but_epochs(a: LazyLocker<Vec<u8>>, b: LazyLocker<Vec<u8>>) -> bool {
    &&& a.res.index == b.res.index
    &&& a.res.lru == b.res.lru
    &&& a.res.staged == b.res.staged
    &&& a.res.known_inline == b.res.known_inline
    &&& a.res.inner.watchers == b.res.inner.watchers
    &&& a.corrupt == b.corrupt
}

/// A streamed value was published in one commit: what was left in the buffer
/// became its last piece, which makes `mid` of the store, then the chunks behind
/// the old record went and a pointer to all the pieces took its place.
pub open spec fn published(
    chain: FilterChain,
    id: crate::key::LockerId,
    w: Writer,
    before: Store,
    mid: Store,
    whole: Seq<Seq<u8>>,
    after: Store,
) -> bool {
    &&& glued(whole) == w.taken()
    &&& whole == w.all_pieces()
    &&& mid.records == before.records
    &&& mid.meta == before.meta
    &&& only_under(before.chunks, mid.chunks, w.id_spec())
    &&& w.wf() && w.settled(chain, before.chunks) ==> pieces_stored(chain, mid.chunks, w.id_spec(), whole)
    &&& exists|last: Writer|
        {
            &&& last.target() == w.target()
            &&& last.id_spec() == w.id_spec()
            &&& last.pieces_done() == whole
            &&& last.buffered().len() == 0
            &&& w.wf() ==> last.wf()
            &&& #[trigger] swapped(id, last, mid, after)
        }
}

/// The chunks behind the old record went, and a pointer to a writer's pieces
/// took its place.
pub open spec fn swapped(id: crate::key::LockerId, w: Writer, before: Store, after: Store) -> bool {
    gc_list(before.records, id, w.target(), Prior::Unknown) matches Some(dropped) && after == before.after_all(
        dropped.push(record_put(id, w.target(), pointer_bytes(w.pointer()))),
    )
}

/// A streamed value is read back: once a writer has finished, its key's record
/// loads to exactly the bytes it took.
pub proof fn what_is_streamed_is_read(
    chain: &FilterChain,
    id: crate::key::LockerId,
    w: Writer,
    before: Store,
    mid: Store,
    whole: Seq<Seq<u8>>,
    after: Store,
)
    requires
        published(*chain, id, w, before, mid, whole, after),
        w.wf(),
        w.settled(*chain, before.chunks),
        super::laws::owns(before.records, stored(id, w.target())) ==> super::laws::owned(
            before.records,
            stored(id, w.target()),
        ) != w.id_spec(),
        w.taken().len() <= MAX_DECODED_BYTES,
        forall|i: int| 0 <= i < whole.len() ==> chain.keeps(#[trigger] whole[i]),
    ensures
        ({
            let rows = locker_rows(after.records, id);
            &&& rows.contains_key(w.target())
            &&& loaded(*chain, after.chunks, rows[w.target()]) == Some(w.taken())
            &&& super::inner::readable(*chain, after.chunks, rows[w.target()]) == Some(
                crate::codec::value::packed(w.taken()),
            )
        }),
{
    let last = choose|last: Writer|
        {
            &&& last.target() == w.target()
            &&& last.id_spec() == w.id_spec()
            &&& last.pieces_done() == whole
            &&& last.buffered().len() == 0
            &&& w.wf() ==> last.wf()
            &&& #[trigger] swapped(id, last, mid, after)
        };
    last.the_pointer_counts_the_pieces();
    let p = last.pointer();
    let dropped = gc_list(mid.records, id, w.target(), Prior::Unknown)->0;
    let put = record_put(id, w.target(), pointer_bytes(p));
    after_all_pushes(mid, dropped, put);
    super::laws::dropping_behind_a_key(mid, id, w.target(), Prior::Unknown);
    let gone = mid.after_all(dropped);
    assert(last.taken() =~= glued(whole));
    pieces_are_no_more_than_bytes(whole);
    assert(super::chunk::legal(p));
    super::chunk::a_pointer_round_trips(p);
    assert forall|i: int| 0 <= i < whole.len() implies after.chunks.contains_key(
        #[trigger] chunk_at(w.id_spec(), i as u32),
    ) && chain.seals(whole[i], after.chunks[chunk_at(w.id_spec(), i as u32)]) by {
        let at = chunk_at(w.id_spec(), i as u32);
        assert(mid.chunks.contains_key(at));
        if dropped.len() > 0 {
            super::chunk::chunk_keys_are_apart(
                w.id_spec(),
                i as u32,
                super::laws::owned(before.records, stored(id, w.target())),
                0,
            );
        }
        assert(gone.chunks.contains_key(at) && gone.chunks[at] == mid.chunks[at]);
    }
    super::laws::chunks_add_up(chain, after.chunks, w.id_spec(), whole, whole.len() as int);
    assert(whole.take(whole.len() as int) =~= whole);
}

/// Pieces that all hold something are no more than the bytes they hold.
pub(crate) proof fn pieces_are_no_more_than_bytes(whole: Seq<Seq<u8>>)
    requires
        none_empty(whole),
    ensures
        whole.len() <= glued(whole).len(),
    decreases whole.len(),
{
    if whole.len() > 0 {
        let short = whole.drop_last();
        assert forall|i: int| 0 <= i < short.len() implies (#[trigger] short[i]).len() > 0 by {
            assert(short[i] == whole[i]);
        }
        pieces_are_no_more_than_bytes(short);
        assert(whole.last() == whole[whole.len() - 1]);
    }
}

/// What the first chunks of a value add up to.
pub open spec fn front_of(chain: &FilterChain, chunks: Rows, value_id: u64, n: int) -> Option<Seq<u8>> {
    first_chunks(*chain, chunks, value_id, n)
}

/// The payload that the chunks of a value make up.
pub open spec fn whole_of(chain: &FilterChain, chunks: Rows, p: ChunkPointer) -> Option<Seq<u8>> {
    assembled(*chain, chunks, p)
}

/// What the chunks of a value from one to another add up to; `None` where one is
/// missing or does not open.
pub open spec fn later_chunks(chain: &FilterChain, chunks: Rows, value_id: u64, from: int, to: int) -> Option<Seq<u8>>
    decreases to - from,
{
    if from >= to {
        Some(Seq::empty())
    } else {
        let key = chunk_at(value_id, from as u32);
        if chunks.contains_key(key) {
            match (chain.opened(chunks[key]), later_chunks(chain, chunks, value_id, from + 1, to)) {
                (Some(piece), Some(rest)) => Some(piece + rest),
                _ => None,
            }
        } else {
            None
        }
    }
}

/// The first chunks of a value and the later ones make it up.
pub proof fn first_and_later_chunks(chain: &FilterChain, chunks: Rows, value_id: u64, from: int, to: int)
    requires
        0 <= from <= to,
        first_chunks(*chain, chunks, value_id, to) is Some,
    ensures
        first_chunks(*chain, chunks, value_id, from) matches Some(front) && later_chunks(
            chain,
            chunks,
            value_id,
            from,
            to,
        ) matches Some(rest) && first_chunks(*chain, chunks, value_id, to) == Some(front + rest),
    decreases to - from,
{
    let all = front_of(chain, chunks, value_id, to)->0;
    if from < to {
        first_and_later_chunks(chain, chunks, value_id, from + 1, to);
        let front = front_of(chain, chunks, value_id, from)->0;
        let piece = chain.opened(chunks[chunk_at(value_id, from as u32)])->0;
        let rest = later_chunks(chain, chunks, value_id, from + 1, to)->0;
        assert((front + piece) + rest =~= front + (piece + rest));
    } else {
        assert(all + Seq::<u8>::empty() =~= all);
    }
}

/// Yields a stored value one piece at a time.
///
/// The counterpart to [`Writer`], and deliberately not the whole-value path:
/// holding every piece at once is precisely what this exists to avoid. An
/// inline value is yielded as a single piece, so a caller never has to know
/// which it got.
pub struct Reader {
    /// Where the chunks are, and how many bytes the value has.
    pub pointer: ChunkPointer,
    pub seq: u32,
    /// What was read and not yet yielded. Inline values are yielded as a single
    /// piece, then exhausted.
    pub inline: Option<Vec<u8>>,
    /// How many bytes of the value the chunks still to be read hold; `None`
    /// where all they hold is the value's.
    pub left: Option<u64>,
}

/// As much of some bytes as belongs to a value of which so much is left.
pub open spec fn within(left: Option<u64>, bytes: Seq<u8>) -> Seq<u8> {
    match left {
        Some(n) => if n < bytes.len() {
            bytes.take(n as int)
        } else {
            bytes
        },
        None => bytes,
    }
}

/// How much is left of a value once some bytes of it were read.
pub open spec fn left_after(left: Option<u64>, read: nat) -> Option<u64> {
    match left {
        Some(n) => Some((n - read) as u64),
        None => None,
    }
}

/// `e` says that a chunk of a value is missing.
pub open spec fn lacks_chunk(value_id: u64, seq: u32, e: Error) -> bool {
    corrupt_with(e, "missing chunk "@ + decimal(seq as nat) + " of "@ + decimal(value_id as nat))
}

impl Reader {
    /// A reader of a value that was streamed in: its chunks hold it and nothing
    /// else.
    pub fn from_pointer(pointer: ChunkPointer) -> (r: Self)
        ensures
            r.pointer == pointer,
            r.seq == 0,
            r.inline is None,
            r.left is None,
    {
        Reader { pointer, seq: 0, inline: None, left: None }
    }

    /// A reader of an inline value.
    pub fn from_inline(value: Vec<u8>) -> (r: Self)
        ensures
            r.pointer.value_id == 0,
            r.pointer.n_chunks == 0,
            r.pointer.total_len == value@.len(),
            r.pointer.flags == FLAG_RAW,
            r.seq == 0,
            r.inline == Some(value),
            r.left is None,
    {
        let total_len: u64 = value.len() as u64;
        Reader {
            pointer: ChunkPointer { value_id: 0, n_chunks: 0, total_len, flags: FLAG_RAW },
            seq: 0,
            inline: Some(value),
            left: None,
        }
    }

    /// Everything that is still to be yielded; `None` where it cannot all be
    /// read.
    pub open spec fn rest(self, chain: &FilterChain, chunks: Rows) -> Option<Seq<u8>> {
        let held = match self.inline {
            Some(bytes) => bytes@,
            None => Seq::empty(),
        };
        match later_chunks(chain, chunks, self.pointer.value_id, self.seq as int, self.pointer.n_chunks as int) {
            Some(later) => match self.left {
                None => Some(held + later),
                Some(n) => if n <= later.len() {
                    Some(held + later.take(n as int))
                } else {
                    None
                },
            },
            None => None,
        }
    }

    /// Whether nothing is left to read.
    pub open spec fn at_end(self) -> bool {
        self.seq >= self.pointer.n_chunks || self.left == Some(0u64)
    }

    /// Total bytes of the stored value.
    pub fn len(&self) -> (n: u64)
        ensures
            n == self.pointer.total_len,
    {
        self.pointer.total_len
    }

    /// Whether the stored value is empty.
    pub fn is_empty(&self) -> (b: bool)
        ensures
            b == (self.pointer.total_len == 0),
    {
        self.len() == 0
    }

    /// Next chunk, or `None` at the end. An inline value is a single piece.
    pub fn next_chunk<B: Backend>(&mut self, inner: &Inner, backend: &B) -> (r: Result<Option<Vec<u8>>>)
        ensures
            final(self).pointer == old(self).pointer,
            final(self).inline is None,
            ({
                let key = chunk_at(old(self).pointer.value_id, old(self).seq);
                let chunks = backend.store().chunks;
                match old(self).inline {
                    Some(payload) => r == Ok::<Option<Vec<u8>>, Error>(Some(payload)) && final(self).seq == old(self).seq
                        && final(self).left == old(self).left,
                    None => if old(self).at_end() {
                        r == Ok::<Option<Vec<u8>>, Error>(None) && *final(self) == *old(self)
                    } else {
                        &&& r matches Ok(found) ==> (found matches Some(piece) && chunks.contains_key(key)
                            && inner.chain.opened(chunks[key]) is Some && piece@ == within(
                            old(self).left,
                            inner.chain.opened(chunks[key])->0,
                        ) && final(self).left == left_after(old(self).left, piece@.len()) && final(self).seq == old(
                            self,
                        ).seq + 1)
                        &&& r is Err ==> final(self).left == old(self).left
                        &&& backend.shut() ==> (r matches Err(e) && e is Closed) && *final(self) == *old(self)
                        &&& backend.answers() && chunks.contains_key(key) && inner.chain.opened(chunks[key]) is Some
                            ==> r is Ok
                        &&& backend.answers() && !chunks.contains_key(key) ==> (r matches Err(e) && lacks_chunk(
                            old(self).pointer.value_id,
                            old(self).seq,
                            e,
                        ))
                        &&& backend.answers() && chunks.contains_key(key) ==> (r matches Err(e)
                            ==> inner.chain.refuses(chunks[key], e) && final(self).seq == old(self).seq + 1)
                        &&& !backend.answers() && r is Err ==> final(self).seq == old(self).seq || final(self).seq
                            == old(self).seq + 1
                    },
                }
            }),
            old(self).rest(&inner.chain, backend.store().chunks) matches Some(all) ==> {
                &&& backend.answers() ==> r is Ok
                &&& r matches Ok(found) ==> (final(self).rest(&inner.chain, backend.store().chunks) matches Some(rest)
                    && match found {
                    Some(piece) => all == piece@ + rest,
                    None => all.len() == 0,
                })
            },
    {
        let mut inline: Option<Vec<u8>> = None;
        core::mem::swap(&mut inline, &mut self.inline);
        if let Some(payload) = inline {
            proof {
                if let Some(all) = old(self).rest(&inner.chain, backend.store().chunks) {
                    let rest = self.rest(&inner.chain, backend.store().chunks)->0;
                    assert(all =~= payload@ + rest);
                }
            }
            return Ok(Some(payload));
        }
        let over: bool = match self.left {
            Some(n) => n == 0,
            None => false,
        };
        if self.seq >= self.pointer.n_chunks || over {
            return Ok(None);
        }
        let key = chunk_key(self.pointer.value_id, self.seq);
        let sealed = match backend.get(Table::Chunks, key.as_slice()) {
            Ok(Some(sealed)) => sealed,
            Ok(None) => {
                return Err(
                    Error::Corrupt(
                        between("missing chunk ", self.seq as u64, " of ", self.pointer.value_id),
                    ),
                );
            },
            Err(e) => return Err(e),
        };
        self.seq += 1;
        match inner.chain.open(sealed.as_slice()) {
            Ok(piece) => {
                let ghost whole = piece@;
                let (piece, left) = keep_within(piece, self.left);
                self.left = left;
                proof {
                    let chunks = backend.store().chunks;
                    if let Some(all) = old(self).rest(&inner.chain, chunks) {
                        let later = later_chunks(
                            &inner.chain,
                            chunks,
                            self.pointer.value_id,
                            self.seq as int,
                            self.pointer.n_chunks as int,
                        )->0;
                        assert(Seq::<u8>::empty() + (whole + later) =~= whole + later);
                        assert(Seq::<u8>::empty() + later =~= later);
                        match old(self).left {
                            Some(n) => {
                                assert(self.rest(&inner.chain, chunks) is Some);
                                assert(all =~= (whole + later).take(n as int));
                                assert(all =~= piece@ + self.rest(&inner.chain, chunks)->0);
                            },
                            None => {},
                        }
                    }
                }
                Ok(Some(piece))
            },
            Err(e) => Err(e),
        }
    }

    /// A reader of a value that was put: past the length that stands in front of
    /// it. Only as many chunks are read as that length reaches into.
    fn past_the_head<B: Backend>(inner: &Inner, backend: &B, pointer: ChunkPointer) -> (r: Result<Self>)
        ensures
            ({
                let chain = &inner.chain;
                let chunks = backend.store().chunks;
                &&& r matches Ok(reader) ==> exists|front: Seq<u8>| #[trigger]
                    starts_past_head(chain, chunks, pointer, front, reader)
                &&& r matches Ok(reader) ==> (whole_of(chain, chunks, pointer) matches Some(payload) ==> (delimited(
                    payload,
                ) matches Some(value) ==> reader.rest(chain, chunks) == Some(value)))
                &&& backend.answers() && holds_packed(whole_of(chain, chunks, pointer)) ==> r is Ok
                &&& backend.answers() ==> (r matches Err(e) ==> exists|i: int| #[trigger]
                    fails_to_start(chain, chunks, pointer, i, e))
            }),
    {
        let ghost chunks = backend.store().chunks;
        let mut front: Vec<u8> = Vec::new();
        let mut seq: u32 = 0;
        let mut head: Option<(usize, u64)> = None;
        assert(front@.skip(0) =~= front@);
        while seq < pointer.n_chunks && head.is_none() && front.len() < MAX_HEAD
            invariant
                chunks == backend.store().chunks,
                seq <= pointer.n_chunks,
                first_chunks(*inner.chain, chunks, pointer.value_id, seq as int) == Some(front@),
                head matches Some((k, n)) ==> k <= MAX_HEAD && head_len(front@) == Some(k as nat) && head_value(front@)
                    == n,
                head is None ==> (head_len(front@) matches Some(k) ==> k > MAX_HEAD || head_value(front@) > u64::MAX),
            decreases pointer.n_chunks - seq,
        {
            let key = chunk_key(pointer.value_id, seq);
            let sealed = match backend.get(Table::Chunks, key.as_slice()) {
                Ok(Some(sealed)) => sealed,
                Ok(None) => {
                    let e = Error::Corrupt(between("missing chunk ", seq as u64, " of ", pointer.value_id));
                    proof {
                        not_assembled(inner, chunks, pointer, seq as int);
                        assert(fails_to_start(&inner.chain, chunks, pointer, seq as int, e));
                    }
                    return Err(e);
                },
                Err(e) => return Err(e),
            };
            let piece = match inner.chain.open(sealed.as_slice()) {
                Ok(piece) => piece,
                Err(e) => {
                    proof {
                        not_assembled(inner, chunks, pointer, seq as int);
                        assert(fails_to_start(&inner.chain, chunks, pointer, seq as int, e));
                    }
                    return Err(e);
                },
            };
            extend(&mut front, piece.as_slice());
            seq += 1;
            head = read_head(front.as_slice(), 0, MAX_HEAD);
            assert(front@.skip(0) =~= front@);
        }
        let (k, n): (usize, u64) = match head {
            Some((k, n)) => (k, n),
            None => {
                let e = Error::corrupt("chunked value has no length in front of it");
                proof {
                    assert(fails_to_start(&inner.chain, chunks, pointer, seq as int, e));
                    a_packed_value_has_a_head(inner, chunks, pointer, seq as int);
                }
                return Err(e);
            },
        };
        proof {
            a_head_is_within(front@);
        }
        if pointer.total_len < k as u64 || pointer.total_len - (k as u64) < n {
            let e = Error::corrupt("chunked value is shorter than the length in front of it");
            proof {
                assert(fails_to_start(&inner.chain, chunks, pointer, seq as int, e));
                a_packed_value_has_a_head(inner, chunks, pointer, seq as int);
            }
            return Err(e);
        }
        let (held, left) = keep_within(tail_of(front.as_slice(), k), Some(n));
        let reader = Reader {
            pointer: ChunkPointer { total_len: n, ..pointer },
            seq,
            inline: if held.len() == 0 {
                None
            } else {
                Some(held)
            },
            left,
        };
        proof {
            assert(starts_past_head(&inner.chain, chunks, pointer, front@, reader));
            if let Some(payload) = whole_of(&inner.chain, chunks, pointer) {
                first_and_later_chunks(&inner.chain, chunks, pointer.value_id, seq as int, pointer.n_chunks as int);
                let later = later_chunks(&inner.chain, chunks, pointer.value_id, seq as int, pointer.n_chunks as int)->0;
                assert(payload == front@ + later);
                a_head_needs_no_more(front@, later);
                if let Some(value) = delimited(payload) {
                    let tail = front@.skip(k as int);
                    assert(value =~= payload.subrange(k as int, k + n));
                    assert(held@ == within(Some(n), tail));
                    assert(reader.left == Some((n - held@.len()) as u64));
                    assert(reader.rest(&inner.chain, chunks) is Some);
                    assert(reader.rest(&inner.chain, chunks)->0 =~= held@ + later.take(n - held@.len()));
                    assert(value =~= held@ + later.take(n - held@.len()));
                }
            }
        }
        Ok(reader)
    }
}

/// As much of some bytes as belongs to a value, and how much of it is left.
fn keep_within(bytes: Vec<u8>, left: Option<u64>) -> (r: (Vec<u8>, Option<u64>))
    ensures
        r.0@ == within(left, bytes@),
        r.1 == left_after(left, r.0@.len()),
{
    let mut bytes = bytes;
    match left {
        None => (bytes, None),
        Some(n) => {
            if n < bytes.len() as u64 {
                bytes.truncate(n as usize);
                (bytes, Some(0))
            } else {
                let more: u64 = n - bytes.len() as u64;
                (bytes, Some(more))
            }
        },
    }
}

/// A reader stands past the length in front of a value: `front` is what was read
/// to find it, and of that the reader holds what belongs to the value.
pub open spec fn starts_past_head(
    chain: &FilterChain,
    chunks: Rows,
    p: ChunkPointer,
    front: Seq<u8>,
    reader: Reader,
) -> bool {
    &&& reader.seq <= p.n_chunks
    &&& first_chunks(*chain, chunks, p.value_id, reader.seq as int) == Some(front)
    &&& reader.pointer == (ChunkPointer { total_len: reader.pointer.total_len, ..p })
    &&& head_len(front) matches Some(k) && head_value(front) == reader.pointer.total_len && k + head_value(front)
        <= p.total_len && {
        let held = within(Some(reader.pointer.total_len), front.skip(k as int));
        &&& match reader.inline {
            Some(bytes) => bytes@ == held && held.len() > 0,
            None => held.len() == 0,
        }
        &&& reader.left == left_after(Some(reader.pointer.total_len), held.len())
    }
}

/// Reading up to the length in front of a value stops at chunk `i`, and `e` says
/// why: it is missing, it does not open, or what was read up to it has no such
/// length, or one that the value is too short for.
pub open spec fn fails_to_start(chain: &FilterChain, chunks: Rows, p: ChunkPointer, i: int, e: Error) -> bool {
    let key = chunk_at(p.value_id, i as u32);
    &&& 0 <= i <= p.n_chunks
    &&& first_chunks(*chain, chunks, p.value_id, i) matches Some(front) && {
        ||| i < p.n_chunks && !chunks.contains_key(key) && lacks_chunk(p.value_id, i as u32, e)
        ||| i < p.n_chunks && chunks.contains_key(key) && chain.refuses(chunks[key], e)
        ||| (head_len(front) matches Some(k) ==> k > MAX_HEAD || head_value(front) > u64::MAX) && corrupt_with(
            e,
            "chunked value has no length in front of it"@,
        )
        ||| (head_len(front) matches Some(k) && k + head_value(front) > p.total_len) && corrupt_with(
            e,
            "chunked value is shorter than the length in front of it"@,
        )
    }
}

/// Whether a payload is that of a byte vector, whatever follows it.
pub open spec fn holds_packed(payload: Option<Seq<u8>>) -> bool {
    payload matches Some(s) && exists|value: Seq<u8>| #[trigger] starts_with(s, packed(value))
}

/// Where a chunk cannot be read, there is no whole value.
proof fn not_assembled(inner: &Inner, chunks: Rows, p: ChunkPointer, i: int)
    requires
        0 <= i < p.n_chunks,
        !chunks.contains_key(chunk_at(p.value_id, i as u32)) || inner.chain.opened(
            chunks[chunk_at(p.value_id, i as u32)],
        ) is None,
    ensures
        assembled(*inner.chain, chunks, p) is None,
{
    if whole_of(&inner.chain, chunks, p) is Some {
        first_and_later_chunks(&inner.chain, chunks, p.value_id, i + 1, p.n_chunks as int);
    }
}

/// The length in front of a value that was put is among its first bytes, and no
/// more than the value has.
proof fn a_packed_value_has_a_head(inner: &Inner, chunks: Rows, p: ChunkPointer, i: int)
    requires
        0 <= i <= p.n_chunks,
    ensures
        holds_packed(assembled(*inner.chain, chunks, p)) ==> (first_chunks(*inner.chain, chunks, p.value_id, i) matches Some(
            front,
        ) && (i == p.n_chunks || front.len() >= MAX_HEAD || head_len(front) is Some ==> (head_len(front) matches Some(k)
            && k <= MAX_HEAD && head_value(front) <= u64::MAX && k + head_value(front) <= p.total_len))),
{
    if holds_packed(whole_of(&inner.chain, chunks, p)) {
        let payload = whole_of(&inner.chain, chunks, p)->0;
        let value = choose|value: Seq<u8>| #[trigger] starts_with(payload, packed(value));
        first_and_later_chunks(&inner.chain, chunks, p.value_id, i, p.n_chunks as int);
        let front = front_of(&inner.chain, chunks, p.value_id, i)->0;
        let later = later_chunks(&inner.chain, chunks, p.value_id, i, p.n_chunks as int)->0;
        a_packed_front_is_delimited(payload, value);
        a_length_is_short(value.len());
        if head_len(front) is Some {
            a_head_needs_no_more(front, later);
        } else if i == p.n_chunks {
            assert(later =~= Seq::<u8>::empty());
            assert(front =~= payload);
        } else if front.len() >= MAX_HEAD {
            a_head_is_soon_there(payload, front.len() as int);
            assert(payload.take(front.len() as int) =~= front);
        }
    }
}

/// `e` is why a stored value cannot be streamed out.
pub open spec fn unstreamed(chain: &FilterChain, chunks: Rows, record: Seq<u8>, e: Error) -> bool {
    if points(record) {
        match parsed(record) {
            Some(p) => p.flags != FLAG_RAW && exists|i: int| #[trigger] fails_to_start(chain, chunks, p, i, e),
            None => misspelt(record, e),
        }
    } else {
        chain.refuses(record, e) || (chain.opened(record) is Some && e is Corrupt)
    }
}

/// Whether a stored value can be streamed out from its start: what was streamed
/// in can, and so can what was put.
pub open spec fn streams(chain: &FilterChain, chunks: Rows, record: Seq<u8>) -> bool {
    if points(record) && parsed(record) is Some && parsed(record)->0.flags == FLAG_RAW {
        true
    } else {
        holds_packed(loaded(*chain, chunks, record))
    }
}

/// A reader is at the start of a stored value.
pub open spec fn starts_at(chain: &FilterChain, chunks: Rows, record: Seq<u8>, reader: Reader) -> bool {
    if points(record) {
        parsed(record) matches Some(p) && if p.flags == FLAG_RAW {
            reader.pointer == p && reader.seq == 0 && reader.inline is None && reader.left is None
        } else {
            exists|front: Seq<u8>| #[trigger] starts_past_head(chain, chunks, p, front, reader)
        }
    } else {
        &&& chain.opened(record) matches Some(payload) && reader.inline matches Some(value) && delimited(payload)
            == Some(value@)
        &&& reader.pointer.total_len == reader.inline->0@.len()
        &&& reader.pointer.n_chunks == 0
        &&& reader.seq == 0
        &&& reader.left is None
    }
}

/// `r` is what asking for a reader gives: one at the start of the stored value,
/// which yields what a read of it would give.
pub open spec fn stream_gives<B: Backend>(
    inner: &Inner,
    backend: &B,
    key: Seq<u8>,
    r: Result<Option<Reader>>,
) -> bool {
    let rows = locker_rows(backend.store().records, inner.id);
    let chunks = backend.store().chunks;
    &&& inner.closed ==> (r matches Err(e) && e is Closed)
    &&& backend.shut() ==> (r matches Err(e) && e is Closed)
    &&& r matches Ok(None) ==> !rows.contains_key(key)
    &&& r matches Ok(Some(reader)) ==> rows.contains_key(key) && starts_at(&inner.chain, chunks, rows[key], reader)
    &&& r matches Ok(Some(reader)) ==> (readable(*inner.chain, chunks, rows[key]) matches Some(payload) ==> (delimited(
        payload,
    ) matches Some(value) ==> reader.pointer.total_len == value.len() && reader.rest(&inner.chain, chunks) == Some(
        value,
    )))
    &&& !inner.closed && backend.answers() && (rows.contains_key(key) ==> streams(&inner.chain, chunks, rows[key]))
        ==> r is Ok
    &&& !inner.closed && backend.answers() ==> (r matches Err(e) ==> rows.contains_key(key) && unstreamed(
        &inner.chain,
        chunks,
        rows[key],
        e,
    ))
}

/// What a store holds is what is streamed out of it, put or streamed in, inline
/// or chunked: a reader of its length, which has that value still to yield.
pub proof fn what_is_kept_is_streamed<B: Backend>(
    inner: &Inner,
    backend: &B,
    key: Seq<u8>,
    value: Seq<u8>,
    r: Result<Option<Reader>>,
)
    requires
        stream_gives(inner, backend, key, r),
        !inner.closed,
        backend.answers(),
        kept(*inner.chain, backend.store(), inner.id, key, Some(packed(value))),
    ensures
        r matches Ok(Some(reader)) && reader.pointer.total_len == value.len() && reader.rest(
            &inner.chain,
            backend.store().chunks,
        ) == Some(value),
{
    a_payload_reads_back(value);
    assert(packed(value).take(packed(value).len() as int) =~= packed(value));
    assert(starts_with(packed(value), packed(value)));
}

impl LazyLocker<Vec<u8>> {
    /// Stream a large value into `key`. Not part of a transaction.
    pub fn writer<B: Backend>(&mut self, shared: &mut Shared<B>, key: &str) -> (r: Result<Writer>)
        ensures
            old(shared).backend.shut() ==> (r matches Err(e) && (e is Closed || spent(e))),
            final(shared).carries_on(*old(shared)),
            final(shared).stays_forced(*old(shared), old(self).res.inner.config.durability),
            final(shared).silent(*old(shared), old(self).res.inner, final(self).res.inner),
            same_handle(*final(self), *old(self)),
            same_but_epochs(*final(self), *old(self)),
            old(self).res.inner.closed ==> (r matches Err(e) && e is Closed) && *final(shared) == *old(shared),
            r is Err ==> final(shared).backend.store() == old(shared).backend.store(),
            r matches Ok(w) ==> {
                &&& w.wf()
                &&& w.target() == key.spec_bytes()
                &&& w.taken().len() == 0
                &&& w.settled(*old(self).res.inner.chain, final(shared).backend.store().chunks)
                &&& old(shared).values.upcoming(old(shared).backend.store()) == Some(w.id_spec())
                &&& final(shared).backend.store() == old(shared).backend.store().after(
                    counter_put((w.id_spec() + 1) as u64),
                )
            },
            !old(self).res.inner.closed && old(shared).backend.answers() && (old(shared).values.upcoming(
                old(shared).backend.store(),
            ) matches Some(id) && id < u64::MAX) ==> r is Ok,
    {
        match self.res.inner.ensure_open() {
            Ok(()) => {},
            Err(e) => return Err(e),
        }
        Writer::start(&mut self.res.inner, shared, name_bytes(key))
    }

    /// Stream a stored value out. `None` if the key is missing.
    pub fn reader<B: Backend>(&self, backend: &B, key: &str) -> (r: Result<Option<Reader>>)
        ensures
            stream_gives(&self.res.inner, backend, key.spec_bytes(), r),
    {
        match self.res.inner.ensure_open() {
            Ok(()) => {},
            Err(e) => return Err(e),
        }
        match self.res.inner.fetch(backend, name_bytes(key).as_slice()) {
            Err(e) => Err(e),
            Ok(None) => Ok(None),
            Ok(Some(raw)) => {
                if is_pointer(raw.as_slice()) {
                    let pointer = match ChunkPointer::parse(raw.as_slice()) {
                        Ok(pointer) => pointer,
                        Err(e) => return Err(e),
                    };
                    if pointer.flags == FLAG_RAW {
                        let reader = Reader::from_pointer(pointer);
                        proof {
                            let chunks = backend.store().chunks;
                            if let Some(all) = whole_of(&self.res.inner.chain, chunks, pointer) {
                                first_and_later_chunks(
                                    &self.res.inner.chain,
                                    chunks,
                                    pointer.value_id,
                                    0,
                                    pointer.n_chunks as int,
                                );
                                a_payload_reads_back(all);
                                assert(reader.rest(&self.res.inner.chain, chunks)->0 =~= all);
                            }
                        }
                        Ok(Some(reader))
                    } else {
                        match Reader::past_the_head(&self.res.inner, backend, pointer) {
                            Ok(reader) => Ok(Some(reader)),
                            Err(e) => Err(e),
                        }
                    }
                } else {
                    let payload = match self.res.inner.chain.open(raw.as_slice()) {
                        Ok(payload) => payload,
                        Err(e) => return Err(e),
                    };
                    match unpack(payload.as_slice()) {
                        Ok(value) => {
                            let reader = Reader::from_inline(value);
                            proof {
                                let rest = reader.rest(&self.res.inner.chain, backend.store().chunks);
                                assert(rest->0 =~= value@);
                            }
                            Ok(Some(reader))
                        },
                        Err(e) => Err(e),
                    }
                }
            },
        }
    }
}

/// A value that is streamed in is cut like one that is put: every piece of it has
/// the locker's size but the last, which holds what is left, whatever lengths it
/// was handed over in.
pub proof fn a_stream_is_cut_to_size(before: Writer, size: nat, after: Writer, i: int)
    requires
        cut_to(before.pieces_done(), after.pieces_done(), size),
        forall|j: int| 0 <= j < before.pieces_done().len() ==> (#[trigger] before.pieces_done()[j]).len() == size,
        after.buffered().len() < size,
        0 <= i < after.all_pieces().len(),
    ensures
        after.all_pieces()[i].len() <= size,
        i < after.all_pieces().len() - 1 ==> after.all_pieces()[i].len() == size,
        glued(after.all_pieces()) == after.taken(),
{
    let done = after.pieces_done();
    let n = before.pieces_done().len() as int;
    assert forall|j: int| 0 <= j < done.len() implies (#[trigger] done[j]).len() == size by {
        if j < n {
            assert(done.take(n)[j] == before.pieces_done()[j]);
        }
    }
    if after.buffered().len() > 0 {
        assert(done.push(after.buffered()).drop_last() =~= done);
    } else {
        assert(glued(done) + after.buffered() =~= glued(done));
    }
}

} // verus!
