//! Cross-tab coherence: what one commit says to the other tabs.
//!
//! After a commit lands, the bank posts what changed; every other tab updates
//! its resident view and raises the same events a local write would. Small
//! values ride along, so a receiver can update a resident value without a
//! read; past that the message says only *that* a key changed.

use vstd::prelude::*;

use crate::backend::api::{changes, option_view, Op, Span, Table};
use crate::bytes::{be32, copy};
use crate::key::{carried, LockerId};
use crate::locker::chunk::{is_pointer, parsed, points, ChunkPointer};

verus! {

/// Largest sealed value carried inside a message.
pub const INLINE_LIMIT: usize = 4096;

/// One key's worth of news.
#[derive(Debug, Clone, PartialEq, Eq)]
pub struct Change {
    pub key: Vec<u8>,
    /// The sealed record, when it was small enough to carry. Absent on a
    /// delete **and** on a write too large to carry, which is why
    /// [`Change::deleted`] exists.
    pub value: Option<Vec<u8>>,
    /// The value's payload length, where the record states it: only a chunk
    /// pointer does.
    pub bytes: Option<u64>,
    pub deleted: bool,
}

/// One key's worth of news, as mathematics.
#[verifier::ext_equal]
pub struct Word {
    pub key: Seq<u8>,
    pub value: Option<Seq<u8>>,
    pub bytes: Option<u64>,
    pub deleted: bool,
}

impl View for Change {
    type V = Word;

    open spec fn view(&self) -> Word {
        Word { key: self.key@, value: option_view(self.value), bytes: self.bytes, deleted: self.deleted }
    }
}

/// What a list of changes says.
pub open spec fn words(list: Seq<Change>) -> Seq<Word> {
    Seq::new(list.len(), |i: int| list[i]@)
}

/// What one commit did, as broadcast to the other tabs.
#[derive(Debug, Clone, PartialEq, Eq)]
pub struct Announcement {
    /// Which bank instance posted it, so a tab can ignore its own news.
    pub instance: u32,
    pub locker_id: LockerId,
    /// A per-bank counter, bumped once per commit that has news. It orders one
    /// sender's own messages; it is not a shared clock.
    pub epoch: u64,
    pub cleared: bool,
    pub changes: Vec<Change>,
}

/// What writing a record says: a small value in full, a pointer's length, and
/// of anything else only the key.
pub open spec fn word_of_put(key: Seq<u8>, value: Seq<u8>) -> Word {
    Word {
        key,
        value: if value.len() <= INLINE_LIMIT && !points(value) {
            Some(value)
        } else {
            None
        },
        bytes: if points(value) {
            match parsed(value) {
                Some(p) => Some(p.total_len),
                None => None,
            }
        } else {
            None
        },
        deleted: false,
    }
}

/// What a list of mutations says of one locker: whether it was cleared, and
/// what happened to its keys since.
pub open spec fn news_of(id: LockerId, list: Seq<crate::backend::api::Change>) -> (bool, Seq<Word>)
    decreases list.len(),
{
    if list.len() == 0 {
        (false, Seq::empty())
    } else {
        let (cleared, said) = news_of(id, list.drop_last());
        match list.last() {
            crate::backend::api::Change::Put { table: Table::Records, key, value } => match carried(id, key) {
                Some(k) => (cleared, said.push(word_of_put(k, value))),
                None => (cleared, said),
            },
            crate::backend::api::Change::Delete { table: Table::Records, key } => match carried(id, key) {
                Some(k) => (cleared, said.push(Word { key: k, value: None, bytes: None, deleted: true })),
                None => (cleared, said),
            },
            crate::backend::api::Change::DeleteRange { table: Table::Records, range } => if range == Span::prefix(
                be32(id),
            ) {
                (true, Seq::empty())
            } else {
                (cleared, said)
            },
            _ => (cleared, said),
        }
    }
}

/// Turn a commit's op list into news worth posting.
///
/// Deriving the message from the ops rather than from each write path means
/// every path is covered by construction. Meta and chunk writes are
/// bookkeeping for the records and are not announced; only a range covering
/// the whole locker is a clear.
pub fn announcement_from_ops(instance: u32, locker_id: LockerId, epoch: u64, ops: &Vec<Op>) -> (r: Option<
    Announcement,
>)
    ensures
        ({
            let (cleared, said) = news_of(locker_id, changes(ops@));
            match r {
                None => !cleared && said.len() == 0,
                Some(a) => {
                    &&& cleared || said.len() > 0
                    &&& a.instance == instance
                    &&& a.locker_id == locker_id
                    &&& a.epoch == epoch
                    &&& a.cleared == cleared
                    &&& words(a.changes@) == said
                },
            }
        }),
{
    let ghost list = changes(ops@);
    let mut said: Vec<Change> = Vec::new();
    let mut cleared: bool = false;
    let home = crate::key::locker_range(locker_id);
    let mut i: usize = 0;
    assert(words(said@) =~= Seq::<Word>::empty());
    while i < ops.len()
        invariant
            i <= ops.len(),
            list == changes(ops@),
            home@ == Span::prefix(be32(locker_id)),
            news_of(locker_id, list.take(i as int)) == (cleared, words(said@)),
        decreases ops.len() - i,
    {
        let ghost so_far = said@;
        proof {
            assert(list.take(i + 1).drop_last() =~= list.take(i as int));
            assert(list.take(i + 1).last() == ops@[i as int]@);
        }
        match &ops[i] {
            Op::Put { table: Table::Records, key, value } => {
                if let Ok(user_key) = crate::key::decode_bytes(locker_id, key.as_slice()) {
                    // A chunk pointer is never carried: the bytes it names are
                    // in another table.
                    let pointer: bool = is_pointer(value.as_slice());
                    let carry: Option<Vec<u8>> = if value.len() <= INLINE_LIMIT && !pointer {
                        Some(copy(value.as_slice()))
                    } else {
                        None
                    };
                    let bytes: Option<u64> = if pointer {
                        match ChunkPointer::parse(value.as_slice()) {
                            Ok(p) => Some(p.total_len),
                            Err(_) => None,
                        }
                    } else {
                        None
                    };
                    let change = Change { key: copy(user_key), value: carry, bytes, deleted: false };
                    assert(change@ =~= word_of_put(user_key@, value@));
                    said.push(change);
                    assert(words(said@) =~= words(so_far).push(change@));
                }
            },
            Op::Delete { table: Table::Records, key } => {
                if let Ok(user_key) = crate::key::decode_bytes(locker_id, key.as_slice()) {
                    let change = Change { key: copy(user_key), value: None, bytes: None, deleted: true };
                    said.push(change);
                    assert(words(said@) =~= words(so_far).push(change@));
                }
            },
            Op::DeleteRange { table: Table::Records, range } => {
                if range.same(&home) {
                    cleared = true;
                    said = Vec::new();
                    assert(words(said@) =~= Seq::<Word>::empty());
                }
            },
            _ => {},
        }
        i += 1;
    }
    assert(list.take(ops@.len() as int) =~= list);
    if !cleared && said.len() == 0 {
        return None;
    }
    Some(Announcement { instance, locker_id, epoch, cleared, changes: said })
}

/// A clear says nothing of what came before it.
pub proof fn a_clear_supersedes_what_came_before(
    id: LockerId,
    earlier: Seq<crate::backend::api::Change>,
    clear: crate::backend::api::Change,
)
    requires
        clear == (crate::backend::api::Change::DeleteRange {
            table: Table::Records,
            range: Span::prefix(be32(id)),
        }),
    ensures
        news_of(id, earlier.push(clear)) == (true, Seq::<Word>::empty()),
{
    assert(earlier.push(clear).drop_last() =~= earlier);
}

/// The epoch after another; they start over when they run out.
pub open spec fn next_epoch(epoch: u64) -> u64 {
    if epoch < u64::MAX {
        (epoch + 1) as u64
    } else {
        0
    }
}

/// The bank's end of the channel to other tabs.
///
/// What is posted waits in an outbox for whoever owns the channel.
pub struct Coherence {
    enabled: bool,
    instance: u32,
    epoch: u64,
    outbox: Vec<Announcement>,
}

impl Coherence {
    /// Whether news is posted at all.
    pub closed spec fn enabled_spec(self) -> bool {
        self.enabled
    }

    /// Which bank instance this is.
    pub closed spec fn instance_spec(self) -> u32 {
        self.instance
    }

    /// The epoch of the last commit.
    pub closed spec fn epoch_spec(self) -> u64 {
        self.epoch
    }

    /// What waits to be sent.
    pub closed spec fn waiting(self) -> Seq<Announcement> {
        self.outbox@
    }

    /// No channel: nothing is ever posted.
    pub fn disabled() -> (c: Self)
        ensures
            !c.enabled_spec(),
            c.waiting().len() == 0,
            c.epoch_spec() == 0,
    {
        Coherence { enabled: false, instance: 0, epoch: 0, outbox: Vec::new() }
    }

    /// A channel under an instance number that tells this bank's posts from
    /// another tab's.
    pub fn open(instance: u32) -> (c: Self)
        ensures
            c.enabled_spec(),
            c.instance_spec() == instance,
            c.waiting().len() == 0,
            c.epoch_spec() == 0,
    {
        Coherence { enabled: true, instance, epoch: 0, outbox: Vec::new() }
    }

    /// Whether news is posted at all.
    pub fn is_enabled(&self) -> (b: bool)
        ensures
            b == self.enabled_spec(),
    {
        self.enabled
    }

    /// Whether a message is another tab's.
    pub fn is_foreign(&self, announcement: &Announcement) -> (b: bool)
        ensures
            b == (announcement.instance != self.instance_spec()),
    {
        announcement.instance != self.instance
    }

    /// Work out what a commit is about to say, before its op list is consumed.
    pub fn prepare(&mut self, locker_id: LockerId, ops: &Vec<Op>) -> (r: Option<Announcement>)
        ensures
            final(self).enabled_spec() == old(self).enabled_spec(),
            final(self).instance_spec() == old(self).instance_spec(),
            final(self).waiting() == old(self).waiting(),
            !old(self).enabled_spec() ==> r is None && *final(self) == *old(self),
            old(self).enabled_spec() ==> {
                let (cleared, said) = news_of(locker_id, changes(ops@));
                &&& r is Some <==> cleared || said.len() > 0
                &&& r is None ==> *final(self) == *old(self)
                &&& r matches Some(a) ==> a.instance == old(self).instance_spec() && a.locker_id == locker_id && a.epoch
                    == next_epoch(old(self).epoch_spec()) && final(self).epoch_spec() == a.epoch && a.cleared == cleared
                    && words(a.changes@) == said
            },
    {
        if !self.enabled {
            return None;
        }
        let epoch: u64 = if self.epoch < u64::MAX {
            self.epoch + 1
        } else {
            0
        };
        match announcement_from_ops(self.instance, locker_id, epoch, ops) {
            Some(news) => {
                self.epoch = epoch;
                Some(news)
            },
            None => None,
        }
    }

    /// Hand over a message to be sent. Called only after the commit landed.
    pub fn post(&mut self, announcement: Announcement)
        ensures
            final(self).enabled_spec() == old(self).enabled_spec(),
            final(self).instance_spec() == old(self).instance_spec(),
            final(self).epoch_spec() == old(self).epoch_spec(),
            final(self).waiting() == if old(self).enabled_spec() {
                old(self).waiting().push(announcement)
            } else {
                old(self).waiting()
            },
    {
        if self.enabled {
            self.outbox.push(announcement);
        }
    }

    /// Everything that waits to be sent, oldest first.
    pub fn take_outbox(&mut self) -> (sent: Vec<Announcement>)
        ensures
            sent@ == old(self).waiting(),
            final(self).waiting().len() == 0,
            final(self).enabled_spec() == old(self).enabled_spec(),
            final(self).instance_spec() == old(self).instance_spec(),
            final(self).epoch_spec() == old(self).epoch_spec(),
    {
        let mut sent: Vec<Announcement> = Vec::new();
        core::mem::swap(&mut sent, &mut self.outbox);
        sent
    }

    /// Stop posting.
    pub fn close(&mut self)
        ensures
            !final(self).enabled_spec(),
            final(self).instance_spec() == old(self).instance_spec(),
            final(self).waiting() == old(self).waiting(),
            final(self).epoch_spec() == old(self).epoch_spec(),
    {
        self.enabled = false;
    }
}

} // verus!
