//! Per-locker limits and retention policy.
//!
//! Two independent knobs decide when a write is safe. [`Commit`] decides
//! **when a commit happens**; [`Durability`] decides **how hard that commit
//! works to reach the disk**. All four combinations are legal, and a flush
//! covers both.

use std::sync::Arc;

use vstd::prelude::*;

pub use crate::backend::api::Durability;
use crate::codec::FilterChain;

verus! {

/// Whether a locker may shed data by itself.
#[derive(Debug, Clone, Copy, PartialEq, Eq, Structural)]
pub enum Policy {
    /// Never shed anything. The default.
    Precious,
    /// Shed the least recently used keys to stay inside a byte budget.
    Evictable { max_bytes: u64 },
}

impl Default for Policy {
    fn default() -> (p: Self)
        ensures
            p == Policy::Precious,
    {
        Policy::Precious
    }
}

/// What opening a locker does when a stored record will not decode.
#[derive(Debug, Clone, Copy, PartialEq, Eq, Structural)]
pub enum OnCorrupt {
    /// Refuse to open. The default, because silently hiding data loss is the
    /// wrong way round.
    Fail,
    /// Open anyway, skipping the bad records and listing their keys. Nothing
    /// is written and nothing is deleted.
    Skip,
}

impl Default for OnCorrupt {
    fn default() -> (p: Self)
        ensures
            p == OnCorrupt::Fail,
    {
        OnCorrupt::Fail
    }
}

/// When a write is committed.
#[derive(Debug, Clone, Copy, PartialEq, Eq, Structural)]
pub enum Commit {
    /// Every write commits by itself. The default.
    Immediate,
    /// Writes are staged and commit once `after` of them have piled up, or on
    /// a flush.
    Deferred { after: usize },
}

impl Default for Commit {
    fn default() -> (p: Self)
        ensures
            p == Commit::Immediate,
    {
        Commit::Immediate
    }
}

impl Default for Durability {
    fn default() -> (p: Self)
        ensures
            p == Durability::Immediate,
    {
        Durability::Immediate
    }
}

/// A locker's limits.
pub struct LockerConfig {
    /// Largest sealed value an eager locker accepts.
    pub max_inline: usize,
    /// Most bytes an eager locker may load.
    pub eager_budget: u64,
    pub policy: Policy,
    pub commit: Commit,
    pub durability: Durability,
    pub on_corrupt: OnCorrupt,
    /// Payloads past this are split into chunks of this size.
    pub chunk_size: usize,
    /// The filter chain, where the locker has one of its own.
    pub chain: Option<Arc<FilterChain>>,
}

/// `Arc::clone` hands out another handle on the same value.
#[verifier::external_body]
pub(crate) fn share<T>(handle: &Arc<T>) -> (other: Arc<T>)
    ensures
        other == *handle,
{
    Arc::clone(handle)
}

impl LockerConfig {
    /// The limits a locker has where none are asked for.
    pub open spec fn usual() -> LockerConfig {
        LockerConfig {
            max_inline: 262_144,
            eager_budget: 33_554_432,
            policy: Policy::Precious,
            commit: Commit::Immediate,
            durability: Durability::Immediate,
            on_corrupt: OnCorrupt::Fail,
            chunk_size: 262_144,
            chain: None,
        }
    }

    /// The id of the locker's own chain, if it has one.
    pub open spec fn chain_id_spec(&self) -> Option<u8> {
        match self.chain {
            Some(chain) => Some(chain.id_spec()),
            None => None,
        }
    }

    /// Whether two configurations say the same; a chain is compared by the id
    /// that gates format compatibility.
    pub open spec fn agrees(&self, other: &LockerConfig) -> bool {
        &&& self.max_inline == other.max_inline
        &&& self.eager_budget == other.eager_budget
        &&& self.policy == other.policy
        &&& self.commit == other.commit
        &&& self.durability == other.durability
        &&& self.on_corrupt == other.on_corrupt
        &&& self.chunk_size == other.chunk_size
        &&& self.chain_id_spec() == other.chain_id_spec()
    }

    /// How many writes must pile up before a commit, where writes are staged
    /// at all: a batch of one is no batch.
    pub open spec fn batch(&self) -> Option<usize> {
        match self.commit {
            Commit::Immediate => None,
            Commit::Deferred { after } => if after > 1 {
                Some(after)
            } else {
                None
            },
        }
    }

    /// Set [`LockerConfig::max_inline`].
    pub fn with_max_inline(self, bytes: usize) -> (c: Self)
        ensures
            c == (LockerConfig { max_inline: bytes, ..self }),
    {
        let mut c = self;
        c.max_inline = bytes;
        c
    }

    /// Set [`LockerConfig::eager_budget`].
    pub fn with_eager_budget(self, bytes: u64) -> (c: Self)
        ensures
            c == (LockerConfig { eager_budget: bytes, ..self }),
    {
        let mut c = self;
        c.eager_budget = bytes;
        c
    }

    /// Set [`LockerConfig::policy`].
    pub fn with_policy(self, policy: Policy) -> (c: Self)
        ensures
            c == (LockerConfig { policy, ..self }),
    {
        let mut c = self;
        c.policy = policy;
        c
    }

    /// Whether writes are staged rather than committed one by one.
    pub fn defers_writes(&self) -> (b: bool)
        ensures
            b == self.batch() is Some,
    {
        match self.commit {
            Commit::Deferred { after } => after > 1,
            Commit::Immediate => false,
        }
    }

    /// Set [`LockerConfig::commit`].
    pub fn with_commit(self, commit: Commit) -> (c: Self)
        ensures
            c == (LockerConfig { commit, ..self }),
    {
        let mut c = self;
        c.commit = commit;
        c
    }

    /// Set [`LockerConfig::durability`].
    pub fn with_durability(self, durability: Durability) -> (c: Self)
        ensures
            c == (LockerConfig { durability, ..self }),
    {
        let mut c = self;
        c.durability = durability;
        c
    }

    /// Whether a commit may return before it is durable.
    pub fn is_eventual(&self) -> (b: bool)
        ensures
            b == (self.durability is Eventual),
    {
        match self.durability {
            Durability::Eventual => true,
            Durability::Immediate => false,
        }
    }

    /// Set [`LockerConfig::on_corrupt`].
    pub fn with_on_corrupt(self, on_corrupt: OnCorrupt) -> (c: Self)
        ensures
            c == (LockerConfig { on_corrupt, ..self }),
    {
        let mut c = self;
        c.on_corrupt = on_corrupt;
        c
    }

    /// Set [`LockerConfig::chunk_size`]; a chunk holds at least one byte.
    pub fn with_chunk_size(self, bytes: usize) -> (c: Self)
        ensures
            c == (LockerConfig {
                chunk_size: if bytes < 1 {
                    1
                } else {
                    bytes
                },
                ..self
            }),
    {
        let mut c = self;
        c.chunk_size = if bytes < 1 {
            1
        } else {
            bytes
        };
        c
    }

    /// Set [`LockerConfig::chain`].
    pub fn with_chain(self, chain: Arc<FilterChain>) -> (c: Self)
        ensures
            c == (LockerConfig { chain: Some(chain), ..self }),
    {
        let mut c = self;
        c.chain = Some(chain);
        c
    }

    /// The id of the locker's own chain, if it has one.
    pub fn chain_id(&self) -> (id: Option<u8>)
        ensures
            id == self.chain_id_spec(),
    {
        match &self.chain {
            Some(chain) => Some(chain.id()),
            None => None,
        }
    }
}

impl Default for LockerConfig {
    fn default() -> (c: Self)
        ensures
            c == LockerConfig::usual(),
    {
        LockerConfig {
            max_inline: 262_144,
            eager_budget: 33_554_432,
            policy: Policy::Precious,
            commit: Commit::Immediate,
            durability: Durability::Immediate,
            on_corrupt: OnCorrupt::Fail,
            chunk_size: 262_144,
            chain: None,
        }
    }
}

impl Clone for LockerConfig {
    fn clone(&self) -> (c: Self)
        ensures
            c == *self,
    {
        LockerConfig {
            max_inline: self.max_inline,
            eager_budget: self.eager_budget,
            policy: self.policy,
            commit: self.commit,
            durability: self.durability,
            on_corrupt: self.on_corrupt,
            chunk_size: self.chunk_size,
            chain: match &self.chain {
                Some(chain) => Some(share(chain)),
                None => None,
            },
        }
    }
}

impl PartialEq for LockerConfig {
    fn eq(&self, other: &Self) -> (b: bool) {
        let same_chain: bool = match (self.chain_id(), other.chain_id()) {
            (Some(a), Some(b)) => a == b,
            (None, None) => true,
            _ => false,
        };
        self.max_inline == other.max_inline && self.eager_budget == other.eager_budget && self.policy
            == other.policy && self.commit == other.commit && self.durability == other.durability
            && self.on_corrupt == other.on_corrupt && self.chunk_size == other.chunk_size && same_chain
    }
}

impl vstd::std_specs::cmp::PartialEqSpecImpl for LockerConfig {
    open spec fn obeys_eq_spec() -> bool {
        true
    }

    open spec fn eq_spec(&self, other: &Self) -> bool {
        self.agrees(other)
    }
}

} // verus!
