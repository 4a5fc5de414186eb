//! crossbank: local key-value storage, the same on every platform.
//!
//! A [`Bank`] is a store; a locker is a named, typed collection inside it. An
//! eager [`Locker`] keeps every value in memory and reads at once; a
//! [`LazyLocker`] keeps only its keys and reads values on demand. Where the
//! bytes go is a [`Backend`]'s business; how they are sealed is a
//! [`FilterChain`]'s.

use vstd::prelude::*;

pub mod backend;
pub mod bank;
pub mod bank_laws;
pub mod bytes;
pub mod codec;
pub mod coherence;
pub mod coherence_laws;
pub mod error;
pub mod fault;
pub mod fault_laws;
pub mod handle;
pub mod handle_laws;
pub mod harness;
pub mod key;
pub mod locker;
pub mod maintenance;
pub mod maintenance_laws;
pub mod meta;
pub mod refusal_laws;
pub mod sorted;
pub mod text;
pub mod utf8;
pub mod watch;
pub mod watch_laws;

pub use backend::{Backend, MemoryBackend, Usage};
pub use bank::{Bank, BankConfig, Keeping, Location};
pub use codec::{Filter, FilterChain};
pub use error::{Error, Result};
pub use locker::{
    Commit, Durability, LazyLocker, Locker, LockerConfig, OnCorrupt, Policy, Reader, Transaction, Writer,
};
pub use watch::{Event, EventStream};

verus! {

/// The crate name, useful in diagnostics.
pub const NAME: &'static str = "crossbank";

} // verus!
