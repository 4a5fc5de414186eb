//! Lockers: named, typed key-value stores inside a bank.

pub mod batch;
pub mod batch_laws;
pub mod budget_laws;
pub mod chunk;
pub mod chunk_laws;
pub mod eager;
pub mod handles;
pub mod inner;
pub mod io;
pub mod laws;
pub mod ledger_laws;
pub mod lazy;
pub mod lazy_laws;
pub mod listing;
pub mod listing_laws;
pub mod lru;
pub mod lru_laws;
pub mod name_laws;
pub mod policy;
pub mod queue;
pub mod read_laws;
pub mod resident;
pub mod staging_laws;
pub mod storing_laws;
pub mod success_laws;
pub mod tidy_laws;
pub mod transaction;

pub use eager::Locker;
pub use io::{Reader, Writer};
pub use lazy::LazyLocker;
pub use policy::{Commit, Durability, LockerConfig, OnCorrupt, Policy};
pub use transaction::Transaction;
