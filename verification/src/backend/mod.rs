//! Where bytes are kept: the contract every store meets, and the store that
//! keeps everything in memory.

pub mod api;
pub mod gather;
pub mod memory;
pub mod pages;
pub mod store_laws;

pub use api::{
    Backend, CommitOptions, Durability, KeyRange, Op, ScanPage, ScanRequest, Table, Usage, DEFAULT_SCAN_PAGE,
};
pub use memory::MemoryBackend;
