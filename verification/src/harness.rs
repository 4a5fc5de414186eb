//! What a backend says of itself when it is put through its paces.

use vstd::prelude::*;

use crate::backend::api::{Backend, Store};
use crate::backend::memory::MemoryBackend;
use crate::error::Result;

verus! {

/// What a backend can do.
#[derive(Debug, Clone, Copy, PartialEq, Eq, Structural)]
pub struct Caps {
    /// Whether data written through one handle is there for the next.
    pub persists_across_open: bool,
    /// Whether usage is reported.
    pub reports_usage: bool,
}

/// Hands out in-memory backends.
///
/// Each `open` returns a *fresh* store, which is the honest model of a backend
/// that persists nothing.
#[derive(Debug)]
pub struct MemoryHarness {
    pub case: String,
}

impl MemoryHarness {
    /// A harness for one case.
    pub fn new(case: &str) -> (h: Self)
        ensures
            h.case@ == case@,
    {
        MemoryHarness { case: String::from_str(case) }
    }

    /// A fresh store.
    pub fn open(&self) -> (r: Result<MemoryBackend>)
        ensures
            r matches Ok(b) && b.store() == Store::empty() && b.answers(),
    {
        Ok(MemoryBackend::new())
    }

    /// Nothing outlives the handles this harness handed out.
    pub fn destroy(&self) -> (r: Result<()>)
        ensures
            r is Ok,
    {
        Ok(())
    }

    /// What an in-memory backend can do.
    pub fn caps(&self) -> (c: Caps)
        ensures
            !c.persists_across_open,
            c.reports_usage,
    {
        Caps { persists_across_open: false, reports_usage: true }
    }
}

} // verus!
