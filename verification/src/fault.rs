//! One precisely-placed failure, for asking what happens when a write does not
//! land.
//!
//! A [`Fault`] counts the ops that pass through commits, starting from zero the
//! moment [`Fault::arm`] is called; a plan's `at_op` is an index into that
//! stream. A plan is **one-shot**: it fires once and disarms itself.
//!
//! * [`Injection::Abort`], [`Injection::Io`] and [`Injection::Quota`] fail the
//!   commit that covers `at_op`, before any of it reaches the backend.
//! * [`Injection::Truncate`] and [`Injection::Corrupt`] damage the value of the
//!   first put at or after `at_op` and then let the commit through, so the
//!   damage is real stored bytes rather than a read-time trick.

use vstd::prelude::*;

use crate::backend::api::{changes, Change, Op};
use crate::backend::memory::capped;
use crate::bytes::copy;
use crate::error::{backend_with, Error, Result};

verus! {

/// What to do to the commit that `at_op` lands in.
#[derive(Debug, Clone, Copy, PartialEq, Eq, Structural)]
pub enum Injection {
    /// Refuse the commit before the backend sees it, as a process killed
    /// between staging and durability would.
    Abort,
    /// Refuse it with a backend I/O error.
    Io,
    /// Refuse it with [`Error::QuotaExceeded`], the browser's failure mode.
    Quota,
    /// Store only the first `keep` bytes of a put's value.
    Truncate { keep: usize },
    /// Flip one byte of a put's value, at `flip` modulo its length.
    Corrupt { flip: usize },
}

/// One armed injection.
#[derive(Debug, Clone, Copy, PartialEq, Eq, Structural)]
pub struct FaultPlan {
    /// Index into the op stream since [`Fault::arm`].
    pub at_op: usize,
    pub injection: Injection,
}

impl FaultPlan {
    /// A plan.
    pub fn new(at_op: usize, injection: Injection) -> (p: Self)
        ensures
            p.at_op == at_op,
            p.injection == injection,
    {
        FaultPlan { at_op, injection }
    }
}

/// Injects at most one planned failure into a stream of commits.
#[derive(Debug)]
pub struct Fault {
    plan: Option<FaultPlan>,
    ops: usize,
}

/// The bytes a list of changes writes or names.
pub open spec fn bytes_of(list: Seq<Change>) -> nat
    decreases list.len(),
{
    if list.len() == 0 {
        0
    } else {
        bytes_of(list.drop_last()) + match list.last() {
            Change::Put { key, value, .. } => key.len() + value.len(),
            Change::Delete { key, .. } => key.len(),
            Change::DeleteRange { .. } => 0,
        }
    }
}

/// Whether an injection fails a commit rather than damaging it.
pub open spec fn refuses(injection: Injection) -> bool {
    injection is Abort || injection is Io || injection is Quota
}

/// `e` is the failure an injection reports.
pub open spec fn failed_as(injection: Injection, list: Seq<Change>, e: Error) -> bool {
    match injection {
        Injection::Abort => backend_with(e, "fault: the commit was aborted before it reached storage"@),
        Injection::Quota => e == (Error::QuotaExceeded { needed: capped(bytes_of(list)), available: None }),
        _ => backend_with(e, "fault: the device reported an I/O error"@),
    }
}

/// A value, damaged.
pub open spec fn damaged(injection: Injection, value: Seq<u8>) -> Seq<u8> {
    match injection {
        Injection::Truncate { keep } => if keep < value.len() {
            value.take(keep as int)
        } else {
            value
        },
        Injection::Corrupt { flip } => if value.len() > 0 {
            let at = flip as int % value.len() as int;
            value.update(at, value[at] ^ 0xFF)
        } else {
            value
        },
        _ => value,
    }
}

/// The first put of a list at or after a place.
pub open spec fn first_put(list: Seq<Change>, from: int, at: int) -> bool {
    &&& from <= at < list.len()
    &&& list[at] is Put
    &&& forall|j: int| from <= j < at ==> !((#[trigger] list[j]) is Put)
}

/// A list with the value of one put damaged.
pub open spec fn with_damage(injection: Injection, list: Seq<Change>, at: int) -> Seq<Change> {
    match list[at] {
        Change::Put { table, key, value } => list.update(
            at,
            Change::Put { table, key, value: damaged(injection, value) },
        ),
        _ => list,
    }
}

/// How many ops a plan still lets pass where `start` went by before: none once
/// its place is behind.
pub open spec fn due_in(plan: FaultPlan, start: int) -> int {
    if plan.at_op > start {
        plan.at_op - start
    } else {
        0
    }
}

impl Fault {
    /// The armed plan.
    pub closed spec fn armed(self) -> Option<FaultPlan> {
        self.plan
    }

    /// How many ops have passed since it was armed.
    pub closed spec fn counted(self) -> usize {
        self.ops
    }

    /// Nothing armed.
    pub fn new() -> (f: Self)
        ensures
            f.armed() is None,
            f.counted() == 0,
    {
        Fault { plan: None, ops: 0 }
    }

    /// Arm `plan` and restart the op counter, so `at_op` is relative to now.
    pub fn arm(&mut self, plan: FaultPlan)
        ensures
            final(self).armed() == Some(plan),
            final(self).counted() == 0,
    {
        self.plan = Some(plan);
        self.ops = 0;
    }

    /// Whether the armed plan has already fired.
    pub fn fired(&self) -> (b: bool)
        ensures
            b == (self.armed() is None),
    {
        self.plan.is_none()
    }

    /// Decide what happens to a commit.
    pub fn intercept(&mut self, ops: Vec<Op>) -> (r: Result<Vec<Op>>)
        requires
            old(self).counted() + ops@.len() <= usize::MAX,
        ensures
            final(self).counted() == old(self).counted() + ops@.len(),
            ({
                let start = old(self).counted() as int;
                let end = start + ops@.len();
                let list = changes(ops@);
                match old(self).armed() {
                    None => final(self).armed() is None && (r matches Ok(out) && changes(out@) == list),
                    Some(plan) => if refuses(plan.injection) {
                        // A plan aimed at an op that never arrived still fails
                        // the next commit rather than sleeping forever.
                        if plan.at_op >= end {
                            final(self).armed() == Some(plan) && (r matches Ok(out) && changes(out@) == list)
                        } else {
                            final(self).armed() is None && (r matches Err(e) && failed_as(plan.injection, list, e))
                        }
                    } else {
                        let from = due_in(plan, start);
                        &&& r is Ok
                        &&& forall|at: int| #[trigger]
                            first_put(list, from, at) ==> final(self).armed() is None && changes(r->Ok_0@)
                                == with_damage(plan.injection, list, at)
                        &&& (forall|at: int| from <= at < list.len() ==> !((#[trigger] list[at]) is Put))
                            ==> final(self).armed() == Some(plan) && changes(r->Ok_0@) == list
                    },
                }
            }),
    {
        let count: usize = ops.len();
        let start: usize = self.ops;
        let end: usize = start + count;
        self.ops = end;
        let plan = match self.plan {
            None => return Ok(ops),
            Some(plan) => plan,
        };
        match plan.injection {
            Injection::Truncate { .. } | Injection::Corrupt { .. } => {
                let from: usize = if plan.at_op > start {
                    plan.at_op - start
                } else {
                    0
                };
                self.damage(ops, plan, from)
            },
            _ => {
                if plan.at_op >= end {
                    return Ok(ops);
                }
                self.plan = None;
                Err(
                    match plan.injection {
                        Injection::Abort => Error::backend(
                            "fault: the commit was aborted before it reached storage",
                        ),
                        Injection::Quota => Error::QuotaExceeded { needed: ops_bytes(&ops), available: None },
                        _ => Error::backend("fault: the device reported an I/O error"),
                    },
                )
            },
        }
    }

    /// Damage the first put at or after a place. Where there is none, stay
    /// armed.
    fn damage(&mut self, ops: Vec<Op>, plan: FaultPlan, from: usize) -> (r: Result<Vec<Op>>)
        requires
            old(self).armed() == Some(plan),
        ensures
            final(self).counted() == old(self).counted(),
            r is Ok,
            forall|at: int| #[trigger]
                first_put(changes(ops@), from as int, at) ==> final(self).armed() is None && changes(r->Ok_0@)
                    == with_damage(plan.injection, changes(ops@), at),
            (forall|at: int| from <= at < ops@.len() ==> !((#[trigger] changes(ops@)[at]) is Put)) ==> final(self).armed()
                == Some(plan) && changes(r->Ok_0@) == changes(ops@),
    {
        let ghost list = changes(ops@);
        let mut at: usize = from;
        while at < ops.len()
            invariant
                list == changes(ops@),
                from <= at,
                at <= ops@.len() || at == from,
                self.armed() == Some(plan),
                self.counted() == old(self).counted(),
                forall|j: int| from <= j < at && j < ops@.len() ==> !((#[trigger] list[j]) is Put),
            decreases ops.len() - at,
        {
            if let Op::Put { table, key, value } = &ops[at] {
                let spoilt = spoil(plan.injection, value.as_slice());
                let put = Op::Put { table: *table, key: copy(key.as_slice()), value: spoilt };
                let mut ops = ops;
                ops[at] = put;
                self.plan = None;
                proof {
                    assert(list[at as int] is Put);
                    assert(first_put(list, from as int, at as int));
                    assert(changes(ops@) =~= with_damage(plan.injection, list, at as int));
                    assert forall|other: int| #[trigger] first_put(list, from as int, other) implies other == at by {
                        if other < at {
                            assert(!(list[other] is Put));
                        } else if other > at {
                            assert(!(list[at as int] is Put));
                        }
                    }
                }
                return Ok(ops);
            }
            assert(list[at as int] == ops@[at as int]@);
            at += 1;
        }
        proof {
            assert forall|other: int| !(#[trigger] first_put(list, from as int, other)) by {
                if first_put(list, from as int, other) {
                    assert(list[other] is Put);
                }
            }
        }
        Ok(ops)
    }
}

/// A value, damaged.
fn spoil(injection: Injection, value: &[u8]) -> (out: Vec<u8>)
    ensures
        out@ == damaged(injection, value@),
{
    match injection {
        Injection::Truncate { keep } => {
            if keep < value.len() {
                let out = copy(vstd::slice::slice_subrange(value, 0, keep));
                assert(out@ =~= value@.take(keep as int));
                out
            } else {
                copy(value)
            }
        },
        Injection::Corrupt { flip } => {
            let mut out = copy(value);
            if out.len() > 0 {
                let at: usize = flip % out.len();
                let b: u8 = out[at] ^ 0xFF;
                out[at] = b;
                assert(out@ =~= damaged(injection, value@));
            }
            out
        },
        _ => copy(value),
    }
}

/// The bytes a commit writes or names.
fn ops_bytes(ops: &Vec<Op>) -> (n: u64)
    ensures
        n == capped(bytes_of(changes(ops@))),
{
    let ghost list = changes(ops@);
    let mut total: u64 = 0;
    let mut i: usize = 0;
    assert(list.take(0).len() == 0);
    while i < ops.len()
        invariant
            i <= ops@.len(),
            list == changes(ops@),
            total == capped(bytes_of(list.take(i as int))),
        decreases ops.len() - i,
    {
        proof {
            assert(list.take(i + 1).drop_last() =~= list.take(i as int));
            assert(list.take(i + 1).last() == ops@[i as int]@);
        }
        match &ops[i] {
            Op::Put { key, value, .. } => {
                total = total.saturating_add(key.len() as u64);
                total = total.saturating_add(value.len() as u64);
            },
            Op::Delete { key, .. } => {
                total = total.saturating_add(key.len() as u64);
            },
            Op::DeleteRange { .. } => {},
        }
        i += 1;
    }
    assert(list.take(ops@.len() as int) =~= list);
    total
}

} // verus!
