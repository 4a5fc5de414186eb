//! What an injected fault does, and all it does: one value shortened or one byte
//! of it flipped, and every other mutation of the commit as it was.

use vstd::prelude::*;

use crate::backend::api::Change;
use crate::error::Error;
use crate::fault::{bytes_of, damaged, due_in, failed_as, refuses, with_damage, FaultPlan, Injection};
use crate::maintenance_laws::summed;

verus! {

/// A truncated value is the front of it, as long as was asked for or as it is.
pub proof fn a_truncated_value_is_its_front(value: Seq<u8>, keep: usize)
    ensures
        damaged(Injection::Truncate { keep }, value).len() == (if keep < value.len() {
            keep as nat
        } else {
            value.len()
        }),
        forall|i: int|
            0 <= i < damaged(Injection::Truncate { keep }, value).len() ==> (#[trigger] damaged(
                Injection::Truncate { keep },
                value,
            )[i]) == value[i],
{
}

/// A corrupted value is as long as it was and differs in exactly one byte, the one
/// that was aimed at.
pub proof fn a_corrupted_value_differs_in_one_byte(value: Seq<u8>, flip: usize, i: int)
    requires
        0 <= i < value.len(),
    ensures
        damaged(Injection::Corrupt { flip }, value).len() == value.len(),
        damaged(Injection::Corrupt { flip }, value)[i] != value[i] <==> i == flip as int % value.len() as int,
{
    let b = value[i];
    assert(b ^ 0xFF != b) by (bit_vector);
}

/// A damaged commit writes to the same places, and differs in one value only.
pub proof fn damage_stays_where_it_was_aimed(injection: Injection, list: Seq<Change>, at: int, i: int)
    requires
        0 <= at < list.len(),
        0 <= i < list.len(),
        list[at] is Put,
    ensures
        with_damage(injection, list, at).len() == list.len(),
        i != at ==> with_damage(injection, list, at)[i] == list[i],
        list[at] matches Change::Put { table, key, value } && with_damage(injection, list, at)[at] == (Change::Put {
            table,
            key,
            value: damaged(injection, value),
        }),
{
}

/// What a commit asks for is the length of every key and value it writes and of
/// every key it removes, added up.
pub proof fn a_commit_asks_for_what_it_writes(list: Seq<Change>)
    ensures
        bytes_of(list) == summed(
            list.map_values(
                |c: Change|
                    match c {
                        Change::Put { key, value, .. } => (key.len() + value.len()) as nat,
                        Change::Delete { key, .. } => key.len(),
                        Change::DeleteRange { .. } => 0nat,
                    },
            ),
        ),
    decreases list.len(),
{
    let f = |c: Change|
        match c {
            Change::Put { key, value, .. } => (key.len() + value.len()) as nat,
            Change::Delete { key, .. } => key.len(),
            Change::DeleteRange { .. } => 0nat,
        };
    if list.len() > 0 {
        a_commit_asks_for_what_it_writes(list.drop_last());
        assert(list.map_values(f).drop_last() =~= list.drop_last().map_values(f));
        assert(list.map_values(f).last() == f(list.last()));
    }
}

/// A plan is due at its place, counted from when it was armed, or at once where
/// that is behind; an injection either refuses a commit, and says so in its own
/// way, or damages it.
pub proof fn a_plan_is_due_at_its_place(plan: FaultPlan, start: int, list: Seq<Change>, e: Error)
    requires
        start >= 0,
    ensures
        plan.at_op >= start ==> start + due_in(plan, start) == plan.at_op,
        plan.at_op < start ==> due_in(plan, start) == 0,
        refuses(plan.injection) <==> !(plan.injection is Truncate || plan.injection is Corrupt),
        plan.injection is Quota && failed_as(plan.injection, list, e) ==> e is QuotaExceeded,
        (plan.injection is Abort || plan.injection is Io) && failed_as(plan.injection, list, e) ==> e is Backend,
{
}

} // verus!
