//! The live handles on a bank's lockers.
//!
//! Two handles on one name never sync: neither one's index can then prove a
//! key absent, and two staging buffers over one name would overwrite each
//! other. So a name that ever had two live handles is remembered as shared by
//! each of them, and a locker that defers its writes may have only one.

use vstd::prelude::*;

use crate::bytes::{copy, same};
use crate::error::{backend_with, Error, Result};
use crate::sorted::{listing, views, ByteMap};

verus! {

/// One live handle.
#[derive(Debug)]
pub struct Handle {
    pub ticket: u64,
    pub name: Vec<u8>,
    pub defers: bool,
    pub shared: bool,
}

/// One live handle, as mathematics.
#[verifier::ext_equal]
pub struct Seat {
    pub ticket: u64,
    pub name: Seq<u8>,
    pub defers: bool,
    pub shared: bool,
}

impl View for Handle {
    type V = Seat;

    open spec fn view(&self) -> Seat {
        Seat { ticket: self.ticket, name: self.name@, defers: self.defers, shared: self.shared }
    }
}

/// The live handles.
#[derive(Debug)]
pub struct Handles {
    live: Vec<Handle>,
    next: u64,
}

/// Some handle is on this name.
pub open spec fn taken(seats: Seq<Seat>, name: Seq<u8>) -> bool {
    exists|i: int| 0 <= i < seats.len() && (#[trigger] seats[i]).name == name
}

/// Some handle on this name defers its writes.
pub open spec fn deferring(seats: Seq<Seat>, name: Seq<u8>) -> bool {
    exists|i: int| 0 <= i < seats.len() && (#[trigger] seats[i]).name == name && seats[i].defers
}

/// The handles once everyone on a name knows it is shared.
pub open spec fn marked(seats: Seq<Seat>, name: Seq<u8>) -> Seq<Seat> {
    Seq::new(
        seats.len(),
        |i: int|
            Seat {
                shared: seats[i].shared || seats[i].name == name,
                ..seats[i]
            },
    )
}

/// The handles once one more is opened: where the name was taken already,
/// every handle on it learns that it is shared, the new one included.
pub open spec fn joined(seats: Seq<Seat>, seat: Seat) -> Seq<Seat> {
    if taken(seats, seat.name) {
        marked(seats.push(seat), seat.name)
    } else {
        seats.push(seat)
    }
}

/// The names in use.
pub open spec fn names_in_use(seats: Seq<Seat>) -> Set<Seq<u8>> {
    Set::new(|n: Seq<u8>| taken(seats, n))
}

impl Handles {
    /// The live handles, oldest first.
    pub closed spec fn seats(self) -> Seq<Seat> {
        Seq::new(self.live@.len(), |i: int| self.live@[i]@)
    }

    /// The next ticket to hand out.
    pub closed spec fn upcoming(self) -> u64 {
        self.next
    }

    /// What every operation keeps: tickets are all different and all handed
    /// out already; handles that share a name know it; and none of them defers
    /// its writes.
    pub open spec fn wf(self) -> bool {
        &&& forall|i: int| 0 <= i < self.seats().len() ==> (#[trigger] self.seats()[i]).ticket < self.upcoming()
        &&& forall|i: int, j: int|
            0 <= i < j < self.seats().len() ==> (#[trigger] self.seats()[i]).ticket != (#[trigger] self.seats()[j]).ticket
        &&& forall|i: int, j: int|
            0 <= i < self.seats().len() && 0 <= j < self.seats().len() && i != j && (#[trigger] self.seats()[i]).name == (
            #[trigger] self.seats()[j]).name ==> self.seats()[i].shared && !self.seats()[i].defers
    }

    /// No handle is open.
    pub fn new() -> (h: Self)
        ensures
            h.seats().len() == 0,
            h.upcoming() == 0,
            h.wf(),
    {
        Handles { live: Vec::new(), next: 0 }
    }

    /// Whether a handle may be opened: a deferred locker may have only one.
    pub fn admits(&self, name: &[u8], defers: bool) -> (b: bool)
        ensures
            b == !(taken(self.seats(), name@) && (defers || deferring(self.seats(), name@))),
    {
        let mut any: bool = false;
        let mut any_defers: bool = false;
        let mut i: usize = 0;
        while i < self.live.len()
            invariant
                i <= self.live@.len(),
                any == exists|j: int| 0 <= j < i && (#[trigger] self.seats()[j]).name == name@,
                any_defers == exists|j: int|
                    0 <= j < i && (#[trigger] self.seats()[j]).name == name@ && self.seats()[j].defers,
            decreases self.live.len() - i,
        {
            assert(self.seats()[i as int] == self.live@[i as int]@);
            if same(self.live[i].name.as_slice(), name) {
                any = true;
                if self.live[i].defers {
                    any_defers = true;
                }
            }
            i += 1;
        }
        !any || (!defers && !any_defers)
    }

    /// Whether a name has a live handle.
    pub fn is_open(&self, name: &[u8]) -> (b: bool)
        ensures
            b == taken(self.seats(), name@),
    {
        let mut i: usize = 0;
        while i < self.live.len()
            invariant
                i <= self.live@.len(),
                forall|j: int| 0 <= j < i ==> (#[trigger] self.seats()[j]).name != name@,
            decreases self.live.len() - i,
        {
            assert(self.seats()[i as int] == self.live@[i as int]@);
            if same(self.live[i].name.as_slice(), name) {
                return true;
            }
            i += 1;
        }
        false
    }

    /// Register a handle. Marks are never taken back: closing the other handle
    /// does not unwrite what it wrote.
    pub fn register(&mut self, name: &[u8], defers: bool) -> (r: Result<u64>)
        ensures
            r is Err ==> *final(self) == *old(self),
            match r {
                Ok(ticket) => {
                    &&& ticket == old(self).upcoming()
                    &&& final(self).upcoming() == ticket + 1
                    &&& final(self).seats() == joined(
                        old(self).seats(),
                        Seat { ticket, name: name@, defers, shared: false },
                    )
                },
                Err(e) => old(self).upcoming() == u64::MAX && backend_with(e, "no locker handle is left to hand out"@),
            },
            old(self).wf() && !(taken(old(self).seats(), name@) && (defers || deferring(old(self).seats(), name@)))
                ==> final(self).wf(),
    {
        let ticket: u64 = self.next;
        let next: u64 = match ticket.checked_add(1) {
            Some(next) => next,
            None => return Err(Error::backend("no locker handle is left to hand out")),
        };
        let was_open: bool = self.is_open(name);
        let ghost before = self.seats();
        let ghost seat = Seat { ticket, name: name@, defers, shared: false };
        self.next = next;
        self.live.push(Handle { ticket, name: copy(name), defers, shared: false });
        assert(self.seats() =~= before.push(seat));
        if was_open {
            self.mark(name);
        }
        proof {
            let now = self.seats();
            if old(self).wf() && !(taken(before, name@) && (defers || deferring(before, name@))) {
                assert forall|i: int, j: int|
                    0 <= i < now.len() && 0 <= j < now.len() && i != j && (#[trigger] now[i]).name == (
                    #[trigger] now[j]).name implies now[i].shared && !now[i].defers by {
                    let n = before.len() as int;
                    if i == n {
                        assert(before[j].name == name@);
                        assert(taken(before, name@));
                    } else if j == n {
                        assert(before[i].name == name@);
                        assert(taken(before, name@));
                        assert(!deferring(before, name@));
                    } else {
                        assert(before[i].name == before[j].name);
                    }
                }
                assert forall|i: int| 0 <= i < now.len() implies (#[trigger] now[i]).ticket < self.upcoming() by {
                    if i < before.len() {
                        assert(before[i].ticket < old(self).upcoming());
                    }
                }
                assert forall|i: int, j: int| 0 <= i < j < now.len() implies (#[trigger] now[i]).ticket != (
                #[trigger] now[j]).ticket by {
                    assert(before[i].ticket < old(self).upcoming());
                    if j < before.len() {
                        assert(before[i].ticket != before[j].ticket);
                    }
                }
            }
        }
        Ok(ticket)
    }

    /// Tell every handle on a name that it is shared.
    fn mark(&mut self, name: &[u8])
        ensures
            final(self).upcoming() == old(self).upcoming(),
            final(self).seats() == marked(old(self).seats(), name@),
    {
        let ghost before = self.seats();
        let mut out: Vec<Handle> = Vec::new();
        let mut i: usize = 0;
        while i < self.live.len()
            invariant
                i <= self.live@.len(),
                before == self.seats(),
                *self == *old(self),
                out@.len() == i,
                forall|j: int| 0 <= j < i ==> (#[trigger] out@[j])@ == marked(before, name@)[j],
            decreases self.live.len() - i,
        {
            let h = &self.live[i];
            assert(before[i as int] == h@);
            let here: bool = same(h.name.as_slice(), name);
            out.push(
                Handle {
                    ticket: h.ticket,
                    name: copy(h.name.as_slice()),
                    defers: h.defers,
                    shared: h.shared || here,
                },
            );
            i += 1;
        }
        self.live = out;
        assert(self.seats() =~= marked(before, name@));
    }

    /// Whether a handle's name is, or ever was, shared.
    pub fn shares(&self, ticket: u64) -> (b: bool)
        ensures
            b == self.shares_spec(ticket),
    {
        let mut i: usize = 0;
        while i < self.live.len()
            invariant
                i <= self.live@.len(),
                forall|j: int|
                    0 <= j < i ==> !((#[trigger] self.seats()[j]).ticket == ticket && self.seats()[j].shared),
            decreases self.live.len() - i,
        {
            assert(self.seats()[i as int] == self.live@[i as int]@);
            if self.live[i].ticket == ticket && self.live[i].shared {
                return true;
            }
            i += 1;
        }
        false
    }

    /// [`Handles::shares`], as mathematics.
    pub open spec fn shares_spec(self, ticket: u64) -> bool {
        exists|i: int| 0 <= i < self.seats().len() && (#[trigger] self.seats()[i]).ticket == ticket
            && self.seats()[i].shared
    }

    /// Let go of a handle that was closed or dropped.
    pub fn release(&mut self, ticket: u64)
        ensures
            final(self).upcoming() == old(self).upcoming(),
            final(self).seats() == but(old(self).seats(), ticket),
            old(self).wf() ==> final(self).wf(),
    {
        let ghost before = self.seats();
        let mut out: Vec<Handle> = Vec::new();
        let ghost mut from: Seq<int> = Seq::empty();
        let mut i: usize = 0;
        assert(Seq::new(out@.len(), |j: int| out@[j]@) =~= but(before.take(0), ticket));
        while i < self.live.len()
            invariant
                i <= self.live@.len(),
                before == self.seats(),
                *self == *old(self),
                Seq::new(out@.len(), |j: int| out@[j]@) == but(before.take(i as int), ticket),
                from.len() == out@.len(),
                forall|j: int| 0 <= j < from.len() ==> 0 <= #[trigger] from[j] < i && out@[j]@ == before[from[j]],
                forall|j: int, k: int| 0 <= j < k < from.len() ==> #[trigger] from[j] < #[trigger] from[k],
            decreases self.live.len() - i,
        {
            let h = &self.live[i];
            let ghost was = out@;
            proof {
                assert(before[i as int] == h@);
                assert(before.take(i + 1).drop_last() =~= before.take(i as int));
                assert(before.take(i + 1).last() == before[i as int]);
            }
            if h.ticket != ticket {
                out.push(
                    Handle { ticket: h.ticket, name: copy(h.name.as_slice()), defers: h.defers, shared: h.shared },
                );
                proof {
                    from = from.push(i as int);
                    assert(Seq::new(out@.len(), |j: int| out@[j]@) =~= Seq::new(was.len(), |j: int| was[j]@).push(
                        before[i as int],
                    ));
                }
            }
            i += 1;
        }
        self.live = out;
        proof {
            assert(before.take(before.len() as int) =~= before);
            let now = self.seats();
            assert forall|i: int| 0 <= i < now.len() implies #[trigger] now[i] == before[from[i]] by {}
            if old(self).wf() {
                assert forall|i: int, j: int|
                    0 <= i < now.len() && 0 <= j < now.len() && i != j && (#[trigger] now[i]).name == (
                    #[trigger] now[j]).name implies now[i].shared && !now[i].defers by {
                    assert(from[i] != from[j]) by {
                        if i < j {
                            assert(from[i] < from[j]);
                        } else {
                            assert(from[j] < from[i]);
                        }
                    }
                    assert(before[from[i]].name == before[from[j]].name);
                }
                assert forall|i: int| 0 <= i < now.len() implies (#[trigger] now[i]).ticket < self.upcoming() by {
                    assert(before[from[i]].ticket < old(self).upcoming());
                }
                assert forall|i: int, j: int| 0 <= i < j < now.len() implies (#[trigger] now[i]).ticket != (
                #[trigger] now[j]).ticket by {
                    assert(from[i] < from[j]);
                    assert(before[from[i]].ticket != before[from[j]].ticket);
                }
            }
        }
    }

    /// Let go of every handle on a name.
    pub fn forget(&mut self, name: &[u8])
        ensures
            final(self).upcoming() == old(self).upcoming(),
            final(self).seats() == off(old(self).seats(), name@),
            !taken(final(self).seats(), name@),
            old(self).wf() ==> final(self).wf(),
            !taken(old(self).seats(), name@) ==> final(self).seats() == old(self).seats(),
    {
        let mut i: usize = 0;
        while i < self.live.len()
            invariant
                i <= self.live@.len(),
                old(self).wf() ==> self.wf(),
                self.upcoming() == old(self).upcoming(),
                forall|j: int| 0 <= j < i ==> (#[trigger] self.seats()[j]).name != name@,
                !taken(old(self).seats(), name@) ==> self.seats() == old(self).seats(),
                off(self.seats(), name@) == off(old(self).seats(), name@),
            decreases self.live.len() - i,
        {
            assert(self.seats()[i as int] == self.live@[i as int]@);
            if same(self.live[i].name.as_slice(), name) {
                assert(self.seats()[i as int].name == name@);
                let ghost before = *self;
                self.live.remove(i);
                proof {
                    assert(self.seats() =~= before.seats().remove(i as int));
                    removing_keeps_the_rest(before, *self, i as int);
                    who_is_off_counts_not(before.seats(), name@, i as int);
                    assert forall|j: int| 0 <= j < i implies (#[trigger] self.seats()[j]).name != name@ by {
                        assert(self.seats()[j] == before.seats()[j]);
                    }
                }
            } else {
                i += 1;
            }
        }
        proof {
            all_are_on(self.seats(), name@);
        }
    }

    /// The names of every live handle, in byte order, each once.
    pub fn names(&self) -> (names: Vec<Vec<u8>>)
        ensures
            views(names@) == listing(names_in_use(self.seats())),
    {
        let mut map: ByteMap<()> = ByteMap::new();
        let mut i: usize = 0;
        while i < self.live.len()
            invariant
                i <= self.live@.len(),
                forall|n: Seq<u8>| #[trigger]
                    map@.contains_key(n) <==> exists|j: int| 0 <= j < i && (#[trigger] self.seats()[j]).name == n,
            decreases self.live.len() - i,
        {
            let ghost was = map@;
            assert(self.seats()[i as int] == self.live@[i as int]@);
            map.insert(copy(self.live[i].name.as_slice()), ());
            i += 1;
        }
        assert(map@.dom() =~= names_in_use(self.seats()));
        map.key_list()
    }
}

/// Taking one handle away keeps what holds of the rest.
proof fn removing_keeps_the_rest(before: Handles, after: Handles, at: int)
    requires
        0 <= at < before.seats().len(),
        after.seats() == before.seats().remove(at),
        after.upcoming() == before.upcoming(),
    ensures
        before.wf() ==> after.wf(),
{
    if before.wf() {
        let was = before.seats();
        let now = after.seats();
        assert forall|i: int| 0 <= i < now.len() implies #[trigger] now[i] == was[if i < at {
            i
        } else {
            i + 1
        }] by {}
        assert forall|i: int, j: int|
            0 <= i < now.len() && 0 <= j < now.len() && i != j && (#[trigger] now[i]).name == (#[trigger] now[j]).name implies now[i].shared
            && !now[i].defers by {
            let x = if i < at {
                i
            } else {
                i + 1
            };
            let y = if j < at {
                j
            } else {
                j + 1
            };
            assert(was[x].name == was[y].name && x != y);
        }
        assert forall|i: int, j: int| 0 <= i < j < now.len() implies (#[trigger] now[i]).ticket != (#[trigger] now[j]).ticket by {
            let x = if i < at {
                i
            } else {
                i + 1
            };
            let y = if j < at {
                j
            } else {
                j + 1
            };
            assert(was[x].ticket != was[y].ticket);
        }
        assert forall|i: int| 0 <= i < now.len() implies (#[trigger] now[i]).ticket < after.upcoming() by {
            let x = if i < at {
                i
            } else {
                i + 1
            };
            assert(was[x].ticket < before.upcoming());
        }
    }
}

/// Some handles without the one of a ticket.
pub open spec fn but(seats: Seq<Seat>, ticket: u64) -> Seq<Seat>
    decreases seats.len(),
{
    if seats.len() == 0 {
        Seq::empty()
    } else {
        let rest = but(seats.drop_last(), ticket);
        if seats.last().ticket == ticket {
            rest
        } else {
            rest.push(seats.last())
        }
    }
}

/// Some handles without those on a name.
pub open spec fn off(seats: Seq<Seat>, name: Seq<u8>) -> Seq<Seat>
    decreases seats.len(),
{
    if seats.len() == 0 {
        Seq::empty()
    } else {
        let rest = off(seats.drop_last(), name);
        if seats.last().name == name {
            rest
        } else {
            rest.push(seats.last())
        }
    }
}

/// Taking away one on the name leaves the same without the name.
proof fn who_is_off_counts_not(seats: Seq<Seat>, name: Seq<u8>, at: int)
    requires
        0 <= at < seats.len(),
        seats[at].name == name,
    ensures
        off(seats.remove(at), name) == off(seats, name),
    decreases seats.len(),
{
    let fewer = seats.remove(at);
    if at == seats.len() - 1 {
        assert(fewer =~= seats.drop_last());
    } else {
        assert(fewer.drop_last() =~= seats.drop_last().remove(at));
        assert(fewer.last() == seats.last());
        who_is_off_counts_not(seats.drop_last(), name, at);
    }
}

/// Where nobody is on the name, nobody is left out.
proof fn all_are_on(seats: Seq<Seat>, name: Seq<u8>)
    ensures
        (forall|i: int| 0 <= i < seats.len() ==> (#[trigger] seats[i]).name != name) ==> off(seats, name) == seats,
    decreases seats.len(),
{
    if seats.len() > 0 && (forall|i: int| 0 <= i < seats.len() ==> (#[trigger] seats[i]).name != name) {
        let short = seats.drop_last();
        assert forall|i: int| 0 <= i < short.len() implies (#[trigger] short[i]).name != name by {
            assert(short[i] == seats[i]);
        }
        all_are_on(short, name);
        assert(seats.last() == seats[seats.len() - 1]);
        assert(off(seats, name) =~= seats);
    } else if seats.len() == 0 {
        assert(off(seats, name) =~= seats);
    }
}

/// A locker that defers its writes has one live handle at most.
pub proof fn a_deferred_locker_has_one_handle(handles: Handles, i: int, j: int)
    requires
        handles.wf(),
        0 <= i < handles.seats().len(),
        0 <= j < handles.seats().len(),
        handles.seats()[i].name == handles.seats()[j].name,
        handles.seats()[i].defers,
    ensures
        i == j,
{
}

/// Two live handles on one name both know that it is shared.
pub proof fn handles_on_one_name_know_it(handles: Handles, i: int, j: int)
    requires
        handles.wf(),
        0 <= i < handles.seats().len(),
        0 <= j < handles.seats().len(),
        i != j,
        handles.seats()[i].name == handles.seats()[j].name,
    ensures
        handles.shares_spec(handles.seats()[i].ticket),
        handles.shares_spec(handles.seats()[j].ticket),
{
    assert(handles.seats()[i].shared);
    assert(handles.seats()[j].shared);
}

/// A handle that is let go of leaves its own seat and no other, and the others stay
/// in order.
pub proof fn letting_go_leaves_the_others(seats: Seq<Seat>, ticket: u64)
    ensures
        but(seats, ticket) == seats.filter(|s: Seat| s.ticket != ticket),
    decreases seats.len(),
{
    reveal(Seq::filter);
    if seats.len() > 0 {
        letting_go_leaves_the_others(seats.drop_last(), ticket);
    } else {
        assert(but(seats, ticket) =~= seats.filter(|s: Seat| s.ticket != ticket));
    }
}

/// Forgetting a name leaves every handle on another, in order.
pub proof fn forgetting_a_name_leaves_the_others(seats: Seq<Seat>, name: Seq<u8>)
    ensures
        off(seats, name) == seats.filter(|s: Seat| s.name != name),
    decreases seats.len(),
{
    reveal(Seq::filter);
    if seats.len() > 0 {
        forgetting_a_name_leaves_the_others(seats.drop_last(), name);
    } else {
        assert(off(seats, name) =~= seats.filter(|s: Seat| s.name != name));
    }
}

/// One more handle keeps everyone in place, ticket, name and commit alike. Where
/// its name was taken, everyone on the name is told that it is shared, the
/// newcomer too, and nobody else is.
pub proof fn a_newcomer_is_made_known(seats: Seq<Seat>, seat: Seat, i: int)
    requires
        0 <= i < seats.len(),
    ensures
        joined(seats, seat).len() == seats.len() + 1,
        joined(seats, seat)[i].ticket == seats[i].ticket && joined(seats, seat)[i].name == seats[i].name && joined(
            seats,
            seat,
        )[i].defers == seats[i].defers,
        seats[i].name == seat.name ==> joined(seats, seat)[i].shared && joined(seats, seat).last().shared,
        seats[i].name != seat.name ==> joined(seats, seat)[i].shared == seats[i].shared,
        joined(seats, seat).last().ticket == seat.ticket && joined(seats, seat).last().name == seat.name && joined(
            seats,
            seat,
        ).last().defers == seat.defers,
{
    let all = seats.push(seat);
    assert(all[i] == seats[i]);
    assert(all.last() == seat);
    if taken(seats, seat.name) {
        assert(joined(seats, seat).last() == marked(all, seat.name)[seats.len() as int]);
    }
}

} // verus!
