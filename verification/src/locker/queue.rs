//! The order in which keys are shed: least recently used first.

use vstd::prelude::*;

use crate::bytes::{before, before_is_irreflexive, before_is_total, before_is_transitive, order, Order};

verus! {

/// A key that may be shed: when it was last used, its name, and its size.
pub type Due = (u64, Seq<u8>, u64);

/// A key that may be shed.
pub struct Waiting {
    pub tick: u64,
    pub key: Vec<u8>,
    pub bytes: u64,
}

impl View for Waiting {
    type V = Due;

    open spec fn view(&self) -> Due {
        (self.tick, self.key@, self.bytes)
    }
}

/// What a list of waiting keys says.
pub open spec fn dues(list: Seq<Waiting>) -> Seq<Due> {
    Seq::new(list.len(), |i: int| list[i]@)
}

/// `a` is shed no later than `b`: an older tick first, then the smaller key.
pub open spec fn no_later(a: Due, b: Due) -> bool {
    a.0 < b.0 || a.0 == b.0 && !before(b.1, a.1)
}

/// Every entry is shed no later than those after it.
pub open spec fn in_line(line: Seq<Due>) -> bool {
    forall|i: int, j: int| 0 <= i < j < line.len() ==> no_later(#[trigger] line[i], #[trigger] line[j])
}

/// Every entry is shed no earlier than those after it.
pub open spec fn in_reverse_line(line: Seq<Due>) -> bool {
    forall|i: int, j: int| 0 <= i < j < line.len() ==> no_later(#[trigger] line[j], #[trigger] line[i])
}

/// The order of shedding is transitive.
pub proof fn no_later_is_transitive(a: Due, b: Due, c: Due)
    requires
        no_later(a, b),
        no_later(b, c),
    ensures
        no_later(a, c),
{
    if a.0 == b.0 && b.0 == c.0 && before(c.1, a.1) {
        before_is_total(a.1, b.1);
        if a.1 != b.1 {
            before_is_transitive(c.1, a.1, b.1);
        }
    }
}

/// Of any two entries, one is shed no later than the other.
pub proof fn no_later_is_total(a: Due, b: Due)
    ensures
        no_later(a, b) || no_later(b, a),
{
    before_is_total(a.1, b.1);
    if before(a.1, b.1) && before(b.1, a.1) {
        before_is_transitive(a.1, b.1, a.1);
        before_is_irreflexive(a.1);
    }
}

/// Whether `a` is shed no later than `b`.
fn goes_first(a: &Waiting, b: &Waiting) -> (r: bool)
    ensures
        r == no_later(a@, b@),
{
    if a.tick != b.tick {
        a.tick < b.tick
    } else {
        match order(b.key.as_slice(), a.key.as_slice()) {
            Order::Less => false,
            _ => true,
        }
    }
}

/// One more entry at the end.
proof fn dues_push(list: Seq<Waiting>, w: Waiting)
    ensures
        dues(list.push(w)) == dues(list).push(w@),
        dues(list.push(w)).to_multiset() == dues(list).to_multiset().insert(w@),
{
    broadcast use vstd::seq_lib::group_to_multiset_ensures;

    assert(dues(list.push(w)) =~= dues(list).push(w@));
}

/// One entry fewer at the end.
proof fn dues_pop(list: Seq<Waiting>)
    requires
        list.len() > 0,
    ensures
        dues(list.drop_last()) == dues(list).drop_last(),
        dues(list).to_multiset() == dues(list.drop_last()).to_multiset().insert(list.last()@),
{
    broadcast use vstd::seq_lib::group_to_multiset_ensures;

    assert(dues(list.drop_last()) =~= dues(list).drop_last());
    assert(dues(list) =~= dues(list.drop_last()).push(list.last()@));
}

/// The same entries the other way round.
fn turned(list: Vec<Waiting>) -> (out: Vec<Waiting>)
    requires
        in_reverse_line(dues(list@)),
    ensures
        in_line(dues(out@)),
        dues(out@).to_multiset() == dues(list@).to_multiset(),
{
    let ghost all = dues(list@);
    let mut list = list;
    let mut out: Vec<Waiting> = Vec::new();
    proof {
        assert(dues(out@) =~= Seq::<Due>::empty());
        assert(all.take(list@.len() as int) =~= all);
        broadcast use vstd::seq_lib::group_to_multiset_ensures;
        broadcast use vstd::multiset::group_multiset_axioms;

        assert(dues(list@).to_multiset().add(dues(out@).to_multiset()) =~= all.to_multiset());
    }
    while list.len() > 0
        invariant
            in_reverse_line(all),
            list@.len() + out@.len() == all.len(),
            dues(list@) == all.take(list@.len() as int),
            forall|i: int| 0 <= i < out@.len() ==> (#[trigger] dues(out@)[i]) == all[all.len() - 1 - i],
            dues(list@).to_multiset().add(dues(out@).to_multiset()) == all.to_multiset(),
        decreases list.len(),
    {
        let ghost was_list = list@;
        let ghost was_out = out@;
        proof {
            dues_pop(list@);
        }
        match list.pop() {
            Some(w) => {
                proof {
                    dues_push(out@, w);
                    assert(dues(was_list)[was_list.len() - 1] == w@);
                }
                out.push(w);
                proof {
                    broadcast use vstd::multiset::group_multiset_axioms;

                    assert(dues(list@) =~= all.take(list@.len() as int));
                    assert(dues(list@).to_multiset().add(dues(out@).to_multiset()) =~= dues(
                        was_list,
                    ).to_multiset().add(dues(was_out).to_multiset()));
                }
            },
            None => {},
        }
    }
    proof {
        broadcast use vstd::seq_lib::group_to_multiset_ensures;
        broadcast use vstd::multiset::group_multiset_axioms;

        assert(dues(list@) =~= Seq::<Due>::empty());
        assert(dues(out@).to_multiset() =~= all.to_multiset());
    }
    out
}

/// Every entry of `line` is shed no later than every entry of `rest`.
spec fn all_no_later(line: Seq<Due>, rest: Seq<Due>) -> bool {
    forall|i: int, j: int|
        0 <= i < line.len() && 0 <= j < rest.len() ==> no_later(#[trigger] line[i], #[trigger] rest[j])
}

/// Take the last entry of a line and put it at the end of a reverse line.
fn move_last(from: &mut Vec<Waiting>, out: &mut Vec<Waiting>, Ghost(other): Ghost<Seq<Due>>)
    requires
        old(from)@.len() > 0,
        in_line(dues(old(from)@)),
        in_line(other),
        in_reverse_line(dues(old(out)@)),
        all_no_later(dues(old(from)@), dues(old(out)@)),
        all_no_later(other, dues(old(out)@)),
        other.len() > 0 ==> no_later(other.last(), old(from)@.last()@),
    ensures
        final(from)@ == old(from)@.drop_last(),
        in_line(dues(final(from)@)),
        in_reverse_line(dues(final(out)@)),
        all_no_later(dues(final(from)@), dues(final(out)@)),
        all_no_later(other, dues(final(out)@)),
        dues(final(from)@).to_multiset().add(dues(final(out)@).to_multiset()) == dues(old(from)@).to_multiset().add(
            dues(old(out)@).to_multiset(),
        ),
{
    let ghost was = from@;
    let ghost had = out@;
    proof {
        dues_pop(from@);
    }
    match from.pop() {
        Some(w) => {
            proof {
                dues_push(out@, w);
            }
            out.push(w);
            proof {
                let line = dues(from@);
                let now = dues(out@);
                assert(dues(was).last() == w@);
                assert forall|i: int, j: int| 0 <= i < j < line.len() implies no_later(#[trigger] line[i], #[trigger] line[j]) by {
                    assert(line[i] == dues(was)[i] && line[j] == dues(was)[j]);
                }
                assert forall|i: int, j: int| 0 <= i < j < now.len() implies no_later(#[trigger] now[j], #[trigger] now[i]) by {
                    if j == had.len() {
                        assert(now[i] == dues(had)[i]);
                        assert(now[j] == dues(was)[was.len() - 1]);
                    } else {
                        assert(now[i] == dues(had)[i] && now[j] == dues(had)[j]);
                    }
                }
                assert forall|i: int, j: int| 0 <= i < line.len() && 0 <= j < now.len() implies no_later(#[trigger] line[i], #[trigger] now[j]) by {
                    assert(line[i] == dues(was)[i]);
                    if j == had.len() {
                        assert(now[j] == dues(was)[was.len() - 1]);
                    } else {
                        assert(now[j] == dues(had)[j]);
                    }
                }
                assert forall|i: int, j: int| 0 <= i < other.len() && 0 <= j < now.len() implies no_later(#[trigger] other[i], #[trigger] now[j]) by {
                    if j == had.len() {
                        if i < other.len() - 1 {
                            no_later_is_transitive(other[i], other.last(), w@);
                        }
                    } else {
                        assert(now[j] == dues(had)[j]);
                    }
                }
                broadcast use vstd::multiset::group_multiset_axioms;

                assert(dues(from@).to_multiset().add(dues(out@).to_multiset()) =~= dues(was).to_multiset().add(
                    dues(had).to_multiset(),
                ));
            }
        },
        None => {},
    }
}

/// Two lines as one.
fn merged(a: Vec<Waiting>, b: Vec<Waiting>) -> (out: Vec<Waiting>)
    requires
        in_line(dues(a@)),
        in_line(dues(b@)),
    ensures
        in_line(dues(out@)),
        dues(out@).to_multiset() == dues(a@).to_multiset().add(dues(b@).to_multiset()),
{
    let ghost all = dues(a@).to_multiset().add(dues(b@).to_multiset());
    let mut a = a;
    let mut b = b;
    let mut out: Vec<Waiting> = Vec::new();
    proof {
        broadcast use vstd::seq_lib::group_to_multiset_ensures;
        broadcast use vstd::multiset::group_multiset_axioms;

        assert(dues(out@) =~= Seq::<Due>::empty());
        assert(dues(a@).to_multiset().add(dues(b@).to_multiset()).add(dues(out@).to_multiset()) =~= all);
    }
    while a.len() > 0 || b.len() > 0
        invariant
            in_line(dues(a@)),
            in_line(dues(b@)),
            in_reverse_line(dues(out@)),
            all_no_later(dues(a@), dues(out@)),
            all_no_later(dues(b@), dues(out@)),
            dues(a@).to_multiset().add(dues(b@).to_multiset()).add(dues(out@).to_multiset()) == all,
        decreases a.len() + b.len(),
    {
        let take_a: bool = if b.len() == 0 {
            true
        } else if a.len() == 0 {
            false
        } else {
            !goes_first(&a[a.len() - 1], &b[b.len() - 1])
        };
        let ghost (x, y, z) = (dues(a@).to_multiset(), dues(b@).to_multiset(), dues(out@).to_multiset());
        if take_a {
            proof {
                if b@.len() > 0 {
                    no_later_is_total(a@.last()@, b@.last()@);
                    assert(dues(b@).last() == b@.last()@);
                }
            }
            move_last(&mut a, &mut out, Ghost(dues(b@)));
            proof {
                broadcast use vstd::multiset::group_multiset_axioms;

                let (p, q, r) = (dues(a@).to_multiset(), dues(b@).to_multiset(), dues(out@).to_multiset());
                assert(p.add(q).add(r) =~= p.add(r).add(q));
                assert(x.add(y).add(z) =~= x.add(z).add(y));
            }
        } else {
            proof {
                if a@.len() > 0 {
                    assert(dues(a@).last() == a@.last()@);
                }
            }
            move_last(&mut b, &mut out, Ghost(dues(a@)));
            proof {
                broadcast use vstd::multiset::group_multiset_axioms;

                let (p, q, r) = (dues(a@).to_multiset(), dues(b@).to_multiset(), dues(out@).to_multiset());
                assert(p.add(q).add(r) =~= p.add(q.add(r)));
                assert(x.add(y).add(z) =~= x.add(y.add(z)));
            }
        }
    }
    proof {
        broadcast use vstd::seq_lib::group_to_multiset_ensures;
        broadcast use vstd::multiset::group_multiset_axioms;

        assert(dues(a@) =~= Seq::<Due>::empty());
        assert(dues(b@) =~= Seq::<Due>::empty());
        assert(dues(out@).to_multiset() =~= all);
    }
    turned(out)
}

/// Put waiting keys in the order they are shed.
pub fn lined_up(list: Vec<Waiting>) -> (out: Vec<Waiting>)
    ensures
        in_line(dues(out@)),
        dues(out@).to_multiset() == dues(list@).to_multiset(),
    decreases list.len(),
{
    if list.len() <= 1 {
        return list;
    }
    let mut left = list;
    let half: usize = left.len() / 2;
    let right = left.split_off(half);
    proof {
        broadcast use vstd::seq_lib::group_to_multiset_ensures;

        assert(dues(list@) =~= dues(left@) + dues(right@));
        vstd::seq_lib::lemma_multiset_commutative(dues(left@), dues(right@));
    }
    let left = lined_up(left);
    let right = lined_up(right);
    merged(left, right)
}

} // verus!
