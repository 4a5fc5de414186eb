//! What a broadcast does to each subscriber, told from its side: whoever asked
//! for a key is offered every event of that key and of no other, in order, and
//! what could not be delivered is counted and reported, so that nothing is
//! missed in silence.

use vstd::prelude::*;

use crate::watch::{
    announced, delivered, leavers, listeners_after, missed, subscribed, taken_of, EventStream, Fate, Listener,
    News, Watchers,
};

verus! {

/// Whether an event is of one key.
pub open spec fn is_of(news: News, key: Seq<u8>) -> bool {
    ||| news == (News::Put { key })
    ||| news == (News::Deleted { key })
    ||| news == (News::Evicted { key })
    ||| news == (News::Stale { key })
}

/// A subscriber to some keys is told of an event of one key exactly where that
/// key, byte for byte, is among them; one without a filter is told of every
/// event, and everyone of what concerns no single key.
pub proof fn a_filter_lets_through_its_own_keys(news: News, keys: Seq<Seq<u8>>, key: Seq<u8>)
    ensures
        is_of(news, key) ==> (news.passes(Some(keys)) <==> exists|i: int| 0 <= i < keys.len() && #[trigger] keys[i] == key),
        news is Cleared || news is Lagged ==> news.passes(Some(keys)),
        news.passes(None),
{
    if keys.contains(key) {
        let i = keys.index_of(key);
        assert(keys[i] == key);
    }
}

/// Whoever did not ask for an event keeps its place as it was.
proof fn the_uninterested_stay(subs: Seq<Listener>, news: News, fates: Seq<(Fate, Fate)>, i: int) -> (j: int)
    requires
        fates.len() == subs.len(),
        0 <= i < subs.len(),
        !news.passes(subs[i].filter),
    ensures
        0 <= j < listeners_after(subs, news, fates).len(),
        listeners_after(subs, news, fates)[j] == subs[i],
    decreases subs.len(),
{
    let short = subs.drop_last();
    let so_far = listeners_after(short, news, fates.drop_last());
    if i == subs.len() - 1 {
        so_far.len() as int
    } else {
        assert(short[i] == subs[i]);
        let j = the_uninterested_stay(short, news, fates.drop_last(), i);
        assert(listeners_after(subs, news, fates)[j] == so_far[j]);
        j
    }
}

/// Whoever asked for an event is offered it, and stays or is gone.
proof fn the_interested_are_served(subs: Seq<Listener>, news: News, fates: Seq<(Fate, Fate)>, i: int) -> (j: int)
    requires
        fates.len() == subs.len(),
        0 <= i < subs.len(),
        news.passes(subs[i].filter),
    ensures
        missed(subs[i].skipped, fates[i].0, fates[i].1) is Some ==> 0 <= j < listeners_after(subs, news, fates).len()
            && listeners_after(subs, news, fates)[j] == delivered(subs[i], news, fates[i].0, fates[i].1),
        missed(subs[i].skipped, fates[i].0, fates[i].1) is None ==> 0 <= j < leavers(subs, news, fates).len()
            && leavers(subs, news, fates)[j] == delivered(subs[i], news, fates[i].0, fates[i].1),
    decreases subs.len(),
{
    let short = subs.drop_last();
    let less = fates.drop_last();
    let stay = listeners_after(short, news, less);
    let go = leavers(short, news, less);
    if i == subs.len() - 1 {
        if missed(subs[i].skipped, fates[i].0, fates[i].1) is Some {
            stay.len() as int
        } else {
            go.len() as int
        }
    } else {
        assert(short[i] == subs[i] && less[i] == fates[i]);
        let j = the_interested_are_served(short, news, less, i);
        if missed(subs[i].skipped, fates[i].0, fates[i].1) is Some {
            assert(listeners_after(subs, news, fates)[j] == stay[j]);
        } else {
            assert(leavers(subs, news, fates)[j] == go[j]);
        }
        j
    }
}

/// Everyone stays or is gone, and nobody is made up.
proof fn nobody_is_made_up(subs: Seq<Listener>, news: News, fates: Seq<(Fate, Fate)>)
    requires
        fates.len() == subs.len(),
    ensures
        listeners_after(subs, news, fates).len() + leavers(subs, news, fates).len() == subs.len(),
    decreases subs.len(),
{
    if subs.len() > 0 {
        nobody_is_made_up(subs.drop_last(), news, fates.drop_last());
    }
}

/// A subscriber to some keys is not disturbed by an event of any other key: it is
/// still there, and was offered nothing.
pub proof fn who_did_not_ask_hears_nothing(
    before: Watchers,
    news: News,
    after: Watchers,
    i: int,
    keys: Seq<Seq<u8>>,
    key: Seq<u8>,
) -> (j: int)
    requires
        announced(before, news, after),
        0 <= i < before.listeners().len(),
        before.listeners()[i].filter == Some(keys),
        is_of(news, key),
        forall|n: int| 0 <= n < keys.len() ==> #[trigger] keys[n] != key,
    ensures
        0 <= j < after.listeners().len(),
        after.listeners()[j] == before.listeners()[i],
{
    a_filter_lets_through_its_own_keys(news, keys, key);
    let fates = choose|fates: Seq<(Fate, Fate)>|
        {
            &&& fates.len() == before.listeners().len()
            &&& after.listeners() == #[trigger] listeners_after(before.listeners(), news, fates)
        };
    the_uninterested_stay(before.listeners(), news, fates, i)
}

/// Whether a subscriber was offered an event: the notice of its gap first, where
/// it has one, and then the event, unless the notice did not get through. Nothing
/// that was offered before is changed.
pub open spec fn was_offered(l: Listener, news: News, now: Listener, notice: Fate, event: Fate) -> bool {
    &&& now.filter == l.filter
    &&& now.readers == l.readers
    &&& now.room == l.room
    &&& l.skipped == 0 ==> now.offers == l.offers.push((news, event))
    &&& l.skipped > 0 && notice is Taken ==> now.offers == l.offers.push(
        (News::Lagged { skipped: l.skipped }, notice),
    ).push((news, event))
    &&& l.skipped > 0 && notice !is Taken ==> now.offers == l.offers.push(
        (News::Lagged { skipped: l.skipped }, notice),
    )
}

/// Whoever asked for the key of an event, or for every key, is offered the event:
/// it stays on the list, or is found gone and leaves it. What concerns no single
/// key is offered to everyone.
pub proof fn who_asked_is_offered(before: Watchers, news: News, after: Watchers, i: int, key: Seq<u8>)
    requires
        announced(before, news, after),
        0 <= i < before.listeners().len(),
        match before.listeners()[i].filter {
            None => true,
            Some(keys) => news is Cleared || news is Lagged || (is_of(news, key) && exists|n: int|
                0 <= n < keys.len() && #[trigger] keys[n] == key),
        },
    ensures
        exists|now: Listener, notice: Fate, event: Fate|
            #![trigger was_offered(before.listeners()[i], news, now, notice, event)]
            was_offered(before.listeners()[i], news, now, notice, event) && (after.listeners().contains(now) || (
            after.departed().skip(before.departed().len() as int).contains(now) && (notice is Gone || event is Gone))),
{
    let subs = before.listeners();
    if let Some(keys) = subs[i].filter {
        a_filter_lets_through_its_own_keys(news, keys, key);
    } else {
        a_filter_lets_through_its_own_keys(news, Seq::empty(), key);
    }
    let fates = choose|fates: Seq<(Fate, Fate)>|
        {
            &&& fates.len() == before.listeners().len()
            &&& after.listeners() == #[trigger] listeners_after(before.listeners(), news, fates)
            &&& after.departed() == before.departed() + leavers(before.listeners(), news, fates)
        };
    let j = the_interested_are_served(subs, news, fates, i);
    let (notice, event) = fates[i];
    let now = delivered(subs[i], news, notice, event);
    assert(was_offered(subs[i], news, now, notice, event));
    if missed(subs[i].skipped, notice, event) is Some {
        assert(after.listeners()[j] == now);
        assert(after.listeners().contains(now));
    } else {
        let gone = after.departed().skip(before.departed().len() as int);
        assert(gone =~= leavers(subs, news, fates));
        assert(gone[j] == now);
        assert(gone.contains(now));
    }
}

/// Nobody joins or vanishes with an event: whoever was there stays, or is among
/// those who were found gone.
pub proof fn an_event_makes_nobody_up(before: Watchers, news: News, after: Watchers)
    requires
        announced(before, news, after),
    ensures
        after.listeners().len() + after.departed().len() == before.listeners().len() + before.departed().len(),
{
    let fates = choose|fates: Seq<(Fate, Fate)>|
        {
            &&& fates.len() == before.listeners().len()
            &&& after.listeners() == #[trigger] listeners_after(before.listeners(), news, fates)
            &&& after.departed() == before.departed() + leavers(before.listeners(), news, fates)
        };
    nobody_is_made_up(before.listeners(), news, fates);
}

/// How many events some news stands for: a gap notice for those it counts, any
/// other for itself.
pub open spec fn stands_for(sent: Seq<News>) -> nat
    decreases sent.len(),
{
    if sent.len() == 0 {
        0
    } else {
        stands_for(sent.drop_last()) + match sent.last() {
            News::Lagged { skipped } => skipped as nat,
            _ => 1,
        }
    }
}

/// Every event is delivered or counted, once: what a live subscriber was sent and
/// what it has missed add up to one more with each event it asked for, whatever
/// became of the offers. And what it was sent is only ever added to.
pub proof fn every_event_is_delivered_or_counted(l: Listener, news: News, notice: Fate, event: Fate)
    requires
        missed(l.skipped, notice, event) is Some,
        l.skipped < u64::MAX,
        news !is Lagged,
    ensures
        ({
            let now = delivered(l, news, notice, event);
            &&& stands_for(now.sent()) + now.skipped == stands_for(l.sent()) + l.skipped + 1
            &&& now.sent().len() >= l.sent().len()
            &&& now.sent().take(l.sent().len() as int) == l.sent()
        }),
{
    let now = delivered(l, news, notice, event);
    let gap = (News::Lagged { skipped: l.skipped }, notice);
    let told = l.offers.push(gap);
    reveal_with_fuel(taken_of, 3);
    reveal_with_fuel(stands_for, 3);
    assert(told.drop_last() =~= l.offers);
    assert(told.push((news, event)).drop_last() =~= told);
    assert(l.offers.push((news, event)).drop_last() =~= l.offers);
    let sent = l.sent();
    assert(sent.push(gap.0).drop_last() =~= sent);
    assert(sent.push(gap.0).push(news).drop_last() =~= sent.push(gap.0));
    assert(sent.push(news).drop_last() =~= sent);
    assert(now.sent().take(sent.len() as int) =~= sent);
}

/// A subscriber is dropped only where an offer found nobody listening.
pub proof fn only_who_is_gone_is_dropped(skipped: u64, notice: Fate, event: Fate)
    ensures
        missed(skipped, notice, event) is None ==> (skipped > 0 && notice is Gone) || event is Gone,
        notice !is Gone && event !is Gone ==> missed(skipped, notice, event) is Some,
{
}

/// What a queue took is what it was offered and took, in order.
pub proof fn what_was_taken_was_offered(offers: Seq<(News, Fate)>)
    ensures
        taken_of(offers) == offers.filter(|o: (News, Fate)| o.1 is Taken).map_values(|o: (News, Fate)| o.0),
    decreases offers.len(),
{
    reveal(Seq::filter);
    let taken = |o: (News, Fate)| o.1 is Taken;
    let news = |o: (News, Fate)| o.0;
    if offers.len() > 0 {
        what_was_taken_was_offered(offers.drop_last());
        let so_far = offers.drop_last().filter(taken);
        if offers.last().1 is Taken {
            assert(so_far.push(offers.last()).map_values(news) =~= so_far.map_values(news).push(offers.last().0));
        }
    } else {
        assert(taken_of(offers) =~= offers.filter(taken).map_values(news));
    }
}

/// A newcomer hears from now on: it has missed nothing and was offered nothing, it
/// gets what it asked for, its stream reads what it is sent, and nobody else
/// notices.
pub proof fn a_newcomer_hears_from_now_on(
    before: Watchers,
    filter: Option<Seq<Seq<u8>>>,
    capacity: usize,
    stream: EventStream,
    after: Watchers,
    i: int,
)
    requires
        subscribed(before, filter, capacity, stream, after),
        0 <= i < before.listeners().len(),
    ensures
        after.listeners().len() == before.listeners().len() + 1,
        after.listeners()[i] == before.listeners()[i],
        after.listeners().last().filter == filter,
        after.listeners().last().skipped == 0,
        after.listeners().last().offers.len() == 0,
        after.listeners().last().room == capacity,
        after.listeners().last().readers.contains(stream.receiving_end()),
{
    assert(after.listeners().drop_last()[i] == after.listeners()[i]);
}

} // verus!
