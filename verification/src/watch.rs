//! Change notification.
//!
//! **Fan-out is bounded.** Each subscriber gets a fixed-capacity queue; when
//! it fills, events are counted rather than buffered, and the subscriber is
//! told how many it missed via [`Event::Lagged`]. Losing events loudly beats
//! growing without limit.
//!
//! **`Cleared` is one event, not N deletes.** A subscriber that sees `Cleared`
//! should assume it knows nothing.

use futures::channel::mpsc;
use vstd::prelude::*;
use vstd::string::*;
use vstd::utf8::*;

use crate::bytes::copy;
use crate::sorted::views;

verus! {

/// Default queue depth per subscriber.
pub const DEFAULT_CAPACITY: usize = 64;

/// The sending half of a queue, `futures::channel::mpsc::Sender`.
#[verifier::external_type_specification]
#[verifier::external_body]
#[verifier::reject_recursive_types(T)]
pub struct ExSender<T>(futures::channel::mpsc::Sender<T>);

/// The receiving half of a queue, `futures::channel::mpsc::Receiver`.
#[verifier::external_type_specification]
#[verifier::external_body]
#[verifier::reject_recursive_types(T)]
pub struct ExReceiver<T>(futures::channel::mpsc::Receiver<T>);

/// Something that happened to a locker.
#[derive(Debug, Clone, PartialEq, Eq)]
#[non_exhaustive]
pub enum Event {
    /// A key was written or overwritten.
    Put { key: Vec<u8> },
    /// A key was removed.
    Deleted { key: Vec<u8> },
    /// A key was shed to stay inside the byte budget.
    Evicted { key: Vec<u8> },
    /// A key was written elsewhere with a value that cannot be held here.
    Stale { key: Vec<u8> },
    /// Every key was removed at once.
    Cleared,
    /// The subscriber fell behind and `skipped` events were dropped.
    ///
    /// Delivered before the next event that does get through, so a subscriber
    /// always learns about a gap rather than silently missing one.
    Lagged { skipped: u64 },
}

/// Something that happened, as mathematics.
pub enum News {
    Put { key: Seq<u8> },
    Deleted { key: Seq<u8> },
    Evicted { key: Seq<u8> },
    Stale { key: Seq<u8> },
    Cleared,
    Lagged { skipped: u64 },
}

impl View for Event {
    type V = News;

    open spec fn view(&self) -> News {
        match *self {
            Event::Put { key } => News::Put { key: key@ },
            Event::Deleted { key } => News::Deleted { key: key@ },
            Event::Evicted { key } => News::Evicted { key: key@ },
            Event::Stale { key } => News::Stale { key: key@ },
            Event::Cleared => News::Cleared,
            Event::Lagged { skipped } => News::Lagged { skipped },
        }
    }
}

impl News {
    /// The key this concerns, if it concerns one.
    pub open spec fn about(self) -> Option<Seq<u8>> {
        match self {
            News::Put { key } => Some(key),
            News::Deleted { key } => Some(key),
            News::Evicted { key } => Some(key),
            News::Stale { key } => Some(key),
            News::Cleared => None,
            News::Lagged { .. } => None,
        }
    }

    /// Whether a subscriber to these keys is told. What concerns no single key
    /// always passes: a clear affects every key, and a gap notice must never
    /// itself be dropped.
    pub open spec fn passes(self, filter: Option<Seq<Seq<u8>>>) -> bool {
        match (filter, self.about()) {
            (Some(keys), Some(key)) => keys.contains(key),
            _ => true,
        }
    }
}

impl Event {
    /// The key this event concerns as raw bytes, or an empty slice for the
    /// events that concern no single key.
    pub fn key_bytes(&self) -> (key: &[u8])
        ensures
            key@ == match self@.about() {
                Some(key) => key,
                None => Seq::<u8>::empty(),
            },
    {
        match self {
            Event::Put { key } => key.as_slice(),
            Event::Deleted { key } => key.as_slice(),
            Event::Evicted { key } => key.as_slice(),
            Event::Stale { key } => key.as_slice(),
            Event::Cleared => nothing(),
            Event::Lagged { .. } => nothing(),
        }
    }

    /// The key this event concerns, if it concerns one **and** that key is
    /// valid UTF-8.
    pub fn key(&self) -> (key: Option<&str>)
        ensures
            key is Some <==> (self@.about() matches Some(k) && valid_utf8(k)),
            key matches Some(text) ==> self@.about() == Some(text.spec_bytes()),
    {
        match self {
            Event::Cleared => None,
            Event::Lagged { .. } => None,
            _ => match core::str::from_utf8(self.key_bytes()) {
                Ok(text) => Some(text),
                Err(_) => None,
            },
        }
    }

    /// Whether a subscriber filtered to `keys` should receive this event.
    pub fn matches(&self, filter: &Option<Vec<Vec<u8>>>) -> (b: bool)
        ensures
            b == self@.passes(filter_view(*filter)),
    {
        match filter {
            None => true,
            Some(keys) => match self {
                Event::Cleared => true,
                Event::Lagged { .. } => true,
                _ => crate::locker::lru::names(keys, self.key_bytes()),
            },
        }
    }

    /// A copy of this event.
    pub fn copied(&self) -> (e: Event)
        ensures
            e@ == self@,
    {
        match self {
            Event::Put { key } => Event::Put { key: copy(key.as_slice()) },
            Event::Deleted { key } => Event::Deleted { key: copy(key.as_slice()) },
            Event::Evicted { key } => Event::Evicted { key: copy(key.as_slice()) },
            Event::Stale { key } => Event::Stale { key: copy(key.as_slice()) },
            Event::Cleared => Event::Cleared,
            Event::Lagged { skipped } => Event::Lagged { skipped: *skipped },
        }
    }
}

/// The keys a filter names.
pub open spec fn filter_view(filter: Option<Vec<Vec<u8>>>) -> Option<Seq<Seq<u8>>> {
    match filter {
        Some(keys) => Some(views(keys@)),
        None => None,
    }
}

/// No bytes at all.
fn nothing<'a>() -> (s: &'a [u8])
    ensures
        s@ == Seq::<u8>::empty(),
{
    let text: &'static str = "";
    proof {
        reveal_strlit("");
        assert(text@ =~= Seq::<char>::empty());
        assert(encode_utf8(text@) =~= Seq::<u8>::empty());
    }
    text.as_bytes()
}

/// What became of an event handed to a queue.
#[derive(Debug, Clone, Copy, PartialEq, Eq, Structural)]
pub enum Fate {
    /// The queue took it.
    Taken,
    /// The queue is full.
    Full,
    /// Nobody is listening any more.
    Gone,
}

/// Everything that was offered to a sender's queue, oldest first, and what
/// became of it.
pub uninterp spec fn offered(sender: mpsc::Sender<Event>) -> Seq<(News, Fate)>;

/// How many events the queue of a sender holds beside the one it always has
/// room for.
pub uninterp spec fn room(sender: mpsc::Sender<Event>) -> usize;

/// Whether a sender puts its events into the queue that a receiver reads, as
/// `Sender::is_connected_to` tells.
pub uninterp spec fn joined(sender: mpsc::Sender<Event>, receiver: mpsc::Receiver<Event>) -> bool;

/// Everything that was taken from a queue at its receiving end, oldest first.
pub uninterp spec fn received(receiver: mpsc::Receiver<Event>) -> Seq<News>;

/// `futures::channel::mpsc::channel`: the two ends of one queue, which holds
/// `capacity` events and one more for its sender, with nothing offered to it
/// and nothing taken from it yet. It refuses capacities near the size of the
/// address space, so those are left out.
#[verifier::external_body]
fn queue(capacity: usize) -> (ends: (mpsc::Sender<Event>, mpsc::Receiver<Event>))
    requires
        capacity < usize::MAX / 4,
    ensures
        offered(ends.0) == Seq::<(News, Fate)>::empty(),
        received(ends.1) == Seq::<News>::empty(),
        joined(ends.0, ends.1),
        room(ends.0) == capacity,
{
    mpsc::channel(capacity)
}

/// `futures::channel::mpsc::Sender::try_send` offers the event, which the queue
/// puts behind those it took before, or refuses because it is full or nobody
/// reads it any more. Which of these depends on what the other end has done,
/// so that is not said, but that a queue which never took more than it has room
/// for is not full. The sender stays with its queue.
#[verifier::external_body]
fn offer(sender: &mut mpsc::Sender<Event>, event: Event) -> (fate: Fate)
    ensures
        offered(*final(sender)) == offered(*old(sender)).push((event@, fate)),
        forall|r: mpsc::Receiver<Event>| #[trigger] joined(*final(sender), r) == joined(*old(sender), r),
        room(*final(sender)) == room(*old(sender)),
        taken_of(offered(*old(sender))).len() <= room(*old(sender)) ==> fate !is Full,
{
    match sender.try_send(event) {
        Ok(()) => Fate::Taken,
        Err(e) if e.is_disconnected() => Fate::Gone,
        Err(_) => Fate::Full,
    }
}

/// `futures::channel::mpsc::Receiver::try_recv` takes one event, or none and
/// leaves what was taken as it was. Which of the two depends on the other end,
/// so that is not said. The receiver stays with its queue as long as that hands
/// out events.
#[verifier::external_body]
fn poll(receiver: &mut mpsc::Receiver<Event>) -> (event: Option<Event>)
    ensures
        received(*final(receiver)) == match event {
            Some(e) => received(*old(receiver)).push(e@),
            None => received(*old(receiver)),
        },
        event is Some ==> forall|s: mpsc::Sender<Event>| #[trigger]
            joined(s, *final(receiver)) == joined(s, *old(receiver)),
{
    receiver.try_recv().ok()
}

/// A subscription to a locker's changes.
pub struct EventStream {
    receiver: mpsc::Receiver<Event>,
}

impl EventStream {
    /// The end of the queue that this subscription reads.
    pub closed spec fn receiving_end(&self) -> mpsc::Receiver<Event> {
        self.receiver
    }

    /// Everything this subscription has handed out, oldest first.
    pub open spec fn seen(&self) -> Seq<News> {
        received(self.receiving_end())
    }

    /// Take the next event if one is already queued, without awaiting. Which
    /// one that is depends on what was sent and read before; whatever it is,
    /// it is handed out once, behind those handed out before.
    pub fn try_recv(&mut self) -> (event: Option<Event>)
        ensures
            final(self).seen() == match event {
                Some(e) => old(self).seen().push(e@),
                None => old(self).seen(),
            },
            event is Some ==> forall|w: Watchers, i: int| #[trigger]
                w.feeds(i, *final(self)) == w.feeds(i, *old(self)),
    {
        poll(&mut self.receiver)
    }

    /// The queue itself, for a caller that awaits it.
    pub fn into_receiver(self) -> (receiver: mpsc::Receiver<Event>)
        ensures
            receiver == self.receiving_end(),
    {
        self.receiver
    }
}

/// One subscriber: what it asked for, and how many events it missed.
struct Subscriber {
    sender: mpsc::Sender<Event>,
    filter: Option<Vec<Vec<u8>>>,
    skipped: u64,
}

/// What a subscriber asked for, how many events it missed since it was last
/// sent one, everything it was offered and what became of it, how many events
/// its queue has room for, and who reads what it is sent.
#[verifier::ext_equal]
pub struct Listener {
    pub filter: Option<Seq<Seq<u8>>>,
    pub skipped: u64,
    pub offers: Seq<(News, Fate)>,
    pub room: usize,
    pub readers: Set<mpsc::Receiver<Event>>,
}

/// Of some offers, what the queue took, in order.
pub open spec fn taken_of(offers: Seq<(News, Fate)>) -> Seq<News>
    decreases offers.len(),
{
    if offers.len() == 0 {
        Seq::empty()
    } else {
        let so_far = taken_of(offers.drop_last());
        if offers.last().1 is Taken {
            so_far.push(offers.last().0)
        } else {
            so_far
        }
    }
}

impl Listener {
    /// Everything it was sent, oldest first.
    pub open spec fn sent(self) -> Seq<News> {
        taken_of(self.offers)
    }
}

/// A subscriber that was offered nothing yet.
pub open spec fn newcomer(
    filter: Option<Seq<Seq<u8>>>,
    room: usize,
    readers: Set<mpsc::Receiver<Event>>,
) -> Listener {
    Listener { filter, skipped: 0, offers: Seq::empty(), room, readers }
}

/// Whether these may be the fates of the gap notice and of an event: a queue
/// that never took more than it has room for refuses neither for being full.
pub open spec fn may_befall(l: Listener, notice: Fate, event: Fate) -> bool {
    let taken = taken_of(l.offers).len();
    &&& l.skipped > 0 && taken <= l.room ==> notice !is Full
    &&& l.skipped == 0 && taken <= l.room ==> event !is Full
    &&& l.skipped > 0 && notice is Taken && taken + 1 <= l.room ==> event !is Full
}

/// The set of live subscribers for one locker.
pub struct Watchers {
    subscribers: Vec<Subscriber>,
    told: Ghost<Seq<News>>,
    gone: Ghost<Seq<Subscriber>>,
    joins: Ghost<nat>,
}

/// One more event missed.
pub open spec fn one_more(skipped: u64) -> u64 {
    if skipped < u64::MAX {
        (skipped + 1) as u64
    } else {
        skipped
    }
}

/// How many events a subscriber has missed once the gap notice and the event
/// met these fates; `None` where the subscriber is gone. The notice is sent
/// only where there is a gap, and the event only where the notice got through.
pub open spec fn missed(skipped: u64, notice: Fate, event: Fate) -> Option<u64> {
    if skipped > 0 && notice is Gone {
        None
    } else if skipped > 0 && notice is Full {
        Some(one_more(skipped))
    } else {
        match event {
            Fate::Taken => Some(0),
            Fate::Gone => None,
            Fate::Full => Some(1u64),
        }
    }
}

/// A subscriber once an event it asked for met these fates: offered the notice
/// of its gap, where it has one, and then the event, unless the notice did not
/// get through.
pub open spec fn delivered(l: Listener, news: News, notice: Fate, event: Fate) -> Listener {
    let told = if l.skipped > 0 {
        l.offers.push((News::Lagged { skipped: l.skipped }, notice))
    } else {
        l.offers
    };
    Listener {
        skipped: match missed(l.skipped, notice, event) {
            Some(skipped) => skipped,
            None => l.skipped,
        },
        offers: if l.skipped == 0 || notice is Taken {
            told.push((news, event))
        } else {
            told
        },
        ..l
    }
}

/// The subscribers left after an event met these fates.
pub open spec fn listeners_after(subs: Seq<Listener>, news: News, fates: Seq<(Fate, Fate)>) -> Seq<Listener>
    decreases subs.len(),
{
    if subs.len() == 0 {
        Seq::empty()
    } else {
        let so_far = listeners_after(subs.drop_last(), news, fates.drop_last());
        let l = subs.last();
        let (notice, event) = fates.last();
        if !news.passes(l.filter) {
            so_far.push(l)
        } else if missed(l.skipped, notice, event) is Some {
            so_far.push(delivered(l, news, notice, event))
        } else {
            so_far
        }
    }
}

/// The subscribers that turned out to be gone when an event met these fates.
pub open spec fn leavers(subs: Seq<Listener>, news: News, fates: Seq<(Fate, Fate)>) -> Seq<Listener>
    decreases subs.len(),
{
    if subs.len() == 0 {
        Seq::empty()
    } else {
        let so_far = leavers(subs.drop_last(), news, fates.drop_last());
        let l = subs.last();
        let (notice, event) = fates.last();
        if news.passes(l.filter) && missed(l.skipped, notice, event) is None {
            so_far.push(delivered(l, news, notice, event))
        } else {
            so_far
        }
    }
}

impl Subscriber {
    spec fn listens(self) -> Listener {
        Listener {
            filter: filter_view(self.filter),
            skipped: self.skipped,
            offers: offered(self.sender),
            room: room(self.sender),
            readers: Set::new(|r: mpsc::Receiver<Event>| joined(self.sender, r)),
        }
    }
}

/// What some subscribers are.
spec fn listening(subs: Seq<Subscriber>) -> Seq<Listener> {
    Seq::new(subs.len(), |i: int| subs[i].listens())
}

/// An event was told to everyone who asked for it: each was offered what it was
/// owed, whatever became of the offers, and only who turned out to be gone is
/// left out from now on.
pub open spec fn announced(before: Watchers, news: News, after: Watchers) -> bool {
    &&& after.history() == before.history().push(news)
    &&& after.roll() == before.roll()
    &&& exists|fates: Seq<(Fate, Fate)>|
        {
            &&& fates.len() == before.listeners().len()
            &&& forall|i: int|
                0 <= i < fates.len() && news.passes(before.listeners()[i].filter) ==> may_befall(
                    before.listeners()[i],
                    (#[trigger] fates[i]).0,
                    fates[i].1,
                )
            &&& after.listeners() == #[trigger] listeners_after(before.listeners(), news, fates)
            &&& after.departed() == before.departed() + leavers(before.listeners(), news, fates)
        }
}

/// A subscriber was added with a queue of a capacity, and `stream` reads what it
/// is sent.
pub open spec fn subscribed(
    before: Watchers,
    filter: Option<Seq<Seq<u8>>>,
    capacity: usize,
    stream: EventStream,
    after: Watchers,
) -> bool {
    &&& after.history() == before.history()
    &&& after.departed() == before.departed()
    &&& after.roll() == before.roll() + 1
    &&& stream.seen() == Seq::<News>::empty()
    &&& after.listeners().len() == before.listeners().len() + 1
    &&& after.listeners().drop_last() == before.listeners()
    &&& after.listeners().last() == newcomer(filter, capacity, after.listeners().last().readers)
    &&& after.listeners().last().readers.contains(stream.receiving_end())
}

/// Settle one delivery: given how many events were missed before and what
/// became of the gap notice and of the event, how many are missed now, or
/// `None` to drop the subscriber.
pub fn settle(skipped: u64, notice: Fate, event: Fate) -> (r: Option<u64>)
    ensures
        r == missed(skipped, notice, event),
{
    if skipped > 0 {
        match notice {
            Fate::Gone => return None,
            Fate::Full => return Some(skipped.saturating_add(1)),
            Fate::Taken => {},
        }
    }
    match event {
        Fate::Taken => Some(0),
        Fate::Gone => None,
        Fate::Full => Some(1),
    }
}

impl Watchers {
    /// The subscribers, oldest first.
    pub closed spec fn listeners(self) -> Seq<Listener> {
        listening(self.subscribers@)
    }

    /// Whether a stream reads what a subscriber is sent.
    pub closed spec fn feeds(self, i: int, stream: EventStream) -> bool {
        joined(self.subscribers@[i].sender, stream.receiver)
    }

    /// A stream is fed by the subscriber among whose readers it is.
    pub proof fn who_reads_is_fed(self, i: int, stream: EventStream)
        requires
            0 <= i < self.listeners().len(),
        ensures
            self.feeds(i, stream) == self.listeners()[i].readers.contains(stream.receiving_end()),
    {
    }

    /// Everything that was ever broadcast, oldest first.
    pub closed spec fn history(self) -> Seq<News> {
        self.told@
    }

    /// The subscribers that turned out to be gone, as they were left.
    pub closed spec fn departed(self) -> Seq<Listener> {
        listening(self.gone@)
    }

    /// How many ever subscribed.
    pub closed spec fn roll(self) -> nat {
        self.joins@
    }

    /// Nobody is listening yet.
    pub fn new() -> (w: Self)
        ensures
            w.listeners().len() == 0,
            w.history().len() == 0,
            w.departed().len() == 0,
            w.roll() == 0,
    {
        Watchers {
            subscribers: Vec::new(),
            told: Ghost(Seq::empty()),
            gone: Ghost(Seq::empty()),
            joins: Ghost(0),
        }
    }

    /// Add a subscriber with a queue of `capacity`.
    pub fn subscribe(&mut self, filter: Option<Vec<Vec<u8>>>, capacity: usize) -> (stream: EventStream)
        requires
            capacity < usize::MAX / 4,
        ensures
            subscribed(*old(self), filter_view(filter), capacity, stream, *final(self)),
    {
        let (sender, receiver) = queue(capacity);
        let ghost was = self.listeners();
        self.subscribers.push(Subscriber { sender, filter, skipped: 0 });
        self.joins = Ghost(self.joins@ + 1);
        assert(self.listeners().drop_last() =~= was);
        EventStream { receiver }
    }

    /// Deliver an event to every interested subscriber.
    ///
    /// Never blocks and never fails: a full queue records a skip, and a dropped
    /// receiver prunes the subscriber.
    pub fn broadcast(&mut self, event: &Event)
        ensures
            announced(*old(self), event@, *final(self)),
    {
        let ghost subs = self.listeners();
        let mut before: Vec<Subscriber> = Vec::new();
        core::mem::swap(&mut before, &mut self.subscribers);
        let ghost all = before@;
        let mut kept: Vec<Subscriber> = Vec::new();
        let ghost mut left: Seq<Subscriber> = Seq::empty();
        let ghost mut fates: Seq<(Fate, Fate)> = Seq::empty();
        assert(listening(kept@) =~= Seq::<Listener>::empty());
        assert(listening(left) =~= Seq::<Listener>::empty());
        for sub in it: before
            invariant
                it.seq() == all,
                subs.len() == all.len(),
                forall|i: int| 0 <= i < all.len() ==> subs[i] == (#[trigger] all[i]).listens(),
                fates.len() == it.index(),
                forall|i: int|
                    0 <= i < fates.len() && event@.passes(subs[i].filter) ==> may_befall(
                        subs[i],
                        (#[trigger] fates[i]).0,
                        fates[i].1,
                    ),
                listening(kept@) == listeners_after(subs.take(it.index() as int), event@, fates),
                listening(left) == leavers(subs.take(it.index() as int), event@, fates),
                self.told@ == old(self).told@,
                self.gone@ == old(self).gone@,
                self.joins@ == old(self).joins@,
        {
            let ghost n = it.index() as int;
            let ghost so_far = kept@;
            let ghost gone = left;
            assert(subs.take(n + 1).drop_last() =~= subs.take(n));
            assert(subs.take(n + 1).last() == all[n].listens());
            let mut sub = sub;
            let mut notice: Fate = Fate::Taken;
            let mut sent: Fate = Fate::Taken;
            if event.matches(&sub.filter) {
                let skipped_before: u64 = sub.skipped;
                // Tell them about any gap before the event that closes it.
                if sub.skipped > 0 {
                    notice = offer(&mut sub.sender, Event::Lagged { skipped: sub.skipped });
                    proof {
                        let was = offered(all[n].sender);
                        assert(offered(sub.sender).drop_last() =~= was);
                        assert(notice is Taken ==> taken_of(offered(sub.sender)).len() == taken_of(was).len() + 1);
                    }
                }
                let through: bool = match notice {
                    Fate::Taken => true,
                    _ => false,
                };
                if through {
                    sent = offer(&mut sub.sender, event.copied());
                }
                assert(sub.listens().readers =~= all[n].listens().readers);
                assert(may_befall(all[n].listens(), notice, sent));
                let ghost offered_all = sub;
                match settle(skipped_before, notice, sent) {
                    Some(skipped) => {
                        sub.skipped = skipped;
                        assert(sub.listens() =~= delivered(all[n].listens(), event@, notice, sent));
                        kept.push(sub);
                        assert(listening(kept@) =~= listening(so_far).push(sub.listens()));
                    },
                    None => {
                        proof {
                            assert(offered_all.listens() =~= delivered(all[n].listens(), event@, notice, sent));
                            left = left.push(offered_all);
                            assert(listening(left) =~= listening(gone).push(offered_all.listens()));
                        }
                    },
                }
            } else {
                kept.push(sub);
                assert(listening(kept@) =~= listening(so_far).push(all[n].listens()));
            }
            proof {
                let more = fates.push((notice, sent));
                assert(more.drop_last() =~= fates);
                fates = more;
            }
        }
        self.subscribers = kept;
        self.told = Ghost(self.told@.push(event@));
        self.gone = Ghost(self.gone@ + left);
        proof {
            assert(subs.take(subs.len() as int) =~= subs);
            assert(self.departed() =~= old(self).departed() + listening(left));
        }
    }

    /// How many subscribers there are.
    pub fn count(&self) -> (n: usize)
        ensures
            n == self.listeners().len(),
    {
        self.subscribers.len()
    }
}

/// Whoever asked for none of an event's keys is left exactly as it was.
pub proof fn the_uninterested_are_not_disturbed(subs: Seq<Listener>, news: News, fates: Seq<(Fate, Fate)>)
    requires
        fates.len() == subs.len(),
        forall|i: int| 0 <= i < subs.len() ==> !news.passes((#[trigger] subs[i]).filter),
    ensures
        listeners_after(subs, news, fates) == subs,
    decreases subs.len(),
{
    if subs.len() > 0 {
        assert forall|i: int| 0 <= i < subs.drop_last().len() implies !news.passes((#[trigger] subs.drop_last()[i]).filter) by {
            assert(subs.drop_last()[i] == subs[i]);
        }
        the_uninterested_are_not_disturbed(subs.drop_last(), news, fates.drop_last());
        assert(subs.last() == subs[subs.len() - 1]);
        assert(listeners_after(subs, news, fates) =~= subs);
    } else {
        assert(listeners_after(subs, news, fates) =~= subs);
    }
}

/// Whoever asked for an event is offered it: what a live subscriber was offered
/// grows with every event it asked for, by the notice of its gap, where it has
/// one, and by the event, unless the notice did not get through.
pub proof fn whoever_asked_is_offered(l: Listener, news: News, notice: Fate, event: Fate)
    ensures
        ({
            let now = delivered(l, news, notice, event);
            &&& l.skipped == 0 ==> now.offers == l.offers.push((news, event))
            &&& l.skipped > 0 ==> now.offers.take(l.offers.len() as int + 1) == l.offers.push(
                (News::Lagged { skipped: l.skipped }, notice),
            )
            &&& now.filter == l.filter
            &&& now.readers == l.readers
        }),
{
    let now = delivered(l, news, notice, event);
    if l.skipped > 0 {
        assert(now.offers.take(l.offers.len() as int + 1) =~= l.offers.push((News::Lagged { skipped: l.skipped }, notice)));
    }
}

/// A gap is forgotten only when the subscriber was told of it: while the queue
/// refuses the notice the count only grows and nothing is sent, and an event
/// that then gets through comes right behind the notice.
pub proof fn a_gap_is_reported_before_it_closes(l: Listener, news: News, notice: Fate, event: Fate)
    requires
        l.skipped > 0,
        missed(l.skipped, notice, event) is Some,
    ensures
        ({
            let now = delivered(l, news, notice, event);
            &&& notice is Taken || (now.skipped >= l.skipped && now.sent() == l.sent())
            &&& now.skipped == 0 ==> now.sent() == l.sent().push(News::Lagged { skipped: l.skipped }).push(news)
        }),
{
    reveal_with_fuel(taken_of, 3);
    let gap = (News::Lagged { skipped: l.skipped }, notice);
    let told = l.offers.push(gap);
    assert(told.drop_last() =~= l.offers);
    assert(told.push((news, event)).drop_last() =~= told);
}

/// While a queue has room its subscriber is sent every event it asked for,
/// once, in order.
pub proof fn who_keeps_up_is_sent_everything(l: Listener, news: News)
    requires
        l.skipped == 0,
    ensures
        ({
            let now = delivered(l, news, Fate::Taken, Fate::Taken);
            now.sent() == l.sent().push(news) && now.skipped == 0
        }),
{
    assert(l.offers.push((news, Fate::Taken)).drop_last() =~= l.offers);
}

/// While a queue never took more than it has room for, its subscriber misses
/// nothing for want of it.
pub proof fn who_has_room_misses_nothing(l: Listener, news: News, notice: Fate, event: Fate)
    requires
        l.skipped == 0,
        l.sent().len() <= l.room,
        may_befall(l, notice, event),
        missed(l.skipped, notice, event) is Some,
    ensures
        delivered(l, news, notice, event).skipped == 0,
        delivered(l, news, notice, event).sent() == l.sent().push(news),
{
    assert(l.offers.push((news, event)).drop_last() =~= l.offers);
}

/// A list of events was told, one after the other.
#[verifier::opaque]
pub open spec fn all_announced(before: Watchers, list: Seq<News>, after: Watchers) -> bool
    decreases list.len(),
{
    if list.len() == 0 {
        after == before
    } else {
        exists|mid: Watchers|
            all_announced(before, list.drop_last(), mid) && #[trigger] announced(mid, list.last(), after)
    }
}

/// Telling nothing changes nothing.
pub proof fn nothing_announced(w: Watchers)
    ensures
        all_announced(w, Seq::empty(), w),
{
    reveal(all_announced);
}

/// Nothing changed where nothing was told.
pub proof fn silence_changes_nothing(before: Watchers, after: Watchers)
    requires
        all_announced(before, Seq::empty(), after),
    ensures
        after == before,
{
    reveal(all_announced);
}

/// One more event told.
pub proof fn one_more_announced(before: Watchers, list: Seq<News>, mid: Watchers, news: News, after: Watchers)
    requires
        all_announced(before, list, mid),
        announced(mid, news, after),
    ensures
        all_announced(before, list.push(news), after),
{
    reveal(all_announced);
    let longer = list.push(news);
    assert(longer.drop_last() =~= list);
    assert(all_announced(before, longer.drop_last(), mid) && announced(mid, longer.last(), after));
}

/// One event told is a list of one.
pub proof fn one_announced(before: Watchers, news: News, after: Watchers)
    requires
        announced(before, news, after),
    ensures
        all_announced(before, seq![news], after),
{
    nothing_announced(before);
    one_more_announced(before, Seq::empty(), before, news, after);
    assert(Seq::<News>::empty().push(news) =~= seq![news]);
}

/// A list told up to one of its events, and then that event.
pub proof fn next_announced(before: Watchers, list: Seq<News>, i: int, mid: Watchers, after: Watchers)
    requires
        0 <= i < list.len(),
        all_announced(before, list.take(i), mid),
        announced(mid, list[i], after),
    ensures
        all_announced(before, list.take(i + 1), after),
{
    one_more_announced(before, list.take(i), mid, list[i], after);
    assert(list.take(i).push(list[i]) =~= list.take(i + 1));
}

/// Two lists told one after the other are one.
pub proof fn announced_in_turn(before: Watchers, a: Seq<News>, mid: Watchers, b: Seq<News>, after: Watchers)
    requires
        all_announced(before, a, mid),
        all_announced(mid, b, after),
    ensures
        all_announced(before, a + b, after),
    decreases b.len(),
{
    reveal(all_announced);
    if b.len() == 0 {
        assert(a + b =~= a);
    } else {
        let last = choose|last: Watchers|
            all_announced(mid, b.drop_last(), last) && #[trigger] announced(last, b.last(), after);
        announced_in_turn(before, a, mid, b.drop_last(), last);
        one_more_announced(before, a + b.drop_last(), last, b.last(), after);
        assert((a + b.drop_last()).push(b.last()) =~= a + b);
    }
}

/// What was told is what the history grew by, and nobody subscribed meanwhile.
pub proof fn telling_makes_history(before: Watchers, list: Seq<News>, after: Watchers)
    requires
        all_announced(before, list, after),
    ensures
        after.history() == before.history() + list,
        after.roll() == before.roll(),
    decreases list.len(),
{
    reveal(all_announced);
    if list.len() == 0 {
        assert(before.history() + list =~= before.history());
    } else {
        let mid = choose|mid: Watchers|
            all_announced(before, list.drop_last(), mid) && #[trigger] announced(mid, list.last(), after);
        telling_makes_history(before, list.drop_last(), mid);
        assert((before.history() + list.drop_last()).push(list.last()) =~= before.history() + list);
    }
}

} // verus!
