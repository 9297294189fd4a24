//! Event fan-out: every subscriber gets its own copy of every event.
//!
//! Each subscriber has an unbounded queue, so publishing never waits for a slow
//! one.
use crate::base::types;
use crate::base::types::{Event, EventView};
use crossbeam_channel::{Receiver, Sender};
use vstd::prelude::*;

verus! {

/// The sending half of a channel of the `crossbeam-channel` crate.
#[verifier::external_type_specification]
#[verifier::external_body]
#[verifier::reject_recursive_types(T)]
pub struct ExSender<T>(Sender<T>);

/// The receiving half of a channel of the `crossbeam-channel` crate.
#[verifier::external_type_specification]
#[verifier::external_body]
#[verifier::reject_recursive_types(T)]
pub struct ExReceiver<T>(Receiver<T>);

/// The events that were put into a channel through this sender, in order.
pub uninterp spec fn bus_sent(tx: Sender<Event>) -> Seq<Event>;

/// Whether the receiver will still be there when this sender sends next.
pub uninterp spec fn bus_heard(tx: Sender<Event>) -> bool;

/// `crossbeam_channel::unbounded`: a channel through which nothing was sent yet.
#[verifier::external_body]
fn open_channel() -> (r: (Sender<Event>, Receiver<Event>))
    ensures
        bus_sent(r.0) == Seq::<Event>::empty(),
{
    crossbeam_channel::unbounded()
}

/// `crossbeam_channel::Sender::send` on an unbounded channel: puts the event at
/// the end of the queue while the receiver is there, and fails once it is gone. It
/// never waits, and a receiver that is gone does not come back.
#[verifier::external_body]
fn send_event(tx: &mut Sender<Event>, event: Event) -> (sent: bool)
    ensures
        sent == bus_heard(*old(tx)),
        bus_heard(*final(tx)) ==> bus_heard(*old(tx)),
        bus_sent(*final(tx)) == (if sent {
            bus_sent(*old(tx)).push(event)
        } else {
            bus_sent(*old(tx))
        }),
{
    tx.send(event).is_ok()
}

/// A fan-out to any number of subscribers.
pub struct EventBus {
    subscribers: Vec<Sender<Event>>,
}

/// What was sent to each subscriber.
pub open spec fn sent_views(subscribers: Seq<Sender<Event>>) -> Seq<Seq<EventView>> {
    Seq::new(subscribers.len(), |i: int| types::event_views(bus_sent(subscribers[i])))
}

/// Whether each subscriber's receiver will be there for the next event.
pub open spec fn heard_by(subscribers: Seq<Sender<Event>>) -> Seq<bool> {
    Seq::new(subscribers.len(), |i: int| bus_heard(subscribers[i]))
}

/// A bus as a mathematical value.
#[verifier::ext_equal]
pub struct BusData {
    /// The events sent to each subscriber, in order.
    pub sent: Seq<Seq<EventView>>,
    /// Whether each subscriber's receiver will be there for the next event.
    pub heard: Seq<bool>,
}

impl BusData {
    /// The bus without subscribers.
    pub open spec fn empty() -> BusData {
        BusData { sent: Seq::empty(), heard: Seq::empty() }
    }
}

/// Whether publishing `event` leads from `before` to `after`: whoever is still
/// there got it, and nobody else is left. Who will be there for the event after
/// that is open.
pub open spec fn delivers(before: BusData, event: EventView, after: BusData) -> bool {
    &&& after.sent == delivered(before.sent, before.heard, event, before.sent.len() as int)
    &&& after.heard.len() == after.sent.len()
}

/// What was sent to each subscriber that is left after an event: of the first
/// `k` subscribers those that are `alive` got it too, and the others are gone.
pub open spec fn delivered(
    histories: Seq<Seq<EventView>>,
    alive: Seq<bool>,
    event: EventView,
    k: int,
) -> Seq<Seq<EventView>>
    decreases k,
{
    if k <= 0 {
        Seq::empty()
    } else {
        let before = delivered(histories, alive, event, k - 1);
        if alive[k - 1] {
            before.push(histories[k - 1].push(event))
        } else {
            before
        }
    }
}

/// What was sent to each subscriber once those whose queue took it got an event.
pub open spec fn queued(
    histories: Seq<Seq<EventView>>,
    taken: Seq<bool>,
    event: EventView,
) -> Seq<Seq<EventView>> {
    Seq::new(
        histories.len(),
        |i: int|
            if taken[i] {
                histories[i].push(event)
            } else {
                histories[i]
            },
    )
}

/// Of the first `k` elements, those that are marked.
pub open spec fn kept<T>(s: Seq<T>, marked: Seq<bool>, k: int) -> Seq<T>
    decreases k,
{
    if k <= 0 {
        Seq::empty()
    } else if marked[k - 1] {
        kept(s, marked, k - 1).push(s[k - 1])
    } else {
        kept(s, marked, k - 1)
    }
}

impl View for EventBus {
    type V = BusData;

    closed spec fn view(&self) -> BusData {
        BusData { sent: sent_views(self.subscribers@), heard: heard_by(self.subscribers@) }
    }
}

impl EventBus {
    /// A bus without subscribers.
    pub fn new() -> (bus: EventBus)
        ensures
            bus@ == BusData::empty(),
    {
        let bus = EventBus { subscribers: Vec::new() };
        assert(bus@ =~= BusData::empty());
        bus
    }

    /// Adds a subscriber, which gets every event published from now on.
    pub fn subscribe(&mut self) -> (rx: Receiver<Event>)
        ensures
            final(self)@.sent == old(self)@.sent.push(Seq::<EventView>::empty()),
            final(self)@.heard.len() == final(self)@.sent.len(),
            final(self)@.heard.drop_last() == old(self)@.heard,
    {
        let ghost before = self@;
        let (tx, rx) = open_channel();
        assert(types::event_views(bus_sent(tx)) =~= Seq::<EventView>::empty());
        self.subscribers.push(tx);
        assert(self@.sent =~= before.sent.push(Seq::<EventView>::empty()));
        assert(self@.heard.drop_last() =~= before.heard);
        rx
    }

    /// Puts a copy of `event` into the queue of every subscriber and returns whose
    /// queue took it. Whether a receiver is still there is up to its owner.
    fn send_to_all(&mut self, event: &Event) -> (taken: Vec<bool>)
        ensures
            taken@ == old(self)@.heard,
            taken@.len() == old(self)@.sent.len(),
            final(self)@.sent == queued(old(self)@.sent, taken@, event@),
    {
        let ghost start = self@.sent;
        let ghost senders = self.subscribers@;
        let mut waiting: Vec<Sender<Event>> = Vec::new();
        std::mem::swap(&mut waiting, &mut self.subscribers);
        let mut taken: Vec<bool> = Vec::new();
        let total: usize = waiting.len();
        let mut k: usize = 0;
        while k < total
            invariant
                k <= total,
                total == senders.len(),
                start == sent_views(senders),
                waiting@ == senders.skip(k as int),
                taken@ == heard_by(senders).take(k as int),
                sent_views(self.subscribers@) == queued(start.take(k as int), taken@, event@),
            decreases total - k,
        {
            let mut tx = waiting.remove(0);
            assert(tx == senders[k as int]);
            assert(waiting@ =~= senders.skip(k + 1));
            let ghost history = bus_sent(tx);
            let ghost before = sent_views(self.subscribers@);
            let copy = event.clone();
            let ghost copied = copy;
            let sent: bool = send_event(&mut tx, copy);
            assert(types::event_views(history.push(copied)) =~= types::event_views(history).push(
                event@,
            ));
            self.subscribers.push(tx);
            taken.push(sent);
            assert(taken@ =~= heard_by(senders).take(k + 1));
            assert(sent_views(self.subscribers@) =~= before.push(
                queued(start, taken@, event@)[k as int],
            ));
            k = k + 1;
            assert(sent_views(self.subscribers@) =~= queued(start.take(k as int), taken@, event@));
        }
        assert(start.take(total as int) =~= start);
        assert(heard_by(senders).take(total as int) =~= heard_by(senders));
        taken
    }

    /// Drops the subscribers whose queue did not take the last event.
    pub fn prune(&mut self, taken: &Vec<bool>)
        requires
            taken@.len() == old(self)@.sent.len(),
        ensures
            final(self)@.sent == kept(old(self)@.sent, taken@, taken@.len() as int),
            final(self)@.heard == kept(old(self)@.heard, taken@, taken@.len() as int),
            final(self)@.heard.len() == final(self)@.sent.len(),
    {
        let ghost start = self@.sent;
        let ghost senders = self.subscribers@;
        let mut waiting: Vec<Sender<Event>> = Vec::new();
        std::mem::swap(&mut waiting, &mut self.subscribers);
        let total: usize = waiting.len();
        let mut k: usize = 0;
        assert(sent_views(self.subscribers@) =~= kept(start, taken@, 0));
        assert(heard_by(self.subscribers@) =~= kept(heard_by(senders), taken@, 0));
        while k < total
            invariant
                k <= total == taken@.len(),
                total == senders.len(),
                start == sent_views(senders),
                waiting@ == senders.skip(k as int),
                sent_views(self.subscribers@) == kept(start, taken@, k as int),
                heard_by(self.subscribers@) == kept(heard_by(senders), taken@, k as int),
            decreases total - k,
        {
            let tx = waiting.remove(0);
            assert(tx == senders[k as int]);
            assert(waiting@ =~= senders.skip(k + 1));
            let ghost before = sent_views(self.subscribers@);
            if taken[k] {
                let ghost ears = heard_by(self.subscribers@);
                self.subscribers.push(tx);
                assert(heard_by(self.subscribers@) =~= ears.push(heard_by(senders)[k as int]));
                assert(sent_views(self.subscribers@) =~= before.push(start[k as int]));
            }
            k = k + 1;
        }
    }

    /// Sends a copy of `event` to every subscriber and drops those whose
    /// receiver is gone. Returns how many got it.
    pub fn publish(&mut self, event: &Event) -> (n: usize)
        ensures
            n == final(self)@.sent.len(),
            delivers(old(self)@, event@, final(self)@),
    {
        let ghost start = self@.sent;
        let taken = self.send_to_all(event);
        self.prune(&taken);
        proof {
            lemma_kept_is_delivered(start, taken@, event@, start.len() as int);
        }
        self.subscribers.len()
    }

    /// How many subscribers there are. One whose receiver is gone counts until
    /// the next event is published.
    pub fn subscriber_count(&self) -> (n: usize)
        ensures
            n == self@.sent.len(),
    {
        self.subscribers.len()
    }
}

proof fn lemma_kept_is_delivered(
    histories: Seq<Seq<EventView>>,
    alive: Seq<bool>,
    event: EventView,
    k: int,
)
    requires
        0 <= k <= histories.len(),
        alive.len() == histories.len(),
    ensures
        kept(queued(histories, alive, event), alive, k) == delivered(histories, alive, event, k),
    decreases k,
{
    if k > 0 {
        lemma_kept_is_delivered(histories, alive, event, k - 1);
    }
}

impl Default for EventBus {
    fn default() -> (bus: EventBus)
        ensures
            bus@ == BusData::empty(),
    {
        EventBus::new()
    }
}

proof fn lemma_delivered_to(
    histories: Seq<Seq<EventView>>,
    alive: Seq<bool>,
    event: EventView,
    k: int,
    j: int,
)
    requires
        0 <= k <= histories.len(),
        alive.len() == histories.len(),
        0 <= j < delivered(histories, alive, event, k).len(),
    ensures
        exists|i: int|
            0 <= i < k && alive[i] && delivered(histories, alive, event, k)[j] == (
            #[trigger] histories[i]).push(event),
    decreases k,
{
    if k > 0 {
        let before = delivered(histories, alive, event, k - 1);
        if j < before.len() {
            lemma_delivered_to(histories, alive, event, k - 1, j);
        } else {
            assert(delivered(histories, alive, event, k)[j] == histories[k - 1].push(event));
        }
    }
}

/// Whoever is still subscribed after an event got it, right behind all the
/// events it got before; and while every subscriber is alive, none is lost.
pub proof fn subscribers_get_every_event(
    histories: Seq<Seq<EventView>>,
    alive: Seq<bool>,
    event: EventView,
    j: int,
)
    requires
        alive.len() == histories.len(),
        0 <= j < delivered(histories, alive, event, histories.len() as int).len(),
    ensures
        exists|i: int|
            0 <= i < histories.len() && alive[i] && delivered(
                histories,
                alive,
                event,
                histories.len() as int,
            )[j] == (#[trigger] histories[i]).push(event),
        (forall|i: int| 0 <= i < alive.len() ==> alive[i]) ==> delivered(
            histories,
            alive,
            event,
            histories.len() as int,
        ).len() == histories.len(),
{
    lemma_delivered_to(histories, alive, event, histories.len() as int, j);
    if forall|i: int| 0 <= i < alive.len() ==> alive[i] {
        lemma_all_alive(histories, alive, event, histories.len() as int);
    }
}

proof fn lemma_all_alive(
    histories: Seq<Seq<EventView>>,
    alive: Seq<bool>,
    event: EventView,
    k: int,
)
    requires
        0 <= k <= alive.len(),
        forall|i: int| 0 <= i < alive.len() ==> alive[i],
    ensures
        delivered(histories, alive, event, k).len() == k,
    decreases k,
{
    if k > 0 {
        lemma_all_alive(histories, alive, event, k - 1);
    }
}

/// How many of the first `k` are marked.
pub open spec fn marked_before(marked: Seq<bool>, k: int) -> nat
    decreases k,
{
    if k <= 0 {
        0
    } else if marked[k - 1] {
        marked_before(marked, k - 1) + 1
    } else {
        marked_before(marked, k - 1)
    }
}

/// Publishing reaches every subscriber that is there, and nobody else stays: as many
/// subscribers are left as were there, in their order, and each has what it had and then
/// the event.
pub proof fn events_reach_everybody_there(
    histories: Seq<Seq<EventView>>,
    alive: Seq<bool>,
    event: EventView,
    k: int,
    i: int,
)
    requires
        0 <= i < k <= histories.len(),
        alive.len() == histories.len(),
    ensures
        delivered(histories, alive, event, k).len() == marked_before(alive, k),
        alive[i] ==> marked_before(alive, i) < marked_before(alive, k) && delivered(
            histories,
            alive,
            event,
            k,
        )[marked_before(alive, i) as int] == histories[i].push(event),
    decreases k,
{
    if i < k - 1 {
        events_reach_everybody_there(histories, alive, event, k - 1, i);
    } else {
        lemma_delivered_len(histories, alive, event, k - 1);
    }
}

proof fn lemma_delivered_len(
    histories: Seq<Seq<EventView>>,
    alive: Seq<bool>,
    event: EventView,
    k: int,
)
    ensures
        delivered(histories, alive, event, k).len() == marked_before(alive, k),
    decreases k,
{
    if k > 0 {
        lemma_delivered_len(histories, alive, event, k - 1);
    }
}

/// Pruning keeps exactly the marked subscribers, in their order.
pub proof fn pruning_keeps_the_marked<T>(s: Seq<T>, marked: Seq<bool>, k: int, i: int)
    requires
        0 <= i < k <= s.len(),
        marked.len() == s.len(),
    ensures
        kept(s, marked, k).len() == marked_before(marked, k),
        marked[i] ==> marked_before(marked, i) < marked_before(marked, k) && kept(s, marked, k)[
            marked_before(marked, i) as int
        ] == s[i],
    decreases k,
{
    if i < k - 1 {
        pruning_keeps_the_marked(s, marked, k - 1, i);
    } else {
        lemma_kept_len(s, marked, k - 1);
    }
}

proof fn lemma_kept_len<T>(s: Seq<T>, marked: Seq<bool>, k: int)
    ensures
        kept(s, marked, k).len() == marked_before(marked, k),
    decreases k,
{
    if k > 0 {
        lemma_kept_len(s, marked, k - 1);
    }
}

} // verus!
