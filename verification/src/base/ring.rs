//! The event ring: one producer, one consumer, and drop-and-count when full.
//!
//! Watching a run must never slow it down. Pushing into a full ring drops the
//! event and counts the drop; it never blocks and never grows.
use crate::base::types::Event;
use std::sync::Arc;
use std::sync::atomic::{AtomicU64, Ordering};
use vstd::prelude::*;

verus! {

/// How many events a ring holds unless told otherwise.
pub const DEFAULT_CAPACITY: usize = 65_536;

/// No event takes more bytes than this in the ring.
pub const MAX_EVENT_BYTES: usize = 128;

/// The ring was full, and the event was dropped and counted.
#[derive(Debug, Clone, Copy, PartialEq, Eq, Structural)]
pub struct RingFull;

impl RingFull {
    /// The message of the error.
    pub fn to_string(&self) -> (r: String)
        ensures
            r@ == "event ring is full; event dropped"@,
    {
        "event ring is full; event dropped".to_owned()
    }
}

/// The writing half of a ring of the `rtrb` crate.
#[verifier::external_type_specification]
#[verifier::external_body]
#[verifier::reject_recursive_types(T)]
pub struct ExProducer<T>(rtrb::Producer<T>);

/// The reading half of a ring of the `rtrb` crate.
#[verifier::external_type_specification]
#[verifier::external_body]
#[verifier::reject_recursive_types(T)]
pub struct ExConsumer<T>(rtrb::Consumer<T>);

/// The events that a ring accepted from its producer so far, in order.
pub uninterp spec fn ring_accepted(p: rtrb::Producer<Event>) -> Seq<Event>;

/// How many events the producer's ring holds at most.
pub uninterp spec fn ring_slots(p: rtrb::Producer<Event>) -> nat;

/// How many events had been taken out of the ring when the producer last pushed.
pub uninterp spec fn ring_met(p: rtrb::Producer<Event>) -> nat;

/// How many events will have been taken out of the ring when the producer pushes
/// next.
pub uninterp spec fn ring_passed(p: rtrb::Producer<Event>) -> nat;

/// All the events that the producer's ring ever carries.
pub uninterp spec fn ring_stream(p: rtrb::Producer<Event>) -> Seq<Event>;

/// The events that the consumer took so far, in order.
pub uninterp spec fn ring_taken(c: rtrb::Consumer<Event>) -> Seq<Event>;

/// How many events the consumer's ring holds at most.
pub uninterp spec fn ring_depth(c: rtrb::Consumer<Event>) -> nat;

/// How many events had been put into the ring when the consumer last popped.
pub uninterp spec fn ring_known(c: rtrb::Consumer<Event>) -> nat;

/// How many events will have been put into the ring when the consumer pops next.
pub uninterp spec fn ring_filled(c: rtrb::Consumer<Event>) -> nat;

/// All the events that the consumer's ring ever carries.
pub uninterp spec fn ring_source(c: rtrb::Consumer<Event>) -> Seq<Event>;

/// `rtrb::RingBuffer::new`: an empty ring with room for `capacity` events. Both
/// halves belong to one ring, so they carry the same stream. The room is
/// allocated at once, which bounds the capacity.
#[verifier::external_body]
fn new_ring(capacity: usize) -> (r: (rtrb::Producer<Event>, rtrb::Consumer<Event>))
    requires
        capacity * MAX_EVENT_BYTES <= isize::MAX,
    ensures
        ring_accepted(r.0) == Seq::<Event>::empty(),
        ring_taken(r.1) == Seq::<Event>::empty(),
        ring_slots(r.0) == capacity,
        ring_depth(r.1) == capacity,
        ring_met(r.0) == 0,
        ring_passed(r.0) == 0,
        ring_known(r.1) == 0,
        ring_filled(r.1) <= capacity,
        ring_filled(r.1) <= ring_source(r.1).len(),
        ring_source(r.1) == ring_stream(r.0),
{
    rtrb::RingBuffer::new(capacity)
}

/// `rtrb::Producer::push`: appends the event when a slot is free, and hands it
/// back otherwise. The slots that are not free hold the accepted events that were
/// not taken yet. What is accepted goes into the ring's stream in order. What the
/// consumer has taken is never given back.
#[verifier::external_body]
fn push_into(p: &mut rtrb::Producer<Event>, event: Event) -> (r: Result<(), Event>)
    ensures
        ring_slots(*final(p)) == ring_slots(*old(p)),
        ring_stream(*final(p)) == ring_stream(*old(p)),
        ring_met(*final(p)) == ring_passed(*old(p)),
        ring_passed(*old(p)) <= ring_passed(*final(p)) <= ring_accepted(*final(p)).len(),
        ring_accepted(*final(p)).len() <= ring_passed(*final(p)) + ring_slots(*final(p)),
        ring_accepted(*final(p)).is_prefix_of(ring_stream(*final(p))),
        r is Ok <==> ring_accepted(*old(p)).len() < ring_passed(*old(p)) + ring_slots(*old(p)),
        match r {
            Ok(()) => ring_accepted(*final(p)) == ring_accepted(*old(p)).push(event),
            Err(back) => back == event && ring_accepted(*final(p)) == ring_accepted(*old(p)),
        },
{
    match p.push(event) {
        Ok(()) => Ok(()),
        Err(rtrb::PushError::Full(back)) => Err(back),
    }
}

/// `rtrb::Producer::slots`: how many slots are free. Only accepted events that
/// were not taken yet fill slots, and until the next push there can only be more
/// free slots.
#[verifier::external_body]
fn slots_free(p: &rtrb::Producer<Event>) -> (n: usize)
    ensures
        n <= ring_slots(*p),
        ring_slots(*p) + ring_met(*p) <= n + ring_accepted(*p).len(),
        n + ring_accepted(*p).len() <= ring_slots(*p) + ring_passed(*p),
{
    p.slots()
}

/// `rtrb::Consumer::pop`: takes the oldest event when more events were put in
/// than taken, and nothing otherwise. Events come out of the ring's stream in
/// order, each once. What the producer has put in stays in until it is taken.
#[verifier::external_body]
fn pop_from(c: &mut rtrb::Consumer<Event>) -> (r: Option<Event>)
    ensures
        ring_depth(*final(c)) == ring_depth(*old(c)),
        ring_source(*final(c)) == ring_source(*old(c)),
        ring_known(*final(c)) == ring_filled(*old(c)),
        ring_filled(*old(c)) <= ring_filled(*final(c)) <= ring_source(*final(c)).len(),
        ring_taken(*final(c)).len() <= ring_filled(*final(c)),
        ring_filled(*final(c)) <= ring_taken(*final(c)).len() + ring_depth(*final(c)),
        ring_taken(*final(c)).is_prefix_of(ring_source(*final(c))),
        r is Some <==> ring_taken(*old(c)).len() < ring_filled(*old(c)),
        match r {
            Some(event) => ring_taken(*final(c)) == ring_taken(*old(c)).push(event),
            None => ring_taken(*final(c)) == ring_taken(*old(c)),
        },
{
    c.pop().ok()
}

/// `rtrb::Consumer::slots`: how many events are waiting. They come next in the
/// ring's stream and all fit into the ring, and until the next pop there can only
/// be more.
#[verifier::external_body]
fn slots_waiting(c: &rtrb::Consumer<Event>) -> (n: usize)
    ensures
        n <= ring_depth(*c),
        ring_known(*c) <= ring_taken(*c).len() + n,
        ring_taken(*c).len() + n <= ring_filled(*c),
        ring_taken(*c).len() + n <= ring_source(*c).len(),
{
    c.slots()
}

/// The producing half of an event ring.
pub struct EventProducer {
    inner: rtrb::Producer<Event>,
    dropped: u64,
    shared: Arc<AtomicU64>,
}

/// The consuming half of an event ring.
pub struct EventConsumer {
    inner: rtrb::Consumer<Event>,
    shared: Arc<AtomicU64>,
}

impl EventProducer {
    /// The events accepted so far, in order.
    pub closed spec fn accepted(self) -> Seq<Event> {
        ring_accepted(self.inner)
    }

    /// How many events the ring holds at most.
    pub closed spec fn capacity(self) -> nat {
        ring_slots(self.inner)
    }

    /// All the events that the ring ever carries.
    pub closed spec fn stream(self) -> Seq<Event> {
        ring_stream(self.inner)
    }

    /// How many events had been taken when the producer last pushed.
    pub closed spec fn met(self) -> nat {
        ring_met(self.inner)
    }

    /// How many events will have been taken when the producer pushes next.
    pub closed spec fn passed(self) -> nat {
        ring_passed(self.inner)
    }

    /// How many slots the next push finds free.
    pub open spec fn free(self) -> int {
        self.capacity() + self.passed() - self.accepted().len()
    }

    /// What holds of every producer: what it accepted is what the ring carries
    /// first, only accepted events are taken, and those that are not taken fit into
    /// the ring.
    pub open spec fn sound(self) -> bool {
        &&& self.met() <= self.passed() <= self.accepted().len()
        &&& 0 <= self.free() <= self.capacity()
        &&& self.accepted().is_prefix_of(self.stream())
    }

    /// Whether `n` can be the number of free slots: at least those that were free
    /// once the consumer had taken what it had at the last push, and at most those
    /// that the next push finds.
    pub open spec fn shows_free(self, n: int) -> bool {
        &&& 0 <= n <= self.capacity()
        &&& self.capacity() + self.met() - self.accepted().len() <= n <= self.free()
    }

    /// How many events were dropped so far.
    pub closed spec fn drops(self) -> u64 {
        self.dropped
    }

    /// Pushes an event, or drops it and counts the drop when the ring is full.
    /// It never blocks.
    pub fn push(&mut self, event: Event) -> (r: Result<(), RingFull>)
        ensures
            final(self).capacity() == old(self).capacity(),
            final(self).stream() == old(self).stream(),
            final(self).sound(),
            final(self).met() == old(self).passed(),
            r is Ok <==> old(self).free() > 0,
            r is Ok ==> {
                &&& final(self).accepted() == old(self).accepted().push(event)
                &&& final(self).accepted().is_prefix_of(final(self).stream())
                &&& final(self).drops() == old(self).drops()
            },
            r is Err ==> {
                &&& final(self).accepted() == old(self).accepted()
                &&& final(self).drops() == old(self).drops().wrapping_add(1)
            },
    {
        match push_into(&mut self.inner, event) {
            Ok(()) => Ok(()),
            Err(_) => {
                self.dropped = self.dropped.wrapping_add(1);
                self.shared.store(self.dropped, Ordering::Relaxed);
                Err(RingFull)
            },
        }
    }

    /// How many events were dropped so far because the ring was full.
    pub fn dropped(&self) -> (n: u64)
        ensures
            n == self.drops(),
    {
        self.dropped
    }

    /// How many slots are free. The next push finds at least as many.
    pub fn free_slots(&self) -> (n: usize)
        ensures
            self.shows_free(n as int),
    {
        slots_free(&self.inner)
    }
}

impl EventConsumer {
    /// The events taken so far, in order.
    pub closed spec fn taken(self) -> Seq<Event> {
        ring_taken(self.inner)
    }

    /// How many events the ring holds at most.
    pub closed spec fn capacity(self) -> nat {
        ring_depth(self.inner)
    }

    /// All the events that the ring ever carries.
    pub closed spec fn stream(self) -> Seq<Event> {
        ring_source(self.inner)
    }

    /// How many events had been put in when the consumer last popped.
    pub closed spec fn known(self) -> nat {
        ring_known(self.inner)
    }

    /// How many events will have been put in when the consumer pops next.
    pub closed spec fn filled(self) -> nat {
        ring_filled(self.inner)
    }

    /// How many events the next pop finds waiting.
    pub open spec fn waiting(self) -> int {
        self.filled() - self.taken().len()
    }

    /// Whether `n` can be the number of waiting events: at least those that had been
    /// put in at the last pop, and at most those that the next pop finds.
    pub open spec fn shows_waiting(self, n: int) -> bool {
        &&& 0 <= n <= self.capacity()
        &&& self.known() - self.taken().len() <= n <= self.waiting()
        &&& self.taken().len() + n <= self.stream().len()
    }

    /// What holds of every consumer: what it took is what the ring carries first,
    /// and what waits fits into the ring and is part of its stream.
    pub open spec fn sound(self) -> bool {
        &&& 0 <= self.waiting() <= self.capacity()
        &&& self.known() <= self.filled() <= self.stream().len()
        &&& self.taken().is_prefix_of(self.stream())
    }

    /// Takes the oldest waiting event. How many are waiting is up to the
    /// producer, which may run on another thread.
    pub fn pop(&mut self) -> (r: Option<Event>)
        ensures
            final(self).capacity() == old(self).capacity(),
            final(self).stream() == old(self).stream(),
            final(self).sound(),
            final(self).known() == old(self).filled(),
            r is Some <==> old(self).waiting() > 0,
            match r {
                Some(event) => {
                    &&& final(self).taken() == old(self).taken().push(event)
                    &&& final(self).taken().is_prefix_of(final(self).stream())
                },
                None => final(self).taken() == old(self).taken(),
            },
    {
        pop_from(&mut self.inner)
    }

    /// How many events the producer dropped so far, as far as this side has
    /// seen. The count is the producer's, which may run on another thread.
    pub fn dropped(&self) -> u64 {
        self.shared.load(Ordering::Relaxed)
    }

    /// How many events are waiting. The next pop finds at least as many.
    pub fn pending(&self) -> (n: usize)
        ensures
            self.shows_waiting(n as int),
    {
        slots_waiting(&self.inner)
    }
}

/// Creates an event ring with `capacity` slots.
pub fn event_ring_with_capacity(capacity: usize) -> (r: (EventProducer, EventConsumer))
    requires
        capacity * MAX_EVENT_BYTES <= isize::MAX,
    ensures
        r.0.accepted() == Seq::<Event>::empty(),
        r.1.taken() == Seq::<Event>::empty(),
        r.0.capacity() == capacity,
        r.1.capacity() == capacity,
        r.0.sound(),
        r.1.sound(),
        r.1.known() == 0,
        r.1.stream() == r.0.stream(),
        r.0.drops() == 0,
{
    let (producer, consumer) = new_ring(capacity);
    let shared = Arc::new(AtomicU64::new(0));
    (
        EventProducer { inner: producer, dropped: 0, shared: shared.clone() },
        EventConsumer { inner: consumer, shared },
    )
}

/// Creates an event ring of the default capacity.
pub fn event_ring() -> (r: (EventProducer, EventConsumer))
    ensures
        r.0.accepted() == Seq::<Event>::empty(),
        r.1.taken() == Seq::<Event>::empty(),
        r.0.capacity() == DEFAULT_CAPACITY,
        r.1.capacity() == DEFAULT_CAPACITY,
        r.0.sound(),
        r.1.sound(),
        r.1.known() == 0,
        r.1.stream() == r.0.stream(),
        r.0.drops() == 0,
{
    event_ring_with_capacity(DEFAULT_CAPACITY)
}

/// A ring keeps order and invents nothing: at each position that the consumer
/// has reached and the producer has filled, both saw the same event.
pub proof fn rings_are_first_in_first_out(p: EventProducer, c: EventConsumer, i: int)
    requires
        p.stream() == c.stream(),
        p.accepted().is_prefix_of(p.stream()),
        c.taken().is_prefix_of(c.stream()),
        0 <= i < p.accepted().len(),
        i < c.taken().len(),
    ensures
        c.taken()[i] == p.accepted()[i],
{
    assert(p.stream()[i] == p.accepted()[i]);
    assert(c.stream()[i] == c.taken()[i]);
}

/// Whether both halves of a ring rest: neither pushes nor pops before the other
/// does next.
pub open spec fn at_rest(p: EventProducer, c: EventConsumer) -> bool {
    &&& p.capacity() == c.capacity()
    &&& p.passed() == c.taken().len()
    &&& c.filled() == p.accepted().len()
}

/// Every slot is either free or holds an event that is waiting. So a ring at rest
/// refuses an event only when all its slots hold one, and has nothing to take only
/// when all its slots are free.
pub proof fn slots_are_free_or_hold_an_event(p: EventProducer, c: EventConsumer)
    requires
        at_rest(p, c),
    ensures
        p.free() + c.waiting() == p.capacity(),
        p.free() == 0 <==> c.waiting() == c.capacity(),
        c.waiting() == 0 <==> p.free() == p.capacity(),
{
}

/// A push that finds the consumer idle fills one slot when it is accepted, and
/// changes nothing in the ring when it is refused.
pub proof fn a_push_fills_one_slot(before: EventProducer, event: Event, after: EventProducer)
    requires
        after.capacity() == before.capacity(),
        after.passed() == before.passed(),
        after.accepted() == (if before.free() > 0 {
            before.accepted().push(event)
        } else {
            before.accepted()
        }),
    ensures
        before.free() > 0 ==> after.free() == before.free() - 1 && after.accepted().last()
            == event,
        before.free() <= 0 ==> after.free() == before.free(),
{
}

/// The numbers of free slots and of waiting events add up to the capacity, where
/// neither half moved since the other last did.
pub proof fn free_and_pending_add_up(p: EventProducer, c: EventConsumer, free: int, pending: int)
    requires
        at_rest(p, c),
        p.met() == p.passed(),
        c.known() == c.filled(),
        p.shows_free(free),
        c.shows_waiting(pending),
    ensures
        free + pending == p.capacity(),
        free == p.free(),
        pending == c.waiting(),
{
}

/// The number of free slots tells what becomes of the next push: with a free slot it
/// is accepted, and without one it is refused unless the consumer moves first.
pub proof fn free_slots_foretell_a_push(p: EventProducer, free: int)
    requires
        p.sound(),
        p.shows_free(free),
    ensures
        free > 0 ==> p.free() > 0,
        p.met() == p.passed() ==> (free == 0 <==> p.free() == 0),
{
}

} // verus!
