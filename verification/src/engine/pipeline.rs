//! The processing pipeline: events go to observers and through processors.
use crate::base::bus;
use crate::base::bus::EventBus;
use crate::base::queue;
use crate::base::queue::Offer;
use crate::base::ring::EventConsumer;
use crate::base::types::{Event, EventView};
use crate::engine::processor;
use crate::engine::processor::{DerivedMetric, DerivedView, Processor};
use crossbeam_channel::{Receiver, Sender, TrySendError};
use vstd::prelude::*;

verus! {

/// How many derived values wait for a reader unless told otherwise.
pub const DEFAULT_DERIVED_CAPACITY: usize = 16_384;

/// How long the pipeline rests when no event is waiting, in microseconds.
pub const POLL_INTERVAL: u64 = 200;

/// No derived value takes more bytes than this in its queue.
pub const MAX_DERIVED_BYTES: usize = 128;

/// What a pipeline has done.
#[derive(Debug, Clone, Copy, PartialEq, Eq, Structural)]
pub struct PipelineStats {
    /// Events taken from the ring and processed.
    pub events_processed: u64,
    /// Derived values handed to the reader.
    pub derived_emitted: u64,
    /// Derived values dropped because the reader was behind or gone.
    pub derived_dropped: u64,
}

impl Default for PipelineStats {
    fn default() -> (s: PipelineStats)
        ensures
            s.events_processed == 0,
            s.derived_emitted == 0,
            s.derived_dropped == 0,
    {
        PipelineStats { events_processed: 0, derived_emitted: 0, derived_dropped: 0 }
    }
}

/// The derived values that were put into a queue through this sender, in order.
pub uninterp spec fn derived_sent(tx: Sender<DerivedMetric>) -> Seq<DerivedMetric>;

/// How many derived values this sender's queue holds at most.
pub uninterp spec fn derived_room(tx: Sender<DerivedMetric>) -> nat;

/// Whether the reader will still be there when this sender is next offered a
/// value.
pub uninterp spec fn derived_heard(tx: Sender<DerivedMetric>) -> bool;

/// How many derived values will have been read out of the queue when this sender is
/// next offered one. In a queue without room a reader that stands waiting counts as
/// having read, because a value is handed to it directly.
pub uninterp spec fn derived_read(tx: Sender<DerivedMetric>) -> nat;

/// `crossbeam_channel::bounded`: a queue of `capacity` derived values into which
/// nothing was put yet. Its room is allocated at once, which bounds the capacity.
#[verifier::external_body]
fn open_derived(capacity: usize) -> (r: (Sender<DerivedMetric>, Receiver<DerivedMetric>))
    requires
        capacity * MAX_DERIVED_BYTES <= isize::MAX,
    ensures
        derived_sent(r.0) == Seq::<DerivedMetric>::empty(),
        derived_room(r.0) == capacity,
        capacity > 0 ==> derived_read(r.0) == 0,
{
    crossbeam_channel::bounded(capacity)
}

/// `crossbeam_channel::Sender::try_send`: puts the value at the end of the
/// queue, or leaves the queue as it is when it is full or the reader is gone. It
/// never waits. A queue has one sender here, so what this sender put in and nobody
/// read fills it. What was read stays read, and a reader that is gone does not come
/// back.
#[verifier::external_body]
fn offer_derived(tx: &mut Sender<DerivedMetric>, derived: DerivedMetric) -> (answer: Offer)
    ensures
        derived_room(*final(tx)) == derived_room(*old(tx)),
        answer == Offer::Gone <==> !derived_heard(*old(tx)),
        derived_heard(*final(tx)) ==> derived_heard(*old(tx)),
        answer == Offer::Taken <==> derived_heard(*old(tx)) && derived_sent(*old(tx)).len()
            < derived_read(*old(tx)) + derived_room(*old(tx)),
        derived_read(*old(tx)) <= derived_read(*final(tx)),
        derived_room(*old(tx)) > 0 ==> derived_read(*final(tx)) <= derived_sent(*final(tx)).len(),
        derived_sent(*final(tx)).len() <= derived_read(*final(tx)) + derived_room(*final(tx)),
        derived_sent(*final(tx)) == (if answer == Offer::Taken {
            derived_sent(*old(tx)).push(derived)
        } else {
            derived_sent(*old(tx))
        }),
{
    match tx.try_send(derived) {
        Ok(()) => Offer::Taken,
        Err(TrySendError::Full(_)) => Offer::Full,
        Err(TrySendError::Disconnected(_)) => Offer::Gone,
    }
}

/// Where derived values go, and the count of what was done.
pub struct DerivedOut {
    tx: Sender<DerivedMetric>,
    stats: PipelineStats,
}

/// Derived output as a mathematical value.
#[verifier::ext_equal]
pub struct DerivedData {
    pub sent: Seq<DerivedView>,
    /// How many of them can wait at most.
    pub capacity: nat,
    /// Whether the reader will be there for the next value.
    pub heard: bool,
    /// How many values the reader will have read when the next one comes.
    pub read: nat,
    pub stats: PipelineStats,
}

impl View for DerivedOut {
    type V = DerivedData;

    closed spec fn view(&self) -> DerivedData {
        DerivedData {
            sent: processor::derived_views(derived_sent(self.tx)),
            capacity: derived_room(self.tx),
            heard: derived_heard(self.tx),
            read: derived_read(self.tx),
            stats: self.stats,
        }
    }
}

/// Whether the next derived value is handed on: the reader is there, and fewer values
/// wait than can.
pub open spec fn takes(d: DerivedData) -> bool {
    d.heard && d.sent.len() < d.read + d.capacity
}

/// Whether offering a derived value leads from `before` to `after`.
///
/// The value is handed on while the reader is there and has left room for it;
/// otherwise it is dropped. Both are counted. How far the reader gets until the next
/// value is open.
pub open spec fn emitted(before: DerivedData, derived: DerivedView, after: DerivedData) -> bool {
    &&& after.capacity == before.capacity
    &&& after.heard ==> before.heard
    &&& before.read <= after.read
    &&& after.capacity > 0 ==> after.read <= after.sent.len()
    &&& after.sent.len() <= after.read + after.capacity
    &&& if takes(before) {
        after.sent == before.sent.push(derived) && after.stats == (PipelineStats {
            derived_emitted: queue::one_more(before.stats.derived_emitted),
            ..before.stats
        })
    } else {
        after.sent == before.sent && after.stats == (PipelineStats {
            derived_dropped: queue::one_more(before.stats.derived_dropped),
            ..before.stats
        })
    }
}

/// Whether `trace` holds the states of the output from before the first derived
/// value to after the last.
pub open spec fn all_emitted(trace: Seq<DerivedData>, derived: Seq<DerivedView>) -> bool {
    &&& trace.len() == derived.len() + 1
    &&& forall|i: int|
        0 <= i < derived.len() ==> #[trigger] emitted(trace[i], derived[i], trace[i + 1])
}

/// Whether handing on `derived` in order leads from `before` to `after`.
pub open spec fn emits(before: DerivedData, derived: Seq<DerivedView>, after: DerivedData) -> bool {
    exists|trace: Seq<DerivedData>| #[trigger]
        all_emitted(trace, derived) && trace[0] == before && trace.last() == after
}

impl DerivedOut {
    /// Opens the output; the receiver goes to the reader.
    pub fn open(capacity: usize) -> (r: (DerivedOut, Receiver<DerivedMetric>))
        requires
            capacity * MAX_DERIVED_BYTES <= isize::MAX,
        ensures
            r.0@.sent == Seq::<DerivedView>::empty(),
            r.0@.capacity == capacity,
            capacity > 0 ==> r.0@.read == 0,
            r.0@.stats.events_processed == 0,
            r.0@.stats.derived_emitted == 0,
            r.0@.stats.derived_dropped == 0,
    {
        let (tx, rx) = open_derived(capacity);
        assert(processor::derived_views(derived_sent(tx)) =~= Seq::<DerivedView>::empty());
        (DerivedOut { tx, stats: PipelineStats::default() }, rx)
    }

    /// What was done so far.
    pub fn stats(&self) -> (s: PipelineStats)
        ensures
            s == self@.stats,
    {
        self.stats
    }

    /// Counts one processed event.
    pub fn count_event(&mut self)
        ensures
            final(self)@ == (DerivedData {
                stats: PipelineStats {
                    events_processed: queue::one_more(old(self)@.stats.events_processed),
                    ..old(self)@.stats
                },
                ..old(self)@
            }),
    {
        self.stats.events_processed = self.stats.events_processed.saturating_add(1);
    }

    /// Counts a derived value that was handed on, or dropped.
    pub fn count_offer(&mut self, answer: Offer)
        ensures
            final(self)@ == (DerivedData {
                stats: if answer == Offer::Taken {
                    PipelineStats {
                        derived_emitted: queue::one_more(old(self)@.stats.derived_emitted),
                        ..old(self)@.stats
                    }
                } else {
                    PipelineStats {
                        derived_dropped: queue::one_more(old(self)@.stats.derived_dropped),
                        ..old(self)@.stats
                    }
                },
                ..old(self)@
            }),
    {
        if answer == Offer::Taken {
            self.stats.derived_emitted = self.stats.derived_emitted.saturating_add(1);
        } else {
            self.stats.derived_dropped = self.stats.derived_dropped.saturating_add(1);
        }
    }

    /// Hands derived values to the reader in order. A value that is not taken
    /// is dropped and counted.
    pub fn emit_all(&mut self, derived: Vec<DerivedMetric>)
        ensures
            emits(old(self)@, processor::derived_views(derived@), final(self)@),
    {
        let ghost all = processor::derived_views(derived@);
        let ghost items = derived@;
        let mut rest: Vec<DerivedMetric> = derived;
        let total: usize = rest.len();
        let ghost mut trace: Seq<DerivedData> = seq![self@];
        let mut k: usize = 0;
        assert(all.take(0) =~= Seq::<DerivedView>::empty());
        while k < total
            invariant
                k <= total,
                total == items.len(),
                all == processor::derived_views(items),
                rest@ == items.skip(k as int),
                all_emitted(trace, all.take(k as int)),
                trace[0] == old(self)@,
                trace.last() == self@,
            decreases total - k,
        {
            let ghost before = self@;
            let ghost history = derived_sent(self.tx);
            let item = rest.remove(0);
            assert(item == items[k as int]);
            assert(rest@ =~= items.skip(k + 1));
            let answer: Offer = offer_derived(&mut self.tx, item);
            self.count_offer(answer);
            proof {
                assert(processor::derived_views(history.push(item))
                    =~= processor::derived_views(history).push(all[k as int]));
                assert(emitted(before, all[k as int], self@));
                lemma_emit_one(trace, all.take(k as int), all[k as int], self@);
                trace = trace.push(self@);
                assert(all.take(k + 1) =~= all.take(k as int).push(all[k as int]));
            }
            k = k + 1;
        }
        assert(all.take(total as int) =~= all);
    }
}

/// Handing on one derived value more.
proof fn lemma_emit_one(
    trace: Seq<DerivedData>,
    derived: Seq<DerivedView>,
    more: DerivedView,
    after: DerivedData,
)
    requires
        all_emitted(trace, derived),
        emitted(trace.last(), more, after),
    ensures
        all_emitted(trace.push(after), derived.push(more)),
{
    let longer = trace.push(after);
    assert forall|i: int| 0 <= i < derived.len() + 1 implies #[trigger] emitted(
        longer[i],
        derived.push(more)[i],
        longer[i + 1],
    ) by {
        if i < derived.len() {
            assert(emitted(trace[i], derived[i], trace[i + 1]));
        }
    }
}

/// Handing on some derived values and then others is handing on all of them.
proof fn lemma_emit_more(
    before: DerivedData,
    a: Seq<DerivedView>,
    middle: DerivedData,
    b: Seq<DerivedView>,
    after: DerivedData,
)
    requires
        emits(before, a, middle),
        emits(middle, b, after),
    ensures
        emits(before, a + b, after),
{
    let s = choose|trace: Seq<DerivedData>| #[trigger]
        all_emitted(trace, a) && trace[0] == before && trace.last() == middle;
    let t = choose|trace: Seq<DerivedData>| #[trigger]
        all_emitted(trace, b) && trace[0] == middle && trace.last() == after;
    let both = s + t.skip(1);
    assert forall|i: int| 0 <= i < (a + b).len() implies #[trigger] emitted(
        both[i],
        (a + b)[i],
        both[i + 1],
    ) by {
        if i < a.len() {
            assert(emitted(s[i], a[i], s[i + 1]));
        } else {
            let j = i - a.len();
            assert(emitted(t[j], b[j], t[j + 1]));
        }
    }
    assert(all_emitted(both, a + b));
}

/// How a turn of the pipeline ended.
#[derive(Debug, Clone, Copy, PartialEq, Eq, Structural)]
pub enum Turn {
    /// A stop was asked for: end now.
    Stopped,
    /// No event was waiting: rest a little.
    Idle,
    /// An event was processed.
    Processed,
    /// The event that ends a run was processed: end.
    Finished,
}

/// Whether each processor can take an event.
pub open spec fn all_ready<P: Processor>(processors: Seq<P>) -> bool {
    forall|i: int| 0 <= i < processors.len() ==> (#[trigger] processors[i]).ready()
}

/// Whether the first `k` processors, given an event, can each come to where they
/// are now and derive what `outs` holds of them.
pub open spec fn all_give<P: Processor>(
    before: Seq<P>,
    event: EventView,
    after: Seq<P>,
    outs: Seq<Seq<DerivedView>>,
    k: int,
) -> bool {
    forall|i: int| 0 <= i < k ==> (#[trigger] before[i]).gives(event, &after[i], outs[i])
}

/// Whether running the processors on `event` can lead to where they are now, with
/// everything they derived handed on in order.
pub open spec fn derives<P: Processor>(
    event: EventView,
    before: Seq<P>,
    out_before: DerivedData,
    after: Seq<P>,
    out_after: DerivedData,
) -> bool {
    exists|outs: Seq<Seq<DerivedView>>|
        {
            &&& outs.len() == before.len()
            &&& #[trigger] all_give(before, event, after, outs, outs.len() as int)
            &&& emits(counted(out_before), queue::joined(outs, outs.len() as int), out_after)
        }
}

/// How a turn that took `event` ends.
pub fn ended_by(event: &Event) -> (r: Turn)
    ensures
        r == (if event is RunFinished {
            Turn::Finished
        } else {
            Turn::Processed
        }),
{
    match event {
        Event::RunFinished { .. } => Turn::Finished,
        _ => Turn::Processed,
    }
}

/// Publishes an event, runs every processor on it, and hands on what they
/// derive.
pub fn process<P: Processor>(
    event: &Event,
    processors: &mut Vec<P>,
    bus: &mut EventBus,
    out: &mut DerivedOut,
)
    requires
        all_ready(old(processors)@),
    ensures
        all_ready(final(processors)@),
        final(processors)@.len() == old(processors)@.len(),
        bus::delivers(old(bus)@, event@, final(bus)@),
        derives(event@, old(processors)@, old(out)@, final(processors)@, final(out)@),
{
    let _ = bus.publish(event);
    out.count_event();
    let ghost start = out@;
    let ghost mut derived: Seq<DerivedView> = Seq::empty();
    let ghost mut outs: Seq<Seq<DerivedView>> = Seq::empty();
    let ghost n = processors@.len();
    let ghost initial = processors@;
    let mut i: usize = 0;
    assert(emits(start, derived, start)) by {
        assert(all_emitted(seq![start], derived));
    }
    while i < processors.len()
        invariant
            i <= processors@.len() == n,
            all_ready(processors@),
            initial.len() == n,
            forall|k: int| i <= k < n ==> processors@[k] == initial[k],
            outs.len() == i,
            derived == queue::joined(outs, i as int),
            all_give(initial, event@, processors@, outs, i as int),
            emits(start, derived, out@),
        decreases processors@.len() - i,
    {
        let ghost before = out@;
        let ghost procs = processors@;
        let items = processors[i].on_event(event);
        assert(processors@ == procs.update(i as int, processors@[i as int]));
        let ghost views = processor::derived_views(items@);
        out.emit_all(items);
        proof {
            lemma_emit_more(start, derived, before, views, out@);
            derived = derived + views;
            let outs_before = outs;
            outs = outs_before.push(views);
            queue::lemma_joined_prefix(outs_before, outs, i as int);
            assert forall|k: int| 0 <= k < i + 1 implies (#[trigger] initial[k]).gives(
                event@,
                &processors@[k],
                outs[k],
            ) by {
                if k < i {
                    assert(initial[k].gives(event@, &procs[k], outs_before[k]));
                }
            }
        }
        i = i + 1;
    }
    assert(all_give(initial, event@, processors@, outs, outs.len() as int));
}

/// One turn of the pipeline: takes the next event and processes it.
///
/// A stop is looked at first, so that it is honoured within one turn however
/// fast events come in. Whether an event is waiting is up to the producer.
pub fn turn<P: Processor>(
    stop: bool,
    consumer: &mut EventConsumer,
    processors: &mut Vec<P>,
    bus: &mut EventBus,
    out: &mut DerivedOut,
) -> (r: Turn)
    requires
        all_ready(old(processors)@),
    ensures
        all_ready(final(processors)@),
        final(processors)@.len() == old(processors)@.len(),
        final(consumer).stream() == old(consumer).stream(),
        final(consumer).capacity() == old(consumer).capacity(),
        stop <==> r == Turn::Stopped,
        r == Turn::Stopped ==> *final(consumer) == *old(consumer),
        r == Turn::Idle <==> !stop && old(consumer).waiting() <= 0,
        r != Turn::Stopped ==> final(consumer).sound() && final(consumer).known() == old(consumer).filled(),
        r == Turn::Stopped || r == Turn::Idle ==> final(consumer).taken() == old(consumer).taken()
            && final(processors)@ == old(processors)@ && final(bus)@ == old(bus)@ && final(out)@
            == old(out)@,
        r == Turn::Processed || r == Turn::Finished ==> {
            let event = final(consumer).taken().last();
            &&& final(consumer).taken() == old(consumer).taken().push(event)
            &&& final(consumer).taken().is_prefix_of(final(consumer).stream())
            &&& r == Turn::Finished <==> event is RunFinished
            &&& bus::delivers(old(bus)@, event@, final(bus)@)
            &&& derives(event@, old(processors)@, old(out)@, final(processors)@, final(out)@)
        },
{
    if stop {
        return Turn::Stopped;
    }
    match consumer.pop() {
        None => Turn::Idle,
        Some(event) => {
            process(&event, processors, bus, out);
            ended_by(&event)
        },
    }
}

/// The output once one more event was counted.
pub open spec fn counted(d: DerivedData) -> DerivedData {
    DerivedData {
        stats: PipelineStats {
            events_processed: queue::one_more(d.stats.events_processed),
            ..d.stats
        },
        ..d
    }
}

/// Every derived value is accounted for: what was handed on and what was
/// dropped together make up what was derived.
pub proof fn derived_values_are_accounted_for(
    trace: Seq<DerivedData>,
    derived: Seq<DerivedView>,
    k: int,
)
    requires
        all_emitted(trace, derived),
        0 <= k <= derived.len(),
        trace[0].stats.derived_emitted + k <= u64::MAX,
        trace[0].stats.derived_dropped + k <= u64::MAX,
    ensures
        trace[k].stats.derived_emitted + trace[k].stats.derived_dropped
            == trace[0].stats.derived_emitted + trace[0].stats.derived_dropped + k,
        trace[k].sent.len() - trace[0].sent.len() == trace[k].stats.derived_emitted
            - trace[0].stats.derived_emitted,
        trace[0].stats.derived_emitted <= trace[k].stats.derived_emitted
            <= trace[0].stats.derived_emitted + k,
        trace[0].stats.derived_dropped <= trace[k].stats.derived_dropped
            <= trace[0].stats.derived_dropped + k,
        trace[k].stats.events_processed == trace[0].stats.events_processed,
    decreases k,
{
    if k > 0 {
        derived_values_are_accounted_for(trace, derived, k - 1);
        let i = k - 1;
        assert(emitted(trace[i], derived[i], trace[i + 1]));
    }
}

/// No derived value is dropped while there is room: as long as the reader is there,
/// values that all fit into the queue are all handed on, in order.
pub proof fn no_value_is_dropped_while_there_is_room(
    trace: Seq<DerivedData>,
    derived: Seq<DerivedView>,
    k: int,
)
    requires
        all_emitted(trace, derived),
        0 <= k <= derived.len(),
        forall|i: int| 0 <= i < derived.len() ==> (#[trigger] trace[i]).heard,
        trace[0].sent.len() + k <= trace[0].capacity,
    ensures
        trace[k].capacity == trace[0].capacity,
        trace[k].sent == trace[0].sent + derived.take(k),
        trace[k].stats.derived_dropped == trace[0].stats.derived_dropped,
    decreases k,
{
    if k > 0 {
        no_value_is_dropped_while_there_is_room(trace, derived, k - 1);
        assert(trace[k - 1].heard);
        let i = k - 1;
        assert(emitted(trace[i], derived[i], trace[i + 1]));
        assert(derived.take(k) =~= derived.take(k - 1).push(derived[k - 1]));
    }
}

proof fn lemma_reader_moves_on(
    trace: Seq<DerivedData>,
    derived: Seq<DerivedView>,
    i: int,
    j: int,
)
    requires
        all_emitted(trace, derived),
        0 <= i <= j <= derived.len(),
    ensures
        trace[j].capacity == trace[i].capacity,
        trace[j].heard ==> trace[i].heard,
        trace[i].read <= trace[j].read,
    decreases j - i,
{
    if i < j {
        lemma_reader_moves_on(trace, derived, i, j - 1);
        let k = j - 1;
        assert(emitted(trace[k], derived[k], trace[k + 1]));
    }
}

/// How many of `n` values find room where `sent` were handed on and `read` of them
/// were read.
pub open spec fn room_for(d: DerivedData, n: int) -> int {
    let room = d.read + d.capacity - d.sent.len();
    if n <= room {
        n
    } else if room > 0 {
        room
    } else {
        0
    }
}

proof fn lemma_quiet_reader(trace: Seq<DerivedData>, derived: Seq<DerivedView>, k: int)
    requires
        all_emitted(trace, derived),
        0 <= k <= derived.len(),
        trace.last().heard,
        trace.last().read == trace[0].read,
        trace[0].stats.derived_emitted + k <= u64::MAX,
        trace[0].stats.derived_dropped + k <= u64::MAX,
    ensures
        trace[k].sent == trace[0].sent + derived.take(room_for(trace[0], k)),
        trace[k].stats.derived_emitted == trace[0].stats.derived_emitted + room_for(trace[0], k),
        trace[k].stats.derived_dropped == trace[0].stats.derived_dropped + k - room_for(
            trace[0],
            k,
        ),
        trace[k].stats.events_processed == trace[0].stats.events_processed,
    decreases k,
{
    if k == 0 {
        assert(trace[0].sent + derived.take(0) =~= trace[0].sent);
    } else {
        let i = k - 1;
        lemma_quiet_reader(trace, derived, i);
        lemma_reader_moves_on(trace, derived, 0, i);
        lemma_reader_moves_on(trace, derived, i, derived.len() as int);
        assert(emitted(trace[i], derived[i], trace[i + 1]));
        if takes(trace[i]) {
            assert(derived.take(k) =~= derived.take(i).push(derived[i]));
        }
    }
}

/// Whether a pipeline took one event after the other: `states` holds the output from
/// before the first event to after the last, and `derived` what the processors
/// derived from each.
pub open spec fn all_worked(states: Seq<DerivedData>, derived: Seq<Seq<DerivedView>>) -> bool {
    &&& states.len() == derived.len() + 1
    &&& forall|i: int|
        0 <= i < derived.len() ==> #[trigger] emits(counted(states[i]), derived[i], states[i + 1])
}

proof fn lemma_worked_reader(
    states: Seq<DerivedData>,
    derived: Seq<Seq<DerivedView>>,
    i: int,
    j: int,
)
    requires
        all_worked(states, derived),
        0 <= i <= j <= derived.len(),
    ensures
        states[j].capacity == states[i].capacity,
        states[j].heard ==> states[i].heard,
        states[i].read <= states[j].read,
    decreases j - i,
{
    if i < j {
        lemma_worked_reader(states, derived, i, j - 1);
        let k = j - 1;
        assert(emits(counted(states[k]), derived[k], states[k + 1]));
        let trace = choose|trace: Seq<DerivedData>| #[trigger]
            all_emitted(trace, derived[k]) && trace[0] == counted(states[k]) && trace.last()
                == states[k + 1];
        lemma_reader_moves_on(trace, derived[k], 0, derived[k].len() as int);
    }
}

/// A pipeline counts every event it took, and every value that was derived from them
/// as handed on or dropped.
pub proof fn pipelines_count_everything(
    states: Seq<DerivedData>,
    derived: Seq<Seq<DerivedView>>,
    k: int,
)
    requires
        all_worked(states, derived),
        0 <= k <= derived.len(),
        states[0].stats.events_processed + k <= u64::MAX,
        states[0].stats.derived_emitted + queue::joined(derived, k).len() <= u64::MAX,
        states[0].stats.derived_dropped + queue::joined(derived, k).len() <= u64::MAX,
    ensures
        states[k].stats.events_processed == states[0].stats.events_processed + k,
        states[k].stats.derived_emitted + states[k].stats.derived_dropped
            == states[0].stats.derived_emitted + states[0].stats.derived_dropped + queue::joined(
            derived,
            k,
        ).len(),
        states[0].stats.derived_emitted <= states[k].stats.derived_emitted,
        states[0].stats.derived_dropped <= states[k].stats.derived_dropped,
    decreases k,
{
    if k > 0 {
        let i = k - 1;
        pipelines_count_everything(states, derived, i);
        assert(emits(counted(states[i]), derived[i], states[i + 1]));
        let trace = choose|trace: Seq<DerivedData>| #[trigger]
            all_emitted(trace, derived[i]) && trace[0] == counted(states[i]) && trace.last()
                == states[i + 1];
        derived_values_are_accounted_for(trace, derived[i], derived[i].len() as int);
    }
}

/// A reader that is there but takes nothing gets as many values as find room, the
/// first ones; the rest are dropped and counted.
pub proof fn a_quiet_reader_gets_what_fits(
    states: Seq<DerivedData>,
    derived: Seq<Seq<DerivedView>>,
    k: int,
)
    requires
        all_worked(states, derived),
        0 <= k <= derived.len(),
        states.last().heard,
        states.last().read == states[0].read,
        states[0].stats.events_processed + k <= u64::MAX,
        states[0].stats.derived_emitted + queue::joined(derived, k).len() <= u64::MAX,
        states[0].stats.derived_dropped + queue::joined(derived, k).len() <= u64::MAX,
    ensures
        ({
            let all = queue::joined(derived, k);
            let n = all.len() as int;
            &&& states[k].sent == states[0].sent + all.take(room_for(states[0], n))
            &&& states[k].stats.derived_emitted == states[0].stats.derived_emitted + room_for(
                states[0],
                n,
            )
            &&& states[k].stats.derived_dropped == states[0].stats.derived_dropped + n - room_for(
                states[0],
                n,
            )
        }),
    decreases k,
{
    if k == 0 {
        assert(states[0].sent + queue::joined(derived, 0).take(0) =~= states[0].sent);
    } else {
        let i = k - 1;
        let before = queue::joined(derived, i);
        let all = queue::joined(derived, k);
        a_quiet_reader_gets_what_fits(states, derived, i);
        lemma_worked_reader(states, derived, 0, i);
        lemma_worked_reader(states, derived, i, k);
        lemma_worked_reader(states, derived, k, derived.len() as int);
        assert(emits(counted(states[i]), derived[i], states[i + 1]));
        let trace = choose|trace: Seq<DerivedData>| #[trigger]
            all_emitted(trace, derived[i]) && trace[0] == counted(states[i]) && trace.last()
                == states[i + 1];
        lemma_quiet_reader(trace, derived[i], derived[i].len() as int);
        let more = room_for(trace[0], derived[i].len() as int);
        let had = room_for(states[0], before.len() as int);
        if had < before.len() {
            assert(more == 0);
            assert(all.take(had) =~= before.take(had));
            assert(derived[i].take(0) =~= Seq::<DerivedView>::empty());
            assert(states[k].sent =~= states[0].sent + all.take(had));
        } else {
            assert(all.take(had + more) =~= before.take(had) + derived[i].take(more));
            assert(states[k].sent =~= states[0].sent + all.take(had + more));
        }
    }
}

/// Whatever processors derive from an event is handed on, in the order of the processors,
/// and each of them takes the event in.
pub proof fn every_processor_is_run<P: Processor>(
    event: EventView,
    before: Seq<P>,
    out_before: DerivedData,
    after: Seq<P>,
    out_after: DerivedData,
)
    requires
        derives(event, before, out_before, after, out_after),
    ensures
        exists|outs: Seq<Seq<DerivedView>>|
            {
                &&& outs.len() == before.len()
                &&& forall|i: int|
                    0 <= i < before.len() ==> (#[trigger] before[i]).gives(
                        event,
                        &after[i],
                        outs[i],
                    )
                &&& #[trigger] emits(counted(out_before), outs.flatten(), out_after)
            },
{
    let outs = choose|outs: Seq<Seq<DerivedView>>|
        {
            &&& outs.len() == before.len()
            &&& #[trigger] all_give(before, event, after, outs, outs.len() as int)
            &&& emits(counted(out_before), queue::joined(outs, outs.len() as int), out_after)
        };
    queue::joined_parts_keep_their_order(outs, outs.len() as int);
    assert(outs.take(outs.len() as int) =~= outs);
    assert(emits(counted(out_before), outs.flatten(), out_after));
}

/// A derived value is handed on exactly when the reader is there and has left room, and
/// is counted once either way.
pub proof fn each_value_is_handed_on_or_dropped(
    before: DerivedData,
    derived: DerivedView,
    after: DerivedData,
)
    requires
        emitted(before, derived, after),
        before.stats.derived_emitted < u64::MAX,
        before.stats.derived_dropped < u64::MAX,
    ensures
        before.heard && before.sent.len() < before.read + before.capacity ==> {
            &&& after.sent == before.sent.push(derived)
            &&& after.stats.derived_emitted == before.stats.derived_emitted + 1
            &&& after.stats.derived_dropped == before.stats.derived_dropped
        },
        !before.heard || before.sent.len() >= before.read + before.capacity ==> {
            &&& after.sent == before.sent
            &&& after.stats.derived_dropped == before.stats.derived_dropped + 1
            &&& after.stats.derived_emitted == before.stats.derived_emitted
        },
        after.stats.events_processed == before.stats.events_processed,
{
}

} // verus!
