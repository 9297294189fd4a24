//! The queue between a run and the thread that writes its logs.
//!
//! Handing a record over never waits: a full queue drops the record and counts
//! it. The writing side flushes after a number of records or a span of time,
//! whichever comes first.
use crate::base::queue;
use crate::base::queue::Offer;
use crate::base::types::{Event, EventView, MetricRecord, MetricRecordView};
use crossbeam_channel::{Receiver, Sender, TrySendError};
use vstd::prelude::*;

verus! {

/// Flush after this many records.
pub const FLUSH_EVERY: usize = 64;

/// Flush at least this often while records are waiting, in milliseconds.
pub const FLUSH_INTERVAL: u64 = 100;

/// How many records the queue holds unless told otherwise.
pub const DEFAULT_CAPACITY: usize = 8192;

/// No record takes more bytes than this in the queue.
pub const MAX_RECORD_BYTES: usize = 256;

/// A record on its way to a log.
#[derive(Debug, PartialEq)]
pub enum Record {
    /// An event, for the event log.
    Event(Event),
    /// A metric row, for the metric log.
    Metric(MetricRecord),
}

/// A record as a mathematical value.
#[verifier::ext_equal]
pub enum RecordView {
    Event(EventView),
    Metric(MetricRecordView),
}

impl View for Record {
    type V = RecordView;

    open spec fn view(&self) -> RecordView {
        match *self {
            Record::Event(e) => RecordView::Event(e@),
            Record::Metric(m) => RecordView::Metric(m@),
        }
    }
}

/// The views of records.
pub open spec fn record_views(s: Seq<Record>) -> Seq<RecordView> {
    Seq::new(s.len(), |i: int| s[i]@)
}

/// The records that were put into a queue through this sender, in order.
pub uninterp spec fn sink_queued(tx: Sender<Record>) -> Seq<Record>;

/// How many records this sender's queue holds at most.
pub uninterp spec fn sink_room(tx: Sender<Record>) -> nat;

/// Whether the receiver will still be there when this sender is next offered a
/// record.
pub uninterp spec fn sink_heard(tx: Sender<Record>) -> bool;

/// How many records will have been read out of the queue when this sender is next
/// offered one. In a queue without room a reader that stands waiting counts as
/// having read, because a record is handed to it directly.
pub uninterp spec fn sink_read(tx: Sender<Record>) -> nat;

/// `crossbeam_channel::bounded`: a queue of `capacity` records into which
/// nothing was put yet. Its room is allocated at once, which bounds the capacity.
#[verifier::external_body]
fn open_queue(capacity: usize) -> (r: (Sender<Record>, Receiver<Record>))
    requires
        capacity * MAX_RECORD_BYTES <= isize::MAX,
    ensures
        sink_queued(r.0) == Seq::<Record>::empty(),
        sink_room(r.0) == capacity,
        capacity > 0 ==> sink_read(r.0) == 0,
{
    crossbeam_channel::bounded(capacity)
}

/// `crossbeam_channel::Sender::try_send`: puts the record at the end of the
/// queue, or leaves the queue as it is when it is full or the receiver is gone. It
/// never waits. A queue has one sender here, so what this sender put in and nobody
/// read fills it. What was read stays read, and a receiver that is gone does not
/// come back.
#[verifier::external_body]
fn offer(tx: &mut Sender<Record>, record: Record) -> (answer: Offer)
    ensures
        sink_room(*final(tx)) == sink_room(*old(tx)),
        answer == Offer::Gone <==> !sink_heard(*old(tx)),
        sink_heard(*final(tx)) ==> sink_heard(*old(tx)),
        answer == Offer::Taken <==> sink_heard(*old(tx)) && sink_queued(*old(tx)).len()
            < sink_read(*old(tx)) + sink_room(*old(tx)),
        sink_read(*old(tx)) <= sink_read(*final(tx)),
        sink_room(*old(tx)) > 0 ==> sink_read(*final(tx)) <= sink_queued(*final(tx)).len(),
        sink_queued(*final(tx)).len() <= sink_read(*final(tx)) + sink_room(*final(tx)),
        sink_queued(*final(tx)) == (if answer == Offer::Taken {
            sink_queued(*old(tx)).push(record)
        } else {
            sink_queued(*old(tx))
        }),
{
    match tx.try_send(record) {
        Ok(()) => Offer::Taken,
        Err(TrySendError::Full(_)) => Offer::Full,
        Err(TrySendError::Disconnected(_)) => Offer::Gone,
    }
}

/// The producing side of the queue.
pub struct JsonlSink {
    tx: Option<Sender<Record>>,
    dropped: u64,
}

/// The producing side as a mathematical value.
#[verifier::ext_equal]
pub struct SinkData {
    /// Whether records can still be handed over.
    pub open: bool,
    /// How many records can wait at most.
    pub capacity: nat,
    /// Whether the writer will be there for the next record.
    pub heard: bool,
    /// How many records the writer will have read when the next one comes.
    pub read: nat,
    /// The records handed over so far, in order.
    pub queued: Seq<RecordView>,
    /// How many records were dropped so far.
    pub dropped: u64,
}

impl View for JsonlSink {
    type V = SinkData;

    closed spec fn view(&self) -> SinkData {
        SinkData {
            open: self.tx is Some,
            capacity: match self.tx {
                Some(tx) => sink_room(tx),
                None => 0,
            },
            heard: match self.tx {
                Some(tx) => sink_heard(tx),
                None => false,
            },
            read: match self.tx {
                Some(tx) => sink_read(tx),
                None => 0,
            },
            queued: match self.tx {
                Some(tx) => record_views(sink_queued(tx)),
                None => Seq::empty(),
            },
            dropped: self.dropped,
        }
    }
}

/// Whether the queue takes the next record: the writer is there, and fewer records
/// wait than can.
pub open spec fn takes(s: SinkData) -> bool {
    s.open && s.heard && s.queued.len() < s.read + s.capacity
}

/// Whether offering a record leads from `before` to `after`.
///
/// A closed queue takes and counts nothing. An open one takes the record while the
/// writer is there and has left room for it; otherwise the record is dropped and
/// counted. How far the writer gets until the next record is open.
pub open spec fn offered(before: SinkData, record: RecordView, after: SinkData) -> bool {
    if !before.open {
        after == before
    } else {
        &&& after.open
        &&& after.capacity == before.capacity
        &&& after.heard ==> before.heard
        &&& before.read <= after.read
        &&& after.capacity > 0 ==> after.read <= after.queued.len()
        &&& after.queued.len() <= after.read + after.capacity
        &&& if takes(before) {
            after.queued == before.queued.push(record) && after.dropped == before.dropped
        } else {
            after.queued == before.queued && after.dropped == queue::one_more(before.dropped)
        }
    }
}

/// Whether `trace` holds the states of the queue from before the first record to
/// after the last.
pub open spec fn all_offered(trace: Seq<SinkData>, records: Seq<RecordView>) -> bool {
    &&& trace.len() == records.len() + 1
    &&& forall|i: int|
        0 <= i < records.len() ==> #[trigger] offered(trace[i], records[i], trace[i + 1])
}

impl JsonlSink {
    /// Opens a queue of `capacity` records; the receiver goes to the writer.
    pub fn spawn_with_capacity(capacity: usize) -> (r: (JsonlSink, Receiver<Record>))
        requires
            capacity * MAX_RECORD_BYTES <= isize::MAX,
        ensures
            r.0@ == (SinkData {
                open: true,
                capacity: capacity as nat,
                heard: r.0@.heard,
                read: r.0@.read,
                queued: Seq::empty(),
                dropped: 0,
            }),
            capacity > 0 ==> r.0@.read == 0,
    {
        let (tx, rx) = open_queue(capacity);
        assert(record_views(sink_queued(tx)) =~= Seq::<RecordView>::empty());
        (JsonlSink { tx: Some(tx), dropped: 0 }, rx)
    }

    /// Opens a queue of the default capacity.
    pub fn spawn() -> (r: (JsonlSink, Receiver<Record>))
        ensures
            r.0@ == (SinkData {
                open: true,
                capacity: DEFAULT_CAPACITY as nat,
                heard: r.0@.heard,
                read: 0,
                queued: Seq::empty(),
                dropped: 0,
            }),
    {
        JsonlSink::spawn_with_capacity(DEFAULT_CAPACITY)
    }

    /// Counts a record that the queue did not take.
    pub fn count_offer(&mut self, answer: Offer)
        ensures
            final(self)@ == (SinkData {
                dropped: if answer == Offer::Taken {
                    old(self)@.dropped
                } else {
                    queue::one_more(old(self)@.dropped)
                },
                ..old(self)@
            }),
    {
        if answer != Offer::Taken {
            self.dropped = self.dropped.saturating_add(1);
        }
    }

    fn send(&mut self, record: Record)
        ensures
            offered(old(self)@, record@, final(self)@),
    {
        let ghost view = record@;
        let mut slot: Option<Sender<Record>> = None;
        std::mem::swap(&mut slot, &mut self.tx);
        match slot {
            Some(mut tx) => {
                let ghost history = sink_queued(tx);
                let answer: Offer = offer(&mut tx, record);
                assert(record_views(history.push(record)) =~= record_views(history).push(view));
                self.tx = Some(tx);
                self.count_offer(answer);
            },
            None => {},
        }
    }

    /// Hands over an event. It never waits; a full queue drops and counts it.
    pub fn write_event(&mut self, event: Event)
        ensures
            offered(old(self)@, RecordView::Event(event@), final(self)@),
    {
        self.send(Record::Event(event))
    }

    /// Hands over a metric row. It never waits; a full queue drops and counts it.
    pub fn write_metric(&mut self, record: MetricRecord)
        ensures
            offered(old(self)@, RecordView::Metric(record@), final(self)@),
    {
        self.send(Record::Metric(record))
    }

    /// How many records were dropped because the queue was full.
    pub fn dropped(&self) -> (n: u64)
        ensures
            n == self@.dropped,
    {
        self.dropped
    }

    /// Closes the queue: the writer drains what is left, flushes and ends.
    pub fn shutdown(&mut self)
        ensures
            final(self)@ == (SinkData {
                open: false,
                capacity: 0,
                heard: false,
                read: 0,
                queued: Seq::empty(),
                dropped: old(self)@.dropped,
            }),
    {
        self.tx = None;
    }
}

/// What reaches the writer's loop.
#[derive(Debug, Clone, Copy, PartialEq, Eq, Structural)]
pub enum SinkInput {
    /// A record.
    Record,
    /// The flush interval passed without a record.
    Timeout,
    /// The producing side is gone.
    Disconnected,
}

/// What the writer does about it.
#[derive(Debug, Clone, Copy, PartialEq, Eq, Structural)]
pub enum SinkAction {
    /// Write the record.
    Write,
    /// Write the record, then flush.
    WriteAndFlush,
    /// Flush.
    Flush,
    /// Nothing: everything written is flushed.
    Wait,
    /// Write what is still queued, flush, and end.
    DrainAndEnd,
}

/// The writer's memory: how many records were written since the last flush.
#[derive(Debug, Clone, Copy, PartialEq, Eq, Structural)]
pub struct FlushPolicy {
    pub since_flush: usize,
}

/// What the writer does with an input.
pub open spec fn flush_action(since: usize, input: SinkInput) -> SinkAction {
    match input {
        SinkInput::Record => if since + 1 >= FLUSH_EVERY {
            SinkAction::WriteAndFlush
        } else {
            SinkAction::Write
        },
        SinkInput::Timeout => if since > 0 {
            SinkAction::Flush
        } else {
            SinkAction::Wait
        },
        SinkInput::Disconnected => SinkAction::DrainAndEnd,
    }
}

/// How many records are unflushed once an action is done.
pub open spec fn unflushed_after(since: usize, action: SinkAction) -> int {
    match action {
        SinkAction::Write => since + 1,
        SinkAction::Wait => since as int,
        _ => 0,
    }
}

impl FlushPolicy {
    /// A writer that has written nothing.
    pub fn new() -> (p: FlushPolicy)
        ensures
            p.since_flush == 0,
    {
        FlushPolicy { since_flush: 0 }
    }

    /// What to do with the next input.
    pub fn on_input(&mut self, input: SinkInput) -> (action: SinkAction)
        requires
            old(self).since_flush < FLUSH_EVERY,
        ensures
            action == flush_action(old(self).since_flush, input),
            final(self).since_flush == unflushed_after(old(self).since_flush, action),
            final(self).since_flush < FLUSH_EVERY,
    {
        match input {
            SinkInput::Record => {
                if self.since_flush + 1 >= FLUSH_EVERY {
                    self.since_flush = 0;
                    SinkAction::WriteAndFlush
                } else {
                    self.since_flush = self.since_flush + 1;
                    SinkAction::Write
                }
            },
            SinkInput::Timeout => {
                if self.since_flush > 0 {
                    self.since_flush = 0;
                    SinkAction::Flush
                } else {
                    SinkAction::Wait
                }
            },
            SinkInput::Disconnected => {
                self.since_flush = 0;
                SinkAction::DrainAndEnd
            },
        }
    }
}

/// Nothing is dropped in silence: of the records offered to an open queue, each
/// is either queued or counted.
pub proof fn every_record_is_queued_or_counted(
    trace: Seq<SinkData>,
    records: Seq<RecordView>,
    k: int,
)
    requires
        all_offered(trace, records),
        trace[0].open,
        0 <= k <= records.len(),
        trace[0].dropped + k <= u64::MAX,
    ensures
        trace[k].open,
        trace[k].capacity == trace[0].capacity,
        trace[k].queued.len() + trace[k].dropped == trace[0].queued.len() + trace[0].dropped + k,
        trace[0].dropped <= trace[k].dropped <= trace[0].dropped + k,
        trace[0].queued.is_prefix_of(trace[k].queued),
    decreases k,
{
    if k > 0 {
        every_record_is_queued_or_counted(trace, records, k - 1);
        let i = k - 1;
        assert(offered(trace[i], records[i], trace[i + 1]));
    }
}

/// Nothing is dropped while there is room: as long as the writer is there, records
/// that all fit into an open queue are all queued, in order.
pub proof fn nothing_is_dropped_while_there_is_room(
    trace: Seq<SinkData>,
    records: Seq<RecordView>,
    k: int,
)
    requires
        all_offered(trace, records),
        trace[0].open,
        0 <= k <= records.len(),
        forall|i: int| 0 <= i < records.len() ==> (#[trigger] trace[i]).heard,
        trace[0].queued.len() + k <= trace[0].capacity,
    ensures
        trace[k].open,
        trace[k].capacity == trace[0].capacity,
        trace[k].queued == trace[0].queued + records.take(k),
        trace[k].dropped == trace[0].dropped,
    decreases k,
{
    if k > 0 {
        nothing_is_dropped_while_there_is_room(trace, records, k - 1);
        assert(trace[k - 1].heard);
        let i = k - 1;
        assert(offered(trace[i], records[i], trace[i + 1]));
        assert(records.take(k) =~= records.take(k - 1).push(records[k - 1]));
    }
}

/// A timeout leaves nothing unflushed, and neither does the end.
pub proof fn timeouts_and_ends_flush_everything(since: usize)
    ensures
        unflushed_after(since, flush_action(since, SinkInput::Timeout)) == 0,
        unflushed_after(since, flush_action(since, SinkInput::Disconnected)) == 0,
{
}

/// A queue takes a record exactly when it is open, the writer is there and there is room;
/// whatever it does not take while open is counted, and what it took before stays.
pub proof fn full_queues_count_what_they_drop(before: SinkData, record: RecordView, after: SinkData)
    requires
        offered(before, record, after),
    ensures
        before.open && before.heard && before.queued.len() < before.read + before.capacity
            ==> after.queued == before.queued.push(record) && after.dropped == before.dropped,
        before.open && (!before.heard || before.queued.len() >= before.read + before.capacity)
            ==> after.queued == before.queued && (before.dropped < u64::MAX ==> after.dropped
            == before.dropped + 1),
        !before.open ==> after == before,
        after.open == before.open,
{
}

/// Every record is written, with a flush on the last of each full round and on it alone;
/// a timeout flushes exactly when something is unflushed; and the end of the run drains
/// the queue.
pub proof fn every_record_is_written(since: usize, input: SinkInput)
    requires
        since < FLUSH_EVERY,
    ensures
        ({
            let action = flush_action(since, input);
            &&& input is Record <==> action is Write || action is WriteAndFlush
            &&& input is Record ==> (action is WriteAndFlush <==> since == FLUSH_EVERY - 1)
            &&& input is Timeout ==> (action is Flush <==> since > 0) && (action is Wait <==> since
                == 0)
            &&& input is Disconnected <==> action is DrainAndEnd
            &&& action is Write ==> unflushed_after(since, action) == since + 1
            &&& !(action is Write) ==> unflushed_after(since, action) == 0
        }),
{
}

} // verus!
