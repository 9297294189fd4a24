//! Following a growing file of metric rows.
//!
//! Only whole lines are taken; a line that is still being written is left for
//! later. A line that cannot be read is counted and passed over.
use crate::base::named::NamedValues;
use crate::base::queue;
use crate::base::registry;
use crate::base::registry::MetricRegistry;
use crate::base::text;
use crate::base::types;
use crate::base::types::{Event, EventView, MetricId, Phase};
use crate::base::value::Real;
use crate::engine::session;
use crate::engine::throughput;
use vstd::prelude::*;
use vstd::utf8::*;

verus! {

/// A metric row as a file holds it. Only `step` and `values` have to be there.
#[derive(Debug)]
pub struct WatchedRow {
    pub step: u64,
    pub epoch: Option<u32>,
    pub phase: Option<Phase>,
    pub values: NamedValues,
}

/// A metric row as a mathematical value.
#[verifier::ext_equal]
pub struct RowView {
    pub step: u64,
    pub epoch: Option<u32>,
    pub phase: Option<Phase>,
    /// The values with their names, in name order.
    pub values: Seq<(Seq<char>, Real)>,
}

impl View for WatchedRow {
    type V = RowView;

    open spec fn view(&self) -> RowView {
        RowView {
            step: self.step,
            epoch: self.epoch,
            phase: self.phase,
            values: Seq::new(
                self.values.entries@.len(),
                |i: int| (self.values.entries@[i].0@, self.values.entries@[i].1),
            ),
        }
    }
}

/// The view of a row, if there is one.
pub open spec fn maybe_row(row: Option<WatchedRow>) -> Option<RowView> {
    match row {
        Some(r) => Some(r@),
        None => None,
    }
}

/// The phase of a row that names none.
#[verifier::allow_in_spec]
pub fn default_phase() -> Phase
    returns
        Phase::Train,
{
    Phase::Train
}

/// The line that is still being written: what follows the last line break.
pub open spec fn unfinished(bytes: Seq<u8>) -> Seq<u8>
    decreases bytes.len(),
{
    if bytes.len() == 0 {
        Seq::empty()
    } else if bytes.last() == 10 {
        Seq::empty()
    } else {
        unfinished(bytes.drop_last()).push(bytes.last())
    }
}

/// The whole lines, without their line breaks.
pub open spec fn whole_lines(bytes: Seq<u8>) -> Seq<Seq<u8>>
    decreases bytes.len(),
{
    if bytes.len() == 0 {
        Seq::empty()
    } else if bytes.last() == 10 {
        whole_lines(bytes.drop_last()).push(unfinished(bytes.drop_last()))
    } else {
        whole_lines(bytes.drop_last())
    }
}

proof fn lemma_unfinished_len(bytes: Seq<u8>)
    ensures
        unfinished(bytes).len() <= bytes.len(),
    decreases bytes.len(),
{
    if bytes.len() > 0 {
        lemma_unfinished_len(bytes.drop_last());
    }
}

/// A file read in two goes gives the lines it gives in one: the unfinished line
/// of the first go is finished by the second.
pub proof fn reading_in_pieces_loses_nothing(a: Seq<u8>, b: Seq<u8>)
    ensures
        whole_lines(a + b) == whole_lines(a) + whole_lines(unfinished(a) + b),
        unfinished(a + b) == unfinished(unfinished(a) + b),
    decreases b.len(),
{
    if b.len() == 0 {
        assert(a + b =~= a);
        assert(unfinished(a) + b =~= unfinished(a));
        lemma_unfinished_is_one_line(a);
        assert(whole_lines(a) + Seq::<Seq<u8>>::empty() =~= whole_lines(a));
    } else {
        let c = b.drop_last();
        reading_in_pieces_loses_nothing(a, c);
        assert((a + b).drop_last() =~= a + c);
        assert((unfinished(a) + b).drop_last() =~= unfinished(a) + c);
        if b.last() == 10 {
            assert(whole_lines(a + b) =~= whole_lines(a) + whole_lines(unfinished(a) + b));
        }
    }
}

proof fn lemma_unfinished_is_one_line(a: Seq<u8>)
    ensures
        whole_lines(unfinished(a)) == Seq::<Seq<u8>>::empty(),
        unfinished(unfinished(a)) == unfinished(a),
    decreases a.len(),
{
    if a.len() > 0 && a.last() != 10 {
        lemma_unfinished_is_one_line(a.drop_last());
        assert(unfinished(a).drop_last() =~= unfinished(a.drop_last()));
    }
}

/// A line written with its line break is read back as it is, after what was
/// there before.
pub proof fn lines_read_back(before: Seq<u8>, line: Seq<u8>)
    requires
        unfinished(before) == Seq::<u8>::empty(),
        forall|i: int| 0 <= i < line.len() ==> #[trigger] line[i] != 10,
    ensures
        whole_lines(before + line.push(10)) == whole_lines(before).push(line),
        unfinished(before + line.push(10)) == Seq::<u8>::empty(),
{
    lemma_line_tail(before, line, line.len() as int);
    assert(line.take(line.len() as int) =~= line);
    assert((before + line.push(10)).drop_last() =~= before + line);
}

proof fn lemma_line_tail(before: Seq<u8>, line: Seq<u8>, k: int)
    requires
        unfinished(before) == Seq::<u8>::empty(),
        forall|i: int| 0 <= i < line.len() ==> #[trigger] line[i] != 10,
        0 <= k <= line.len(),
    ensures
        whole_lines(before + line.take(k)) == whole_lines(before),
        unfinished(before + line.take(k)) == line.take(k),
    decreases k,
{
    if k == 0 {
        assert(before + line.take(0) =~= before);
        assert(line.take(0) =~= Seq::<u8>::empty());
    } else {
        lemma_line_tail(before, line, k - 1);
        assert((before + line.take(k)).drop_last() =~= before + line.take(k - 1));
        assert(line.take(k) =~= line.take(k - 1).push(line[k - 1]));
    }
}

/// `std::str::from_utf8`: the text of the bytes when they are UTF-8, and an error
/// otherwise.
#[verifier::external_body]
fn decode(bytes: &[u8]) -> (r: Option<String>)
    ensures
        match r {
            Some(s) => valid_utf8(bytes@) && s@ == decode_utf8(bytes@),
            None => !valid_utf8(bytes@),
        },
{
    match std::str::from_utf8(bytes) {
        Ok(s) => Some(s.to_owned()),
        Err(_) => None,
    }
}

/// The rows among the first `k` lines: those that are text and not blank, with
/// the space around them removed.
pub open spec fn row_texts(lines: Seq<Seq<u8>>, k: int) -> Seq<Seq<char>>
    decreases k,
{
    if k <= 0 {
        Seq::empty()
    } else {
        let before = row_texts(lines, k - 1);
        let line = lines[k - 1];
        if valid_utf8(line) && text::trimmed(decode_utf8(line)).len() > 0 {
            before.push(text::trimmed(decode_utf8(line)))
        } else {
            before
        }
    }
}

/// How many of the first `k` lines are no text at all.
pub open spec fn broken_lines(lines: Seq<Seq<u8>>, k: int) -> nat
    decreases k,
{
    if k <= 0 {
        0
    } else if valid_utf8(lines[k - 1]) {
        broken_lines(lines, k - 1)
    } else {
        broken_lines(lines, k - 1) + 1
    }
}

/// `n` more, up to the largest number.
pub open spec fn plus_capped(a: u64, n: nat) -> u64 {
    if a + n <= u64::MAX {
        (a + n) as u64
    } else {
        u64::MAX
    }
}

/// Follows a file of metric rows.
pub struct JsonlTailer {
    offset: u64,
    registry: MetricRegistry,
    skipped: u64,
}

/// A follower as a mathematical value.
#[verifier::ext_equal]
pub struct TailerData {
    /// How many bytes of the file were taken.
    pub offset: u64,
    /// The metric names met so far, in the order of their identifiers.
    pub names: Seq<Seq<char>>,
    /// How many lines were passed over.
    pub skipped: u64,
}

impl View for JsonlTailer {
    type V = TailerData;

    closed spec fn view(&self) -> TailerData {
        TailerData { offset: self.offset, names: self.registry@, skipped: self.skipped }
    }
}

/// The names of a row's values, in name order.
pub open spec fn row_names(row: RowView) -> Seq<Seq<char>> {
    Seq::new(row.values.len(), |i: int| row.values[i].0)
}

/// The event of a row, under the identifiers that `names` gives.
pub open spec fn row_event(names: Seq<Seq<char>>, row: RowView) -> EventView {
    EventView::MetricsBatch {
        step: row.step,
        epoch: match row.epoch {
            Some(e) => e,
            None => 0,
        },
        phase: match row.phase {
            Some(p) => p,
            None => default_phase(),
        },
        values: Seq::new(
            row.values.len(),
            |i: int| (registry::id_of(names, row.values[i].0)->0, row.values[i].1),
        ),
    }
}

/// The follower and the events after the first `k` rows, where a row that could
/// not be read counts as passed over.
pub open spec fn absorbed(t: TailerData, rows: Seq<Option<RowView>>, k: int) -> (
    TailerData,
    Seq<EventView>,
)
    decreases k,
{
    if k <= 0 {
        (t, Seq::empty())
    } else {
        let (s, events) = absorbed(t, rows, k - 1);
        match rows[k - 1] {
            None => (TailerData { skipped: queue::one_more(s.skipped), ..s }, events),
            Some(row) => {
                let names = session::all_registered(
                    s.names,
                    row_names(row),
                    row_names(row).len() as int,
                );
                (TailerData { names, ..s }, events.push(row_event(names, row)))
            },
        }
    }
}

/// Whether the names of each of the first `k` rows find room.
pub open spec fn rows_fit(t: TailerData, rows: Seq<Option<RowView>>, k: int) -> bool {
    forall|i: int|
        0 <= i < k && (#[trigger] rows[i]) is Some ==> session::all_fit(
            absorbed(t, rows, i).0.names,
            row_names(rows[i]->0),
        )
}

/// The names known after the first `k` of a name table, and that table under the
/// identifiers that the follower gives. Names that find no room are left out.
pub open spec fn table_adopted(
    names: Seq<Seq<char>>,
    table: Seq<(MetricId, Seq<char>)>,
    k: int,
) -> (Seq<Seq<char>>, Seq<(MetricId, Seq<char>)>)
    decreases k,
{
    if k <= 0 {
        (names, Seq::empty())
    } else {
        let (known, adopted) = table_adopted(names, table, k - 1);
        let name = table[k - 1].1;
        let after = registry::names_after(known, name);
        match registry::id_of(after, name) {
            Some(id) => (after, adopted.push((id, name))),
            None => (after, adopted),
        }
    }
}

/// The names known after an event of a run's event log, and what a dashboard is
/// shown of it: checkpoints, phase and stage changes and alerts as they are, and
/// name tables under the follower's own identifiers. Metrics come from the metric
/// log, and the rest is not for a dashboard that follows files.
pub open spec fn surfaced(names: Seq<Seq<char>>, event: EventView) -> (
    Seq<Seq<char>>,
    Option<EventView>,
) {
    match event {
        EventView::Checkpoint { .. } => (names, Some(event)),
        EventView::PhaseChange(_) => (names, Some(event)),
        EventView::StageChange { .. } => (names, Some(event)),
        EventView::Alert(_) => (names, Some(event)),
        EventView::MetricsRegistered { names: table } => {
            let (known, adopted) = table_adopted(names, table, table.len() as int);
            (known, Some(EventView::MetricsRegistered { names: adopted }))
        },
        _ => (names, None),
    }
}

/// Where the rows from `i` on that belong to steps up to `step` end.
pub open spec fn rows_until(rows: Seq<EventView>, i: int, step: u64) -> int
    decreases rows.len() - i,
{
    if i >= rows.len() {
        i
    } else if throughput::event_step(rows[i]) matches Some(s) && s > step {
        i
    } else {
        rows_until(rows, i + 1, step)
    }
}

/// What is shown of a metric log and an event log so far.
#[verifier::ext_equal]
pub struct Shown {
    /// The names known.
    pub names: Seq<Seq<char>>,
    /// How many rows are shown.
    pub rows: int,
    /// What is shown.
    pub events: Seq<EventView>,
}

/// What is shown after the first `k` events of the event log. The metrics of the
/// event log tell how far the rows have come.
pub open spec fn shown(
    names: Seq<Seq<char>>,
    rows: Seq<EventView>,
    log: Seq<EventView>,
    k: int,
) -> Shown
    decreases k,
{
    if k <= 0 {
        Shown { names, rows: 0, events: Seq::empty() }
    } else {
        let before = shown(names, rows, log, k - 1);
        match throughput::event_step(log[k - 1]) {
            Some(step) => {
                let end = rows_until(rows, before.rows, step);
                Shown {
                    rows: end,
                    events: before.events + rows.subrange(before.rows, end),
                    ..before
                }
            },
            None => {
                let (known, event) = surfaced(before.names, log[k - 1]);
                Shown {
                    names: known,
                    events: match event {
                        Some(e) => before.events.push(e),
                        None => before.events,
                    },
                    ..before
                }
            },
        }
    }
}

proof fn lemma_rows_until(rows: Seq<EventView>, i: int, step: u64)
    requires
        0 <= i <= rows.len(),
    ensures
        i <= rows_until(rows, i, step) <= rows.len(),
    decreases rows.len() - i,
{
    if i < rows.len() {
        lemma_rows_until(rows, i + 1, step);
    }
}

/// The view of an event, if there is one.
pub open spec fn maybe_event(event: Option<Event>) -> Option<EventView> {
    match event {
        Some(e) => Some(e@),
        None => None,
    }
}

/// There are more metric names in the file than identifiers.
#[derive(Debug, Clone, Copy, PartialEq, Eq, Structural)]
pub struct TooManyMetrics;

impl JsonlTailer {
    /// The names are distinct.
    pub closed spec fn wf(self) -> bool {
        self.registry.wf()
    }

    /// A follower never lists a name twice, nor more names than there are
    /// identifiers.
    pub proof fn names_are_distinct(self)
        requires
            self.wf(),
        ensures
            self@.names.no_duplicates(),
            self@.names.len() <= registry::MAX_METRICS,
    {
        self.registry.names_are_distinct();
    }

    /// A follower at the beginning of its file.
    pub fn new() -> (t: JsonlTailer)
        ensures
            t.wf(),
            t@ == (TailerData { offset: 0, names: Seq::empty(), skipped: 0 }),
    {
        JsonlTailer { offset: 0, registry: MetricRegistry::new(), skipped: 0 }
    }

    /// Where to read on in a file that now has `len` bytes: where the last poll
    /// ended, or at the beginning when the file has become shorter than that.
    pub fn resume_at(&mut self, len: u64) -> (at: u64)
        ensures
            at == final(self)@.offset,
            final(self)@ == (TailerData {
                offset: if len < old(self)@.offset {
                    0
                } else {
                    old(self)@.offset
                },
                ..old(self)@
            }),
            final(self).wf() == old(self).wf(),
    {
        if len < self.offset {
            self.offset = 0;
        }
        self.offset
    }

    /// Takes the whole lines of the bytes read on, and returns those that hold
    /// a row. Blank lines are passed over; lines that are not text are counted.
    pub fn take_lines(&mut self, bytes: &[u8]) -> (rows: Vec<String>)
        requires
            old(self)@.offset + bytes@.len() <= u64::MAX,
        ensures
            text::texts(rows@) == row_texts(
                whole_lines(bytes@),
                whole_lines(bytes@).len() as int,
            ),
            final(self)@ == (TailerData {
                offset: (old(self)@.offset + bytes@.len() - unfinished(bytes@).len()) as u64,
                skipped: plus_capped(
                    old(self)@.skipped,
                    broken_lines(whole_lines(bytes@), whole_lines(bytes@).len() as int),
                ),
                ..old(self)@
            }),
            final(self).wf() == old(self).wf(),
    {
        let ghost start = self@;
        let mut rows: Vec<String> = Vec::new();
        let mut line: Vec<u8> = Vec::new();
        let mut skipped: u64 = self.skipped;
        let mut i: usize = 0;
        assert(bytes@.take(0) =~= Seq::<u8>::empty());
        assert(text::texts(rows@) =~= Seq::<Seq<char>>::empty());
        while i < bytes.len()
            invariant
                i <= bytes@.len(),
                line@ == unfinished(bytes@.take(i as int)),
                ({
                    let lines = whole_lines(bytes@.take(i as int));
                    &&& text::texts(rows@) == row_texts(lines, lines.len() as int)
                    &&& skipped == plus_capped(
                        start.skipped,
                        broken_lines(lines, lines.len() as int),
                    )
                }),
            decreases bytes.len() - i,
        {
            let b: u8 = bytes[i];
            let ghost before = bytes@.take(i as int);
            let ghost lines = whole_lines(before);
            assert(bytes@.take(i + 1).drop_last() =~= before);
            assert(bytes@.take(i + 1).last() == b);
            if b == 10 {
                let ghost all = lines.push(line@);
                proof {
                    lemma_rows_prefix(lines, all, lines.len() as int);
                    assert(all[all.len() - 1] == line@);
                }
                match decode(line.as_slice()) {
                    None => {
                        skipped = skipped.saturating_add(1);
                    },
                    Some(s) => {
                        let t = text::trim_text(s.as_str());
                        let ghost old_rows = text::texts(rows@);
                        if !t.as_str().is_empty() {
                            let ghost tv = t@;
                            rows.push(t);
                            assert(text::texts(rows@) =~= old_rows.push(tv));
                        }
                    },
                }
                line = Vec::new();
                assert(whole_lines(bytes@.take(i + 1)) == all);
            } else {
                line.push(b);
            }
            i = i + 1;
        }
        assert(bytes@.take(bytes@.len() as int) =~= bytes@);
        proof {
            lemma_unfinished_len(bytes@);
        }
        self.skipped = skipped;
        self.offset = self.offset + (bytes.len() - line.len()) as u64;
        rows
    }

    /// Takes the bytes read on and returns the events of the rows among them.
    ///
    /// `parse` reads one row; a line it cannot read is counted and passed over.
    /// More names than there are identifiers end the poll.
    pub fn poll<P: Fn(&str) -> Option<WatchedRow>>(&mut self, bytes: &[u8], parse: &P) -> (r: Result<
        Vec<Event>,
        TooManyMetrics,
    >)
        requires
            old(self).wf(),
            old(self)@.offset + bytes@.len() <= u64::MAX,
            forall|line: &str| call_requires(*parse, (line,)),
        ensures
            final(self).wf(),
            exists|rows: Seq<Option<RowView>>| #[trigger]
                polled(*parse, old(self)@, bytes@, rows, final(self)@, r),
            forall|g: spec_fn(Seq<char>) -> Option<RowView>| #[trigger]
                reads(*parse, g) ==> {
                    &&& r is Ok <==> fits(old(self)@, bytes@, g)
                    &&& r matches Ok(events) ==> (final(self)@, types::event_views(events@))
                        == poll_of(old(self)@, bytes@, g)
                },
            old(self)@.names.is_prefix_of(final(self)@.names),
    {
        let texts = self.take_lines(bytes);
        let ghost base = self@;
        let ghost mut rows: Seq<Option<RowView>> = Seq::empty();
        let mut events: Vec<Event> = Vec::new();
        let n: usize = texts.len();
        let mut k: usize = 0;
        assert(types::event_views(events@) =~= Seq::<EventView>::empty());
        while k < n
            invariant
                k <= n == texts@.len(),
                self.wf(),
                text::texts(texts@) == texts_in(bytes@),
                base == lines_taken(old(self)@, bytes@),
                forall|line: &str| call_requires(*parse, (line,)),
                rows.len() == k,
                forall|i: int|
                    0 <= i < k ==> parsed_row(*parse, texts@[i]@, #[trigger] rows[i]),
                rows_fit(base, rows, k as int),
                (self@, types::event_views(events@)) == absorbed(base, rows, k as int),
            decreases n - k,
        {
            let ghost before = rows;
            let ghost e0 = types::event_views(events@);
            let row = parse(texts[k].as_str());
            proof {
                rows = before.push(maybe_row(row));
                lemma_absorbed_prefix(base, before, rows, k as int);
                assert(parsed_row(*parse, texts@[k as int]@, maybe_row(row)));
            }
            match row {
                None => {
                    self.skipped = self.skipped.saturating_add(1);
                },
                Some(r) => {
                    if !self.room_for(&r) {
                        proof {
                            assert(rows[k as int] == Some(r@));
                            lemma_rows_fit_cut(base, before, rows, k as int);
                            assert forall|i: int| 0 <= i < rows.len() implies parsed_row(
                                *parse,
                                text::texts(texts@)[i],
                                #[trigger] rows[i],
                            ) by {
                                if i < k {
                                    assert(before[i] == rows[i]);
                                }
                            }
                            let result: Result<Vec<Event>, TooManyMetrics> = Err(TooManyMetrics);
                            assert(polled(*parse, old(self)@, bytes@, rows, self@, result));
                            lemma_polled(*parse, old(self)@, bytes@, rows, self@, result);
                            lemma_names_grow(base, rows, k as int);
                        }
                        return Err(TooManyMetrics);
                    }
                    let event = self.absorb(&r);
                    let ghost ev = event@;
                    events.push(event);
                    assert(types::event_views(events@) =~= e0.push(ev));
                },
            }
            proof {
                lemma_rows_fit_prefix(base, before, rows, k as int);
            }
            k = k + 1;
        }
        proof {
            assert(text::texts(texts@).len() == n);
            let result: Result<Vec<Event>, TooManyMetrics> = Ok(events);
            assert(polled(*parse, old(self)@, bytes@, rows, self@, result));
            lemma_polled(*parse, old(self)@, bytes@, rows, self@, result);
            lemma_names_grow(base, rows, n as int);
        }
        Ok(events)
    }

    /// Takes an event of the run's event log and returns what a dashboard is shown
    /// of it beside the rows of the metric log.
    pub fn surface(&mut self, event: Event) -> (r: Option<Event>)
        requires
            old(self).wf(),
        ensures
            final(self).wf(),
            (final(self)@.names, maybe_event(r)) == surfaced(old(self)@.names, event@),
            final(self)@.offset == old(self)@.offset,
            final(self)@.skipped == old(self)@.skipped,
    {
        match event {
            Event::MetricsRegistered { names } => {
                let ghost start = self@.names;
                let ghost table = types::names_view(names@);
                let mut adopted: Vec<(MetricId, String)> = Vec::new();
                let mut k: usize = 0;
                assert(types::names_view(adopted@) =~= Seq::<(MetricId, Seq<char>)>::empty());
                while k < names.len()
                    invariant
                        k <= names@.len(),
                        table == types::names_view(names@),
                        self.wf(),
                        (self@.names, types::names_view(adopted@)) == table_adopted(
                            start,
                            table,
                            k as int,
                        ),
                        self@.offset == old(self)@.offset,
                        self@.skipped == old(self)@.skipped,
                    decreases names.len() - k,
                {
                    let ghost before = types::names_view(adopted@);
                    match self.registry.try_register(names[k].1.as_str()) {
                        Some(id) => {
                            adopted.push((id, names[k].1.clone()));
                            assert(types::names_view(adopted@) =~= before.push(
                                (id, table[k as int].1),
                            ));
                        },
                        None => {},
                    }
                    k = k + 1;
                }
                Some(Event::MetricsRegistered { names: adopted })
            },
            Event::Checkpoint { path, step } => Some(Event::Checkpoint { path, step }),
            Event::PhaseChange(phase) => Some(Event::PhaseChange(phase)),
            Event::StageChange { name, step } => Some(Event::StageChange { name, step }),
            Event::Alert(alert) => Some(Event::Alert(alert)),
            _ => None,
        }
    }

    /// Puts the rows of a metric log and the events of an event log together as a
    /// dashboard is shown them: every row, and between the rows what the event log
    /// holds besides metrics, where it happened.
    pub fn interleave(&mut self, rows: &Vec<Event>, log: Vec<Event>) -> (r: Vec<Event>)
        requires
            old(self).wf(),
        ensures
            final(self).wf(),
            ({
                let all = shown(
                    old(self)@.names,
                    types::event_views(rows@),
                    types::event_views(log@),
                    log@.len() as int,
                );
                &&& final(self)@ == (TailerData { names: all.names, ..old(self)@ })
                &&& types::event_views(r@) == all.events + types::event_views(rows@).skip(all.rows)
            }),
    {
        let ghost names = self@.names;
        let ghost list = types::event_views(rows@);
        let ghost logged = types::event_views(log@);
        let ghost items = log@;
        let total: usize = log.len();
        let mut rest: Vec<Event> = log;
        let mut out: Vec<Event> = Vec::new();
        let mut taken: usize = 0;
        let mut k: usize = 0;
        assert(types::event_views(out@) =~= Seq::<EventView>::empty());
        while k < total
            invariant
                k <= total == items.len(),
                rest@ == items.skip(k as int),
                logged == types::event_views(items),
                list == types::event_views(rows@),
                taken <= rows@.len(),
                self.wf(),
                self@ == (TailerData {
                    names: shown(names, list, logged, k as int).names,
                    ..old(self)@
                }),
                taken == shown(names, list, logged, k as int).rows,
                types::event_views(out@) == shown(names, list, logged, k as int).events,
            decreases total - k,
        {
            let event: Event = rest.remove(0);
            assert(event == items[k as int]);
            assert(rest@ =~= items.skip(k + 1));
            assert(logged[k as int] == event@);
            match throughput::step_of(&event) {
                Some(step) => {
                    proof {
                        lemma_rows_until(list, taken as int, step);
                    }
                    let ghost end = rows_until(list, taken as int, step);
                    show_rows(rows, &mut taken, Some(step), &mut out);
                    assert(taken == end);
                },
                None => {
                    let ghost before = types::event_views(out@);
                    match self.surface(event) {
                        Some(e) => {
                            let ghost view = e@;
                            out.push(e);
                            assert(types::event_views(out@) =~= before.push(view));
                        },
                        None => {},
                    }
                },
            }
            k = k + 1;
        }
        show_rows(rows, &mut taken, None, &mut out);
        out
    }

    /// How many lines were passed over because they could not be read.
    pub fn skipped(&self) -> (n: u64)
        ensures
            n == self@.skipped,
    {
        self.skipped
    }

    /// The metric names met so far, with their identifiers.
    pub fn labels(&self) -> (r: Vec<(MetricId, String)>)
        requires
            self.wf(),
        ensures
            types::names_view(r@) == Seq::new(
                self@.names.len(),
                |i: int| (MetricId(i as u16), self@.names[i]),
            ),
            self@.names.no_duplicates(),
            r@.len() == self@.names.len() <= registry::MAX_METRICS,
    {
        proof {
            self.registry.names_are_distinct();
        }
        let n: usize = self.registry.len();
        let mut out: Vec<(MetricId, String)> = Vec::new();
        let mut i: usize = 0;
        while i < n
            invariant
                i <= n == self@.names.len(),
                n <= registry::MAX_METRICS,
                out@.len() == i,
                forall|k: int|
                    0 <= k < i ==> (#[trigger] out@[k]).0 == MetricId(k as u16) && out@[k].1@
                        == self@.names[k],
            decreases n - i,
        {
            let id = MetricId(i as u16);
            match self.registry.name(id) {
                Some(name) => {
                    out.push((id, name.to_owned()));
                },
                None => {
                    assert(false);
                },
            }
            i = i + 1;
        }
        assert(types::names_view(out@) =~= Seq::new(
            self@.names.len(),
            |i: int| (MetricId(i as u16), self@.names[i]),
        ));
        out
    }

    /// Whether the names of a row find room.
    pub fn room_for(&self, row: &WatchedRow) -> (r: bool)
        requires
            self.wf(),
        ensures
            r == session::all_fit(self@.names, row_names(row@)),
    {
        let ghost names = self@.names;
        let ghost list = row_names(row@);
        let mut fresh: Vec<String> = Vec::new();
        let mut total: usize = self.registry.len();
        let mut k: usize = 0;
        assert(names + text::texts(fresh@) =~= names);
        proof {
            self.registry.names_are_distinct();
        }
        while k < row.values.entries.len()
            invariant
                k <= list.len() == row.values.entries@.len(),
                list == row_names(row@),
                self.wf(),
                names == self@.names,
                names + text::texts(fresh@) == session::all_registered(names, list, k as int),
                total == names.len() + fresh@.len(),
                total <= registry::MAX_METRICS,
                forall|j: int| 0 <= j < k ==> {
                    let before = #[trigger] session::all_registered(names, list, j);
                    before.contains(list[j]) || before.len() < registry::MAX_METRICS
                },
            decreases row.values.entries.len() - k,
        {
            let name: &String = &row.values.entries[k].0;
            assert(list[k as int] == name@);
            let ghost all = names + text::texts(fresh@);
            let mut known: bool = self.registry.get(name.as_str()).is_some();
            proof {
                if known {
                    let i = choose|i: int| 0 <= i < names.len() && names[i] == name@;
                    assert(all[i] == name@);
                }
            }
            let mut i: usize = 0;
            while i < fresh.len() && !known
                invariant
                    i <= fresh@.len(),
                    all == names + text::texts(fresh@),
                    known ==> all.contains(name@),
                    !known ==> !names.contains(name@) && forall|j: int|
                        0 <= j < i ==> (#[trigger] fresh@[j])@ != name@,
                decreases fresh.len() - i,
            {
                if text::same(fresh[i].as_str(), name.as_str()) {
                    known = true;
                    assert(all[names.len() + i] == name@);
                }
                i = i + 1;
            }
            proof {
                if !known && all.contains(name@) {
                    let j = choose|j: int| 0 <= j < all.len() && all[j] == name@;
                    if j < names.len() {
                        assert(names[j] == name@);
                    } else {
                        assert(fresh@[j - names.len()]@ == name@);
                    }
                }
            }
            if !known {
                if total >= registry::MAX_METRICS {
                    assert(!session::all_fit(names, list)) by {
                        let before = session::all_registered(names, list, k as int);
                        assert(!before.contains(list[k as int]));
                    }
                    return false;
                }
                fresh.push(name.clone());
                total = total + 1;
                assert(names + text::texts(fresh@) =~= all.push(name@));
            }
            k = k + 1;
        }
        true
    }

    /// Registers the names of a row and makes its event.
    fn absorb(&mut self, row: &WatchedRow) -> (event: Event)
        requires
            old(self).wf(),
            session::all_fit(old(self)@.names, row_names(row@)),
        ensures
            final(self).wf(),
            final(self)@ == (TailerData {
                names: session::all_registered(
                    old(self)@.names,
                    row_names(row@),
                    row_names(row@).len() as int,
                ),
                ..old(self)@
            }),
            event@ == row_event(final(self)@.names, row@),
    {
        assert(row_names(row@) =~= session::value_names(row.values.entries@));
        let values = session::register_values(&mut self.registry, &row.values.entries);
        let event = Event::MetricsBatch {
            step: row.step,
            epoch: match row.epoch {
                Some(e) => e,
                None => 0,
            },
            phase: match row.phase {
                Some(p) => p,
                None => default_phase(),
            },
            values,
        };
        assert(event@ =~= row_event(self@.names, row@));
        event
    }
}

/// Appends the rows from `taken` on up to a step, or all of them.
fn show_rows(rows: &Vec<Event>, taken: &mut usize, step: Option<u64>, out: &mut Vec<Event>)
    requires
        *old(taken) <= rows@.len(),
    ensures
        *final(taken) == (match step {
            Some(s) => rows_until(types::event_views(rows@), *old(taken) as int, s),
            None => rows@.len() as int,
        }),
        *old(taken) <= *final(taken) <= rows@.len(),
        types::event_views(final(out)@) == types::event_views(old(out)@) + types::event_views(
            rows@,
        ).subrange(*old(taken) as int, *final(taken) as int),
{
    let ghost list = types::event_views(rows@);
    let ghost start = types::event_views(out@);
    let ghost from = *taken as int;
    let mut i: usize = *taken;
    let n: usize = rows.len();
    let mut more: bool = i < n;
    assert(start + list.subrange(from, from) =~= start);
    while more
        invariant
            0 <= from <= i <= n == rows@.len(),
            more ==> i < n,
            list == types::event_views(rows@),
            step matches Some(s) ==> rows_until(list, from, s) == rows_until(list, i as int, s),
            !more ==> (match step {
                Some(s) => rows_until(list, i as int, s) == i,
                None => i == rows@.len(),
            }),
            types::event_views(out@) == start + list.subrange(from, i as int),
        decreases rows@.len() - i,
                (if more {
                    1int
                } else {
                    0
                }),
    {
        assert(list[i as int] == rows@[i as int]@);
        let later: bool = match (step, throughput::step_of(&rows[i])) {
            (Some(limit), Some(s)) => s > limit,
            _ => false,
        };
        if later {
            more = false;
        } else {
            let ghost before = types::event_views(out@);
            out.push(rows[i].clone());
            assert(types::event_views(out@) =~= before.push(list[i as int]));
            assert(list.subrange(from, i + 1) =~= list.subrange(from, i as int).push(
                list[i as int],
            ));
            i = i + 1;
            more = i < n;
        }
    }
    *taken = i;
}

proof fn lemma_rows_prefix(a: Seq<Seq<u8>>, b: Seq<Seq<u8>>, k: int)
    requires
        0 <= k <= a.len() <= b.len(),
        forall|i: int| 0 <= i < k ==> a[i] == b[i],
    ensures
        row_texts(a, k) == row_texts(b, k),
        broken_lines(a, k) == broken_lines(b, k),
    decreases k,
{
    if k > 0 {
        lemma_rows_prefix(a, b, k - 1);
    }
}

proof fn lemma_absorbed_prefix(
    t: TailerData,
    a: Seq<Option<RowView>>,
    b: Seq<Option<RowView>>,
    k: int,
)
    requires
        k <= a.len() <= b.len(),
        forall|i: int| 0 <= i < k ==> a[i] == b[i],
    ensures
        absorbed(t, a, k) == absorbed(t, b, k),
    decreases k,
{
    if k > 0 {
        lemma_absorbed_prefix(t, a, b, k - 1);
    }
}

proof fn lemma_rows_fit_prefix(
    t: TailerData,
    a: Seq<Option<RowView>>,
    b: Seq<Option<RowView>>,
    k: int,
)
    requires
        k == a.len(),
        b.len() == k + 1,
        forall|i: int| 0 <= i < k ==> a[i] == b[i],
        rows_fit(t, a, k),
        b[k] is Some ==> session::all_fit(absorbed(t, b, k).0.names, row_names(b[k]->0)),
    ensures
        rows_fit(t, b, k + 1),
{
    assert forall|i: int| 0 <= i < k + 1 && (#[trigger] b[i]) is Some implies session::all_fit(
        absorbed(t, b, i).0.names,
        row_names(b[i]->0),
    ) by {
        if i < k {
            assert(a[i] is Some);
            lemma_absorbed_prefix(t, a, b, i);
        }
    }
}

proof fn lemma_rows_fit_cut(
    t: TailerData,
    a: Seq<Option<RowView>>,
    b: Seq<Option<RowView>>,
    k: int,
)
    requires
        k == a.len() <= b.len(),
        forall|i: int| 0 <= i < k ==> a[i] == b[i],
        rows_fit(t, a, k),
    ensures
        rows_fit(t, b, k),
{
    assert forall|i: int| 0 <= i < k && (#[trigger] b[i]) is Some implies session::all_fit(
        absorbed(t, b, i).0.names,
        row_names(b[i]->0),
    ) by {
        assert(a[i] is Some);
        lemma_absorbed_prefix(t, a, b, i);
    }
}

/// Whether `row` is what the closure makes of a line.
pub open spec fn parsed_row<P: Fn(&str) -> Option<WatchedRow>>(
    parse: P,
    line: Seq<char>,
    row: Option<RowView>,
) -> bool {
    exists|s: &str, w: Option<WatchedRow>|
        s@ == line && maybe_row(w) == row && #[trigger] call_ensures(parse, (s,), w)
}

/// The follower once it has taken the whole lines of the bytes read on.
pub open spec fn lines_taken(t: TailerData, bytes: Seq<u8>) -> TailerData {
    let lines = whole_lines(bytes);
    TailerData {
        offset: (t.offset + bytes.len() - unfinished(bytes).len()) as u64,
        skipped: plus_capped(t.skipped, broken_lines(lines, lines.len() as int)),
        ..t
    }
}

/// The rows of the bytes read on, as text.
pub open spec fn texts_in(bytes: Seq<u8>) -> Seq<Seq<char>> {
    row_texts(whole_lines(bytes), whole_lines(bytes).len() as int)
}

/// Whether a poll that read `rows` leads from `before` to `after` with result
/// `r`: the events of all rows, or the end at a row whose names find no room.
pub open spec fn polled<P: Fn(&str) -> Option<WatchedRow>>(
    parse: P,
    before: TailerData,
    bytes: Seq<u8>,
    rows: Seq<Option<RowView>>,
    after: TailerData,
    r: Result<Vec<Event>, TooManyMetrics>,
) -> bool {
    let texts = texts_in(bytes);
    let base = lines_taken(before, bytes);
    &&& rows.len() <= texts.len()
    &&& forall|i: int| 0 <= i < rows.len() ==> parsed_row(parse, texts[i], #[trigger] rows[i])
    &&& match r {
        Ok(events) => rows.len() == texts.len() && rows_fit(base, rows, rows.len() as int) && (
            after,
            types::event_views(events@),
        ) == absorbed(base, rows, rows.len() as int),
        Err(_) => rows.len() > 0 && rows_fit(base, rows, rows.len() - 1) && after == absorbed(
            base,
            rows,
            rows.len() - 1,
        ).0 && (rows.last() matches Some(row) && !session::all_fit(after.names, row_names(row))),
    }
}

/// Whether the closure reads each line as `g` says.
pub open spec fn reads<P: Fn(&str) -> Option<WatchedRow>>(
    parse: P,
    g: spec_fn(Seq<char>) -> Option<RowView>,
) -> bool {
    forall|s: &str, w: Option<WatchedRow>| #[trigger]
        call_ensures(parse, (s,), w) ==> maybe_row(w) == g(s@)
}

/// What `g` reads in each line.
pub open spec fn rows_of(
    texts: Seq<Seq<char>>,
    g: spec_fn(Seq<char>) -> Option<RowView>,
) -> Seq<Option<RowView>> {
    Seq::new(texts.len(), |i: int| g(texts[i]))
}

/// The follower and the events after a poll that read `bytes` on.
pub open spec fn poll_of(
    t: TailerData,
    bytes: Seq<u8>,
    g: spec_fn(Seq<char>) -> Option<RowView>,
) -> (TailerData, Seq<EventView>) {
    absorbed(lines_taken(t, bytes), rows_of(texts_in(bytes), g), texts_in(bytes).len() as int)
}

/// Whether all the names in the bytes read on find room.
pub open spec fn fits(
    t: TailerData,
    bytes: Seq<u8>,
    g: spec_fn(Seq<char>) -> Option<RowView>,
) -> bool {
    rows_fit(lines_taken(t, bytes), rows_of(texts_in(bytes), g), texts_in(bytes).len() as int)
}

proof fn lemma_polled<P: Fn(&str) -> Option<WatchedRow>>(
    parse: P,
    before: TailerData,
    bytes: Seq<u8>,
    rows: Seq<Option<RowView>>,
    after: TailerData,
    r: Result<Vec<Event>, TooManyMetrics>,
)
    requires
        polled(parse, before, bytes, rows, after, r),
    ensures
        forall|g: spec_fn(Seq<char>) -> Option<RowView>| #[trigger]
            reads(parse, g) ==> {
                &&& r is Ok <==> fits(before, bytes, g)
                &&& r matches Ok(events) ==> (after, types::event_views(events@)) == poll_of(
                    before,
                    bytes,
                    g,
                )
            },
{
    let base = lines_taken(before, bytes);
    assert forall|g: spec_fn(Seq<char>) -> Option<RowView>| #[trigger] reads(parse, g) implies {
        &&& r is Ok <==> fits(before, bytes, g)
        &&& r matches Ok(events) ==> (after, types::event_views(events@)) == poll_of(
            before,
            bytes,
            g,
        )
    } by {
        let all = rows_of(texts_in(bytes), g);
        assert forall|i: int| 0 <= i < rows.len() implies rows[i] == all[i] by {
            assert(parsed_row(parse, texts_in(bytes)[i], rows[i]));
        }
        match r {
            Ok(events) => {
                assert(rows =~= all);
            },
            Err(_) => {
                let k = rows.len() - 1;
                lemma_absorbed_prefix(base, rows, all, k);
                assert(all[k] is Some);
            },
        }
    }
}

proof fn lemma_names_grow(t: TailerData, rows: Seq<Option<RowView>>, k: int)
    ensures
        t.names.is_prefix_of(absorbed(t, rows, k).0.names),
    decreases k,
{
    if k > 0 {
        lemma_names_grow(t, rows, k - 1);
        let names = absorbed(t, rows, k - 1).0.names;
        match rows[k - 1] {
            None => {},
            Some(row) => {
                lemma_registered_grow(names, row_names(row), row_names(row).len() as int);
            },
        }
    }
}

proof fn lemma_registered_grow(names: Seq<Seq<char>>, list: Seq<Seq<char>>, k: int)
    ensures
        names.is_prefix_of(session::all_registered(names, list, k)),
    decreases k,
{
    if k > 0 {
        lemma_registered_grow(names, list, k - 1);
    }
}

proof fn lemma_texts_join(a: Seq<Seq<u8>>, b: Seq<Seq<u8>>, k: int)
    requires
        0 <= k <= b.len(),
    ensures
        row_texts(a + b, a.len() + k) == row_texts(a, a.len() as int) + row_texts(b, k),
        broken_lines(a + b, a.len() + k) == broken_lines(a, a.len() as int) + broken_lines(b, k),
    decreases k,
{
    if k == 0 {
        lemma_rows_prefix(a, a + b, a.len() as int);
        assert(row_texts(a, a.len() as int) + row_texts(b, 0) =~= row_texts(a, a.len() as int));
    } else {
        lemma_texts_join(a, b, k - 1);
        assert((a + b)[a.len() + k - 1] == b[k - 1]);
        assert(row_texts(a + b, a.len() + k) =~= row_texts(a, a.len() as int) + row_texts(b, k));
    }
}

proof fn lemma_absorbed_join(
    t: TailerData,
    a: Seq<Option<RowView>>,
    b: Seq<Option<RowView>>,
    k: int,
)
    requires
        0 <= k <= b.len(),
    ensures
        ({
            let (s, first) = absorbed(t, a, a.len() as int);
            let (u, second) = absorbed(s, b, k);
            absorbed(t, a + b, a.len() + k) == (u, first + second)
        }),
    decreases k,
{
    let (s, first) = absorbed(t, a, a.len() as int);
    if k == 0 {
        lemma_absorbed_prefix(t, a, a + b, a.len() as int);
        assert(first + Seq::<EventView>::empty() =~= first);
    } else {
        lemma_absorbed_join(t, a, b, k - 1);
        assert((a + b)[a.len() + k - 1] == b[k - 1]);
        let (u, second) = absorbed(s, b, k - 1);
        match b[k - 1] {
            None => {},
            Some(row) => {
                let names = session::all_registered(
                    u.names,
                    row_names(row),
                    row_names(row).len() as int,
                );
                let event = row_event(names, row);
                assert((first + second).push(event) =~= first + second.push(event));
            },
        }
    }
}

/// A follower that stands elsewhere and passed over `n` lines more.
pub open spec fn moved(t: TailerData, offset: u64, n: nat) -> TailerData {
    TailerData { offset, skipped: plus_capped(t.skipped, n), ..t }
}

proof fn lemma_absorbed_moved(
    t: TailerData,
    offset: u64,
    n: nat,
    rows: Seq<Option<RowView>>,
    k: int,
)
    ensures
        absorbed(moved(t, offset, n), rows, k) == (
            moved(absorbed(t, rows, k).0, offset, n),
            absorbed(t, rows, k).1,
        ),
    decreases k,
{
    if k > 0 {
        lemma_absorbed_moved(t, offset, n, rows, k - 1);
    }
}

proof fn lemma_fits_join(t: TailerData, a: Seq<Option<RowView>>, b: Seq<Option<RowView>>)
    ensures
        rows_fit(t, a + b, (a + b).len() as int) <==> rows_fit(t, a, a.len() as int) && rows_fit(
            absorbed(t, a, a.len() as int).0,
            b,
            b.len() as int,
        ),
{
    let s = absorbed(t, a, a.len() as int).0;
    let both = a + b;
    assert forall|i: int| 0 <= i < a.len() implies a[i] == both[i] && absorbed(t, a, i)
        == #[trigger] absorbed(t, both, i) by {
        lemma_absorbed_prefix(t, a, both, i);
    }
    assert forall|i: int| 0 <= i < b.len() implies both[a.len() + i] == b[i] && #[trigger] absorbed(
        s,
        b,
        i,
    ).0 == absorbed(t, both, a.len() + i).0 by {
        lemma_absorbed_join(t, a, b, i);
    }
    if rows_fit(t, both, both.len() as int) {
        assert forall|i: int| 0 <= i < a.len() && (#[trigger] a[i]) is Some implies session::all_fit(
            absorbed(t, a, i).0.names,
            row_names(a[i]->0),
        ) by {
            assert(both[i] is Some);
            assert(absorbed(t, a, i) == absorbed(t, both, i));
        }
        assert forall|i: int| 0 <= i < b.len() && (#[trigger] b[i]) is Some implies session::all_fit(
            absorbed(s, b, i).0.names,
            row_names(b[i]->0),
        ) by {
            assert(both[a.len() + i] is Some);
        }
    }
    if rows_fit(t, a, a.len() as int) && rows_fit(s, b, b.len() as int) {
        assert forall|i: int| 0 <= i < both.len() && (#[trigger] both[i]) is Some implies session::all_fit(
            absorbed(t, both, i).0.names,
            row_names(both[i]->0),
        ) by {
            if i < a.len() {
                assert(a[i] is Some);
            } else {
                let j = i - a.len();
                assert(b[j] is Some);
                assert(absorbed(s, b, j).0 == absorbed(t, both, a.len() + j).0);
            }
        }
    }
}

proof fn lemma_fits_moved(t: TailerData, offset: u64, n: nat, rows: Seq<Option<RowView>>)
    ensures
        rows_fit(moved(t, offset, n), rows, rows.len() as int) <==> rows_fit(
            t,
            rows,
            rows.len() as int,
        ),
{
    assert forall|i: int| 0 <= i < rows.len() implies (#[trigger] absorbed(
        moved(t, offset, n),
        rows,
        i,
    )).0.names == absorbed(t, rows, i).0.names by {
        lemma_absorbed_moved(t, offset, n, rows, i);
    }
    if rows_fit(moved(t, offset, n), rows, rows.len() as int) {
        assert forall|i: int| 0 <= i < rows.len() && (#[trigger] rows[i]) is Some implies session::all_fit(
            absorbed(t, rows, i).0.names,
            row_names(rows[i]->0),
        ) by {
            assert(absorbed(moved(t, offset, n), rows, i).0.names == absorbed(t, rows, i).0.names);
        }
    }
}

/// Two polls are as good as one, wherever the file was cut between them: a poll
/// that sees `a`, and another that reads on when `b` was added, give the events of
/// one poll that sees both, in order, each line once; and the follower ends with
/// the same count of lines passed over, the same names and the same place in the
/// file.
pub proof fn polls_add_up(
    t: TailerData,
    a: Seq<u8>,
    b: Seq<u8>,
    g: spec_fn(Seq<char>) -> Option<RowView>,
)
    requires
        t.offset + a.len() + b.len() <= u64::MAX,
    ensures
        ({
            let (middle, first) = poll_of(t, a, g);
            let (end, second) = poll_of(middle, unfinished(a) + b, g);
            &&& poll_of(t, a + b, g) == (end, first + second)
            &&& fits(t, a + b, g) <==> fits(t, a, g) && fits(middle, unfinished(a) + b, g)
        }),
{
    let rest = unfinished(a) + b;
    reading_in_pieces_loses_nothing(a, b);
    lemma_unfinished_len(a);
    lemma_unfinished_len(rest);
    let (l1, l2) = (whole_lines(a), whole_lines(rest));
    lemma_texts_join(l1, l2, l2.len() as int);
    let (n1, n2) = (broken_lines(l1, l1.len() as int), broken_lines(l2, l2.len() as int));
    let (r1, r2) = (rows_of(texts_in(a), g), rows_of(texts_in(rest), g));
    assert(rows_of(texts_in(a + b), g) =~= r1 + r2);
    let o1 = lines_taken(t, a).offset;
    let (middle, first) = poll_of(t, a, g);
    let o2 = lines_taken(middle, rest).offset;
    let s = absorbed(t, r1, r1.len() as int).0;
    assert(lines_taken(t, a) == moved(t, o1, n1));
    lemma_absorbed_moved(t, o1, n1, r1, r1.len() as int);
    assert(middle == moved(s, o1, n1));
    assert(lines_taken(middle, rest) == moved(s, o2, n1 + n2));
    lemma_absorbed_moved(s, o2, n1 + n2, r2, r2.len() as int);
    assert(lines_taken(t, a + b) == moved(t, o2, n1 + n2));
    lemma_absorbed_moved(t, o2, n1 + n2, r1 + r2, (r1 + r2).len() as int);
    lemma_absorbed_join(t, r1, r2, r2.len() as int);
    lemma_fits_join(t, r1, r2);
    lemma_fits_moved(t, o1, n1, r1);
    lemma_fits_moved(s, o2, n1 + n2, r2);
    lemma_fits_moved(t, o2, n1 + n2, r1 + r2);
}

/// The rows that could be read, among the first `k`.
pub open spec fn read_rows(rows: Seq<Option<RowView>>, k: int) -> Seq<RowView>
    decreases k,
{
    if k <= 0 {
        Seq::empty()
    } else {
        match rows[k - 1] {
            None => read_rows(rows, k - 1),
            Some(row) => read_rows(rows, k - 1).push(row),
        }
    }
}

/// Whether each name of a row is registered.
pub open spec fn names_known(names: Seq<Seq<char>>, row: RowView) -> bool {
    forall|i: int| 0 <= i < row.values.len() ==> names.contains(#[trigger] row_names(row)[i])
}

proof fn lemma_registered_keeps(names: Seq<Seq<char>>, list: Seq<Seq<char>>, k: int, name: Seq<char>)
    requires
        names.no_duplicates(),
        names.len() <= registry::MAX_METRICS,
    ensures
        session::all_registered(names, list, k).no_duplicates(),
        session::all_registered(names, list, k).len() <= registry::MAX_METRICS,
        names.contains(name) ==> session::all_registered(names, list, k).contains(name)
            && registry::id_of(session::all_registered(names, list, k), name) == registry::id_of(
            names,
            name,
        ),
    decreases k,
{
    if k > 0 {
        lemma_registered_keeps(names, list, k - 1, name);
        let before = session::all_registered(names, list, k - 1);
        registry::identifiers_are_stable(before, list[k - 1], name);
        if names.contains(name) {
            let i = choose|i: int| 0 <= i < before.len() && before[i] == name;
            assert(session::all_registered(names, list, k)[i] == name);
        }
    }
}

proof fn lemma_event_kept(names: Seq<Seq<char>>, list: Seq<Seq<char>>, row: RowView)
    requires
        names.no_duplicates(),
        names.len() <= registry::MAX_METRICS,
        names_known(names, row),
    ensures
        ({
            let after = session::all_registered(names, list, list.len() as int);
            names_known(after, row) && row_event(after, row) == row_event(names, row)
        }),
{
    let after = session::all_registered(names, list, list.len() as int);
    assert forall|i: int| 0 <= i < row.values.len() implies after.contains(
        #[trigger] row_names(row)[i],
    ) && registry::id_of(after, row.values[i].0) == registry::id_of(names, row.values[i].0) by {
        lemma_registered_keeps(names, list, list.len() as int, row_names(row)[i]);
    }
    assert(row_event(after, row)->MetricsBatch_values =~= row_event(
        names,
        row,
    )->MetricsBatch_values) by {
        assert forall|i: int| 0 <= i < row.values.len() implies registry::id_of(
            after,
            row.values[i].0,
        ) == registry::id_of(names, #[trigger] row.values[i].0) by {
            assert(row_names(row)[i] == row.values[i].0);
        }
    }
}

/// The labels name every event: whenever a row was read, its event is the one that
/// the names listed later give it, and each of its names is among them.
pub proof fn labels_name_every_event(t: TailerData, rows: Seq<Option<RowView>>, k: int)
    requires
        t.names.no_duplicates(),
        t.names.len() <= registry::MAX_METRICS,
        0 <= k <= rows.len(),
        rows_fit(t, rows, k),
    ensures
        ({
            let (s, events) = absorbed(t, rows, k);
            let read = read_rows(rows, k);
            &&& s.names.no_duplicates()
            &&& s.names.len() <= registry::MAX_METRICS
            &&& t.names.is_prefix_of(s.names)
            &&& events.len() == read.len()
            &&& forall|e: int|
                0 <= e < read.len() ==> names_known(s.names, #[trigger] read[e]) && events[e]
                    == row_event(s.names, read[e])
        }),
    decreases k,
{
    lemma_names_grow(t, rows, k);
    if k > 0 {
        labels_name_every_event(t, rows, k - 1);
        let (s, events) = absorbed(t, rows, k - 1);
        let read = read_rows(rows, k - 1);
        match rows[k - 1] {
            None => {},
            Some(row) => {
                let list = row_names(row);
                let after = session::all_registered(s.names, list, list.len() as int);
                assert(session::all_fit(s.names, list)) by {
                    assert(rows[k - 1] is Some);
                }
                lemma_registered_keeps(s.names, list, list.len() as int, Seq::empty());
                assert forall|e: int| 0 <= e < read.len() implies names_known(
                    after,
                    #[trigger] read[e],
                ) && events[e] == row_event(after, read[e]) by {
                    lemma_event_kept(s.names, list, read[e]);
                }
                assert forall|i: int| 0 <= i < row.values.len() implies after.contains(
                    #[trigger] row_names(row)[i],
                ) by {
                    session::lemma_all_contained(s.names, list, list.len() as int, i);
                }
                assert forall|e: int| 0 <= e < read_rows(rows, k).len() implies names_known(
                    after,
                    #[trigger] read_rows(rows, k)[e],
                ) && absorbed(t, rows, k).1[e] == row_event(after, read_rows(rows, k)[e]) by {
                    if e < read.len() {
                        assert(read_rows(rows, k)[e] == read[e]);
                        assert(absorbed(t, rows, k).1[e] == events[e]);
                    }
                }
            },
        }
    }
}

proof fn lemma_shown_rows(
    names: Seq<Seq<char>>,
    rows: Seq<EventView>,
    log: Seq<EventView>,
    k: int,
)
    requires
        forall|i: int| 0 <= i < rows.len() ==> (#[trigger] rows[i]) is MetricsBatch,
        0 <= k <= log.len(),
    ensures
        0 <= shown(names, rows, log, k).rows <= rows.len(),
        only_metrics(shown(names, rows, log, k).events) == rows.take(
            shown(names, rows, log, k).rows,
        ),
    decreases k,
{
    if k == 0 {
        assert(rows.take(0) =~= Seq::<EventView>::empty());
    } else {
        lemma_shown_rows(names, rows, log, k - 1);
        let before = shown(names, rows, log, k - 1);
        match throughput::event_step(log[k - 1]) {
            Some(step) => {
                lemma_rows_until(rows, before.rows, step);
                let end = rows_until(rows, before.rows, step);
                let more = rows.subrange(before.rows, end);
                lemma_only_metrics_join(before.events, more);
                assert(rows.take(end) =~= rows.take(before.rows) + more);
            },
            None => {
                match surfaced(before.names, log[k - 1]).1 {
                    Some(e) => {
                        assert(before.events.push(e).drop_last() =~= before.events);
                    },
                    None => {},
                }
            },
        }
    }
}

/// The metrics among events.
pub open spec fn only_metrics(events: Seq<EventView>) -> Seq<EventView>
    decreases events.len(),
{
    if events.len() == 0 {
        Seq::empty()
    } else if throughput::event_step(events.last()) is Some {
        only_metrics(events.drop_last()).push(events.last())
    } else {
        only_metrics(events.drop_last())
    }
}

proof fn lemma_only_metrics_join(a: Seq<EventView>, b: Seq<EventView>)
    requires
        forall|i: int| 0 <= i < b.len() ==> (#[trigger] b[i]) is MetricsBatch,
    ensures
        only_metrics(a + b) == only_metrics(a) + b,
    decreases b.len(),
{
    if b.len() == 0 {
        assert(a + b =~= a);
        assert(only_metrics(a) + b =~= only_metrics(a));
    } else {
        lemma_only_metrics_join(a, b.drop_last());
        assert((a + b).drop_last() =~= a + b.drop_last());
        assert(b.last() is MetricsBatch);
        assert(only_metrics(a) + b =~= (only_metrics(a) + b.drop_last()).push(b.last()));
    }
}

/// An event log neither adds nor takes metrics: what is shown holds the rows of the
/// metric log, each once and in order.
pub proof fn every_row_is_shown_once(
    names: Seq<Seq<char>>,
    rows: Seq<EventView>,
    log: Seq<EventView>,
)
    requires
        forall|i: int| 0 <= i < rows.len() ==> (#[trigger] rows[i]) is MetricsBatch,
    ensures
        ({
            let all = shown(names, rows, log, log.len() as int);
            only_metrics(all.events + rows.skip(all.rows)) == rows
        }),
{
    lemma_shown_rows(names, rows, log, log.len() as int);
    let all = shown(names, rows, log, log.len() as int);
    lemma_only_metrics_join(all.events, rows.skip(all.rows));
    assert(rows.take(all.rows) + rows.skip(all.rows) =~= rows);
}

/// The event of a row carries the whole row: its step, its epoch and phase where it
/// names them (else epoch 0 and training), and as many values as the row, each under
/// the identifier whose label is the value's name.
pub proof fn events_carry_their_rows(names: Seq<Seq<char>>, row: RowView)
    requires
        names_known(names, row),
        names.no_duplicates(),
        names.len() <= registry::MAX_METRICS,
    ensures
        row_event(names, row) matches EventView::MetricsBatch { step, epoch, phase, values } && {
            &&& step == row.step
            &&& epoch == (if row.epoch is Some {
                row.epoch->0
            } else {
                0
            })
            &&& row.phase is Some ==> phase == row.phase->0
            &&& row.phase is None ==> phase == Phase::Train
            &&& values.len() == row.values.len()
            &&& forall|i: int|
                0 <= i < row.values.len() ==> ((#[trigger] values[i]).0.0 as int) < names.len()
                    && names[values[i].0.0 as int] == row.values[i].0 && values[i].1
                    == row.values[i].1
        },
{
    assert forall|i: int| 0 <= i < row.values.len() implies names.contains(
        #[trigger] row.values[i].0,
    ) by {
        assert(row_names(row)[i] == row.values[i].0);
    }
}

/// Rows that could be read are taken up one by one, in order, none left out; and each
/// one that could not be read is counted.
#[verifier::spinoff_prover]
pub proof fn every_readable_row_is_taken(t: TailerData, rows: Seq<Option<RowView>>, k: int)
    requires
        0 <= k <= rows.len(),
    ensures
        read_rows(rows, k) == rows.take(k).filter(|r: Option<RowView>| r is Some).map_values(
            |r: Option<RowView>| r->0,
        ),
        absorbed(t, rows, k).1.len() == read_rows(rows, k).len(),
        absorbed(t, rows, k).0.offset == t.offset,
        t.skipped + (k - read_rows(rows, k).len()) <= u64::MAX ==> absorbed(t, rows, k).0.skipped
            == t.skipped + (k - read_rows(rows, k).len()),
    decreases k,
{
    reveal(Seq::filter);
    let some = |r: Option<RowView>| r is Some;
    let inner = |r: Option<RowView>| r->0;
    if k > 0 {
        every_readable_row_is_taken(t, rows, k - 1);
        assert(rows.take(k).drop_last() =~= rows.take(k - 1));
        assert(rows.take(k).last() == rows[k - 1]);
        assert(read_rows(rows, k) =~= rows.take(k).filter(some).map_values(inner));
    } else {
        assert(rows.take(0) =~= Seq::<Option<RowView>>::empty());
        assert(read_rows(rows, k) =~= rows.take(k).filter(some).map_values(inner));
    }
}

/// Of the lines of a file those that are text and not blank are rows, without the white
/// space around them and in order; those that are no text are counted as broken.
#[verifier::spinoff_prover]
pub proof fn every_text_line_is_a_row(lines: Seq<Seq<u8>>, k: int)
    requires
        0 <= k <= lines.len(),
    ensures
        row_texts(lines, k) == lines.take(k).filter(|l: Seq<u8>| valid_utf8(l)).map_values(
            |l: Seq<u8>| text::trimmed(decode_utf8(l)),
        ).filter(|t: Seq<char>| t.len() > 0),
        broken_lines(lines, k) == lines.take(k).filter(|l: Seq<u8>| !valid_utf8(l)).len(),
    decreases k,
{
    reveal(Seq::filter);
    let good = |l: Seq<u8>| valid_utf8(l);
    let bad = |l: Seq<u8>| !valid_utf8(l);
    let bare = |l: Seq<u8>| text::trimmed(decode_utf8(l));
    let full = |t: Seq<char>| t.len() > 0;
    if k > 0 {
        every_text_line_is_a_row(lines, k - 1);
        let before = lines.take(k - 1);
        let line = lines[k - 1];
        assert(lines.take(k).drop_last() =~= before);
        assert(lines.take(k).last() == line);
        if valid_utf8(line) {
            let mapped = before.filter(good).map_values(bare);
            assert(lines.take(k).filter(good).map_values(bare) =~= mapped.push(bare(line)));
            assert(mapped.push(bare(line)).drop_last() =~= mapped);
        }
    } else {
        assert(lines.take(0) =~= Seq::<Seq<u8>>::empty());
        let none = lines.take(0).filter(good).map_values(bare);
        assert(none =~= Seq::<Seq<char>>::empty());
        assert(none.filter(full) =~= Seq::<Seq<char>>::empty());
    }
}

/// The bytes of lines with their line breaks.
pub open spec fn with_breaks(lines: Seq<Seq<u8>>) -> Seq<u8>
    decreases lines.len(),
{
    if lines.len() == 0 {
        Seq::empty()
    } else {
        with_breaks(lines.drop_last()) + lines.last().push(10)
    }
}

/// Cutting bytes into lines loses none: the whole lines with their breaks and then the
/// unfinished line are the bytes again, and no line has a break within it.
#[verifier::spinoff_prover]
pub proof fn lines_make_up_the_bytes(bytes: Seq<u8>)
    ensures
        with_breaks(whole_lines(bytes)) + unfinished(bytes) == bytes,
        !unfinished(bytes).contains(10),
        forall|i: int|
            0 <= i < whole_lines(bytes).len() ==> !(#[trigger] whole_lines(bytes)[i]).contains(10),
    decreases bytes.len(),
{
    if bytes.len() == 0 {
        assert(with_breaks(whole_lines(bytes)) + unfinished(bytes) =~= bytes);
    } else {
        let before = bytes.drop_last();
        lines_make_up_the_bytes(before);
        assert(bytes =~= before.push(bytes.last()));
        assert(before =~= with_breaks(whole_lines(before)) + unfinished(before));
        if bytes.last() == 10 {
            assert(whole_lines(bytes).drop_last() =~= whole_lines(before));
            assert(with_breaks(whole_lines(bytes)) + unfinished(bytes) =~= bytes);
        } else {
            assert(with_breaks(whole_lines(bytes)) + unfinished(bytes) =~= bytes);
            assert forall|i: int| 0 <= i < unfinished(bytes).len() implies #[trigger] unfinished(
                bytes,
            )[i] != 10 by {
                if i < unfinished(before).len() {
                    assert(unfinished(before).contains(unfinished(before)[i]));
                }
            }
        }
    }
}

/// A follower moves on past the whole lines that it took and their breaks, and stays in
/// front of the line that is still being written.
#[verifier::spinoff_prover]
pub proof fn offsets_stand_behind_whole_lines(t: TailerData, bytes: Seq<u8>)
    requires
        t.offset + bytes.len() <= u64::MAX,
    ensures
        lines_taken(t, bytes).offset == t.offset + with_breaks(whole_lines(bytes)).len(),
        lines_taken(t, bytes).names == t.names,
        t.skipped + bytes.len() <= u64::MAX ==> lines_taken(t, bytes).skipped == t.skipped
            + whole_lines(bytes).filter(|l: Seq<u8>| !valid_utf8(l)).len(),
{
    lines_make_up_the_bytes(bytes);
    let lines = whole_lines(bytes);
    every_text_line_is_a_row(lines, lines.len() as int);
    assert(lines.take(lines.len() as int) =~= lines);
    let bad = |l: Seq<u8>| !valid_utf8(l);
    lines.lemma_filter_len(bad);
    lemma_lines_fit(lines);
}

proof fn lemma_lines_fit(lines: Seq<Seq<u8>>)
    ensures
        lines.len() <= with_breaks(lines).len(),
    decreases lines.len(),
{
    if lines.len() > 0 {
        lemma_lines_fit(lines.drop_last());
    }
}

/// A dashboard that follows files is shown checkpoints, phase and stage changes and
/// alerts of the event log as they are, and its name tables; everything else it is not.
/// Only a name table teaches names.
pub proof fn events_beside_the_metrics_are_surfaced(names: Seq<Seq<char>>, event: EventView)
    ensures
        ({
            let (known, seen) = surfaced(names, event);
            &&& event is Checkpoint || event is PhaseChange || event is StageChange || event is Alert
                ==> seen == Some(event)
            &&& event is MetricsRegistered <==> seen is Some && seen->0 is MetricsRegistered
            &&& event is RunStarted || event is RunFinished || event is ConfigPatch || event is Metric
                || event is MetricsBatch ==> seen is None
            &&& !(event is MetricsRegistered) ==> known == names
        }),
{
}

/// A name table is adopted under the follower's own identifiers: while there is room, each
/// of its names is listed, in order, under the identifier whose label is that name.
#[verifier::spinoff_prover]
pub proof fn name_tables_are_adopted_whole(
    names: Seq<Seq<char>>,
    table: Seq<(MetricId, Seq<char>)>,
    k: int,
)
    requires
        names.no_duplicates(),
        0 <= k <= table.len(),
        names.len() + k <= registry::MAX_METRICS,
    ensures
        ({
            let (known, adopted) = table_adopted(names, table, k);
            &&& names.is_prefix_of(known)
            &&& known.no_duplicates()
            &&& known.len() <= names.len() + k
            &&& adopted.len() == k
            &&& forall|i: int|
                0 <= i < k ==> (#[trigger] adopted[i]).1 == table[i].1 && (adopted[i].0.0 as int)
                    < known.len() && known[adopted[i].0.0 as int] == table[i].1
        }),
    decreases k,
{
    if k > 0 {
        name_tables_are_adopted_whole(names, table, k - 1);
        let (known, adopted) = table_adopted(names, table, k - 1);
        let name = table[k - 1].1;
        let after = registry::names_after(known, name);
        if !known.contains(name) {
            assert(after[known.len() as int] == name);
            assert forall|i: int, j: int| 0 <= i < j < after.len() implies after[i] != after[j] by {
                if j == known.len() {
                    assert(known.contains(known[i]));
                }
            }
        }
        assert(after.contains(name));
        assert(names.is_prefix_of(after)) by {
            assert(after.subrange(0, names.len() as int) =~= known.subrange(0, names.len() as int));
        }
        registry::names_and_identifiers_agree(after, name, 0);
        let (all, listed) = table_adopted(names, table, k);
        assert forall|i: int| 0 <= i < k implies (#[trigger] listed[i]).1 == table[i].1 && (
        listed[i].0.0 as int) < all.len() && all[listed[i].0.0 as int] == table[i].1 by {
            if i < k - 1 {
                assert(listed[i] == adopted[i]);
                assert(all[adopted[i].0.0 as int] == known[adopted[i].0.0 as int]);
            }
        }
    } else {
        assert(names.subrange(0, names.len() as int) =~= names);
    }
}

/// The rows that belong before a step of the event log are those up to the first row of a
/// later step.
pub proof fn rows_come_before_later_steps(rows: Seq<EventView>, i: int, step: u64)
    requires
        0 <= i <= rows.len(),
    ensures
        ({
            let end = rows_until(rows, i, step);
            &&& i <= end <= rows.len()
            &&& forall|j: int|
                i <= j < end ==> !(throughput::event_step(#[trigger] rows[j]) matches Some(s) && s
                    > step)
            &&& end < rows.len() ==> (throughput::event_step(rows[end]) matches Some(s) && s > step)
        }),
    decreases rows.len() - i,
{
    if i < rows.len() {
        if !(throughput::event_step(rows[i]) matches Some(s) && s > step) {
            rows_come_before_later_steps(rows, i + 1, step);
        }
    }
}

/// What is shown grows with each event of the log: metrics of the log bring the rows up to
/// their step, each once and in order, and any other event brings itself where it is
/// surfaced.
pub proof fn each_log_event_brings_its_own(
    names: Seq<Seq<char>>,
    rows: Seq<EventView>,
    log: Seq<EventView>,
    k: int,
)
    requires
        0 <= k < log.len(),
    ensures
        ({
            let before = shown(names, rows, log, k);
            let after = shown(names, rows, log, k + 1);
            &&& shown(names, rows, log, 0).events.len() == 0
            &&& log[k] matches EventView::Metric { step, .. } ==> {
                &&& after.rows == rows_until(rows, before.rows, step)
                &&& after.events == before.events + rows.subrange(before.rows, after.rows)
                &&& after.names == before.names
            }
            &&& log[k] matches EventView::MetricsBatch { step, .. } ==> {
                &&& after.rows == rows_until(rows, before.rows, step)
                &&& after.events == before.events + rows.subrange(before.rows, after.rows)
                &&& after.names == before.names
            }
            &&& !(log[k] is Metric) && !(log[k] is MetricsBatch) ==> {
                let (known, seen) = surfaced(before.names, log[k]);
                &&& after.rows == before.rows
                &&& after.names == known
                &&& seen is None ==> after.events == before.events
                &&& seen is Some ==> after.events == before.events.push(seen->0)
            }
        }),
{
}

} // verus!
