//! What a run has reported: its values, alerts and marks, in order.
use crate::base::path;
use crate::base::queue;
use crate::base::types::{AlertView, EventView, MetricId, Phase};
use crate::base::value::Real;
use vstd::prelude::*;

verus! {

/// A value that a metric was reported to have at a step.
#[verifier::ext_equal]
pub struct Report {
    pub id: MetricId,
    pub value: Real,
    pub step: u64,
}

/// The reports that an event carries.
pub open spec fn reports_in(event: EventView) -> Seq<Report> {
    match event {
        EventView::Metric { id, value, step, .. } => seq![Report { id, value, step }],
        EventView::MetricsBatch { step, values, .. } => Seq::new(
            values.len(),
            |i: int| Report { id: values[i].0, value: values[i].1, step },
        ),
        _ => Seq::empty(),
    }
}

/// The reports that events carry.
pub open spec fn reports(events: Seq<EventView>) -> Seq<Report>
    decreases events.len(),
{
    if events.len() == 0 {
        Seq::empty()
    } else {
        reports(events.drop_last()) + reports_in(events.last())
    }
}

/// The reports of one metric.
pub open spec fn of_metric(rs: Seq<Report>, id: MetricId) -> Seq<Report>
    decreases rs.len(),
{
    if rs.len() == 0 {
        Seq::empty()
    } else if rs.last().id == id {
        of_metric(rs.drop_last(), id).push(rs.last())
    } else {
        of_metric(rs.drop_last(), id)
    }
}

/// The values of reports.
pub open spec fn values_of(rs: Seq<Report>) -> Seq<Real> {
    Seq::new(rs.len(), |i: int| rs[i].value)
}

/// The steps of reports.
pub open spec fn steps_of(rs: Seq<Report>) -> Seq<u64> {
    Seq::new(rs.len(), |i: int| rs[i].step)
}

/// The metrics of reports, each where it was first reported.
pub open spec fn first_seen(rs: Seq<Report>) -> Seq<MetricId>
    decreases rs.len(),
{
    if rs.len() == 0 {
        Seq::empty()
    } else {
        let before = first_seen(rs.drop_last());
        if before.contains(rs.last().id) {
            before
        } else {
            before.push(rs.last().id)
        }
    }
}

/// The alerts among events.
pub open spec fn alerts_in(events: Seq<EventView>) -> Seq<AlertView>
    decreases events.len(),
{
    if events.len() == 0 {
        Seq::empty()
    } else {
        let before = alerts_in(events.drop_last());
        match events.last() {
            EventView::Alert(alert) => before.push(alert),
            _ => before,
        }
    }
}

/// The checkpoints among events: the step of each, and its label.
pub open spec fn checkpoints_in(events: Seq<EventView>) -> Seq<(u64, Seq<char>)>
    decreases events.len(),
{
    if events.len() == 0 {
        Seq::empty()
    } else {
        let before = checkpoints_in(events.drop_last());
        match events.last() {
            EventView::Checkpoint { step, path } => before.push(
                (step, path::label_of_checkpoint(path)),
            ),
            _ => before,
        }
    }
}

/// The stages among events: the step of each, and its name.
pub open spec fn stages_in(events: Seq<EventView>) -> Seq<(u64, Seq<char>)>
    decreases events.len(),
{
    if events.len() == 0 {
        Seq::empty()
    } else {
        let before = stages_in(events.drop_last());
        match events.last() {
            EventView::StageChange { name, step } => before.push((step, name)),
            _ => before,
        }
    }
}

/// The step of the last metrics among events, and 0 before there are any.
pub open spec fn last_step(events: Seq<EventView>) -> u64
    decreases events.len(),
{
    if events.len() == 0 {
        0
    } else {
        match events.last() {
            EventView::Metric { step, .. } => step,
            EventView::MetricsBatch { step, .. } => step,
            _ => last_step(events.drop_last()),
        }
    }
}

/// The phase changes among events, each with the step that the run had reached.
pub open spec fn phases_in(events: Seq<EventView>) -> Seq<(u64, Phase)>
    decreases events.len(),
{
    if events.len() == 0 {
        Seq::empty()
    } else {
        let before = phases_in(events.drop_last());
        match events.last() {
            EventView::PhaseChange(phase) => before.push((last_step(events.drop_last()), phase)),
            _ => before,
        }
    }
}

/// What a dashboard holds of one metric.
#[verifier::ext_equal]
pub struct Track {
    pub id: MetricId,
    pub latest: Real,
    pub history: Seq<Real>,
    pub steps: Seq<u64>,
}

/// What is held of a metric after one report more, of which `max` are kept.
pub open spec fn track_after(t: Track, report: Report, max: int) -> Track {
    Track {
        id: t.id,
        latest: report.value,
        history: queue::newest(t.history.push(report.value), max),
        steps: queue::newest(t.steps.push(report.step), max),
    }
}

/// Whether a dashboard holds what reports say: the metrics in the order in which
/// they were first seen, and of each its latest value and its newest `max` reports
/// in order.
pub open spec fn holds_newest(tracks: Seq<Track>, rs: Seq<Report>, max: int) -> bool {
    &&& Seq::new(tracks.len(), |i: int| tracks[i].id) == first_seen(rs)
    &&& forall|i: int|
        0 <= i < tracks.len() ==> {
            let own = of_metric(rs, (#[trigger] tracks[i]).id);
            &&& own.len() > 0
            &&& tracks[i].latest == own.last().value
            &&& tracks[i].history == queue::newest(values_of(own), max)
            &&& tracks[i].steps == queue::newest(steps_of(own), max)
        }
}

proof fn lemma_first_seen(rs: Seq<Report>, id: MetricId)
    ensures
        first_seen(rs).no_duplicates(),
        first_seen(rs).contains(id) <==> of_metric(rs, id).len() > 0,
    decreases rs.len(),
{
    if rs.len() > 0 {
        let before = first_seen(rs.drop_last());
        lemma_first_seen(rs.drop_last(), id);
        lemma_first_seen(rs.drop_last(), rs.last().id);
        if !before.contains(rs.last().id) {
            let after = before.push(rs.last().id);
            assert(after[before.len() as int] == rs.last().id);
            if before.contains(id) {
                let i = choose|i: int| 0 <= i < before.len() && before[i] == id;
                assert(after[i] == id);
            }
        }
    }
}

/// Keeping the newest of what was kept is keeping the newest of all.
pub proof fn lemma_newest_push<T>(s: Seq<T>, x: T, max: int)
    requires
        0 <= max,
    ensures
        queue::newest(queue::newest(s, max).push(x), max) == queue::newest(s.push(x), max),
{
    assert(queue::newest(queue::newest(s, max).push(x), max) =~= queue::newest(s.push(x), max));
}

/// One report more: the metric at position `p`, where it stands or at the end, takes
/// it in.
pub proof fn lemma_report_taken(tracks: Seq<Track>, rs: Seq<Report>, report: Report, p: int, max: int)
    requires
        holds_newest(tracks, rs, max),
        0 <= max,
        0 <= p <= tracks.len(),
        p < tracks.len() ==> tracks[p].id == report.id,
        forall|k: int| 0 <= k < p ==> (#[trigger] tracks[k]).id != report.id,
    ensures
        holds_newest(
            if p < tracks.len() {
                tracks.update(p, track_after(tracks[p], report, max))
            } else {
                tracks.push(
                    track_after(
                        Track {
                            id: report.id,
                            latest: report.value,
                            history: Seq::empty(),
                            steps: Seq::empty(),
                        },
                        report,
                        max,
                    ),
                )
            },
            rs.push(report),
            max,
        ),
{
    let more = rs.push(report);
    assert(more.drop_last() =~= rs);
    let ids = Seq::new(tracks.len(), |i: int| tracks[i].id);
    assert(ids == first_seen(rs));
    lemma_first_seen(rs, report.id);
    let own = of_metric(rs, report.id);
    lemma_newest_push(values_of(own), report.value, max);
    lemma_newest_push(steps_of(own), report.step, max);
    assert(values_of(own.push(report)) =~= values_of(own).push(report.value));
    assert(steps_of(own.push(report)) =~= steps_of(own).push(report.step));
    if p < tracks.len() {
        let after = tracks.update(p, track_after(tracks[p], report, max));
        assert(ids[p] == report.id);
        assert(Seq::new(after.len(), |i: int| after[i].id) =~= ids);
        assert forall|i: int| 0 <= i < after.len() implies {
            let mine = of_metric(more, (#[trigger] after[i]).id);
            &&& mine.len() > 0
            &&& after[i].latest == mine.last().value
            &&& after[i].history == queue::newest(values_of(mine), max)
            &&& after[i].steps == queue::newest(steps_of(mine), max)
        } by {
            if i != p {
                assert(ids[i] != ids[p]);
                assert(after[i] == tracks[i]);
            }
        }
    } else {
        let fresh = Track {
            id: report.id,
            latest: report.value,
            history: Seq::empty(),
            steps: Seq::empty(),
        };
        let after = tracks.push(track_after(fresh, report, max));
        if ids.contains(report.id) {
            let k = choose|k: int| 0 <= k < ids.len() && ids[k] == report.id;
            assert(tracks[k].id == report.id);
        }
        assert(own =~= Seq::<Report>::empty());
        assert(values_of(own) =~= Seq::<Real>::empty());
        assert(steps_of(own) =~= Seq::<u64>::empty());
        assert(Seq::new(after.len(), |i: int| after[i].id) =~= ids.push(report.id));
        assert forall|i: int| 0 <= i < after.len() implies {
            let mine = of_metric(more, (#[trigger] after[i]).id);
            &&& mine.len() > 0
            &&& after[i].latest == mine.last().value
            &&& after[i].history == queue::newest(values_of(mine), max)
            &&& after[i].steps == queue::newest(steps_of(mine), max)
        } by {
            if i < tracks.len() {
                assert(after[i] == tracks[i]);
                assert(tracks[i].id != report.id);
            }
        }
    }
}

/// What is held of a metric ends with its latest value.
pub proof fn lemma_latest_is_last(tracks: Seq<Track>, rs: Seq<Report>, max: int, i: int)
    requires
        holds_newest(tracks, rs, max),
        0 < max,
        0 <= i < tracks.len(),
    ensures
        0 < tracks[i].history.len() <= max,
        tracks[i].history.len() == tracks[i].steps.len(),
        tracks[i].history.last() == tracks[i].latest,
{
    let own = of_metric(rs, tracks[i].id);
    assert(own.len() > 0);
    assert(values_of(own).last() == own.last().value);
}

/// An event reports what it carries: a metric its one value, a batch every value it
/// holds, in order and at its step; other events report nothing.
pub proof fn events_report_every_value(event: EventView)
    ensures
        event matches EventView::Metric { id, value, step, .. } ==> {
            let rs = reports_in(event);
            rs.len() == 1 && rs[0].id == id && rs[0].value == value && rs[0].step == step
        },
        event matches EventView::MetricsBatch { step, values, .. } ==> {
            let rs = reports_in(event);
            &&& rs.len() == values.len()
            &&& forall|i: int|
                0 <= i < values.len() ==> (#[trigger] rs[i]).id == values[i].0 && rs[i].value
                    == values[i].1 && rs[i].step == step
        },
        !(event is Metric) && !(event is MetricsBatch) ==> reports_in(event).len() == 0,
{
}

/// What events tell comes in their order and whole: the reports of one event follow those
/// of the event before, the reports of a metric are those under its identifier, and each
/// alert, checkpoint and stage is told once.
pub proof fn events_are_told_in_order(events: Seq<EventView>, rs: Seq<Report>, id: MetricId)
    ensures
        reports(events) == events.map_values(|e: EventView| reports_in(e)).flatten(),
        of_metric(rs, id) == rs.filter(|r: Report| r.id == id),
        alerts_in(events) == events.filter_map(
            |e: EventView|
                match e {
                    EventView::Alert(alert) => Some(alert),
                    _ => None,
                },
        ),
        checkpoints_in(events) == events.filter_map(
            |e: EventView|
                match e {
                    EventView::Checkpoint { step, path } => Some(
                        (step, path::label_of_checkpoint(path)),
                    ),
                    _ => None,
                },
        ),
        stages_in(events) == events.filter_map(
            |e: EventView|
                match e {
                    EventView::StageChange { name, step } => Some((step, name)),
                    _ => None,
                },
        ),
{
    lemma_reports_flat(events);
    lemma_own_reports(rs, id);
    lemma_alerts_told(events);
    lemma_checkpoints_told(events);
    lemma_stages_told(events);
}

proof fn lemma_reports_flat(events: Seq<EventView>)
    ensures
        reports(events) == events.map_values(|e: EventView| reports_in(e)).flatten(),
    decreases events.len(),
{
    let f = |e: EventView| reports_in(e);
    let parts = events.map_values(f);
    parts.lemma_flatten_and_flatten_alt_are_equivalent();
    if events.len() > 0 {
        let front = events.drop_last();
        lemma_reports_flat(front);
        front.map_values(f).lemma_flatten_and_flatten_alt_are_equivalent();
        assert(parts.drop_last() =~= front.map_values(f));
        assert(parts.last() == reports_in(events.last()));
    }
}

proof fn lemma_own_reports(rs: Seq<Report>, id: MetricId)
    ensures
        of_metric(rs, id) == rs.filter(|r: Report| r.id == id),
    decreases rs.len(),
{
    reveal(Seq::filter);
    if rs.len() > 0 {
        lemma_own_reports(rs.drop_last(), id);
    }
}

proof fn lemma_alerts_told(events: Seq<EventView>)
    ensures
        alerts_in(events) == events.filter_map(
            |e: EventView|
                match e {
                    EventView::Alert(alert) => Some(alert),
                    _ => None,
                },
        ),
    decreases events.len(),
{
    if events.len() > 0 {
        lemma_alerts_told(events.drop_last());
        assert(alerts_in(events) =~= events.filter_map(
            |e: EventView|
                match e {
                    EventView::Alert(alert) => Some(alert),
                    _ => None,
                },
        ));
    }
}

proof fn lemma_checkpoints_told(events: Seq<EventView>)
    ensures
        checkpoints_in(events) == events.filter_map(
            |e: EventView|
                match e {
                    EventView::Checkpoint { step, path } => Some(
                        (step, path::label_of_checkpoint(path)),
                    ),
                    _ => None,
                },
        ),
    decreases events.len(),
{
    if events.len() > 0 {
        lemma_checkpoints_told(events.drop_last());
        assert(checkpoints_in(events) =~= events.filter_map(
            |e: EventView|
                match e {
                    EventView::Checkpoint { step, path } => Some(
                        (step, path::label_of_checkpoint(path)),
                    ),
                    _ => None,
                },
        ));
    }
}

proof fn lemma_stages_told(events: Seq<EventView>)
    ensures
        stages_in(events) == events.filter_map(
            |e: EventView|
                match e {
                    EventView::StageChange { name, step } => Some((step, name)),
                    _ => None,
                },
        ),
    decreases events.len(),
{
    if events.len() > 0 {
        lemma_stages_told(events.drop_last());
        assert(stages_in(events) =~= events.filter_map(
            |e: EventView|
                match e {
                    EventView::StageChange { name, step } => Some((step, name)),
                    _ => None,
                },
        ));
    }
}

/// The step that a run has reached is that of its last metrics, and a phase change stands
/// at the step reached by then.
pub proof fn steps_are_those_of_the_last_metrics(events: Seq<EventView>, event: EventView)
    ensures
        last_step(Seq::empty()) == 0,
        event matches EventView::Metric { step, .. } ==> last_step(events.push(event)) == step,
        event matches EventView::MetricsBatch { step, .. } ==> last_step(events.push(event)) == step,
        !(event is Metric) && !(event is MetricsBatch) ==> last_step(events.push(event))
            == last_step(events),
        event matches EventView::PhaseChange(phase) ==> phases_in(events.push(event)) == phases_in(
            events,
        ).push((last_step(events), phase)),
        !(event is PhaseChange) ==> phases_in(events.push(event)) == phases_in(events),
{
    assert(events.push(event).drop_last() =~= events);
    assert(events.push(event).last() == event);
}

} // verus!
