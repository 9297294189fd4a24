//! The dashboard state sent to browsers, reduced from the event stream.
pub use crate::base::path::checkpoint_label;

use crate::base::labels;
use crate::base::path;
use crate::base::queue;
use crate::base::reports;
use crate::base::types;
use crate::base::types::{AlertView, Event, EventView, MetricId, Phase};
use crate::base::value::Real;
use std::collections::{BTreeMap, VecDeque};
use vstd::prelude::*;

verus! {

broadcast use vstd::std_specs::btree::group_btree_axioms;

/// How many values of a metric are kept.
pub const DEFAULT_HISTORY: usize = 2048;

/// How many alerts are kept.
pub const DEFAULT_ALERTS: usize = 16;

/// How many phase, stage and checkpoint marks are kept, each.
pub const DEFAULT_MARKERS: usize = 256;

/// The time between two pushes to a browser, in milliseconds (10 a second).
pub const PUSH_INTERVAL: u64 = 100;

/// A tracked metric and its recent history.
#[derive(Debug, PartialEq)]
pub struct WebMetric {
    /// Metric number.
    pub id: u16,
    /// Its name, or `m{id}` while no name is known.
    pub label: String,
    /// Most recent value.
    pub latest: Real,
    /// Recent values, oldest first.
    pub history: VecDeque<Real>,
    /// The step of each value.
    pub steps: VecDeque<u64>,
}

/// A phase that the run entered at `step`.
#[derive(Debug, PartialEq)]
pub struct PhaseSpan {
    pub step: u64,
    pub phase: String,
}

/// A checkpoint: its step, and a short label made from its path.
#[derive(Debug, PartialEq)]
pub struct WebCheckpoint {
    pub step: u64,
    pub label: String,
}

/// A named stage that the run entered at `step`.
#[derive(Debug, PartialEq)]
pub struct WebStage {
    pub step: u64,
    pub label: String,
}

/// An alert.
#[derive(Debug, PartialEq)]
pub struct WebAlert {
    /// `INFO`, `WARNING` or `CRITICAL`.
    pub severity: String,
    pub message: String,
    pub step: Option<u64>,
}

/// The dashboard's whole state.
#[derive(Debug)]
pub struct WebState {
    /// Project or experiment name.
    pub project: String,
    /// Latest step seen.
    pub step: u64,
    /// Current phase, empty before the first change.
    pub phase: String,
    /// Whether the run has finished.
    pub finished: bool,
    /// Tracked metrics, in first-seen order.
    pub metrics: Vec<WebMetric>,
    /// Recent alerts, most recent last.
    pub alerts: VecDeque<WebAlert>,
    /// Phase changes, oldest first.
    pub phases: VecDeque<PhaseSpan>,
    /// Checkpoints, oldest first.
    pub checkpoints: VecDeque<WebCheckpoint>,
    /// Named stages, oldest first.
    pub stages: VecDeque<WebStage>,
    /// Known metric names.
    pub labels: BTreeMap<u16, String>,
}

/// A tracked metric as a mathematical value.
#[verifier::ext_equal]
pub struct WebMetricData {
    pub id: u16,
    pub label: Seq<char>,
    pub latest: Real,
    pub history: Seq<Real>,
    pub steps: Seq<u64>,
}

/// A step and its text: a phase, a stage or a checkpoint.
#[verifier::ext_equal]
pub struct StepMark {
    pub step: u64,
    pub text: Seq<char>,
}

/// An alert as a mathematical value.
#[verifier::ext_equal]
pub struct WebAlertData {
    pub severity: Seq<char>,
    pub message: Seq<char>,
    pub step: Option<u64>,
}

/// The dashboard's state as a mathematical value.
#[verifier::ext_equal]
pub struct WebData {
    pub project: Seq<char>,
    pub step: u64,
    pub phase: Seq<char>,
    pub finished: bool,
    pub metrics: Seq<WebMetricData>,
    pub alerts: Seq<WebAlertData>,
    pub phases: Seq<StepMark>,
    pub checkpoints: Seq<StepMark>,
    pub stages: Seq<StepMark>,
    pub labels: Map<u16, Seq<char>>,
}

impl View for WebMetric {
    type V = WebMetricData;

    open spec fn view(&self) -> WebMetricData {
        WebMetricData {
            id: self.id,
            label: self.label@,
            latest: self.latest,
            history: self.history@,
            steps: self.steps@,
        }
    }
}

impl View for PhaseSpan {
    type V = StepMark;

    open spec fn view(&self) -> StepMark {
        StepMark { step: self.step, text: self.phase@ }
    }
}

impl View for WebCheckpoint {
    type V = StepMark;

    open spec fn view(&self) -> StepMark {
        StepMark { step: self.step, text: self.label@ }
    }
}

impl View for WebStage {
    type V = StepMark;

    open spec fn view(&self) -> StepMark {
        StepMark { step: self.step, text: self.label@ }
    }
}

impl View for WebAlert {
    type V = WebAlertData;

    open spec fn view(&self) -> WebAlertData {
        WebAlertData { severity: self.severity@, message: self.message@, step: self.step }
    }
}

/// The views of tracked metrics.
pub open spec fn metric_views(s: Seq<WebMetric>) -> Seq<WebMetricData> {
    Seq::new(s.len(), |i: int| s[i]@)
}

/// The views of alerts.
pub open spec fn alert_views(s: Seq<WebAlert>) -> Seq<WebAlertData> {
    Seq::new(s.len(), |i: int| s[i]@)
}

/// The views of phase changes.
pub open spec fn phase_views(s: Seq<PhaseSpan>) -> Seq<StepMark> {
    Seq::new(s.len(), |i: int| s[i]@)
}

/// The views of checkpoints.
pub open spec fn checkpoint_views(s: Seq<WebCheckpoint>) -> Seq<StepMark> {
    Seq::new(s.len(), |i: int| s[i]@)
}

/// The views of stages.
pub open spec fn stage_views(s: Seq<WebStage>) -> Seq<StepMark> {
    Seq::new(s.len(), |i: int| s[i]@)
}

impl View for WebState {
    type V = WebData;

    open spec fn view(&self) -> WebData {
        WebData {
            project: self.project@,
            step: self.step,
            phase: self.phase@,
            finished: self.finished,
            metrics: metric_views(self.metrics@),
            alerts: alert_views(self.alerts@),
            phases: phase_views(self.phases@),
            checkpoints: checkpoint_views(self.checkpoints@),
            stages: stage_views(self.stages@),
            labels: labels::label_views(self.labels@),
        }
    }
}

/// The empty state.
pub open spec fn empty_state() -> WebData {
    WebData {
        project: Seq::empty(),
        step: 0,
        phase: Seq::empty(),
        finished: false,
        metrics: Seq::empty(),
        alerts: Seq::empty(),
        phases: Seq::empty(),
        checkpoints: Seq::empty(),
        stages: Seq::empty(),
        labels: Map::empty(),
    }
}

/// The first position from `i` on of the metric `id`, or the end.
pub open spec fn metric_position(metrics: Seq<WebMetricData>, id: u16, i: int) -> int
    decreases metrics.len() - i,
{
    if i >= metrics.len() || metrics[i].id == id {
        i
    } else {
        metric_position(metrics, id, i + 1)
    }
}

/// A metric after one more value.
pub open spec fn metric_after(m: WebMetricData, value: Real, step: u64) -> WebMetricData {
    let history = m.history.push(value);
    let steps = m.steps.push(step);
    WebMetricData {
        latest: value,
        history: if history.len() > DEFAULT_HISTORY {
            history.drop_first()
        } else {
            history
        },
        steps: if history.len() > DEFAULT_HISTORY {
            steps.drop_first()
        } else {
            steps
        },
        ..m
    }
}

/// The state after one metric value.
pub open spec fn recorded(s: WebData, id: MetricId, value: Real, step: u64) -> WebData {
    let p = metric_position(s.metrics, id.0, 0);
    let fresh = WebMetricData {
        id: id.0,
        label: labels::shown_label(s.labels, id),
        latest: value,
        history: Seq::empty(),
        steps: Seq::empty(),
    };
    WebData {
        metrics: if p < s.metrics.len() {
            s.metrics.update(p, metric_after(s.metrics[p], value, step))
        } else {
            s.metrics.push(metric_after(fresh, value, step))
        },
        ..s
    }
}

/// The state after the first `k` values of a batch.
pub open spec fn batch_recorded(
    s: WebData,
    values: Seq<(MetricId, Real)>,
    step: u64,
    k: int,
) -> WebData
    decreases k,
{
    if k <= 0 {
        s
    } else {
        let before = batch_recorded(s, values, step, k - 1);
        recorded(before, values[k - 1].0, values[k - 1].1, step)
    }
}

/// The state after one name is learned: a metric already tracked is relabelled.
pub open spec fn named(s: WebData, id: MetricId, name: Seq<char>) -> WebData {
    let p = metric_position(s.metrics, id.0, 0);
    WebData {
        labels: s.labels.insert(id.0, name),
        metrics: if p < s.metrics.len() {
            s.metrics.update(p, WebMetricData { label: name, ..s.metrics[p] })
        } else {
            s.metrics
        },
        ..s
    }
}

/// The state after the first `k` names of a name table.
pub open spec fn all_named(s: WebData, names: Seq<(MetricId, Seq<char>)>, k: int) -> WebData
    decreases k,
{
    if k <= 0 {
        s
    } else {
        named(all_named(s, names, k - 1), names[k - 1].0, names[k - 1].1)
    }
}

/// The state after an event.
pub open spec fn state_after(s: WebData, event: EventView) -> WebData {
    match event {
        EventView::RunStarted(meta) => WebData { project: meta.project, ..s },
        EventView::Metric { id, value, step, .. } => recorded(
            WebData { step, ..s },
            id,
            value,
            step,
        ),
        EventView::MetricsBatch { step, values, .. } => batch_recorded(
            WebData { step, ..s },
            values,
            step,
            values.len() as int,
        ),
        EventView::PhaseChange(phase) => WebData {
            phase: types::phase_tag(phase),
            phases: queue::newest(
                s.phases.push(StepMark { step: s.step, text: types::phase_tag(phase) }),
                DEFAULT_MARKERS as int,
            ),
            ..s
        },
        EventView::Alert(alert) => WebData {
            alerts: queue::newest(
                s.alerts.push(
                    WebAlertData {
                        severity: types::severity_tag(alert.severity),
                        message: alert.message,
                        step: alert.step,
                    },
                ),
                DEFAULT_ALERTS as int,
            ),
            ..s
        },
        EventView::Checkpoint { step, path } => WebData {
            checkpoints: queue::newest(
                s.checkpoints.push(StepMark { step, text: path::label_of_checkpoint(path) }),
                DEFAULT_MARKERS as int,
            ),
            ..s
        },
        EventView::StageChange { name, step } => WebData {
            stages: queue::newest(
                s.stages.push(StepMark { step, text: name }),
                DEFAULT_MARKERS as int,
            ),
            ..s
        },
        EventView::MetricsRegistered { names } => all_named(s, names, names.len() as int),
        EventView::RunFinished { .. } => WebData { finished: true, ..s },
        EventView::ConfigPatch(_) => s,
    }
}

/// Drops the oldest elements until at most `max` are left.
pub fn cap<T>(deque: &mut VecDeque<T>, max: usize)
    ensures
        final(deque)@ == queue::newest(old(deque)@, max as int),
{
    queue::cap_front(deque, max)
}

impl Default for WebState {
    fn default() -> (s: WebState)
        ensures
            s@ == empty_state(),
    {
        let s = WebState {
            project: String::new(),
            step: 0,
            phase: String::new(),
            finished: false,
            metrics: Vec::new(),
            alerts: VecDeque::new(),
            phases: VecDeque::new(),
            checkpoints: VecDeque::new(),
            stages: VecDeque::new(),
            labels: BTreeMap::new(),
        };
        assert(s@ =~= empty_state());
        s
    }
}

impl WebState {
    /// An empty state that knows the given names.
    pub fn with_labels(names: &[(MetricId, &str)]) -> (s: WebState)
        ensures
            s@ == (WebData { labels: labels::seeded(names@, names@.len() as int), ..empty_state() }),
    {
        let mut state = WebState::default();
        state.labels = labels::label_table(names);
        state
    }

    fn label_for(&self, id: MetricId) -> (r: String)
        ensures
            r@ == labels::shown_label(self@.labels, id),
    {
        labels::label_in(&self.labels, id)
    }

    fn find_metric(&self, id: u16) -> (p: usize)
        ensures
            p == metric_position(self@.metrics, id, 0),
            p <= self.metrics@.len(),
    {
        let mut p: usize = 0;
        while p < self.metrics.len() && self.metrics[p].id != id
            invariant
                p <= self.metrics@.len(),
                metric_position(self@.metrics, id, 0) == metric_position(
                    self@.metrics,
                    id,
                    p as int,
                ),
            decreases self.metrics.len() - p,
        {
            p = p + 1;
        }
        p
    }

    fn record(&mut self, id: MetricId, value: Real, step: u64)
        ensures
            final(self)@ == recorded(old(self)@, id, value, step),
    {
        let ghost before = self@;
        let p: usize = self.find_metric(id.0);
        if p == self.metrics.len() {
            let label = self.label_for(id);
            self.metrics.push(
                WebMetric {
                    id: id.0,
                    label,
                    latest: value,
                    history: VecDeque::new(),
                    steps: VecDeque::new(),
                },
            );
        }
        let view = &mut self.metrics[p];
        view.latest = value;
        view.history.push_back(value);
        view.steps.push_back(step);
        if view.history.len() > DEFAULT_HISTORY {
            let _ = view.history.pop_front();
            let _ = view.steps.pop_front();
        }
        assert(self@.metrics =~= recorded(before, id, value, step).metrics);
    }

    /// Reduces one event into the state.
    pub fn apply(&mut self, event: &Event)
        ensures
            final(self)@ == state_after(old(self)@, event@),
    {
        let ghost before = self@;
        match event {
            Event::RunStarted(meta) => {
                self.project = meta.project.clone();
            },
            Event::Metric { id, value, step, .. } => {
                self.step = *step;
                self.record(*id, *value, *step);
            },
            Event::MetricsBatch { step, values, .. } => {
                self.step = *step;
                let ghost start = self@;
                let mut k: usize = 0;
                while k < values.len()
                    invariant
                        k <= values@.len(),
                        self@ == batch_recorded(start, values@, *step, k as int),
                    decreases values.len() - k,
                {
                    self.record(values[k].0, values[k].1, *step);
                    k = k + 1;
                }
            },
            Event::PhaseChange(phase) => {
                self.phase = types::phase_str(*phase).to_owned();
                self.phases.push_back(PhaseSpan { step: self.step, phase: self.phase.clone() });
                cap(&mut self.phases, DEFAULT_MARKERS);
                assert(self@.phases =~= state_after(before, event@).phases);
            },
            Event::Alert(alert) => {
                self.alerts.push_back(
                    WebAlert {
                        severity: types::severity_str(alert.severity).to_owned(),
                        message: alert.message.clone(),
                        step: alert.step,
                    },
                );
                cap(&mut self.alerts, DEFAULT_ALERTS);
                assert(self@.alerts =~= state_after(before, event@).alerts);
            },
            Event::Checkpoint { step, path } => {
                self.checkpoints.push_back(
                    WebCheckpoint { step: *step, label: checkpoint_label(path.as_str()) },
                );
                cap(&mut self.checkpoints, DEFAULT_MARKERS);
                assert(self@.checkpoints =~= state_after(before, event@).checkpoints);
            },
            Event::StageChange { name, step } => {
                self.stages.push_back(WebStage { step: *step, label: name.clone() });
                cap(&mut self.stages, DEFAULT_MARKERS);
                assert(self@.stages =~= state_after(before, event@).stages);
            },
            Event::MetricsRegistered { names } => {
                let ghost table = event@->names;
                let mut k: usize = 0;
                while k < names.len()
                    invariant
                        k <= names@.len(),
                        table == types::names_view(names@),
                        self@ == all_named(before, table, k as int),
                    decreases names.len() - k,
                {
                    self.learn_name(names[k].0, &names[k].1);
                    k = k + 1;
                }
            },
            Event::RunFinished { .. } => {
                self.finished = true;
            },
            Event::ConfigPatch(_) => {},
        }
    }

    fn learn_name(&mut self, id: MetricId, name: &String)
        ensures
            final(self)@ == named(old(self)@, id, name@),
    {
        let ghost before = self@;
        let _ = self.labels.insert(id.0, name.clone());
        assert(self@.labels =~= before.labels.insert(id.0, name@));
        let p: usize = self.find_metric(id.0);
        if p < self.metrics.len() {
            let view = &mut self.metrics[p];
            view.label = name.clone();
            assert(self@.metrics =~= named(before, id, name@).metrics);
        }
    }
}

/// What holds of every state that events lead to: no metric is tracked twice,
/// steps stand beside values, a metric is shown under the name it was
/// registered with (or the stand-in for a name), and nothing outgrows its limit.
pub open spec fn sound(s: WebData) -> bool {
    &&& forall|i: int, j: int|
        0 <= i < j < s.metrics.len() ==> (#[trigger] s.metrics[i]).id != (#[trigger] s.metrics[j]).id
    &&& forall|i: int|
        0 <= i < s.metrics.len() ==> {
            &&& (#[trigger] s.metrics[i]).history.len() == s.metrics[i].steps.len()
            &&& s.metrics[i].history.len() <= DEFAULT_HISTORY
            &&& s.metrics[i].label == labels::shown_label(s.labels, MetricId(s.metrics[i].id))
        }
    &&& s.alerts.len() <= DEFAULT_ALERTS
    &&& s.phases.len() <= DEFAULT_MARKERS
    &&& s.checkpoints.len() <= DEFAULT_MARKERS
    &&& s.stages.len() <= DEFAULT_MARKERS
}

proof fn lemma_metric_position(metrics: Seq<WebMetricData>, id: u16, i: int)
    requires
        0 <= i <= metrics.len(),
    ensures
        i <= metric_position(metrics, id, i) <= metrics.len(),
        metric_position(metrics, id, i) < metrics.len() ==> metrics[metric_position(
            metrics,
            id,
            i,
        )].id == id,
        forall|k: int|
            i <= k < metric_position(metrics, id, i) ==> (#[trigger] metrics[k]).id != id,
    decreases metrics.len() - i,
{
    if i < metrics.len() && metrics[i].id != id {
        lemma_metric_position(metrics, id, i + 1);
    }
}

proof fn lemma_recorded_sound(s: WebData, id: MetricId, value: Real, step: u64)
    requires
        sound(s),
    ensures
        sound(recorded(s, id, value, step)),
{
    lemma_metric_position(s.metrics, id.0, 0);
    let r = recorded(s, id, value, step);
    assert forall|i: int, j: int| 0 <= i < j < r.metrics.len() implies (#[trigger] r.metrics[i]).id
        != (#[trigger] r.metrics[j]).id by {
        if j < s.metrics.len() {
            assert(s.metrics[i].id != s.metrics[j].id);
        }
    }
}

proof fn lemma_batch_sound(s: WebData, values: Seq<(MetricId, Real)>, step: u64, k: int)
    requires
        sound(s),
    ensures
        sound(batch_recorded(s, values, step, k)),
    decreases k,
{
    if k > 0 {
        lemma_batch_sound(s, values, step, k - 1);
        lemma_recorded_sound(
            batch_recorded(s, values, step, k - 1),
            values[k - 1].0,
            values[k - 1].1,
            step,
        );
    }
}

proof fn lemma_named_sound(s: WebData, names: Seq<(MetricId, Seq<char>)>, k: int)
    requires
        sound(s),
    ensures
        sound(all_named(s, names, k)),
    decreases k,
{
    if k > 0 {
        lemma_named_sound(s, names, k - 1);
        let t = all_named(s, names, k - 1);
        lemma_metric_position(t.metrics, names[k - 1].0.0, 0);
        let r = named(t, names[k - 1].0, names[k - 1].1);
        assert forall|i: int, j: int| 0 <= i < j < r.metrics.len() implies (
        #[trigger] r.metrics[i]).id != (#[trigger] r.metrics[j]).id by {
            assert(t.metrics[i].id != t.metrics[j].id);
        }
    }
}

/// The empty state is sound.
pub proof fn empty_state_is_sound()
    ensures
        sound(empty_state()),
{
}

/// No event makes a sound state unsound: what is sent to a browser stays
/// bounded however long a run lasts.
pub proof fn events_keep_state_sound(s: WebData, event: EventView)
    requires
        sound(s),
    ensures
        sound(state_after(s, event)),
{
    match event {
        EventView::Metric { id, value, step, .. } => {
            lemma_recorded_sound(WebData { step, ..s }, id, value, step);
        },
        EventView::MetricsBatch { step, values, .. } => {
            lemma_batch_sound(WebData { step, ..s }, values, step, values.len() as int);
        },
        EventView::MetricsRegistered { names } => {
            lemma_named_sound(s, names, names.len() as int);
        },
        _ => {},
    }
}

/// Alerts as the dashboard shows them.
pub open spec fn shown_alerts(alerts: Seq<AlertView>) -> Seq<WebAlertData> {
    Seq::new(
        alerts.len(),
        |i: int|
            WebAlertData {
                severity: types::severity_tag(alerts[i].severity),
                message: alerts[i].message,
                step: alerts[i].step,
            },
    )
}

/// Phase changes as the dashboard shows them.
pub open spec fn shown_phases(phases: Seq<(u64, Phase)>) -> Seq<StepMark> {
    Seq::new(
        phases.len(),
        |i: int| StepMark { step: phases[i].0, text: types::phase_tag(phases[i].1) },
    )
}

/// Checkpoints and stages as the dashboard shows them.
pub open spec fn shown_marks(marks: Seq<(u64, Seq<char>)>) -> Seq<StepMark> {
    Seq::new(marks.len(), |i: int| StepMark { step: marks[i].0, text: marks[i].1 })
}

/// What the dashboard holds of each metric.
pub open spec fn tracks(metrics: Seq<WebMetricData>) -> Seq<reports::Track> {
    Seq::new(
        metrics.len(),
        |i: int|
            reports::Track {
                id: MetricId(metrics[i].id),
                latest: metrics[i].latest,
                history: metrics[i].history,
                steps: metrics[i].steps,
            },
    )
}

/// The state that events lead to.
pub open spec fn reached(s: WebData, events: Seq<EventView>) -> WebData
    decreases events.len(),
{
    if events.len() == 0 {
        s
    } else {
        state_after(reached(s, events.drop_last()), events.last())
    }
}

/// Whether a state has taken no event in yet. It may know names.
pub open spec fn untouched(s: WebData) -> bool {
    &&& s.step == 0
    &&& s.metrics.len() == 0
    &&& s.alerts.len() == 0
    &&& s.phases.len() == 0
    &&& s.checkpoints.len() == 0
    &&& s.stages.len() == 0
}

proof fn lemma_recorded_newest(
    s: WebData,
    rs: Seq<reports::Report>,
    id: MetricId,
    value: Real,
    step: u64,
)
    requires
        sound(s),
        reports::holds_newest(tracks(s.metrics), rs, DEFAULT_HISTORY as int),
    ensures
        reports::holds_newest(
            tracks(recorded(s, id, value, step).metrics),
            rs.push(reports::Report { id, value, step }),
            DEFAULT_HISTORY as int,
        ),
{
    let report = reports::Report { id, value, step };
    let p = metric_position(s.metrics, id.0, 0);
    let max = DEFAULT_HISTORY as int;
    lemma_metric_position(s.metrics, id.0, 0);
    reports::lemma_report_taken(tracks(s.metrics), rs, report, p, max);
    let after = recorded(s, id, value, step);
    if p < s.metrics.len() {
        let m = s.metrics[p];
        assert(m.history.len() == m.steps.len() <= max);
        assert(tracks(after.metrics) =~= tracks(s.metrics).update(
            p,
            reports::track_after(tracks(s.metrics)[p], report, max),
        ));
    } else {
        let fresh = reports::Track { id, latest: value, history: Seq::empty(), steps: Seq::empty() };
        assert(tracks(after.metrics) =~= tracks(s.metrics).push(
            reports::track_after(fresh, report, max),
        ));
    }
}

proof fn lemma_batch_newest(
    s: WebData,
    rs: Seq<reports::Report>,
    values: Seq<(MetricId, Real)>,
    step: u64,
    k: int,
)
    requires
        sound(s),
        reports::holds_newest(tracks(s.metrics), rs, DEFAULT_HISTORY as int),
        0 <= k <= values.len(),
    ensures
        reports::holds_newest(
            tracks(batch_recorded(s, values, step, k).metrics),
            rs + Seq::new(
                k as nat,
                |i: int| reports::Report { id: values[i].0, value: values[i].1, step },
            ),
            DEFAULT_HISTORY as int,
        ),
    decreases k,
{
    let list = Seq::new(
        k as nat,
        |i: int| reports::Report { id: values[i].0, value: values[i].1, step },
    );
    if k == 0 {
        assert(rs + list =~= rs);
    } else {
        lemma_batch_newest(s, rs, values, step, k - 1);
        lemma_batch_sound(s, values, step, k - 1);
        let (id, value) = values[k - 1];
        let before = Seq::new(
            (k - 1) as nat,
            |i: int| reports::Report { id: values[i].0, value: values[i].1, step },
        );
        lemma_recorded_newest(batch_recorded(s, values, step, k - 1), rs + before, id, value, step);
        assert((rs + before).push(reports::Report { id, value, step }) =~= rs + list);
    }
}

proof fn lemma_named_tracks(s: WebData, names: Seq<(MetricId, Seq<char>)>, k: int)
    ensures
        tracks(all_named(s, names, k).metrics) == tracks(s.metrics),
        all_named(s, names, k) == (WebData {
            metrics: all_named(s, names, k).metrics,
            labels: all_named(s, names, k).labels,
            ..s
        }),
    decreases k,
{
    if k > 0 {
        lemma_named_tracks(s, names, k - 1);
        let t = all_named(s, names, k - 1);
        lemma_metric_position(t.metrics, names[k - 1].0.0, 0);
        assert(tracks(all_named(s, names, k).metrics) =~= tracks(t.metrics));
    }
}

proof fn lemma_batch_rest(s: WebData, values: Seq<(MetricId, Real)>, step: u64, k: int)
    ensures
        batch_recorded(s, values, step, k) == (WebData {
            metrics: batch_recorded(s, values, step, k).metrics,
            ..s
        }),
    decreases k,
{
    if k > 0 {
        lemma_batch_rest(s, values, step, k - 1);
    }
}

/// The dashboard shows the newest of a run, in order: its metrics as they were first
/// seen, of each the latest value and the newest reports, and the newest alerts,
/// phase changes, checkpoints and stages, as many of each as are kept.
pub proof fn the_newest_is_shown(s: WebData, events: Seq<EventView>)
    requires
        untouched(s),
        sound(s),
    ensures
        sound(reached(s, events)),
        reports::holds_newest(
            tracks(reached(s, events).metrics),
            reports::reports(events),
            DEFAULT_HISTORY as int,
        ),
        reached(s, events).step == reports::last_step(events),
        reached(s, events).alerts == queue::newest(
            shown_alerts(reports::alerts_in(events)),
            DEFAULT_ALERTS as int,
        ),
        reached(s, events).phases == queue::newest(
            shown_phases(reports::phases_in(events)),
            DEFAULT_MARKERS as int,
        ),
        reached(s, events).checkpoints == queue::newest(
            shown_marks(reports::checkpoints_in(events)),
            DEFAULT_MARKERS as int,
        ),
        reached(s, events).stages == queue::newest(
            shown_marks(reports::stages_in(events)),
            DEFAULT_MARKERS as int,
        ),
    decreases events.len(),
{
    if events.len() == 0 {
        assert(tracks(s.metrics) =~= Seq::<reports::Track>::empty());
        assert(Seq::new(0, |i: int| tracks(s.metrics)[i].id) =~= reports::first_seen(
            reports::reports(events),
        ));
        assert(s.alerts =~= queue::newest(shown_alerts(Seq::empty()), DEFAULT_ALERTS as int));
        assert(s.phases =~= queue::newest(shown_phases(Seq::empty()), DEFAULT_MARKERS as int));
        assert(s.checkpoints =~= queue::newest(shown_marks(Seq::empty()), DEFAULT_MARKERS as int));
        assert(s.stages =~= queue::newest(shown_marks(Seq::empty()), DEFAULT_MARKERS as int));
    } else {
        let front = events.drop_last();
        let event = events.last();
        the_newest_is_shown(s, front);
        let t = reached(s, front);
        let rs = reports::reports(front);
        events_keep_state_sound(t, event);
        assert(rs + Seq::<reports::Report>::empty() =~= rs);
        match event {
            EventView::Metric { id, value, step, .. } => {
                lemma_recorded_newest(WebData { step, ..t }, rs, id, value, step);
                assert(rs + reports::reports_in(event) =~= rs.push(
                    reports::Report { id, value, step },
                ));
            },
            EventView::MetricsBatch { step, values, .. } => {
                let u = WebData { step, ..t };
                lemma_batch_newest(u, rs, values, step, values.len() as int);
                lemma_batch_rest(u, values, step, values.len() as int);
                assert(rs + reports::reports_in(event) =~= rs + Seq::new(
                    values.len(),
                    |i: int| reports::Report { id: values[i].0, value: values[i].1, step },
                ));
            },
            EventView::MetricsRegistered { names } => {
                lemma_named_tracks(t, names, names.len() as int);
            },
            EventView::Alert(alert) => {
                let all = reports::alerts_in(front);
                let shown = shown_alerts(all.push(alert));
                assert(shown =~= shown_alerts(all).push(shown.last()));
                reports::lemma_newest_push(shown_alerts(all), shown.last(), DEFAULT_ALERTS as int);
                assert(state_after(t, event).alerts =~= queue::newest(
                    t.alerts.push(shown.last()),
                    DEFAULT_ALERTS as int,
                ));
            },
            EventView::PhaseChange(phase) => {
                let all = reports::phases_in(front);
                let shown = shown_phases(all.push((reports::last_step(front), phase)));
                assert(shown =~= shown_phases(all).push(shown.last()));
                reports::lemma_newest_push(shown_phases(all), shown.last(), DEFAULT_MARKERS as int);
            },
            EventView::Checkpoint { step, path } => {
                let all = reports::checkpoints_in(front);
                let shown = shown_marks(all.push((step, path::label_of_checkpoint(path))));
                assert(shown =~= shown_marks(all).push(shown.last()));
                reports::lemma_newest_push(shown_marks(all), shown.last(), DEFAULT_MARKERS as int);
            },
            EventView::StageChange { name, step } => {
                let all = reports::stages_in(front);
                let shown = shown_marks(all.push((step, name)));
                assert(shown =~= shown_marks(all).push(shown.last()));
                reports::lemma_newest_push(shown_marks(all), shown.last(), DEFAULT_MARKERS as int);
            },
            _ => {},
        }
    }
}

/// The last value that is shown of a metric is its latest.
pub proof fn the_latest_is_last(s: WebData, events: Seq<EventView>, i: int)
    requires
        untouched(s),
        sound(s),
        0 <= i < reached(s, events).metrics.len(),
    ensures
        ({
            let m = reached(s, events).metrics[i];
            &&& 0 < m.history.len() == m.steps.len() <= DEFAULT_HISTORY
            &&& m.history.last() == m.latest
        }),
{
    the_newest_is_shown(s, events);
    let shown = tracks(reached(s, events).metrics);
    reports::lemma_latest_is_last(shown, reports::reports(events), DEFAULT_HISTORY as int, i);
    assert(shown[i].history == reached(s, events).metrics[i].history);
}

proof fn lemma_named_rest(s: WebData, names: Seq<(MetricId, Seq<char>)>, k: int)
    ensures
        all_named(s, names, k) == (WebData {
            metrics: all_named(s, names, k).metrics,
            labels: labels::learned(s.labels, names, k),
            ..s
        }),
    decreases k,
{
    if k > 0 {
        lemma_named_rest(s, names, k - 1);
    }
}

/// An event changes its own part of the dashboard and no other: the start of a run its
/// project, a phase change the phase, metrics the step, a name table the known names and
/// the end the finished flag.
pub proof fn events_change_their_own_part(s: WebData, event: EventView)
    ensures
        ({
            let t = state_after(s, event);
            &&& t.project == (match event {
                EventView::RunStarted(meta) => meta.project,
                _ => s.project,
            })
            &&& t.phase == (match event {
                EventView::PhaseChange(phase) => types::phase_tag(phase),
                _ => s.phase,
            })
            &&& t.step == (match event {
                EventView::Metric { step, .. } => step,
                EventView::MetricsBatch { step, .. } => step,
                _ => s.step,
            })
            &&& t.finished == (s.finished || event is RunFinished)
            &&& t.labels == (match event {
                EventView::MetricsRegistered { names } => labels::learned(
                    s.labels,
                    names,
                    names.len() as int,
                ),
                _ => s.labels,
            })
            &&& !(event is Alert) ==> t.alerts == s.alerts
            &&& !(event is Checkpoint) ==> t.checkpoints == s.checkpoints
            &&& !(event is StageChange) ==> t.stages == s.stages
            &&& !(event is PhaseChange) ==> t.phases == s.phases
        }),
{
    match event {
        EventView::MetricsBatch { step, values, .. } => {
            lemma_batch_rest(WebData { step, ..s }, values, step, values.len() as int);
        },
        EventView::MetricsRegistered { names } => {
            lemma_named_rest(s, names, names.len() as int);
        },
        _ => {},
    }
}

} // verus!
