//! The dashboard's state, reduced from the event stream, and its views as
//! styled text.
pub use crate::base::path::checkpoint_label;
pub use crate::base::queue::cap_front;

use crate::base::labels;
use crate::base::path;
use crate::base::queue;
use crate::base::reports;
use crate::base::text;
use crate::base::types;
use crate::base::types::{AlertRecord, AlertView, Event, EventView, MetricId, Phase};
use crate::base::value::Real;
use std::collections::{BTreeMap, VecDeque};
use vstd::prelude::*;

verus! {

broadcast use vstd::std_specs::btree::group_btree_axioms;

/// How many values of a metric are kept.
pub const DEFAULT_HISTORY: usize = 4096;

/// How many alerts are kept.
pub const DEFAULT_ALERTS: usize = 5;

/// How many phase, stage and checkpoint marks are kept, each.
pub const DEFAULT_MARKERS: usize = 512;

/// A tracked metric and its recent history.
#[derive(Debug, PartialEq)]
pub struct MetricView {
    /// The metric's identifier.
    pub id: MetricId,
    /// Its name, or `m{id}` while no name is known.
    pub label: String,
    /// Most recent value.
    pub latest: Real,
    /// Recent values, oldest first.
    pub history: VecDeque<Real>,
    /// The step of each value.
    pub steps: VecDeque<u64>,
}

/// A checkpoint: its step, and a short label made from its path.
#[derive(Debug, PartialEq)]
pub struct Checkpoint {
    pub step: u64,
    pub label: String,
}

/// A named stage that the run entered at `step`.
#[derive(Debug, PartialEq)]
pub struct StageMark {
    pub step: u64,
    pub label: String,
}

/// A phase that the run entered at `step`.
#[derive(Debug, Clone, Copy, PartialEq, Eq, Structural)]
pub struct PhaseSpan {
    pub step: u64,
    pub phase: Phase,
}

/// An earlier run's series of one metric, for comparison.
#[derive(Debug, PartialEq)]
pub struct BaselineSeries {
    /// The metric's name.
    pub label: String,
    /// The step of each value.
    pub steps: Vec<u64>,
    /// The values.
    pub values: Vec<Real>,
}

/// The dashboard's whole state.
#[derive(Debug)]
pub struct UiState {
    /// Project or experiment name.
    pub project: String,
    /// Latest step seen.
    pub step: u64,
    /// Total steps, if known.
    pub total_steps: Option<u64>,
    /// Current phase.
    pub phase: Phase,
    /// Tracked metrics, in first-seen order.
    pub metrics: Vec<MetricView>,
    /// Recent alerts, most recent last.
    pub alerts: Vec<AlertRecord>,
    /// Which metric's chart is shown.
    pub selected: usize,
    /// Whether drawing is paused.
    pub paused: bool,
    /// Whether the run has finished.
    pub finished: bool,
    /// Phase changes, oldest first.
    pub phases: VecDeque<PhaseSpan>,
    /// Checkpoints, oldest first.
    pub checkpoints: VecDeque<Checkpoint>,
    /// Named stages, oldest first. They take precedence over checkpoints as
    /// chart segments.
    pub stages: VecDeque<StageMark>,
    /// Series of an earlier run.
    pub baseline: Vec<BaselineSeries>,
    /// Known metric names.
    pub labels: BTreeMap<u16, String>,
    /// How many values of a metric are kept.
    pub max_history: usize,
    /// How many alerts are kept.
    pub max_alerts: usize,
    /// How many marks of each sort are kept.
    pub max_markers: usize,
}

/// A tracked metric as a mathematical value.
#[verifier::ext_equal]
pub struct MetricData {
    pub id: MetricId,
    pub label: Seq<char>,
    pub latest: Real,
    pub history: Seq<Real>,
    pub steps: Seq<u64>,
}

/// A step and its label.
#[verifier::ext_equal]
pub struct Mark {
    pub step: u64,
    pub label: Seq<char>,
}

/// A baseline series as a mathematical value.
#[verifier::ext_equal]
pub struct BaselineData {
    pub label: Seq<char>,
    pub steps: Seq<u64>,
    pub values: Seq<Real>,
}

/// The dashboard's state as a mathematical value.
#[verifier::ext_equal]
pub struct UiData {
    pub project: Seq<char>,
    pub step: u64,
    pub total_steps: Option<u64>,
    pub phase: Phase,
    pub metrics: Seq<MetricData>,
    pub alerts: Seq<AlertView>,
    pub selected: usize,
    pub paused: bool,
    pub finished: bool,
    pub phases: Seq<PhaseSpan>,
    pub checkpoints: Seq<Mark>,
    pub stages: Seq<Mark>,
    pub baseline: Seq<BaselineData>,
    pub labels: Map<u16, Seq<char>>,
    pub max_history: usize,
    pub max_alerts: usize,
    pub max_markers: usize,
}

impl View for MetricView {
    type V = MetricData;

    open spec fn view(&self) -> MetricData {
        MetricData {
            id: self.id,
            label: self.label@,
            latest: self.latest,
            history: self.history@,
            steps: self.steps@,
        }
    }
}

impl View for Checkpoint {
    type V = Mark;

    open spec fn view(&self) -> Mark {
        Mark { step: self.step, label: self.label@ }
    }
}

impl View for StageMark {
    type V = Mark;

    open spec fn view(&self) -> Mark {
        Mark { step: self.step, label: self.label@ }
    }
}

impl View for BaselineSeries {
    type V = BaselineData;

    open spec fn view(&self) -> BaselineData {
        BaselineData { label: self.label@, steps: self.steps@, values: self.values@ }
    }
}

/// The views of tracked metrics.
pub open spec fn metric_views(s: Seq<MetricView>) -> Seq<MetricData> {
    Seq::new(s.len(), |i: int| s[i]@)
}

/// The views of checkpoints.
pub open spec fn checkpoint_views(s: Seq<Checkpoint>) -> Seq<Mark> {
    Seq::new(s.len(), |i: int| s[i]@)
}

/// The views of stages.
pub open spec fn stage_views(s: Seq<StageMark>) -> Seq<Mark> {
    Seq::new(s.len(), |i: int| s[i]@)
}

/// The views of baseline series.
pub open spec fn baseline_views(s: Seq<BaselineSeries>) -> Seq<BaselineData> {
    Seq::new(s.len(), |i: int| s[i]@)
}

impl View for UiState {
    type V = UiData;

    open spec fn view(&self) -> UiData {
        UiData {
            project: self.project@,
            step: self.step,
            total_steps: self.total_steps,
            phase: self.phase,
            metrics: metric_views(self.metrics@),
            alerts: types::alert_views(self.alerts@),
            selected: self.selected,
            paused: self.paused,
            finished: self.finished,
            phases: self.phases@,
            checkpoints: checkpoint_views(self.checkpoints@),
            stages: stage_views(self.stages@),
            baseline: baseline_views(self.baseline@),
            labels: labels::label_views(self.labels@),
            max_history: self.max_history,
            max_alerts: self.max_alerts,
            max_markers: self.max_markers,
        }
    }
}

/// The empty state.
pub open spec fn empty_state() -> UiData {
    UiData {
        project: Seq::empty(),
        step: 0,
        total_steps: None,
        phase: Phase::Train,
        metrics: Seq::empty(),
        alerts: Seq::empty(),
        selected: 0,
        paused: false,
        finished: false,
        phases: Seq::empty(),
        checkpoints: Seq::empty(),
        stages: Seq::empty(),
        baseline: Seq::empty(),
        labels: Map::empty(),
        max_history: DEFAULT_HISTORY,
        max_alerts: DEFAULT_ALERTS,
        max_markers: DEFAULT_MARKERS,
    }
}

/// The first position from `i` on of the metric `id`, or the end.
pub open spec fn metric_position(metrics: Seq<MetricData>, id: MetricId, i: int) -> int
    decreases metrics.len() - i,
{
    if i >= metrics.len() || metrics[i].id == id {
        i
    } else {
        metric_position(metrics, id, i + 1)
    }
}

/// A metric after one more value.
pub open spec fn metric_after(
    m: MetricData,
    label: Seq<char>,
    value: Real,
    step: u64,
    max: usize,
) -> MetricData {
    let history = m.history.push(value);
    let steps = m.steps.push(step);
    MetricData {
        id: m.id,
        label,
        latest: value,
        history: if history.len() > max {
            history.drop_first()
        } else {
            history
        },
        steps: if history.len() > max {
            steps.drop_first()
        } else {
            steps
        },
    }
}

/// The state after one metric value.
pub open spec fn recorded(s: UiData, id: MetricId, value: Real, step: u64) -> UiData {
    let label = labels::shown_label(s.labels, id);
    let p = metric_position(s.metrics, id, 0);
    let fresh = MetricData {
        id,
        label,
        latest: value,
        history: Seq::empty(),
        steps: Seq::empty(),
    };
    UiData {
        metrics: if p < s.metrics.len() {
            s.metrics.update(p, metric_after(s.metrics[p], label, value, step, s.max_history))
        } else {
            s.metrics.push(metric_after(fresh, label, value, step, s.max_history))
        },
        ..s
    }
}

/// The state after the first `k` values of a batch.
pub open spec fn batch_recorded(
    s: UiData,
    values: Seq<(MetricId, Real)>,
    step: u64,
    k: int,
) -> UiData
    decreases k,
{
    if k <= 0 {
        s
    } else {
        let before = batch_recorded(s, values, step, k - 1);
        recorded(before, values[k - 1].0, values[k - 1].1, step)
    }
}

/// The state after one name is learned: a metric already tracked is relabelled.
pub open spec fn named(s: UiData, id: MetricId, name: Seq<char>) -> UiData {
    let p = metric_position(s.metrics, id, 0);
    UiData {
        labels: s.labels.insert(id.0, name),
        metrics: if p < s.metrics.len() {
            s.metrics.update(p, MetricData { label: name, ..s.metrics[p] })
        } else {
            s.metrics
        },
        ..s
    }
}

/// The state after the first `k` names of a name table.
pub open spec fn all_named(s: UiData, names: Seq<(MetricId, Seq<char>)>, k: int) -> UiData
    decreases k,
{
    if k <= 0 {
        s
    } else {
        named(all_named(s, names, k - 1), names[k - 1].0, names[k - 1].1)
    }
}

/// The state after an event.
pub open spec fn state_after(s: UiData, event: EventView) -> UiData {
    match event {
        EventView::RunStarted(meta) => UiData { project: meta.project, ..s },
        EventView::Metric { id, value, step, .. } => recorded(UiData { step, ..s }, id, value, step),
        EventView::MetricsBatch { step, values, .. } => batch_recorded(
            UiData { step, ..s },
            values,
            step,
            values.len() as int,
        ),
        EventView::PhaseChange(phase) => UiData {
            phase,
            phases: queue::newest(s.phases.push(PhaseSpan { step: s.step, phase }), s.max_markers as int),
            ..s
        },
        EventView::Alert(alert) => {
            let alerts = s.alerts.push(alert);
            UiData {
                alerts: if alerts.len() > s.max_alerts {
                    alerts.drop_first()
                } else {
                    alerts
                },
                ..s
            }
        },
        EventView::Checkpoint { step, path } => UiData {
            checkpoints: queue::newest(
                s.checkpoints.push(Mark { step, label: path::label_of_checkpoint(path) }),
                s.max_markers as int,
            ),
            ..s
        },
        EventView::StageChange { name, step } => UiData {
            stages: queue::newest(s.stages.push(Mark { step, label: name }), s.max_markers as int),
            ..s
        },
        EventView::MetricsRegistered { names } => all_named(s, names, names.len() as int),
        EventView::RunFinished { .. } => UiData { finished: true, ..s },
        EventView::ConfigPatch(_) => s,
    }
}

impl Default for UiState {
    fn default() -> (s: UiState)
        ensures
            s@ == empty_state(),
    {
        let s = UiState {
            project: String::new(),
            step: 0,
            total_steps: None,
            phase: Phase::Train,
            metrics: Vec::new(),
            alerts: Vec::new(),
            selected: 0,
            paused: false,
            finished: false,
            phases: VecDeque::new(),
            checkpoints: VecDeque::new(),
            stages: VecDeque::new(),
            baseline: Vec::new(),
            labels: BTreeMap::new(),
            max_history: DEFAULT_HISTORY,
            max_alerts: DEFAULT_ALERTS,
            max_markers: DEFAULT_MARKERS,
        };
        assert(s@ =~= empty_state());
        s
    }
}

impl UiState {
    /// An empty state that knows the given names.
    pub fn with_labels(names: &[(MetricId, &str)]) -> (s: UiState)
        ensures
            s@ == (UiData { labels: labels::seeded(names@, names@.len() as int), ..empty_state() }),
    {
        let mut state = UiState::default();
        state.labels = labels::label_table(names);
        state
    }

    /// Sets the comparison baseline.
    pub fn set_baseline(&mut self, baseline: Vec<BaselineSeries>)
        ensures
            final(self)@ == (UiData { baseline: baseline_views(baseline@), ..old(self)@ }),
    {
        self.baseline = baseline;
    }

    /// Selects the chart of the metric at `index`; out of range changes nothing.
    pub fn select(&mut self, index: usize)
        ensures
            final(self)@ == (if index < old(self)@.metrics.len() {
                UiData { selected: index, ..old(self)@ }
            } else {
                old(self)@
            }),
    {
        if index < self.metrics.len() {
            self.selected = index;
        }
    }

    /// Toggles the paused flag.
    pub fn toggle_pause(&mut self)
        ensures
            final(self)@ == (UiData { paused: !old(self)@.paused, ..old(self)@ }),
    {
        self.paused = !self.paused;
    }

    fn label_for(&self, id: MetricId) -> (r: String)
        ensures
            r@ == labels::shown_label(self@.labels, id),
    {
        labels::label_in(&self.labels, id)
    }

    fn find_metric(&self, id: MetricId) -> (p: usize)
        ensures
            p == metric_position(self@.metrics, id, 0),
            p <= self.metrics@.len(),
    {
        let mut p: usize = 0;
        while p < self.metrics.len() && self.metrics[p].id != id
            invariant
                p <= self.metrics@.len(),
                metric_position(self@.metrics, id, 0) == metric_position(
                    self@.metrics,
                    id,
                    p as int,
                ),
            decreases self.metrics.len() - p,
        {
            p = p + 1;
        }
        p
    }

    fn record(&mut self, id: MetricId, value: Real, step: u64)
        ensures
            final(self)@ == recorded(old(self)@, id, value, step),
    {
        let ghost before = self@;
        let label = self.label_for(id);
        let max: usize = self.max_history;
        let p: usize = self.find_metric(id);
        if p == self.metrics.len() {
            self.metrics.push(
                MetricView {
                    id,
                    label: String::new(),
                    latest: value,
                    history: VecDeque::new(),
                    steps: VecDeque::new(),
                },
            );
        }
        let view = &mut self.metrics[p];
        view.label = label;
        view.latest = value;
        view.history.push_back(value);
        view.steps.push_back(step);
        if view.history.len() > max {
            let _ = view.history.pop_front();
            let _ = view.steps.pop_front();
        }
        assert(self@.metrics =~= recorded(before, id, value, step).metrics);
    }

    /// Reduces one event into the state.
    pub fn apply(&mut self, event: &Event)
        ensures
            final(self)@ == state_after(old(self)@, event@),
    {
        let ghost before = self@;
        match event {
            Event::RunStarted(meta) => {
                self.project = meta.project.clone();
            },
            Event::Metric { id, value, step, .. } => {
                self.step = *step;
                self.record(*id, *value, *step);
            },
            Event::MetricsBatch { step, values, .. } => {
                self.step = *step;
                let ghost start = self@;
                let mut k: usize = 0;
                while k < values.len()
                    invariant
                        k <= values@.len(),
                        self@ == batch_recorded(start, values@, *step, k as int),
                    decreases values.len() - k,
                {
                    self.record(values[k].0, values[k].1, *step);
                    k = k + 1;
                }
            },
            Event::PhaseChange(phase) => {
                self.phase = *phase;
                self.phases.push_back(PhaseSpan { step: self.step, phase: *phase });
                cap_front(&mut self.phases, self.max_markers);
            },
            Event::Alert(alert) => {
                self.alerts.push(alert.clone());
                assert(types::alert_views(self.alerts@) =~= before.alerts.push(alert@));
                if self.alerts.len() > self.max_alerts {
                    let _ = self.alerts.remove(0);
                    assert(types::alert_views(self.alerts@) =~= before.alerts.push(alert@).drop_first());
                }
            },
            Event::Checkpoint { step, path } => {
                self.checkpoints.push_back(
                    Checkpoint { step: *step, label: checkpoint_label(path.as_str()) },
                );
                cap_front(&mut self.checkpoints, self.max_markers);
                assert(self@.checkpoints =~= state_after(before, event@).checkpoints);
            },
            Event::StageChange { name, step } => {
                self.stages.push_back(StageMark { step: *step, label: name.clone() });
                cap_front(&mut self.stages, self.max_markers);
                assert(self@.stages =~= state_after(before, event@).stages);
            },
            Event::MetricsRegistered { names } => {
                let ghost table = event@->names;
                let mut k: usize = 0;
                while k < names.len()
                    invariant
                        k <= names@.len(),
                        table == types::names_view(names@),
                        self@ == all_named(before, table, k as int),
                    decreases names.len() - k,
                {
                    self.learn_name(names[k].0, &names[k].1);
                    k = k + 1;
                }
            },
            Event::RunFinished { .. } => {
                self.finished = true;
            },
            Event::ConfigPatch(_) => {},
        }
    }

    fn learn_name(&mut self, id: MetricId, name: &String)
        ensures
            final(self)@ == named(old(self)@, id, name@),
    {
        let ghost before = self@;
        let _ = self.labels.insert(id.0, name.clone());
        assert(self@.labels =~= before.labels.insert(id.0, name@));
        let p: usize = self.find_metric(id);
        if p < self.metrics.len() {
            let view = &mut self.metrics[p];
            view.label = name.clone();
            assert(self@.metrics =~= named(before, id, name@).metrics);
        }
    }
}

/// What holds of every state that events lead to: no metric is tracked twice,
/// steps stand beside values, a metric is shown under the name it was registered
/// with (or the stand-in for a name), nothing outgrows its limit, and the
/// selection names a tracked metric as soon as there is one.
pub open spec fn sound(s: UiData) -> bool {
    &&& forall|i: int, j: int|
        0 <= i < j < s.metrics.len() ==> (#[trigger] s.metrics[i]).id != (#[trigger] s.metrics[j]).id
    &&& forall|i: int|
        0 <= i < s.metrics.len() ==> {
            &&& (#[trigger] s.metrics[i]).history.len() == s.metrics[i].steps.len()
            &&& s.metrics[i].history.len() <= s.max_history
            &&& s.metrics[i].label == labels::shown_label(s.labels, s.metrics[i].id)
        }
    &&& s.alerts.len() <= s.max_alerts
    &&& s.phases.len() <= s.max_markers
    &&& s.checkpoints.len() <= s.max_markers
    &&& s.stages.len() <= s.max_markers
    &&& s.selected == 0 || s.selected < s.metrics.len()
}

proof fn lemma_metric_position(metrics: Seq<MetricData>, id: MetricId, i: int)
    requires
        0 <= i <= metrics.len(),
    ensures
        i <= metric_position(metrics, id, i) <= metrics.len(),
        metric_position(metrics, id, i) < metrics.len() ==> metrics[metric_position(
            metrics,
            id,
            i,
        )].id == id,
        forall|k: int|
            i <= k < metric_position(metrics, id, i) ==> (#[trigger] metrics[k]).id != id,
    decreases metrics.len() - i,
{
    if i < metrics.len() && metrics[i].id != id {
        lemma_metric_position(metrics, id, i + 1);
    }
}

proof fn lemma_recorded_sound(s: UiData, id: MetricId, value: Real, step: u64)
    requires
        sound(s),
    ensures
        sound(recorded(s, id, value, step)),
{
    lemma_metric_position(s.metrics, id, 0);
    let r = recorded(s, id, value, step);
    assert forall|i: int, j: int| 0 <= i < j < r.metrics.len() implies (#[trigger] r.metrics[i]).id
        != (#[trigger] r.metrics[j]).id by {
        if j < s.metrics.len() {
            assert(s.metrics[i].id != s.metrics[j].id);
        }
    }
}

proof fn lemma_batch_sound(s: UiData, values: Seq<(MetricId, Real)>, step: u64, k: int)
    requires
        sound(s),
    ensures
        sound(batch_recorded(s, values, step, k)),
    decreases k,
{
    if k > 0 {
        lemma_batch_sound(s, values, step, k - 1);
        lemma_recorded_sound(
            batch_recorded(s, values, step, k - 1),
            values[k - 1].0,
            values[k - 1].1,
            step,
        );
    }
}

proof fn lemma_named_sound(s: UiData, names: Seq<(MetricId, Seq<char>)>, k: int)
    requires
        sound(s),
    ensures
        sound(all_named(s, names, k)),
    decreases k,
{
    if k > 0 {
        lemma_named_sound(s, names, k - 1);
        let t = all_named(s, names, k - 1);
        lemma_metric_position(t.metrics, names[k - 1].0, 0);
        let r = named(t, names[k - 1].0, names[k - 1].1);
        assert forall|i: int, j: int| 0 <= i < j < r.metrics.len() implies (
        #[trigger] r.metrics[i]).id != (#[trigger] r.metrics[j]).id by {
            assert(t.metrics[i].id != t.metrics[j].id);
        }
    }
}

/// The empty state is sound.
pub proof fn empty_state_is_sound()
    ensures
        sound(empty_state()),
{
}

/// No event makes a sound state unsound: memory stays bounded and metrics stay
/// distinct for as long as a run lasts.
pub proof fn events_keep_state_sound(s: UiData, event: EventView)
    requires
        sound(s),
    ensures
        sound(state_after(s, event)),
{
    match event {
        EventView::Metric { id, value, step, .. } => {
            lemma_recorded_sound(UiData { step, ..s }, id, value, step);
        },
        EventView::MetricsBatch { step, values, .. } => {
            lemma_batch_sound(UiData { step, ..s }, values, step, values.len() as int);
        },
        EventView::MetricsRegistered { names } => {
            lemma_named_sound(s, names, names.len() as int);
        },
        _ => {},
    }
}

proof fn lemma_batch_ignores_pause(
    s: UiData,
    paused: bool,
    values: Seq<(MetricId, Real)>,
    step: u64,
    k: int,
)
    ensures
        batch_recorded(UiData { paused, ..s }, values, step, k) == (UiData {
            paused,
            ..batch_recorded(s, values, step, k)
        }),
    decreases k,
{
    if k > 0 {
        lemma_batch_ignores_pause(s, paused, values, step, k - 1);
    }
}

proof fn lemma_names_ignore_pause(
    s: UiData,
    paused: bool,
    names: Seq<(MetricId, Seq<char>)>,
    k: int,
)
    ensures
        all_named(UiData { paused, ..s }, names, k) == (UiData { paused, ..all_named(s, names, k) }),
    decreases k,
{
    if k > 0 {
        lemma_names_ignore_pause(s, paused, names, k - 1);
    }
}

/// Pausing only freezes the display: an event changes a paused state exactly as
/// it changes a running one.
pub proof fn pausing_loses_no_event(s: UiData, paused: bool, event: EventView)
    ensures
        state_after(UiData { paused, ..s }, event) == (UiData { paused, ..state_after(s, event) }),
{
    match event {
        EventView::MetricsBatch { step, values, .. } => {
            lemma_batch_ignores_pause(
                UiData { step, ..s },
                paused,
                values,
                step,
                values.len() as int,
            );
        },
        EventView::MetricsRegistered { names } => {
            lemma_names_ignore_pause(s, paused, names, names.len() as int);
        },
        _ => {},
    }
}

/// Phase changes as the dashboard shows them.
pub open spec fn shown_phases(phases: Seq<(u64, Phase)>) -> Seq<PhaseSpan> {
    Seq::new(phases.len(), |i: int| PhaseSpan { step: phases[i].0, phase: phases[i].1 })
}

/// Checkpoints and stages as the dashboard shows them.
pub open spec fn shown_marks(marks: Seq<(u64, Seq<char>)>) -> Seq<Mark> {
    Seq::new(marks.len(), |i: int| Mark { step: marks[i].0, label: marks[i].1 })
}

/// What the dashboard holds of each metric.
pub open spec fn tracks(metrics: Seq<MetricData>) -> Seq<reports::Track> {
    Seq::new(
        metrics.len(),
        |i: int|
            reports::Track {
                id: metrics[i].id,
                latest: metrics[i].latest,
                history: metrics[i].history,
                steps: metrics[i].steps,
            },
    )
}

/// The state that events lead to.
pub open spec fn reached(s: UiData, events: Seq<EventView>) -> UiData
    decreases events.len(),
{
    if events.len() == 0 {
        s
    } else {
        state_after(reached(s, events.drop_last()), events.last())
    }
}

/// Whether a state has taken no event in yet. It may know names.
pub open spec fn untouched(s: UiData) -> bool {
    &&& s.step == 0
    &&& s.metrics.len() == 0
    &&& s.alerts.len() == 0
    &&& s.phases.len() == 0
    &&& s.checkpoints.len() == 0
    &&& s.stages.len() == 0
}

proof fn lemma_recorded_newest(
    s: UiData,
    rs: Seq<reports::Report>,
    id: MetricId,
    value: Real,
    step: u64,
)
    requires
        sound(s),
        reports::holds_newest(tracks(s.metrics), rs, s.max_history as int),
    ensures
        reports::holds_newest(
            tracks(recorded(s, id, value, step).metrics),
            rs.push(reports::Report { id, value, step }),
            s.max_history as int,
        ),
{
    let report = reports::Report { id, value, step };
    let p = metric_position(s.metrics, id, 0);
    let max = s.max_history as int;
    lemma_metric_position(s.metrics, id, 0);
    reports::lemma_report_taken(tracks(s.metrics), rs, report, p, max);
    let after = recorded(s, id, value, step);
    if p < s.metrics.len() {
        let m = s.metrics[p];
        assert(m.history.len() == m.steps.len() <= max);
        assert(tracks(after.metrics) =~= tracks(s.metrics).update(
            p,
            reports::track_after(tracks(s.metrics)[p], report, max),
        ));
    } else {
        let fresh = reports::Track { id, latest: value, history: Seq::empty(), steps: Seq::empty() };
        assert(tracks(after.metrics) =~= tracks(s.metrics).push(
            reports::track_after(fresh, report, max),
        ));
    }
}

proof fn lemma_batch_newest(
    s: UiData,
    rs: Seq<reports::Report>,
    values: Seq<(MetricId, Real)>,
    step: u64,
    k: int,
)
    requires
        sound(s),
        reports::holds_newest(tracks(s.metrics), rs, s.max_history as int),
        0 <= k <= values.len(),
    ensures
        reports::holds_newest(
            tracks(batch_recorded(s, values, step, k).metrics),
            rs + Seq::new(
                k as nat,
                |i: int| reports::Report { id: values[i].0, value: values[i].1, step },
            ),
            s.max_history as int,
        ),
        batch_recorded(s, values, step, k).max_history == s.max_history,
    decreases k,
{
    let list = Seq::new(
        k as nat,
        |i: int| reports::Report { id: values[i].0, value: values[i].1, step },
    );
    if k == 0 {
        assert(rs + list =~= rs);
    } else {
        lemma_batch_newest(s, rs, values, step, k - 1);
        lemma_batch_sound(s, values, step, k - 1);
        let (id, value) = values[k - 1];
        let before = Seq::new(
            (k - 1) as nat,
            |i: int| reports::Report { id: values[i].0, value: values[i].1, step },
        );
        lemma_recorded_newest(batch_recorded(s, values, step, k - 1), rs + before, id, value, step);
        assert((rs + before).push(reports::Report { id, value, step }) =~= rs + list);
    }
}

proof fn lemma_named_tracks(s: UiData, names: Seq<(MetricId, Seq<char>)>, k: int)
    ensures
        tracks(all_named(s, names, k).metrics) == tracks(s.metrics),
        all_named(s, names, k) == (UiData {
            metrics: all_named(s, names, k).metrics,
            labels: all_named(s, names, k).labels,
            ..s
        }),
    decreases k,
{
    if k > 0 {
        lemma_named_tracks(s, names, k - 1);
        let t = all_named(s, names, k - 1);
        lemma_metric_position(t.metrics, names[k - 1].0, 0);
        assert(tracks(all_named(s, names, k).metrics) =~= tracks(t.metrics));
    }
}

proof fn lemma_batch_rest(s: UiData, values: Seq<(MetricId, Real)>, step: u64, k: int)
    ensures
        batch_recorded(s, values, step, k) == (UiData {
            metrics: batch_recorded(s, values, step, k).metrics,
            ..s
        }),
    decreases k,
{
    if k > 0 {
        lemma_batch_rest(s, values, step, k - 1);
    }
}

/// The dashboard shows the newest of a run, in order: its metrics as they were first
/// seen, of each the latest value and the newest reports, and the newest alerts,
/// phase changes, checkpoints and stages, as many of each as are kept.
pub proof fn the_newest_is_shown(s: UiData, events: Seq<EventView>)
    requires
        untouched(s),
        sound(s),
    ensures
        sound(reached(s, events)),
        reports::holds_newest(
            tracks(reached(s, events).metrics),
            reports::reports(events),
            s.max_history as int,
        ),
        reached(s, events).step == reports::last_step(events),
        reached(s, events).alerts == queue::newest(
            reports::alerts_in(events),
            s.max_alerts as int,
        ),
        reached(s, events).phases == queue::newest(
            shown_phases(reports::phases_in(events)),
            s.max_markers as int,
        ),
        reached(s, events).checkpoints == queue::newest(
            shown_marks(reports::checkpoints_in(events)),
            s.max_markers as int,
        ),
        reached(s, events).stages == queue::newest(
            shown_marks(reports::stages_in(events)),
            s.max_markers as int,
        ),
        reached(s, events).max_history == s.max_history,
        reached(s, events).max_alerts == s.max_alerts,
        reached(s, events).max_markers == s.max_markers,
    decreases events.len(),
{
    if events.len() == 0 {
        assert(tracks(s.metrics) =~= Seq::<reports::Track>::empty());
        assert(Seq::new(0, |i: int| tracks(s.metrics)[i].id) =~= reports::first_seen(
            reports::reports(events),
        ));
        assert(s.alerts =~= queue::newest(Seq::empty(), s.max_alerts as int));
        assert(s.phases =~= queue::newest(shown_phases(Seq::empty()), s.max_markers as int));
        assert(s.checkpoints =~= queue::newest(shown_marks(Seq::empty()), s.max_markers as int));
        assert(s.stages =~= queue::newest(shown_marks(Seq::empty()), s.max_markers as int));
    } else {
        let front = events.drop_last();
        let event = events.last();
        the_newest_is_shown(s, front);
        let t = reached(s, front);
        let rs = reports::reports(front);
        events_keep_state_sound(t, event);
        assert(rs + Seq::<reports::Report>::empty() =~= rs);
        match event {
            EventView::Metric { id, value, step, .. } => {
                lemma_recorded_newest(UiData { step, ..t }, rs, id, value, step);
                assert(rs + reports::reports_in(event) =~= rs.push(
                    reports::Report { id, value, step },
                ));
            },
            EventView::MetricsBatch { step, values, .. } => {
                let u = UiData { step, ..t };
                lemma_batch_newest(u, rs, values, step, values.len() as int);
                lemma_batch_rest(u, values, step, values.len() as int);
                assert(rs + reports::reports_in(event) =~= rs + Seq::new(
                    values.len(),
                    |i: int| reports::Report { id: values[i].0, value: values[i].1, step },
                ));
            },
            EventView::MetricsRegistered { names } => {
                lemma_named_tracks(t, names, names.len() as int);
            },
            EventView::Alert(alert) => {
                let all = reports::alerts_in(front);
                reports::lemma_newest_push(all, alert, s.max_alerts as int);
                assert(state_after(t, event).alerts =~= queue::newest(
                    t.alerts.push(alert),
                    s.max_alerts as int,
                ));
            },
            EventView::PhaseChange(phase) => {
                let all = reports::phases_in(front);
                let shown = shown_phases(all.push((reports::last_step(front), phase)));
                assert(shown =~= shown_phases(all).push(shown.last()));
                reports::lemma_newest_push(shown_phases(all), shown.last(), s.max_markers as int);
            },
            EventView::Checkpoint { step, path } => {
                let all = reports::checkpoints_in(front);
                let shown = shown_marks(all.push((step, path::label_of_checkpoint(path))));
                assert(shown =~= shown_marks(all).push(shown.last()));
                reports::lemma_newest_push(shown_marks(all), shown.last(), s.max_markers as int);
            },
            EventView::StageChange { name, step } => {
                let all = reports::stages_in(front);
                let shown = shown_marks(all.push((step, name)));
                assert(shown =~= shown_marks(all).push(shown.last()));
                reports::lemma_newest_push(shown_marks(all), shown.last(), s.max_markers as int);
            },
            _ => {},
        }
    }
}

/// The last value that is shown of a metric is its latest.
pub proof fn the_latest_is_last(s: UiData, events: Seq<EventView>, i: int)
    requires
        untouched(s),
        sound(s),
        s.max_history > 0,
        0 <= i < reached(s, events).metrics.len(),
    ensures
        ({
            let m = reached(s, events).metrics[i];
            &&& 0 < m.history.len() == m.steps.len() <= s.max_history
            &&& m.history.last() == m.latest
        }),
{
    the_newest_is_shown(s, events);
    let shown = tracks(reached(s, events).metrics);
    reports::lemma_latest_is_last(shown, reports::reports(events), s.max_history as int, i);
    assert(shown[i].history == reached(s, events).metrics[i].history);
}

proof fn lemma_named_rest(s: UiData, names: Seq<(MetricId, Seq<char>)>, k: int)
    ensures
        all_named(s, names, k) == (UiData {
            metrics: all_named(s, names, k).metrics,
            labels: labels::learned(s.labels, names, k),
            ..s
        }),
    decreases k,
{
    if k > 0 {
        lemma_named_rest(s, names, k - 1);
    }
}

/// An event changes its own part of the dashboard and no other: the start of a run its
/// project, a phase change the phase, metrics the step, a name table the known names and
/// the end the finished flag. None touches the selection, the pause, the baseline or the
/// total.
pub proof fn events_change_their_own_part(s: UiData, event: EventView)
    ensures
        ({
            let t = state_after(s, event);
            &&& t.project == (match event {
                EventView::RunStarted(meta) => meta.project,
                _ => s.project,
            })
            &&& t.phase == (match event {
                EventView::PhaseChange(phase) => phase,
                _ => s.phase,
            })
            &&& t.step == (match event {
                EventView::Metric { step, .. } => step,
                EventView::MetricsBatch { step, .. } => step,
                _ => s.step,
            })
            &&& t.finished == (s.finished || event is RunFinished)
            &&& t.labels == (match event {
                EventView::MetricsRegistered { names } => labels::learned(
                    s.labels,
                    names,
                    names.len() as int,
                ),
                _ => s.labels,
            })
            &&& !(event is Alert) ==> t.alerts == s.alerts
            &&& !(event is Checkpoint) ==> t.checkpoints == s.checkpoints
            &&& !(event is StageChange) ==> t.stages == s.stages
            &&& !(event is PhaseChange) ==> t.phases == s.phases
            &&& t.selected == s.selected && t.paused == s.paused && t.baseline == s.baseline
                && t.total_steps == s.total_steps
        }),
{
    match event {
        EventView::MetricsBatch { step, values, .. } => {
            lemma_batch_rest(UiData { step, ..s }, values, step, values.len() as int);
        },
        EventView::MetricsRegistered { names } => {
            lemma_named_rest(s, names, names.len() as int);
        },
        _ => {},
    }
}

} // verus!
