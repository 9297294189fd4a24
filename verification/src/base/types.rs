//! The event stream and the records around it.
use crate::base::named::NamedValues;
use crate::base::text;
use crate::base::value::Real;
use vstd::prelude::*;

verus! {

/// Training phase, for context-aware logging and styling.
#[derive(Debug, Clone, Copy, PartialEq, Eq, Structural)]
pub enum Phase {
    /// Main training loop.
    Train,
    /// Validation or evaluation.
    Eval,
    /// Test set evaluation.
    Test,
    /// Checkpoint save in progress.
    Checkpoint,
    /// Learning-rate or other warmup.
    Warmup,
}

/// A phase as it is written in files.
pub open spec fn phase_tag(phase: Phase) -> Seq<char> {
    match phase {
        Phase::Train => "TRAIN"@,
        Phase::Eval => "EVAL"@,
        Phase::Test => "TEST"@,
        Phase::Checkpoint => "CHECKPOINT"@,
        Phase::Warmup => "WARMUP"@,
    }
}

/// A phase as it is written in files.
pub fn phase_str(phase: Phase) -> (r: &'static str)
    ensures
        r@ == phase_tag(phase),
{
    match phase {
        Phase::Train => "TRAIN",
        Phase::Eval => "EVAL",
        Phase::Test => "TEST",
        Phase::Checkpoint => "CHECKPOINT",
        Phase::Warmup => "WARMUP",
    }
}

/// The phase with a given name in files, if there is one.
pub open spec fn phase_named(tag: Seq<char>) -> Option<Phase> {
    if tag == phase_tag(Phase::Train) {
        Some(Phase::Train)
    } else if tag == phase_tag(Phase::Eval) {
        Some(Phase::Eval)
    } else if tag == phase_tag(Phase::Test) {
        Some(Phase::Test)
    } else if tag == phase_tag(Phase::Checkpoint) {
        Some(Phase::Checkpoint)
    } else if tag == phase_tag(Phase::Warmup) {
        Some(Phase::Warmup)
    } else {
        None
    }
}

/// The phase with a given name in files, if there is one.
pub fn parse_phase(tag: &str) -> (r: Option<Phase>)
    ensures
        r == phase_named(tag@),
{
    if text::same(tag, phase_str(Phase::Train)) {
        Some(Phase::Train)
    } else if text::same(tag, phase_str(Phase::Eval)) {
        Some(Phase::Eval)
    } else if text::same(tag, phase_str(Phase::Test)) {
        Some(Phase::Test)
    } else if text::same(tag, phase_str(Phase::Checkpoint)) {
        Some(Phase::Checkpoint)
    } else if text::same(tag, phase_str(Phase::Warmup)) {
        Some(Phase::Warmup)
    } else {
        None
    }
}

/// A phase is read back from its name.
pub proof fn phases_read_back(phase: Phase)
    ensures
        phase_named(phase_tag(phase)) == Some(phase),
{
    reveal_strlit("TRAIN");
    reveal_strlit("EVAL");
    reveal_strlit("TEST");
    reveal_strlit("CHECKPOINT");
    reveal_strlit("WARMUP");
    assert("TRAIN"@[0] == 'T' && "TRAIN"@[1] == 'R');
    assert("EVAL"@[0] == 'E');
    assert("TEST"@[0] == 'T' && "TEST"@[1] == 'E');
    assert("CHECKPOINT"@[0] == 'C');
    assert("WARMUP"@[0] == 'W');
}

/// Interned identifier of a registered metric.
#[derive(Debug, Clone, Copy, PartialEq, Eq, Hash, PartialOrd, Ord, Structural)]
pub struct MetricId(pub u16);

impl MetricId {
    /// The raw index.
    pub fn index(self) -> (i: u16)
        ensures
            i == self.0,
    {
        self.0
    }
}

impl vstd::std_specs::convert::FromSpecImpl<u16> for MetricId {
    open spec fn obeys_from_spec() -> bool {
        true
    }

    open spec fn from_spec(value: u16) -> MetricId {
        MetricId(value)
    }
}

impl From<u16> for MetricId {
    fn from(value: u16) -> (id: MetricId) {
        MetricId(value)
    }
}

/// Severity of an alert, from informational to fatal.
#[derive(Debug, Clone, Copy, PartialEq, Eq, Structural)]
pub enum Severity {
    /// Noteworthy but benign.
    Info,
    /// Worth a human glance.
    Warning,
    /// The run's integrity is compromised.
    Critical,
}

/// Why a run ended.
#[derive(Debug, Clone, Copy, PartialEq, Eq, Structural)]
pub enum FinishReason {
    /// The training loop ran to completion.
    Completed,
    /// A user or a signal interrupted the run.
    Interrupted,
    /// The run aborted because of an error.
    Failed,
}

/// A severity as it is written in files.
pub open spec fn severity_tag(severity: Severity) -> Seq<char> {
    match severity {
        Severity::Info => "INFO"@,
        Severity::Warning => "WARNING"@,
        Severity::Critical => "CRITICAL"@,
    }
}

/// A severity as it is written in files.
pub fn severity_str(severity: Severity) -> (r: &'static str)
    ensures
        r@ == severity_tag(severity),
{
    match severity {
        Severity::Info => "INFO",
        Severity::Warning => "WARNING",
        Severity::Critical => "CRITICAL",
    }
}

/// A finish reason as it is written in files.
pub open spec fn reason_tag(reason: FinishReason) -> Seq<char> {
    match reason {
        FinishReason::Completed => "COMPLETED"@,
        FinishReason::Interrupted => "INTERRUPTED"@,
        FinishReason::Failed => "FAILED"@,
    }
}

/// A finish reason as it is written in files.
pub fn reason_str(reason: FinishReason) -> (r: &'static str)
    ensures
        r@ == reason_tag(reason),
{
    match reason {
        FinishReason::Completed => "COMPLETED",
        FinishReason::Interrupted => "INTERRUPTED",
        FinishReason::Failed => "FAILED",
    }
}

/// A calm alert for observers and the event log.
#[derive(Debug, PartialEq)]
pub struct AlertRecord {
    /// How serious the condition is.
    pub severity: Severity,
    /// Human-readable text.
    pub message: String,
    /// The step it refers to, if any.
    pub step: Option<u64>,
}

/// What is known of a run when it starts.
#[derive(Debug, PartialEq)]
pub struct RunMeta {
    /// Unique identifier of the run, as the 128 bits of a UUID.
    pub run_id: u128,
    /// Project or experiment name.
    pub project: String,
    /// Hyperparameters and configuration, as JSON text.
    pub config: String,
    /// Unix time at the start, in seconds.
    pub start_time_secs: Real,
}

/// A single event of the append-only event stream.
#[derive(Debug, PartialEq)]
pub enum Event {
    /// One metric value at a step.
    Metric { id: MetricId, value: Real, step: u64, epoch: u32, phase: Phase },
    /// Several metric values that share step, epoch and phase.
    MetricsBatch { step: u64, epoch: u32, phase: Phase, values: Vec<(MetricId, Real)> },
    /// The names behind metric identifiers.
    MetricsRegistered { names: Vec<(MetricId, String)> },
    /// The run moved to another phase.
    PhaseChange(Phase),
    /// The run entered a named stage.
    StageChange { name: String, step: u64 },
    /// A checkpoint was written.
    Checkpoint { path: String, step: u64 },
    /// A patch to the run configuration, as JSON text.
    ConfigPatch(String),
    /// An anomaly or another notable condition.
    Alert(AlertRecord),
    /// The run started.
    RunStarted(RunMeta),
    /// The run finished.
    RunFinished { duration_secs: Real, reason: FinishReason },
}

/// A wide metric row: the values of one step under their names.
#[derive(Debug, PartialEq)]
pub struct MetricRecord {
    /// Global training step.
    pub step: u64,
    /// Current epoch.
    pub epoch: u32,
    /// Phase of the values.
    pub phase: Phase,
    /// The values by name.
    pub values: NamedValues,
}

/// An alert as a mathematical value.
#[verifier::ext_equal]
pub struct AlertView {
    pub severity: Severity,
    pub message: Seq<char>,
    pub step: Option<u64>,
}

/// Run metadata as a mathematical value.
#[verifier::ext_equal]
pub struct RunMetaView {
    pub run_id: u128,
    pub project: Seq<char>,
    pub config: Seq<char>,
    pub start_time_secs: Real,
}

/// An event as a mathematical value.
#[verifier::ext_equal]
pub enum EventView {
    Metric { id: MetricId, value: Real, step: u64, epoch: u32, phase: Phase },
    MetricsBatch { step: u64, epoch: u32, phase: Phase, values: Seq<(MetricId, Real)> },
    MetricsRegistered { names: Seq<(MetricId, Seq<char>)> },
    PhaseChange(Phase),
    StageChange { name: Seq<char>, step: u64 },
    Checkpoint { path: Seq<char>, step: u64 },
    ConfigPatch(Seq<char>),
    Alert(AlertView),
    RunStarted(RunMetaView),
    RunFinished { duration_secs: Real, reason: FinishReason },
}

/// A metric row as a mathematical value.
#[verifier::ext_equal]
pub struct MetricRecordView {
    pub step: u64,
    pub epoch: u32,
    pub phase: Phase,
    pub values: Map<Seq<char>, Real>,
}

/// Named identifiers with the names as character sequences.
pub open spec fn names_view(names: Seq<(MetricId, String)>) -> Seq<(MetricId, Seq<char>)> {
    Seq::new(names.len(), |i: int| (names[i].0, names[i].1@))
}

/// The views of alerts.
pub open spec fn alert_views(s: Seq<AlertRecord>) -> Seq<AlertView> {
    Seq::new(s.len(), |i: int| s[i]@)
}

/// The views of a sequence of events.
pub open spec fn event_views(events: Seq<Event>) -> Seq<EventView> {
    Seq::new(events.len(), |i: int| events[i]@)
}

impl View for AlertRecord {
    type V = AlertView;

    open spec fn view(&self) -> AlertView {
        AlertView { severity: self.severity, message: self.message@, step: self.step }
    }
}

impl View for RunMeta {
    type V = RunMetaView;

    open spec fn view(&self) -> RunMetaView {
        RunMetaView {
            run_id: self.run_id,
            project: self.project@,
            config: self.config@,
            start_time_secs: self.start_time_secs,
        }
    }
}

impl View for Event {
    type V = EventView;

    open spec fn view(&self) -> EventView {
        match *self {
            Event::Metric { id, value, step, epoch, phase } => EventView::Metric {
                id,
                value,
                step,
                epoch,
                phase,
            },
            Event::MetricsBatch { step, epoch, phase, values } => EventView::MetricsBatch {
                step,
                epoch,
                phase,
                values: values@,
            },
            Event::MetricsRegistered { names } => EventView::MetricsRegistered {
                names: names_view(names@),
            },
            Event::PhaseChange(phase) => EventView::PhaseChange(phase),
            Event::StageChange { name, step } => EventView::StageChange { name: name@, step },
            Event::Checkpoint { path, step } => EventView::Checkpoint { path: path@, step },
            Event::ConfigPatch(patch) => EventView::ConfigPatch(patch@),
            Event::Alert(alert) => EventView::Alert(alert@),
            Event::RunStarted(meta) => EventView::RunStarted(meta@),
            Event::RunFinished { duration_secs, reason } => EventView::RunFinished {
                duration_secs,
                reason,
            },
        }
    }
}

impl View for MetricRecord {
    type V = MetricRecordView;

    open spec fn view(&self) -> MetricRecordView {
        MetricRecordView {
            step: self.step,
            epoch: self.epoch,
            phase: self.phase,
            values: self.values@,
        }
    }
}

impl Clone for AlertRecord {
    fn clone(&self) -> (r: AlertRecord)
        ensures
            r@ == self@,
    {
        AlertRecord { severity: self.severity, message: self.message.clone(), step: self.step }
    }
}

impl Clone for RunMeta {
    fn clone(&self) -> (r: RunMeta)
        ensures
            r@ == self@,
    {
        RunMeta {
            run_id: self.run_id,
            project: self.project.clone(),
            config: self.config.clone(),
            start_time_secs: self.start_time_secs,
        }
    }
}

/// A copy of a list of values.
pub fn copy_values(values: &Vec<(MetricId, Real)>) -> (r: Vec<(MetricId, Real)>)
    ensures
        r@ == values@,
{
    let mut out: Vec<(MetricId, Real)> = Vec::new();
    let mut i: usize = 0;
    while i < values.len()
        invariant
            i <= values.len(),
            out@ == values@.take(i as int),
        decreases values.len() - i,
    {
        out.push((values[i].0, values[i].1));
        assert(values@.take(i + 1) == values@.take(i as int).push(values@[i as int]));
        i = i + 1;
    }
    assert(values@.take(values@.len() as int) == values@);
    out
}

/// A copy of a list of names.
pub fn copy_names(names: &Vec<(MetricId, String)>) -> (r: Vec<(MetricId, String)>)
    ensures
        names_view(r@) == names_view(names@),
{
    let mut out: Vec<(MetricId, String)> = Vec::new();
    let mut i: usize = 0;
    while i < names.len()
        invariant
            i <= names.len(),
            out.len() == i,
            forall|k: int| 0 <= k < i ==> out@[k].0 == names@[k].0 && out@[k].1@ == names@[k].1@,
        decreases names.len() - i,
    {
        out.push((names[i].0, names[i].1.clone()));
        i = i + 1;
    }
    assert(names_view(out@) =~= names_view(names@));
    out
}

impl Clone for Event {
    fn clone(&self) -> (r: Event)
        ensures
            r@ == self@,
    {
        match self {
            Event::Metric { id, value, step, epoch, phase } => Event::Metric {
                id: *id,
                value: *value,
                step: *step,
                epoch: *epoch,
                phase: *phase,
            },
            Event::MetricsBatch { step, epoch, phase, values } => Event::MetricsBatch {
                step: *step,
                epoch: *epoch,
                phase: *phase,
                values: copy_values(values),
            },
            Event::MetricsRegistered { names } => Event::MetricsRegistered {
                names: copy_names(names),
            },
            Event::PhaseChange(phase) => Event::PhaseChange(*phase),
            Event::StageChange { name, step } => Event::StageChange {
                name: name.clone(),
                step: *step,
            },
            Event::Checkpoint { path, step } => Event::Checkpoint {
                path: path.clone(),
                step: *step,
            },
            Event::ConfigPatch(patch) => Event::ConfigPatch(patch.clone()),
            Event::Alert(alert) => Event::Alert(alert.clone()),
            Event::RunStarted(meta) => Event::RunStarted(meta.clone()),
            Event::RunFinished { duration_secs, reason } => Event::RunFinished {
                duration_secs: *duration_secs,
                reason: *reason,
            },
        }
    }
}

impl Clone for MetricRecord {
    fn clone(&self) -> (r: MetricRecord)
        ensures
            r@ == self@,
            self.values.wf() ==> r.values.wf(),
    {
        MetricRecord {
            step: self.step,
            epoch: self.epoch,
            phase: self.phase,
            values: self.values.clone(),
        }
    }
}

/// No two severities and no two reasons are written alike.
pub proof fn tags_are_told_apart(a: Severity, b: Severity, x: FinishReason, y: FinishReason)
    ensures
        severity_tag(a) == severity_tag(b) ==> a == b,
        reason_tag(x) == reason_tag(y) ==> x == y,
        severity_tag(Severity::Info) == "INFO"@,
        severity_tag(Severity::Warning) == "WARNING"@,
        severity_tag(Severity::Critical) == "CRITICAL"@,
        reason_tag(FinishReason::Completed) == "COMPLETED"@,
        reason_tag(FinishReason::Interrupted) == "INTERRUPTED"@,
        reason_tag(FinishReason::Failed) == "FAILED"@,
{
    reveal_strlit("INFO");
    reveal_strlit("WARNING");
    reveal_strlit("CRITICAL");
    reveal_strlit("COMPLETED");
    reveal_strlit("INTERRUPTED");
    reveal_strlit("FAILED");
    assert("INFO"@.len() == 4 && "WARNING"@.len() == 7 && "CRITICAL"@.len() == 8);
    assert("COMPLETED"@.len() == 9 && "INTERRUPTED"@.len() == 11 && "FAILED"@.len() == 6);
}

/// The phases are written by their names, in capitals, and a text that is none of them is
/// no phase.
pub proof fn phases_are_written_by_name(tag: Seq<char>)
    ensures
        phase_tag(Phase::Train) == "TRAIN"@,
        phase_tag(Phase::Eval) == "EVAL"@,
        phase_tag(Phase::Test) == "TEST"@,
        phase_tag(Phase::Checkpoint) == "CHECKPOINT"@,
        phase_tag(Phase::Warmup) == "WARMUP"@,
        phase_named(tag) matches Some(phase) ==> phase_tag(phase) == tag,
        phase_named(tag) is None <==> tag != "TRAIN"@ && tag != "EVAL"@ && tag != "TEST"@ && tag
            != "CHECKPOINT"@ && tag != "WARMUP"@,
{
}

} // verus!
