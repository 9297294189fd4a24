//! A run: what starting one sets up, what its handle emits, and what the worker
//! does with each event.
use crate::base::bus;
use crate::base::bus::{BusData, EventBus};
use crate::base::labels;
use crate::base::named::NamedValues;
use crate::base::queue;
use crate::base::registry;
use crate::base::registry::MetricRegistry;
use crate::base::ring;
use crate::base::ring::{event_ring, EventConsumer, EventProducer};
use crate::base::text;
use crate::base::text::capitalize;
use crate::base::types;
use crate::base::types::{
    copy_values, AlertRecord, AlertView, Event, EventView, FinishReason, MetricId, MetricRecord,
    MetricRecordView, Phase, RunMeta, RunMetaView, Severity,
};
use crate::base::value::Real;
use crate::engine::anomaly;
use crate::engine::anomaly::{AnomalyDetector, DetectorData};
use crate::engine::pipeline;
use crate::engine::processor;
use crate::store::export;
use crate::store::sink;
use crate::store::sink::{JsonlSink, RecordView, SinkData};
use std::collections::{BTreeMap, VecDeque};
use vstd::prelude::*;

verus! {

/// What a run is started with.
#[derive(Debug)]
pub struct RunConfig {
    /// Project or experiment name.
    pub project: String,
    /// Directory of the run's logs.
    pub run_dir: String,
    /// Metrics to register at the start.
    pub metric_names: Vec<String>,
    /// Hyperparameters, as JSON text.
    pub config: String,
    /// Total number of steps, if known.
    pub total_steps: Option<u64>,
    /// Whether to watch every registered metric for anomalies.
    pub detect_anomalies: bool,
}

impl RunConfig {
    /// A configuration with a project name and a run directory only.
    pub fn new(project: &str, run_dir: &str) -> (c: RunConfig)
        ensures
            c.project@ == project@,
            c.run_dir@ == run_dir@,
            c.metric_names@.len() == 0,
            c.config@ == "null"@,
            c.total_steps is None,
            c.detect_anomalies,
    {
        RunConfig {
            project: project.to_owned(),
            run_dir: run_dir.to_owned(),
            metric_names: Vec::new(),
            config: "null".to_owned(),
            total_steps: None,
            detect_anomalies: true,
        }
    }
}

/// Whether 128 bits are a random identifier in the sense of RFC 9562: version 4
/// and the variant of that document.
pub open spec fn is_random_id(id: u128) -> bool {
    (id >> 76) & 0xf == 4 && (id >> 62) & 3 == 2
}

/// `uuid::Uuid::new_v4`: a fresh random identifier, with the version and variant
/// bits set. Everything else about it is chance.
#[verifier::external_body]
fn fresh_run_id() -> (id: u128)
    ensures
        is_random_id(id),
{
    uuid::Uuid::new_v4().as_u128()
}

/// The names registered after the first `k` of a list.
pub open spec fn all_registered(names: Seq<Seq<char>>, list: Seq<Seq<char>>, k: int) -> Seq<Seq<char>>
    decreases k,
{
    if k <= 0 {
        names
    } else {
        registry::names_after(all_registered(names, list, k - 1), list[k - 1])
    }
}

/// Whether every name of a list finds room.
pub open spec fn all_fit(names: Seq<Seq<char>>, list: Seq<Seq<char>>) -> bool {
    forall|k: int|
        0 <= k < list.len() ==> {
            let before = #[trigger] all_registered(names, list, k);
            before.contains(list[k]) || before.len() < registry::MAX_METRICS
        }
}

/// Once a list is registered, each of its names is.
pub proof fn lemma_all_contained(names: Seq<Seq<char>>, list: Seq<Seq<char>>, k: int, j: int)
    requires
        all_fit(names, list),
        0 <= j < k <= list.len(),
    ensures
        all_registered(names, list, k).contains(list[j]),
    decreases k,
{
    let before = all_registered(names, list, k - 1);
    let after = all_registered(names, list, k);
    if j == k - 1 {
        if !before.contains(list[j]) {
            assert(after[before.len() as int] == list[j]);
        }
    } else {
        lemma_all_contained(names, list, k - 1, j);
        let i = choose|i: int| 0 <= i < before.len() && before[i] == list[j];
        assert(after[i] == list[j]);
    }
}

/// Entry point: starts runs.
#[derive(Debug)]
pub struct Engine;

/// What starting a run sets up.
pub struct Started {
    /// For the training thread.
    pub handle: RunHandle,
    /// For the worker.
    pub consumer: EventConsumer,
    /// The registered metrics.
    pub registry: MetricRegistry,
    /// Whether every registered metric is watched.
    pub detect: bool,
    /// One detector for each metric watched from the start.
    pub detectors: Vec<AnomalyDetector>,
    /// For observers.
    pub bus: EventBus,
}

/// The views of detectors.
pub open spec fn detector_views(s: Seq<AnomalyDetector>) -> Seq<DetectorData> {
    Seq::new(s.len(), |i: int| s[i]@)
}

/// A detector that has seen nothing yet, under the capitalized name of its metric.
pub open spec fn fresh_detector(target: MetricId, name: Seq<char>) -> DetectorData {
    DetectorData {
        target,
        label: text::capitalized(name),
        window: Seq::empty(),
        capacity: anomaly::DEFAULT_WINDOW as nat,
        threshold: anomaly::default_z_threshold(),
    }
}

/// The detectors that a run starts with: one for each name.
pub open spec fn fresh_detectors(names: Seq<Seq<char>>, list: Seq<Seq<char>>) -> Seq<DetectorData> {
    Seq::new(list.len(), |i: int| fresh_detector(registry::id_of(names, list[i])->0, list[i]))
}

/// Whether one of the detectors watches a metric.
pub open spec fn is_watched(detectors: Seq<DetectorData>, target: MetricId) -> bool {
    exists|i: int| 0 <= i < detectors.len() && (#[trigger] detectors[i]).target == target
}

/// The detectors once each of the first `k` names that none of them watches got
/// one.
pub open spec fn all_watched(detectors: Seq<DetectorData>, names: Seq<Seq<char>>, k: int) -> Seq<
    DetectorData,
>
    decreases k,
{
    if k <= 0 {
        detectors
    } else {
        let before = all_watched(detectors, names, k - 1);
        let id = MetricId((k - 1) as u16);
        if is_watched(detectors, id) {
            before
        } else {
            before.push(fresh_detector(id, names[k - 1]))
        }
    }
}

impl Engine {
    /// Starts a run at `start_time_secs`: registers its metrics, sets up their
    /// detectors, opens the ring, and emits the opening event.
    pub fn start(config: RunConfig, start_time_secs: Real) -> (s: Started)
        requires
            all_fit(Seq::empty(), text::texts(config.metric_names@)),
        ensures
            s.registry.wf(),
            s.registry@ == all_registered(
                Seq::empty(),
                text::texts(config.metric_names@),
                config.metric_names@.len() as int,
            ),
            detector_views(s.detectors@) == (if config.detect_anomalies {
                fresh_detectors(s.registry@, text::texts(config.metric_names@))
            } else {
                Seq::<DetectorData>::empty()
            }),
            s.detect == config.detect_anomalies,
            s.bus@ == BusData::empty(),
            s.handle.producer.capacity() == ring::DEFAULT_CAPACITY,
            s.handle.producer.sound(),
            s.handle.producer.accepted().is_prefix_of(s.handle.producer.stream()),
            s.consumer.capacity() == ring::DEFAULT_CAPACITY,
            s.consumer.sound(),
            s.consumer.taken() == Seq::<Event>::empty(),
            s.consumer.stream() == s.handle.producer.stream(),
            is_random_id(s.handle.run_id),
            s.handle.step == 0,
            s.handle.epoch == 0,
            s.handle.phase == Phase::Train,
            s.handle.producer.drops() == 0,
            types::event_views(s.handle.producer.accepted()) == seq![
                EventView::RunStarted(
                    RunMetaView {
                        run_id: s.handle.run_id,
                        project: config.project@,
                        config: config.config@,
                        start_time_secs,
                    },
                ),
            ],
    {
        let ghost list = text::texts(config.metric_names@);
        let ghost none = Seq::<Seq<char>>::empty();
        let n: usize = config.metric_names.len();
        let mut reg = MetricRegistry::new();
        let mut k: usize = 0;
        while k < n
            invariant
                k <= n == config.metric_names@.len(),
                list == text::texts(config.metric_names@),
                none == Seq::<Seq<char>>::empty(),
                all_fit(none, list),
                reg.wf(),
                reg@ == all_registered(none, list, k as int),
            decreases n - k,
        {
            assert(all_registered(none, list, k as int).contains(list[k as int]) || all_registered(
                none,
                list,
                k as int,
            ).len() < registry::MAX_METRICS);
            let _ = reg.register(config.metric_names[k].as_str());
            k = k + 1;
        }
        let mut detectors: Vec<AnomalyDetector> = Vec::new();
        if config.detect_anomalies {
            let ghost names = reg@;
            let mut i: usize = 0;
            while i < n
                invariant
                    i <= n == config.metric_names@.len(),
                    list == text::texts(config.metric_names@),
                    none == Seq::<Seq<char>>::empty(),
                    all_fit(none, list),
                    names == all_registered(none, list, n as int),
                    reg.wf(),
                    reg@ == names,
                    detectors@.len() == i,
                    forall|j: int|
                        0 <= j < i ==> (#[trigger] detectors@[j])@ == fresh_detectors(names, list)[j],
                decreases n - i,
            {
                proof {
                    lemma_all_contained(none, list, n as int, i as int);
                }
                let id: MetricId = reg.register(config.metric_names[i].as_str());
                detectors.push(
                    AnomalyDetector::new(id, capitalize(config.metric_names[i].as_str())),
                );
                i = i + 1;
            }
            assert(detector_views(detectors@) =~= fresh_detectors(names, list));
        } else {
            assert(detector_views(detectors@) =~= Seq::<DetectorData>::empty());
        }
        let bus = EventBus::new();
        let (producer, consumer) = event_ring();
        let run_id: u128 = fresh_run_id();
        let meta = RunMeta {
            run_id,
            project: config.project,
            config: config.config,
            start_time_secs,
        };
        let mut handle = RunHandle { producer, step: 0, epoch: 0, phase: Phase::Train, run_id };
        let event = Event::RunStarted(meta);
        let ghost opening = event;
        let _ = handle.producer.push(event);
        assert(types::event_views(handle.producer.accepted()) =~= seq![opening@]);
        Started { handle, consumer, registry: reg, detect: config.detect_anomalies, detectors, bus }
    }
}

/// What the training thread holds of a run.
pub struct RunHandle {
    /// Where events go.
    pub producer: EventProducer,
    /// The step of the next values.
    pub step: u64,
    /// The epoch of the next values.
    pub epoch: u32,
    /// The phase of the next values.
    pub phase: Phase,
    /// The run's identifier.
    pub run_id: u128,
}

/// Whether pushing `event` leads from one producer state to another: it is
/// accepted while a slot is free, and otherwise the drop is counted.
pub open spec fn pushes(before: EventProducer, event: EventView, after: EventProducer) -> bool {
    &&& after.sound()
    &&& after.capacity() == before.capacity()
    &&& after.stream() == before.stream()
    &&& after.met() == before.passed()
    &&& if before.free() > 0 {
        &&& types::event_views(after.accepted()) == types::event_views(before.accepted()).push(
            event,
        )
        &&& after.accepted().is_prefix_of(after.stream())
        &&& after.drops() == before.drops()
    } else {
        &&& after.accepted() == before.accepted()
        &&& after.drops() == before.drops().wrapping_add(1)
    }
}

fn push_event(producer: &mut EventProducer, event: Event)
    ensures
        pushes(*old(producer), event@, *final(producer)),
{
    let ghost before = *producer;
    let ghost e = event;
    match producer.push(event) {
        Ok(()) => {
            assert(types::event_views(producer.accepted()) =~= types::event_views(
                before.accepted(),
            ).push(e@));
        },
        Err(_) => {},
    }
}

/// What a run emits arrives at its worker in order: at each position that both have
/// reached, the worker took the event that the handle emitted.
pub proof fn runs_arrive_in_order(p: EventProducer, c: EventConsumer, i: int)
    requires
        p.sound(),
        c.sound(),
        p.stream() == c.stream(),
        0 <= i < p.accepted().len(),
        i < c.taken().len(),
    ensures
        types::event_views(c.taken())[i] == types::event_views(p.accepted())[i],
{
    ring::rings_are_first_in_first_out(p, c, i);
}

/// What a run emits arrives whole: a worker whose last pop found nothing, and found
/// all that the handle emitted put in, took exactly that.
pub proof fn runs_arrive_whole(p: EventProducer, c: EventConsumer)
    requires
        p.sound(),
        c.sound(),
        p.stream() == c.stream(),
        c.known() == c.taken().len(),
        c.known() == p.accepted().len(),
    ensures
        types::event_views(c.taken()) == types::event_views(p.accepted()),
{
    assert forall|i: int| 0 <= i < p.accepted().len() implies types::event_views(c.taken())[i]
        == types::event_views(p.accepted())[i] by {
        runs_arrive_in_order(p, c, i);
    }
    assert(types::event_views(c.taken()) =~= types::event_views(p.accepted()));
}

impl RunHandle {
    /// The run's identifier.
    pub fn run_id(&self) -> (id: u128)
        ensures
            id == self.run_id,
    {
        self.run_id
    }

    /// Registers a metric name, or finds it registered, for `emit`. There has to
    /// be room for it.
    pub fn register(&self, registry: &mut MetricRegistry, name: &str) -> (id: MetricId)
        requires
            old(registry).wf(),
            old(registry)@.contains(name@) || old(registry)@.len() < registry::MAX_METRICS,
        ensures
            final(registry).wf(),
            final(registry)@ == registry::names_after(old(registry)@, name@),
            registry::id_of(final(registry)@, name@) == Some(id),
    {
        registry.register(name)
    }

    /// Emits values of registered metrics for the current step, and moves to
    /// the next step. It never waits; a full ring drops the batch and counts it.
    pub fn emit(&mut self, values: &Vec<(MetricId, Real)>)
        ensures
            pushes(
                old(self).producer,
                EventView::MetricsBatch {
                    step: old(self).step,
                    epoch: old(self).epoch,
                    phase: old(self).phase,
                    values: values@,
                },
                final(self).producer,
            ),
            final(self).step == old(self).step.wrapping_add(1),
            final(self).epoch == old(self).epoch,
            final(self).phase == old(self).phase,
            final(self).run_id == old(self).run_id,
    {
        let event = Event::MetricsBatch {
            step: self.step,
            epoch: self.epoch,
            phase: self.phase,
            values: copy_values(values),
        };
        push_event(&mut self.producer, event);
        self.step = self.step.wrapping_add(1);
    }

    /// Emits values by name, registering names that are new. Every name has to
    /// find room.
    pub fn emit_dynamic(&mut self, registry: &mut MetricRegistry, values: &Vec<(String, Real)>)
        requires
            old(registry).wf(),
            all_fit(old(registry)@, value_names(values@)),
        ensures
            final(registry).wf(),
            final(registry)@ == all_registered(
                old(registry)@,
                value_names(values@),
                values@.len() as int,
            ),
            pushes(
                old(self).producer,
                EventView::MetricsBatch {
                    step: old(self).step,
                    epoch: old(self).epoch,
                    phase: old(self).phase,
                    values: by_id(final(registry)@, values@),
                },
                final(self).producer,
            ),
            final(self).step == old(self).step.wrapping_add(1),
            final(self).epoch == old(self).epoch,
            final(self).phase == old(self).phase,
            final(self).run_id == old(self).run_id,
    {
        let resolved = register_values(registry, values);
        self.emit(&resolved);
    }

    /// Sets the current phase and records the change.
    pub fn set_phase(&mut self, phase: Phase)
        ensures
            pushes(old(self).producer, EventView::PhaseChange(phase), final(self).producer),
            final(self).phase == phase,
            final(self).step == old(self).step,
            final(self).epoch == old(self).epoch,
            final(self).run_id == old(self).run_id,
    {
        self.phase = phase;
        push_event(&mut self.producer, Event::PhaseChange(phase));
    }

    /// Sets the current epoch.
    pub fn set_epoch(&mut self, epoch: u32)
        ensures
            *final(self) == (RunHandle { epoch, ..*old(self) }),
    {
        self.epoch = epoch;
    }

    /// How many events were dropped because the ring was full.
    pub fn dropped(&self) -> (n: u64)
        ensures
            n == self.producer.drops(),
    {
        self.producer.dropped()
    }

    /// Emits the closing event of a run that came to its end.
    pub fn finish(&mut self, duration_secs: Real)
        ensures
            pushes(
                old(self).producer,
                EventView::RunFinished { duration_secs, reason: FinishReason::Completed },
                final(self).producer,
            ),
            final(self).step == old(self).step,
            final(self).epoch == old(self).epoch,
            final(self).phase == old(self).phase,
            final(self).run_id == old(self).run_id,
    {
        self.finish_with(duration_secs, FinishReason::Completed)
    }

    /// Emits the closing event of the run, with the reason why it ended.
    pub fn finish_with(&mut self, duration_secs: Real, reason: FinishReason)
        ensures
            pushes(
                old(self).producer,
                EventView::RunFinished { duration_secs, reason },
                final(self).producer,
            ),
            final(self).step == old(self).step,
            final(self).epoch == old(self).epoch,
            final(self).phase == old(self).phase,
            final(self).run_id == old(self).run_id,
    {
        push_event(&mut self.producer, Event::RunFinished { duration_secs, reason });
    }
}

/// Registers the names of named values and puts the values under identifiers.
pub fn register_values(registry: &mut MetricRegistry, values: &Vec<(String, Real)>) -> (r: Vec<
    (MetricId, Real),
>)
    requires
        old(registry).wf(),
        all_fit(old(registry)@, value_names(values@)),
    ensures
        final(registry).wf(),
        final(registry)@ == all_registered(
            old(registry)@,
            value_names(values@),
            values@.len() as int,
        ),
        r@ == by_id(final(registry)@, values@),
{
    let ghost names = registry@;
    let ghost list = value_names(values@);
    let mut resolved: Vec<(MetricId, Real)> = Vec::new();
    let mut k: usize = 0;
    while k < values.len()
        invariant
            k <= values@.len(),
            list == value_names(values@),
            all_fit(names, list),
            registry.wf(),
            registry@ == all_registered(names, list, k as int),
            resolved@.len() == k,
            forall|j: int|
                0 <= j < k ==> resolves(registry@, list[j], values@[j].1, #[trigger] resolved@[j]),
        decreases values.len() - k,
    {
        let ghost before = registry@;
        assert(all_registered(names, list, k as int).contains(list[k as int]) || all_registered(
            names,
            list,
            k as int,
        ).len() < registry::MAX_METRICS);
        proof {
            registry.names_are_distinct();
        }
        let ghost done = resolved@;
        let id: MetricId = registry.register(values[k].0.as_str());
        resolved.push((id, values[k].1));
        proof {
            assert(list[k as int] == values@[k as int].0@);
            assert forall|j: int| 0 <= j < k + 1 implies resolves(
                registry@,
                list[j],
                values@[j].1,
                #[trigger] resolved@[j],
            ) by {
                if j < k {
                    assert(done[j] == resolved@[j]);
                    registry::identifiers_are_stable(before, list[k as int], list[j]);
                }
            }
        }
        k = k + 1;
    }
    assert(resolved@ =~= by_id(registry@, values@));
    resolved
}

/// Whether `pair` is the value of `name` under the identifier of that name.
pub open spec fn resolves(names: Seq<Seq<char>>, name: Seq<char>, v: Real, pair: (MetricId, Real)) -> bool {
    names.contains(name) && pair == (registry::id_of(names, name)->0, v)
}

/// The names of named values.
pub open spec fn value_names(values: Seq<(String, Real)>) -> Seq<Seq<char>> {
    Seq::new(values.len(), |i: int| values[i].0@)
}

/// Named values under the identifiers of their names.
pub open spec fn by_id(names: Seq<Seq<char>>, values: Seq<(String, Real)>) -> Seq<(MetricId, Real)> {
    Seq::new(values.len(), |i: int| (registry::id_of(names, values[i].0@)->0, values[i].1))
}

/// The values of the first `k` pairs under the names of their identifiers; a
/// later value replaces an earlier one, and unknown identifiers are left out.
pub open spec fn row_values(names: Seq<Seq<char>>, pairs: Seq<(MetricId, Real)>, k: int) -> Map<
    Seq<char>,
    Real,
>
    decreases k,
{
    if k <= 0 {
        Map::empty()
    } else {
        let before = row_values(names, pairs, k - 1);
        let i = pairs[k - 1].0.0 as int;
        if i < names.len() {
            before.insert(names[i], pairs[k - 1].1)
        } else {
            before
        }
    }
}

/// The metric row of an event, if it carries metrics.
pub open spec fn row_of(names: Seq<Seq<char>>, event: EventView) -> Option<MetricRecordView> {
    match event {
        EventView::Metric { id, value, step, epoch, phase } => Some(
            MetricRecordView {
                step,
                epoch,
                phase,
                values: row_values(names, seq![(id, value)], 1),
            },
        ),
        EventView::MetricsBatch { step, epoch, phase, values } => Some(
            MetricRecordView {
                step,
                epoch,
                phase,
                values: row_values(names, values, values.len() as int),
            },
        ),
        _ => None,
    }
}

fn named_row(registry: &MetricRegistry, pairs: &Vec<(MetricId, Real)>) -> (r: NamedValues)
    ensures
        r.wf(),
        r@ == row_values(registry@, pairs@, pairs@.len() as int),
{
    let mut values = NamedValues::new();
    let mut k: usize = 0;
    while k < pairs.len()
        invariant
            k <= pairs@.len(),
            values.wf(),
            values@ == row_values(registry@, pairs@, k as int),
        decreases pairs.len() - k,
    {
        match registry.name(pairs[k].0) {
            Some(name) => {
                values.insert(name.to_owned(), pairs[k].1);
            },
            None => {},
        }
        k = k + 1;
    }
    values
}

/// The view of an optional metric row.
pub open spec fn row_view(row: Option<MetricRecord>) -> Option<MetricRecordView> {
    match row {
        Some(r) => Some(r@),
        None => None,
    }
}

/// The wide metric row of an event: its values under their names.
pub fn metric_record(registry: &MetricRegistry, event: &Event) -> (r: Option<MetricRecord>)
    ensures
        row_view(r) == row_of(registry@, event@),
        r matches Some(row) ==> row.values.wf(),
{
    match event {
        Event::Metric { id, value, step, epoch, phase } => {
            let mut pairs: Vec<(MetricId, Real)> = Vec::new();
            pairs.push((*id, *value));
            assert(pairs@ =~= seq![(*id, *value)]);
            Some(
                MetricRecord {
                    step: *step,
                    epoch: *epoch,
                    phase: *phase,
                    values: named_row(registry, &pairs),
                },
            )
        },
        Event::MetricsBatch { step, epoch, phase, values } => Some(
            MetricRecord {
                step: *step,
                epoch: *epoch,
                phase: *phase,
                values: named_row(registry, values),
            },
        ),
        _ => None,
    }
}

/// The values of the first `k` pairs under the names that a label table shows for
/// them; a later value replaces an earlier one.
pub open spec fn labelled_values(
    names: Map<u16, Seq<char>>,
    pairs: Seq<(MetricId, Real)>,
    k: int,
) -> Map<Seq<char>, Real>
    decreases k,
{
    if k <= 0 {
        Map::empty()
    } else {
        labelled_values(names, pairs, k - 1).insert(
            labels::shown_label(names, pairs[k - 1].0),
            pairs[k - 1].1,
        )
    }
}

/// The metric row of an event, if it carries metrics, under the names that a label
/// table shows.
pub open spec fn labelled_row(names: Map<u16, Seq<char>>, event: EventView) -> Option<
    MetricRecordView,
> {
    match event {
        EventView::Metric { id, value, step, epoch, phase } => Some(
            MetricRecordView {
                step,
                epoch,
                phase,
                values: labelled_values(names, seq![(id, value)], 1),
            },
        ),
        EventView::MetricsBatch { step, epoch, phase, values } => Some(
            MetricRecordView {
                step,
                epoch,
                phase,
                values: labelled_values(names, values, values.len() as int),
            },
        ),
        _ => None,
    }
}

fn labelled(names: &BTreeMap<u16, String>, pairs: &Vec<(MetricId, Real)>) -> (r: NamedValues)
    ensures
        r.wf(),
        r@ == labelled_values(labels::label_views(names@), pairs@, pairs@.len() as int),
{
    let mut values = NamedValues::new();
    let mut k: usize = 0;
    while k < pairs.len()
        invariant
            k <= pairs@.len(),
            values.wf(),
            values@ == labelled_values(labels::label_views(names@), pairs@, k as int),
        decreases pairs.len() - k,
    {
        values.insert(labels::label_in(names, pairs[k].0), pairs[k].1);
        k = k + 1;
    }
    values
}

/// The wide metric row of an event: its values under the names that a label table
/// shows, so that no value is left out.
pub fn labelled_record(names: &BTreeMap<u16, String>, event: &Event) -> (r: Option<MetricRecord>)
    ensures
        row_view(r) == labelled_row(labels::label_views(names@), event@),
        r matches Some(row) ==> row.values.wf(),
{
    match event {
        Event::Metric { id, value, step, epoch, phase } => {
            let mut pairs: Vec<(MetricId, Real)> = Vec::new();
            pairs.push((*id, *value));
            assert(pairs@ =~= seq![(*id, *value)]);
            Some(
                MetricRecord {
                    step: *step,
                    epoch: *epoch,
                    phase: *phase,
                    values: labelled(names, &pairs),
                },
            )
        },
        Event::MetricsBatch { step, epoch, phase, values } => Some(
            MetricRecord {
                step: *step,
                epoch: *epoch,
                phase: *phase,
                values: labelled(names, values),
            },
        ),
        _ => None,
    }
}

/// What the worker holds of a run.
pub struct Worker {
    /// Where events come from.
    pub consumer: EventConsumer,
    /// Where records go.
    pub sink: JsonlSink,
    /// Whether every registered metric is watched.
    pub detect: bool,
    /// The metrics watched so far.
    pub detectors: Vec<AnomalyDetector>,
}

/// What an event can change: the log queue, the detectors, and what observers
/// were sent.
#[verifier::ext_equal]
pub struct WorkerState {
    pub sink: SinkData,
    pub detect: bool,
    pub detectors: Seq<DetectorData>,
    pub bus: BusData,
}

/// The detectors that look at the next event: with detection on, every metric
/// registered by then has one.
pub open spec fn watching(w: WorkerState, names: Seq<Seq<char>>) -> Seq<DetectorData> {
    if w.detect {
        all_watched(w.detectors, names, names.len() as int)
    } else {
        w.detectors
    }
}

/// Whether an event can make each detector raise its part of the alerts.
pub open spec fn all_raise<
    M: Fn(&VecDeque<Real>) -> (Real, Real),
    Z: Fn(Real, Real, Real) -> Real,
    S: Fn(Real) -> String,
>(
    moments: M,
    z: Z,
    show: S,
    detectors: Seq<DetectorData>,
    event: EventView,
    parts: Seq<Seq<AlertView>>,
) -> bool {
    &&& parts.len() == detectors.len()
    &&& forall|i: int|
        0 <= i < parts.len() ==> #[trigger] anomaly::raises(
            moments,
            z,
            show,
            detectors[i],
            event,
            parts[i],
        )
}

/// The detectors after an event.
pub open spec fn detectors_after(detectors: Seq<DetectorData>, event: EventView) -> Seq<DetectorData> {
    Seq::new(detectors.len(), |i: int| anomaly::detector_after(detectors[i], event))
}

/// The records that an event gives the logs: itself, its metric row if it has
/// one, and its alerts.
pub open spec fn records_for(
    event: EventView,
    row: Option<MetricRecordView>,
    alerts: Seq<AlertView>,
) -> Seq<RecordView> {
    let head = match row {
        Some(r) => seq![RecordView::Event(event), RecordView::Metric(r)],
        None => seq![RecordView::Event(event)],
    };
    head + Seq::new(alerts.len(), |i: int| RecordView::Event(EventView::Alert(alerts[i])))
}

/// The events that observers are sent for an event: itself and its alerts.
pub open spec fn published_for(event: EventView, alerts: Seq<AlertView>) -> Seq<EventView> {
    seq![event] + Seq::new(alerts.len(), |i: int| EventView::Alert(alerts[i]))
}

/// Whether handling `event` leads from `before` to `after` when the detectors
/// raise `alerts`: `logs` are the states of the log queue and `hops` those of the
/// bus, after each record and each published event.
pub open spec fn handled_by(
    names: Seq<Seq<char>>,
    event: EventView,
    before: WorkerState,
    after: WorkerState,
    alerts: Seq<AlertView>,
    logs: Seq<SinkData>,
    hops: Seq<BusData>,
) -> bool {
    &&& after.detect == before.detect
    &&& after.detectors == detectors_after(watching(before, names), event)
    &&& sink::all_offered(logs, records_for(event, row_of(names, event), alerts))
    &&& logs[0] == before.sink
    &&& logs.last() == after.sink
    &&& all_delivered(hops, published_for(event, alerts))
    &&& hops[0] == before.bus
    &&& hops.last() == after.bus
}

/// Whether `hops` holds the states of a bus from before the first event to after
/// the last.
pub open spec fn all_delivered(hops: Seq<BusData>, published: Seq<EventView>) -> bool {
    &&& hops.len() == published.len() + 1
    &&& forall|i: int|
        0 <= i < published.len() ==> #[trigger] bus::delivers(hops[i], published[i], hops[i + 1])
}

/// Whether handling `event` can lead from `before` to `after`, where each detector
/// raises what the closures make it raise.
pub open spec fn handled<
    M: Fn(&VecDeque<Real>) -> (Real, Real),
    Z: Fn(Real, Real, Real) -> Real,
    S: Fn(Real) -> String,
>(
    moments: M,
    z: Z,
    show: S,
    names: Seq<Seq<char>>,
    event: EventView,
    before: WorkerState,
    after: WorkerState,
) -> bool {
    exists|parts: Seq<Seq<AlertView>>, logs: Seq<SinkData>, hops: Seq<BusData>|
        {
            &&& #[trigger] all_raise(moments, z, show, watching(before, names), event, parts)
            &&& #[trigger] handled_by(
                names,
                event,
                before,
                after,
                queue::joined(parts, parts.len() as int),
                logs,
                hops,
            )
        }
}

/// Whether a worker handled events one after the other: `trace` holds its states from
/// before the first to after the last.
pub open spec fn all_handled<
    M: Fn(&VecDeque<Real>) -> (Real, Real),
    Z: Fn(Real, Real, Real) -> Real,
    S: Fn(Real) -> String,
>(
    moments: M,
    z: Z,
    show: S,
    names: Seq<Seq<char>>,
    events: Seq<EventView>,
    trace: Seq<WorkerState>,
) -> bool {
    &&& trace.len() == events.len() + 1
    &&& forall|i: int|
        0 <= i < events.len() ==> #[trigger] handled(
            moments,
            z,
            show,
            names,
            events[i],
            trace[i],
            trace[i + 1],
        )
}

/// Whether `records` are those of an event that a worker in state `w` handles: the
/// event, its metric row if it has one, and the alerts that the detectors raise.
pub open spec fn records_of<
    M: Fn(&VecDeque<Real>) -> (Real, Real),
    Z: Fn(Real, Real, Real) -> Real,
    S: Fn(Real) -> String,
>(
    moments: M,
    z: Z,
    show: S,
    names: Seq<Seq<char>>,
    event: EventView,
    w: WorkerState,
    records: Seq<RecordView>,
) -> bool {
    exists|parts: Seq<Seq<AlertView>>|
        {
            &&& #[trigger] all_raise(moments, z, show, watching(w, names), event, parts)
            &&& records == records_for(
                event,
                row_of(names, event),
                queue::joined(parts, parts.len() as int),
            )
        }
}

/// Whether the closures can be called on any arguments.
pub open spec fn spike_total<
    M: Fn(&VecDeque<Real>) -> (Real, Real),
    Z: Fn(Real, Real, Real) -> Real,
    S: Fn(Real) -> String,
>(moments: M, z: Z, show: S) -> bool {
    &&& forall|w: &VecDeque<Real>| call_requires(moments, (w,))
    &&& forall|v: Real, mean: Real, dev: Real| call_requires(z, (v, mean, dev))
    &&& forall|v: Real| call_requires(show, (v,))
}

/// Whether every detector has room for a window.
pub open spec fn detectors_wf(detectors: Seq<DetectorData>) -> bool {
    forall|i: int| 0 <= i < detectors.len() ==> (#[trigger] detectors[i]).capacity >= 2
}

/// Gives each registered metric that is not watched yet a detector.
fn watch_all(detectors: &mut Vec<AnomalyDetector>, registry: &MetricRegistry)
    requires
        registry.wf(),
    ensures
        detector_views(final(detectors)@) == all_watched(
            detector_views(old(detectors)@),
            registry@,
            registry@.len() as int,
        ),
{
    proof {
        registry.names_are_distinct();
    }
    let ghost start = detector_views(detectors@);
    let n: usize = registry.len();
    let mut seen: Vec<bool> = Vec::new();
    while seen.len() < n
        invariant
            seen@.len() <= n,
            forall|k: int| 0 <= k < seen@.len() ==> !#[trigger] seen@[k],
        decreases n - seen.len(),
    {
        seen.push(false);
    }
    let mut i: usize = 0;
    let count: usize = detectors.len();
    while i < count
        invariant
            i <= count == detectors@.len(),
            start == detector_views(detectors@),
            seen@.len() == n,
            n <= registry::MAX_METRICS,
            forall|k: int|
                0 <= k < n ==> (#[trigger] seen@[k] <==> is_watched(
                    start.take(i as int),
                    MetricId(k as u16),
                )),
        decreases count - i,
    {
        let target: usize = detectors[i].target().0 as usize;
        let ghost marks = seen@;
        if target < n {
            seen.set(target, true);
        }
        proof {
            assert(start[i as int].target.0 == target);
            assert forall|k: int| 0 <= k < n implies (#[trigger] seen@[k] <==> is_watched(
                start.take(i + 1),
                MetricId(k as u16),
            )) by {
                let id = MetricId(k as u16);
                if is_watched(start.take(i as int), id) {
                    let j = choose|j: int|
                        0 <= j < i && (#[trigger] start.take(i as int)[j]).target == id;
                    assert(start.take(i + 1)[j].target == id);
                }
                if k == target {
                    assert(start.take(i + 1)[i as int].target == id);
                } else if is_watched(start.take(i + 1), id) {
                    let j = choose|j: int|
                        0 <= j < i + 1 && (#[trigger] start.take(i + 1)[j]).target == id;
                    assert(start.take(i as int)[j].target == id);
                }
                assert(marks[k] <==> is_watched(start.take(i as int), id));
            }
        }
        i = i + 1;
    }
    assert(start.take(count as int) =~= start);
    let mut k: usize = 0;
    while k < n
        invariant
            k <= n == registry@.len(),
            n <= registry::MAX_METRICS,
            seen@.len() == n,
            forall|j: int|
                0 <= j < n ==> (#[trigger] seen@[j] <==> is_watched(start, MetricId(j as u16))),
            detector_views(detectors@) == all_watched(start, registry@, k as int),
        decreases n - k,
    {
        if !seen[k] {
            let ghost before = detector_views(detectors@);
            let id = MetricId(k as u16);
            match registry.name(id) {
                Some(name) => {
                    detectors.push(AnomalyDetector::new(id, capitalize(name)));
                    assert(detector_views(detectors@) =~= before.push(
                        fresh_detector(id, registry@[k as int]),
                    ));
                },
                None => {
                    assert(false);
                },
            }
        }
        k = k + 1;
    }
}

proof fn lemma_watched_wf(detectors: Seq<DetectorData>, names: Seq<Seq<char>>, k: int)
    requires
        detectors_wf(detectors),
    ensures
        detectors_wf(all_watched(detectors, names, k)),
    decreases k,
{
    if k > 0 {
        lemma_watched_wf(detectors, names, k - 1);
    }
}

proof fn lemma_watched(detectors: Seq<DetectorData>, names: Seq<Seq<char>>, k: int, i: int)
    requires
        0 <= i < k,
    ensures
        is_watched(all_watched(detectors, names, k), MetricId(i as u16)),
    decreases k,
{
    let before = all_watched(detectors, names, k - 1);
    let all = all_watched(detectors, names, k);
    let id = MetricId(i as u16);
    if i == k - 1 {
        if is_watched(detectors, id) {
            lemma_still_watched(detectors, names, k, id);
        } else {
            assert(all[before.len() as int].target == id);
        }
    } else {
        lemma_watched(detectors, names, k - 1, i);
        let j = choose|j: int| 0 <= j < before.len() && (#[trigger] before[j]).target == id;
        assert(all[j].target == id);
    }
}

proof fn lemma_still_watched(
    detectors: Seq<DetectorData>,
    names: Seq<Seq<char>>,
    k: int,
    id: MetricId,
)
    requires
        is_watched(detectors, id),
    ensures
        is_watched(all_watched(detectors, names, k), id),
    decreases k,
{
    if k > 0 {
        lemma_still_watched(detectors, names, k - 1, id);
        let before = all_watched(detectors, names, k - 1);
        let all = all_watched(detectors, names, k);
        let j = choose|j: int| 0 <= j < before.len() && (#[trigger] before[j]).target == id;
        assert(all[j].target == id);
    }
}

/// With detection on, every registered metric is watched, whenever it was
/// registered.
pub proof fn every_registered_metric_is_watched(w: WorkerState, names: Seq<Seq<char>>, i: int)
    requires
        w.detect,
        0 <= i < names.len(),
    ensures
        is_watched(watching(w, names), MetricId(i as u16)),
{
    lemma_watched(w.detectors, names, names.len() as int, i);
}

/// With detection on, a value of a registered metric that is not finite raises a
/// critical alert for its step, which goes to the logs and to observers.
pub proof fn broken_values_raise_critical_alerts<
    M: Fn(&VecDeque<Real>) -> (Real, Real),
    Z: Fn(Real, Real, Real) -> Real,
    S: Fn(Real) -> String,
>(
    moments: M,
    z: Z,
    show: S,
    names: Seq<Seq<char>>,
    event: EventView,
    before: WorkerState,
    after: WorkerState,
    i: int,
    step: u64,
    value: Real,
)
    requires
        handled(moments, z, show, names, event, before, after),
        before.detect,
        0 <= i < names.len(),
        processor::sample_of(event, MetricId(i as u16)) == Some((step, value)),
        !value.finite(),
    ensures
        exists|alerts: Seq<AlertView>, logs: Seq<SinkData>, hops: Seq<BusData>, alert: AlertView|
            {
                &&& #[trigger] handled_by(names, event, before, after, alerts, logs, hops)
                &&& #[trigger] alerts.contains(alert)
                &&& alert.severity == Severity::Critical
                &&& alert.step == Some(step)
            },
{
    every_registered_metric_is_watched(before, names, i);
    let detectors = watching(before, names);
    let id = MetricId(i as u16);
    let (parts, logs, hops) = choose|
        parts: Seq<Seq<AlertView>>,
        logs: Seq<SinkData>,
        hops: Seq<BusData>,
    |
        {
            &&& #[trigger] all_raise(moments, z, show, detectors, event, parts)
            &&& #[trigger] handled_by(
                names,
                event,
                before,
                after,
                queue::joined(parts, parts.len() as int),
                logs,
                hops,
            )
        };
    let j = choose|j: int| 0 <= j < detectors.len() && (#[trigger] detectors[j]).target == id;
    assert(anomaly::raises(moments, z, show, detectors[j], event, parts[j]));
    queue::lemma_joined_contains(parts, parts.len() as int, j, 0);
    let alerts = queue::joined(parts, parts.len() as int);
    assert(handled_by(names, event, before, after, alerts, logs, hops));
    assert(alerts.contains(parts[j][0]));
}

proof fn lemma_writer_stayed(logs: Seq<SinkData>, records: Seq<RecordView>, k: int)
    requires
        sink::all_offered(logs, records),
        logs[0].open,
        logs.last().heard,
        0 <= k <= records.len(),
    ensures
        logs[records.len() - k].heard,
    decreases k,
{
    lemma_log_stays_open(logs, records, records.len() - k);
    if k > 0 {
        lemma_writer_stayed(logs, records, k - 1);
        let i = records.len() - k;
        assert(sink::offered(logs[i], records[i], logs[i + 1]));
    }
}

proof fn lemma_log_stays_open(logs: Seq<SinkData>, records: Seq<RecordView>, k: int)
    requires
        sink::all_offered(logs, records),
        logs[0].open,
        0 <= k <= records.len(),
    ensures
        logs[k].open,
        logs[k].capacity == logs[0].capacity,
    decreases k,
{
    if k > 0 {
        lemma_log_stays_open(logs, records, k - 1);
        let i = k - 1;
        assert(sink::offered(logs[i], records[i], logs[i + 1]));
    }
}

/// The logs are complete: while the writer is there and the records of an event find
/// room, the event, its metric row and its alerts are all queued, in this order, and
/// nothing is dropped.
pub proof fn logs_are_complete<
    M: Fn(&VecDeque<Real>) -> (Real, Real),
    Z: Fn(Real, Real, Real) -> Real,
    S: Fn(Real) -> String,
>(
    moments: M,
    z: Z,
    show: S,
    names: Seq<Seq<char>>,
    event: EventView,
    before: WorkerState,
    after: WorkerState,
)
    requires
        handled(moments, z, show, names, event, before, after),
        before.sink.open,
        after.sink.heard,
    ensures
        after.sink.open,
        after.sink.capacity == before.sink.capacity,
        before.sink.heard,
        exists|records: Seq<RecordView>|
            {
                &&& #[trigger] records_of(moments, z, show, names, event, before, records)
                &&& before.sink.queued.len() + records.len() <= before.sink.capacity
                    ==> after.sink.queued == before.sink.queued + records && after.sink.dropped
                    == before.sink.dropped
            },
{
    let (parts, logs, hops) = choose|
        parts: Seq<Seq<AlertView>>,
        logs: Seq<SinkData>,
        hops: Seq<BusData>,
    |
        {
            &&& #[trigger] all_raise(moments, z, show, watching(before, names), event, parts)
            &&& #[trigger] handled_by(
                names,
                event,
                before,
                after,
                queue::joined(parts, parts.len() as int),
                logs,
                hops,
            )
        };
    let records = records_for(
        event,
        row_of(names, event),
        queue::joined(parts, parts.len() as int),
    );
    assert forall|i: int| 0 <= i < records.len() implies (#[trigger] logs[i]).heard by {
        lemma_writer_stayed(logs, records, records.len() - i);
    }
    if before.sink.queued.len() + records.len() <= before.sink.capacity {
        sink::nothing_is_dropped_while_there_is_room(logs, records, records.len() as int);
        assert(records.take(records.len() as int) =~= records);
    }
    lemma_log_stays_open(logs, records, records.len() as int);
    assert(logs[0].heard);
    assert(records_of(moments, z, show, names, event, before, records));
}

proof fn lemma_worker_log_open<
    M: Fn(&VecDeque<Real>) -> (Real, Real),
    Z: Fn(Real, Real, Real) -> Real,
    S: Fn(Real) -> String,
>(
    moments: M,
    z: Z,
    show: S,
    names: Seq<Seq<char>>,
    events: Seq<EventView>,
    trace: Seq<WorkerState>,
    k: int,
)
    requires
        all_handled(moments, z, show, names, events, trace),
        trace[0].sink.open,
        0 <= k <= events.len(),
    ensures
        trace[k].sink.open,
        trace[k].sink.capacity == trace[0].sink.capacity,
    decreases k,
{
    if k > 0 {
        let i = k - 1;
        lemma_worker_log_open(moments, z, show, names, events, trace, i);
        assert(handled(moments, z, show, names, events[i], trace[i], trace[i + 1]));
        let (parts, logs, hops) = choose|
            parts: Seq<Seq<AlertView>>,
            logs: Seq<SinkData>,
            hops: Seq<BusData>,
        |
            {
                &&& #[trigger] all_raise(
                    moments,
                    z,
                    show,
                    watching(trace[i], names),
                    events[i],
                    parts,
                )
                &&& #[trigger] handled_by(
                    names,
                    events[i],
                    trace[i],
                    trace[i + 1],
                    queue::joined(parts, parts.len() as int),
                    logs,
                    hops,
                )
            };
        let records = records_for(
            events[i],
            row_of(names, events[i]),
            queue::joined(parts, parts.len() as int),
        );
        lemma_log_stays_open(logs, records, records.len() as int);
    }
}

proof fn lemma_writer_there<
    M: Fn(&VecDeque<Real>) -> (Real, Real),
    Z: Fn(Real, Real, Real) -> Real,
    S: Fn(Real) -> String,
>(
    moments: M,
    z: Z,
    show: S,
    names: Seq<Seq<char>>,
    events: Seq<EventView>,
    trace: Seq<WorkerState>,
    k: int,
)
    requires
        all_handled(moments, z, show, names, events, trace),
        trace[0].sink.open,
        trace.last().sink.heard,
        0 <= k <= events.len(),
    ensures
        trace[k].sink.heard,
    decreases events.len() - k,
{
    if k < events.len() {
        lemma_writer_there(moments, z, show, names, events, trace, k + 1);
        lemma_worker_log_open(moments, z, show, names, events, trace, k);
        assert(handled(moments, z, show, names, events[k], trace[k], trace[k + 1]));
        logs_are_complete(moments, z, show, names, events[k], trace[k], trace[k + 1]);
    }
}

/// A run is logged whole: while the writer is there and the records of all its events
/// find room, they are all queued in the order of the events, and nothing is dropped.
pub proof fn runs_are_logged_whole<
    M: Fn(&VecDeque<Real>) -> (Real, Real),
    Z: Fn(Real, Real, Real) -> Real,
    S: Fn(Real) -> String,
>(
    moments: M,
    z: Z,
    show: S,
    names: Seq<Seq<char>>,
    events: Seq<EventView>,
    trace: Seq<WorkerState>,
    k: int,
)
    requires
        all_handled(moments, z, show, names, events, trace),
        trace[0].sink.open,
        trace.last().sink.heard,
        0 <= k <= events.len(),
    ensures
        exists|logged: Seq<Seq<RecordView>>|
            {
                &&& #[trigger] logged.len() == k
                &&& forall|i: int|
                    0 <= i < k ==> records_of(
                        moments,
                        z,
                        show,
                        names,
                        events[i],
                        trace[i],
                        #[trigger] logged[i],
                    )
                &&& trace[0].sink.queued.len() + queue::joined(logged, k).len()
                    <= trace[0].sink.capacity ==> trace[k].sink.queued == trace[0].sink.queued
                    + queue::joined(logged, k) && trace[k].sink.dropped == trace[0].sink.dropped
            },
    decreases k,
{
    if k == 0 {
        let none = Seq::<Seq<RecordView>>::empty();
        assert(trace[0].sink.queued + queue::joined(none, 0) =~= trace[0].sink.queued);
        assert(none.len() == 0);
    } else {
        let i = k - 1;
        runs_are_logged_whole(moments, z, show, names, events, trace, i);
        let before = choose|logged: Seq<Seq<RecordView>>|
            {
                &&& #[trigger] logged.len() == i
                &&& forall|j: int|
                    0 <= j < i ==> records_of(
                        moments,
                        z,
                        show,
                        names,
                        events[j],
                        trace[j],
                        #[trigger] logged[j],
                    )
                &&& trace[0].sink.queued.len() + queue::joined(logged, i).len()
                    <= trace[0].sink.capacity ==> trace[i].sink.queued == trace[0].sink.queued
                    + queue::joined(logged, i) && trace[i].sink.dropped == trace[0].sink.dropped
            };
        lemma_worker_log_open(moments, z, show, names, events, trace, i);
        lemma_writer_there(moments, z, show, names, events, trace, k);
        assert(handled(moments, z, show, names, events[i], trace[i], trace[i + 1]));
        logs_are_complete(moments, z, show, names, events[i], trace[i], trace[i + 1]);
        let records = choose|records: Seq<RecordView>|
            {
                &&& #[trigger] records_of(moments, z, show, names, events[i], trace[i], records)
                &&& trace[i].sink.queued.len() + records.len() <= trace[i].sink.capacity
                    ==> trace[k].sink.queued == trace[i].sink.queued + records
                    && trace[k].sink.dropped == trace[i].sink.dropped
            };
        let logged = before.push(records);
        queue::lemma_joined_prefix(before, logged, i);
        assert(logged.len() == k);
        assert forall|j: int| 0 <= j < k implies records_of(
            moments,
            z,
            show,
            names,
            events[j],
            trace[j],
            #[trigger] logged[j],
        ) by {
            if j < i {
                assert(before[j] == logged[j]);
            }
        }
        if trace[0].sink.queued.len() + queue::joined(logged, k).len() <= trace[0].sink.capacity {
            assert(trace[k].sink.queued =~= trace[0].sink.queued + queue::joined(logged, k));
        }
    }
}

fn detect_all<
    M: Fn(&VecDeque<Real>) -> (Real, Real),
    Z: Fn(Real, Real, Real) -> Real,
    S: Fn(Real) -> String,
>(detectors: &mut Vec<AnomalyDetector>, event: &Event, moments: &M, z: &Z, show: &S) -> (alerts: Vec<
    AlertRecord,
>)
    requires
        spike_total(*moments, *z, *show),
        detectors_wf(detector_views(old(detectors)@)),
    ensures
        detector_views(final(detectors)@) == detectors_after(
            detector_views(old(detectors)@),
            event@,
        ),
        exists|parts: Seq<Seq<AlertView>>| #[trigger]
            all_raise(*moments, *z, *show, detector_views(old(detectors)@), event@, parts)
                && types::alert_views(alerts@) == queue::joined(parts, parts.len() as int),
{
    let ghost start = detector_views(detectors@);
    let mut alerts: Vec<AlertRecord> = Vec::new();
    let ghost mut parts: Seq<Seq<AlertView>> = Seq::empty();
    let n: usize = detectors.len();
    let mut i: usize = 0;
    assert(types::alert_views(alerts@) =~= Seq::<AlertView>::empty());
    while i < n
        invariant
            i <= n == detectors@.len(),
            n == start.len(),
            spike_total(*moments, *z, *show),
            detectors_wf(start),
            forall|k: int|
                0 <= k < n ==> (#[trigger] detectors@[k])@ == (if k < i {
                    anomaly::detector_after(start[k], event@)
                } else {
                    start[k]
                }),
            parts.len() == i,
            forall|k: int|
                0 <= k < i ==> #[trigger] anomaly::raises(
                    *moments,
                    *z,
                    *show,
                    start[k],
                    event@,
                    parts[k],
                ),
            types::alert_views(alerts@) == queue::joined(parts, i as int),
        decreases n - i,
    {
        let ghost before = types::alert_views(alerts@);
        let ghost ds = detectors@;
        assert(ds[i as int]@ == start[i as int]);
        let mut more = detectors[i].detect(event, moments, z, show);
        assert(detectors@ == ds.update(i as int, detectors@[i as int]));
        let ghost extra = types::alert_views(more@);
        alerts.append(&mut more);
        assert(types::alert_views(alerts@) =~= before + extra);
        proof {
            let earlier = parts;
            parts = earlier.push(extra);
            queue::lemma_joined_prefix(earlier, parts, i as int);
            assert forall|k: int| 0 <= k < i + 1 implies #[trigger] anomaly::raises(
                *moments,
                *z,
                *show,
                start[k],
                event@,
                parts[k],
            ) by {
                if k < i {
                    assert(anomaly::raises(*moments, *z, *show, start[k], event@, earlier[k]));
                }
            }
        }
        i = i + 1;
    }
    assert(detector_views(detectors@) =~= detectors_after(start, event@));
    assert(all_raise(*moments, *z, *show, start, event@, parts));
    alerts
}

/// Offering one record more.
proof fn lemma_offer_one(
    logs: Seq<SinkData>,
    records: Seq<RecordView>,
    record: RecordView,
    after: SinkData,
)
    requires
        sink::all_offered(logs, records),
        sink::offered(logs.last(), record, after),
    ensures
        sink::all_offered(logs.push(after), records.push(record)),
{
    let longer = logs.push(after);
    assert forall|i: int| 0 <= i < records.len() + 1 implies #[trigger] sink::offered(
        longer[i],
        records.push(record)[i],
        longer[i + 1],
    ) by {
        if i < records.len() {
            assert(sink::offered(logs[i], records[i], logs[i + 1]));
        }
    }
}

/// Publishing one event more.
proof fn lemma_deliver_one(
    hops: Seq<BusData>,
    published: Seq<EventView>,
    event: EventView,
    after: BusData,
)
    requires
        all_delivered(hops, published),
        bus::delivers(hops.last(), event, after),
    ensures
        all_delivered(hops.push(after), published.push(event)),
{
    let longer = hops.push(after);
    assert forall|i: int| 0 <= i < published.len() + 1 implies #[trigger] bus::delivers(
        longer[i],
        published.push(event)[i],
        longer[i + 1],
    ) by {
        if i < published.len() {
            assert(bus::delivers(hops[i], published[i], hops[i + 1]));
        }
    }
}

impl Worker {
    /// Hands an event to the logs and to observers, then its metric row to the
    /// logs, then every alert it raises to both. With detection on, metrics that
    /// were registered since the last event are watched from this one on.
    pub fn handle_event<
        M: Fn(&VecDeque<Real>) -> (Real, Real),
        Z: Fn(Real, Real, Real) -> Real,
        S: Fn(Real) -> String,
    >(
        &mut self,
        event: &Event,
        bus: &mut EventBus,
        registry: &MetricRegistry,
        moments: &M,
        z: &Z,
        show: &S,
    )
        requires
            spike_total(*moments, *z, *show),
            registry.wf(),
            detectors_wf(detector_views(old(self).detectors@)),
        ensures
            final(self).consumer == old(self).consumer,
            detectors_wf(detector_views(final(self).detectors@)),
            handled(
                *moments,
                *z,
                *show,
                registry@,
                event@,
                worker_state(*old(self), *old(bus)),
                worker_state(*final(self), *final(bus)),
            ),
    {
        let ghost before = worker_state(*self, *bus);
        let ghost names = registry@;
        let ghost mut records: Seq<RecordView> = Seq::empty();
        let ghost mut logs: Seq<SinkData> = seq![self.sink@];
        let ghost mut published: Seq<EventView> = Seq::empty();
        let ghost mut hops: Seq<BusData> = seq![bus@];
        if self.detect {
            watch_all(&mut self.detectors, registry);
            proof {
                lemma_watched_wf(before.detectors, names, names.len() as int);
            }
        }
        let copy = event.clone();
        self.sink.write_event(copy);
        let _ = bus.publish(event);
        proof {
            lemma_offer_one(logs, records, RecordView::Event(event@), self.sink@);
            records = records.push(RecordView::Event(event@));
            logs = logs.push(self.sink@);
            lemma_deliver_one(hops, published, event@, bus@);
            published = published.push(event@);
            hops = hops.push(bus@);
        }
        match metric_record(registry, event) {
            Some(row) => {
                let ghost view = RecordView::Metric(row@);
                self.sink.write_metric(row);
                proof {
                    lemma_offer_one(logs, records, view, self.sink@);
                    records = records.push(view);
                    logs = logs.push(self.sink@);
                }
            },
            None => {},
        }
        let ghost head = records;
        assert(head =~= records_for(event@, row_of(names, event@), Seq::empty()));
        let mut alerts = detect_all(&mut self.detectors, event, moments, z, show);
        let ghost all = types::alert_views(alerts@);
        let ghost items = alerts@;
        let total: usize = alerts.len();
        let mut k: usize = 0;
        let ghost after_detectors = detector_views(self.detectors@);
        while k < total
            invariant
                k <= total == items.len(),
                all == types::alert_views(items),
                alerts@ == items.skip(k as int),
                records == head + Seq::new(
                    k as nat,
                    |i: int| RecordView::Event(EventView::Alert(all[i])),
                ),
                sink::all_offered(logs, records),
                logs[0] == before.sink,
                logs.last() == self.sink@,
                published == seq![event@] + Seq::new(k as nat, |i: int| EventView::Alert(all[i])),
                all_delivered(hops, published),
                hops[0] == before.bus,
                hops.last() == bus@,
                self.consumer == old(self).consumer,
                self.detect == old(self).detect,
                detector_views(self.detectors@) == after_detectors,
            decreases total - k,
        {
            let alert: AlertRecord = alerts.remove(0);
            assert(alert == items[k as int]);
            assert(alerts@ =~= items.skip(k + 1));
            let alert_event = Event::Alert(alert);
            let copy = alert_event.clone();
            self.sink.write_event(copy);
            let _ = bus.publish(&alert_event);
            proof {
                let view = EventView::Alert(all[k as int]);
                lemma_offer_one(logs, records, RecordView::Event(view), self.sink@);
                records = records.push(RecordView::Event(view));
                logs = logs.push(self.sink@);
                lemma_deliver_one(hops, published, view, bus@);
                published = published.push(view);
                hops = hops.push(bus@);
                assert(records =~= head + Seq::new(
                    (k + 1) as nat,
                    |i: int| RecordView::Event(EventView::Alert(all[i])),
                ));
                assert(published =~= seq![event@] + Seq::new(
                    (k + 1) as nat,
                    |i: int| EventView::Alert(all[i]),
                ));
            }
            k = k + 1;
        }
        proof {
            let after = worker_state(*self, *bus);
            assert(records =~= records_for(event@, row_of(names, event@), all));
            assert(published =~= published_for(event@, all));
            assert(handled_by(names, event@, before, after, all, logs, hops));
        }
    }

    /// One turn of the worker: takes and handles the next event.
    ///
    /// A stop ends the turns; the event that ends a run ends them too.
    pub fn turn<
        M: Fn(&VecDeque<Real>) -> (Real, Real),
        Z: Fn(Real, Real, Real) -> Real,
        S: Fn(Real) -> String,
    >(
        &mut self,
        stop: bool,
        bus: &mut EventBus,
        registry: &MetricRegistry,
        moments: &M,
        z: &Z,
        show: &S,
    ) -> (r: pipeline::Turn)
        requires
            spike_total(*moments, *z, *show),
            registry.wf(),
            detectors_wf(detector_views(old(self).detectors@)),
        ensures
            detectors_wf(detector_views(final(self).detectors@)),
            final(self).consumer.stream() == old(self).consumer.stream(),
            final(self).consumer.capacity() == old(self).consumer.capacity(),
            stop <==> r == pipeline::Turn::Stopped,
            r == pipeline::Turn::Stopped ==> final(self).consumer == old(self).consumer,
            r == pipeline::Turn::Idle <==> !stop && old(self).consumer.waiting() <= 0,
            r != pipeline::Turn::Stopped ==> final(self).consumer.sound() && final(self).consumer.known()
                == old(self).consumer.filled(),
            r == pipeline::Turn::Stopped || r == pipeline::Turn::Idle ==> final(
                self).consumer.taken() == old(self).consumer.taken() && worker_state(
                *final(self),
                *final(bus),
            ) == worker_state(*old(self), *old(bus)),
            r == pipeline::Turn::Processed || r == pipeline::Turn::Finished ==> {
                let event = final(self).consumer.taken().last();
                &&& final(self).consumer.taken() == old(self).consumer.taken().push(event)
                &&& final(self).consumer.taken().is_prefix_of(final(self).consumer.stream())
                &&& r == pipeline::Turn::Finished <==> event is RunFinished
                &&& handled(
                    *moments,
                    *z,
                    *show,
                    registry@,
                    event@,
                    worker_state(*old(self), *old(bus)),
                    worker_state(*final(self), *final(bus)),
                )
            },
    {
        if stop {
            return pipeline::Turn::Stopped;
        }
        match self.consumer.pop() {
            None => pipeline::Turn::Idle,
            Some(event) => {
                self.handle_event(&event, bus, registry, moments, z, show);
                pipeline::ended_by(&event)
            },
        }
    }

    /// Handles every event that is still waiting, until a pop finds none, so that
    /// the logs are complete.
    pub fn drain<
        M: Fn(&VecDeque<Real>) -> (Real, Real),
        Z: Fn(Real, Real, Real) -> Real,
        S: Fn(Real) -> String,
    >(
        &mut self,
        bus: &mut EventBus,
        registry: &MetricRegistry,
        moments: &M,
        z: &Z,
        show: &S,
    )
        requires
            spike_total(*moments, *z, *show),
            registry.wf(),
            detectors_wf(detector_views(old(self).detectors@)),
        ensures
            final(self).consumer.stream() == old(self).consumer.stream(),
            old(self).consumer.taken().is_prefix_of(final(self).consumer.taken()),
            old(self).consumer.filled() <= final(self).consumer.taken().len(),
            final(self).consumer.sound(),
            final(self).consumer.known() <= final(self).consumer.taken().len(),
            old(self).consumer.sound() ==> final(self).consumer.known() == final(
                self).consumer.taken().len(),
            exists|trace: Seq<WorkerState>|
                {
                    &&& #[trigger] all_handled(
                        *moments,
                        *z,
                        *show,
                        registry@,
                        types::event_views(
                            final(self).consumer.taken().skip(
                                old(self).consumer.taken().len() as int,
                            ),
                        ),
                        trace,
                    )
                    &&& trace[0] == worker_state(*old(self), *old(bus))
                    &&& trace.last() == worker_state(*final(self), *final(bus))
                },
    {
        let ghost first = self.consumer.taken();
        let ghost stream = self.consumer.stream();
        let ghost mut trace: Seq<WorkerState> = seq![worker_state(*self, *bus)];
        let mut more: bool = true;
        while more
            invariant
                spike_total(*moments, *z, *show),
                registry.wf(),
                detectors_wf(detector_views(self.detectors@)),
                self.consumer.stream() == stream,
                old(self).consumer.filled() <= self.consumer.filled(),
                !more ==> old(self).consumer.filled() <= self.consumer.taken().len(),
                old(self).consumer.sound() ==> self.consumer.sound(),
                !more ==> {
                    &&& self.consumer.sound()
                    &&& self.consumer.known() <= self.consumer.taken().len()
                    &&& old(self).consumer.sound() ==> self.consumer.known()
                        == self.consumer.taken().len()
                },
                first.is_prefix_of(self.consumer.taken()),
                self.consumer.taken() == first || self.consumer.taken().len() <= stream.len(),
                trace.len() == self.consumer.taken().len() - first.len() + 1,
                trace[0] == worker_state(*old(self), *old(bus)),
                trace.last() == worker_state(*self, *bus),
                forall|i: int|
                    0 <= i < trace.len() - 1 ==> #[trigger] handled(
                        *moments,
                        *z,
                        *show,
                        registry@,
                        self.consumer.taken()[first.len() + i]@,
                        trace[i],
                        trace[i + 1],
                    ),
            decreases
                    (if more {
                        1int
                    } else {
                        0
                    }),
                    stream.len() + first.len() + 1 - self.consumer.taken().len(),
        {
            let ghost taken = self.consumer.taken();
            let ghost steps = trace;
            match self.turn(false, bus, registry, moments, z, show) {
                pipeline::Turn::Idle => {
                    more = false;
                },
                pipeline::Turn::Stopped => {
                    more = false;
                },
                _ => {
                    proof {
                        trace = steps.push(worker_state(*self, *bus));
                        assert forall|i: int| 0 <= i < trace.len() - 1 implies #[trigger] handled(
                            *moments,
                            *z,
                            *show,
                            registry@,
                            self.consumer.taken()[first.len() + i]@,
                            trace[i],
                            trace[i + 1],
                        ) by {
                            if i < steps.len() - 1 {
                                assert(handled(
                                    *moments,
                                    *z,
                                    *show,
                                    registry@,
                                    taken[first.len() + i]@,
                                    steps[i],
                                    steps[i + 1],
                                ));
                            }
                        }
                    }
                },
            }
        }
        proof {
            let events = types::event_views(self.consumer.taken().skip(first.len() as int));
            assert forall|i: int| 0 <= i < events.len() implies #[trigger] handled(
                *moments,
                *z,
                *show,
                registry@,
                events[i],
                trace[i],
                trace[i + 1],
            ) by {
                assert(events[i] == self.consumer.taken()[first.len() + i]@);
            }
            assert(all_handled(*moments, *z, *show, registry@, events, trace));
        }
    }
}

/// The state of a worker and the bus it publishes on.
pub open spec fn worker_state(w: Worker, bus: EventBus) -> WorkerState {
    WorkerState {
        sink: w.sink@,
        detect: w.detect,
        detectors: detector_views(w.detectors@),
        bus: bus@,
    }
}

/// Whether an identifier was registered under `name`.
pub open spec fn goes_by(names: Seq<Seq<char>>, id: MetricId, name: Seq<char>) -> bool {
    (id.0 as int) < names.len() && names[id.0 as int] == name
}

/// Whether position `i` holds the last value that a batch gives for its name.
pub open spec fn gives_last(names: Seq<Seq<char>>, pairs: Seq<(MetricId, Real)>, i: int) -> bool {
    &&& 0 <= i < pairs.len()
    &&& (pairs[i].0.0 as int) < names.len()
    &&& forall|j: int|
        i < j < pairs.len() ==> !goes_by(names, (#[trigger] pairs[j]).0, names[pairs[i].0.0 as int])
}

#[verifier::spinoff_prover]
proof fn lemma_row_values(names: Seq<Seq<char>>, pairs: Seq<(MetricId, Real)>, k: int)
    requires
        0 <= k <= pairs.len(),
    ensures
        forall|name: Seq<char>| #[trigger]
            row_values(names, pairs, k).contains_key(name) <==> exists|i: int|
                0 <= i < k && goes_by(names, (#[trigger] pairs[i]).0, name),
        forall|i: int| #[trigger]
            gives_last(names, pairs.take(k), i) ==> row_values(names, pairs, k)[names[pairs[i].0.0 as int]]
                == pairs[i].1,
    decreases k,
{
    if k > 0 {
        lemma_row_values(names, pairs, k - 1);
        let before = row_values(names, pairs, k - 1);
        let now = row_values(names, pairs, k);
        let last = pairs[k - 1];
        assert forall|name: Seq<char>| #[trigger] now.contains_key(name) <==> (exists|i: int|
            0 <= i < k && goes_by(names, (#[trigger] pairs[i]).0, name)) by {
            if before.contains_key(name) {
                let i = choose|i: int| 0 <= i < k - 1 && goes_by(names, (#[trigger] pairs[i]).0, name);
                assert(goes_by(names, pairs[i].0, name));
            }
            if goes_by(names, last.0, name) {
                assert(goes_by(names, pairs[k - 1].0, name));
            }
            if exists|i: int| 0 <= i < k && goes_by(names, (#[trigger] pairs[i]).0, name) {
                let i = choose|i: int| 0 <= i < k && goes_by(names, (#[trigger] pairs[i]).0, name);
                if i < k - 1 {
                    assert(goes_by(names, pairs[i].0, name));
                    assert(before.contains_key(name));
                }
            }
        }
        assert forall|i: int| #[trigger] gives_last(names, pairs.take(k), i) implies now[names[pairs[i].0.0 as int]]
            == pairs[i].1 by {
            if i < k - 1 {
                let name = names[pairs[i].0.0 as int];
                assert(!goes_by(names, pairs.take(k)[k - 1].0, name));
                assert forall|j: int| i < j < k - 1 implies !goes_by(
                    names,
                    (#[trigger] pairs.take(k - 1)[j]).0,
                    name,
                ) by {
                    assert(pairs.take(k)[j] == pairs.take(k - 1)[j]);
                }
                assert(gives_last(names, pairs.take(k - 1), i));
            }
        }
    }
}

/// A metric row holds what its batch says: exactly the names of the registered
/// identifiers in it, and under each name the last value that the batch gives for it.
/// Step, epoch and phase are those of the event.
#[verifier::spinoff_prover]
pub proof fn rows_hold_their_batch(
    names: Seq<Seq<char>>,
    step: u64,
    epoch: u32,
    phase: Phase,
    values: Seq<(MetricId, Real)>,
)
    ensures
        row_of(names, EventView::MetricsBatch { step, epoch, phase, values }) matches Some(row) && {
            &&& row.step == step
            &&& row.epoch == epoch
            &&& row.phase == phase
            &&& forall|name: Seq<char>| #[trigger]
                row.values.contains_key(name) <==> exists|i: int|
                    0 <= i < values.len() && goes_by(names, (#[trigger] values[i]).0, name)
            &&& forall|i: int| #[trigger]
                gives_last(names, values, i) ==> row.values[names[values[i].0.0 as int]]
                    == values[i].1
        },
{
    lemma_row_values(names, values, values.len() as int);
    assert(values.take(values.len() as int) =~= values);
}

/// Nothing of a batch is lost from its row: where the identifiers are registered and
/// distinct, the row maps the name of each to its value, and holds nothing else.
pub proof fn rows_lose_no_value(
    names: Seq<Seq<char>>,
    step: u64,
    epoch: u32,
    phase: Phase,
    values: Seq<(MetricId, Real)>,
    i: int,
)
    requires
        names.no_duplicates(),
        forall|j: int| 0 <= j < values.len() ==> ((#[trigger] values[j]).0.0 as int) < names.len(),
        forall|j: int, k: int|
            0 <= j < k < values.len() ==> (#[trigger] values[j]).0 != (#[trigger] values[k]).0,
        0 <= i < values.len(),
    ensures
        row_of(names, EventView::MetricsBatch { step, epoch, phase, values }) matches Some(row)
            && row.values.contains_key(names[values[i].0.0 as int])
            && row.values[names[values[i].0.0 as int]] == values[i].1,
{
    rows_hold_their_batch(names, step, epoch, phase, values);
    assert(goes_by(names, values[i].0, names[values[i].0.0 as int]));
    assert(gives_last(names, values, i));
}

/// The row of a single metric holds its value under its name, and events without
/// metrics have no row.
pub proof fn single_metrics_have_rows(
    names: Seq<Seq<char>>,
    id: MetricId,
    value: Real,
    step: u64,
    epoch: u32,
    phase: Phase,
    other: EventView,
)
    requires
        !(other is Metric),
        !(other is MetricsBatch),
    ensures
        row_of(names, EventView::Metric { id, value, step, epoch, phase }) matches Some(row) && {
            &&& row.step == step
            &&& row.epoch == epoch
            &&& row.phase == phase
            &&& row.values =~= (if (id.0 as int) < names.len() {
                map![names[id.0 as int] => value]
            } else {
                Map::<Seq<char>, Real>::empty()
            })
        },
        row_of(names, other) is None,
{
    reveal_with_fuel(row_values, 2);
}

/// Named values keep their names: where the names find room, the i-th value goes under
/// the identifier that was registered for the i-th name.
pub proof fn values_keep_their_names(names: Seq<Seq<char>>, values: Seq<(String, Real)>, i: int)
    requires
        names.no_duplicates(),
        names.len() <= registry::MAX_METRICS,
        all_fit(names, value_names(values)),
        0 <= i < values.len(),
    ensures
        ({
            let known = all_registered(names, value_names(values), values.len() as int);
            let pairs = by_id(known, values);
            &&& pairs.len() == values.len()
            &&& goes_by(known, pairs[i].0, values[i].0@)
            &&& pairs[i].1 == values[i].1
            &&& names.is_prefix_of(known)
        }),
{
    let list = value_names(values);
    let known = all_registered(names, list, values.len() as int);
    lemma_all_contained(names, list, list.len() as int, i);
    lemma_registered_distinct(names, list, list.len() as int);
    registry::names_and_identifiers_agree(known, list[i], 0);
}

proof fn lemma_registered_distinct(names: Seq<Seq<char>>, list: Seq<Seq<char>>, k: int)
    requires
        names.no_duplicates(),
        names.len() <= registry::MAX_METRICS,
    ensures
        all_registered(names, list, k).no_duplicates(),
        all_registered(names, list, k).len() <= registry::MAX_METRICS,
        names.is_prefix_of(all_registered(names, list, k)),
    decreases k,
{
    if k > 0 {
        lemma_registered_distinct(names, list, k - 1);
    }
}

/// The records of an event are the event itself, then its row if it has one, then
/// each alert in order; and observers are sent the event and then each alert.
pub proof fn records_are_event_row_and_alerts(
    event: EventView,
    row: Option<MetricRecordView>,
    alerts: Seq<AlertView>,
    i: int,
)
    ensures
        records_for(event, row, alerts)[0] == RecordView::Event(event),
        row matches Some(r) ==> {
            &&& records_for(event, row, alerts).len() == alerts.len() + 2
            &&& records_for(event, row, alerts)[1] == RecordView::Metric(r)
            &&& 0 <= i < alerts.len() ==> records_for(event, row, alerts)[i + 2]
                == RecordView::Event(EventView::Alert(alerts[i]))
        },
        row is None ==> {
            &&& records_for(event, row, alerts).len() == alerts.len() + 1
            &&& 0 <= i < alerts.len() ==> records_for(event, row, alerts)[i + 1]
                == RecordView::Event(EventView::Alert(alerts[i]))
        },
        published_for(event, alerts).len() == alerts.len() + 1,
        published_for(event, alerts)[0] == event,
        0 <= i < alerts.len() ==> published_for(event, alerts)[i + 1] == EventView::Alert(alerts[i]),
{
}

/// Whether position `i` holds the last value that a batch gives for the name that a
/// label table shows for it.
pub open spec fn shows_last(names: Map<u16, Seq<char>>, pairs: Seq<(MetricId, Real)>, i: int) -> bool {
    &&& 0 <= i < pairs.len()
    &&& forall|j: int|
        i < j < pairs.len() ==> labels::shown_label(names, (#[trigger] pairs[j]).0)
            != labels::shown_label(names, pairs[i].0)
}

#[verifier::spinoff_prover]
proof fn lemma_labelled_values(names: Map<u16, Seq<char>>, pairs: Seq<(MetricId, Real)>, k: int)
    requires
        0 <= k <= pairs.len(),
    ensures
        forall|name: Seq<char>| #[trigger]
            labelled_values(names, pairs, k).contains_key(name) <==> exists|i: int|
                0 <= i < k && labels::shown_label(names, (#[trigger] pairs[i]).0) == name,
        forall|i: int| #[trigger]
            shows_last(names, pairs.take(k), i) ==> labelled_values(names, pairs, k)[labels::shown_label(
                names,
                pairs[i].0,
            )] == pairs[i].1,
    decreases k,
{
    if k > 0 {
        lemma_labelled_values(names, pairs, k - 1);
        let before = labelled_values(names, pairs, k - 1);
        let now = labelled_values(names, pairs, k);
        assert forall|name: Seq<char>| #[trigger] now.contains_key(name) <==> (exists|i: int|
            0 <= i < k && labels::shown_label(names, (#[trigger] pairs[i]).0) == name) by {
            if before.contains_key(name) {
                let i = choose|i: int|
                    0 <= i < k - 1 && labels::shown_label(names, (#[trigger] pairs[i]).0) == name;
                assert(labels::shown_label(names, pairs[i].0) == name);
            }
            if labels::shown_label(names, pairs[k - 1].0) == name {
                assert(now.contains_key(name));
            } else if exists|i: int|
                0 <= i < k && labels::shown_label(names, (#[trigger] pairs[i]).0) == name {
                let i = choose|i: int|
                    0 <= i < k && labels::shown_label(names, (#[trigger] pairs[i]).0) == name;
                assert(i < k - 1);
                assert(before.contains_key(name));
            }
        }
        assert forall|i: int| #[trigger] shows_last(names, pairs.take(k), i) implies now[labels::shown_label(
            names,
            pairs[i].0,
        )] == pairs[i].1 by {
            if i < k - 1 {
                assert(labels::shown_label(names, pairs.take(k)[k - 1].0) != labels::shown_label(
                    names,
                    pairs[i].0,
                ));
                assert forall|j: int| i < j < k - 1 implies labels::shown_label(
                    names,
                    (#[trigger] pairs.take(k - 1)[j]).0,
                ) != labels::shown_label(names, pairs[i].0) by {
                    assert(pairs.take(k)[j] == pairs.take(k - 1)[j]);
                }
                assert(shows_last(names, pairs.take(k - 1), i));
            }
        }
    }
}

/// A sidecar's metric row holds every value of its batch under the name that
/// dashboards show for it; of values under one name the last.
#[verifier::spinoff_prover]
pub proof fn labelled_rows_hold_their_batch(
    names: Map<u16, Seq<char>>,
    step: u64,
    epoch: u32,
    phase: Phase,
    values: Seq<(MetricId, Real)>,
)
    ensures
        labelled_row(names, EventView::MetricsBatch { step, epoch, phase, values }) matches Some(
            row,
        ) && {
            &&& row.step == step
            &&& row.epoch == epoch
            &&& row.phase == phase
            &&& forall|name: Seq<char>| #[trigger]
                row.values.contains_key(name) <==> exists|i: int|
                    0 <= i < values.len() && labels::shown_label(names, (#[trigger] values[i]).0)
                        == name
            &&& forall|i: int| #[trigger]
                shows_last(names, values, i) ==> row.values[labels::shown_label(
                    names,
                    values[i].0,
                )] == values[i].1
        },
{
    lemma_labelled_values(names, values, values.len() as int);
    assert(values.take(values.len() as int) =~= values);
}

/// A sidecar's row of a single metric holds its value, and events without metrics
/// have no row.
pub proof fn labelled_single_metrics_have_rows(
    names: Map<u16, Seq<char>>,
    id: MetricId,
    value: Real,
    step: u64,
    epoch: u32,
    phase: Phase,
    other: EventView,
)
    requires
        !(other is Metric),
        !(other is MetricsBatch),
    ensures
        labelled_row(names, EventView::Metric { id, value, step, epoch, phase }) matches Some(row)
            && {
            &&& row.step == step
            &&& row.epoch == epoch
            &&& row.phase == phase
            &&& row.values =~= map![labels::shown_label(names, id) => value]
        },
        labelled_row(names, other) is None,
{
    reveal_with_fuel(labelled_values, 2);
}

/// Registering a list gives each of its names one identifier, in the order in which the
/// names first come, as long as there is room.
pub proof fn names_are_registered_in_order(list: Seq<Seq<char>>, k: int)
    requires
        0 <= k <= list.len(),
        all_fit(Seq::empty(), list),
    ensures
        export::in_first_seen_order(all_registered(Seq::empty(), list, k), list.take(k)),
    decreases k,
{
    if k > 0 {
        names_are_registered_in_order(list, k - 1);
        let before = all_registered(Seq::empty(), list, k - 1);
        assert(before.contains(list[k - 1]) || before.len() < registry::MAX_METRICS);
        export::lemma_first_seen_push(
            before,
            list.take(k - 1),
            list[k - 1],
            all_registered(Seq::empty(), list, k),
        );
        assert(list.take(k - 1).push(list[k - 1]) =~= list.take(k));
    }
}

/// A run starts with a detector for each of its metrics: it watches the identifier that
/// stands for the metric's name, under that name capitalized, and has seen nothing.
pub proof fn runs_start_with_a_detector_each(list: Seq<Seq<char>>, i: int)
    requires
        0 <= i < list.len(),
        all_fit(Seq::empty(), list),
    ensures
        ({
            let names = all_registered(Seq::empty(), list, list.len() as int);
            let detectors = fresh_detectors(names, list);
            let target = detectors[i].target.0 as int;
            &&& detectors.len() == list.len()
            &&& target < names.len() && names[target] == list[i]
            &&& detectors[i].label == text::capitalized(list[i])
            &&& detectors[i].window.len() == 0
            &&& detectors[i].capacity == anomaly::DEFAULT_WINDOW
            &&& detectors[i].threshold == anomaly::default_z_threshold()
        }),
{
    let names = all_registered(Seq::empty(), list, list.len() as int);
    lemma_all_contained(Seq::empty(), list, list.len() as int, i);
    names_are_registered_in_order(list, list.len() as int);
    lemma_registered_few(Seq::empty(), list, list.len() as int);
}

proof fn lemma_registered_few(names: Seq<Seq<char>>, list: Seq<Seq<char>>, k: int)
    requires
        names.len() <= registry::MAX_METRICS,
    ensures
        all_registered(names, list, k).len() <= registry::MAX_METRICS,
    decreases k,
{
    if k > 0 {
        lemma_registered_few(names, list, k - 1);
    }
}

/// Every detector takes in every event.
pub proof fn every_detector_takes_in_the_event(detectors: Seq<DetectorData>, event: EventView, i: int)
    requires
        0 <= i < detectors.len(),
    ensures
        detectors_after(detectors, event).len() == detectors.len(),
        detectors_after(detectors, event)[i] == anomaly::detector_after(detectors[i], event),
{
}

/// Whether none of the detectors watches the metric with number `i`.
pub open spec fn unwatched(detectors: Seq<DetectorData>, i: int) -> bool {
    forall|j: int|
        0 <= j < detectors.len() ==> (#[trigger] detectors[j]).target != MetricId(i as u16)
}

/// Watching all metrics keeps the detectors that are there and adds one for each metric
/// that none of them watches, in the order of the names. A detector that is added has
/// seen nothing and goes by the metric's name.
#[verifier::spinoff_prover]
pub proof fn missing_detectors_are_added(
    detectors: Seq<DetectorData>,
    names: Seq<Seq<char>>,
    k: int,
)
    requires
        0 <= k <= names.len(),
    ensures
        all_watched(detectors, names, k) == detectors + Seq::new(k as nat, |i: int| i).filter(
            |i: int| unwatched(detectors, i),
        ).map_values(|i: int| fresh_detector(MetricId(i as u16), names[i])),
    decreases k,
{
    reveal(Seq::filter);
    let all = Seq::new(k as nat, |i: int| i);
    let missing = |i: int| unwatched(detectors, i);
    let fresh = |i: int| fresh_detector(MetricId(i as u16), names[i]);
    if k > 0 {
        missing_detectors_are_added(detectors, names, k - 1);
        let before = Seq::new((k - 1) as nat, |i: int| i);
        assert(all.drop_last() =~= before);
        assert(all.last() == k - 1);
        assert(is_watched(detectors, MetricId((k - 1) as u16)) == !missing(k - 1));
        if missing(k - 1) {
            assert(all.filter(missing).map_values(fresh) =~= before.filter(missing).map_values(
                fresh,
            ).push(fresh(k - 1)));
        }
        assert(all_watched(detectors, names, k) =~= detectors + all.filter(missing).map_values(
            fresh,
        ));
    } else {
        assert(all =~= Seq::<int>::empty());
        assert(all.filter(missing).map_values(fresh) =~= Seq::<DetectorData>::empty());
        assert(all_watched(detectors, names, k) =~= detectors + all.filter(missing).map_values(
            fresh,
        ));
    }
}

/// What a handle emits is accepted while there is a free slot, behind all that was
/// accepted before; without one it is dropped and the drop is counted.
pub proof fn emitted_events_are_accepted_or_counted(
    before: EventProducer,
    event: EventView,
    after: EventProducer,
)
    requires
        pushes(before, event, after),
    ensures
        before.free() > 0 ==> types::event_views(after.accepted()) == types::event_views(
            before.accepted(),
        ).push(event) && after.drops() == before.drops(),
        before.free() <= 0 ==> after.accepted() == before.accepted(),
        before.free() <= 0 && before.drops() < u64::MAX ==> after.drops() == before.drops() + 1,
        after.capacity() == before.capacity(),
        after.stream() == before.stream(),
{
}

/// Handling an event offers the log the event first, then its metric row if it has one,
/// and then each alert; and observers are sent the event first and then each alert. In
/// both, nothing comes twice and nothing is left out.
pub proof fn handling_tells_logs_and_observers(
    names: Seq<Seq<char>>,
    event: EventView,
    before: WorkerState,
    after: WorkerState,
    alerts: Seq<AlertView>,
    logs: Seq<SinkData>,
    hops: Seq<BusData>,
    i: int,
)
    requires
        handled_by(names, event, before, after, alerts, logs, hops),
    ensures
        hops.len() == alerts.len() + 2,
        hops[0] == before.bus && hops[hops.len() - 1] == after.bus,
        bus::delivers(hops[0], event, hops[1]),
        0 <= i < alerts.len() ==> bus::delivers(
            hops[i + 1],
            EventView::Alert(alerts[i]),
            hops[i + 2],
        ),
        logs[0] == before.sink && logs[logs.len() - 1] == after.sink,
        sink::offered(logs[0], RecordView::Event(event), logs[1]),
        ({
            let rows: int = if row_of(names, event) is Some {
                1
            } else {
                0
            };
            &&& logs.len() == alerts.len() + rows + 2
            &&& rows == 1 ==> sink::offered(
                logs[1],
                RecordView::Metric(row_of(names, event)->0),
                logs[2],
            )
            &&& 0 <= i < alerts.len() ==> sink::offered(
                logs[i + rows + 1],
                RecordView::Event(EventView::Alert(alerts[i])),
                logs[i + rows + 2],
            )
        }),
        after.detect == before.detect,
        after.detectors.len() == watching(before, names).len(),
{
    let published = published_for(event, alerts);
    let records = records_for(event, row_of(names, event), alerts);
    assert(published[0] == event);
    let first: int = 0;
    let second: int = 1;
    assert(bus::delivers(hops[first], published[first], hops[first + 1]));
    assert(sink::offered(logs[first], records[first], logs[first + 1]));
    let rows: int = if row_of(names, event) is Some {
        1
    } else {
        0
    };
    if rows == 1 {
        assert(sink::offered(logs[second], records[second], logs[second + 1]));
    }
    if 0 <= i < alerts.len() {
        let p = i + 1;
        let q = i + rows + 1;
        assert(published[p] == EventView::Alert(alerts[i]));
        assert(bus::delivers(hops[p], published[p], hops[p + 1]));
        assert(records[q] == RecordView::Event(EventView::Alert(alerts[i])));
        assert(sink::offered(logs[q], records[q], logs[q + 1]));
    }
}

/// The alerts of an event are those of all detectors, one detector after the other, and
/// every detector is asked.
pub proof fn every_detector_is_asked<
    M: Fn(&VecDeque<Real>) -> (Real, Real),
    Z: Fn(Real, Real, Real) -> Real,
    S: Fn(Real) -> String,
>(
    moments: M,
    z: Z,
    show: S,
    names: Seq<Seq<char>>,
    event: EventView,
    before: WorkerState,
    after: WorkerState,
)
    requires
        handled(moments, z, show, names, event, before, after),
    ensures
        exists|parts: Seq<Seq<AlertView>>, logs: Seq<SinkData>, hops: Seq<BusData>|
            {
                &&& parts.len() == watching(before, names).len()
                &&& forall|i: int|
                    0 <= i < parts.len() ==> #[trigger] anomaly::raises(
                        moments,
                        z,
                        show,
                        watching(before, names)[i],
                        event,
                        parts[i],
                    )
                &&& #[trigger] handled_by(
                    names,
                    event,
                    before,
                    after,
                    parts.flatten(),
                    logs,
                    hops,
                )
            },
{
    let (parts, logs, hops) = choose|
        parts: Seq<Seq<AlertView>>,
        logs: Seq<SinkData>,
        hops: Seq<BusData>,
    |
        {
            &&& #[trigger] all_raise(moments, z, show, watching(before, names), event, parts)
            &&& #[trigger] handled_by(
                names,
                event,
                before,
                after,
                queue::joined(parts, parts.len() as int),
                logs,
                hops,
            )
        };
    queue::joined_parts_keep_their_order(parts, parts.len() as int);
    assert(parts.take(parts.len() as int) =~= parts);
    assert(handled_by(names, event, before, after, parts.flatten(), logs, hops));
}

} // verus!
