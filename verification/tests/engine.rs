//! Derived statistics, anomaly alerts, the pipeline, and runs.
use emry::base::bus::EventBus;
use emry::base::queue::Offer;
use emry::base::registry::MetricRegistry;
use emry::base::ring::{
    event_ring_with_capacity, EventConsumer, EventProducer, DEFAULT_CAPACITY,
};
use emry::base::types::{AlertRecord, Event, FinishReason, MetricId, Phase, Severity};
use emry::base::value::Real;
use emry::engine::anomaly::{default_z_threshold, AnomalyDetector, DEFAULT_WINDOW};
use emry::engine::pipeline::{
    ended_by, process, turn, DerivedOut, PipelineStats, Turn, DEFAULT_DERIVED_CAPACITY,
    MAX_DERIVED_BYTES,
};
use emry::engine::processor::{step_value, DerivedMetric, Either, Processor};
use emry::engine::session::{metric_record, Engine, RunConfig, Started, Worker};
use emry::engine::stats::{value_for, Ema, Welford};
use emry::engine::throughput::{step_of, Throughput};
use emry::store::sink::{JsonlSink, Record, MAX_RECORD_BYTES};
use std::collections::VecDeque;

const TARGET: MetricId = MetricId(0);
const EPS: f64 = 1e-9;

fn num(v: f64) -> Real {
    Real { bits: v.to_bits() }
}

fn flt(v: Real) -> f64 {
    f64::from_bits(v.bits)
}

fn approx(a: f64, b: f64) {
    assert!((a - b).abs() < EPS, "expected {b}, got {a}");
}

fn metric_at(value: f64, step: u64) -> Event {
    Event::Metric {
        id: TARGET,
        value: num(value),
        step,
        epoch: 0,
        phase: Phase::Train,
    }
}

fn sample(value: f64) -> Event {
    metric_at(value, 0)
}

fn blend(v: Real, avg: Real, alpha: Real) -> Real {
    num(flt(alpha) * flt(v) + (1.0 - flt(alpha)) * flt(avg))
}

fn shift(mean: Real, v: Real, count: u64) -> Real {
    num(flt(mean) + (flt(v) - flt(mean)) / count as f64)
}

fn grow(m2: Real, v: Real, mean: Real, next: Real) -> Real {
    num(flt(m2) + (flt(v) - flt(mean)) * (flt(v) - flt(next)))
}

fn spread(m2: Real, count: u64) -> Real {
    num((flt(m2) / (count as f64 - 1.0)).sqrt())
}

fn moments(window: &VecDeque<Real>) -> (Real, Real) {
    let count = window.len() as f64;
    let mean = window.iter().map(|v| flt(*v)).sum::<f64>() / count;
    let variance = window.iter().map(|v| (flt(*v) - mean).powi(2)).sum::<f64>() / count;
    (num(mean), num(variance.sqrt()))
}

fn z(v: Real, mean: Real, dev: Real) -> Real {
    num((flt(v) - flt(mean)) / flt(dev))
}

fn show(v: Real) -> String {
    format!("{:.1}", flt(v))
}

fn detect(det: &mut AnomalyDetector, event: &Event) -> Vec<AlertRecord> {
    det.detect(event, &moments, &z, &show)
}

/// Feeds lightly jittered values, so that the window has a small spread.
fn prime(det: &mut AnomalyDetector, n: u64, value: f64) {
    for step in 0..n {
        let jitter = if step % 2 == 0 { 0.01 } else { -0.01 };
        assert!(detect(det, &metric_at(value + jitter, step)).is_empty());
    }
}

#[test]
fn nan_triggers_critical_alert_immediately() {
    let mut det = AnomalyDetector::new(TARGET, "Loss".to_string());
    let alerts = detect(&mut det, &metric_at(f64::NAN, 12_400));
    assert_eq!(alerts.len(), 1);
    assert_eq!(alerts[0].severity, Severity::Critical);
    assert_eq!(alerts[0].step, Some(12_400));
    assert!(alerts[0].message.contains("NaN"));
    assert!(alerts[0].message.contains("12400"));
}

#[test]
fn infinity_triggers_critical_alert() {
    let mut det = AnomalyDetector::new(TARGET, "Grad".to_string());
    let alerts = detect(&mut det, &metric_at(f64::INFINITY, 7));
    assert_eq!(alerts[0].severity, Severity::Critical);
    assert!(alerts[0].message.contains("infinite"));
}

#[test]
fn non_finite_does_not_enter_window() {
    let mut det = AnomalyDetector::with_config(TARGET, "Loss".to_string(), 8, num(4.0));
    prime(&mut det, 6, 1.0);
    detect(&mut det, &metric_at(f64::NAN, 100));
    let alerts = detect(&mut det, &metric_at(50.0, 101));
    assert_eq!(alerts.len(), 1);
    assert_eq!(alerts[0].severity, Severity::Warning);
}

#[test]
fn loss_spike_triggers_warning() {
    let mut det = AnomalyDetector::with_config(TARGET, "Loss".to_string(), 50, num(4.0));
    prime(&mut det, 20, 2.0);
    let alerts = detect(&mut det, &metric_at(100.0, 21));
    assert_eq!(alerts.len(), 1);
    assert_eq!(alerts[0].severity, Severity::Warning);
    assert!(alerts[0].message.contains("z-score"));
}

#[test]
fn alert_messages_are_exact() {
    let mut det = AnomalyDetector::with_config(TARGET, "Loss".to_string(), 50, num(4.0));
    for step in 0..6 {
        let v = if step % 2 == 0 { 1.0 } else { 3.0 };
        detect(&mut det, &metric_at(v, step));
    }
    let alerts = detect(&mut det, &metric_at(-8.0, 6));
    assert_eq!(
        alerts[0].message,
        "Loss spiked at step 6 (z-score -10.0) \u{2014} this may be a transient blip."
    );
    let alerts = detect(&mut det, &metric_at(f64::NEG_INFINITY, 7));
    assert_eq!(
        alerts[0].message,
        "Loss became infinite at step 7 \u{2014} you may want to pause and check your data."
    );
}

#[test]
fn no_spike_for_values_within_threshold() {
    let mut det = AnomalyDetector::with_config(TARGET, "Loss".to_string(), 50, num(4.0));
    for step in 0..30u64 {
        let v = 2.0 + f64::from(u32::try_from(step % 3).unwrap()) * 0.1;
        assert!(detect(&mut det, &metric_at(v, step)).is_empty());
    }
}

#[test]
fn no_spike_before_min_samples() {
    let mut det = AnomalyDetector::new(TARGET, "Loss".to_string());
    detect(&mut det, &metric_at(1.0, 0));
    detect(&mut det, &metric_at(1.0, 1));
    let alerts = detect(&mut det, &metric_at(1000.0, 2));
    assert!(alerts.is_empty());
}

#[test]
fn flat_window_has_no_spread_so_no_false_spike() {
    let mut det = AnomalyDetector::with_config(TARGET, "Loss".to_string(), 10, num(4.0));
    prime(&mut det, 8, 5.0);
    assert!(detect(&mut det, &metric_at(5.0, 8)).is_empty());
}

#[test]
fn a_truly_flat_window_never_alerts() {
    let mut det = AnomalyDetector::new(TARGET, "Loss".to_string());
    for step in 0..20 {
        assert!(detect(&mut det, &metric_at(5.0, step)).is_empty());
    }
    assert!(detect(&mut det, &metric_at(1e9, 20)).is_empty());
}

#[test]
fn ignores_other_metrics_and_non_metric_events() {
    let mut det = AnomalyDetector::new(MetricId(9), "Loss".to_string());
    assert!(detect(&mut det, &metric_at(f64::NAN, 0)).is_empty());
    assert!(detect(&mut det, &Event::PhaseChange(Phase::Eval)).is_empty());
}

#[test]
fn reads_from_metrics_batch() {
    let mut det = AnomalyDetector::new(MetricId(1), "LR".to_string());
    let batch = Event::MetricsBatch {
        step: 42,
        epoch: 0,
        phase: Phase::Train,
        values: vec![(MetricId(0), num(1.0)), (MetricId(1), num(f64::NAN))],
    };
    let alerts = detect(&mut det, &batch);
    assert_eq!(alerts[0].severity, Severity::Critical);
    assert_eq!(alerts[0].step, Some(42));
}

#[test]
fn detector_defaults() {
    assert_eq!(DEFAULT_WINDOW, 50);
    assert_eq!(flt(default_z_threshold()), 4.0);
}

#[test]
fn samples_are_the_first_of_their_metric() {
    let batch = Event::MetricsBatch {
        step: 3,
        epoch: 0,
        phase: Phase::Train,
        values: vec![(TARGET, num(1.0)), (TARGET, num(2.0))],
    };
    assert_eq!(step_value(&batch, TARGET), Some((3, num(1.0))));
    assert_eq!(step_value(&batch, MetricId(7)), None);
    assert_eq!(value_for(&batch, TARGET), Some(num(1.0)));
    assert_eq!(step_of(&batch), Some(3));
    assert_eq!(step_of(&Event::PhaseChange(Phase::Eval)), None);
}

#[test]
fn ema_matches_reference_series() {
    let mut ema = Ema::new(TARGET, "loss_ema", num(0.5), blend);
    let outputs: Vec<f64> = [1.0, 2.0, 3.0, 4.0]
        .into_iter()
        .map(|v| flt(ema.on_event(&sample(v))[0].value))
        .collect();
    approx(outputs[0], 1.0);
    approx(outputs[1], 1.5);
    approx(outputs[2], 2.25);
    approx(outputs[3], 3.125);
    approx(flt(ema.value().unwrap()), 3.125);
}

#[test]
fn ema_rejects_non_finite_without_corrupting_state() {
    let mut ema = Ema::new(TARGET, "loss_ema", num(0.5), blend);
    assert_eq!(ema.on_event(&sample(1.0)).len(), 1);
    assert!(ema.on_event(&sample(f64::NAN)).is_empty());
    assert!(ema.on_event(&sample(f64::INFINITY)).is_empty());
    approx(flt(ema.on_event(&sample(3.0))[0].value), 2.0);
}

#[test]
fn ema_ignores_other_metrics_and_non_metric_events() {
    let mut ema = Ema::new(MetricId(5), "x", num(0.3), blend);
    assert!(ema.on_event(&sample(1.0)).is_empty());
    assert!(ema.on_event(&Event::PhaseChange(Phase::Eval)).is_empty());
    assert_eq!(ema.value(), None);
}

#[test]
fn ema_reads_from_metrics_batch() {
    let mut ema = Ema::new(MetricId(1), "lr_ema", num(1.0), blend);
    let batch = Event::MetricsBatch {
        step: 0,
        epoch: 0,
        phase: Phase::Train,
        values: vec![(MetricId(0), num(9.0)), (MetricId(1), num(2.0))],
    };
    approx(flt(ema.on_event(&batch)[0].value), 2.0);
}

#[test]
fn welford_matches_reference_series() {
    let mut w = Welford::new(TARGET, "loss", shift, grow, spread);
    let mut last = Vec::new();
    for v in [2.0, 4.0, 4.0, 4.0, 5.0, 5.0, 7.0, 9.0] {
        last = w.on_event(&sample(v));
    }
    approx(flt(w.mean()), 5.0);
    approx(flt(w.std_dev()), (32.0_f64 / 7.0).sqrt());
    assert_eq!(last[0].name, "loss_mean");
    assert_eq!(last[1].name, "loss_std");
    approx(flt(last[0].value), 5.0);
}

#[test]
fn welford_std_is_zero_before_two_samples() {
    let mut w = Welford::new(TARGET, "loss", shift, grow, spread);
    let out = w.on_event(&sample(3.0));
    approx(flt(out[0].value), 3.0);
    approx(flt(out[1].value), 0.0);
    approx(flt(w.std_dev()), 0.0);
}

#[test]
fn welford_rejects_non_finite_without_corrupting_state() {
    let mut w = Welford::new(TARGET, "loss", shift, grow, spread);
    w.on_event(&sample(2.0));
    w.on_event(&sample(8.0));
    assert!(w.on_event(&sample(f64::NAN)).is_empty());
    approx(flt(w.mean()), 5.0);
}

fn observe(t: &mut Throughput, step: u64, now: f64) -> Vec<DerivedMetric> {
    t.observe(
        step,
        num(now),
        &|a: Real, b: Real| num(flt(b) - flt(a)),
        &|n: u64, d: Real| num(n as f64 / flt(d)),
        &|n: u64, r: Real| num(n as f64 / flt(r)),
    )
}

fn named(out: &[DerivedMetric], name: &str) -> Option<f64> {
    out.iter().find(|d| d.name == name).map(|d| flt(d.value))
}

#[test]
fn first_sample_yields_no_rate() {
    let mut t = Throughput::new(None, 8);
    assert!(observe(&mut t, 0, 0.0).is_empty());
}

#[test]
fn rate_and_eta_from_two_samples() {
    let mut t = Throughput::new(Some(100), 8);
    assert!(observe(&mut t, 0, 0.0).is_empty());
    let out = observe(&mut t, 10, 1.0);
    approx(named(&out, "steps_per_sec").unwrap(), 10.0);
    approx(named(&out, "eta_secs").unwrap(), 9.0);
}

#[test]
fn no_eta_when_total_unknown() {
    let mut t = Throughput::new(None, 8);
    observe(&mut t, 0, 0.0);
    let out = observe(&mut t, 5, 1.0);
    approx(named(&out, "steps_per_sec").unwrap(), 5.0);
    assert!(named(&out, "eta_secs").is_none());
}

#[test]
fn non_advancing_steps_are_ignored() {
    let mut t = Throughput::new(None, 8);
    observe(&mut t, 5, 0.0);
    assert!(observe(&mut t, 5, 1.0).is_empty(), "same step ignored");
    assert!(observe(&mut t, 3, 2.0).is_empty(), "out-of-order step ignored");
}

#[test]
fn zero_duration_window_yields_no_rate() {
    let mut t = Throughput::new(None, 8);
    observe(&mut t, 0, 5.0);
    assert!(observe(&mut t, 1, 5.0).is_empty());
}

#[test]
fn window_slides_to_recent_samples() {
    let mut t = Throughput::new(None, 2);
    observe(&mut t, 0, 0.0);
    observe(&mut t, 10, 1.0);
    let out = observe(&mut t, 30, 2.0);
    approx(named(&out, "steps_per_sec").unwrap(), 20.0);
}

#[test]
fn eta_zero_at_or_past_total() {
    let mut t = Throughput::new(Some(10), 8);
    observe(&mut t, 0, 0.0);
    let out = observe(&mut t, 20, 1.0);
    approx(named(&out, "eta_secs").unwrap(), 0.0);
}

fn finished() -> Event {
    Event::RunFinished {
        duration_secs: num(1.0),
        reason: FinishReason::Completed,
    }
}

struct NoOp;

impl Processor for NoOp {
    fn on_event(&mut self, _event: &Event) -> Vec<DerivedMetric> {
        Vec::new()
    }
}

struct CountMetrics {
    seen: u32,
}

impl Processor for CountMetrics {
    fn on_event(&mut self, event: &Event) -> Vec<DerivedMetric> {
        if matches!(event, Event::Metric { .. }) {
            self.seen += 1;
            vec![DerivedMetric::new("metric_count", num(f64::from(self.seen)))]
        } else {
            Vec::new()
        }
    }
}

fn push_all(producer: &mut EventProducer, n: u64) {
    for step in 0..n {
        producer.push(metric_at(0.0, step)).expect("ring has capacity");
    }
}

/// Takes turns until the pipeline ends.
fn run_pipeline<P: Processor>(
    stop: bool,
    consumer: &mut EventConsumer,
    processors: &mut Vec<P>,
    bus: &mut EventBus,
    out: &mut DerivedOut,
) -> PipelineStats {
    loop {
        match turn(stop, consumer, processors, bus, out) {
            Turn::Processed => {}
            Turn::Stopped | Turn::Idle | Turn::Finished => return out.stats(),
        }
    }
}

#[test]
fn noop_pipeline_drains_and_shuts_down_on_run_finished() {
    let (mut producer, mut consumer) = event_ring_with_capacity(256);
    let mut bus = EventBus::new();
    let subscriber = bus.subscribe();

    push_all(&mut producer, 10);
    producer.push(finished()).unwrap();

    let (mut out, derived_rx) = DerivedOut::open(DEFAULT_DERIVED_CAPACITY);
    let stats = run_pipeline(false, &mut consumer, &mut vec![NoOp], &mut bus, &mut out);

    assert_eq!(stats.events_processed, 11, "10 metrics + RunFinished");
    assert_eq!(stats.derived_emitted, 0);
    assert!(derived_rx.try_recv().is_err());
    let forwarded: Vec<_> = subscriber.try_iter().collect();
    assert_eq!(forwarded.len(), 11);
}

#[test]
fn processors_emit_derived_metrics() {
    let (mut producer, mut consumer) = event_ring_with_capacity(256);
    let mut bus = EventBus::new();

    push_all(&mut producer, 5);
    producer.push(finished()).unwrap();

    let (mut out, derived_rx) = DerivedOut::open(DEFAULT_DERIVED_CAPACITY);
    let mut processors = vec![CountMetrics { seen: 0 }];
    let stats = run_pipeline(false, &mut consumer, &mut processors, &mut bus, &mut out);

    assert_eq!(stats.derived_emitted, 5);
    let derived: Vec<_> = derived_rx.try_iter().collect();
    assert_eq!(derived.len(), 5);
    assert_eq!(
        derived.last().unwrap(),
        &DerivedMetric::new("metric_count", num(5.0))
    );
}

#[test]
fn stop_terminates_promptly_without_run_finished() {
    let (mut producer, mut consumer) = event_ring_with_capacity(256);
    let mut bus = EventBus::new();

    push_all(&mut producer, 20);

    let (mut out, _derived_rx) = DerivedOut::open(DEFAULT_DERIVED_CAPACITY);
    let stats = run_pipeline(true, &mut consumer, &mut vec![NoOp], &mut bus, &mut out);
    assert!(stats.events_processed <= 20);
    assert_eq!(consumer.pending(), 20);
}

#[test]
fn derived_metrics_dropped_when_channel_full() {
    let (mut producer, mut consumer) = event_ring_with_capacity(256);
    let mut bus = EventBus::new();

    push_all(&mut producer, 5);
    producer.push(finished()).unwrap();

    let (mut out, _derived_rx) = DerivedOut::open(2);
    let mut processors = vec![CountMetrics { seen: 0 }];
    let stats = run_pipeline(false, &mut consumer, &mut processors, &mut bus, &mut out);

    assert_eq!(stats.derived_emitted, 2);
    assert_eq!(stats.derived_dropped, 3);
}

#[test]
fn two_processors_derive_in_their_order() {
    let (mut producer, mut consumer) = event_ring_with_capacity(8);
    producer.push(sample(4.0)).unwrap();
    let mut bus = EventBus::new();
    let (mut out, rx) = DerivedOut::open(8);
    let mut processors = vec![
        Ema::new(TARGET, "first", num(0.5), blend),
        Ema::new(TARGET, "second", num(0.5), blend),
    ];
    assert_eq!(
        turn(false, &mut consumer, &mut processors, &mut bus, &mut out),
        Turn::Processed
    );
    assert_eq!(
        turn(false, &mut consumer, &mut processors, &mut bus, &mut out),
        Turn::Idle
    );
    let names: Vec<String> = rx.try_iter().map(|d| d.name).collect();
    assert_eq!(names, ["first", "second"]);
}

#[test]
fn an_event_is_published_and_processed_at_once() {
    let mut bus = EventBus::new();
    let seen = bus.subscribe();
    let (mut out, rx) = DerivedOut::open(8);
    let mut processors = vec![CountMetrics { seen: 6 }];
    let event = metric_at(0.0, 9);
    process(&event, &mut processors, &mut bus, &mut out);
    assert_eq!(seen.try_recv().unwrap(), event);
    assert_eq!(rx.try_recv().unwrap(), DerivedMetric::new("metric_count", num(7.0)));
    assert_eq!(out.stats().events_processed, 1);
    assert_eq!(out.stats().derived_emitted, 1);
}

#[test]
fn only_the_end_of_a_run_ends_the_turns() {
    assert_eq!(ended_by(&finished()), Turn::Finished);
    assert_eq!(ended_by(&metric_at(0.0, 1)), Turn::Processed);
}

#[test]
fn a_quiet_reader_gets_the_first_values_that_fit() {
    let mut bus = EventBus::new();
    let (mut out, rx) = DerivedOut::open(3);
    let mut processors = vec![CountMetrics { seen: 0 }];
    for step in 0..5 {
        process(&metric_at(0.0, step), &mut processors, &mut bus, &mut out);
    }
    assert_eq!(out.stats().events_processed, 5);
    assert_eq!((out.stats().derived_emitted, out.stats().derived_dropped), (3, 2));
    assert_eq!(rx.try_recv().unwrap().value, num(1.0));
    process(&metric_at(0.0, 5), &mut processors, &mut bus, &mut out);
    assert_eq!(out.stats().derived_emitted, 4);
    let values: Vec<Real> = rx.try_iter().map(|d| d.value).collect();
    assert_eq!(values, [num(2.0), num(3.0), num(6.0)]);
    let (mut none, _rx) = DerivedOut::open(0);
    process(&metric_at(0.0, 6), &mut processors, &mut bus, &mut none);
    assert_eq!((none.stats().derived_emitted, none.stats().derived_dropped), (0, 1));
}

#[test]
fn offers_are_counted_by_their_outcome() {
    let (mut out, _rx) = DerivedOut::open(1);
    out.count_offer(Offer::Taken);
    out.count_offer(Offer::Full);
    out.count_offer(Offer::Gone);
    assert_eq!(out.stats().derived_emitted, 1);
    assert_eq!(out.stats().derived_dropped, 2);
}

#[test]
fn a_run_ends_with_the_reason_it_is_given() {
    let mut done = Engine::start(config(), num(0.0));
    done.handle.finish(num(2.0));
    let mut cut = Engine::start(config(), num(0.0));
    cut.handle.finish_with(num(3.0), FinishReason::Interrupted);
    let _ = done.consumer.pop();
    let _ = cut.consumer.pop();
    assert_eq!(
        done.consumer.pop().unwrap(),
        Event::RunFinished { duration_secs: num(2.0), reason: FinishReason::Completed }
    );
    assert_eq!(
        cut.consumer.pop().unwrap(),
        Event::RunFinished { duration_secs: num(3.0), reason: FinishReason::Interrupted }
    );
}

#[test]
fn queued_values_fit_their_bounds() {
    assert!(std::mem::size_of::<DerivedMetric>() + 16 <= MAX_DERIVED_BYTES);
    assert!(std::mem::size_of::<Record>() + 16 <= MAX_RECORD_BYTES);
}

fn config() -> RunConfig {
    RunConfig {
        metric_names: vec!["loss".into(), "lr".into()],
        ..RunConfig::new("test-run", "logs")
    }
}

/// Handles everything that a run has emitted, and returns what went to the logs.
fn logged(mut started: Started) -> (Vec<Event>, Vec<emry::base::types::MetricRecord>) {
    let (sink, rx) = JsonlSink::spawn();
    let mut worker = Worker {
        consumer: started.consumer,
        sink,
        detect: started.detect,
        detectors: started.detectors,
    };
    worker.drain(&mut started.bus, &started.registry, &moments, &z, &show);
    assert_eq!(worker.sink.dropped(), 0);
    let mut events = Vec::new();
    let mut rows = Vec::new();
    for record in rx.try_iter() {
        match record {
            Record::Event(e) => events.push(e),
            Record::Metric(m) => rows.push(m),
        }
    }
    (events, rows)
}

#[test]
fn synthetic_run_writes_events_and_metrics() {
    let mut run = Engine::start(config(), num(1.0));
    let loss = run.handle.register(&mut run.registry, "loss");
    let lr = run.handle.register(&mut run.registry, "lr");
    for step in 0..50 {
        run.handle
            .emit(&vec![(loss, num(1.0 / f64::from(step + 1))), (lr, num(1e-3))]);
    }
    run.handle.finish(num(2.0));
    let (events, metrics) = logged(run);
    assert_eq!(events.len(), 52);
    assert_eq!(metrics.len(), 50);
    assert!(matches!(events[0], Event::RunStarted(_)));
    assert!(matches!(events.last().unwrap(), Event::RunFinished { .. }));
    assert!(metrics[0].values.get("loss").is_some());
    assert!(metrics[0].values.get("lr").is_some());
    assert_eq!(metrics[49].step, 49);
    assert_eq!(metrics[49].values.get("loss"), Some(num(1.0 / 50.0)));
}

#[test]
fn nan_value_produces_alert_in_event_log() {
    let mut run = Engine::start(config(), num(1.0));
    let loss = run.registry.register("loss");
    run.handle.emit(&vec![(loss, num(1.0))]);
    run.handle.emit(&vec![(loss, num(f64::NAN))]);
    run.handle.finish(num(2.0));
    let (events, _) = logged(run);
    let alerts: Vec<&AlertRecord> = events
        .iter()
        .filter_map(|e| match e {
            Event::Alert(a) => Some(a),
            _ => None,
        })
        .collect();
    assert_eq!(alerts.len(), 1, "one NaN -> one alert");
    assert_eq!(alerts[0].severity, Severity::Critical);
    assert!(alerts[0].message.starts_with("Loss became NaN at step 1"));
}

fn alerts_of(events: &[Event]) -> Vec<&AlertRecord> {
    events
        .iter()
        .filter_map(|e| match e {
            Event::Alert(a) => Some(a),
            _ => None,
        })
        .collect()
}

#[test]
fn metrics_registered_after_the_start_are_watched_too() {
    let mut run = Engine::start(config(), num(1.0));
    let late = run.handle.register(&mut run.registry, "grad_norm");
    run.handle.emit(&vec![(late, num(f64::NAN))]);
    let values = vec![("entropy".to_string(), num(f64::INFINITY))];
    run.handle.emit_dynamic(&mut run.registry, &values);
    run.handle.finish(num(2.0));
    let (events, _) = logged(run);
    let alerts = alerts_of(&events);
    assert_eq!(alerts.len(), 2);
    assert!(alerts.iter().all(|a| a.severity == Severity::Critical));
    assert!(alerts[0].message.starts_with("Grad_norm became NaN at step 0"));
    assert!(alerts[1].message.starts_with("Entropy became infinite at step 1"));
}

#[test]
fn nothing_is_watched_while_detection_is_off() {
    let mut run = Engine::start(
        RunConfig {
            detect_anomalies: false,
            ..config()
        },
        num(1.0),
    );
    let late = run.handle.register(&mut run.registry, "late");
    run.handle.emit(&vec![(MetricId(0), num(f64::NAN)), (late, num(f64::NAN))]);
    let (events, _) = logged(run);
    assert!(alerts_of(&events).is_empty());
}

#[test]
fn a_run_starts_with_an_empty_ring_of_the_default_size() {
    let run = Engine::start(config(), num(1.0));
    assert_eq!(run.handle.producer.free_slots(), DEFAULT_CAPACITY - 1);
    assert_eq!(run.consumer.pending(), 1);
}

#[test]
fn a_pipeline_runs_different_processors_side_by_side() {
    let mut bus = EventBus::new();
    let (mut out, rx) = DerivedOut::open(8);
    let mut processors: Vec<Either<NoOp, CountMetrics>> = vec![
        Either::Right(CountMetrics { seen: 1 }),
        Either::Left(NoOp),
        Either::Right(CountMetrics { seen: 4 }),
    ];
    process(&metric_at(0.0, 0), &mut processors, &mut bus, &mut out);
    let values: Vec<Real> = rx.try_iter().map(|d| d.value).collect();
    assert_eq!(values, [num(2.0), num(5.0)]);
}

#[test]
fn emit_dynamic_registers_and_writes_named_metrics() {
    let mut run = Engine::start(RunConfig::new("dyn", "logs"), num(1.0));
    let values = vec![("custom_metric".to_string(), num(3.5))];
    run.handle.emit_dynamic(&mut run.registry, &values);
    run.handle.finish(num(2.0));
    let (_, metrics) = logged(run);
    assert_eq!(metrics.len(), 1);
    assert_eq!(metrics[0].values.get("custom_metric"), Some(num(3.5)));
}

#[test]
fn set_phase_records_transition() {
    let mut run = Engine::start(config(), num(1.0));
    run.handle.set_phase(Phase::Eval);
    run.handle.finish(num(2.0));
    let (events, _) = logged(run);
    assert!(events.iter().any(|e| *e == Event::PhaseChange(Phase::Eval)));
}

#[test]
fn run_exposes_bus_for_observers() {
    let mut run = Engine::start(config(), num(1.0));
    let observer = run.bus.subscribe();
    let loss = run.registry.register("loss");
    run.handle.emit(&vec![(loss, num(0.1))]);
    run.handle.finish(num(2.0));
    logged(run);
    assert!(observer.try_iter().count() >= 2);
}

#[test]
fn epochs_and_phases_stamp_what_follows() {
    let mut run = Engine::start(config(), num(1.0));
    run.handle.set_epoch(3);
    run.handle.set_phase(Phase::Warmup);
    run.handle.emit(&vec![(MetricId(0), num(0.5))]);
    assert_eq!(run.handle.dropped(), 0);
    let (_, metrics) = logged(run);
    assert_eq!(metrics[0].epoch, 3);
    assert_eq!(metrics[0].phase, Phase::Warmup);
}

#[test]
fn run_identifiers_are_fresh_and_random() {
    let a = Engine::start(config(), num(1.0)).handle.run_id();
    let b = Engine::start(config(), num(1.0)).handle.run_id();
    assert_ne!(a, b);
    for id in [a, b] {
        assert_eq!(uuid::Uuid::from_u128(id).get_version_num(), 4);
    }
}

#[test]
fn anomaly_detection_can_be_off() {
    let run = Engine::start(
        RunConfig {
            detect_anomalies: false,
            ..config()
        },
        num(1.0),
    );
    assert!(run.detectors.is_empty());
    assert_eq!(run.registry.len(), 2);
}

#[test]
fn values_without_a_name_are_left_out_of_rows() {
    let mut reg = MetricRegistry::new();
    reg.register("loss");
    let event = Event::MetricsBatch {
        step: 1,
        epoch: 0,
        phase: Phase::Train,
        values: vec![(MetricId(0), num(1.0)), (MetricId(7), num(2.0))],
    };
    let row = metric_record(&reg, &event).unwrap();
    assert_eq!(row.values.get("loss"), Some(num(1.0)));
    assert_eq!(row.values.len(), 1);
    assert!(metric_record(&reg, &Event::PhaseChange(Phase::Eval)).is_none());
}
