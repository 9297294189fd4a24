//! Modes, the registry, the ring, the bus, errors, and text.
use emry::base::bus::EventBus;
use emry::base::error::EmryError;
use emry::base::labels::{label_in, label_table, learn_names};
use emry::base::mode::{DeployEnv, DeployMode};
use emry::base::named::NamedValues;
use emry::base::path::{checkpoint_label, file_label, join_path};
use emry::base::queue::cap_front;
use emry::base::registry::{MetricRegistry, MAX_METRICS};
use emry::base::ring::{
    event_ring, event_ring_with_capacity, RingFull, DEFAULT_CAPACITY, MAX_EVENT_BYTES,
};
use emry::base::text;
use emry::base::types::{
    parse_phase, phase_str, reason_str, severity_str, Event, FinishReason, MetricId, Phase, Severity,
};
use emry::base::value::{no_value, one, range_of, zero, Real};
use emry::emry_version;
use std::collections::VecDeque;
use std::path::Path;

fn num(v: f64) -> Real {
    Real { bits: v.to_bits() }
}

fn metric(step: u64) -> Event {
    Event::Metric {
        id: MetricId(0),
        value: num(0.0),
        step,
        epoch: 0,
        phase: Phase::Train,
    }
}

fn step_of(event: &Event) -> u64 {
    match event {
        Event::Metric { step, .. } => *step,
        other => panic!("unexpected {other:?}"),
    }
}

#[test]
fn version_matches_cargo_package() {
    assert_eq!(emry_version(), "0.1.0");
}

#[test]
fn parse_is_case_insensitive_and_trims() {
    assert_eq!("EMBEDDED".parse(), Ok(DeployMode::Embedded));
    assert_eq!("  Sidecar ".parse(), Ok(DeployMode::Sidecar));
    assert_eq!("file".parse(), Ok(DeployMode::File));
}

#[test]
fn parse_rejects_unknown_and_displays_error() {
    let err = "cloud".parse::<DeployMode>().unwrap_err();
    assert!(err.to_string().contains("cloud"));
}

#[test]
fn parse_error_quotes_what_was_given() {
    let err = DeployMode::parse("a\"b\n").unwrap_err();
    assert!(err.to_string().contains("\"a\\\"b\\n\""), "{}", err.to_string());
}

#[test]
fn display_roundtrips_through_parse() {
    for mode in [DeployMode::Embedded, DeployMode::Sidecar, DeployMode::File] {
        assert_eq!(mode.to_string().parse(), Ok(mode));
    }
}

struct Case {
    name: &'static str,
    api: Option<DeployMode>,
    emry_mode: Option<&'static str>,
    ssh: bool,
    slurm: bool,
    tty: bool,
    expected: DeployMode,
}

#[test]
fn resolve_precedence_and_auto_detect_branches() {
    let cases = [
        Case {
            name: "api override beats everything",
            api: Some(DeployMode::File),
            emry_mode: Some("embedded"),
            ssh: true,
            slurm: true,
            tty: true,
            expected: DeployMode::File,
        },
        Case {
            name: "EMRY_MODE beats auto-detect",
            api: None,
            emry_mode: Some("sidecar"),
            ssh: false,
            slurm: false,
            tty: true,
            expected: DeployMode::Sidecar,
        },
        Case {
            name: "invalid EMRY_MODE falls through to auto",
            api: None,
            emry_mode: Some("nonsense"),
            ssh: false,
            slurm: false,
            tty: true,
            expected: DeployMode::Embedded,
        },
        Case {
            name: "empty EMRY_MODE falls through to auto",
            api: None,
            emry_mode: Some(""),
            ssh: false,
            slurm: false,
            tty: false,
            expected: DeployMode::File,
        },
        Case {
            name: "whitespace-only EMRY_MODE falls through to auto",
            api: None,
            emry_mode: Some("   "),
            ssh: true,
            slurm: false,
            tty: false,
            expected: DeployMode::Sidecar,
        },
        Case {
            name: "SSH -> sidecar",
            api: None,
            emry_mode: None,
            ssh: true,
            slurm: false,
            tty: true,
            expected: DeployMode::Sidecar,
        },
        Case {
            name: "SLURM -> sidecar",
            api: None,
            emry_mode: None,
            ssh: false,
            slurm: true,
            tty: false,
            expected: DeployMode::Sidecar,
        },
        Case {
            name: "TTY without ssh/slurm -> embedded",
            api: None,
            emry_mode: None,
            ssh: false,
            slurm: false,
            tty: true,
            expected: DeployMode::Embedded,
        },
        Case {
            name: "no signals -> file",
            api: None,
            emry_mode: None,
            ssh: false,
            slurm: false,
            tty: false,
            expected: DeployMode::File,
        },
    ];
    for case in cases {
        let env = DeployEnv {
            emry_mode: case.emry_mode.map(str::to_owned),
            ssh_connection: case.ssh,
            slurm_job_id: case.slurm,
            stdout_is_tty: case.tty,
        };
        assert_eq!(
            DeployMode::resolve(case.api, &env),
            case.expected,
            "case: {}",
            case.name
        );
    }
}

#[test]
fn default_environment_logs_to_files() {
    assert_eq!(DeployEnv::default().auto_detect(), DeployMode::File);
}

#[test]
fn new_registry_is_empty() {
    let reg = MetricRegistry::new();
    assert!(reg.is_empty());
    assert_eq!(reg.len(), 0);
}

#[test]
fn ids_are_assigned_densely_from_zero() {
    let mut reg = MetricRegistry::new();
    assert_eq!(reg.register("loss"), MetricId(0));
    assert_eq!(reg.register("lr"), MetricId(1));
    assert_eq!(reg.register("grad_norm"), MetricId(2));
    assert_eq!(reg.len(), 3);
}

#[test]
fn duplicate_register_returns_same_id() {
    let mut reg = MetricRegistry::new();
    let first = reg.register("loss");
    let other = reg.register("lr");
    let again = reg.register("loss");
    assert_eq!(first, again);
    assert_ne!(first, other);
    assert_eq!(reg.len(), 2, "re-registering must not grow the table");
}

#[test]
fn name_resolves_registered_id() {
    let mut reg = MetricRegistry::new();
    let id = reg.register("throughput");
    assert_eq!(reg.name(id), Some("throughput"));
    assert_eq!(reg.get("throughput"), Some(id));
}

#[test]
fn unknown_id_and_name_resolve_to_none() {
    let reg = MetricRegistry::new();
    assert_eq!(reg.name(MetricId(42)), None);
    assert_eq!(reg.get("nope"), None);
}

#[test]
fn try_register_returns_none_when_full() {
    let mut reg = MetricRegistry::new();
    for i in 0..MAX_METRICS {
        assert!(reg.try_register(&format!("m{i}")).is_some());
    }
    assert_eq!(reg.len(), MAX_METRICS);
    assert_eq!(reg.try_register("overflow"), None);
    assert_eq!(reg.try_register("m0"), Some(MetricId(0)));
}

#[test]
#[should_panic(expected = "exceeded MAX_METRICS")]
fn register_panics_when_full() {
    let mut reg = MetricRegistry::new();
    for i in 0..MAX_METRICS {
        reg.try_register(&format!("m{i}"));
    }
    reg.register("one too many");
}

#[test]
fn names_and_ids_resolve_each_other() {
    let mut reg = MetricRegistry::default();
    for name in ["b", "a", "b", "c"] {
        reg.register(name);
    }
    for i in 0..reg.len() {
        let id = MetricId::from(u16::try_from(i).unwrap());
        let name = reg.name(id).unwrap();
        assert_eq!(reg.get(name), Some(id));
    }
}

#[test]
fn default_ring_uses_default_capacity() {
    let (producer, _consumer) = event_ring();
    assert_eq!(producer.free_slots(), DEFAULT_CAPACITY);
}

#[test]
fn push_then_pop_preserves_fifo_order() {
    let (mut producer, mut consumer) = event_ring_with_capacity(8);
    for step in 0..5 {
        producer.push(metric(step)).unwrap();
    }
    assert_eq!(consumer.pending(), 5);
    for step in 0..5 {
        match consumer.pop() {
            Some(Event::Metric { step: s, .. }) => assert_eq!(s, step),
            other => panic!("unexpected {other:?}"),
        }
    }
    assert!(consumer.pop().is_none());
}

#[test]
fn overflow_drops_and_counts_without_blocking() {
    let (mut producer, _consumer) = event_ring_with_capacity(2);
    assert!(producer.push(metric(0)).is_ok());
    assert!(producer.push(metric(1)).is_ok());
    assert_eq!(producer.push(metric(2)), Err(RingFull));
    assert_eq!(producer.push(metric(3)), Err(RingFull));
    assert_eq!(producer.dropped(), 2);
}

#[test]
fn dropped_counter_is_shared_with_consumer() {
    let (mut producer, consumer) = event_ring_with_capacity(1);
    producer.push(metric(0)).unwrap();
    let _ = producer.push(metric(1));
    assert_eq!(consumer.dropped(), 1);
}

#[test]
fn taking_an_event_frees_its_slot() {
    let (mut producer, mut consumer) = event_ring_with_capacity(2);
    producer.push(metric(0)).unwrap();
    assert_eq!(producer.free_slots(), 1);
    producer.push(metric(1)).unwrap();
    assert!(producer.push(metric(2)).is_err());
    assert_eq!(step_of(&consumer.pop().unwrap()), 0);
    producer.push(metric(3)).unwrap();
    assert_eq!(step_of(&consumer.pop().unwrap()), 1);
    assert_eq!(step_of(&consumer.pop().unwrap()), 3);
    assert_eq!(consumer.pending(), 0);
}

#[test]
fn ring_full_names_itself() {
    assert_eq!(RingFull.to_string(), "event ring is full; event dropped");
}

#[test]
fn events_fit_their_bound() {
    assert!(std::mem::size_of::<Event>() <= MAX_EVENT_BYTES);
}

#[test]
fn subscribe_increments_count() {
    let mut bus = EventBus::new();
    assert_eq!(bus.subscriber_count(), 0);
    let _a = bus.subscribe();
    let _b = bus.subscribe();
    assert_eq!(bus.subscriber_count(), 2);
}

#[test]
fn publish_with_no_subscribers_is_a_noop() {
    let mut bus = EventBus::new();
    assert_eq!(bus.publish(&metric(0)), 0);
}

#[test]
fn two_subscribers_each_receive_all_100_events_in_order() {
    let mut bus = EventBus::new();
    let a = bus.subscribe();
    let b = bus.subscribe();
    for step in 0..100 {
        assert_eq!(bus.publish(&metric(step)), 2);
    }
    for rx in [&a, &b] {
        for expected in 0..100 {
            let event = rx.try_recv().expect("event available");
            assert_eq!(step_of(&event), expected);
        }
        assert!(rx.try_recv().is_err(), "exactly 100 events per subscriber");
    }
}

#[test]
fn dropped_subscriber_is_pruned_on_next_publish() {
    let mut bus = EventBus::new();
    let live = bus.subscribe();
    let dead = bus.subscribe();
    assert_eq!(bus.subscriber_count(), 2);

    drop(dead);
    assert_eq!(bus.publish(&metric(7)), 1);
    assert_eq!(bus.subscriber_count(), 1);
    assert_eq!(step_of(&live.try_recv().unwrap()), 7);
}

#[test]
fn slots_are_free_or_hold_an_event() {
    let (mut producer, mut consumer) = event_ring_with_capacity(3);
    for step in 0..5 {
        let free = producer.free_slots();
        assert_eq!(free + consumer.pending(), 3);
        assert_eq!(producer.push(metric(step)).is_ok(), free > 0);
    }
    assert_eq!(producer.dropped(), 2);
    assert_eq!(step_of(&consumer.pop().unwrap()), 0);
    assert_eq!(producer.free_slots(), 1);
    producer.push(metric(9)).unwrap();
    let mut left = Vec::new();
    while consumer.pending() > 0 {
        left.push(step_of(&consumer.pop().unwrap()));
    }
    assert_eq!(left, [1, 2, 9]);
    assert!(consumer.pop().is_none());
}

#[test]
fn learned_names_replace_earlier_ones() {
    let mut table = label_table(&[(MetricId(1), "old"), (MetricId(2), "kept")]);
    learn_names(
        &mut table,
        &vec![(MetricId(1), "new".to_string()), (MetricId(3), "more".to_string())],
    );
    assert_eq!(label_in(&table, MetricId(1)), "new");
    assert_eq!(label_in(&table, MetricId(2)), "kept");
    assert_eq!(label_in(&table, MetricId(3)), "more");
    assert_eq!(label_in(&table, MetricId(4)), "m4");
}

#[test]
fn pruning_keeps_the_marked_subscribers() {
    let mut bus = EventBus::new();
    let a = bus.subscribe();
    let b = bus.subscribe();
    let c = bus.subscribe();
    bus.prune(&vec![true, false, true]);
    assert_eq!(bus.subscriber_count(), 2);
    assert_eq!(bus.publish(&metric(3)), 2);
    assert_eq!(step_of(&a.try_recv().unwrap()), 3);
    assert!(b.try_recv().is_err());
    assert_eq!(step_of(&c.try_recv().unwrap()), 3);
}

#[test]
fn io_error_display() {
    let cause = std::io::Error::new(std::io::ErrorKind::NotFound, "missing");
    let err = EmryError::Io(cause.to_string());
    assert_eq!(err.to_string(), "io error: missing");
}

#[test]
fn json_error_from_invalid_value() {
    let err = serde_json::from_str::<serde_json::Value>("not-json").unwrap_err();
    let wrapped = EmryError::Json(err.to_string());
    assert!(wrapped.to_string().starts_with("json error:"));
}

#[test]
fn protocol_error_display() {
    let err = EmryError::Protocol("frame too large".to_string());
    assert_eq!(err.to_string(), "protocol error: frame too large");
}

#[test]
fn ingest_uses_core_errors() {
    let err = EmryError::Protocol("frame too large".to_string());
    assert!(err.to_string().contains("frame too large"));
}

#[test]
fn phase_serializes_as_screaming_snake() {
    let json = serde_json::to_string(phase_str(Phase::Train)).unwrap();
    assert_eq!(json, "\"TRAIN\"");
}

#[test]
fn severity_and_finish_reason_screaming_snake() {
    assert_eq!(
        serde_json::to_string(severity_str(Severity::Critical)).unwrap(),
        "\"CRITICAL\""
    );
    assert_eq!(
        serde_json::to_string(reason_str(FinishReason::Interrupted)).unwrap(),
        "\"INTERRUPTED\""
    );
}

#[test]
fn every_tag_is_distinct() {
    let phases = [
        Phase::Train,
        Phase::Eval,
        Phase::Test,
        Phase::Checkpoint,
        Phase::Warmup,
    ];
    let tags: Vec<&str> = phases.iter().map(|p| phase_str(*p)).collect();
    assert_eq!(tags, ["TRAIN", "EVAL", "TEST", "CHECKPOINT", "WARMUP"]);
    for phase in phases {
        assert_eq!(parse_phase(phase_str(phase)), Some(phase));
    }
    assert_eq!(parse_phase("train"), None);
    assert_eq!(severity_str(Severity::Info), "INFO");
    assert_eq!(severity_str(Severity::Warning), "WARNING");
    assert_eq!(reason_str(FinishReason::Completed), "COMPLETED");
    assert_eq!(reason_str(FinishReason::Failed), "FAILED");
}

#[test]
fn named_values_keep_name_order_and_the_last_value() {
    let mut values = NamedValues::new();
    values.insert("lr".to_string(), num(0.1));
    values.insert("acc".to_string(), num(0.5));
    values.insert("lr".to_string(), num(0.2));
    assert_eq!(values.len(), 2);
    assert_eq!(values.entries[0].0, "acc");
    assert_eq!(values.get("lr"), Some(num(0.2)));
    assert_eq!(values.get("loss"), None);
    assert_eq!(values.clone(), values);
}

#[test]
fn white_space_is_what_the_standard_library_calls_it() {
    for n in 0..=0x10ffff_u32 {
        if let Some(c) = char::from_u32(n) {
            assert_eq!(text::is_white_space(c), c.is_whitespace(), "{n:x}");
        }
    }
}

#[test]
fn decimal_numerals_match_the_standard_library() {
    for n in [0, 7, 10, 99, 100, 12_400, u64::MAX] {
        assert_eq!(text::decimal_text(n), n.to_string());
        assert_eq!(text::padded_text(n, 4), format!("{n:04}"));
    }
    for n in [-1234567, -5, 0, 3, 42, 12345] {
        assert_eq!(text::signed_padded_text(n, 4), format!("{n:04}"));
    }
}

#[test]
fn text_helpers_match_the_standard_library() {
    assert_eq!(text::trim_text(" \u{a0}a b\t\n"), "a b");
    assert_eq!(text::trim_text(" \t "), "");
    assert_eq!(text::lower_text("AbZ\u{c4}"), "AbZ\u{c4}".to_ascii_lowercase());
    assert_eq!(text::capitalize("loss"), "Loss");
    assert_eq!(text::capitalize("\u{df}x"), "SSx");
    assert_eq!(text::capitalize(""), "");
    assert_eq!(
        text::join(&vec!["a".to_string(), "b".to_string()], ", "),
        "a, b"
    );
    for a in ["", "a", "ab", "b", "\u{e9}", "\u{1f600}"] {
        for b in ["", "a", "ab", "b", "\u{e9}", "\u{1f600}"] {
            assert_eq!(text::comes_before(a, b), a < b, "{a} {b}");
            assert_eq!(text::same(a, b), a == b);
        }
    }
}

/// The label as the path functions of the standard library give it.
fn reference_label(path: &str) -> String {
    let p = Path::new(path);
    let name = p
        .parent()
        .and_then(Path::file_name)
        .or_else(|| p.file_stem())
        .map_or_else(|| path.to_string(), |n| n.to_string_lossy().into_owned());
    if let Some(at) = name.find(['-', '_']) {
        if let Some(digits) = name[..at].strip_prefix("phase") {
            if digits.chars().all(|c| c.is_ascii_digit()) {
                return name[at + 1..].to_string();
            }
        }
    }
    name
}

fn paths_of(alphabet: &[&str], parts: usize) -> Vec<String> {
    let mut all = vec![String::new()];
    let mut last = all.clone();
    for _ in 0..parts {
        let mut next = Vec::new();
        for start in &last {
            for part in alphabet {
                next.push(format!("{start}{part}"));
            }
        }
        all.extend(next.iter().cloned());
        last = next;
    }
    all
}

#[test]
fn labels_follow_the_path_functions_of_the_standard_library() {
    for path in paths_of(&["/", ".", "a", "phase1-", "b.pt"], 6) {
        assert_eq!(checkpoint_label(&path), reference_label(&path), "{path:?}");
    }
}

#[test]
fn joins_and_file_names_follow_the_standard_library() {
    for base in paths_of(&["/", ".", "a"], 4) {
        let expected = Path::new(&base)
            .file_name()
            .map_or_else(|| base.clone(), |n| n.to_string_lossy().into_owned());
        assert_eq!(file_label(&base), expected, "{base:?}");
        for name in ["", "x", "x/y", "/abs"] {
            let joined = Path::new(&base).join(name);
            assert_eq!(join_path(&base, name), joined.to_str().unwrap());
        }
    }
}

#[test]
fn the_newest_entries_stay() {
    let mut q: VecDeque<u32> = (0..10).collect();
    cap_front(&mut q, 3);
    assert_eq!(q, [7, 8, 9]);
    cap_front(&mut q, 5);
    assert_eq!(q.len(), 3);
}

#[test]
fn labels_fall_back_to_the_identifier() {
    let labels = label_table(&[(MetricId(3), "loss"), (MetricId(3), "lr")]);
    assert_eq!(label_in(&labels, MetricId(3)), "lr");
    assert_eq!(label_in(&labels, MetricId(9)), "m9");
}

#[test]
fn numbers_order_as_floats_do() {
    let samples = [
        f64::NEG_INFINITY,
        -3.5,
        -0.0,
        0.0,
        f64::MIN_POSITIVE / 4.0,
        1.0,
        2.5e300,
        f64::INFINITY,
        f64::NAN,
        -f64::NAN,
    ];
    for a in samples {
        assert_eq!(num(a).is_finite(), a.is_finite());
        assert_eq!(num(a).is_nan(), a.is_nan());
        for b in samples {
            assert_eq!(num(a).is_less(num(b)), a < b, "{a} {b}");
            let total = num(a).get_total_rank().cmp(&num(b).get_total_rank());
            assert_eq!(total, a.total_cmp(&b), "{a} {b}");
        }
    }
    assert_eq!(zero(), num(0.0));
    assert_eq!(one(), num(1.0));
    assert_eq!(no_value(), num(f64::NAN));
}

#[test]
fn whole_parts_are_those_of_a_cast() {
    for v in [
        0.0,
        -0.0,
        0.99,
        1.0,
        -1.5,
        1_719_000_000.25,
        9.1e18,
        9.3e18,
        -9.3e18,
        1e300,
        f64::INFINITY,
        f64::NEG_INFINITY,
        f64::NAN,
        4503599627370497.5,
        123456789012345680.0,
    ] {
        assert_eq!(num(v).to_i64(), v as i64, "{v}");
    }
}

#[test]
fn ranges_leave_out_what_is_not_finite() {
    let values: Vec<Real> = [3.0, f64::NAN, -1.0, f64::INFINITY, 2.0]
        .iter()
        .map(|v| num(*v))
        .collect();
    assert_eq!(range_of(&values, 0, 5), Some((num(-1.0), num(3.0))));
    assert_eq!(range_of(&values, 1, 2), None);
}
