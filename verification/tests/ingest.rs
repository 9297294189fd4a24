//! Frames on the wire and the tailing of logs.
use emry::base::error::EmryError;
use emry::base::named::NamedValues;
use emry::base::registry::MAX_METRICS;
use emry::base::types::{Event, MetricId, Phase};
use emry::base::value::Real;
use emry::ingest::watch::{default_phase, JsonlTailer, TooManyMetrics, WatchedRow};
use emry::ingest::wire::{payload_len, read_frame, write_frame, MAX_FRAME_BYTES};
use serde_json::Value;

fn num(v: f64) -> Real {
    Real { bits: v.to_bits() }
}

fn phase_of(tag: &str) -> Option<Phase> {
    match tag {
        "TRAIN" => Some(Phase::Train),
        "EVAL" => Some(Phase::Eval),
        "TEST" => Some(Phase::Test),
        "CHECKPOINT" => Some(Phase::Checkpoint),
        "WARMUP" => Some(Phase::Warmup),
        _ => None,
    }
}

fn parse(line: &str) -> Option<WatchedRow> {
    let v: Value = serde_json::from_str(line).ok()?;
    let step = v.get("step")?.as_u64()?;
    let mut values = NamedValues::new();
    for (name, value) in v.get("values")?.as_object()? {
        values.insert(name.clone(), num(value.as_f64()?));
    }
    Some(WatchedRow {
        step,
        epoch: v.get("epoch").and_then(Value::as_u64).map(|n| n as u32),
        phase: v.get("phase").and_then(Value::as_str).and_then(phase_of),
        values,
    })
}

/// A file that grows, and a tailer on it.
struct Tail {
    file: Vec<u8>,
    tailer: JsonlTailer,
}

impl Tail {
    fn new() -> Self {
        Tail {
            file: Vec::new(),
            tailer: JsonlTailer::new(),
        }
    }

    fn append(&mut self, text: &str) {
        self.file.extend_from_slice(text.as_bytes());
    }

    fn poll(&mut self) -> Vec<Event> {
        let at = self.tailer.resume_at(self.file.len() as u64) as usize;
        self.tailer.poll(&self.file[at..], &parse).unwrap()
    }
}

fn step_values(event: &Event) -> (u64, Vec<(MetricId, Real)>) {
    match event {
        Event::MetricsBatch { step, values, .. } => (*step, values.clone()),
        other => panic!("unexpected {other:?}"),
    }
}

#[test]
fn parses_emry_metrics_rows() {
    let mut t = Tail::new();
    t.append("{\"step\":0,\"epoch\":0,\"phase\":\"TRAIN\",\"values\":{\"loss\":1.0}}\n");
    t.append("{\"step\":1,\"epoch\":0,\"phase\":\"EVAL\",\"values\":{\"loss\":0.5}}\n");
    let events = t.poll();
    assert_eq!(events.len(), 2);
    let (step0, vals0) = step_values(&events[0]);
    assert_eq!(step0, 0);
    assert_eq!(vals0[0].1, num(1.0));
}

#[test]
fn parses_minimal_third_party_rows() {
    let mut t = Tail::new();
    t.append("{\"step\":5,\"values\":{\"accuracy\":0.9}}\n");
    let events = t.poll();
    assert_eq!(events.len(), 1);
    match &events[0] {
        Event::MetricsBatch {
            step, epoch, phase, ..
        } => {
            assert_eq!(*step, 5);
            assert_eq!(*epoch, 0);
            assert_eq!(*phase, Phase::Train);
        }
        other => panic!("unexpected {other:?}"),
    }
    assert_eq!(
        t.tailer.labels(),
        vec![(MetricId(0), "accuracy".to_string())]
    );
    assert_eq!(default_phase(), Phase::Train);
}

#[test]
fn only_appended_lines_are_returned_across_polls() {
    let mut t = Tail::new();
    t.append("{\"step\":0,\"values\":{\"loss\":1.0}}\n");
    assert_eq!(t.poll().len(), 1);
    assert!(t.poll().is_empty());
    t.append("{\"step\":1,\"values\":{\"loss\":0.9}}\n");
    t.append("{\"step\":2,\"values\":{\"loss\":0.8}}\n");
    let events = t.poll();
    assert_eq!(events.len(), 2);
    assert_eq!(step_values(&events[0]).0, 1);
}

#[test]
fn partial_trailing_line_is_held_until_complete() {
    let mut t = Tail::new();
    t.append("{\"step\":0,\"values\":{\"loss\":1.0}}\n");
    t.append("{\"step\":1,\"values\":{\"loss\":0.9}}");
    let events = t.poll();
    assert_eq!(events.len(), 1, "partial line not consumed");
    t.append("\n");
    let events = t.poll();
    assert_eq!(events.len(), 1);
    assert_eq!(step_values(&events[0]).0, 1);
}

#[test]
fn blank_and_garbage_lines_are_skipped_and_counted() {
    let mut t = Tail::new();
    t.append("{\"step\":0,\"values\":{\"loss\":1.0}}\n");
    t.append("\n");
    t.append("not json at all\n");
    t.append("{\"step\":1,\"values\":{\"loss\":0.9}}\n");
    let events = t.poll();
    assert_eq!(events.len(), 2, "two valid rows");
    assert_eq!(
        t.tailer.skipped(),
        1,
        "one garbage line counted (blank ignored)"
    );
}

#[test]
fn truncation_restarts_from_top() {
    let mut t = Tail::new();
    t.append("{\"step\":0,\"values\":{\"loss\":1.0}}\n");
    assert_eq!(t.poll().len(), 1);
    t.file = b"{\"step\":9,\"values\":{\"a\":0.1}}\n".to_vec();
    let events = t.poll();
    assert_eq!(events.len(), 1);
    assert_eq!(step_values(&events[0]).0, 9);
}

#[test]
fn invalid_utf8_line_is_skipped_not_fatal() {
    let mut t = Tail::new();
    t.append("{\"step\":0,\"values\":{\"loss\":1.0}}\n");
    t.file.extend_from_slice(&[0xff, 0xfe, b'\n']);
    t.append("{\"step\":1,\"values\":{\"loss\":0.9}}\n");
    let events = t.poll();
    assert_eq!(events.len(), 2, "valid rows still parse around the bad line");
    assert_eq!(t.tailer.skipped(), 1);
}

#[test]
fn reading_byte_by_byte_gives_the_same_events() {
    let text = "{\"step\":0,\"values\":{\"loss\":1.0}}\n\ngarbage\n{\"step\":1,\"values\":{\"\u{3b1}\":2.0}}\n";
    let mut whole = Tail::new();
    whole.append(text);
    let expected = whole.poll();

    let mut pieces = Tail::new();
    let mut got = Vec::new();
    for byte in text.as_bytes() {
        pieces.file.push(*byte);
        got.extend(pieces.poll());
    }
    assert_eq!(got, expected);
    assert_eq!(pieces.tailer.skipped(), whole.tailer.skipped());
}

#[test]
fn more_metrics_than_fit_are_an_error() {
    let row = |name: &str| {
        let mut values = NamedValues::new();
        values.insert(name.to_string(), num(1.0));
        Some(WatchedRow {
            step: 0,
            epoch: None,
            phase: None,
            values,
        })
    };
    let mut text = String::new();
    for i in 0..MAX_METRICS {
        text.push_str(&format!("m{i}\n"));
    }
    let mut t = JsonlTailer::new();
    assert_eq!(t.poll(text.as_bytes(), &row).unwrap().len(), MAX_METRICS);
    assert!(t.room_for(&row("m0").unwrap()));
    assert!(!t.room_for(&row("new").unwrap()));
    assert_eq!(t.poll(b"m0\n", &row).unwrap().len(), 1);
    assert_eq!(t.poll(b"new\n", &row), Err(TooManyMetrics));
}

fn sample_payloads() -> Vec<Vec<u8>> {
    let events = [
        r#"{"type":"METRICS_BATCH","data":{"step":7,"epoch":1,"phase":"TRAIN","values":[[0,0.5],[1,0.001]]}}"#,
        r#"{"type":"PHASE_CHANGE","data":"EVAL"}"#,
        r#"{"type":"RUN_FINISHED","data":{"duration_secs":12.0,"reason":"COMPLETED"}}"#,
    ];
    events
        .iter()
        .map(|text| {
            let v: Value = serde_json::from_str(text).unwrap();
            rmp_serde::to_vec_named(&v).unwrap()
        })
        .collect()
}

#[test]
fn frame_roundtrips_through_msgpack() {
    for payload in sample_payloads() {
        let mut buf = Vec::new();
        write_frame(&mut buf, &payload).unwrap();
        let (back, end) = read_frame(&buf, 0).unwrap().unwrap();
        assert_eq!(back, payload);
        assert_eq!(end, buf.len());
        let decoded: Value = rmp_serde::from_slice(&back).unwrap();
        assert_eq!(rmp_serde::to_vec_named(&decoded).unwrap(), payload);
    }
}

#[test]
fn multiple_frames_read_in_order_then_eof() {
    let payloads = sample_payloads();
    let mut buf = Vec::new();
    for payload in &payloads {
        write_frame(&mut buf, payload).unwrap();
    }
    let mut at = 0;
    for payload in &payloads {
        let (back, end) = read_frame(&buf, at).unwrap().unwrap();
        assert_eq!(&back, payload);
        at = end;
    }
    assert_eq!(read_frame(&buf, at).unwrap(), None);
}

#[test]
fn empty_stream_is_clean_eof() {
    assert_eq!(read_frame(&[], 0).unwrap(), None);
}

#[test]
fn oversized_length_prefix_is_rejected() {
    let mut buf = (MAX_FRAME_BYTES + 1).to_le_bytes().to_vec();
    buf.extend_from_slice(&[0u8; 8]);
    let err = read_frame(&buf, 0).unwrap_err();
    assert!(matches!(err, EmryError::Protocol(_)));
}

#[test]
fn truncated_payload_is_io_error() {
    let mut buf = 100u32.to_le_bytes().to_vec();
    buf.extend_from_slice(&[0u8; 2]);
    let err = read_frame(&buf, 0).unwrap_err();
    assert!(matches!(err, EmryError::Io(_)));
}

#[test]
fn truncated_header_is_io_error() {
    for n in 1..4 {
        let err = read_frame(&vec![0u8; n], 0).unwrap_err();
        assert!(matches!(err, EmryError::Io(_)), "{n}");
    }
}

#[test]
fn lengths_are_little_endian() {
    let mut buf = Vec::new();
    write_frame(&mut buf, &[9u8; 258]).unwrap();
    assert_eq!(buf[..4], [2, 1, 0, 0]);
    assert_eq!(payload_len(&buf[..4]).unwrap(), 258);
    assert!(payload_len(&[1, 0, 0, 1]).is_err());
    assert_eq!(payload_len(&[0, 0, 0, 1]).unwrap(), MAX_FRAME_BYTES);
}

#[test]
fn event_logs_stand_between_the_rows_where_they_happened() {
    let mut t = JsonlTailer::new();
    let text = "{\"step\":0,\"values\":{\"loss\":1.0}}\n{\"step\":1,\"values\":{\"loss\":0.5}}\n\
                {\"step\":2,\"values\":{\"loss\":0.25}}\n";
    let rows = t.poll(text.as_bytes(), &parse).unwrap();
    let at = |step: u64| Event::MetricsBatch {
        step,
        epoch: 0,
        phase: Phase::Train,
        values: vec![(MetricId(0), num(9.0))],
    };
    let log = vec![
        at(0),
        at(1),
        Event::PhaseChange(Phase::Eval),
        at(2),
        Event::ConfigPatch("{}".to_string()),
    ];
    let shown = t.interleave(&rows, log);
    assert_eq!(shown.len(), 4);
    assert_eq!(shown[0], rows[0]);
    assert_eq!(shown[1], rows[1]);
    assert_eq!(shown[2], Event::PhaseChange(Phase::Eval));
    assert_eq!(shown[3], rows[2]);
    assert_eq!(t.interleave(&rows, Vec::new()), rows);
}

#[test]
fn event_logs_show_all_but_metrics() {
    let mut t = JsonlTailer::new();
    t.poll(b"{\"step\":0,\"values\":{\"loss\":1.0}}\n", &parse).unwrap();
    let table = Event::MetricsRegistered {
        names: vec![(MetricId(0), "lr".to_string()), (MetricId(1), "loss".to_string())],
    };
    assert_eq!(
        t.surface(table),
        Some(Event::MetricsRegistered {
            names: vec![(MetricId(1), "lr".to_string()), (MetricId(0), "loss".to_string())],
        })
    );
    let stage = Event::StageChange { name: "code".to_string(), step: 3 };
    assert_eq!(t.surface(stage.clone()), Some(stage));
    assert_eq!(
        t.surface(Event::PhaseChange(Phase::Eval)),
        Some(Event::PhaseChange(Phase::Eval))
    );
    let batch = Event::MetricsBatch {
        step: 1,
        epoch: 0,
        phase: Phase::Train,
        values: vec![],
    };
    assert_eq!(t.surface(batch), None);
    assert_eq!(t.labels().len(), 2);
    assert_eq!(t.skipped(), 0);
}

#[test]
fn oversized_payloads_are_not_written() {
    let payload = vec![0u8; MAX_FRAME_BYTES as usize + 1];
    let mut buf = vec![1u8];
    let err = write_frame(&mut buf, &payload).unwrap_err();
    assert!(matches!(err, EmryError::Protocol(_)));
    assert_eq!(buf, [1]);
}
