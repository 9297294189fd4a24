//! Logs, exports, run directories, and lists of runs.
use emry::base::error::EmryError;
use emry::base::named::NamedValues;
use emry::base::queue::Offer;
use emry::base::types::{Event, FinishReason, MetricRecord, Phase};
use emry::base::value::Real;
use emry::store::export::{
    escape, export_csv, export_table, scan_columns, write_row, TableBuilder, BATCH,
};
use emry::store::meta::{civil_date, format_utc_timestamp, run_dir_name, RunMetaFile, Summary};
use emry::store::runs::{final_metrics, list_runs, load_baseline, run_info, RunInfo};
use emry::store::sink::{
    FlushPolicy, JsonlSink, Record, SinkAction, SinkInput, DEFAULT_CAPACITY, FLUSH_EVERY,
};
use emry::store::writer::{
    read_rows, resolve_metrics, value_lines, writable, write_line, write_record, EVENTS_FILE,
    METRICS_FILE,
};
use serde_json::Value;

fn num(v: f64) -> Real {
    Real { bits: v.to_bits() }
}

fn flt(v: Real) -> f64 {
    f64::from_bits(v.bits)
}

fn show(v: Real) -> String {
    flt(v).to_string()
}

fn phase_of(tag: &str) -> Option<Phase> {
    match tag {
        "TRAIN" => Some(Phase::Train),
        "EVAL" => Some(Phase::Eval),
        _ => None,
    }
}

fn parse(line: &str) -> Result<MetricRecord, String> {
    let v: Value = serde_json::from_str(line).map_err(|e| e.to_string())?;
    let mut values = NamedValues::new();
    for (name, value) in v["values"].as_object().ok_or("no values")? {
        values.insert(name.clone(), num(value.as_f64().ok_or("no number")?));
    }
    Ok(MetricRecord {
        step: v["step"].as_u64().ok_or("no step")?,
        epoch: v["epoch"].as_u64().ok_or("no epoch")? as u32,
        phase: phase_of(v["phase"].as_str().ok_or("no phase")?).ok_or("no such phase")?,
        values,
    })
}

fn log_of(lines: &[&str]) -> String {
    let mut text = String::new();
    for line in lines {
        write_line(&mut text, line);
    }
    text
}

fn rows_of(lines: &[&str]) -> Vec<MetricRecord> {
    read_rows(&log_of(lines), &parse).unwrap()
}

fn csv_of(lines: &[&str]) -> (usize, String) {
    let (csv, rows) = export_csv(&rows_of(lines), &show);
    (rows, csv)
}

#[test]
fn exports_wide_rows_with_first_seen_columns() {
    let (rows, csv) = csv_of(&[
        r#"{"step":0,"epoch":0,"phase":"TRAIN","values":{"loss":1.0,"lr":0.1}}"#,
        "",
        r#"{"step":1,"epoch":0,"phase":"EVAL","values":{"loss":0.5,"acc":0.9}}"#,
    ]);
    assert_eq!(rows, 2);
    let lines: Vec<&str> = csv.lines().collect();
    assert_eq!(lines[0], "step,epoch,phase,loss,lr,acc");
    assert_eq!(lines[1], "0,0,TRAIN,1,0.1,");
    assert_eq!(lines[2], "1,0,EVAL,0.5,,0.9");
}

#[test]
fn accepts_a_file_path_directly() {
    let (rows, csv) =
        csv_of(&[r#"{"step":7,"epoch":1,"phase":"TRAIN","values":{"loss":0.25}}"#]);
    assert_eq!(rows, 1);
    assert!(csv.contains("7,1,TRAIN,0.25"));
    assert_eq!(resolve_metrics("run", true), "run/metrics.jsonl");
    assert_eq!(resolve_metrics("run/metrics.jsonl", false), "run/metrics.jsonl");
}

#[test]
fn quotes_fields_needing_escaping() {
    let mut values = NamedValues::new();
    values.insert("weird,name".to_string(), num(1.5));
    let record = MetricRecord {
        step: 0,
        epoch: 0,
        phase: Phase::Train,
        values,
    };
    let (csv, _) = export_csv(&vec![record], &show);
    assert!(csv.lines().next().unwrap().contains("\"weird,name\""));
}

#[test]
fn empty_file_yields_header_only() {
    let (rows, csv) = csv_of(&[]);
    assert_eq!(rows, 0);
    assert_eq!(csv, "step,epoch,phase\n");
}

#[test]
fn corrupt_line_is_an_error() {
    assert!(matches!(
        read_rows(&log_of(&["not json"]), &parse),
        Err(EmryError::Json(_))
    ));
}

#[test]
fn the_first_corrupt_line_is_reported() {
    let log = log_of(&[
        r#"{"step":0,"epoch":0,"phase":"TRAIN","values":{}}"#,
        r#"{"step":0,"epoch":0,"phase":"NAP","values":{}}"#,
        r#"{"step":0,"epoch":0}"#,
    ]);
    assert_eq!(
        read_rows(&log, &parse),
        Err(EmryError::Json("no such phase".to_string()))
    );
}

#[test]
fn fields_are_quoted_only_where_they_have_to_be() {
    assert_eq!(escape("loss"), "loss");
    assert_eq!(escape(""), "");
    assert_eq!(escape("a\"b"), "\"a\"\"b\"");
    assert_eq!(escape("a\rb\n"), "\"a\rb\n\"");
    assert_eq!(escape("\""), "\"\"\"\"");
    let mut out = "x\n".to_string();
    write_row(&mut out, &vec!["1".to_string(), "a,b".to_string(), String::new()]);
    assert_eq!(out, "x\n1,\"a,b\",\n");
}

#[test]
fn parquet_roundtrips_rows_and_schema() {
    let table = export_table(&rows_of(&[
        r#"{"step":0,"epoch":0,"phase":"TRAIN","values":{"loss":1.0,"lr":0.1}}"#,
        r#"{"step":1,"epoch":0,"phase":"EVAL","values":{"loss":0.5,"acc":0.9}}"#,
    ]));
    assert_eq!(table.rows, 2);
    let total: usize = table.batches.iter().map(|b| b.steps.len()).sum();
    assert_eq!(total, 2);
    let mut names = vec!["step", "epoch", "phase"];
    names.extend(table.columns.iter().map(String::as_str));
    assert_eq!(names, vec!["step", "epoch", "phase", "loss", "lr", "acc"]);
    let batch = &table.batches[0];
    assert_eq!(batch.steps, [0, 1]);
    assert_eq!(batch.phases, ["TRAIN", "EVAL"]);
    assert_eq!(batch.metrics[0], [Some(num(1.0)), Some(num(0.5))]);
    assert_eq!(batch.metrics[1], [Some(num(0.1)), None]);
    assert_eq!(batch.metrics[2], [None, Some(num(0.9))]);
}

fn record(step: u64, loss: f64) -> MetricRecord {
    let mut values = NamedValues::new();
    values.insert("loss".to_string(), num(loss));
    MetricRecord {
        step,
        epoch: 0,
        phase: Phase::Train,
        values,
    }
}

#[test]
fn tables_are_cut_into_full_batches() {
    let rows: Vec<MetricRecord> = (0..BATCH as u64 + 5).map(|s| record(s, 0.5)).collect();
    let table = export_table(&rows);
    let sizes: Vec<usize> = table.batches.iter().map(|b| b.steps.len()).collect();
    assert_eq!(sizes, [BATCH, 5]);
    assert_eq!(table.batches[1].steps[4], BATCH as u64 + 4);
    assert_eq!(table.rows, BATCH + 5);
    assert!(export_table(&Vec::new()).batches.is_empty());
}

#[test]
fn builders_leave_gaps_for_missing_metrics() {
    let mut b = TableBuilder::new(vec!["acc".to_string(), "loss".to_string()]);
    assert!(b.push(&record(3, 0.5)).is_none());
    let (columns, last) = b.finish();
    assert_eq!(columns, ["acc", "loss"]);
    let last = last.unwrap();
    assert_eq!(last.metrics, [vec![None], vec![Some(num(0.5))]]);
    assert_eq!(scan_columns(&vec![record(0, 1.0), record(1, 2.0)]), ["loss"]);
}

#[test]
fn epoch_zero_is_unix_origin() {
    assert_eq!(format_utc_timestamp(num(0.0)), "19700101_000000");
}

#[test]
fn known_timestamp_formats_correctly() {
    assert_eq!(format_utc_timestamp(num(1_624_276_800.0)), "20210621_120000");
}

#[test]
fn run_dir_name_combines_project_and_timestamp() {
    assert_eq!(
        run_dir_name("llama-sft", num(1_624_276_800.0)),
        "llama-sft_20210621_120000"
    );
}

#[test]
fn times_before_the_origin_and_leap_days_are_dates_too() {
    assert_eq!(format_utc_timestamp(num(-1.0)), "19691231_235959");
    assert_eq!(format_utc_timestamp(num(951_782_400.0)), "20000229_000000");
    assert_eq!(civil_date(0), (1970, 1, 1));
    assert_eq!(civil_date(-719_468), (0, 3, 1));
    assert_eq!(civil_date(11_016), (2000, 2, 29));
}

fn meta(project: &str, start: f64) -> RunMetaFile {
    RunMetaFile {
        run_id: 0,
        project: project.to_string(),
        start_time_secs: num(start),
        mode: "file".to_string(),
    }
}

fn summary(project: &str, steps: u64, duration: f64) -> Summary {
    Summary {
        run_id: 0,
        project: project.to_string(),
        duration_secs: num(duration),
        reason: FinishReason::Completed,
        steps,
        dropped: 0,
    }
}

#[test]
fn lists_runs_newest_first_with_finished_status() {
    let found = vec![
        run_info(
            "old_100".to_string(),
            meta("old", 100.0),
            Some(summary("old", 50, 5.0)),
        ),
        run_info("new_200".to_string(), meta("new", 200.0), None),
    ];
    let runs = list_runs(found);
    assert_eq!(runs.len(), 2);
    assert_eq!(runs[0].project, "new");
    assert!(!runs[0].finished());
    assert_eq!(runs[1].project, "old");
    assert!(runs[1].finished());
    assert_eq!(runs[1].steps, Some(50));
    assert_eq!(runs[1].reason.as_deref(), Some("COMPLETED"));
}

#[test]
fn runs_of_one_time_keep_their_order() {
    let runs: Vec<RunInfo> = [("a", 1.0), ("b", 2.0), ("c", 1.0), ("d", f64::NAN), ("e", 2.0)]
        .iter()
        .map(|(name, start)| run_info((*name).to_string(), meta(name, *start), None))
        .collect();
    let names: Vec<String> = list_runs(runs).into_iter().map(|r| r.dir_name).collect();
    assert_eq!(names, ["d", "b", "e", "a", "c"]);
}

#[test]
fn final_metrics_keeps_last_value_per_metric() {
    let rows = read_rows(
        "{\"step\":0,\"epoch\":0,\"phase\":\"TRAIN\",\"values\":{\"loss\":1.0,\"lr\":0.1}}\n\
         {\"step\":1,\"epoch\":0,\"phase\":\"TRAIN\",\"values\":{\"loss\":0.4}}\n",
        &parse,
    )
    .unwrap();
    let final_m = final_metrics(&rows);
    assert_eq!(final_m.get("loss"), Some(num(0.4)));
    assert_eq!(final_m.get("lr"), Some(num(0.1)));
}

#[test]
fn baselines_hold_one_series_for_each_metric() {
    let series = load_baseline(&rows_of(&[
        r#"{"step":0,"epoch":0,"phase":"TRAIN","values":{"loss":1.0,"acc":0.1}}"#,
        r#"{"step":5,"epoch":0,"phase":"TRAIN","values":{"loss":0.5}}"#,
    ]));
    assert_eq!(series.len(), 2);
    assert_eq!(series[0].label, "acc");
    assert_eq!(series[0].steps, [0]);
    assert_eq!(series[1].label, "loss");
    assert_eq!(series[1].steps, [0, 5]);
    assert_eq!(series[1].values, [num(1.0), num(0.5)]);
}

#[test]
fn writes_events_and_metrics_to_separate_files() {
    let records = [
        Record::Event(Event::PhaseChange(Phase::Train)),
        Record::Event(Event::RunFinished {
            duration_secs: num(1.0),
            reason: FinishReason::Completed,
        }),
        Record::Metric(record(0, 0.5)),
        Record::Metric(record(1, 0.4)),
    ];
    let files: Vec<&str> = records.iter().map(write_record).collect();
    assert_eq!(files.iter().filter(|f| **f == EVENTS_FILE).count(), 2);
    assert_eq!(files.iter().filter(|f| **f == METRICS_FILE).count(), 2);
}

#[test]
fn lines_are_read_back_as_they_were_written() {
    let mut log = String::new();
    for line in ["{\"a\":1}", "{\"b\":2}"] {
        write_line(&mut log, line);
    }
    assert_eq!(log, "{\"a\":1}\n{\"b\":2}\n");
    assert_eq!(value_lines(&log), ["{\"a\":1}", "{\"b\":2}"]);
    assert_eq!(value_lines("\r\n  x \r\n\n y"), ["x", "y"]);
    assert!(value_lines("").is_empty());
}

#[test]
fn external_v1_metrics_line_parses() {
    let line = r#"{"step":100,"epoch":2,"phase":"EVAL","values":{"acc":0.91,"loss":0.3}}"#;
    let parsed = read_rows(line, &parse).unwrap().remove(0);
    assert_eq!(parsed.step, 100);
    assert_eq!(parsed.phase, Phase::Eval);
    assert!((flt(parsed.values.get("acc").unwrap()) - 0.91).abs() < 1e-9);
}

#[test]
fn finish_flushes_all_pending_records() {
    let (mut sink, rx) = JsonlSink::spawn();
    for step in 0..200 {
        sink.write_metric(record(step, 1.0 / f64::from(u32::try_from(step + 1).unwrap())));
    }
    sink.write_event(Event::RunFinished {
        duration_secs: num(1.0),
        reason: FinishReason::Completed,
    });
    let dropped = sink.dropped();
    sink.shutdown();

    let records: Vec<Record> = rx.iter().collect();
    let metrics = records.iter().filter(|r| matches!(r, Record::Metric(_))).count();
    assert_eq!(metrics, 200, "all metrics handed over before the end");
    assert_eq!(records.len() - metrics, 1);
    assert_eq!(dropped, 0);
}

#[test]
fn full_channel_drops_and_counts() {
    let (mut sink, _rx) = JsonlSink::spawn_with_capacity(1);
    for step in 0..1000 {
        sink.write_metric(record(step, 0.5));
    }
    let dropped = sink.dropped();
    assert!(dropped > 0, "expected some drops, got {dropped}");
    assert_eq!(dropped, 999);
}

#[test]
fn rows_are_written_without_values_that_json_cannot_hold() {
    let mut values = NamedValues::new();
    values.insert("a".to_string(), num(f64::NAN));
    values.insert("b".to_string(), num(0.5));
    values.insert("c".to_string(), num(f64::NEG_INFINITY));
    values.insert("d".to_string(), num(-0.0));
    let row = MetricRecord { step: 4, epoch: 2, phase: Phase::Eval, values };
    let written = writable(&row);
    assert_eq!((written.step, written.epoch, written.phase), (4, 2, Phase::Eval));
    let names: Vec<&str> = written.values.entries.iter().map(|e| e.0.as_str()).collect();
    assert_eq!(names, ["b", "d"]);
    assert_eq!(written.values.get("b"), Some(num(0.5)));
    assert_eq!(written.values.get("d"), Some(num(-0.0)));
    assert_eq!(writable(&written), written);
}

#[test]
fn refused_records_are_counted() {
    let (mut sink, _rx) = JsonlSink::spawn();
    sink.count_offer(Offer::Taken);
    assert_eq!(sink.dropped(), 0);
    sink.count_offer(Offer::Full);
    assert_eq!(sink.dropped(), 1);
    sink.count_offer(Offer::Gone);
    assert_eq!(sink.dropped(), 2);
}

#[test]
fn a_closed_sink_takes_nothing() {
    let (mut sink, rx) = JsonlSink::spawn();
    sink.shutdown();
    sink.write_metric(record(0, 0.5));
    assert_eq!(sink.dropped(), 0);
    assert!(rx.recv().is_err());
    assert_eq!(DEFAULT_CAPACITY, 8192);
}

#[test]
fn writers_flush_in_batches_on_pauses_and_at_the_end() {
    let mut policy = FlushPolicy::new();
    assert_eq!(policy.on_input(SinkInput::Timeout), SinkAction::Wait);
    for _ in 1..FLUSH_EVERY {
        assert_eq!(policy.on_input(SinkInput::Record), SinkAction::Write);
    }
    assert_eq!(policy.on_input(SinkInput::Record), SinkAction::WriteAndFlush);
    assert_eq!(policy.on_input(SinkInput::Record), SinkAction::Write);
    assert_eq!(policy.on_input(SinkInput::Timeout), SinkAction::Flush);
    assert_eq!(
        policy.on_input(SinkInput::Disconnected),
        SinkAction::DrainAndEnd
    );
}
