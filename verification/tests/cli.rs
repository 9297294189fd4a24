//! Commands, tables, and the wrapping of a training command.
use emry::base::error::EmryError;
use emry::base::named::NamedValues;
use emry::base::types::{Event, FinishReason, MetricId, MetricRecord, Phase};
use emry::base::value::Real;
use emry::cli::args::{
    clap_exit_code, cmd_export, cmd_slurm_wrap, cmd_tui, cmd_web, dispatch, log_base, Commands,
    ExportFormat, Plan, Source, DEFAULT_PORT, DEMO_STEPS,
};
use emry::cli::demo::demo_baseline;
use emry::cli::report::{format_compare, format_runs, render_table};
use emry::cli::wrap::{
    command_env, command_exit_code, engine_args, engine_turn, slurm_socket_path, wrap_turn,
    EngineNext, WrapAction, WrapEvent, WrapState, BIND_POLLS, DRAIN_POLLS,
};
use emry::store::runs::RunInfo;
use emry::store::sink::{JsonlSink, Record};
use emry::tui::ui::BaselineSeries;
use emry::web::project::{baseline_of, load_project, LoadedRun};
use std::collections::BTreeMap;

fn num(v: f64) -> Real {
    Real { bits: v.to_bits() }
}

fn flt(v: Real) -> f64 {
    f64::from_bits(v.bits)
}

fn show1(v: Real) -> String {
    format!("{:.1}", flt(v))
}

fn show6(v: Real) -> String {
    format!("{:.6}", flt(v))
}

fn delta(x: Real, y: Real) -> String {
    format!("{:+.6}", flt(y) - flt(x))
}

fn some(s: &str) -> Option<String> {
    Some(s.to_string())
}

#[test]
fn tui_with_no_target_errors() {
    assert!(cmd_tui(None, None, None).is_err());
}

#[test]
fn web_with_no_target_errors() {
    assert!(cmd_web(None, None, 8787, None, None).is_err());
}

#[test]
fn missing_targets_say_what_to_give() {
    let message = "specify --run-dir or --socket".to_string();
    assert_eq!(cmd_tui(None, None, some("old")), Err(message.clone()));
    assert_eq!(cmd_web(None, None, 1, None, None), Err(message));
}

#[test]
fn run_directories_come_before_sockets() {
    assert_eq!(
        cmd_tui(some("run"), some("s"), some("old")),
        Ok(Plan::Dashboard {
            source: Source::RunDir("run".to_string()),
            compare: some("old"),
        })
    );
    assert_eq!(
        cmd_web(None, some("s"), 9000, None, None),
        Ok(Plan::Serve {
            source: Source::Socket("s".to_string()),
            port: 9000,
            compare: None,
        })
    );
    assert_eq!(
        cmd_web(some("run"), None, DEFAULT_PORT, None, some("logs")),
        Ok(Plan::ServeProject {
            dir: "logs".to_string(),
            port: 8787,
        })
    );
}

#[test]
fn every_command_has_its_plan() {
    assert_eq!(
        dispatch(Commands::Demo { steps: DEMO_STEPS }),
        Ok(Plan::Demo { steps: 2000 })
    );
    assert_eq!(
        dispatch(Commands::Watch {
            path: "p".to_string(),
            compare: None,
        }),
        Ok(Plan::Dashboard {
            source: Source::RunDir("p".to_string()),
            compare: None,
        })
    );
    assert_eq!(
        dispatch(Commands::Runs { log_dir: None }),
        Ok(Plan::ListRuns { log_dir: None })
    );
    assert_eq!(
        dispatch(Commands::Compare {
            run_a: "a".to_string(),
            run_b: "b".to_string(),
        }),
        Ok(Plan::Compare {
            run_a: "a".to_string(),
            run_b: "b".to_string(),
        })
    );
    assert_eq!(
        cmd_export(ExportFormat::Parquet {
            run_dir: "r".to_string(),
            output: "o".to_string(),
        }),
        Plan::ExportParquet {
            run_dir: "r".to_string(),
            output: "o".to_string(),
        }
    );
    assert_eq!(
        dispatch(Commands::Engine {
            project: "llama".to_string(),
            socket: "/tmp/e.sock".to_string(),
            log_dir: None,
        }),
        Ok(Plan::Engine {
            project: "llama".to_string(),
            socket: "/tmp/e.sock".to_string(),
            log_dir: None,
        })
    );
}

#[test]
fn wrapped_commands_are_program_and_arguments() {
    assert_eq!(
        cmd_slurm_wrap(
            "llama".to_string(),
            None,
            None,
            vec!["python".to_string(), "train.py".to_string()],
        ),
        Ok(Plan::Wrap {
            project: "llama".to_string(),
            socket: None,
            log_dir: None,
            program: "python".to_string(),
            args: vec!["train.py".to_string()],
        })
    );
    assert_eq!(
        cmd_slurm_wrap("llama".to_string(), None, None, Vec::new()),
        Err("slurm-wrap: no command given after `--`".to_string())
    );
}

#[test]
fn log_directories_default_to_the_working_directory() {
    assert_eq!(log_base(Some("/x"), "/home"), "/x");
    assert_eq!(log_base(None, "/home"), "/home/logs");
}

#[test]
fn clap_exit_code_maps_values() {
    assert_eq!(clap_exit_code(0), 0);
    assert_eq!(clap_exit_code(100_000), 1);
    assert_eq!(clap_exit_code(-1), 1);
    assert_eq!(clap_exit_code(2), 2);
}

#[test]
fn command_exit_code_maps_normal_and_signal_death() {
    assert_eq!(command_exit_code(Some(3), None), 3);
    assert_eq!(command_exit_code(None, Some(9)), 128 + 9);
    assert_eq!(command_exit_code(None, None), 1);
}

#[test]
fn slurm_socket_path_prefers_explicit_then_job_id_then_pid() {
    let tmp = "/tmp";
    assert_eq!(
        slurm_socket_path(Some("/x/y.sock"), Some("42".into()), tmp, 7),
        "/x/y.sock"
    );
    assert_eq!(
        slurm_socket_path(None, Some("42".into()), tmp, 7),
        "/tmp/emry-42.sock"
    );
    assert_eq!(slurm_socket_path(None, None, tmp, 7), "/tmp/emry-7.sock");
    assert_eq!(
        slurm_socket_path(None, Some(String::new()), tmp, 7),
        "/tmp/emry-7.sock"
    );
}

#[test]
fn engines_get_their_arguments_and_commands_their_environment() {
    assert_eq!(
        engine_args("llama", "/tmp/s", None),
        ["engine", "--project", "llama", "--socket", "/tmp/s"]
    );
    assert_eq!(
        engine_args("llama", "/tmp/s", Some("logs"))[5..],
        ["--log-dir", "logs"]
    );
    assert_eq!(
        command_env("/tmp/s"),
        [
            ("EMRY_MODE".to_string(), "sidecar".to_string()),
            ("EMRY_SOCKET".to_string(), "/tmp/s".to_string()),
        ]
    );
}

fn looked(listening: bool, ended: Option<&str>) -> WrapEvent {
    WrapEvent::Looked {
        listening,
        ended: ended.map(str::to_owned),
    }
}

#[test]
fn a_wrapped_command_runs_drains_and_exits() {
    let (state, action) = wrap_turn(WrapState::Binding { tried: 0 }, looked(false, None));
    assert_eq!(action, WrapAction::Wait);
    let (state, action) = wrap_turn(state, looked(true, None));
    assert_eq!(action, WrapAction::RunCommand);
    let (state, action) = wrap_turn(state, WrapEvent::Finished { code: 3 });
    assert_eq!(action, WrapAction::Look);
    let (state, action) = wrap_turn(state, looked(true, None));
    assert_eq!(action, WrapAction::Wait);
    let (state, action) = wrap_turn(state, looked(true, Some("exit status: 0")));
    assert_eq!(state, WrapState::Done);
    assert_eq!(action, WrapAction::Exit { code: 3, stop: false });
}

#[test]
fn engines_that_never_listen_are_killed() {
    let mut state = WrapState::Binding { tried: 0 };
    let mut waits = 0;
    loop {
        let (next, action) = wrap_turn(state, looked(false, None));
        state = next;
        if action != WrapAction::Wait {
            assert_eq!(
                action,
                WrapAction::Fail {
                    message: "slurm-wrap: engine did not bind the socket within 10s".to_string(),
                    stop: true,
                    clean: false,
                }
            );
            break;
        }
        waits += 1;
    }
    assert_eq!(waits, BIND_POLLS);
}

#[test]
fn engines_that_never_end_are_killed() {
    let mut state = WrapState::Draining { tried: 0, code: 0 };
    let mut waits = 0;
    loop {
        let (next, action) = wrap_turn(state, looked(true, None));
        state = next;
        if action != WrapAction::Wait {
            assert_eq!(action, WrapAction::Exit { code: 0, stop: true });
            break;
        }
        waits += 1;
    }
    assert_eq!(waits, DRAIN_POLLS);
}

#[test]
fn failures_around_a_command_say_what_failed() {
    let (_, action) = wrap_turn(
        WrapState::Binding { tried: 4 },
        looked(false, Some("exit status: 1")),
    );
    assert_eq!(
        action,
        WrapAction::Fail {
            message: "slurm-wrap: engine exited before binding (exit status: 1)".to_string(),
            stop: false,
            clean: false,
        }
    );
    let (_, action) = wrap_turn(
        WrapState::Running,
        WrapEvent::NotStarted {
            program: "pyhton".to_string(),
            error: "not found".to_string(),
        },
    );
    assert_eq!(
        action,
        WrapAction::Fail {
            message: "slurm-wrap: failed to run `pyhton`: not found".to_string(),
            stop: true,
            clean: true,
        }
    );
}

#[test]
fn engines_log_events_until_the_run_ends() {
    let (mut sink, rx) = JsonlSink::spawn();
    let batch = Event::MetricsBatch {
        step: 0,
        epoch: 0,
        phase: Phase::Train,
        values: vec![(MetricId(0), num(1.0))],
    };
    let end = Event::RunFinished {
        duration_secs: num(1.0),
        reason: FinishReason::Completed,
    };
    let mut names = BTreeMap::new();
    assert_eq!(
        engine_turn(&mut sink, &mut names, Ok(Some(batch.clone()))),
        EngineNext::Continue
    );
    assert_eq!(
        engine_turn(&mut sink, &mut names, Ok(Some(end.clone()))),
        EngineNext::Finish
    );
    assert_eq!(
        engine_turn(&mut sink, &mut names, Ok(None)),
        EngineNext::Finish
    );
    let err = EmryError::Protocol("bad".to_string());
    assert_eq!(
        engine_turn(&mut sink, &mut names, Err(err)),
        EngineNext::Abort(EmryError::Protocol("bad".to_string()))
    );
    sink.shutdown();
    let records: Vec<Record> = rx.iter().collect();
    assert_eq!(records.len(), 3);
    assert_eq!(records[0], Record::Event(batch));
    assert!(matches!(&records[1], Record::Metric(m) if m.step == 0
        && m.values.get("m0") == Some(num(1.0))));
    assert_eq!(records[2], Record::Event(end));
}

#[test]
fn engines_write_rows_under_the_names_a_run_registers() {
    let (mut sink, rx) = JsonlSink::spawn();
    let mut names = BTreeMap::new();
    let table = Event::MetricsRegistered {
        names: vec![(MetricId(4), "loss".to_string())],
    };
    let batch = Event::MetricsBatch {
        step: 7,
        epoch: 1,
        phase: Phase::Eval,
        values: vec![(MetricId(4), num(0.5)), (MetricId(9), num(2.0))],
    };
    let single = Event::Metric {
        id: MetricId(4),
        value: num(0.25),
        step: 8,
        epoch: 1,
        phase: Phase::Eval,
    };
    for event in [table, batch, single] {
        let _ = engine_turn(&mut sink, &mut names, Ok(Some(event)));
    }
    sink.shutdown();
    let rows: Vec<MetricRecord> = rx
        .iter()
        .filter_map(|r| match r {
            Record::Metric(m) => Some(m),
            Record::Event(_) => None,
        })
        .collect();
    assert_eq!(rows.len(), 2);
    assert_eq!((rows[0].step, rows[0].epoch, rows[0].phase), (7, 1, Phase::Eval));
    assert_eq!(rows[0].values.get("loss"), Some(num(0.5)));
    assert_eq!(rows[0].values.get("m9"), Some(num(2.0)));
    assert_eq!(rows[1].values.get("loss"), Some(num(0.25)));
    assert_eq!(rows[1].values.len(), 1);
}

fn series(label: &str) -> BaselineSeries {
    BaselineSeries {
        label: label.to_string(),
        steps: vec![0],
        values: vec![num(1.0)],
    }
}

fn info(name: &str, start: f64) -> RunInfo {
    RunInfo {
        dir_name: name.to_string(),
        project: name.to_string(),
        start_time_secs: num(start),
        steps: None,
        duration_secs: None,
        reason: None,
    }
}

#[test]
fn load_project_collects_runs_newest_first() {
    let runs = emry::store::runs::list_runs(vec![info("old_100", 100.0), info("new_200", 200.0)]);
    let loaded: Vec<LoadedRun> = runs
        .into_iter()
        .map(|info| LoadedRun {
            info,
            series: Some(vec![series("loss")]),
        })
        .collect();
    let project = load_project(loaded);
    assert_eq!(project.runs.len(), 2);
    assert!(project.runs[0].name.starts_with("new_"));
    assert_eq!(project.runs[0].metrics[0].label, "loss");
}

#[test]
fn load_project_tolerates_a_run_without_metrics() {
    let project = load_project(vec![LoadedRun {
        info: info("broken_100", 100.0),
        series: None,
    }]);
    assert_eq!(project.runs.len(), 1);
    assert!(project.runs[0].metrics.is_empty());
}

#[test]
fn baselines_carry_every_series() {
    let baseline = baseline_of(vec![series("acc"), series("loss")]);
    assert_eq!(baseline.metrics.len(), 2);
    assert_eq!(baseline.metrics[1].label, "loss");
    assert_eq!(baseline.metrics[1].values, [num(1.0)]);
}

#[test]
fn format_runs_renders_table_and_empty_note() {
    assert_eq!(format_runs(&Vec::new(), &show1), "no runs found\n");
    let runs = vec![
        RunInfo {
            dir_name: "llama_200".into(),
            project: "llama".into(),
            start_time_secs: num(200.0),
            steps: None,
            duration_secs: None,
            reason: None,
        },
        RunInfo {
            dir_name: "gpt_100".into(),
            project: "gpt".into(),
            start_time_secs: num(100.0),
            steps: Some(500),
            duration_secs: Some(num(12.5)),
            reason: Some("COMPLETED".into()),
        },
    ];
    let table = format_runs(&runs, &show1);
    let lines: Vec<&str> = table.lines().collect();
    assert!(lines[0].starts_with("RUN"));
    assert!(lines[1].contains("llama") && lines[1].contains("running") && lines[1].contains('-'));
    assert!(lines[2].contains("gpt") && lines[2].contains("500") && lines[2].contains("12.5s"));
    assert_eq!(
        table,
        "RUN        PROJECT  STEPS  STATUS     DURATION\n\
         llama_200  llama    -      running    -\n\
         gpt_100    gpt      500    COMPLETED  12.5s\n"
    );
}

#[test]
fn format_compare_shows_values_and_delta() {
    let mut a = NamedValues::new();
    a.insert("loss".to_string(), num(1.0));
    a.insert("only_a".to_string(), num(5.0));
    let mut b = NamedValues::new();
    b.insert("loss".to_string(), num(0.4));
    let table = format_compare("runA", "runB", &a, &b, &show6, &delta);
    let lines: Vec<&str> = table.lines().collect();
    assert!(lines[0].contains("METRIC") && lines[0].contains("runA") && lines[0].contains("runB"));
    let loss = lines.iter().find(|l| l.starts_with("loss")).unwrap();
    assert!(loss.contains("1.000000") && loss.contains("0.400000") && loss.contains("-0.600000"));
    let only = lines.iter().find(|l| l.starts_with("only_a")).unwrap();
    assert!(only.contains("5.000000"));
}

#[test]
fn format_compare_empty_and_delta_column_aligns() {
    let empty = NamedValues::new();
    assert_eq!(
        format_compare("a", "b", &empty, &empty, &show6, &delta),
        "no metrics found\n"
    );
    let mut a = NamedValues::new();
    a.insert("loss".to_string(), num(1.0));
    let mut b = NamedValues::new();
    b.insert("loss".to_string(), num(2.0));
    let table = format_compare("a", "b", &a, &b, &show6, &delta);
    let lines: Vec<&str> = table.lines().collect();
    assert_eq!(lines[0].chars().filter(|c| *c == '\u{394}').count(), 1);
    assert!(lines[1].starts_with("loss"));
}

#[test]
fn comparisons_list_all_names_in_order() {
    let mut a = NamedValues::new();
    a.insert("c".to_string(), num(1.0));
    let mut b = NamedValues::new();
    b.insert("b".to_string(), num(2.0));
    b.insert("c".to_string(), num(3.0));
    assert_eq!(
        format_compare("logs/x", "..", &a, &b, &show6, &delta),
        "METRIC  x         ..        \u{394}\n\
         b       -         2.000000  -\n\
         c       1.000000  3.000000  +2.000000\n"
    );
}

#[test]
fn columns_begin_at_one_place_in_every_line() {
    let table = render_table(
        &vec!["A".to_string(), "B".to_string(), "C".to_string()],
        &vec![
            vec!["\u{e4}\u{f6}\u{fc}".to_string(), String::new(), "x".to_string()],
            vec!["1".to_string(), "22".to_string(), "y".to_string()],
        ],
    );
    assert_eq!(
        table,
        "A    B   C\n\u{e4}\u{f6}\u{fc}      x\n1    22  y\n"
    );
}

#[test]
fn demo_baselines_have_about_four_hundred_points() {
    let loss = |step: u64| num(2.3 / (1.0 + step as f64 * 0.0032));
    let series = demo_baseline(2000, &loss);
    assert_eq!(series.len(), 2);
    assert_eq!(series[0].label, "loss");
    assert_eq!(series[1].label, "loss_ema");
    assert_eq!(series[0].steps.len(), 400);
    assert_eq!(series[0].steps[..3], [0, 5, 10]);
    assert_eq!(series[0].values[1], loss(5));
    assert_eq!(series[0].steps, series[1].steps);
    assert_eq!(demo_baseline(3, &loss)[0].steps, [0, 1, 2]);
    assert!(demo_baseline(0, &loss)[0].steps.is_empty());
    let most = demo_baseline(u64::MAX, &loss);
    assert_eq!(most[0].steps.len(), 401);
}
