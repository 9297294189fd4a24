//! Charts, the dashboard's state, its panes, and its loop.
use emry::base::queue::Offer;
use emry::base::types::{AlertRecord, Event, FinishReason, MetricId, Phase, RunMeta, Severity};
use emry::base::value::Real;
use emry::tui::app::{
    keep_reading, map_key, run_frame, Action, FrameOutcome, Key, RunLimit,
};
use emry::tui::chart::{
    adaptive_ema_span, dot_bit, downsample_minmax, ema_smooth, interp_at, render_braille,
    render_braille_segments, render_braille_steps, value_range, Segment, StepChart, BRAILLE_BLANK,
};
use emry::tui::panel::{
    build_segments, chart_yscale, phase_at, phase_bg, render_alerts, render_cards, render_chart,
    render_header, Panel, Run, AMBER, TERRACOTTA, WARM_GRAY,
};
use emry::tui::ui::{checkpoint_label, BaselineSeries, PhaseSpan, UiState};
use std::collections::VecDeque;

fn num(v: f64) -> Real {
    Real { bits: v.to_bits() }
}

fn flt(v: Real) -> f64 {
    f64::from_bits(v.bits)
}

fn nums(values: &[f64]) -> Vec<Real> {
    values.iter().map(|v| num(*v)).collect()
}

fn pairs(values: &[(Real, Real)]) -> Vec<(f64, f64)> {
    values.iter().map(|(a, b)| (flt(*a), flt(*b))).collect()
}

fn blend(v: Real, acc: Real, span: usize) -> Real {
    let alpha = 2.0 / (span as f64 + 1.0);
    num(alpha * flt(v) + (1.0 - alpha) * flt(acc))
}

fn place(col: usize, cols: usize, s0: u64, span: u64) -> u64 {
    s0 + ((col as f64 / (cols - 1) as f64) * span as f64).round() as u64
}

fn lerp(a: Real, b: Real, part: u64, whole: u64) -> Real {
    num(flt(a) + (flt(b) - flt(a)) * (part as f64 / whole as f64))
}

fn row(v: Real, lo: Real, hi: Real, top: usize) -> usize {
    let (v, lo, hi, top) = (flt(v), flt(lo), flt(hi), top as f64);
    let span = if (hi - lo).abs() < f64::EPSILON {
        1.0
    } else {
        hi - lo
    };
    (((v - lo) / span) * top).round().clamp(0.0, top) as usize
}

fn show(v: Real) -> String {
    format!("{:.4}", flt(v))
}

fn braille(data: &[f64], width: usize, height: usize) -> Vec<String> {
    render_braille(&nums(data), width, height, row)
}

fn steps_chart(values: &[f64], steps: &[u64], width: usize, height: usize) -> StepChart {
    render_braille_steps(&nums(values), steps, width, height, &place, &lerp, &row)
}

#[test]
fn render_braille_segments_renders_and_handles_empty() {
    let steps: Vec<u64> = (0..10).collect();
    let values = nums(&[1.0, 1.1, 1.0, 1.1, 1.0, 0.0, 5.0, 0.0, 5.0, 0.0]);
    let segs = vec![
        Segment {
            start: 0,
            end: 4,
            min: num(1.0),
            max: num(1.1),
        },
        Segment {
            start: 5,
            end: 9,
            min: num(0.0),
            max: num(5.0),
        },
    ];
    let chart =
        render_braille_segments(&values, &steps, 40, 8, 0, 9, &segs, &place, &lerp, &row);
    assert_eq!(chart.rows.len(), 8);
    assert_eq!(chart.col_steps.len(), 40);
    let plotted = |cols: std::ops::Range<usize>| {
        chart.rows.iter().any(|r| {
            r.chars()
                .skip(cols.start)
                .take(cols.len())
                .any(|c| c != BRAILLE_BLANK)
        })
    };
    assert!(plotted(0..20), "left segment drew something");
    assert!(plotted(20..40), "right segment drew something");
    let blank = render_braille_segments(&values, &steps, 40, 8, 0, 9, &[], &place, &lerp, &row);
    assert!(blank
        .rows
        .iter()
        .all(|r| r.chars().all(|c| c == BRAILLE_BLANK)));
}

#[test]
fn ema_smooth_reduces_step_to_step_variance() {
    let noisy = [1.0, 2.0, 0.5, 1.8, 0.6, 1.9, 0.7, 1.7];
    let sm: Vec<f64> = ema_smooth(&nums(&noisy), 5, blend)
        .into_iter()
        .map(flt)
        .collect();
    assert_eq!(sm.len(), noisy.len());
    let total_var = |xs: &[f64]| xs.windows(2).map(|w| (w[1] - w[0]).abs()).sum::<f64>();
    assert!(
        total_var(&sm) < total_var(&noisy),
        "smoothed line jitters less than the raw"
    );
}

#[test]
fn ema_smooth_handles_empty_and_nonfinite() {
    assert!(ema_smooth(&[], 5, blend).is_empty());
    let sm = ema_smooth(&nums(&[f64::NAN, 1.0, f64::INFINITY, 2.0]), 3, blend);
    assert!(sm[0].is_nan(), "leading non-finite stays blank");
    assert!(sm[1].is_finite(), "first finite seeds the average");
    assert!(sm[2].is_finite(), "Inf is carried over, not propagated");
    assert!(sm[3].is_finite());
    assert_eq!(flt(sm[2]), 1.0);
    assert_eq!(flt(sm[3]), 1.5);
}

#[test]
fn adaptive_ema_span_scales_and_clamps() {
    assert_eq!(adaptive_ema_span(0), 3);
    assert_eq!(adaptive_ema_span(10), 3);
    assert_eq!(adaptive_ema_span(500), 40);
    assert_eq!(adaptive_ema_span(100_000), 64);
}

#[test]
fn adaptive_ema_span_is_the_rounded_share() {
    for n in 0..2000usize {
        let expected = ((n as f64) * 0.08).round().clamp(3.0, 64.0) as usize;
        assert_eq!(adaptive_ema_span(n), expected, "{n}");
    }
    assert_eq!(adaptive_ema_span(usize::MAX), 64);
}

#[test]
fn downsample_empty_or_zero_buckets_is_empty() {
    assert!(downsample_minmax(&[], 10).is_empty());
    assert!(downsample_minmax(&nums(&[1.0, 2.0]), 0).is_empty());
}

#[test]
fn downsample_short_series_is_identity() {
    let out = downsample_minmax(&nums(&[1.0, 2.0, 3.0]), 10);
    assert_eq!(pairs(&out), vec![(1.0, 1.0), (2.0, 2.0), (3.0, 3.0)]);
}

#[test]
fn downsample_produces_requested_bucket_count() {
    let data: Vec<Real> = (0..1000).map(|i| num(f64::from(i))).collect();
    assert_eq!(downsample_minmax(&data, 80).len(), 80);
}

#[test]
fn spike_survives_1000_to_80_compression() {
    let mut data = vec![0.0_f64; 1000];
    data[503] = 100.0;
    let buckets = pairs(&downsample_minmax(&nums(&data), 80));
    assert_eq!(buckets.len(), 80);
    let spiked: Vec<_> = buckets.iter().filter(|(_, max)| *max >= 100.0).collect();
    assert_eq!(spiked.len(), 1, "spike preserved in exactly one bucket");
    assert!(buckets.iter().all(|(min, _)| *min == 0.0));
}

#[test]
fn downsample_ignores_non_finite() {
    let out = pairs(&downsample_minmax(
        &nums(&[1.0, f64::NAN, 3.0, f64::INFINITY, 2.0]),
        2,
    ));
    assert_eq!(out[0], (1.0, 1.0));
    assert_eq!(out[1], (2.0, 3.0));
}

#[test]
fn render_dimensions_match_request() {
    let data: Vec<f64> = (0..200).map(f64::from).collect();
    let rows = braille(&data, 40, 6);
    assert_eq!(rows.len(), 6);
    assert!(rows.iter().all(|r| r.chars().count() == 40));
}

#[test]
fn render_empty_or_zero_size_is_blank_or_empty() {
    assert!(braille(&[], 0, 5).is_empty());
    let blank = braille(&[], 10, 3);
    assert_eq!(blank.len(), 3);
    assert!(blank.iter().all(|r| r.chars().all(|c| c == ' ')));
}

#[test]
fn rendered_chars_are_all_braille() {
    let data: Vec<f64> = (0..100).map(|i| f64::from(i).sin()).collect();
    for r in braille(&data, 20, 4) {
        assert!(r
            .chars()
            .all(|c| ('\u{2800}'..='\u{28FF}').contains(&c) || c == ' '));
    }
}

#[test]
fn spike_renders_in_a_higher_row_than_baseline() {
    let mut data = vec![0.0_f64; 200];
    data[100] = 50.0;
    let rows = braille(&data, 20, 4);
    assert!(rows[0].chars().any(|c| c != '\u{2800}' && c != ' '));
    assert!(rows[3].chars().any(|c| c != '\u{2800}' && c != ' '));
}

#[test]
fn short_series_filters_non_finite() {
    let out = downsample_minmax(&nums(&[1.0, f64::NAN, f64::INFINITY]), 10);
    assert_eq!(pairs(&out), vec![(1.0, 1.0), (0.0, 0.0), (0.0, 0.0)]);
}

#[test]
fn render_normalizes_against_data_not_sentinels() {
    let mut data = vec![1_000_000.0_f64; 200];
    for v in data.iter_mut().take(20) {
        *v = f64::NAN;
    }
    let rows = braille(&data, 20, 4);
    assert_eq!(rows.len(), 4);
    assert!(rows.iter().all(|r| r.chars().count() == 20));
}

#[test]
fn render_all_non_finite_is_blank() {
    let rows = braille(&[f64::NAN, f64::INFINITY], 10, 3);
    assert!(rows.iter().all(|r| r.chars().all(|c| c == ' ')));
}

#[test]
fn flat_series_renders_without_panicking() {
    let rows = braille(&[5.0; 50], 10, 3);
    assert_eq!(rows.len(), 3);
}

#[test]
fn a_rising_line_is_drawn_dot_by_dot() {
    assert_eq!(braille(&[0.0, 1.0, 2.0, 3.0], 2, 1), ["\u{2860}\u{280a}"]);
    assert_eq!(dot_bit(1, 3), 0x80);
    assert_eq!(dot_bit(2, 0), 0);
}

#[test]
fn step_chart_dimensions_and_col_steps() {
    let values: Vec<f64> = (0..100).map(f64::from).collect();
    let steps: Vec<u64> = (0..100u64).map(|i| i * 10).collect();
    let chart = steps_chart(&values, &steps, 40, 6);
    assert_eq!(chart.rows.len(), 6);
    assert!(chart.rows.iter().all(|r| r.chars().count() == 40));
    assert_eq!(chart.col_steps.len(), 40);
    assert_eq!(chart.col_steps[0], 0);
    assert_eq!(*chart.col_steps.last().unwrap(), 990);
    assert!(chart.col_steps.windows(2).all(|w| w[0] <= w[1]));
}

#[test]
fn step_chart_places_points_by_step_not_index() {
    let chart = steps_chart(&[1.0, 2.0], &[0, 1000], 20, 4);
    assert_eq!(chart.rows.len(), 4);
    let has_dot = |c: usize| {
        chart
            .rows
            .iter()
            .any(|r| r.chars().nth(c) != Some(BRAILLE_BLANK))
    };
    assert!(has_dot(0) && has_dot(19));
}

#[test]
fn step_chart_handles_edge_cases() {
    assert!(steps_chart(&[], &[], 10, 3)
        .rows
        .iter()
        .all(|r| r.chars().all(|c| c == BRAILLE_BLANK)));
    assert!(steps_chart(&[1.0], &[5], 0, 3).rows.is_empty());
    assert_eq!(steps_chart(&[1.0, 2.0], &[0], 8, 2).rows.len(), 2);
    let one = steps_chart(&[3.0], &[7], 1, 2);
    assert_eq!(one.col_steps, vec![7]);
}

#[test]
fn values_between_points_lie_on_the_line() {
    let pts = vec![(0, num(1.0)), (10, num(3.0)), (10, num(5.0)), (20, num(7.0))];
    assert_eq!(flt(interp_at(&pts, 5, &lerp)), 2.0);
    assert_eq!(flt(interp_at(&pts, 15, &lerp)), 6.0);
    assert_eq!(flt(interp_at(&pts, 0, &lerp)), 1.0);
    assert_eq!(flt(interp_at(&pts, 99, &lerp)), 7.0);
    assert_eq!(value_range(&nums(&[f64::NAN])), None);
}

fn batch(step: u64, values: &[(u16, f64)]) -> Event {
    Event::MetricsBatch {
        step,
        epoch: 0,
        phase: Phase::Train,
        values: values.iter().map(|(id, v)| (MetricId(*id), num(*v))).collect(),
    }
}

#[test]
fn run_started_sets_project() {
    let mut s = UiState::default();
    s.apply(&Event::RunStarted(RunMeta {
        run_id: 0,
        project: "llama".into(),
        config: "null".into(),
        start_time_secs: num(0.0),
    }));
    assert_eq!(s.project, "llama");
}

#[test]
fn metrics_accumulate_history_and_latest() {
    let mut s = UiState::with_labels(&[(MetricId(0), "loss")]);
    s.apply(&batch(0, &[(0, 1.0)]));
    s.apply(&batch(1, &[(0, 0.5)]));
    assert_eq!(s.step, 1);
    assert_eq!(s.metrics.len(), 1);
    assert_eq!(s.metrics[0].label, "loss");
    assert_eq!(flt(s.metrics[0].latest), 0.5);
    assert_eq!(
        s.metrics[0].history.iter().map(|v| flt(*v)).collect::<Vec<_>>(),
        vec![1.0, 0.5]
    );
}

#[test]
fn ui_metrics_registered_seeds_and_relabels() {
    let mut s = UiState::default();
    s.apply(&batch(0, &[(0, 1.0)]));
    assert_eq!(s.metrics[0].label, "m0");
    s.apply(&Event::MetricsRegistered {
        names: vec![(MetricId(0), "loss".into())],
    });
    assert_eq!(s.metrics[0].label, "loss");
    s.apply(&Event::MetricsRegistered {
        names: vec![(MetricId(1), "lr".into())],
    });
    s.apply(&batch(1, &[(1, 0.1)]));
    assert_eq!(s.metrics[1].label, "lr");
}

#[test]
fn unknown_metric_gets_fallback_label() {
    let mut s = UiState::default();
    s.apply(&batch(0, &[(7, 1.0)]));
    assert_eq!(s.metrics[0].label, "m7");
}

#[test]
fn history_is_capped() {
    let mut s = UiState::default();
    s.max_history = 3;
    for step in 0..10 {
        s.apply(&batch(step, &[(0, step as f64)]));
    }
    assert_eq!(s.metrics[0].history.len(), 3);
    assert_eq!(
        s.metrics[0].history.iter().map(|v| flt(*v)).collect::<Vec<_>>(),
        vec![7.0, 8.0, 9.0]
    );
}

#[test]
fn alerts_are_capped_keeping_most_recent() {
    let mut s = UiState::default();
    s.max_alerts = 2;
    for i in 0..5 {
        s.apply(&Event::Alert(AlertRecord {
            severity: Severity::Warning,
            message: format!("a{i}"),
            step: Some(i),
        }));
    }
    assert_eq!(s.alerts.len(), 2);
    assert_eq!(s.alerts[1].message, "a4");
}

#[test]
fn selection_ignores_out_of_range() {
    let mut s = UiState::default();
    s.apply(&batch(0, &[(0, 1.0), (1, 2.0)]));
    s.select(1);
    assert_eq!(s.selected, 1);
    s.select(9);
    assert_eq!(s.selected, 1);
}

#[test]
fn pause_and_finish_flags() {
    let mut s = UiState::default();
    s.toggle_pause();
    assert!(s.paused);
    s.apply(&Event::RunFinished {
        duration_secs: num(1.0),
        reason: FinishReason::Completed,
    });
    assert!(s.finished);
}

fn chart_of(s: &UiState, width: u16, height: u16) -> Panel {
    render_chart(s, width, height, &blend, &place, &lerp, &row, &show)
}

fn text_of(runs: &[Run]) -> String {
    runs.iter().map(|r| r.text.as_str()).collect()
}

fn panel_text(panel: &Panel) -> String {
    let mut text = panel.title.clone();
    for line in &panel.lines {
        text.push_str(&text_of(line));
    }
    text
}

/// Everything that the dashboard shows, as one text.
fn screen(s: &UiState, width: u16, height: u16) -> String {
    let mut text = "Emry".to_string();
    text.push_str(&text_of(&render_header(s)));
    text.push_str(&text_of(&render_cards(s, &show)));
    text.push_str(&panel_text(&chart_of(s, width, height)));
    text.push_str(&render_alerts(s).text);
    text
}

#[test]
fn renders_into_test_backend_without_panicking() {
    let mut s = UiState::with_labels(&[(MetricId(0), "loss")]);
    for step in 0..50 {
        s.apply(&batch(step, &[(0, 1.0 / (step as f64 + 1.0))]));
    }
    s.apply(&Event::Alert(AlertRecord {
        severity: Severity::Critical,
        message: "Loss became NaN".into(),
        step: Some(12),
    }));
    let text = screen(&s, 80, 15);
    assert!(text.contains("Emry"));
    assert!(text.contains("loss"));
    assert!(text.contains("Loss became NaN"));
}

#[test]
fn renders_empty_state() {
    let s = UiState::default();
    let text = screen(&s, 40, 3);
    assert!(text.contains("waiting for metrics"));
}

#[test]
fn panes_say_what_the_state_holds() {
    let mut s = UiState::with_labels(&[(MetricId(0), "loss")]);
    s.project = "llama".to_string();
    s.total_steps = Some(10);
    s.apply(&batch(3, &[(0, 0.25), (1, 2.0)]));
    assert_eq!(text_of(&render_header(&s)), "llama  step 3/10  Train  running");
    assert_eq!(
        text_of(&render_cards(&s, &show)),
        "loss=0.2500   m1=2.0000   "
    );
    assert_eq!(render_alerts(&s).text, "no alerts \u{2014} all calm");
    assert_eq!(render_alerts(&s).style.fg, Some(WARM_GRAY));
    assert_eq!(chart_of(&s, 20, 5).title, "loss (latest 0.2500)");
    s.select(1);
    assert!(render_cards(&s, &show)[2].style.bold);
    s.apply(&Event::Alert(AlertRecord {
        severity: Severity::Critical,
        message: "x".into(),
        step: None,
    }));
    assert_eq!(render_alerts(&s).style.fg, Some(TERRACOTTA));
    assert_eq!(chart_of(&UiState::default(), 20, 5).title, "Chart");
}

#[test]
fn tracks_steps_phases_and_checkpoints() {
    let mut s = UiState::default();
    s.apply(&batch(0, &[(0, 1.0)]));
    s.apply(&batch(5, &[(0, 0.9)]));
    s.apply(&Event::PhaseChange(Phase::Eval));
    s.apply(&Event::Checkpoint {
        path: "/ckpt/6.pt".into(),
        step: 6,
    });
    assert_eq!(
        s.metrics[0].steps.iter().copied().collect::<Vec<_>>(),
        vec![0, 5]
    );
    assert_eq!(
        s.phases.iter().copied().collect::<Vec<_>>(),
        vec![PhaseSpan {
            step: 5,
            phase: Phase::Eval
        }]
    );
    assert_eq!(
        s.checkpoints.iter().map(|c| c.step).collect::<Vec<_>>(),
        vec![6]
    );
}

#[test]
fn phase_at_resolves_active_span() {
    let spans: VecDeque<PhaseSpan> = [
        PhaseSpan {
            step: 10,
            phase: Phase::Eval,
        },
        PhaseSpan {
            step: 20,
            phase: Phase::Train,
        },
    ]
    .into_iter()
    .collect();
    assert_eq!(phase_at(&VecDeque::new(), 5), Phase::Train);
    assert_eq!(phase_at(&spans, 5), Phase::Train);
    assert_eq!(phase_at(&spans, 15), Phase::Eval);
    assert_eq!(phase_at(&spans, 25), Phase::Train);
    assert!(phase_bg(Phase::Train).is_none());
    assert!(phase_bg(Phase::Eval).is_some());
}

fn colours(panel: &Panel) -> Vec<Option<u32>> {
    panel.lines.iter().flatten().map(|r| r.style.fg).collect()
}

#[test]
fn chart_draws_phase_band_and_checkpoint_marker() {
    let mut s = UiState::with_labels(&[(MetricId(0), "loss")]);
    for step in 0..40u64 {
        s.apply(&batch(step, &[(0, 1.0 / (step as f64 + 1.0))]));
    }
    s.apply(&Event::PhaseChange(Phase::Eval));
    s.apply(&Event::Checkpoint {
        path: "/ckpt/20.pt".into(),
        step: 20,
    });
    let panel = chart_of(&s, 80, 15);
    assert!(
        panel_text(&panel).contains('\u{250a}'),
        "checkpoint marker rendered"
    );
    let eval_bg = phase_bg(Phase::Eval);
    assert!(
        panel.lines.iter().flatten().any(|r| r.style.bg == eval_bg),
        "EVAL phase band shaded a cell background"
    );
}

#[test]
fn chart_overlays_baseline_in_amber() {
    let mut s = UiState::with_labels(&[(MetricId(0), "loss")]);
    for step in 0..40u64 {
        s.apply(&batch(step, &[(0, 1.0 / (step as f64 + 1.0))]));
    }
    s.set_baseline(vec![BaselineSeries {
        label: "loss".into(),
        steps: (0..40).collect(),
        values: (0..40).map(|i| num(0.8 - f64::from(i) * 0.01)).collect(),
    }]);
    let panel = chart_of(&s, 80, 15);
    assert!(panel_text(&panel).contains("baseline"));
    assert!(
        colours(&panel).contains(&Some(AMBER)),
        "baseline rendered in amber"
    );
}

#[test]
fn checkpoint_label_strips_phase_prefix() {
    assert_eq!(
        checkpoint_label("out/phase1-reasoning/adapters.safetensors"),
        "reasoning"
    );
    assert_eq!(checkpoint_label("runs/phase12_code/x.pt"), "code");
    assert_eq!(checkpoint_label("ckpts/warmup/x.pt"), "warmup");
    assert_eq!(checkpoint_label("step_200.pt"), "step_200");
}

#[test]
fn build_segments_splits_and_labels_by_checkpoint() {
    let steps: Vec<u64> = (0..=9).collect();
    let values = nums(&[2.0, 1.8, 1.6, 1.4, 5.0, 4.0, 3.0, 2.0, 1.0, 0.5]);
    let marks = vec![(4u64, "reasoning".to_string())];
    let (segs, labels) = build_segments(&values, &steps, 0, 9, &marks);
    assert_eq!(segs.len(), 2);
    assert_eq!((segs[0].start, segs[0].end), (0, 4));
    assert_eq!((segs[1].start, segs[1].end), (4, 9));
    assert!((flt(segs[0].max) - 5.0).abs() < 1e-9);
    assert!(flt(segs[1].max) <= 5.0 && flt(segs[1].min) <= 1.0);
    assert_eq!(labels, vec!["reasoning".to_string(), "current".to_string()]);
}

#[test]
fn segmented_chart_titles_phases_from_checkpoints() {
    let mut s = UiState::with_labels(&[(MetricId(0), "loss")]);
    for step in 0..10u64 {
        s.apply(&batch(
            step,
            &[(0, 2.0 - f64::from(u32::try_from(step).unwrap()) * 0.1)],
        ));
    }
    s.apply(&Event::Checkpoint {
        path: "out/phase1-reasoning/adapters.safetensors".into(),
        step: 4,
    });
    let text = panel_text(&chart_of(&s, 100, 15));
    assert!(text.contains("reasoning"), "segment label in title");
    assert!(text.contains("current"), "live segment labeled");
}

#[test]
fn stages_take_precedence_over_checkpoints() {
    let mut s = UiState::with_labels(&[(MetricId(0), "loss")]);
    for step in 0..10u64 {
        s.apply(&batch(step, &[(0, 1.0)]));
    }
    s.apply(&Event::Checkpoint {
        path: "out/a/x.pt".into(),
        step: 4,
    });
    s.apply(&Event::StageChange {
        name: "sft".into(),
        step: 6,
    });
    let title = chart_of(&s, 100, 15).title;
    assert_eq!(title, "loss (latest 1.0000)  \u{b7}  sft \u{2502} current");
}

#[test]
fn chart_yscale_uses_live_range_and_hides_off_scale_baseline() {
    let live = nums(&[2.0, 1.5, 1.0, 0.8, 0.6]);
    let base = (vec![0, 1, 2, 3, 4], nums(&[5.5, 4.0, 3.0, 2.5, 2.2]));
    let ((lo, hi), filtered, off_scale) = chart_yscale(&live, Some(base));
    assert_eq!((flt(lo), flt(hi)), (0.6, 2.0));
    assert!(filtered.is_none());
    assert!(off_scale);
}

#[test]
fn chart_yscale_keeps_in_range_baseline_points() {
    let live = nums(&[2.0, 1.0, 0.6]);
    let base = (vec![0, 1, 2], nums(&[1.8, 1.2, 5.0]));
    let ((lo, hi), filtered, off_scale) = chart_yscale(&live, Some(base));
    assert_eq!((flt(lo), flt(hi)), (0.6, 2.0));
    let (fs, fv) = filtered.expect("in-range baseline points survive");
    assert_eq!(fv, nums(&[1.8, 1.2]));
    assert_eq!(fs, vec![0, 1]);
    assert!(!off_scale);
}

#[test]
fn baseline_only_overlays_when_label_matches() {
    let mut s = UiState::with_labels(&[(MetricId(0), "loss")]);
    for step in 0..20u64 {
        s.apply(&batch(step, &[(0, 1.0 / (step as f64 + 1.0))]));
    }
    s.set_baseline(vec![BaselineSeries {
        label: "accuracy".into(),
        steps: (0..20).collect(),
        values: (0..20).map(|_| num(5.0)).collect(),
    }]);
    let panel = chart_of(&s, 80, 15);
    assert!(!panel_text(&panel).contains("baseline"));
    assert!(colours(&panel).iter().all(|c| *c != Some(AMBER)));
}

#[test]
fn map_key_bindings() {
    assert_eq!(map_key(Key::Char('q')), Action::Quit);
    assert_eq!(map_key(Key::Esc), Action::Quit);
    assert_eq!(map_key(Key::Char('p')), Action::TogglePause);
    assert_eq!(map_key(Key::Char('1')), Action::Select(0));
    assert_eq!(map_key(Key::Char('4')), Action::Select(3));
    assert_eq!(map_key(Key::Char('x')), Action::Ignore);
    assert_eq!(map_key(Key::Other), Action::Ignore);
}

#[test]
fn loop_applies_events_then_renders_fixed_frames() {
    let events: Vec<Event> = (0..5)
        .map(|step| batch(step, &[(0, 1.0 / (step as f64 + 1.0))]))
        .collect();
    let mut state = UiState::with_labels(&[(MetricId(0), "loss")]);
    let first = run_frame(&mut state, &events, &vec![], 0, RunLimit::Frames(2));
    assert_eq!(first, FrameOutcome::Frame { draw: true, last: false });
    let second = run_frame(&mut state, &vec![], &vec![], 1, RunLimit::Frames(2));
    assert_eq!(second, FrameOutcome::Frame { draw: true, last: true });
    assert_eq!(state.step, 4);
    assert_eq!(state.metrics[0].history.len(), 5);
}

#[test]
fn quit_action_returns_immediately() {
    let mut state = UiState::default();
    let outcome = run_frame(
        &mut state,
        &vec![],
        &vec![Action::Quit, Action::TogglePause],
        0,
        RunLimit::Frames(1000),
    );
    assert_eq!(outcome, FrameOutcome::Quit);
    assert!(!state.paused);
}

#[test]
fn input_actions_drive_selection_and_pause() {
    let mut state = UiState::default();
    state.apply(&batch(0, &[(0, 1.0)]));
    state.apply(&batch(1, &[(1, 2.0)]));
    run_frame(
        &mut state,
        &vec![],
        &vec![Action::Select(1), Action::TogglePause],
        0,
        RunLimit::Frames(1),
    );
    assert_eq!(state.selected, 1);
    assert!(state.paused);
}

#[test]
fn paused_state_skips_redraw_but_keeps_consuming_events() {
    let mut state = UiState::default();
    let outcome = run_frame(
        &mut state,
        &vec![batch(0, &[(0, 1.0)])],
        &vec![Action::TogglePause],
        0,
        RunLimit::Frames(1),
    );
    assert_eq!(outcome, FrameOutcome::Frame { draw: false, last: true });
    assert!(state.paused);
    assert_eq!(state.metrics.len(), 1);
}

#[test]
fn a_finished_run_ends_the_loop() {
    let mut state = UiState::default();
    let end = Event::RunFinished {
        duration_secs: num(1.0),
        reason: FinishReason::Completed,
    };
    let outcome = run_frame(&mut state, &vec![end], &vec![], 7, RunLimit::UntilQuit);
    assert_eq!(outcome, FrameOutcome::Frame { draw: true, last: true });
}

#[test]
fn key_readers_end_with_a_quit_or_without_a_dashboard() {
    assert!(!keep_reading(Action::Quit, Offer::Taken));
    assert!(keep_reading(Action::Quit, Offer::Full));
    assert!(keep_reading(Action::TogglePause, Offer::Taken));
    assert!(!keep_reading(Action::TogglePause, Offer::Gone));
}
