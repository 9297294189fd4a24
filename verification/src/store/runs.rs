//! Runs found on disk: their list, their final values, and their series.
use crate::base::named;
use crate::base::named::NamedValues;
use crate::base::text;
use crate::base::types;
use crate::base::types::MetricRecord;
use crate::base::value::Real;
use crate::store::export;
use crate::store::meta::{RunMetaFile, Summary};
use crate::tui::ui;
use crate::tui::ui::{BaselineData, BaselineSeries};
use vstd::prelude::*;

verus! {

/// A run as the list of runs shows it.
#[derive(Debug, PartialEq)]
pub struct RunInfo {
    /// Name of its directory.
    pub dir_name: String,
    /// Project or experiment name.
    pub project: String,
    /// Unix time at the start, in seconds.
    pub start_time_secs: Real,
    /// Steps recorded, once finished.
    pub steps: Option<u64>,
    /// Duration in seconds, once finished.
    pub duration_secs: Option<Real>,
    /// Why it ended, once finished.
    pub reason: Option<String>,
}

impl RunInfo {
    /// Whether the run has finished.
    pub fn finished(&self) -> (r: bool)
        ensures
            r == (self.reason is Some),
    {
        self.reason.is_some()
    }
}

/// What the list shows of a run: its metadata, and its summary if it could be
/// read. Without one the run counts as unfinished.
pub fn run_info(dir_name: String, meta: RunMetaFile, summary: Option<Summary>) -> (r: RunInfo)
    ensures
        r.dir_name == dir_name,
        r.project == meta.project,
        r.start_time_secs == meta.start_time_secs,
        match summary {
            Some(s) => r.steps == Some(s.steps) && r.duration_secs == Some(s.duration_secs) && (
            r.reason matches Some(t) && t@ == types::reason_tag(s.reason)),
            None => r.steps is None && r.duration_secs is None && r.reason is None,
        },
{
    match summary {
        Some(s) => RunInfo {
            dir_name,
            project: meta.project,
            start_time_secs: meta.start_time_secs,
            steps: Some(s.steps),
            duration_secs: Some(s.duration_secs),
            reason: Some(types::reason_str(s.reason).to_owned()),
        },
        None => RunInfo {
            dir_name,
            project: meta.project,
            start_time_secs: meta.start_time_secs,
            steps: None,
            duration_secs: None,
            reason: None,
        },
    }
}

/// Where a run stands in time.
pub open spec fn start_rank(r: RunInfo) -> int {
    r.start_time_secs.total_rank()
}

/// The first position from `i` on of a run that is older than `run`.
pub open spec fn place_of(sorted: Seq<RunInfo>, run: RunInfo, i: int) -> int
    decreases sorted.len() - i,
{
    if i >= sorted.len() || start_rank(sorted[i]) < start_rank(run) {
        i
    } else {
        place_of(sorted, run, i + 1)
    }
}

/// The first `k` runs, newest first; runs of one time keep their order.
pub open spec fn newest_first(runs: Seq<RunInfo>, k: int) -> Seq<RunInfo>
    decreases k,
{
    if k <= 0 {
        Seq::empty()
    } else {
        let before = newest_first(runs, k - 1);
        before.insert(place_of(before, runs[k - 1], 0), runs[k - 1])
    }
}

/// Puts runs in order, newest first; runs of one time keep their order.
pub fn list_runs(runs: Vec<RunInfo>) -> (r: Vec<RunInfo>)
    ensures
        r@ == newest_first(runs@, runs@.len() as int),
{
    let ghost all = runs@;
    let mut rest: Vec<RunInfo> = runs;
    let total: usize = rest.len();
    let mut out: Vec<RunInfo> = Vec::new();
    let mut k: usize = 0;
    while k < total
        invariant
            k <= total == all.len(),
            rest@ == all.skip(k as int),
            out@ == newest_first(all, k as int),
        decreases total - k,
    {
        let run = rest.remove(0);
        assert(run == all[k as int]);
        assert(rest@ =~= all.skip(k + 1));
        let rank: i64 = run.start_time_secs.get_total_rank();
        let mut p: usize = 0;
        while p < out.len() && out[p].start_time_secs.get_total_rank() >= rank
            invariant
                p <= out@.len(),
                rank == start_rank(run),
                place_of(out@, run, 0) == place_of(out@, run, p as int),
            decreases out.len() - p,
        {
            p = p + 1;
        }
        out.insert(p, run);
        k = k + 1;
    }
    out
}

proof fn lemma_place(sorted: Seq<RunInfo>, run: RunInfo, i: int)
    requires
        0 <= i <= sorted.len(),
    ensures
        i <= place_of(sorted, run, i) <= sorted.len(),
        forall|j: int|
            i <= j < place_of(sorted, run, i) ==> start_rank(#[trigger] sorted[j]) >= start_rank(run),
        place_of(sorted, run, i) < sorted.len() ==> start_rank(
            sorted[place_of(sorted, run, i)],
        ) < start_rank(run),
    decreases sorted.len() - i,
{
    if i < sorted.len() && start_rank(sorted[i]) >= start_rank(run) {
        lemma_place(sorted, run, i + 1);
    }
}

/// The list is in order: no run stands before a newer one.
pub proof fn lists_are_newest_first(runs: Seq<RunInfo>, k: int)
    requires
        0 <= k <= runs.len(),
    ensures
        newest_first(runs, k).len() == k,
        forall|i: int, j: int|
            0 <= i < j < k ==> start_rank(#[trigger] newest_first(runs, k)[i]) >= start_rank(
                #[trigger] newest_first(runs, k)[j],
            ),
    decreases k,
{
    if k > 0 {
        lists_are_newest_first(runs, k - 1);
        let before = newest_first(runs, k - 1);
        let run = runs[k - 1];
        lemma_place(before, run, 0);
        let p = place_of(before, run, 0);
        let after = newest_first(runs, k);
        assert forall|i: int, j: int| 0 <= i < j < k implies start_rank(#[trigger] after[i])
            >= start_rank(#[trigger] after[j]) by {
            let bi = if i < p { i } else { i - 1 };
            let bj = if j < p { j } else { j - 1 };
            if i != p && j != p {
                assert(start_rank(before[bi]) >= start_rank(before[bj]));
            } else if j == p {
                assert(start_rank(before[i]) >= start_rank(run));
            } else if j > p + 1 {
                assert(start_rank(before[p]) >= start_rank(before[bj]));
            }
        }
    }
}

/// The list holds the same runs, and those of one time in the order they came.
pub proof fn lists_keep_runs_and_ties(runs: Seq<RunInfo>, k: int, rank: int)
    requires
        0 <= k <= runs.len(),
    ensures
        newest_first(runs, k).filter(|r: RunInfo| start_rank(r) == rank) == runs.take(k).filter(
            |r: RunInfo| start_rank(r) == rank,
        ),
    decreases k,
{
    let same = |r: RunInfo| start_rank(r) == rank;
    reveal(Seq::filter);
    if k > 0 {
        lists_keep_runs_and_ties(runs, k - 1, rank);
        lists_are_newest_first(runs, k - 1);
        let before = newest_first(runs, k - 1);
        let run = runs[k - 1];
        lemma_place(before, run, 0);
        let p = place_of(before, run, 0);
        let after = newest_first(runs, k);
        let head = before.take(p);
        let tail = before.skip(p);
        assert(before =~= head + tail);
        assert(after =~= head.push(run) + tail);
        Seq::filter_distributes_over_add(head, tail, same);
        Seq::filter_distributes_over_add(head.push(run), tail, same);
        assert(head.push(run).drop_last() =~= head);
        assert(runs.take(k).drop_last() =~= runs.take(k - 1));
        if same(run) {
            assert forall|i: int| 0 <= i < tail.len() implies !same(#[trigger] tail[i]) by {
                assert(tail[i] == before[p + i]);
                if i > 0 {
                    assert(start_rank(before[p]) >= start_rank(before[p + i]));
                }
            }
            lemma_filter_none(tail, same);
            assert(before.filter(same) =~= head.filter(same));
            assert(after.filter(same) =~= head.filter(same).push(run));
        } else {
            assert(after.filter(same) =~= before.filter(same));
        }
    } else {
        assert(runs.take(0) =~= Seq::<RunInfo>::empty());
    }
}

proof fn lemma_filter_none(s: Seq<RunInfo>, f: spec_fn(RunInfo) -> bool)
    requires
        forall|i: int| 0 <= i < s.len() ==> !f(#[trigger] s[i]),
    ensures
        s.filter(f) == Seq::<RunInfo>::empty(),
    decreases s.len(),
{
    reveal(Seq::filter);
    if s.len() > 0 {
        lemma_filter_none(s.drop_last(), f);
    }
}

/// A map after the first `k` entries of a list were put into it.
pub open spec fn entries_put(m: Map<Seq<char>, Real>, entries: Seq<(String, Real)>, k: int) -> Map<
    Seq<char>,
    Real,
>
    decreases k,
{
    if k <= 0 {
        m
    } else {
        entries_put(m, entries, k - 1).insert(entries[k - 1].0@, entries[k - 1].1)
    }
}

proof fn lemma_entries_put(m: Map<Seq<char>, Real>, values: NamedValues, k: int, name: Seq<char>)
    requires
        values.wf(),
        0 <= k <= values.entries@.len(),
    ensures
        ({
            let put = entries_put(m, values.entries@, k);
            let hit = values.has(name) && values.position(name) < k;
            &&& put.contains_key(name) == (hit || m.contains_key(name))
            &&& hit ==> put[name] == values@[name]
            &&& !hit && m.contains_key(name) ==> put[name] == m[name]
        }),
    decreases k,
{
    if k > 0 {
        lemma_entries_put(m, values, k - 1, name);
        named::lemma_entry_is_value(values, k - 1);
        if values.has(name) {
            let p = values.position(name);
            assert(values.entries@[p].0@ == name);
        }
    }
}

/// The values of the first `k` rows under their names; a later row wins.
pub open spec fn merged(records: Seq<MetricRecord>, k: int) -> Map<Seq<char>, Real>
    decreases k,
{
    if k <= 0 {
        Map::empty()
    } else {
        merged(records, k - 1).union_prefer_right(records[k - 1].values@)
    }
}

/// Whether the values of each row are in order.
pub open spec fn rows_wf(records: Seq<MetricRecord>) -> bool {
    forall|i: int| 0 <= i < records.len() ==> (#[trigger] records[i]).values.wf()
}

/// Puts the values of a row into a map; the row wins.
pub fn put_all(latest: &mut NamedValues, row: &NamedValues)
    requires
        old(latest).wf(),
        row.wf(),
    ensures
        final(latest).wf(),
        final(latest)@ == old(latest)@.union_prefer_right(row@),
{
    let ghost before = latest@;
    let mut i: usize = 0;
    while i < row.entries.len()
        invariant
            i <= row.entries@.len(),
            latest.wf(),
            latest@ == entries_put(before, row.entries@, i as int),
        decreases row.entries.len() - i,
    {
        latest.insert(row.entries[i].0.clone(), row.entries[i].1);
        i = i + 1;
    }
    proof {
        let goal = before.union_prefer_right(row@);
        assert forall|name: Seq<char>| #[trigger]
            latest@.dom().contains(name) == goal.dom().contains(name) by {
            lemma_entries_put(before, *row, row.entries@.len() as int, name);
        }
        assert forall|name: Seq<char>| #[trigger]
            latest@.dom().contains(name) implies latest@[name] == goal[name] by {
            lemma_entries_put(before, *row, row.entries@.len() as int, name);
        }
        assert(latest@.dom() =~= goal.dom());
        assert(latest@ =~= goal);
    }
}

/// The last value of each metric over all rows of a run.
pub fn final_metrics(records: &Vec<MetricRecord>) -> (r: NamedValues)
    requires
        rows_wf(records@),
    ensures
        r.wf(),
        r@ == merged(records@, records@.len() as int),
{
    let mut latest = NamedValues::new();
    let mut k: usize = 0;
    while k < records.len()
        invariant
            k <= records@.len(),
            rows_wf(records@),
            latest.wf(),
            latest@ == merged(records@, k as int),
        decreases records.len() - k,
    {
        put_all(&mut latest, &records[k].values);
        k = k + 1;
    }
    latest
}

/// The first position from `i` on of the series `label`, or the end.
pub open spec fn series_position(series: Seq<BaselineData>, label: Seq<char>, i: int) -> int
    decreases series.len() - i,
{
    if i >= series.len() || series[i].label == label {
        i
    } else {
        series_position(series, label, i + 1)
    }
}

/// The series after one more value.
pub open spec fn series_after(series: Seq<BaselineData>, label: Seq<char>, step: u64, v: Real) -> Seq<
    BaselineData,
> {
    let p = series_position(series, label, 0);
    if p < series.len() {
        series.update(
            p,
            BaselineData {
                label: series[p].label,
                steps: series[p].steps.push(step),
                values: series[p].values.push(v),
            },
        )
    } else {
        series.push(BaselineData { label, steps: seq![step], values: seq![v] })
    }
}

/// The series after the first `k` values of a row.
pub open spec fn series_after_row(
    series: Seq<BaselineData>,
    step: u64,
    entries: Seq<(String, Real)>,
    k: int,
) -> Seq<BaselineData>
    decreases k,
{
    if k <= 0 {
        series
    } else {
        series_after(
            series_after_row(series, step, entries, k - 1),
            entries[k - 1].0@,
            step,
            entries[k - 1].1,
        )
    }
}

/// The series of the first `k` rows, in first-seen order.
pub open spec fn series_of(records: Seq<MetricRecord>, k: int) -> Seq<BaselineData>
    decreases k,
{
    if k <= 0 {
        Seq::empty()
    } else {
        series_after_row(
            series_of(records, k - 1),
            records[k - 1].step,
            records[k - 1].values.entries@,
            records[k - 1].values.entries@.len() as int,
        )
    }
}

fn add_to_series(series: &mut Vec<BaselineSeries>, label: &String, step: u64, v: Real)
    ensures
        ui::baseline_views(final(series)@) == series_after(
            ui::baseline_views(old(series)@),
            label@,
            step,
            v,
        ),
{
    let ghost before = ui::baseline_views(series@);
    let mut p: usize = 0;
    while p < series.len() && !text::same(series[p].label.as_str(), label.as_str())
        invariant
            p <= series@.len(),
            before == ui::baseline_views(series@),
            series_position(before, label@, 0) == series_position(before, label@, p as int),
        decreases series.len() - p,
    {
        assert(before[p as int].label != label@);
        p = p + 1;
    }
    if p < series.len() {
        assert(before[p as int].label == label@);
        let s = &mut series[p];
        s.steps.push(step);
        s.values.push(v);
    } else {
        let mut steps: Vec<u64> = Vec::new();
        let mut values: Vec<Real> = Vec::new();
        steps.push(step);
        values.push(v);
        assert(steps@ =~= seq![step]);
        assert(values@ =~= seq![v]);
        series.push(BaselineSeries { label: label.clone(), steps, values });
    }
    assert(ui::baseline_views(series@) =~= series_after(before, label@, step, v));
}

/// The series of each metric of a run, in first-seen order.
pub fn load_baseline(records: &Vec<MetricRecord>) -> (r: Vec<BaselineSeries>)
    ensures
        ui::baseline_views(r@) == series_of(records@, records@.len() as int),
{
    let mut out: Vec<BaselineSeries> = Vec::new();
    let mut k: usize = 0;
    assert(ui::baseline_views(out@) =~= Seq::<BaselineData>::empty());
    while k < records.len()
        invariant
            k <= records@.len(),
            ui::baseline_views(out@) == series_of(records@, k as int),
        decreases records.len() - k,
    {
        let row = &records[k].values;
        let step: u64 = records[k].step;
        let ghost before = ui::baseline_views(out@);
        let mut i: usize = 0;
        while i < row.entries.len()
            invariant
                i <= row.entries@.len(),
                ui::baseline_views(out@) == series_after_row(before, step, row.entries@, i as int),
            decreases row.entries.len() - i,
        {
            add_to_series(&mut out, &row.entries[i].0, step, row.entries[i].1);
            i = i + 1;
        }
        k = k + 1;
    }
    out
}

/// Whether steps stand beside values in every series, and labels are distinct.
pub open spec fn series_wf(series: Seq<BaselineData>) -> bool {
    &&& forall|i: int|
        0 <= i < series.len() ==> (#[trigger] series[i]).steps.len() == series[i].values.len()
    &&& forall|i: int, j: int|
        0 <= i < j < series.len() ==> (#[trigger] series[i]).label != (#[trigger] series[j]).label
}

proof fn lemma_series_position(series: Seq<BaselineData>, label: Seq<char>, i: int)
    requires
        0 <= i <= series.len(),
    ensures
        i <= series_position(series, label, i) <= series.len(),
        forall|j: int|
            i <= j < series_position(series, label, i) ==> (#[trigger] series[j]).label != label,
    decreases series.len() - i,
{
    if i < series.len() && series[i].label != label {
        lemma_series_position(series, label, i + 1);
    }
}

proof fn lemma_row_series_wf(
    series: Seq<BaselineData>,
    step: u64,
    entries: Seq<(String, Real)>,
    k: int,
)
    requires
        series_wf(series),
    ensures
        series_wf(series_after_row(series, step, entries, k)),
    decreases k,
{
    if k > 0 {
        lemma_row_series_wf(series, step, entries, k - 1);
        let before = series_after_row(series, step, entries, k - 1);
        lemma_series_position(before, entries[k - 1].0@, 0);
        let after = series_after_row(series, step, entries, k);
        assert forall|i: int, j: int| 0 <= i < j < after.len() implies (#[trigger] after[i]).label
            != (#[trigger] after[j]).label by {
            if j < before.len() {
                assert(before[i].label != before[j].label);
            }
        }
    }
}

/// Every metric has one series, with a step for each value.
pub proof fn series_are_parallel(records: Seq<MetricRecord>, k: int)
    ensures
        series_wf(series_of(records, k)),
    decreases k,
{
    if k > 0 {
        series_are_parallel(records, k - 1);
        lemma_row_series_wf(
            series_of(records, k - 1),
            records[k - 1].step,
            records[k - 1].values.entries@,
            records[k - 1].values.entries@.len() as int,
        );
    }
}

/// Whether row `i` has a metric.
pub open spec fn row_has(records: Seq<MetricRecord>, i: int, name: Seq<char>) -> bool {
    records[i].values@.contains_key(name)
}

/// Whether row `i` is the last of the first `k` that has a metric.
pub open spec fn last_with(records: Seq<MetricRecord>, k: int, i: int, name: Seq<char>) -> bool {
    &&& 0 <= i < k
    &&& row_has(records, i, name)
    &&& forall|j: int| i < j < k ==> !(#[trigger] row_has(records, j, name))
}

/// The final value of a metric is the one in the last row that has it, and a metric has
/// one exactly when some row has it.
#[verifier::spinoff_prover]
pub proof fn the_last_row_with_a_metric_counts(records: Seq<MetricRecord>, k: int, name: Seq<char>)
    requires
        0 <= k <= records.len(),
    ensures
        merged(records, k).contains_key(name) <==> exists|i: int|
            0 <= i < k && #[trigger] row_has(records, i, name),
        forall|i: int| #[trigger]
            last_with(records, k, i, name) ==> merged(records, k)[name] == records[i].values@[name],
    decreases k,
{
    if k > 0 {
        the_last_row_with_a_metric_counts(records, k - 1, name);
        let before = merged(records, k - 1);
        let row = records[k - 1].values@;
        let after = merged(records, k);
        assert(after == before.union_prefer_right(row));
        assert(row_has(records, k - 1, name) == row.contains_key(name));
        assert(after.contains_key(name) == (before.contains_key(name) || row.contains_key(name)));
        assert forall|i: int| #[trigger] last_with(records, k, i, name) implies after[name]
            == records[i].values@[name] by {
            if i < k - 1 {
                assert(!row_has(records, k - 1, name));
                assert(last_with(records, k - 1, i, name));
                assert(row_has(records, i, name));
            }
        }
    }
}

/// The values of the first `k` rows, row by row, each with its name and step.
pub open spec fn points_given(records: Seq<MetricRecord>, k: int) -> Seq<(Seq<char>, u64, Real)>
    decreases k,
{
    if k <= 0 {
        Seq::empty()
    } else {
        points_given(records, k - 1) + Seq::new(
            records[k - 1].values.entries@.len(),
            |j: int|
                (
                    records[k - 1].values.entries@[j].0@,
                    records[k - 1].step,
                    records[k - 1].values.entries@[j].1,
                ),
        )
    }
}

/// The points of one metric, in order.
pub open spec fn points_of(points: Seq<(Seq<char>, u64, Real)>, name: Seq<char>) -> Seq<
    (Seq<char>, u64, Real),
> {
    points.filter(|p: (Seq<char>, u64, Real)| p.0 == name)
}

/// Whether a series holds exactly the steps and values of its metric's points, in order.
pub open spec fn holds_points(s: BaselineData, points: Seq<(Seq<char>, u64, Real)>) -> bool {
    let own = points_of(points, s.label);
    &&& s.steps == Seq::new(own.len(), |i: int| own[i].1)
    &&& s.values == Seq::new(own.len(), |i: int| own[i].2)
}

/// The labels of series.
pub open spec fn labels_of(series: Seq<BaselineData>) -> Seq<Seq<char>> {
    Seq::new(series.len(), |i: int| series[i].label)
}

/// The names of points.
pub open spec fn names_in(points: Seq<(Seq<char>, u64, Real)>) -> Seq<Seq<char>> {
    Seq::new(points.len(), |i: int| points[i].0)
}

/// Whether series hold points: a series for each name, in the order in which names first
/// come, and in each the points of its name.
pub open spec fn hold_all(series: Seq<BaselineData>, points: Seq<(Seq<char>, u64, Real)>) -> bool {
    &&& export::in_first_seen_order(labels_of(series), names_in(points))
    &&& forall|i: int| 0 <= i < series.len() ==> holds_points(#[trigger] series[i], points)
}

proof fn lemma_points_push(points: Seq<(Seq<char>, u64, Real)>, p: (Seq<char>, u64, Real), name: Seq<char>)
    ensures
        points_of(points.push(p), name) == (if p.0 == name {
            points_of(points, name).push(p)
        } else {
            points_of(points, name)
        }),
{
    reveal(Seq::filter);
    assert(points.push(p).drop_last() =~= points);
}

proof fn lemma_no_points(points: Seq<(Seq<char>, u64, Real)>, name: Seq<char>)
    requires
        !names_in(points).contains(name),
    ensures
        points_of(points, name) == Seq::<(Seq<char>, u64, Real)>::empty(),
    decreases points.len(),
{
    reveal(Seq::filter);
    if points.len() > 0 {
        let before = points.drop_last();
        assert(names_in(points)[points.len() - 1] == points.last().0);
        assert forall|i: int| 0 <= i < before.len() implies #[trigger] names_in(before)[i]
            != name by {
            assert(names_in(points)[i] == names_in(before)[i]);
        }
        lemma_no_points(before, name);
    }
}

#[verifier::spinoff_prover]
proof fn lemma_hold_push(
    series: Seq<BaselineData>,
    points: Seq<(Seq<char>, u64, Real)>,
    label: Seq<char>,
    step: u64,
    v: Real,
)
    requires
        hold_all(series, points),
    ensures
        hold_all(series_after(series, label, step, v), points.push((label, step, v))),
{
    let p = (label, step, v);
    let all = points.push(p);
    let after = series_after(series, label, step, v);
    lemma_series_position(series, label, 0);
    let at = series_position(series, label, 0);
    lemma_series_found(series, label, 0);
    assert(names_in(all) =~= names_in(points).push(label));
    if at < series.len() {
        assert(labels_of(after) =~= labels_of(series));
        assert(labels_of(series)[at] == label);
        assert(labels_of(series).contains(label));
    } else {
        assert(labels_of(after) =~= labels_of(series).push(label));
        assert(!labels_of(series).contains(label)) by {
            if labels_of(series).contains(label) {
                let i = choose|i: int| 0 <= i < series.len() && labels_of(series)[i] == label;
                assert(series[i].label == label);
            }
        }
        if names_in(points).contains(label) {
            let q = choose|q: int| 0 <= q < points.len() && names_in(points)[q] == label;
            assert(labels_of(series).contains(names_in(points)[q]));
        }
        lemma_no_points(points, label);
    }
    export::lemma_first_seen_push(
        labels_of(series),
        names_in(points),
        label,
        labels_of(after),
    );
    assert forall|i: int| 0 <= i < after.len() implies holds_points(#[trigger] after[i], all) by {
        lemma_points_push(points, p, after[i].label);
        let own = points_of(all, after[i].label);
        if i < series.len() {
            assert(holds_points(series[i], points));
            assert(labels_of(series)[i] == series[i].label);
            if i != at {
                if at < series.len() {
                    assert(labels_of(series)[i] != labels_of(series)[at]);
                } else {
                    assert(series[i].label != label);
                }
            }
        }
        assert(after[i].steps =~= Seq::new(own.len(), |j: int| own[j].1));
        assert(after[i].values =~= Seq::new(own.len(), |j: int| own[j].2));
    }
}

proof fn lemma_series_found(series: Seq<BaselineData>, label: Seq<char>, i: int)
    requires
        0 <= i <= series.len(),
    ensures
        series_position(series, label, i) < series.len() ==> series[series_position(
            series,
            label,
            i,
        )].label == label,
    decreases series.len() - i,
{
    if i < series.len() && series[i].label != label {
        lemma_series_found(series, label, i + 1);
    }
}

#[verifier::spinoff_prover]
proof fn lemma_hold_row(
    series: Seq<BaselineData>,
    points: Seq<(Seq<char>, u64, Real)>,
    step: u64,
    entries: Seq<(String, Real)>,
    k: int,
)
    requires
        hold_all(series, points),
        0 <= k <= entries.len(),
    ensures
        hold_all(
            series_after_row(series, step, entries, k),
            points + Seq::new(k as nat, |j: int| (entries[j].0@, step, entries[j].1)),
        ),
    decreases k,
{
    let more = Seq::new(k as nat, |j: int| (entries[j].0@, step, entries[j].1));
    if k == 0 {
        assert(points + more =~= points);
    } else {
        lemma_hold_row(series, points, step, entries, k - 1);
        let before = points + Seq::new(
            (k - 1) as nat,
            |j: int| (entries[j].0@, step, entries[j].1),
        );
        lemma_hold_push(
            series_after_row(series, step, entries, k - 1),
            before,
            entries[k - 1].0@,
            step,
            entries[k - 1].1,
        );
        assert(before.push((entries[k - 1].0@, step, entries[k - 1].1)) =~= points + more);
    }
}

/// The series of a run hold every value of every row: there is one series for each
/// metric, in the order in which the metrics first come, and it holds the steps and
/// values of all rows that have the metric, in row order.
#[verifier::spinoff_prover]
pub proof fn series_hold_every_value(records: Seq<MetricRecord>, k: int)
    requires
        0 <= k <= records.len(),
    ensures
        hold_all(series_of(records, k), points_given(records, k)),
    decreases k,
{
    if k > 0 {
        series_hold_every_value(records, k - 1);
        let entries = records[k - 1].values.entries@;
        lemma_hold_row(
            series_of(records, k - 1),
            points_given(records, k - 1),
            records[k - 1].step,
            entries,
            entries.len() as int,
        );
    }
}

} // verus!
