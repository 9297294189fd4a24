//! Finished runs as browsers get them: a baseline to compare with, and all runs
//! of a project.
use crate::base::value::Real;
use crate::store::runs::RunInfo;
use crate::tui::ui;
use crate::tui::ui::BaselineData;
use vstd::prelude::*;

verus! {

/// One metric's series of the baseline run.
#[derive(Debug, PartialEq)]
pub struct BaselineSeries {
    /// The metric's name.
    pub label: String,
    /// The step of each value.
    pub steps: Vec<u64>,
    /// The values.
    pub values: Vec<Real>,
}

/// A run to compare with.
#[derive(Debug, PartialEq)]
pub struct Baseline {
    /// Its series, in first-seen order.
    pub metrics: Vec<BaselineSeries>,
}

impl Default for Baseline {
    fn default() -> (b: Baseline)
        ensures
            b.metrics@.len() == 0,
    {
        Baseline { metrics: Vec::new() }
    }
}

/// One metric's series of a run.
#[derive(Debug, PartialEq)]
pub struct ProjectSeries {
    /// The metric's name.
    pub label: String,
    /// The step of each value.
    pub steps: Vec<u64>,
    /// The values.
    pub values: Vec<Real>,
}

/// A run of a project.
#[derive(Debug, PartialEq)]
pub struct ProjectRun {
    /// Name of its directory.
    pub name: String,
    /// Its series, in first-seen order.
    pub metrics: Vec<ProjectSeries>,
}

/// All runs of a project.
#[derive(Debug, PartialEq)]
pub struct Project {
    /// The runs, newest first.
    pub runs: Vec<ProjectRun>,
}

impl Default for Project {
    fn default() -> (p: Project)
        ensures
            p.runs@.len() == 0,
    {
        Project { runs: Vec::new() }
    }
}

/// The series of a baseline as mathematical values.
pub open spec fn baseline_series(s: Seq<BaselineSeries>) -> Seq<BaselineData> {
    Seq::new(
        s.len(),
        |i: int| BaselineData { label: s[i].label@, steps: s[i].steps@, values: s[i].values@ },
    )
}

/// The series of a run as mathematical values.
pub open spec fn project_series(s: Seq<ProjectSeries>) -> Seq<BaselineData> {
    Seq::new(
        s.len(),
        |i: int| BaselineData { label: s[i].label@, steps: s[i].steps@, values: s[i].values@ },
    )
}

/// The series of a run, as the browser overlays them.
pub fn baseline_of(series: Vec<ui::BaselineSeries>) -> (b: Baseline)
    ensures
        baseline_series(b.metrics@) == ui::baseline_views(series@),
{
    let ghost given = series@;
    let ghost all = ui::baseline_views(given);
    let mut rest = series;
    let n: usize = rest.len();
    let mut out: Vec<BaselineSeries> = Vec::new();
    let mut i: usize = 0;
    while i < n
        invariant
            i <= n == given.len(),
            all == ui::baseline_views(given),
            rest@ == given.skip(i as int),
            baseline_series(out@) == all.take(i as int),
        decreases n - i,
    {
        let s = rest.remove(0);
        assert(s == given[i as int]);
        assert(rest@ =~= given.skip(i + 1));
        let ghost before = baseline_series(out@);
        out.push(BaselineSeries { label: s.label, steps: s.steps, values: s.values });
        assert(baseline_series(out@) =~= before.push(all[i as int]));
        i = i + 1;
        assert(baseline_series(out@) =~= all.take(i as int));
    }
    Baseline { metrics: out }
}

fn series_of_run(series: Vec<ui::BaselineSeries>) -> (r: Vec<ProjectSeries>)
    ensures
        project_series(r@) == ui::baseline_views(series@),
{
    let ghost given = series@;
    let ghost all = ui::baseline_views(given);
    let mut rest = series;
    let n: usize = rest.len();
    let mut out: Vec<ProjectSeries> = Vec::new();
    let mut i: usize = 0;
    while i < n
        invariant
            i <= n == given.len(),
            all == ui::baseline_views(given),
            rest@ == given.skip(i as int),
            project_series(out@) == all.take(i as int),
        decreases n - i,
    {
        let s = rest.remove(0);
        assert(s == given[i as int]);
        assert(rest@ =~= given.skip(i + 1));
        let ghost before = project_series(out@);
        out.push(ProjectSeries { label: s.label, steps: s.steps, values: s.values });
        assert(project_series(out@) =~= before.push(all[i as int]));
        i = i + 1;
        assert(project_series(out@) =~= all.take(i as int));
    }
    out
}

/// A run and what could be read of its series.
pub struct LoadedRun {
    pub info: RunInfo,
    pub series: Option<Vec<ui::BaselineSeries>>,
}

/// Whether `run` shows what was loaded: its name and its series, none where they
/// could not be read.
pub open spec fn shows_run(run: ProjectRun, loaded: LoadedRun) -> bool {
    &&& run.name == loaded.info.dir_name
    &&& project_series(run.metrics@) == (match loaded.series {
        Some(series) => ui::baseline_views(series@),
        None => Seq::empty(),
    })
}

/// All runs of a project, in the order given. A run whose series could not be
/// read stays, without series.
pub fn load_project(runs: Vec<LoadedRun>) -> (p: Project)
    ensures
        p.runs@.len() == runs@.len(),
        forall|i: int| 0 <= i < runs@.len() ==> shows_run(#[trigger] p.runs@[i], runs@[i]),
{
    let ghost all = runs@;
    let mut rest = runs;
    let n: usize = rest.len();
    let mut out: Vec<ProjectRun> = Vec::new();
    let mut i: usize = 0;
    while i < n
        invariant
            i <= n == all.len(),
            rest@ == all.skip(i as int),
            out@.len() == i,
            forall|k: int| 0 <= k < i ==> shows_run(#[trigger] out@[k], all[k]),
        decreases n - i,
    {
        let loaded = rest.remove(0);
        assert(loaded == all[i as int]);
        assert(rest@ =~= all.skip(i + 1));
        let metrics: Vec<ProjectSeries> = match loaded.series {
            Some(series) => series_of_run(series),
            None => Vec::new(),
        };
        assert(loaded.series is None ==> project_series(metrics@) =~= Seq::<BaselineData>::empty());
        out.push(ProjectRun { name: loaded.info.dir_name, metrics });
        i = i + 1;
    }
    Project { runs: out }
}

/// A run is shown under its directory's name with every series that was read, each with
/// its name, steps and values; a run that could not be read is shown without series.
pub proof fn projects_show_every_series(run: ProjectRun, loaded: LoadedRun, i: int)
    requires
        shows_run(run, loaded),
    ensures
        run.name == loaded.info.dir_name,
        loaded.series is None ==> run.metrics@.len() == 0,
        loaded.series matches Some(series) ==> {
            &&& run.metrics@.len() == series@.len()
            &&& 0 <= i < series@.len() ==> run.metrics@[i].label@ == series@[i].label@
                && run.metrics@[i].steps@ == series@[i].steps@ && run.metrics@[i].values@
                == series@[i].values@
        },
{
    let shown = project_series(run.metrics@);
    assert(shown.len() == run.metrics@.len());
    match loaded.series {
        Some(series) => {
            let read = ui::baseline_views(series@);
            assert(read.len() == series@.len());
            if 0 <= i < series@.len() {
                assert(shown[i] == read[i]);
            }
        },
        None => {},
    }
}

} // verus!
