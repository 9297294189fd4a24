//! The dashboard's panes as styled text.
use crate::base::text;
use crate::base::types::{Phase, Severity};
use crate::base::value;
use crate::base::value::Real;
use crate::tui::chart;
use crate::tui::chart::{Segment, StepChart, StepChartView, BRAILLE_BLANK};
use crate::tui::ui;
use crate::tui::ui::{Checkpoint, Mark, MetricView, PhaseSpan, StageMark, UiData, UiState};
use std::collections::VecDeque;
use vstd::prelude::*;
use vstd::string::*;

verus! {

/// Cream, for primary text; colours are red, green and blue, eight bits each.
pub const CREAM: u32 = 0xF5F0E8;

/// Terracotta, the accent.
pub const TERRACOTTA: u32 = 0xC4714A;

/// Warm gray, for secondary text.
pub const WARM_GRAY: u32 = 0x6B6560;

/// Amber, for the comparison baseline.
pub const AMBER: u32 = 0xD99A4A;

/// How text is drawn.
#[derive(Debug, Clone, Copy, PartialEq, Eq, Structural)]
pub struct Style {
    pub fg: Option<u32>,
    pub bg: Option<u32>,
    pub bold: bool,
}

/// A stretch of text in one style.
#[derive(Debug, PartialEq)]
pub struct Run {
    pub text: String,
    pub style: Style,
}

/// A run as a mathematical value.
#[verifier::ext_equal]
pub struct RunView {
    pub text: Seq<char>,
    pub style: Style,
}

impl View for Run {
    type V = RunView;

    open spec fn view(&self) -> RunView {
        RunView { text: self.text@, style: self.style }
    }
}

/// The views of a line's runs.
pub open spec fn run_views(runs: Seq<Run>) -> Seq<RunView> {
    Seq::new(runs.len(), |i: int| runs[i]@)
}

/// The views of lines.
pub open spec fn line_views(lines: Seq<Vec<Run>>) -> Seq<Seq<RunView>> {
    Seq::new(lines.len(), |i: int| run_views(lines[i]@))
}

/// Text in a foreground colour.
pub open spec fn inked(fg: u32) -> Style {
    Style { fg: Some(fg), bg: None, bold: false }
}

/// Text with no style of its own.
pub open spec fn plain() -> Style {
    Style { fg: None, bg: None, bold: false }
}

/// Accented bold text.
pub open spec fn accent() -> Style {
    Style { fg: Some(TERRACOTTA), bg: None, bold: true }
}

fn ink(fg: u32) -> (s: Style)
    ensures
        s == inked(fg),
{
    Style { fg: Some(fg), bg: None, bold: false }
}

fn run_of_text(t: &str, style: Style) -> (r: Run)
    ensures
        r@ == (RunView { text: t@, style }),
{
    Run { text: t.to_owned(), style }
}

/// The phase active at `step`: that of the latest change at or before it, and
/// training before any change.
pub open spec fn active_phase(phases: Seq<PhaseSpan>, step: u64) -> Phase
    decreases phases.len(),
{
    if phases.len() == 0 {
        Phase::Train
    } else if phases.last().step <= step {
        phases.last().phase
    } else {
        active_phase(phases.drop_last(), step)
    }
}

/// The phase active at `step`.
pub fn phase_at(phases: &VecDeque<PhaseSpan>, step: u64) -> (r: Phase)
    ensures
        r == active_phase(phases@, step),
{
    let mut k: usize = phases.len();
    assert(phases@.take(k as int) == phases@);
    while k > 0
        invariant
            k <= phases@.len(),
            active_phase(phases@, step) == active_phase(phases@.take(k as int), step),
        decreases k,
    {
        let span: PhaseSpan = phases[k - 1];
        if span.step <= step {
            return span.phase;
        }
        assert(phases@.take(k as int).drop_last() == phases@.take(k - 1));
        k = k - 1;
    }
    Phase::Train
}

/// The background tint of a phase; training has none.
pub open spec fn phase_tint(phase: Phase) -> Option<u32> {
    match phase {
        Phase::Train => None,
        Phase::Eval => Some(0x2C2518),
        Phase::Test => Some(0x2C2018),
        Phase::Warmup => Some(0x242220),
        Phase::Checkpoint => Some(0x262422),
    }
}

/// The background tint of a phase band.
pub fn phase_bg(phase: Phase) -> (r: Option<u32>)
    ensures
        r == phase_tint(phase),
{
    match phase {
        Phase::Train => None,
        Phase::Eval => Some(0x2C2518),
        Phase::Test => Some(0x2C2018),
        Phase::Warmup => Some(0x242220),
        Phase::Checkpoint => Some(0x262422),
    }
}

/// The first column from `i` on whose step is at least `st`, or the end.
pub open spec fn column_from(col_steps: Seq<u64>, st: u64, i: int) -> int
    decreases col_steps.len() - i,
{
    if i >= col_steps.len() || col_steps[i] >= st {
        i
    } else {
        column_from(col_steps, st, i + 1)
    }
}

/// The column that marks step `st`, if the chart's steps reach it.
pub open spec fn marked_column(col_steps: Seq<u64>, st: u64) -> Option<int> {
    if col_steps.len() == 0 || st < col_steps[0] || st > col_steps.last() {
        None
    } else {
        let c = column_from(col_steps, st, 0);
        Some(
            if c >= col_steps.len() {
                col_steps.len() - 1
            } else {
                c
            },
        )
    }
}

/// Whether one of the first `k` checkpoints marks column `c`.
pub open spec fn is_marked(col_steps: Seq<u64>, checkpoints: Seq<Mark>, c: int, k: int) -> bool {
    exists|i: int|
        0 <= i < k && #[trigger] marked_column(col_steps, checkpoints[i].step) == Some(c)
}

fn find_column(col_steps: &Vec<u64>, st: u64) -> (r: Option<usize>)
    ensures
        match r {
            None => marked_column(col_steps@, st) is None,
            Some(c) => c < col_steps@.len() && marked_column(col_steps@, st) == Some(c as int),
        },
{
    let n: usize = col_steps.len();
    if n == 0 || st < col_steps[0] || st > col_steps[n - 1] {
        return None;
    }
    let mut c: usize = 0;
    while c < n && col_steps[c] < st
        invariant
            c <= n == col_steps@.len(),
            column_from(col_steps@, st, 0) == column_from(col_steps@, st, c as int),
        decreases n - c,
    {
        c = c + 1;
    }
    if c >= n {
        Some(n - 1)
    } else {
        Some(c)
    }
}

fn mark_columns(col_steps: &Vec<u64>, checkpoints: &VecDeque<Checkpoint>) -> (r: Vec<bool>)
    ensures
        r@.len() == col_steps@.len(),
        forall|c: int|
            0 <= c < r@.len() ==> #[trigger] r@[c] == is_marked(
                col_steps@,
                ui::checkpoint_views(checkpoints@),
                c,
                checkpoints@.len() as int,
            ),
{
    let ghost marks = ui::checkpoint_views(checkpoints@);
    let mut out: Vec<bool> = Vec::new();
    let mut i: usize = 0;
    while i < col_steps.len()
        invariant
            i <= col_steps@.len(),
            out@.len() == i,
            forall|c: int| 0 <= c < i ==> #[trigger] out@[c] == is_marked(col_steps@, marks, c, 0),
        decreases col_steps.len() - i,
    {
        out.push(false);
        i = i + 1;
    }
    let mut k: usize = 0;
    while k < checkpoints.len()
        invariant
            k <= checkpoints@.len(),
            marks == ui::checkpoint_views(checkpoints@),
            out@.len() == col_steps@.len(),
            forall|c: int|
                0 <= c < out@.len() ==> #[trigger] out@[c] == is_marked(
                    col_steps@,
                    marks,
                    c,
                    k as int,
                ),
        decreases checkpoints.len() - k,
    {
        let st: u64 = checkpoints[k].step;
        assert(marks[k as int].step == st);
        let ghost before = out@;
        match find_column(col_steps, st) {
            Some(col) => {
                out.set(col, true);
            },
            None => {},
        }
        proof {
            assert forall|c: int| 0 <= c < out@.len() implies #[trigger] out@[c] == is_marked(
                col_steps@,
                marks,
                c,
                k + 1,
            ) by {
                assert(before[c] == is_marked(col_steps@, marks, c, k as int));
                if is_marked(col_steps@, marks, c, k as int) {
                    let i = choose|i: int|
                        0 <= i < k && #[trigger] marked_column(col_steps@, marks[i].step) == Some(c);
                    assert(marked_column(col_steps@, marks[i].step) == Some(c));
                }
                if is_marked(col_steps@, marks, c, k + 1) && !before[c] {
                    let i = choose|i: int|
                        0 <= i < k + 1 && #[trigger] marked_column(col_steps@, marks[i].step)
                            == Some(c);
                    assert(i == k);
                }
                if marked_column(col_steps@, marks[k as int].step) == Some(c) {
                    assert(is_marked(col_steps@, marks, c, k + 1));
                }
            }
        }
        k = k + 1;
    }
    out
}

/// One character cell of a chart.
#[derive(Debug, Clone, Copy, PartialEq, Eq, Structural)]
pub struct Cell {
    pub glyph: char,
    pub style: Style,
}

/// What a cell shows: the live curve first, then the baseline, then a
/// checkpoint mark, else nothing.
pub open spec fn cell_of(live: char, base: char, marked: bool, bg: Option<u32>) -> Cell {
    if live != BRAILLE_BLANK {
        Cell { glyph: live, style: Style { fg: Some(TERRACOTTA), bg, bold: false } }
    } else if base != BRAILLE_BLANK {
        Cell { glyph: base, style: Style { fg: Some(AMBER), bg, bold: false } }
    } else if marked {
        Cell { glyph: '\u{250a}', style: Style { fg: Some(WARM_GRAY), bg, bold: false } }
    } else {
        Cell { glyph: BRAILLE_BLANK, style: Style { fg: Some(TERRACOTTA), bg, bold: false } }
    }
}

/// The cells of row `r` of a chart.
pub open spec fn row_cells(
    live: StepChartView,
    base: Option<StepChartView>,
    phases: Seq<PhaseSpan>,
    checkpoints: Seq<Mark>,
    r: int,
) -> Seq<Cell> {
    let width = live.col_steps.len();
    let row = live.rows[r];
    Seq::new(
        if row.len() < width {
            row.len()
        } else {
            width
        },
        |c: int|
            cell_of(
                row[c],
                base_char(base, r, c),
                is_marked(live.col_steps, checkpoints, c, checkpoints.len() as int),
                phase_tint(active_phase(phases, live.col_steps[c])),
            ),
    )
}

/// The baseline's character in a cell, blank where it has none.
pub open spec fn base_char(base: Option<StepChartView>, r: int, c: int) -> char {
    match base {
        Some(b) => if 0 <= r < b.rows.len() && 0 <= c < b.rows[r].len() {
            b.rows[r][c]
        } else {
            BRAILLE_BLANK
        },
        None => BRAILLE_BLANK,
    }
}

/// Cells grouped into the longest runs of one style.
pub open spec fn grouped(cells: Seq<Cell>) -> Seq<RunView>
    decreases cells.len(),
{
    if cells.len() == 0 {
        Seq::empty()
    } else {
        let before = grouped(cells.drop_last());
        let cell = cells.last();
        if before.len() > 0 && before.last().style == cell.style {
            before.update(
                before.len() - 1,
                RunView { text: before.last().text.push(cell.glyph), style: cell.style },
            )
        } else {
            before.push(RunView { text: seq![cell.glyph], style: cell.style })
        }
    }
}

/// The characters of a line, run after run.
pub open spec fn line_text(runs: Seq<RunView>) -> Seq<char>
    decreases runs.len(),
{
    if runs.len() == 0 {
        Seq::empty()
    } else {
        line_text(runs.drop_last()) + runs.last().text
    }
}

/// Grouping into runs keeps every glyph in place, leaves no run empty, and
/// never splits text of one style.
pub proof fn grouping_keeps_text(cells: Seq<Cell>)
    ensures
        line_text(grouped(cells)) == Seq::new(cells.len(), |c: int| cells[c].glyph),
        forall|i: int| 0 <= i < grouped(cells).len() ==> (#[trigger] grouped(cells)[i]).text.len() > 0,
        forall|i: int|
            0 < i < grouped(cells).len() ==> (#[trigger] grouped(cells)[i]).style != grouped(
                cells,
            )[i - 1].style,
    decreases cells.len(),
{
    if cells.len() > 0 {
        let before = grouped(cells.drop_last());
        grouping_keeps_text(cells.drop_last());
        let after = grouped(cells);
        let glyph = cells.last().glyph;
        if before.len() > 0 && before.last().style == cells.last().style {
            assert(after.drop_last() =~= before.drop_last());
            assert(line_text(after) =~= line_text(before).push(glyph));
        } else {
            assert(after.drop_last() =~= before);
            assert(line_text(after) =~= line_text(before).push(glyph));
        }
    }
}

fn group_row(
    row: &Vec<char>,
    base: &Vec<char>,
    marks: &Vec<bool>,
    tints: &Vec<Option<u32>>,
) -> (runs: Vec<Run>)
    requires
        marks@.len() == tints@.len(),
    ensures
        run_views(runs@) == grouped(
            Seq::new(
                if row@.len() < marks@.len() {
                    row@.len()
                } else {
                    marks@.len()
                },
                |c: int|
                    cell_of(
                        row@[c],
                        if c < base@.len() {
                            base@[c]
                        } else {
                            BRAILLE_BLANK
                        },
                        marks@[c],
                        tints@[c],
                    ),
            ),
        ),
{
    let n: usize = if row.len() < marks.len() {
        row.len()
    } else {
        marks.len()
    };
    let ghost cells = Seq::new(
        n as nat,
        |c: int|
            cell_of(
                row@[c],
                if c < base@.len() {
                    base@[c]
                } else {
                    BRAILLE_BLANK
                },
                marks@[c],
                tints@[c],
            ),
    );
    let mut runs: Vec<Run> = Vec::new();
    let mut c: usize = 0;
    assert(run_views(runs@) =~= grouped(cells.take(0)));
    while c < n
        invariant
            c <= n,
            n <= row@.len(),
            n <= marks@.len() == tints@.len(),
            cells.len() == n,
            forall|k: int|
                0 <= k < n ==> #[trigger] cells[k] == cell_of(
                    row@[k],
                    if k < base@.len() {
                        base@[k]
                    } else {
                        BRAILLE_BLANK
                    },
                    marks@[k],
                    tints@[k],
                ),
            run_views(runs@) == grouped(cells.take(c as int)),
        decreases n - c,
    {
        let live: char = row[c];
        let under: char = if c < base.len() {
            base[c]
        } else {
            BRAILLE_BLANK
        };
        let bg: Option<u32> = tints[c];
        let (glyph, fg) = if live != BRAILLE_BLANK {
            (live, TERRACOTTA)
        } else if under != BRAILLE_BLANK {
            (under, AMBER)
        } else if marks[c] {
            ('\u{250a}', WARM_GRAY)
        } else {
            (BRAILLE_BLANK, TERRACOTTA)
        };
        let style = Style { fg: Some(fg), bg, bold: false };
        let ghost before = run_views(runs@);
        assert(cells.take(c + 1).drop_last() == cells.take(c as int));
        assert(cells.take(c + 1).last() == cells[c as int]);
        let len: usize = runs.len();
        if len > 0 && runs[len - 1].style == style {
            let last = &mut runs[len - 1];
            last.text.push(glyph);
            assert(run_views(runs@) =~= grouped(cells.take(c + 1)));
        } else {
            let mut t: String = String::new();
            t.push(glyph);
            assert(t@ =~= seq![glyph]);
            runs.push(Run { text: t, style });
            assert(run_views(runs@) =~= before.push(RunView { text: seq![glyph], style }));
        }
        c = c + 1;
    }
    assert(cells.take(n as int) == cells);
    runs
}

/// The styled rows of a chart.
pub open spec fn chart_lines(
    live: StepChartView,
    base: Option<StepChartView>,
    phases: Seq<PhaseSpan>,
    checkpoints: Seq<Mark>,
) -> Seq<Seq<RunView>> {
    Seq::new(
        live.rows.len(),
        |r: int| grouped(row_cells(live, base, phases, checkpoints, r)),
    )
}

/// The view of an optional chart.
pub open spec fn base_view(base: Option<&StepChart>) -> Option<StepChartView> {
    match base {
        Some(b) => Some(b@),
        None => None,
    }
}

/// Builds the styled chart rows: the live curve over phase-tinted backgrounds,
/// the baseline where the live curve leaves a cell free, and checkpoint marks
/// through what is still blank.
pub fn compose_chart_lines(
    live: &StepChart,
    base: Option<&StepChart>,
    phases: &VecDeque<PhaseSpan>,
    checkpoints: &VecDeque<Checkpoint>,
) -> (lines: Vec<Vec<Run>>)
    ensures
        line_views(lines@) == chart_lines(
            live@,
            base_view(base),
            phases@,
            ui::checkpoint_views(checkpoints@),
        ),
{
    let width: usize = live.col_steps.len();
    let marks = mark_columns(&live.col_steps, checkpoints);
    let mut tints: Vec<Option<u32>> = Vec::new();
    let mut c: usize = 0;
    while c < width
        invariant
            c <= width == live.col_steps@.len(),
            tints@.len() == c,
            forall|k: int|
                0 <= k < c ==> #[trigger] tints@[k] == phase_tint(
                    active_phase(phases@, live.col_steps@[k]),
                ),
        decreases width - c,
    {
        tints.push(phase_bg(phase_at(phases, live.col_steps[c])));
        c = c + 1;
    }
    let ghost cks = ui::checkpoint_views(checkpoints@);
    let mut lines: Vec<Vec<Run>> = Vec::new();
    let mut r: usize = 0;
    while r < live.rows.len()
        invariant
            r <= live.rows@.len(),
            lines@.len() == r,
            marks@.len() == tints@.len() == live.col_steps@.len(),
            cks == ui::checkpoint_views(checkpoints@),
            forall|k: int|
                0 <= k < marks@.len() ==> #[trigger] marks@[k] == is_marked(
                    live.col_steps@,
                    cks,
                    k,
                    checkpoints@.len() as int,
                ),
            forall|k: int|
                0 <= k < tints@.len() ==> #[trigger] tints@[k] == phase_tint(
                    active_phase(phases@, live.col_steps@[k]),
                ),
            forall|k: int|
                0 <= k < r ==> run_views((#[trigger] lines@[k])@) == grouped(
                    row_cells(live@, base_view(base), phases@, cks, k),
                ),
        decreases live.rows.len() - r,
    {
        let row = text::chars_of(live.rows[r].as_str());
        let under: Vec<char> = match base {
            Some(b) => if r < b.rows.len() {
                text::chars_of(b.rows[r].as_str())
            } else {
                Vec::new()
            },
            None => Vec::new(),
        };
        let runs = group_row(&row, &under, &marks, &tints);
        proof {
            let cells = Seq::new(
                if row@.len() < marks@.len() {
                    row@.len()
                } else {
                    marks@.len()
                },
                |c: int|
                    cell_of(
                        row@[c],
                        if c < under@.len() {
                            under@[c]
                        } else {
                            BRAILLE_BLANK
                        },
                        marks@[c],
                        tints@[c],
                    ),
            );
            assert(live@.rows[r as int] == row@);
            match base {
                Some(b) => {
                    if r < b.rows@.len() {
                        assert(b@.rows[r as int] == under@);
                    }
                },
                None => {},
            }
            assert(cells =~= row_cells(live@, base_view(base), phases@, cks, r as int));
        }
        lines.push(runs);
        r = r + 1;
    }
    assert(line_views(lines@) =~= chart_lines(live@, base_view(base), phases@, cks));
    lines
}

/// A y axis: the range, or from 0 to 1 where there is none.
pub open spec fn axis_of(range: Option<(Real, Real)>) -> (Real, Real) {
    match range {
        Some(r) => r,
        None => (value::zero(), value::one()),
    }
}

/// The shorter of two lengths.
pub open spec fn shorter(a: nat, b: nat) -> int {
    if a < b {
        a as int
    } else {
        b as int
    }
}

/// The points among the first `k` of a series whose finite value lies between
/// `lo` and `hi`.
pub open spec fn points_on_axis(
    steps: Seq<u64>,
    values: Seq<Real>,
    lo: Real,
    hi: Real,
    k: int,
) -> (Seq<u64>, Seq<Real>)
    decreases k,
{
    if k <= 0 {
        (Seq::empty(), Seq::empty())
    } else {
        let before = points_on_axis(steps, values, lo, hi, k - 1);
        let v = values[k - 1];
        if v.finite() && lo.rank() <= v.rank() <= hi.rank() {
            (before.0.push(steps[k - 1]), before.1.push(v))
        } else {
            before
        }
    }
}

/// A chart's y axis, the baseline points that lie on it, and whether a baseline
/// lies off it altogether.
pub struct AxisChoice {
    pub axis: (Real, Real),
    pub base: Option<(Seq<u64>, Seq<Real>)>,
    pub off_scale: bool,
}

/// The axis for a live series and a baseline.
pub open spec fn axis_choice(history: Seq<Real>, base: Option<(Seq<u64>, Seq<Real>)>) -> AxisChoice {
    let axis = axis_of(value::finite_range(history));
    match base {
        None => AxisChoice { axis, base: None, off_scale: false },
        Some((bs, bv)) => {
            let kept = points_on_axis(bs, bv, axis.0, axis.1, shorter(bs.len(), bv.len()));
            if kept.1.len() == 0 {
                AxisChoice { axis, base: None, off_scale: bv.len() > 0 }
            } else {
                AxisChoice { axis, base: Some(kept), off_scale: false }
            }
        },
    }
}

/// The view of an optional series.
pub open spec fn series_view(base: Option<(Vec<u64>, Vec<Real>)>) -> Option<(Seq<u64>, Seq<Real>)> {
    match base {
        Some((bs, bv)) => Some((bs@, bv@)),
        None => None,
    }
}

/// Chooses a chart's y axis and keeps the baseline points on it.
///
/// The axis is the live curve's own range, from 0 to 1 when that is empty, so
/// that the live curve is readable whatever the baseline's range. Baseline
/// points off the axis are dropped, not drawn along its border.
pub fn chart_yscale(history: &[Real], base: Option<(Vec<u64>, Vec<Real>)>) -> (r: (
    (Real, Real),
    Option<(Vec<u64>, Vec<Real>)>,
    bool,
))
    ensures
        r.0 == axis_choice(history@, series_view(base)).axis,
        series_view(r.1) == axis_choice(history@, series_view(base)).base,
        r.2 == axis_choice(history@, series_view(base)).off_scale,
{
    let (lo, hi) = match chart::value_range(history) {
        Some(r) => r,
        None => (value::zero(), value::one()),
    };
    let (bs, bv) = match base {
        None => {
            return ((lo, hi), None, false);
        },
        Some(b) => b,
    };
    let n: usize = if bs.len() < bv.len() {
        bs.len()
    } else {
        bv.len()
    };
    let mut fs: Vec<u64> = Vec::new();
    let mut fv: Vec<Real> = Vec::new();
    let mut k: usize = 0;
    while k < n
        invariant
            k <= n,
            n <= bs@.len(),
            n <= bv@.len(),
            (fs@, fv@) == points_on_axis(bs@, bv@, lo, hi, k as int),
        decreases n - k,
    {
        let v: Real = bv[k];
        if v.is_finite() && lo.get_rank() <= v.get_rank() && v.get_rank() <= hi.get_rank() {
            fs.push(bs[k]);
            fv.push(v);
        }
        k = k + 1;
    }
    if fv.len() == 0 {
        ((lo, hi), None, bv.len() > 0)
    } else {
        ((lo, hi), Some((fs, fv)), false)
    }
}

proof fn lemma_points_lie_on_axis(steps: Seq<u64>, values: Seq<Real>, lo: Real, hi: Real, k: int)
    requires
        k <= values.len(),
    ensures
        ({
            let kept = points_on_axis(steps, values, lo, hi, k);
            &&& kept.0.len() == kept.1.len()
            &&& forall|i: int|
                0 <= i < kept.1.len() ==> (#[trigger] kept.1[i]).finite() && lo.rank()
                    <= kept.1[i].rank() <= hi.rank()
        }),
    decreases k,
{
    if k > 0 {
        lemma_points_lie_on_axis(steps, values, lo, hi, k - 1);
    }
}

/// The axis depends on the live curve alone, and every baseline point that is
/// drawn lies on it: a baseline never squeezes the live curve.
pub proof fn baseline_never_rescales(history: Seq<Real>, base: Option<(Seq<u64>, Seq<Real>)>)
    ensures
        axis_choice(history, base).axis == axis_choice(history, None).axis,
        axis_choice(history, base).base matches Some(kept) ==> forall|i: int|
            0 <= i < kept.1.len() ==> axis_choice(history, base).axis.0.rank() <= (
            #[trigger] kept.1[i]).rank() <= axis_choice(history, base).axis.1.rank(),
{
    match base {
        Some((bs, bv)) => {
            let axis = axis_of(value::finite_range(history));
            lemma_points_lie_on_axis(bs, bv, axis.0, axis.1, shorter(bs.len(), bv.len()));
        },
        None => {},
    }
}

/// The values among the first `k` whose step lies in `[a, b]`.
pub open spec fn values_between(steps: Seq<u64>, values: Seq<Real>, a: u64, b: u64, k: int) -> Seq<
    Real,
>
    decreases k,
{
    if k <= 0 {
        Seq::empty()
    } else {
        let before = values_between(steps, values, a, b, k - 1);
        if a <= steps[k - 1] <= b {
            before.push(values[k - 1])
        } else {
            before
        }
    }
}

/// The segment of the steps from `a` to `b`, scaled to its own values.
pub open spec fn segment_between(steps: Seq<u64>, values: Seq<Real>, a: u64, b: u64) -> Segment {
    let axis = axis_of(
        value::finite_range(
            values_between(steps, values, a, b, shorter(steps.len(), values.len())),
        ),
    );
    Segment { start: a, end: b, min: axis.0, max: axis.1 }
}

/// The segments that marks split `[s0, s1]` into: each reaches from the mark
/// before (or `s0`) to its own, and the last one to `s1`.
pub open spec fn segments_at(
    values: Seq<Real>,
    steps: Seq<u64>,
    s0: u64,
    s1: u64,
    marks: Seq<Mark>,
) -> Seq<Segment> {
    Seq::new(
        marks.len() + 1,
        |i: int|
            segment_between(
                steps,
                values,
                if i == 0 {
                    s0
                } else {
                    marks[i - 1].step
                },
                if i < marks.len() {
                    marks[i].step
                } else {
                    s1
                },
            ),
    )
}

/// The labels of those segments: each is named by the mark that ends it, and
/// the last is the current one.
pub open spec fn segment_labels(marks: Seq<Mark>) -> Seq<Seq<char>> {
    Seq::new(
        marks.len() + 1,
        |i: int|
            if i < marks.len() {
                marks[i].label
            } else {
                "current"@
            },
    )
}

/// The views of boundary marks.
pub open spec fn mark_views(marks: Seq<(u64, String)>) -> Seq<Mark> {
    Seq::new(marks.len(), |i: int| Mark { step: marks[i].0, label: marks[i].1@ })
}

fn make_segment(steps: &[u64], values: &[Real], a: u64, b: u64) -> (r: Segment)
    ensures
        r == segment_between(steps@, values@, a, b),
{
    let n: usize = if steps.len() < values.len() {
        steps.len()
    } else {
        values.len()
    };
    let mut vs: Vec<Real> = Vec::new();
    let mut k: usize = 0;
    while k < n
        invariant
            k <= n,
            n <= steps@.len(),
            n <= values@.len(),
            vs@ == values_between(steps@, values@, a, b, k as int),
        decreases n - k,
    {
        if steps[k] >= a && steps[k] <= b {
            vs.push(values[k]);
        }
        k = k + 1;
    }
    let (min, max) = match chart::value_range(vs.as_slice()) {
        Some(r) => r,
        None => (value::zero(), value::one()),
    };
    Segment { start: a, end: b, min, max }
}

/// Splits `[s0, s1]` at the marks into segments, each scaled to its own data,
/// and names them.
pub fn build_segments(
    values: &[Real],
    steps: &[u64],
    s0: u64,
    s1: u64,
    marks: &Vec<(u64, String)>,
) -> (r: (Vec<Segment>, Vec<String>))
    ensures
        r.0@ == segments_at(values@, steps@, s0, s1, mark_views(marks@)),
        text::texts(r.1@) == segment_labels(mark_views(marks@)),
{
    let ghost ms = mark_views(marks@);
    let ghost goal = segments_at(values@, steps@, s0, s1, ms);
    let mut segs: Vec<Segment> = Vec::new();
    let mut labels: Vec<String> = Vec::new();
    let mut start: u64 = s0;
    let mut i: usize = 0;
    while i < marks.len()
        invariant
            i <= marks@.len(),
            ms == mark_views(marks@),
            goal == segments_at(values@, steps@, s0, s1, ms),
            start == (if i == 0 {
                s0
            } else {
                ms[i - 1].step
            }),
            segs@ == goal.take(i as int),
            labels@.len() == i,
            forall|k: int| 0 <= k < i ==> (#[trigger] labels@[k])@ == ms[k].label,
        decreases marks.len() - i,
    {
        segs.push(make_segment(steps, values, start, marks[i].0));
        labels.push(marks[i].1.clone());
        start = marks[i].0;
        assert(goal.take(i + 1) == goal.take(i as int).push(goal[i as int]));
        i = i + 1;
    }
    segs.push(make_segment(steps, values, start, s1));
    assert(segs@ =~= goal);
    labels.push("current".to_owned());
    assert(text::texts(labels@) =~= segment_labels(ms));
    (segs, labels)
}

/// The segments of a chart touch: each begins at the step where the one before
/// ends, the first at `s0`, and the last ends at `s1`.
pub proof fn segments_cover_window(
    values: Seq<Real>,
    steps: Seq<u64>,
    s0: u64,
    s1: u64,
    marks: Seq<Mark>,
)
    ensures
        ({
            let segs = segments_at(values, steps, s0, s1, marks);
            &&& segs.len() == marks.len() + 1
            &&& segs[0].start == s0
            &&& segs.last().end == s1
            &&& forall|i: int|
                0 < i < segs.len() ==> (#[trigger] segs[i]).start == segs[i - 1].end
        }),
{
}

/// A titled pane of styled lines.
#[derive(Debug)]
pub struct Panel {
    pub title: String,
    pub lines: Vec<Vec<Run>>,
}

/// A pane as a mathematical value.
#[verifier::ext_equal]
pub struct PanelView {
    pub title: Seq<char>,
    pub lines: Seq<Seq<RunView>>,
}

impl View for Panel {
    type V = PanelView;

    open spec fn view(&self) -> PanelView {
        PanelView { title: self.title@, lines: line_views(self.lines@) }
    }
}

/// The arithmetic on measured numbers that the panes need.
pub struct PanelMath {
    pub chart: chart::ChartMath,
    /// One step of exponential smoothing: (value, average, span).
    pub blend: spec_fn(Real, Real, usize) -> Real,
    /// A value as text, to four decimals.
    pub show: spec_fn(Real) -> Seq<char>,
}

/// Whether the closure `f` shows values as `g` does.
pub open spec fn shows<F: Fn(Real) -> String>(f: F, g: spec_fn(Real) -> Seq<char>) -> bool {
    forall|v: Real, r: String| call_ensures(f, (v,), r) ==> r@ == g(v)
}

/// A series smoothed over the span that fits its length.
pub open spec fn smoothed(values: Seq<Real>, blend: spec_fn(Real, Real, usize) -> Real) -> Seq<Real> {
    Seq::new(
        values.len(),
        |i: int|
            chart::running_average(
                values,
                chart::ema_span(values.len() as int) as usize,
                blend,
                i + 1,
            ),
    )
}

/// The marks among the first `k` that lie strictly inside `(s0, s1)`.
pub open spec fn marks_inside(marks: Seq<Mark>, s0: u64, s1: u64, k: int) -> Seq<Mark>
    decreases k,
{
    if k <= 0 {
        Seq::empty()
    } else {
        let before = marks_inside(marks, s0, s1, k - 1);
        if s0 < marks[k - 1].step < s1 {
            before.push(marks[k - 1])
        } else {
            before
        }
    }
}

/// The points among the first `k` whose step lies in `[s0, s1]`.
pub open spec fn clipped(steps: Seq<u64>, values: Seq<Real>, s0: u64, s1: u64, k: int) -> (
    Seq<u64>,
    Seq<Real>,
)
    decreases k,
{
    if k <= 0 {
        (Seq::empty(), Seq::empty())
    } else {
        let before = clipped(steps, values, s0, s1, k - 1);
        if s0 <= steps[k - 1] <= s1 {
            (before.0.push(steps[k - 1]), before.1.push(values[k - 1]))
        } else {
            before
        }
    }
}

/// The first baseline from `i` on that carries `label`, or the end.
pub open spec fn baseline_position(baseline: Seq<ui::BaselineData>, label: Seq<char>, i: int) -> int
    decreases baseline.len() - i,
{
    if i >= baseline.len() || baseline[i].label == label {
        i
    } else {
        baseline_position(baseline, label, i + 1)
    }
}

/// The baseline of a metric: clipped to the live window and smoothed alike.
pub open spec fn baseline_for(
    baseline: Seq<ui::BaselineData>,
    label: Seq<char>,
    s0: u64,
    s1: u64,
    blend: spec_fn(Real, Real, usize) -> Real,
) -> Option<(Seq<u64>, Seq<Real>)> {
    let p = baseline_position(baseline, label, 0);
    if p < baseline.len() {
        let b = baseline[p];
        let c = clipped(b.steps, b.values, s0, s1, shorter(b.steps.len(), b.values.len()));
        Some((c.0, smoothed(c.1, blend)))
    } else {
        None
    }
}

/// `{label} (latest {value})`.
pub open spec fn chart_head(label: Seq<char>, latest: Seq<char>) -> Seq<char> {
    label + " (latest "@ + latest + ")"@
}

/// The marks that split a chart: the stages, or the checkpoints when there are
/// no stages, that lie strictly inside the chart's window.
pub open spec fn chart_marks(s: UiData, s0: u64, s1: u64) -> Seq<Mark> {
    if s.stages.len() == 0 {
        marks_inside(s.checkpoints, s0, s1, s.checkpoints.len() as int)
    } else {
        marks_inside(s.stages, s0, s1, s.stages.len() as int)
    }
}

/// The chart pane of `width` by `height` inner cells.
pub open spec fn chart_panel(s: UiData, m: PanelMath, width: int, height: int) -> PanelView {
    if s.selected >= s.metrics.len() {
        PanelView { title: "Chart"@, lines: Seq::empty() }
    } else {
        let metric = s.metrics[s.selected as int];
        let history = smoothed(metric.history, m.blend);
        let s0 = chart::first_step(metric.steps);
        let s1 = chart::last_step(metric.steps);
        let marks = chart_marks(s, s0, s1);
        let head = chart_head(metric.label, (m.show)(metric.latest));
        if marks.len() > 0 {
            PanelView {
                title: head + "  ·  "@ + text::join_texts(segment_labels(marks), " │ "@),
                lines: chart_lines(
                    chart::segment_chart(
                        m.chart,
                        history,
                        metric.steps,
                        width,
                        height,
                        s0,
                        s1,
                        segments_at(history, metric.steps, s0, s1, marks),
                    ),
                    None,
                    s.phases,
                    s.checkpoints,
                ),
            }
        } else {
            let choice = axis_choice(
                history,
                baseline_for(s.baseline, metric.label, s0, s1, m.blend),
            );
            let base = match choice.base {
                Some((bs, bv)) => Some(
                    chart::step_chart(
                        m.chart,
                        bv,
                        bs,
                        width,
                        height,
                        s0,
                        s1,
                        choice.axis.0,
                        choice.axis.1,
                    ),
                ),
                None => None,
            };
            PanelView {
                title: if base is Some {
                    head + "  ·  ╌ baseline"@
                } else if choice.off_scale {
                    head + "  ·  baseline off-scale"@
                } else {
                    head
                },
                lines: chart_lines(
                    chart::step_chart(
                        m.chart,
                        history,
                        metric.steps,
                        width,
                        height,
                        s0,
                        s1,
                        choice.axis.0,
                        choice.axis.1,
                    ),
                    base,
                    s.phases,
                    s.checkpoints,
                ),
            }
        }
    }
}

fn list_of_steps(q: &VecDeque<u64>) -> (r: Vec<u64>)
    ensures
        r@ == q@,
{
    let mut out: Vec<u64> = Vec::new();
    let mut i: usize = 0;
    while i < q.len()
        invariant
            i <= q@.len(),
            out@ == q@.take(i as int),
        decreases q@.len() - i,
    {
        out.push(q[i]);
        assert(q@.take(i + 1) == q@.take(i as int).push(q@[i as int]));
        i = i + 1;
    }
    assert(q@.take(q@.len() as int) == q@);
    out
}

fn list_of_values(q: &VecDeque<Real>) -> (r: Vec<Real>)
    ensures
        r@ == q@,
{
    let mut out: Vec<Real> = Vec::new();
    let mut i: usize = 0;
    while i < q.len()
        invariant
            i <= q@.len(),
            out@ == q@.take(i as int),
        decreases q@.len() - i,
    {
        out.push(q[i]);
        assert(q@.take(i + 1) == q@.take(i as int).push(q@[i as int]));
        i = i + 1;
    }
    assert(q@.take(q@.len() as int) == q@);
    out
}

fn smooth<B: Fn(Real, Real, usize) -> Real>(values: &Vec<Real>, blend: &B) -> (r: Vec<Real>)
    requires
        forall|v: Real, acc: Real, n: usize| call_requires(*blend, (v, acc, n)),
    ensures
        forall|g: spec_fn(Real, Real, usize) -> Real| #[trigger]
            chart::blends(*blend, g) ==> r@ == smoothed(values@, g),
{
    let span: usize = chart::adaptive_ema_span(values.len());
    let f = |v: Real, acc: Real, n: usize| -> (b: Real)
        ensures
            call_ensures(*blend, (v, acc, n), b),
        { blend(v, acc, n) };
    let r = chart::ema_smooth(values.as_slice(), span, f);
    proof {
        assert forall|g: spec_fn(Real, Real, usize) -> Real| #[trigger]
            chart::blends(*blend, g) implies r@ == smoothed(values@, g) by {
            assert(chart::blends(f, g));
            assert(r@ =~= smoothed(values@, g));
        }
    }
    r
}

fn marks_in_window(state: &UiState, s0: u64, s1: u64) -> (r: Vec<(u64, String)>)
    ensures
        mark_views(r@) == chart_marks(state@, s0, s1),
{
    let mut out: Vec<(u64, String)> = Vec::new();
    let mut k: usize = 0;
    assert(mark_views(out@) =~= Seq::<Mark>::empty());
    if state.stages.len() == 0 {
        while k < state.checkpoints.len()
            invariant
                k <= state.checkpoints@.len(),
                mark_views(out@) == marks_inside(state@.checkpoints, s0, s1, k as int),
            decreases state.checkpoints@.len() - k,
        {
            let c: &Checkpoint = &state.checkpoints[k];
            let ghost before = mark_views(out@);
            assert(state@.checkpoints[k as int] == c@);
            if c.step > s0 && c.step < s1 {
                out.push((c.step, c.label.clone()));
                assert(mark_views(out@) =~= before.push(c@));
            }
            k = k + 1;
        }
    } else {
        while k < state.stages.len()
            invariant
                k <= state.stages@.len(),
                mark_views(out@) == marks_inside(state@.stages, s0, s1, k as int),
            decreases state.stages@.len() - k,
        {
            let c: &StageMark = &state.stages[k];
            let ghost before = mark_views(out@);
            assert(state@.stages[k as int] == c@);
            if c.step > s0 && c.step < s1 {
                out.push((c.step, c.label.clone()));
                assert(mark_views(out@) =~= before.push(c@));
            }
            k = k + 1;
        }
    }
    out
}

fn baseline_in_window<B: Fn(Real, Real, usize) -> Real>(
    state: &UiState,
    label: &String,
    s0: u64,
    s1: u64,
    blend: &B,
) -> (r: Option<(Vec<u64>, Vec<Real>)>)
    requires
        forall|v: Real, acc: Real, n: usize| call_requires(*blend, (v, acc, n)),
    ensures
        forall|g: spec_fn(Real, Real, usize) -> Real| #[trigger]
            chart::blends(*blend, g) ==> series_view(r) == baseline_for(
                state@.baseline,
                label@,
                s0,
                s1,
                g,
            ),
{
    let mut p: usize = 0;
    while p < state.baseline.len() && !text::same(
        state.baseline[p].label.as_str(),
        label.as_str(),
    )
        invariant
            p <= state.baseline@.len(),
            baseline_position(state@.baseline, label@, 0) == baseline_position(
                state@.baseline,
                label@,
                p as int,
            ),
        decreases state.baseline.len() - p,
    {
        assert(state@.baseline[p as int].label != label@);
        p = p + 1;
    }
    if p == state.baseline.len() {
        return None;
    }
    let b = &state.baseline[p];
    assert(state@.baseline[p as int] == b@);
    let n: usize = if b.steps.len() < b.values.len() {
        b.steps.len()
    } else {
        b.values.len()
    };
    let mut bs: Vec<u64> = Vec::new();
    let mut bv: Vec<Real> = Vec::new();
    let mut k: usize = 0;
    while k < n
        invariant
            k <= n,
            n <= b.steps@.len(),
            n <= b.values@.len(),
            (bs@, bv@) == clipped(b.steps@, b.values@, s0, s1, k as int),
        decreases n - k,
    {
        if b.steps[k] >= s0 && b.steps[k] <= s1 {
            bs.push(b.steps[k]);
            bv.push(b.values[k]);
        }
        k = k + 1;
    }
    let sm = smooth(&bv, blend);
    Some((bs, sm))
}

fn head_text<S: Fn(Real) -> String>(metric: &MetricView, show: &S) -> (r: String)
    requires
        forall|v: Real| call_requires(*show, (v,)),
    ensures
        forall|g: spec_fn(Real) -> Seq<char>| #[trigger]
            shows(*show, g) ==> r@ == chart_head(metric.label@, g(metric.latest)),
{
    let mut out: String = metric.label.clone();
    out.append(" (latest ");
    let latest: String = show(metric.latest);
    out.append(latest.as_str());
    out.append(")");
    out
}

/// The chart pane for an area of `width` by `height` cells, of which a border
/// takes one on each side.
///
/// The selected metric is drawn smoothed. Where stages (or else checkpoints)
/// fall inside its window, each segment is scaled to its own range and named in
/// the title; otherwise the curve shares its axis with the baseline of that
/// name, if there is one.
pub fn render_chart<
    B: Fn(Real, Real, usize) -> Real,
    P: Fn(usize, usize, u64, u64) -> u64,
    L: Fn(Real, Real, u64, u64) -> Real,
    R: Fn(Real, Real, Real, usize) -> usize,
    S: Fn(Real) -> String,
>(
    state: &UiState,
    width: u16,
    height: u16,
    blend: &B,
    place: &P,
    lerp: &L,
    row: &R,
    show: &S,
) -> (panel: Panel)
    requires
        forall|v: Real, acc: Real, n: usize| call_requires(*blend, (v, acc, n)),
        chart::total_place(*place),
        forall|a: Real, b: Real, part: u64, whole: u64|
            call_requires(*lerp, (a, b, part, whole)),
        forall|v: Real, lo: Real, hi: Real, top: usize| call_requires(*row, (v, lo, hi, top)),
        forall|v: Real| call_requires(*show, (v,)),
    ensures
        state@.selected >= state@.metrics.len() ==> panel@ == (PanelView {
            title: "Chart"@,
            lines: Seq::empty(),
        }),
        forall|m: PanelMath|
            #![trigger
                chart::blends(*blend, m.blend),
                chart::places(*place, m.chart.place),
                chart::lerps(*lerp, m.chart.lerp),
                chart::scales(*row, m.chart.row),
                shows(*show, m.show)]
            chart::blends(*blend, m.blend) && chart::places(*place, m.chart.place) && chart::lerps(
                *lerp,
                m.chart.lerp,
            ) && chart::scales(*row, m.chart.row) && shows(*show, m.show) ==> panel@ == chart_panel(
                state@,
                m,
                inner(width),
                inner(height),
            ),
{
    if state.selected >= state.metrics.len() {
        let panel = Panel { title: "Chart".to_owned(), lines: Vec::new() };
        assert(panel@.lines =~= Seq::<Seq<RunView>>::empty());
        return panel;
    }
    let metric: &MetricView = &state.metrics[state.selected];
    assert(state@.metrics[state.selected as int] == metric@);
    let w: usize = if width > 2 {
        (width - 2) as usize
    } else {
        0
    };
    let h: usize = if height > 2 {
        (height - 2) as usize
    } else {
        0
    };
    let steps = list_of_steps(&metric.steps);
    let raw = list_of_values(&metric.history);
    let history = smooth(&raw, blend);
    let s0: u64 = if steps.len() == 0 {
        0
    } else {
        steps[0]
    };
    let s1: u64 = if steps.len() == 0 {
        0
    } else {
        steps[steps.len() - 1]
    };
    let mut title = head_text(metric, show);
    let marks = marks_in_window(state, s0, s1);
    if marks.len() > 0 {
        let (segments, labels) = build_segments(
            history.as_slice(),
            steps.as_slice(),
            s0,
            s1,
            &marks,
        );
        let chart = chart::render_braille_segments(
            history.as_slice(),
            steps.as_slice(),
            w,
            h,
            s0,
            s1,
            segments.as_slice(),
            place,
            lerp,
            row,
        );
        title.append("  ·  ");
        title.append(text::join(&labels, " │ ").as_str());
        let lines = compose_chart_lines(&chart, None, &state.phases, &state.checkpoints);
        return Panel { title, lines };
    }
    let base = baseline_in_window(state, &metric.label, s0, s1, blend);
    let ((lo, hi), kept, off_scale) = chart_yscale(history.as_slice(), base);
    let live = chart::render_braille_steps_scaled(
        history.as_slice(),
        steps.as_slice(),
        w,
        h,
        s0,
        s1,
        lo,
        hi,
        place,
        lerp,
        row,
    );
    let lines = match kept {
        Some((bs, bv)) => {
            title.append("  ·  ╌ baseline");
            let under = chart::render_braille_steps_scaled(
                bv.as_slice(),
                bs.as_slice(),
                w,
                h,
                s0,
                s1,
                lo,
                hi,
                place,
                lerp,
                row,
            );
            compose_chart_lines(&live, Some(&under), &state.phases, &state.checkpoints)
        },
        None => {
            if off_scale {
                title.append("  ·  baseline off-scale");
            }
            compose_chart_lines(&live, None, &state.phases, &state.checkpoints)
        },
    };
    Panel { title, lines }
}

/// What a border on both sides leaves of a length.
pub open spec fn inner(len: u16) -> int {
    if len > 2 {
        len - 2
    } else {
        0
    }
}

/// A phase by name.
pub open spec fn phase_name(phase: Phase) -> Seq<char> {
    match phase {
        Phase::Train => "Train"@,
        Phase::Eval => "Eval"@,
        Phase::Test => "Test"@,
        Phase::Checkpoint => "Checkpoint"@,
        Phase::Warmup => "Warmup"@,
    }
}

/// `step {n}/{total}`, or `step {n}` while the total is unknown or zero.
pub open spec fn progress_text(step: u64, total: Option<u64>) -> Seq<char> {
    let head = "step "@ + text::decimal(step as nat);
    match total {
        Some(t) => if t > 0 {
            head + "/"@ + text::decimal(t as nat)
        } else {
            head
        },
        None => head,
    }
}

/// Whether the run is finished, paused or running.
pub open spec fn status_text(finished: bool, paused: bool) -> Seq<char> {
    if finished {
        "finished"@
    } else if paused {
        "paused"@
    } else {
        "running"@
    }
}

/// The header line.
pub open spec fn header_line(s: UiData) -> Seq<RunView> {
    seq![
        RunView { text: s.project, style: accent() },
        RunView { text: "  "@, style: plain() },
        RunView { text: progress_text(s.step, s.total_steps), style: inked(CREAM) },
        RunView { text: "  "@, style: plain() },
        RunView { text: phase_name(s.phase), style: inked(WARM_GRAY) },
        RunView { text: "  "@, style: plain() },
        RunView { text: status_text(s.finished, s.paused), style: inked(WARM_GRAY) },
    ]
}

/// The header line: project, progress, phase and status.
pub fn render_header(state: &UiState) -> (line: Vec<Run>)
    ensures
        run_views(line@) == header_line(state@),
{
    let blank = Style { fg: None, bg: None, bold: false };
    let mut progress: String = text::joined("step ", text::decimal_text(state.step).as_str());
    match state.total_steps {
        Some(total) => {
            if total > 0 {
                progress.append("/");
                progress.append(text::decimal_text(total).as_str());
            }
        },
        None => {},
    }
    let phase: &str = match state.phase {
        Phase::Train => "Train",
        Phase::Eval => "Eval",
        Phase::Test => "Test",
        Phase::Checkpoint => "Checkpoint",
        Phase::Warmup => "Warmup",
    };
    let status: &str = if state.finished {
        "finished"
    } else if state.paused {
        "paused"
    } else {
        "running"
    };
    let mut line: Vec<Run> = Vec::new();
    line.push(
        Run {
            text: state.project.clone(),
            style: Style { fg: Some(TERRACOTTA), bg: None, bold: true },
        },
    );
    line.push(run_of_text("  ", blank));
    line.push(Run { text: progress, style: ink(CREAM) });
    line.push(run_of_text("  ", blank));
    line.push(run_of_text(phase, ink(WARM_GRAY)));
    line.push(run_of_text("  ", blank));
    line.push(run_of_text(status, ink(WARM_GRAY)));
    assert(run_views(line@) =~= header_line(state@));
    line
}

/// The cards of the first `k` metrics, each followed by a gap.
pub open spec fn cards(s: UiData, show: spec_fn(Real) -> Seq<char>, k: int) -> Seq<RunView>
    decreases k,
{
    if k <= 0 {
        Seq::empty()
    } else {
        let m = s.metrics[k - 1];
        cards(s, show, k - 1).push(
            RunView {
                text: m.label + "="@ + show(m.latest),
                style: if k - 1 == s.selected {
                    accent()
                } else {
                    inked(CREAM)
                },
            },
        ).push(RunView { text: "   "@, style: plain() })
    }
}

/// The line of metric cards, or a note while there are none.
pub open spec fn cards_line(s: UiData, show: spec_fn(Real) -> Seq<char>) -> Seq<RunView> {
    if s.metrics.len() == 0 {
        seq![RunView { text: "waiting for metrics…"@, style: inked(WARM_GRAY) }]
    } else {
        cards(s, show, s.metrics.len() as int)
    }
}

/// The line of metric cards: each metric's name and latest value, the selected
/// one accented.
pub fn render_cards<S: Fn(Real) -> String>(state: &UiState, show: &S) -> (line: Vec<Run>)
    requires
        forall|v: Real| call_requires(*show, (v,)),
    ensures
        forall|g: spec_fn(Real) -> Seq<char>| #[trigger]
            shows(*show, g) ==> run_views(line@) == cards_line(state@, g),
{
    let mut line: Vec<Run> = Vec::new();
    let mut k: usize = 0;
    assert(run_views(line@) =~= Seq::<RunView>::empty());
    while k < state.metrics.len()
        invariant
            k <= state.metrics@.len(),
            k == 0 ==> line@.len() == 0,
            forall|v: Real| call_requires(*show, (v,)),
            forall|g: spec_fn(Real) -> Seq<char>| #[trigger]
                shows(*show, g) ==> run_views(line@) == cards(state@, g, k as int),
        decreases state.metrics.len() - k,
    {
        let m: &MetricView = &state.metrics[k];
        assert(state@.metrics[k as int] == m@);
        let ghost before = run_views(line@);
        let latest: String = show(m.latest);
        let mut t: String = text::joined(m.label.as_str(), "=");
        t.append(latest.as_str());
        let style = if k == state.selected {
            Style { fg: Some(TERRACOTTA), bg: None, bold: true }
        } else {
            ink(CREAM)
        };
        let ghost card = RunView { text: t@, style };
        line.push(Run { text: t, style });
        line.push(run_of_text("   ", Style { fg: None, bg: None, bold: false }));
        assert(run_views(line@) =~= before.push(card).push(
            RunView { text: "   "@, style: plain() },
        ));
        k = k + 1;
    }
    if k == 0 {
        line.push(run_of_text("waiting for metrics…", ink(WARM_GRAY)));
        assert(run_views(line@) =~= seq![
            RunView { text: "waiting for metrics…"@, style: inked(WARM_GRAY) },
        ]);
    }
    line
}

/// The alert strip: the latest alert in the colour of its severity, or calm.
pub open spec fn alert_line(s: UiData) -> RunView {
    if s.alerts.len() == 0 {
        RunView { text: "no alerts — all calm"@, style: inked(WARM_GRAY) }
    } else {
        RunView {
            text: s.alerts.last().message,
            style: inked(
                match s.alerts.last().severity {
                    Severity::Critical => TERRACOTTA,
                    Severity::Warning => AMBER,
                    Severity::Info => WARM_GRAY,
                },
            ),
        }
    }
}

/// The alert strip.
pub fn render_alerts(state: &UiState) -> (r: Run)
    ensures
        r@ == alert_line(state@),
{
    let n: usize = state.alerts.len();
    if n == 0 {
        return run_of_text("no alerts — all calm", ink(WARM_GRAY));
    }
    let alert = &state.alerts[n - 1];
    assert(state@.alerts[n - 1] == alert@);
    let color: u32 = match alert.severity {
        Severity::Critical => TERRACOTTA,
        Severity::Warning => AMBER,
        Severity::Info => WARM_GRAY,
    };
    Run { text: alert.message.clone(), style: ink(color) }
}

/// A phase lasts from the step of its change to that of the next: at any step the phase
/// of the latest change at or before it holds, and training before all changes.
#[verifier::spinoff_prover]
pub proof fn phases_last_until_the_next(phases: Seq<PhaseSpan>, step: u64)
    ensures
        forall|k: int|
            0 <= k < phases.len() && (#[trigger] phases[k]).step <= step && (forall|j: int|
                k < j < phases.len() ==> (#[trigger] phases[j]).step > step) ==> active_phase(
                phases,
                step,
            ) == phases[k].phase,
        (forall|j: int| 0 <= j < phases.len() ==> (#[trigger] phases[j]).step > step)
            ==> active_phase(phases, step) == Phase::Train,
    decreases phases.len(),
{
    if phases.len() > 0 {
        let before = phases.drop_last();
        phases_last_until_the_next(before, step);
        assert(phases[phases.len() - 1] == phases.last());
        assert forall|k: int|
            0 <= k < phases.len() && (#[trigger] phases[k]).step <= step && (forall|j: int|
                k < j < phases.len() ==> (#[trigger] phases[j]).step > step) implies active_phase(
            phases,
            step,
        ) == phases[k].phase by {
            if k < phases.len() - 1 {
                assert(phases[phases.len() - 1].step > step);
                assert(before[k] == phases[k]);
                assert forall|j: int| k < j < before.len() implies (#[trigger] before[j]).step
                    > step by {
                    assert(before[j] == phases[j]);
                }
            }
        }
        if forall|j: int| 0 <= j < phases.len() ==> (#[trigger] phases[j]).step > step {
            assert forall|j: int| 0 <= j < before.len() implies (#[trigger] before[j]).step
                > step by {
                assert(before[j] == phases[j]);
            }
        }
    }
}

/// A step is marked in the first column that reaches it, and only when it lies between
/// the first and the last column.
#[verifier::spinoff_prover]
pub proof fn marks_stand_in_the_first_column_reached(col_steps: Seq<u64>, st: u64, c: int)
    ensures
        marked_column(col_steps, st) == Some(c) <==> {
            &&& 0 <= c < col_steps.len()
            &&& col_steps[0] <= st <= col_steps[col_steps.len() - 1]
            &&& st <= col_steps[c]
            &&& forall|j: int| 0 <= j < c ==> #[trigger] col_steps[j] < st
        },
{
    lemma_column_from(col_steps, st, 0);
    let k = column_from(col_steps, st, 0);
    if 0 <= c < col_steps.len() && st <= col_steps[c] && (forall|j: int|
        0 <= j < c ==> #[trigger] col_steps[j] < st) && col_steps[0] <= st
        <= col_steps[col_steps.len() - 1] {
        if k < c {
            assert(col_steps[k] < st);
        } else if c < k {
            assert(col_steps[c] < st);
        }
    }
    if marked_column(col_steps, st) == Some(c) {
        if k >= col_steps.len() {
            assert(col_steps[col_steps.len() - 1] < st);
        }
    }
}

proof fn lemma_column_from(col_steps: Seq<u64>, st: u64, i: int)
    requires
        0 <= i <= col_steps.len(),
    ensures
        i <= column_from(col_steps, st, i) <= col_steps.len(),
        column_from(col_steps, st, i) < col_steps.len() ==> col_steps[column_from(
            col_steps,
            st,
            i,
        )] >= st,
        forall|j: int| i <= j < column_from(col_steps, st, i) ==> #[trigger] col_steps[j] < st,
    decreases col_steps.len() - i,
{
    if i < col_steps.len() && col_steps[i] < st {
        lemma_column_from(col_steps, st, i + 1);
    }
}

/// The cell of a run's character `i`.
pub open spec fn cell_in(run: RunView, i: int) -> Cell {
    Cell { glyph: run.text[i], style: run.style }
}

/// The cells that a run stands for: each of its characters in its style.
pub open spec fn run_cells(run: RunView) -> Seq<Cell> {
    Seq::new(run.text.len(), |i: int| cell_in(run, i))
}

/// The cells that runs stand for, one run after the other.
pub open spec fn cells_in(runs: Seq<RunView>) -> Seq<Cell>
    decreases runs.len(),
{
    if runs.len() == 0 {
        Seq::empty()
    } else {
        cells_in(runs.drop_last()) + run_cells(runs.last())
    }
}

proof fn lemma_run_cells(run: RunView, cell: Cell)
    requires
        run.style == cell.style,
    ensures
        run_cells(RunView { text: run.text.push(cell.glyph), style: cell.style }) == run_cells(
            run,
        ).push(cell),
{
    let longer = RunView { text: run.text.push(cell.glyph), style: cell.style };
    let n = run.text.len() as int;
    assert(longer.text[n] == cell.glyph);
    assert(run_cells(longer)[n].glyph == cell.glyph);
    assert(run_cells(longer)[n].style == cell.style);
    assert(run_cells(longer)[n] == cell);
    assert forall|i: int| 0 <= i < n implies run_cells(longer)[i] == run_cells(run)[i] by {
        assert(longer.text[i] == run.text[i]);
    }
    assert(run_cells(longer) =~= run_cells(run).push(cell));
}

/// Grouping cells into runs loses neither a character nor a style: the runs stand for the
/// same cells, in the same places.
#[verifier::spinoff_prover]
pub proof fn runs_stand_for_their_cells(cells: Seq<Cell>)
    ensures
        cells_in(grouped(cells)) == cells,
    decreases cells.len(),
{
    if cells.len() > 0 {
        let front = cells.drop_last();
        let cell = cells.last();
        let before = grouped(front);
        let after = grouped(cells);
        runs_stand_for_their_cells(front);
        if before.len() > 0 && before.last().style == cell.style {
            assert(after.drop_last() =~= before.drop_last());
            assert(after.last().text == before.last().text.push(cell.glyph));
            let run = before.last();
            assert(after.last() == RunView { text: run.text.push(cell.glyph), style: cell.style });
            lemma_run_cells(run, cell);
            assert(run_cells(after.last()) == run_cells(run).push(cell));
            assert(cells_in(after) =~= cells_in(before).push(cell));
        } else {
            assert(after.drop_last() =~= before);
            let none = RunView { text: Seq::empty(), style: cell.style };
            lemma_run_cells(none, cell);
            assert(none.text.push(cell.glyph) =~= seq![cell.glyph]);
            assert(run_cells(none) =~= Seq::<Cell>::empty());
            assert(run_cells(after.last()) == run_cells(none).push(cell));
            assert(cells_in(after) =~= cells_in(before).push(cell));
        }
        assert(front.push(cell) =~= cells);
    } else {
        assert(cells_in(grouped(cells)) =~= cells);
    }
}

/// A composed chart has a line for each row of the live chart. Each cell shows the live
/// curve where it is drawn, else the baseline where that is drawn, else a checkpoint's
/// mark in the marked columns, else nothing; and behind it all stands the tint of the
/// phase that was active at the column's step.
#[verifier::spinoff_prover]
pub proof fn composed_charts_layer_their_curves(
    live: StepChartView,
    base: Option<StepChartView>,
    phases: Seq<PhaseSpan>,
    checkpoints: Seq<Mark>,
    r: int,
    c: int,
)
    requires
        0 <= r < live.rows.len(),
        0 <= c < live.col_steps.len(),
        live.rows[r].len() == live.col_steps.len(),
    ensures
        ({
            let lines = chart_lines(live, base, phases, checkpoints);
            let cell = cells_in(lines[r])[c];
            let blank = BRAILLE_BLANK;
            let under = base is Some && r < (base->0).rows.len() && c < (base->0).rows[r].len()
                && (base->0).rows[r][c] != blank;
            let marked = exists|i: int|
                0 <= i < checkpoints.len() && #[trigger] marked_column(
                    live.col_steps,
                    checkpoints[i].step,
                ) == Some(c);
            &&& lines.len() == live.rows.len()
            &&& cells_in(lines[r]).len() == live.col_steps.len()
            &&& cell.style.bg == phase_tint(active_phase(phases, live.col_steps[c]))
            &&& !cell.style.bold
            &&& live.rows[r][c] != blank ==> cell.glyph == live.rows[r][c] && cell.style.fg == Some(
                TERRACOTTA,
            )
            &&& live.rows[r][c] == blank && under ==> cell.glyph == (base->0).rows[r][c]
                && cell.style.fg == Some(AMBER)
            &&& live.rows[r][c] == blank && !under && marked ==> cell.glyph == '\u{250a}'
                && cell.style.fg == Some(WARM_GRAY)
            &&& live.rows[r][c] == blank && !under && !marked ==> cell.glyph == blank
        }),
{
    runs_stand_for_their_cells(row_cells(live, base, phases, checkpoints, r));
}

/// Steps and values side by side.
pub open spec fn side_by_side(steps: Seq<u64>, values: Seq<Real>) -> Seq<(u64, Real)> {
    Seq::new(shorter(steps.len(), values.len()) as nat, |i: int| (steps[i], values[i]))
}

#[verifier::spinoff_prover]
proof fn lemma_points_on_axis(steps: Seq<u64>, values: Seq<Real>, lo: Real, hi: Real, k: int)
    requires
        0 <= k <= shorter(steps.len(), values.len()),
    ensures
        ({
            let kept = points_on_axis(steps, values, lo, hi, k);
            &&& kept.0.len() == kept.1.len()
            &&& side_by_side(kept.0, kept.1) == side_by_side(steps, values).take(k).filter(
                |p: (u64, Real)| p.1.finite() && lo.rank() <= p.1.rank() <= hi.rank(),
            )
        }),
    decreases k,
{
    reveal(Seq::filter);
    let all = side_by_side(steps, values);
    let on = |p: (u64, Real)| p.1.finite() && lo.rank() <= p.1.rank() <= hi.rank();
    let kept = points_on_axis(steps, values, lo, hi, k);
    if k > 0 {
        lemma_points_on_axis(steps, values, lo, hi, k - 1);
        assert(all.take(k).drop_last() =~= all.take(k - 1));
        assert(all.take(k).last() == (steps[k - 1], values[k - 1]));
        let before = points_on_axis(steps, values, lo, hi, k - 1);
        if on((steps[k - 1], values[k - 1])) {
            assert(side_by_side(kept.0, kept.1) =~= side_by_side(before.0, before.1).push(
                (steps[k - 1], values[k - 1]),
            ));
        }
    } else {
        assert(all.take(0) =~= Seq::<(u64, Real)>::empty());
        assert(side_by_side(kept.0, kept.1) =~= Seq::<(u64, Real)>::empty());
    }
}

/// The axis of a chart reaches from the least to the greatest finite value of the live
/// curve, or from 0 to 1 where there is none. Of a baseline exactly the points on that
/// axis are drawn, in order, and it is off the scale when it has points and none of them
/// is on the axis.
#[verifier::spinoff_prover]
pub proof fn axes_fit_the_live_curve(history: Seq<Real>, base: Option<(Seq<u64>, Seq<Real>)>)
    ensures
        ({
            let choice = axis_choice(history, base);
            let (lo, hi) = choice.axis;
            let on = |p: (u64, Real)| p.1.finite() && lo.rank() <= p.1.rank() <= hi.rank();
            &&& (exists|i: int| 0 <= i < history.len() && (#[trigger] history[i]).finite())
                ==> chart::spans(history, 0, history.len() as int, lo, hi)
            &&& (forall|i: int| 0 <= i < history.len() ==> !(#[trigger] history[i]).finite()) ==> lo
                == value::zero() && hi == value::one()
            &&& base is None ==> choice.base is None && !choice.off_scale
            &&& base matches Some((bs, bv)) ==> {
                let drawn = side_by_side(bs, bv).filter(on);
                &&& choice.base is Some <==> drawn.len() > 0
                &&& choice.base matches Some((ks, kv)) ==> ks.len() == kv.len() && side_by_side(
                    ks,
                    kv,
                ) == drawn
                &&& choice.off_scale <==> bv.len() > 0 && drawn.len() == 0
            }
        }),
{
    let (lo, hi) = axis_of(value::finite_range(history));
    chart::lemma_spans(history, 0, history.len() as int);
    assert(history.subrange(0, history.len() as int) =~= history);
    match base {
        None => {},
        Some((bs, bv)) => {
            let n = shorter(bs.len(), bv.len());
            lemma_points_on_axis(bs, bv, lo, hi, n);
            assert(side_by_side(bs, bv).take(n) =~= side_by_side(bs, bv));
        },
    }
}

#[verifier::spinoff_prover]
proof fn lemma_values_between(steps: Seq<u64>, values: Seq<Real>, a: u64, b: u64, k: int)
    requires
        0 <= k <= shorter(steps.len(), values.len()),
    ensures
        forall|i: int|
            0 <= i < k && a <= #[trigger] steps[i] <= b ==> values_between(
                steps,
                values,
                a,
                b,
                k,
            ).contains(values[i]),
        forall|v: Real| #[trigger]
            values_between(steps, values, a, b, k).contains(v) ==> exists|i: int|
                0 <= i < k && a <= #[trigger] steps[i] <= b && values[i] == v,
    decreases k,
{
    if k > 0 {
        lemma_values_between(steps, values, a, b, k - 1);
        let before = values_between(steps, values, a, b, k - 1);
        let after = values_between(steps, values, a, b, k);
        assert forall|i: int| 0 <= i < k && a <= #[trigger] steps[i] <= b implies after.contains(
            values[i],
        ) by {
            if i < k - 1 {
                assert(before.contains(values[i]));
                let p = choose|p: int| 0 <= p < before.len() && before[p] == values[i];
                assert(after[p] == values[i]);
            } else {
                assert(after[before.len() as int] == values[i]);
            }
        }
        assert forall|v: Real| #[trigger] after.contains(v) implies exists|i: int|
            0 <= i < k && a <= #[trigger] steps[i] <= b && values[i] == v by {
            let p = choose|p: int| 0 <= p < after.len() && after[p] == v;
            if p < before.len() {
                assert(before[p] == v);
                assert(before.contains(v));
                let i = choose|i: int|
                    0 <= i < k - 1 && a <= #[trigger] steps[i] <= b && values[i] == v;
                assert(a <= steps[i] <= b);
            } else {
                assert(a <= steps[k - 1] <= b);
            }
        }
    }
}

/// Whether a finite value stands at position `i` within the steps from `a` to `b`.
pub open spec fn counts_between(
    steps: Seq<u64>,
    values: Seq<Real>,
    a: u64,
    b: u64,
    i: int,
) -> bool {
    0 <= i < steps.len() && i < values.len() && a <= steps[i] <= b && values[i].finite()
}

/// A segment is scaled to the finite values at its own steps: its axis reaches from the
/// least to the greatest of them, or from 0 to 1 where there are none.
#[verifier::spinoff_prover]
pub proof fn segments_fit_their_own_values(steps: Seq<u64>, values: Seq<Real>, a: u64, b: u64)
    ensures
        ({
            let seg = segment_between(steps, values, a, b);
            &&& seg.start == a && seg.end == b
            &&& (forall|i: int| !(#[trigger] counts_between(steps, values, a, b, i))) ==> seg.min
                == value::zero() && seg.max == value::one()
            &&& (exists|i: int| #[trigger] counts_between(steps, values, a, b, i)) ==> {
                &&& exists|i: int| #[trigger]
                    counts_between(steps, values, a, b, i) && values[i] == seg.min
                &&& exists|i: int| #[trigger]
                    counts_between(steps, values, a, b, i) && values[i] == seg.max
                &&& forall|i: int| #[trigger]
                    counts_between(steps, values, a, b, i) ==> seg.min.rank() <= values[i].rank()
                        <= seg.max.rank()
            }
        }),
{
    let n = shorter(steps.len(), values.len());
    let own = values_between(steps, values, a, b, n);
    lemma_values_between(steps, values, a, b, n);
    value::finite_range_bounds(own);
    match value::finite_range(own) {
        None => {
            assert forall|i: int| !(#[trigger] counts_between(steps, values, a, b, i)) by {
                if counts_between(steps, values, a, b, i) {
                    assert(a <= steps[i] <= b);
                    assert(own.contains(values[i]));
                    let p = choose|p: int| 0 <= p < own.len() && own[p] == values[i];
                    assert(!own[p].finite());
                }
            }
        },
        Some((lo, hi)) => {
            assert(own.contains(lo));
            let i = choose|i: int| 0 <= i < n && a <= #[trigger] steps[i] <= b && values[i] == lo;
            assert(counts_between(steps, values, a, b, i));
            assert(own.contains(hi));
            let j = choose|j: int| 0 <= j < n && a <= #[trigger] steps[j] <= b && values[j] == hi;
            assert(counts_between(steps, values, a, b, j));
            assert forall|i: int| #[trigger] counts_between(steps, values, a, b, i) implies lo.rank()
                <= values[i].rank() <= hi.rank() by {
                assert(a <= steps[i] <= b);
                assert(own.contains(values[i]));
                let p = choose|p: int| 0 <= p < own.len() && own[p] == values[i];
                assert(own[p].finite());
            }
        },
    }
}

/// A segment is named after the mark that ends it, and the last one is the current.
pub proof fn segments_are_named_after_their_marks(marks: Seq<Mark>)
    ensures
        segment_labels(marks).len() == marks.len() + 1,
        forall|i: int|
            0 <= i < marks.len() ==> #[trigger] segment_labels(marks)[i] == marks[i].label,
        segment_labels(marks)[marks.len() as int] == "current"@,
{
}

/// A chart is split at the stages, or at the checkpoints where there are no stages: at
/// all of them that lie strictly within its window, in order.
pub proof fn charts_split_at_marks_inside(s: UiData, s0: u64, s1: u64)
    ensures
        chart_marks(s, s0, s1) == (if s.stages.len() > 0 {
            s.stages
        } else {
            s.checkpoints
        }).filter(|m: Mark| s0 < m.step && m.step < s1),
{
    let marks = if s.stages.len() > 0 {
        s.stages
    } else {
        s.checkpoints
    };
    lemma_marks_inside(marks, s0, s1, marks.len() as int);
    assert(marks.take(marks.len() as int) =~= marks);
}

proof fn lemma_marks_inside(marks: Seq<Mark>, s0: u64, s1: u64, k: int)
    requires
        0 <= k <= marks.len(),
    ensures
        marks_inside(marks, s0, s1, k) == marks.take(k).filter(
            |m: Mark| s0 < m.step && m.step < s1,
        ),
    decreases k,
{
    reveal(Seq::filter);
    if k > 0 {
        lemma_marks_inside(marks, s0, s1, k - 1);
        assert(marks.take(k).drop_last() =~= marks.take(k - 1));
        assert(marks.take(k).last() == marks[k - 1]);
    } else {
        assert(marks.take(0) =~= Seq::<Mark>::empty());
    }
}

#[verifier::spinoff_prover]
proof fn lemma_clipped(steps: Seq<u64>, values: Seq<Real>, s0: u64, s1: u64, k: int)
    requires
        0 <= k <= shorter(steps.len(), values.len()),
    ensures
        ({
            let kept = clipped(steps, values, s0, s1, k);
            &&& kept.0.len() == kept.1.len()
            &&& side_by_side(kept.0, kept.1) == side_by_side(steps, values).take(k).filter(
                |p: (u64, Real)| s0 <= p.0 <= s1,
            )
        }),
    decreases k,
{
    reveal(Seq::filter);
    let all = side_by_side(steps, values);
    let within = |p: (u64, Real)| s0 <= p.0 <= s1;
    let kept = clipped(steps, values, s0, s1, k);
    if k > 0 {
        lemma_clipped(steps, values, s0, s1, k - 1);
        assert(all.take(k).drop_last() =~= all.take(k - 1));
        assert(all.take(k).last() == (steps[k - 1], values[k - 1]));
        let before = clipped(steps, values, s0, s1, k - 1);
        if within((steps[k - 1], values[k - 1])) {
            assert(side_by_side(kept.0, kept.1) =~= side_by_side(before.0, before.1).push(
                (steps[k - 1], values[k - 1]),
            ));
        }
    } else {
        assert(all.take(0) =~= Seq::<(u64, Real)>::empty());
        assert(side_by_side(kept.0, kept.1) =~= Seq::<(u64, Real)>::empty());
    }
}

/// A clipped series holds exactly the points within the window, in order.
pub proof fn clipping_keeps_the_window(steps: Seq<u64>, values: Seq<Real>, s0: u64, s1: u64)
    ensures
        ({
            let kept = clipped(steps, values, s0, s1, shorter(steps.len(), values.len()));
            &&& kept.0.len() == kept.1.len()
            &&& side_by_side(kept.0, kept.1) == side_by_side(steps, values).filter(
                |p: (u64, Real)| s0 <= p.0 <= s1,
            )
        }),
{
    let n = shorter(steps.len(), values.len());
    lemma_clipped(steps, values, s0, s1, n);
    assert(side_by_side(steps, values).take(n) =~= side_by_side(steps, values));
}

/// The baseline of a metric is the first series of that name, clipped to the window and
/// smoothed; there is none where no series has the name.
#[verifier::spinoff_prover]
pub proof fn baselines_go_by_name(
    baseline: Seq<ui::BaselineData>,
    label: Seq<char>,
    s0: u64,
    s1: u64,
    blend: spec_fn(Real, Real, usize) -> Real,
)
    ensures
        baseline_for(baseline, label, s0, s1, blend) is None <==> forall|i: int|
            0 <= i < baseline.len() ==> (#[trigger] baseline[i]).label != label,
        forall|i: int|
            0 <= i < baseline.len() && (#[trigger] baseline[i]).label == label && (forall|j: int|
                0 <= j < i ==> (#[trigger] baseline[j]).label != label) ==> baseline_for(
                baseline,
                label,
                s0,
                s1,
                blend,
            ) == Some(
                {
                    let n = shorter(baseline[i].steps.len(), baseline[i].values.len());
                    let c = clipped(baseline[i].steps, baseline[i].values, s0, s1, n);
                    (c.0, smoothed(c.1, blend))
                },
            ),
{
    lemma_baseline_position(baseline, label, 0);
    let p = baseline_position(baseline, label, 0);
    assert forall|i: int|
        0 <= i < baseline.len() && (#[trigger] baseline[i]).label == label && (forall|j: int|
            0 <= j < i ==> (#[trigger] baseline[j]).label != label) implies p == i by {
        if p < i {
            assert(baseline[p].label != label);
        } else if i < p {
            assert(baseline[i].label != label);
        }
    }
}

proof fn lemma_baseline_position(baseline: Seq<ui::BaselineData>, label: Seq<char>, i: int)
    requires
        0 <= i <= baseline.len(),
    ensures
        i <= baseline_position(baseline, label, i) <= baseline.len(),
        baseline_position(baseline, label, i) < baseline.len() ==> baseline[baseline_position(
            baseline,
            label,
            i,
        )].label == label,
        forall|j: int|
            i <= j < baseline_position(baseline, label, i) ==> (#[trigger] baseline[j]).label
                != label,
    decreases baseline.len() - i,
{
    if i < baseline.len() && baseline[i].label != label {
        lemma_baseline_position(baseline, label, i + 1);
    }
}

/// A smoothed series has a value for each value of the series: the running average up to
/// it, over the span that fits the whole series.
pub proof fn smoothed_series_keep_their_length(
    values: Seq<Real>,
    blend: spec_fn(Real, Real, usize) -> Real,
    i: int,
)
    requires
        0 <= i < values.len(),
    ensures
        smoothed(values, blend).len() == values.len(),
        ({
            let span = chart::ema_span(values.len() as int) as usize;
            let before = if i == 0 {
                value::no_value()
            } else {
                smoothed(values, blend)[i - 1]
            };
            let after = smoothed(values, blend)[i];
            &&& !values[i].finite() ==> after == before
            &&& values[i].finite() && !before.finite() ==> after == values[i]
            &&& values[i].finite() && before.finite() ==> after == blend(values[i], before, span)
        }),
{
    let span = chart::ema_span(values.len() as int) as usize;
    chart::averages_take_in_every_finite_value(values, span, blend, i);
    if i > 0 {
        assert(smoothed(values, blend)[i - 1] == chart::running_average(values, span, blend, i));
    }
}

/// The cards show every metric where it stands: its name and latest value, accented when
/// it is the selected one, and a gap behind each.
#[verifier::spinoff_prover]
pub proof fn cards_show_every_metric(s: UiData, show: spec_fn(Real) -> Seq<char>, k: int, i: int)
    requires
        0 <= i < k <= s.metrics.len(),
    ensures
        cards(s, show, k).len() == 2 * k,
        cards(s, show, k)[2 * i].text == s.metrics[i].label + "="@ + show(s.metrics[i].latest),
        cards(s, show, k)[2 * i].style.bold <==> i == s.selected,
        cards(s, show, k)[2 * i].style.fg == Some(
            if i == s.selected {
                TERRACOTTA
            } else {
                CREAM
            },
        ),
        cards(s, show, k)[2 * i + 1].text == "   "@,
    decreases k,
{
    if i < k - 1 {
        cards_show_every_metric(s, show, k - 1, i);
    } else {
        lemma_cards_len(s, show, k - 1);
    }
}

proof fn lemma_cards_len(s: UiData, show: spec_fn(Real) -> Seq<char>, k: int)
    requires
        0 <= k,
    ensures
        cards(s, show, k).len() == 2 * k,
    decreases k,
{
    if k > 0 {
        lemma_cards_len(s, show, k - 1);
    }
}

/// The header tells the project, the step with the total where one is known, the phase
/// and the status: a finished run is finished even while paused.
#[verifier::spinoff_prover]
pub proof fn headers_tell_the_state(s: UiData)
    ensures
        line_text(header_line(s)) == s.project + "  "@ + progress_text(s.step, s.total_steps)
            + "  "@ + phase_name(s.phase) + "  "@ + status_text(s.finished, s.paused),
        s.finished ==> status_text(s.finished, s.paused) == "finished"@,
        !s.finished && s.paused ==> status_text(s.finished, s.paused) == "paused"@,
        !s.finished && !s.paused ==> status_text(s.finished, s.paused) == "running"@,
        s.total_steps matches Some(t) && t > 0 ==> progress_text(s.step, s.total_steps) == "step "@
            + text::decimal(s.step as nat) + "/"@ + text::decimal(s.total_steps->0 as nat),
        (s.total_steps is None || s.total_steps->0 == 0) ==> progress_text(s.step, s.total_steps)
            == "step "@ + text::decimal(s.step as nat),
{
    let line = header_line(s);
    reveal_with_fuel(line_text, 8);
    let l6 = line.drop_last();
    let l5 = l6.drop_last();
    let l4 = l5.drop_last();
    let l3 = l4.drop_last();
    let l2 = l3.drop_last();
    let l1 = l2.drop_last();
    assert(l1.drop_last() =~= Seq::<RunView>::empty());
    assert(l1.last() == line[0]);
    assert(l2.last() == line[1]);
    assert(l3.last() == line[2]);
    assert(l4.last() == line[3]);
    assert(l5.last() == line[4]);
    assert(l6.last() == line[5]);
    assert(line.last() == line[6]);
    assert(line_text(line) =~= s.project + "  "@ + progress_text(s.step, s.total_steps) + "  "@
        + phase_name(s.phase) + "  "@ + status_text(s.finished, s.paused));
}

/// The alert strip shows the latest alert, and calm only where there is none.
pub proof fn the_latest_alert_is_shown(s: UiData)
    ensures
        s.alerts.len() > 0 ==> {
            let latest = s.alerts[s.alerts.len() - 1];
            let line = alert_line(s);
            &&& line.text == latest.message
            &&& latest.severity is Critical ==> line.style.fg == Some(TERRACOTTA)
            &&& latest.severity is Warning ==> line.style.fg == Some(AMBER)
            &&& latest.severity is Info ==> line.style.fg == Some(WARM_GRAY)
        },
        s.alerts.len() == 0 ==> alert_line(s).text == "no alerts — all calm"@,
{
}

/// A border takes one cell on each side, and a length too short for it leaves nothing.
pub proof fn borders_take_two_cells(len: u16)
    ensures
        len >= 2 ==> inner(len) + 2 == len,
        len < 2 ==> inner(len) == 0,
{
}

/// Without marks the chart pane shows the smoothed curve of the selected metric over the
/// whole window of its steps, on the axis that fits it, and tells its name and latest
/// value; a curve that is drawn is never covered.
#[verifier::spinoff_prover]
pub proof fn chart_panes_show_the_selected_metric(
    s: UiData,
    m: PanelMath,
    width: int,
    height: int,
    r: int,
    c: int,
)
    requires
        s.selected < s.metrics.len(),
        0 <= r < height,
        0 <= c < width,
        ({
            let steps = s.metrics[s.selected as int].steps;
            &&& steps.len() > 0
            &&& steps.len() == s.metrics[s.selected as int].history.len()
            &&& chart_marks(s, steps[0], steps.last()).len() == 0
        }),
    ensures
        ({
            let metric = s.metrics[s.selected as int];
            let history = smoothed(metric.history, m.blend);
            let s0 = metric.steps[0];
            let s1 = metric.steps.last();
            let choice = axis_choice(
                history,
                baseline_for(s.baseline, metric.label, s0, s1, m.blend),
            );
            let (lo, hi) = choice.axis;
            let curve = chart::step_chart(
                m.chart,
                history,
                metric.steps,
                width,
                height,
                s0,
                s1,
                lo,
                hi,
            );
            let pane = chart_panel(s, m, width, height);
            let head = metric.label + " (latest "@ + (m.show)(metric.latest) + ")"@;
            &&& pane.lines.len() == height
            &&& cells_in(pane.lines[r]).len() == width
            &&& curve.rows[r][c] != BRAILLE_BLANK ==> cells_in(pane.lines[r])[c].glyph
                == curve.rows[r][c]
            &&& head.is_prefix_of(pane.title)
            &&& choice.base is None && !choice.off_scale ==> pane.title == head
            &&& choice.off_scale ==> pane.title == head + "  ·  baseline off-scale"@
            &&& choice.base matches Some((bs, bv)) ==> {
                let under = chart::step_chart(m.chart, bv, bs, width, height, s0, s1, lo, hi);
                &&& pane.title == head + "  ·  ╌ baseline"@
                &&& curve.rows[r][c] == BRAILLE_BLANK && under.rows[r][c] != BRAILLE_BLANK
                    ==> cells_in(pane.lines[r])[c].glyph == under.rows[r][c]
            }
        }),
{
    let metric = s.metrics[s.selected as int];
    let history = smoothed(metric.history, m.blend);
    let s0 = metric.steps[0];
    let s1 = metric.steps.last();
    let choice = axis_choice(history, baseline_for(s.baseline, metric.label, s0, s1, m.blend));
    let curve = chart::step_chart(
        m.chart,
        history,
        metric.steps,
        width,
        height,
        s0,
        s1,
        choice.axis.0,
        choice.axis.1,
    );
    let base = match choice.base {
        Some((bs, bv)) => Some(
            chart::step_chart(
                m.chart,
                bv,
                bs,
                width,
                height,
                s0,
                s1,
                choice.axis.0,
                choice.axis.1,
            ),
        ),
        None => None,
    };
    let pane = chart_panel(s, m, width, height);
    let head = chart_head(metric.label, (m.show)(metric.latest));
    assert(curve.rows.len() == height);
    assert(curve.rows[r].len() == width);
    assert(curve.col_steps.len() == width);
    composed_charts_layer_their_curves(curve, base, s.phases, s.checkpoints, r, c);
    assert(pane.title.subrange(0, head.len() as int) =~= head);
}

/// The line of cards holds the cards of all metrics, or one note while there are none.
pub proof fn card_lines_hold_all_cards(s: UiData, show: spec_fn(Real) -> Seq<char>)
    ensures
        s.metrics.len() > 0 ==> cards_line(s, show) == cards(s, show, s.metrics.len() as int),
        s.metrics.len() == 0 ==> cards_line(s, show).len() == 1 && cards_line(s, show)[0].text
            == "waiting for metrics…"@,
{
}

/// With marks the chart pane shows the smoothed curve of the selected metric split at
/// them, each part on an axis of its own, and its title names the parts in order.
#[verifier::spinoff_prover]
pub proof fn chart_panes_show_the_parts_of_a_run(
    s: UiData,
    m: PanelMath,
    width: int,
    height: int,
    r: int,
    c: int,
)
    requires
        s.selected < s.metrics.len(),
        0 <= r < height,
        0 <= c < width,
        ({
            let steps = s.metrics[s.selected as int].steps;
            &&& steps.len() > 0
            &&& steps.len() == s.metrics[s.selected as int].history.len()
            &&& chart_marks(s, steps[0], steps.last()).len() > 0
        }),
    ensures
        ({
            let metric = s.metrics[s.selected as int];
            let history = smoothed(metric.history, m.blend);
            let s0 = metric.steps[0];
            let s1 = metric.steps.last();
            let marks = chart_marks(s, s0, s1);
            let curve = chart::segment_chart(
                m.chart,
                history,
                metric.steps,
                width,
                height,
                s0,
                s1,
                segments_at(history, metric.steps, s0, s1, marks),
            );
            let pane = chart_panel(s, m, width, height);
            let head = metric.label + " (latest "@ + (m.show)(metric.latest) + ")"@;
            &&& pane.lines.len() == height
            &&& cells_in(pane.lines[r]).len() == width
            &&& curve.rows[r][c] != BRAILLE_BLANK ==> cells_in(pane.lines[r])[c].glyph
                == curve.rows[r][c]
            &&& pane.title == head + "  ·  "@ + text::join_texts(
                Seq::new(
                    marks.len() + 1,
                    |i: int|
                        if i < marks.len() {
                            marks[i].label
                        } else {
                            "current"@
                        },
                ),
                " │ "@,
            )
        }),
{
    let metric = s.metrics[s.selected as int];
    let history = smoothed(metric.history, m.blend);
    let s0 = metric.steps[0];
    let s1 = metric.steps.last();
    let marks = chart_marks(s, s0, s1);
    let curve = chart::segment_chart(
        m.chart,
        history,
        metric.steps,
        width,
        height,
        s0,
        s1,
        segments_at(history, metric.steps, s0, s1, marks),
    );
    assert(curve.rows.len() == height);
    assert(curve.rows[r].len() == width);
    assert(curve.col_steps.len() == width);
    composed_charts_layer_their_curves(curve, None, s.phases, s.checkpoints, r, c);
    assert(segment_labels(marks) =~= Seq::new(
        marks.len() + 1,
        |i: int|
            if i < marks.len() {
                marks[i].label
            } else {
                "current"@
            },
    ));
}

/// Training has no tint and every other phase has its own, and each phase goes by its
/// name.
pub proof fn phases_look_different(a: Phase, b: Phase)
    ensures
        phase_tint(a) is None <==> a == Phase::Train,
        phase_tint(a) == phase_tint(b) ==> a == b,
        phase_name(Phase::Train) == "Train"@,
        phase_name(Phase::Eval) == "Eval"@,
        phase_name(Phase::Test) == "Test"@,
        phase_name(Phase::Checkpoint) == "Checkpoint"@,
        phase_name(Phase::Warmup) == "Warmup"@,
{
}

} // verus!
