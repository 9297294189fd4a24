//! What the commands print: the list of runs and the comparison of two.
use crate::base::named::NamedValues;
use crate::base::path;
use crate::base::text;
use crate::base::value::Real;
use crate::store::export;
use crate::store::runs;
use crate::store::runs::RunInfo;
use vstd::prelude::*;
use vstd::string::*;

verus! {

/// Rows of strings as rows of texts.
pub open spec fn row_views(rows: Seq<Vec<String>>) -> Seq<Seq<Seq<char>>> {
    Seq::new(rows.len(), |i: int| text::texts(rows[i]@))
}

/// The larger of two lengths.
pub open spec fn wider(a: nat, b: nat) -> nat {
    if a < b {
        b
    } else {
        a
    }
}

/// The width of column `c` over the header and the first `k` rows.
pub open spec fn column_width(
    headers: Seq<Seq<char>>,
    rows: Seq<Seq<Seq<char>>>,
    c: int,
    k: int,
) -> nat
    decreases k,
{
    if k <= 0 {
        headers[c].len()
    } else {
        wider(column_width(headers, rows, c, k - 1), rows[k - 1][c].len())
    }
}

/// The widths of all columns.
pub open spec fn column_widths(headers: Seq<Seq<char>>, rows: Seq<Seq<Seq<char>>>) -> Seq<nat> {
    Seq::new(headers.len(), |c: int| column_width(headers, rows, c, rows.len() as int))
}

/// The space behind a cell, up to the width of its column.
pub open spec fn padding(cell: Seq<char>, width: nat) -> Seq<char> {
    text::run_of(
        ' ',
        if cell.len() < width {
            (width - cell.len()) as nat
        } else {
            0
        },
    )
}

/// The first `k` cells of a line: two spaces between columns, and every cell but
/// the last padded to the width of its column.
pub open spec fn line_text(cells: Seq<Seq<char>>, widths: Seq<nat>, k: int) -> Seq<char>
    decreases k,
{
    if k <= 0 {
        Seq::empty()
    } else {
        let gap = if k > 1 {
            seq![' ', ' ']
        } else {
            Seq::empty()
        };
        let pad = if k < cells.len() {
            padding(cells[k - 1], widths[k - 1])
        } else {
            Seq::empty()
        };
        line_text(cells, widths, k - 1) + gap + cells[k - 1] + pad
    }
}

/// The header line and the first `k` rows of a table.
pub open spec fn table_lines(
    headers: Seq<Seq<char>>,
    rows: Seq<Seq<Seq<char>>>,
    widths: Seq<nat>,
    k: int,
) -> Seq<char>
    decreases k,
{
    if k <= 0 {
        line_text(headers, widths, headers.len() as int) + seq!['\n']
    } else {
        table_lines(headers, rows, widths, k - 1) + line_text(
            rows[k - 1],
            widths,
            rows[k - 1].len() as int,
        ) + seq!['\n']
    }
}

/// A table.
pub open spec fn table_text(headers: Seq<Seq<char>>, rows: Seq<Seq<Seq<char>>>) -> Seq<char> {
    table_lines(headers, rows, column_widths(headers, rows), rows.len() as int)
}

fn push_line(out: &mut String, cells: &Vec<String>, widths: &Vec<usize>)
    requires
        cells@.len() == widths@.len(),
    ensures
        final(out)@ == old(out)@ + line_text(
            text::texts(cells@),
            Seq::new(widths@.len(), |c: int| widths@[c] as nat),
            cells@.len() as int,
        ) + seq!['\n'],
{
    let ghost start = out@;
    let ghost cs = text::texts(cells@);
    let ghost ws = Seq::new(widths@.len(), |c: int| widths@[c] as nat);
    let mut i: usize = 0;
    assert(out@ =~= start + line_text(cs, ws, 0));
    while i < cells.len()
        invariant
            i <= cells@.len() == widths@.len(),
            cs == text::texts(cells@),
            ws == Seq::new(widths@.len(), |c: int| widths@[c] as nat),
            out@ == start + line_text(cs, ws, i as int),
        decreases cells.len() - i,
    {
        if i > 0 {
            out.push(' ');
            out.push(' ');
        }
        out.append(cells[i].as_str());
        if i + 1 < cells.len() {
            let n: usize = cells[i].as_str().unicode_len();
            if n < widths[i] {
                text::push_run(out, ' ', widths[i] - n);
            }
        }
        i = i + 1;
        assert(out@ =~= start + line_text(cs, ws, i as int));
    }
    out.push('\n');
    assert(out@ =~= start + line_text(cs, ws, cs.len() as int) + seq!['\n']);
}

/// Whether every row has a cell for each header.
pub open spec fn rectangular(headers: Seq<Seq<char>>, rows: Seq<Seq<Seq<char>>>) -> bool {
    forall|i: int| 0 <= i < rows.len() ==> (#[trigger] rows[i]).len() == headers.len()
}

/// A table: columns as wide as their widest cell, in characters.
pub fn render_table(headers: &Vec<String>, rows: &Vec<Vec<String>>) -> (out: String)
    requires
        rectangular(text::texts(headers@), row_views(rows@)),
    ensures
        out@ == table_text(text::texts(headers@), row_views(rows@)),
{
    let ghost hs = text::texts(headers@);
    let ghost rs = row_views(rows@);
    let mut widths: Vec<usize> = Vec::new();
    let mut c: usize = 0;
    while c < headers.len()
        invariant
            c <= headers@.len(),
            hs == text::texts(headers@),
            rs == row_views(rows@),
            rectangular(hs, rs),
            widths@.len() == c,
            forall|j: int|
                0 <= j < c ==> #[trigger] widths@[j] as nat == column_width(
                    hs,
                    rs,
                    j,
                    rs.len() as int,
                ),
        decreases headers.len() - c,
    {
        let mut w: usize = headers[c].as_str().unicode_len();
        let mut k: usize = 0;
        while k < rows.len()
            invariant
                k <= rows@.len(),
                c < headers@.len(),
                hs == text::texts(headers@),
                rs == row_views(rows@),
                rectangular(hs, rs),
                w as nat == column_width(hs, rs, c as int, k as int),
            decreases rows.len() - k,
        {
            assert(rs[k as int].len() == hs.len());
            let n: usize = rows[k][c].as_str().unicode_len();
            assert(n == rs[k as int][c as int].len());
            if w < n {
                w = n;
            }
            k = k + 1;
        }
        widths.push(w);
        c = c + 1;
    }
    let ghost ws = column_widths(hs, rs);
    assert(Seq::new(widths@.len(), |j: int| widths@[j] as nat) =~= ws);
    let mut out: String = String::new();
    push_line(&mut out, headers, &widths);
    assert(out@ =~= table_lines(hs, rs, ws, 0));
    let mut k: usize = 0;
    while k < rows.len()
        invariant
            k <= rows@.len(),
            hs == text::texts(headers@),
            rs == row_views(rows@),
            rectangular(hs, rs),
            widths@.len() == hs.len(),
            Seq::new(widths@.len(), |j: int| widths@[j] as nat) == ws,
            out@ == table_lines(hs, rs, ws, k as int),
        decreases rows.len() - k,
    {
        assert(rs[k as int].len() == hs.len());
        push_line(&mut out, &rows[k], &widths);
        k = k + 1;
    }
    out
}

/// Where column `c` begins in every line of a table.
pub open spec fn column_start(widths: Seq<nat>, c: int) -> nat
    decreases c,
{
    if c <= 0 {
        0
    } else {
        column_start(widths, c - 1) + widths[c - 1] + 2
    }
}

proof fn lemma_line_start(cells: Seq<Seq<char>>, widths: Seq<nat>, c: int)
    requires
        0 <= c < cells.len(),
        cells.len() == widths.len(),
        forall|i: int| 0 <= i < cells.len() ==> (#[trigger] cells[i]).len() <= widths[i],
    ensures
        line_text(cells, widths, c).len() + (if c > 0 {
            2int
        } else {
            0
        }) == column_start(widths, c),
    decreases c,
{
    if c > 0 {
        lemma_line_start(cells, widths, c - 1);
        assert(cells[c - 1].len() <= widths[c - 1]);
    }
}

proof fn lemma_line_prefix(cells: Seq<Seq<char>>, widths: Seq<nat>, c: int, k: int)
    requires
        0 <= c <= k <= cells.len(),
    ensures
        line_text(cells, widths, c).is_prefix_of(line_text(cells, widths, k)),
    decreases k,
{
    if c < k {
        lemma_line_prefix(cells, widths, c, k - 1);
        assert(line_text(cells, widths, k - 1).is_prefix_of(line_text(cells, widths, k)));
    }
}

proof fn lemma_width_covers(headers: Seq<Seq<char>>, rows: Seq<Seq<Seq<char>>>, c: int, r: int, k: int)
    requires
        -1 <= r < k <= rows.len(),
        0 <= k,
    ensures
        headers[c].len() <= column_width(headers, rows, c, k),
        r >= 0 ==> rows[r][c].len() <= column_width(headers, rows, c, k),
    decreases k,
{
    if k > 0 {
        lemma_width_covers(headers, rows, c, if r == k - 1 { -1 } else { r }, k - 1);
    }
}

/// Columns line up: in every row the cell of a column begins at the same
/// character, the one that the widths alone determine.
pub proof fn columns_line_up(headers: Seq<Seq<char>>, rows: Seq<Seq<Seq<char>>>, r: int, c: int)
    requires
        rectangular(headers, rows),
        0 <= r < rows.len(),
        0 <= c < headers.len(),
    ensures
        ({
            let widths = column_widths(headers, rows);
            let line = line_text(rows[r], widths, rows[r].len() as int);
            let start = column_start(widths, c) as int;
            &&& start + rows[r][c].len() <= line.len()
            &&& line.subrange(start, start + rows[r][c].len()) == rows[r][c]
        }),
{
    let widths = column_widths(headers, rows);
    let cells = rows[r];
    assert(cells.len() == headers.len());
    assert forall|i: int| 0 <= i < cells.len() implies (#[trigger] cells[i]).len() <= widths[i] by {
        lemma_width_covers(headers, rows, i, r, rows.len() as int);
    }
    lemma_line_start(cells, widths, c);
    lemma_line_prefix(cells, widths, c + 1, cells.len() as int);
    let line = line_text(cells, widths, cells.len() as int);
    let part = line_text(cells, widths, c + 1);
    let start = column_start(widths, c) as int;
    assert(part.subrange(start, start + cells[c].len()) =~= cells[c]);
    assert(line.subrange(start, start + cells[c].len()) =~= part.subrange(
        start,
        start + cells[c].len(),
    ));
}

/// The cells of a run: its directory, its project, and its steps, status and
/// duration as far as they are known.
pub open spec fn run_cells(run: RunInfo, show: spec_fn(Real) -> Seq<char>) -> Seq<Seq<char>> {
    seq![
        run.dir_name@,
        run.project@,
        match run.steps {
            Some(n) => text::decimal(n as nat),
            None => "-"@,
        },
        match run.reason {
            Some(reason) => reason@,
            None => "running"@,
        },
        match run.duration_secs {
            Some(d) => show(d) + seq!['s'],
            None => "-"@,
        },
    ]
}

/// The list of runs.
pub open spec fn runs_text(list: Seq<RunInfo>, show: spec_fn(Real) -> Seq<char>) -> Seq<char> {
    if list.len() == 0 {
        "no runs found\n"@
    } else {
        table_text(
            seq!["RUN"@, "PROJECT"@, "STEPS"@, "STATUS"@, "DURATION"@],
            Seq::new(list.len(), |i: int| run_cells(list[i], show)),
        )
    }
}

fn cells_of_run<F: Fn(Real) -> String>(run: &RunInfo, show: &F) -> (cells: Vec<String>)
    requires
        forall|v: Real| call_requires(*show, (v,)),
    ensures
        cells@.len() == 5,
        forall|g: spec_fn(Real) -> Seq<char>| #[trigger]
            export::shows(*show, g) ==> text::texts(cells@) == run_cells(*run, g),
{
    let mut cells: Vec<String> = Vec::new();
    cells.push(run.dir_name.clone());
    cells.push(run.project.clone());
    match run.steps {
        Some(n) => cells.push(text::decimal_text(n)),
        None => cells.push("-".to_owned()),
    }
    match &run.reason {
        Some(reason) => cells.push(reason.clone()),
        None => cells.push("running".to_owned()),
    }
    match run.duration_secs {
        Some(d) => {
            let mut shown: String = show(d);
            shown.push('s');
            cells.push(shown);
        },
        None => cells.push("-".to_owned()),
    }
    proof {
        assert forall|g: spec_fn(Real) -> Seq<char>| #[trigger]
            export::shows(*show, g) implies text::texts(cells@) == run_cells(*run, g) by {
            if let Some(d) = run.duration_secs {
                assert(cells@[4]@ =~= g(d) + seq!['s']);
            }
            assert(text::texts(cells@) =~= run_cells(*run, g));
        }
    }
    cells
}

/// The list of runs as a table, or a note that there are none. `show` prints a
/// duration.
pub fn format_runs<F: Fn(Real) -> String>(list: &Vec<RunInfo>, show: &F) -> (out: String)
    requires
        forall|v: Real| call_requires(*show, (v,)),
    ensures
        list@.len() == 0 ==> out@ == "no runs found\n"@,
        forall|g: spec_fn(Real) -> Seq<char>| #[trigger]
            export::shows(*show, g) ==> out@ == runs_text(list@, g),
{
    if list.len() == 0 {
        return "no runs found\n".to_owned();
    }
    let mut headers: Vec<String> = Vec::new();
    headers.push("RUN".to_owned());
    headers.push("PROJECT".to_owned());
    headers.push("STEPS".to_owned());
    headers.push("STATUS".to_owned());
    headers.push("DURATION".to_owned());
    let ghost hs = seq!["RUN"@, "PROJECT"@, "STEPS"@, "STATUS"@, "DURATION"@];
    assert(text::texts(headers@) =~= hs);
    let mut rows: Vec<Vec<String>> = Vec::new();
    let mut i: usize = 0;
    while i < list.len()
        invariant
            i <= list@.len(),
            rows@.len() == i,
            forall|v: Real| call_requires(*show, (v,)),
            forall|k: int| 0 <= k < i ==> (#[trigger] rows@[k])@.len() == 5,
            forall|g: spec_fn(Real) -> Seq<char>, k: int|
                #![trigger export::shows(*show, g), rows@[k]]
                export::shows(*show, g) && 0 <= k < i ==> text::texts(rows@[k]@) == run_cells(
                    list@[k],
                    g,
                ),
        decreases list.len() - i,
    {
        rows.push(cells_of_run(&list[i], show));
        i = i + 1;
    }
    assert(rectangular(hs, row_views(rows@)));
    proof {
        assert forall|g: spec_fn(Real) -> Seq<char>| #[trigger]
            export::shows(*show, g) implies row_views(rows@) == Seq::new(
            list@.len(),
            |k: int| run_cells(list@[k], g),
        ) by {
            assert forall|k: int| 0 <= k < list@.len() implies #[trigger] row_views(rows@)[k]
                == run_cells(list@[k], g) by {
                assert(text::texts(rows@[k]@) == run_cells(list@[k], g));
            }
            assert(row_views(rows@) =~= Seq::new(list@.len(), |k: int| run_cells(list@[k], g)));
        }
    }
    render_table(&headers, &rows)
}

/// Whether `names` lists a set in ascending order, each name once.
pub open spec fn is_listing(names: Seq<Seq<char>>, set: Set<Seq<char>>) -> bool {
    &&& forall|i: int, j: int|
        0 <= i < j < names.len() ==> #[trigger] text::text_before(names[i], names[j])
    &&& forall|name: Seq<char>| #[trigger] set.contains(name) <==> names.contains(name)
}

/// A set has one listing only.
pub proof fn listings_are_unique(a: Seq<Seq<char>>, b: Seq<Seq<char>>, set: Set<Seq<char>>)
    requires
        is_listing(a, set),
        is_listing(b, set),
    ensures
        a == b,
    decreases a.len(),
{
    if a.len() == 0 {
        if b.len() > 0 {
            assert(b.contains(b[0]));
            assert(set.contains(b[0]));
        }
        assert(a =~= b);
    } else {
        assert(a.contains(a.last()));
        assert(set.contains(a.last()));
        assert(b.contains(a.last()));
        let i = choose|i: int| 0 <= i < b.len() && b[i] == a.last();
        assert(b.contains(b.last()));
        assert(set.contains(b.last()));
        assert(a.contains(b.last()));
        let j = choose|j: int| 0 <= j < a.len() && a[j] == b.last();
        if i < b.len() - 1 {
            assert(text::text_before(b[i], b[b.len() - 1]));
            if j < a.len() - 1 {
                assert(text::text_before(a[j], a[a.len() - 1]));
                text::lemma_text_before_strict(a.last(), b.last());
            } else {
                text::lemma_text_before_strict(a.last(), a.last());
            }
        }
        let x = a.last();
        assert(b.last() == x);
        let a1 = a.drop_last();
        let b1 = b.drop_last();
        let rest = set.remove(x);
        lemma_listing_front(a, set);
        lemma_listing_front(b, set);
        listings_are_unique(a1, b1, rest);
        assert(a =~= a1.push(x));
        assert(b =~= b1.push(x));
    }
}

proof fn lemma_listing_front(names: Seq<Seq<char>>, set: Set<Seq<char>>)
    requires
        is_listing(names, set),
        names.len() > 0,
    ensures
        is_listing(names.drop_last(), set.remove(names.last())),
{
    let front = names.drop_last();
    let rest = set.remove(names.last());
    assert forall|name: Seq<char>| #[trigger] rest.contains(name) <==> front.contains(name) by {
        if rest.contains(name) {
            assert(set.contains(name));
            assert(names.contains(name));
            let i = choose|i: int| 0 <= i < names.len() && names[i] == name;
            assert(front[i] == name);
        }
        if front.contains(name) {
            let i = choose|i: int| 0 <= i < front.len() && front[i] == name;
            assert(names[i] == name);
            assert(names.contains(name));
            assert(set.contains(name));
            assert(text::text_before(names[i], names[names.len() - 1]));
            text::lemma_text_before_strict(name, name);
        }
    }
    assert forall|i: int, j: int| 0 <= i < j < front.len() implies #[trigger] text::text_before(
        front[i],
        front[j],
    ) by {
        assert(text::text_before(names[i], names[j]));
    }
}

/// How two closures print a value and the change from one value to another.
pub open spec fn prints<F: Fn(Real) -> String, D: Fn(Real, Real) -> String>(
    show: F,
    delta: D,
    g: spec_fn(Real) -> Seq<char>,
    d: spec_fn(Real, Real) -> Seq<char>,
) -> bool {
    &&& export::shows(show, g)
    &&& forall|x: Real, y: Real, r: String| call_ensures(delta, (x, y), r) ==> r@ == d(x, y)
}

/// A value, or a dash where there is none.
pub open spec fn value_cell(m: Map<Seq<char>, Real>, name: Seq<char>, g: spec_fn(Real) -> Seq<char>) -> Seq<
    char,
> {
    if m.contains_key(name) {
        g(m[name])
    } else {
        "-"@
    }
}

/// The cells of a metric: its name, its two values, and the change where both
/// runs have it.
pub open spec fn compare_cells(
    name: Seq<char>,
    a: Map<Seq<char>, Real>,
    b: Map<Seq<char>, Real>,
    g: spec_fn(Real) -> Seq<char>,
    d: spec_fn(Real, Real) -> Seq<char>,
) -> Seq<Seq<char>> {
    seq![
        name,
        value_cell(a, name, g),
        value_cell(b, name, g),
        if a.contains_key(name) && b.contains_key(name) {
            d(a[name], b[name])
        } else {
            "-"@
        },
    ]
}

/// The comparison of two runs.
pub open spec fn compare_text(
    run_a: Seq<char>,
    run_b: Seq<char>,
    names: Seq<Seq<char>>,
    a: Map<Seq<char>, Real>,
    b: Map<Seq<char>, Real>,
    g: spec_fn(Real) -> Seq<char>,
    d: spec_fn(Real, Real) -> Seq<char>,
) -> Seq<char> {
    if names.len() == 0 {
        "no metrics found\n"@
    } else {
        table_text(
            seq!["METRIC"@, path::file_name_of(run_a), path::file_name_of(run_b), "\u{394}"@],
            Seq::new(names.len(), |i: int| compare_cells(names[i], a, b, g, d)),
        )
    }
}

fn cell_of<F: Fn(Real) -> String>(v: Option<Real>, show: &F) -> (cell: String)
    requires
        forall|x: Real| call_requires(*show, (x,)),
    ensures
        match v {
            Some(x) => forall|g: spec_fn(Real) -> Seq<char>| #[trigger]
                export::shows(*show, g) ==> cell@ == g(x),
            None => cell@ == "-"@,
        },
{
    match v {
        Some(x) => show(x),
        None => "-".to_owned(),
    }
}

fn cells_of_metric<F: Fn(Real) -> String, D: Fn(Real, Real) -> String>(
    name: &String,
    a: &NamedValues,
    b: &NamedValues,
    show: &F,
    delta: &D,
) -> (cells: Vec<String>)
    requires
        a.wf(),
        b.wf(),
        forall|x: Real| call_requires(*show, (x,)),
        forall|x: Real, y: Real| call_requires(*delta, (x, y)),
    ensures
        cells@.len() == 4,
        forall|g: spec_fn(Real) -> Seq<char>, d: spec_fn(Real, Real) -> Seq<char>| #[trigger]
            prints(*show, *delta, g, d) ==> text::texts(cells@) == compare_cells(
                name@,
                a@,
                b@,
                g,
                d,
            ),
{
    let va: Option<Real> = a.get(name.as_str());
    let vb: Option<Real> = b.get(name.as_str());
    let mut cells: Vec<String> = Vec::new();
    cells.push(name.clone());
    cells.push(cell_of(va, show));
    cells.push(cell_of(vb, show));
    match (va, vb) {
        (Some(x), Some(y)) => cells.push(delta(x, y)),
        _ => cells.push("-".to_owned()),
    }
    proof {
        assert forall|g: spec_fn(Real) -> Seq<char>, d: spec_fn(Real, Real) -> Seq<char>| #[trigger]
            prints(*show, *delta, g, d) implies text::texts(cells@) == compare_cells(
            name@,
            a@,
            b@,
            g,
            d,
        ) by {
            assert(export::shows(*show, g));
            assert(text::texts(cells@) =~= compare_cells(name@, a@, b@, g, d));
        }
    }
    cells
}

fn union_names(a: &NamedValues, b: &NamedValues) -> (names: Vec<String>)
    requires
        a.wf(),
        b.wf(),
    ensures
        is_listing(text::texts(names@), a@.dom().union(b@.dom())),
{
    let mut both: NamedValues = a.clone();
    runs::put_all(&mut both, b);
    assert(both@.dom() =~= a@.dom().union(b@.dom()));
    let mut names: Vec<String> = Vec::new();
    let mut i: usize = 0;
    while i < both.entries.len()
        invariant
            i <= both.entries@.len(),
            names@.len() == i,
            forall|k: int| 0 <= k < i ==> (#[trigger] names@[k])@ == both.entries@[k].0@,
        decreases both.entries.len() - i,
    {
        names.push(both.entries[i].0.clone());
        i = i + 1;
    }
    proof {
        let ns = text::texts(names@);
        assert forall|j: int, k: int| 0 <= j < k < ns.len() implies #[trigger] text::text_before(
            ns[j],
            ns[k],
        ) by {
            assert(text::text_before(both.entries@[j].0@, both.entries@[k].0@));
        }
        assert forall|name: Seq<char>| #[trigger]
            both@.dom().contains(name) <==> ns.contains(name) by {
            if both.has(name) {
                let p = both.position(name);
                assert(ns[p] == name);
            }
            if ns.contains(name) {
                let p = choose|p: int| 0 <= p < ns.len() && ns[p] == name;
                assert(both.entries@[p].0@ == name);
            }
        }
    }
    names
}

/// The final values of two runs side by side, with the change from the first to
/// the second, or a note that there are none. `show` prints a value and `delta`
/// the change from its first argument to its second.
pub fn format_compare<F: Fn(Real) -> String, D: Fn(Real, Real) -> String>(
    run_a: &str,
    run_b: &str,
    a: &NamedValues,
    b: &NamedValues,
    show: &F,
    delta: &D,
) -> (out: String)
    requires
        a.wf(),
        b.wf(),
        forall|x: Real| call_requires(*show, (x,)),
        forall|x: Real, y: Real| call_requires(*delta, (x, y)),
    ensures
        exists|names: Seq<Seq<char>>|
            {
                &&& #[trigger] is_listing(names, a@.dom().union(b@.dom()))
                &&& names.len() == 0 ==> out@ == "no metrics found\n"@
                &&& forall|g: spec_fn(Real) -> Seq<char>, d: spec_fn(Real, Real) -> Seq<char>|
                 #[trigger]
                    prints(*show, *delta, g, d) ==> out@ == compare_text(
                        run_a@,
                        run_b@,
                        names,
                        a@,
                        b@,
                        g,
                        d,
                    )
            },
{
    let names = union_names(a, b);
    let ghost ns = text::texts(names@);
    if names.len() == 0 {
        let note: String = "no metrics found\n".to_owned();
        assert(is_listing(ns, a@.dom().union(b@.dom())));
        return note;
    }
    let mut headers: Vec<String> = Vec::new();
    headers.push("METRIC".to_owned());
    headers.push(path::file_label(run_a));
    headers.push(path::file_label(run_b));
    headers.push("\u{394}".to_owned());
    let ghost hs = seq![
        "METRIC"@,
        path::file_name_of(run_a@),
        path::file_name_of(run_b@),
        "\u{394}"@,
    ];
    assert(text::texts(headers@) =~= hs);
    let mut rows: Vec<Vec<String>> = Vec::new();
    let mut i: usize = 0;
    while i < names.len()
        invariant
            i <= names@.len(),
            a.wf(),
            b.wf(),
            ns == text::texts(names@),
            rows@.len() == i,
            forall|x: Real| call_requires(*show, (x,)),
            forall|x: Real, y: Real| call_requires(*delta, (x, y)),
            forall|k: int| 0 <= k < i ==> (#[trigger] rows@[k])@.len() == 4,
            forall|g: spec_fn(Real) -> Seq<char>, d: spec_fn(Real, Real) -> Seq<char>, k: int|
                #![trigger prints(*show, *delta, g, d), rows@[k]]
                prints(*show, *delta, g, d) && 0 <= k < i ==> text::texts(rows@[k]@)
                    == compare_cells(ns[k], a@, b@, g, d),
        decreases names.len() - i,
    {
        rows.push(cells_of_metric(&names[i], a, b, show, delta));
        i = i + 1;
    }
    assert(rectangular(hs, row_views(rows@)));
    proof {
        assert forall|g: spec_fn(Real) -> Seq<char>, d: spec_fn(Real, Real) -> Seq<char>| #[trigger]
            prints(*show, *delta, g, d) implies row_views(rows@) == Seq::new(
            ns.len(),
            |k: int| compare_cells(ns[k], a@, b@, g, d),
        ) by {
            assert forall|k: int| 0 <= k < ns.len() implies #[trigger] row_views(rows@)[k]
                == compare_cells(ns[k], a@, b@, g, d) by {
                assert(text::texts(rows@[k]@) == compare_cells(ns[k], a@, b@, g, d));
            }
            assert(row_views(rows@) =~= Seq::new(
                ns.len(),
                |k: int| compare_cells(ns[k], a@, b@, g, d),
            ));
        }
    }
    let out = render_table(&headers, &rows);
    assert(is_listing(ns, a@.dom().union(b@.dom())));
    out
}

/// The line of a table: the headers first, then the rows.
pub open spec fn table_line(headers: Seq<Seq<char>>, rows: Seq<Seq<Seq<char>>>, i: int) -> Seq<char> {
    let cells = if i == 0 {
        headers
    } else {
        rows[i - 1]
    };
    line_text(cells, column_widths(headers, rows), cells.len() as int)
}

/// A table is its header line and then one line for each row, in order, each with a line
/// break behind it.
#[verifier::spinoff_prover]
pub proof fn tables_have_a_line_for_each_row(headers: Seq<Seq<char>>, rows: Seq<Seq<Seq<char>>>)
    ensures
        table_text(headers, rows) == text::join_texts(
            Seq::new(rows.len() + 1, |i: int| table_line(headers, rows, i)),
            seq!['\n'],
        ) + seq!['\n'],
{
    lemma_table_lines(headers, rows, rows.len() as int);
}

#[verifier::spinoff_prover]
proof fn lemma_table_lines(headers: Seq<Seq<char>>, rows: Seq<Seq<Seq<char>>>, k: int)
    requires
        0 <= k <= rows.len(),
    ensures
        table_lines(headers, rows, column_widths(headers, rows), k) == text::join_texts(
            Seq::new((k + 1) as nat, |i: int| table_line(headers, rows, i)),
            seq!['\n'],
        ) + seq!['\n'],
    decreases k,
{
    let all = Seq::new((k + 1) as nat, |i: int| table_line(headers, rows, i));
    if k > 0 {
        lemma_table_lines(headers, rows, k - 1);
        let before = Seq::new(k as nat, |i: int| table_line(headers, rows, i));
        assert(all.drop_last() =~= before);
        assert(all.last() == table_line(headers, rows, k));
        assert(table_lines(headers, rows, column_widths(headers, rows), k) =~= text::join_texts(
            all,
            seq!['\n'],
        ) + seq!['\n']);
    } else {
        assert(all[0] == table_line(headers, rows, 0));
    }
}

/// In every line of a table, the headers' as well, each cell stands in its column, blanks
/// alone separate it from the next, and nothing follows the last cell.
#[verifier::spinoff_prover]
pub proof fn cells_stand_apart(headers: Seq<Seq<char>>, rows: Seq<Seq<Seq<char>>>, i: int, c: int)
    requires
        rectangular(headers, rows),
        0 <= i <= rows.len(),
        0 <= c < headers.len(),
    ensures
        ({
            let cells = if i == 0 {
                headers
            } else {
                rows[i - 1]
            };
            let widths = column_widths(headers, rows);
            let line = table_line(headers, rows, i);
            let start = column_start(widths, c) as int;
            let end = start + cells[c].len();
            &&& end <= line.len()
            &&& line.subrange(start, end) == cells[c]
            &&& c == headers.len() - 1 ==> line.len() == end
            &&& c < headers.len() - 1 ==> {
                let next = column_start(widths, c + 1) as int;
                &&& end + 2 <= next <= line.len()
                &&& forall|p: int| end <= p < next ==> #[trigger] line[p] == ' '
            }
        }),
{
    let cells = if i == 0 {
        headers
    } else {
        rows[i - 1]
    };
    let n = cells.len() as int;
    assert(n == headers.len());
    let widths = column_widths(headers, rows);
    assert forall|j: int| 0 <= j < cells.len() implies (#[trigger] cells[j]).len() <= widths[j] by {
        lemma_width_covers(
            headers,
            rows,
            j,
            if i == 0 {
                -1
            } else {
                i - 1
            },
            rows.len() as int,
        );
    }
    let line = table_line(headers, rows, i);
    let start = column_start(widths, c) as int;
    let end = start + cells[c].len();
    lemma_line_start(cells, widths, c);
    lemma_line_prefix(cells, widths, c + 1, n);
    let part = line_text(cells, widths, c + 1);
    assert(part.subrange(start, end) =~= cells[c]);
    assert(line.subrange(start, end) =~= part.subrange(start, end));
    if c < n - 1 {
        let next = column_start(widths, c + 1) as int;
        lemma_line_start(cells, widths, c + 1);
        lemma_line_prefix(cells, widths, c + 2, n);
        let more = line_text(cells, widths, c + 2);
        assert forall|p: int| end <= p < next implies #[trigger] line[p] == ' ' by {
            assert(more[p] == ' ');
            assert(line.subrange(0, more.len() as int)[p] == more[p]);
        }
    }
}

/// A column is as wide as its widest cell, the header among them.
#[verifier::spinoff_prover]
pub proof fn columns_fit_their_widest_cell(
    headers: Seq<Seq<char>>,
    rows: Seq<Seq<Seq<char>>>,
    c: int,
    k: int,
)
    requires
        0 <= k <= rows.len(),
    ensures
        headers[c].len() <= column_width(headers, rows, c, k),
        forall|r: int|
            0 <= r < k ==> (#[trigger] rows[r])[c].len() <= column_width(headers, rows, c, k),
        column_width(headers, rows, c, k) == headers[c].len() || exists|r: int|
            0 <= r < k && (#[trigger] rows[r])[c].len() == column_width(headers, rows, c, k),
    decreases k,
{
    if k > 0 {
        columns_fit_their_widest_cell(headers, rows, c, k - 1);
        let before = column_width(headers, rows, c, k - 1);
        if before < rows[k - 1][c].len() {
            assert(rows[k - 1][c].len() == column_width(headers, rows, c, k));
        } else if before != headers[c].len() {
            let r = choose|r: int| 0 <= r < k - 1 && (#[trigger] rows[r])[c].len() == before;
            assert(rows[r][c].len() == column_width(headers, rows, c, k));
        }
    }
}

/// The line of a run tells its directory, project, steps, status and duration, in that
/// order; what is not known yet is a dash, and a run without a reason is running.
pub proof fn runs_show_what_is_known(run: RunInfo, show: spec_fn(Real) -> Seq<char>)
    ensures
        ({
            let cells = run_cells(run, show);
            &&& cells.len() == 5
            &&& cells[0] == run.dir_name@
            &&& cells[1] == run.project@
            &&& run.steps matches Some(n) ==> cells[2] == text::decimal(n as nat)
            &&& run.steps is None ==> cells[2] == "-"@
            &&& run.reason matches Some(reason) ==> cells[3] == reason@
            &&& run.reason is None ==> cells[3] == "running"@
            &&& run.duration_secs matches Some(d) ==> cells[4] == show(d).push('s')
            &&& run.duration_secs is None ==> cells[4] == "-"@
        }),
{
    if run.duration_secs is Some {
        assert(show(run.duration_secs->0) + seq!['s'] =~= show(run.duration_secs->0).push('s'));
    }
}

/// A comparison shows the value of either run in its own column, a dash where the run
/// lacks the metric, and the change from the first to the second where both have it.
pub proof fn comparisons_show_both_values(
    name: Seq<char>,
    a: Map<Seq<char>, Real>,
    b: Map<Seq<char>, Real>,
    g: spec_fn(Real) -> Seq<char>,
    d: spec_fn(Real, Real) -> Seq<char>,
)
    ensures
        ({
            let cells = compare_cells(name, a, b, g, d);
            &&& cells.len() == 4
            &&& cells[0] == name
            &&& a.contains_key(name) ==> cells[1] == g(a[name])
            &&& !a.contains_key(name) ==> cells[1] == "-"@
            &&& b.contains_key(name) ==> cells[2] == g(b[name])
            &&& !b.contains_key(name) ==> cells[2] == "-"@
            &&& a.contains_key(name) && b.contains_key(name) ==> cells[3] == d(a[name], b[name])
            &&& !(a.contains_key(name) && b.contains_key(name)) ==> cells[3] == "-"@
        }),
{
}

/// Whether `rows` are the lines of runs, one for each and in their order.
pub open spec fn lists_runs(
    rows: Seq<Seq<Seq<char>>>,
    list: Seq<RunInfo>,
    show: spec_fn(Real) -> Seq<char>,
) -> bool {
    &&& rows.len() == list.len()
    &&& forall|i: int| 0 <= i < list.len() ==> #[trigger] rows[i] == run_cells(list[i], show)
}

/// Whether `rows` are the lines of compared metrics, one for each and in their order.
pub open spec fn lists_metrics(
    rows: Seq<Seq<Seq<char>>>,
    names: Seq<Seq<char>>,
    a: Map<Seq<char>, Real>,
    b: Map<Seq<char>, Real>,
    g: spec_fn(Real) -> Seq<char>,
    d: spec_fn(Real, Real) -> Seq<char>,
) -> bool {
    &&& rows.len() == names.len()
    &&& forall|i: int|
        0 <= i < names.len() ==> #[trigger] rows[i] == compare_cells(names[i], a, b, g, d)
}

/// The list of runs is a table of all runs, in the order given, under five headings; and
/// a note where there are none.
pub proof fn every_run_is_listed(list: Seq<RunInfo>, show: spec_fn(Real) -> Seq<char>)
    ensures
        list.len() == 0 ==> runs_text(list, show) == "no runs found\n"@,
        list.len() > 0 ==> exists|rows: Seq<Seq<Seq<char>>>|
            {
                &&& #[trigger] lists_runs(rows, list, show)
                &&& runs_text(list, show) == table_text(
                    seq!["RUN"@, "PROJECT"@, "STEPS"@, "STATUS"@, "DURATION"@],
                    rows,
                )
            },
{
    if list.len() > 0 {
        let rows = Seq::new(list.len(), |i: int| run_cells(list[i], show));
        assert(lists_runs(rows, list, show));
        assert(runs_text(list, show) == table_text(
            seq!["RUN"@, "PROJECT"@, "STEPS"@, "STATUS"@, "DURATION"@],
            rows,
        ));
    }
}

/// A comparison is a table of all the metrics listed, in their order, under the names of
/// the two runs; and a note where there are none.
pub proof fn every_metric_is_compared(
    run_a: Seq<char>,
    run_b: Seq<char>,
    names: Seq<Seq<char>>,
    a: Map<Seq<char>, Real>,
    b: Map<Seq<char>, Real>,
    g: spec_fn(Real) -> Seq<char>,
    d: spec_fn(Real, Real) -> Seq<char>,
)
    ensures
        names.len() == 0 ==> compare_text(run_a, run_b, names, a, b, g, d)
            == "no metrics found\n"@,
        names.len() > 0 ==> exists|rows: Seq<Seq<Seq<char>>>|
            {
                &&& #[trigger] lists_metrics(rows, names, a, b, g, d)
                &&& compare_text(run_a, run_b, names, a, b, g, d) == table_text(
                    seq![
                        "METRIC"@,
                        path::file_name_of(run_a),
                        path::file_name_of(run_b),
                        "\u{394}"@,
                    ],
                    rows,
                )
            },
{
    if names.len() > 0 {
        let rows = Seq::new(names.len(), |i: int| compare_cells(names[i], a, b, g, d));
        assert(lists_metrics(rows, names, a, b, g, d));
        assert(compare_text(run_a, run_b, names, a, b, g, d) == table_text(
            seq!["METRIC"@, path::file_name_of(run_a), path::file_name_of(run_b), "\u{394}"@],
            rows,
        ));
    }
}

} // verus!
