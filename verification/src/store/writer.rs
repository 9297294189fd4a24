//! The two logs of a run and the lines they are made of.
use crate::base::error::EmryError;
use crate::base::named;
use crate::base::named::NamedValues;
use crate::base::path;
use crate::base::text;
use crate::base::types::{MetricRecord, MetricRecordView};
use crate::base::value::Real;
use crate::store::sink::{Record, RecordView};
use vstd::prelude::*;
use vstd::string::*;

verus! {

/// The log of all events.
pub const EVENTS_FILE: &'static str = "events.jsonl";

/// The log of metric rows.
pub const METRICS_FILE: &'static str = "metrics.jsonl";

/// The log that a record belongs to.
pub open spec fn log_of(record: RecordView) -> Seq<char> {
    match record {
        RecordView::Event(_) => EVENTS_FILE@,
        RecordView::Metric(_) => METRICS_FILE@,
    }
}

/// The log that a record belongs to.
pub fn write_record(record: &Record) -> (file: &'static str)
    ensures
        file@ == log_of(record@),
{
    match record {
        Record::Event(_) => EVENTS_FILE,
        Record::Metric(_) => METRICS_FILE,
    }
}

/// What a metric log holds of a row's values: those that are finite.
pub open spec fn finite_part(values: Map<Seq<char>, Real>) -> Map<Seq<char>, Real> {
    Map::new(
        |name: Seq<char>| values.contains_key(name) && values[name].finite(),
        |name: Seq<char>| values[name],
    )
}

/// What a metric log holds of a row. JSON knows only finite numbers, so the values
/// that are not finite are left out, and the row stays readable for everyone. The
/// event log keeps their alerts.
pub fn writable(row: &MetricRecord) -> (r: MetricRecord)
    requires
        row.values.wf(),
    ensures
        r.values.wf(),
        r@ == (MetricRecordView { values: finite_part(row@.values), ..row@ }),
{
    let ghost entries = row.values.entries@;
    let mut values = NamedValues::new();
    let mut k: usize = 0;
    while k < row.values.entries.len()
        invariant
            k <= entries.len(),
            entries == row.values.entries@,
            row.values.wf(),
            values.wf(),
            forall|name: Seq<char>| #[trigger]
                values@.contains_key(name) <==> row@.values.contains_key(name)
                    && row@.values[name].finite() && row.values.position(name) < k,
            forall|name: Seq<char>| #[trigger]
                values@.contains_key(name) ==> values@[name] == row@.values[name],
        decreases entries.len() - k,
    {
        let entry: &(String, Real) = &row.values.entries[k];
        proof {
            named::lemma_entry_is_value(row.values, k as int);
        }
        if entry.1.is_finite() {
            values.insert(entry.0.clone(), entry.1);
        }
        proof {
            assert forall|name: Seq<char>| #[trigger] values@.contains_key(name) <==> (
            row@.values.contains_key(name) && row@.values[name].finite() && row.values.position(
                name,
            ) < k + 1) by {
                if row@.values.contains_key(name) && row.values.position(name) == k {
                    assert(entries[k as int].0@ == name);
                }
            }
        }
        k = k + 1;
    }
    proof {
        assert forall|name: Seq<char>| row@.values.contains_key(name) implies row.values.position(
            name,
        ) < entries.len() by {
            assert(row.values.has(name));
        }
        assert(values@ =~= finite_part(row@.values));
    }
    MetricRecord { step: row.step, epoch: row.epoch, phase: row.phase, values }
}

/// Appends one JSON value and a line break.
pub fn write_line(out: &mut String, json: &str)
    ensures
        final(out)@ == old(out)@ + json@ + seq!['\n'],
{
    out.append(json);
    out.push('\n');
    assert(out@ =~= old(out)@ + json@ + seq!['\n']);
}

/// The lines of a text from position `i` on: what stands between line breaks.
pub open spec fn lines_from(s: Seq<char>, start: int, i: int) -> Seq<Seq<char>>
    decreases s.len() - i,
{
    if i >= s.len() {
        seq![s.subrange(start, s.len() as int)]
    } else if s[i] == '\n' {
        seq![s.subrange(start, i)] + lines_from(s, i + 1, i + 1)
    } else {
        lines_from(s, start, i + 1)
    }
}

/// The lines among the first `k` that are not blank, without the space around
/// them.
pub open spec fn filled_lines(lines: Seq<Seq<char>>, k: int) -> Seq<Seq<char>>
    decreases k,
{
    if k <= 0 {
        Seq::empty()
    } else {
        let before = filled_lines(lines, k - 1);
        if text::trimmed(lines[k - 1]).len() > 0 {
            before.push(text::trimmed(lines[k - 1]))
        } else {
            before
        }
    }
}

proof fn lemma_filled_prefix(a: Seq<Seq<char>>, b: Seq<Seq<char>>, k: int)
    requires
        k <= a.len() <= b.len(),
        forall|i: int| 0 <= i < k ==> a[i] == b[i],
    ensures
        filled_lines(a, k) == filled_lines(b, k),
    decreases k,
{
    if k > 0 {
        lemma_filled_prefix(a, b, k - 1);
    }
}

/// The lines of a log that hold a value: those that are not blank, without the
/// space around them.
pub fn value_lines(log: &str) -> (r: Vec<String>)
    ensures
        ({
            let lines = lines_from(log@, 0, 0);
            text::texts(r@) == filled_lines(lines, lines.len() as int)
        }),
{
    let cs = text::chars_of(log);
    let ghost all = lines_from(log@, 0, 0);
    let ghost mut done: Seq<Seq<char>> = Seq::empty();
    let mut out: Vec<String> = Vec::new();
    let mut line: String = String::new();
    let mut start: usize = 0;
    let mut i: usize = 0;
    assert(text::texts(out@) =~= Seq::<Seq<char>>::empty());
    assert(done + lines_from(cs@, 0, 0) =~= all);
    assert(line@ =~= cs@.subrange(0, 0));
    while i < cs.len()
        invariant
            start <= i <= cs@.len(),
            line@ == cs@.subrange(start as int, i as int),
            all == done + lines_from(cs@, start as int, i as int),
            text::texts(out@) == filled_lines(done, done.len() as int),
        decreases cs.len() - i,
    {
        if cs[i] == '\n' {
            let ghost before = done;
            let ghost rows = text::texts(out@);
            let t = text::trim_text(line.as_str());
            proof {
                done = before.push(line@);
                lemma_filled_prefix(before, done, before.len() as int);
                assert(all =~= done + lines_from(cs@, i + 1, i + 1));
            }
            if !t.as_str().is_empty() {
                let ghost tv = t@;
                out.push(t);
                assert(text::texts(out@) =~= rows.push(tv));
            }
            line = String::new();
            start = i + 1;
        } else {
            line.push(cs[i]);
        }
        i = i + 1;
        assert(line@ =~= cs@.subrange(start as int, i as int));
    }
    let t = text::trim_text(line.as_str());
    let ghost rows = text::texts(out@);
    proof {
        lemma_filled_prefix(done, all, done.len() as int);
        assert(all =~= done.push(line@));
    }
    if !t.as_str().is_empty() {
        let ghost tv = t@;
        out.push(t);
        assert(text::texts(out@) =~= rows.push(tv));
    }
    out
}

/// The metric log that a path stands for: itself, or the log in that directory.
pub fn resolve_metrics(path: &str, is_dir: bool) -> (r: String)
    ensures
        r@ == (if is_dir {
            path::path_join(path@, METRICS_FILE@)
        } else {
            path@
        }),
{
    if is_dir {
        path::join_path(path, METRICS_FILE)
    } else {
        path.to_owned()
    }
}

/// What a line is read as: a row, or why it is none.
pub open spec fn reads_as<P: Fn(&str) -> Result<MetricRecord, String>>(
    parse: P,
    line: Seq<char>,
    row: Result<MetricRecord, Seq<char>>,
) -> bool {
    exists|s: &str, r: Result<MetricRecord, String>|
        s@ == line && call_ensures(parse, (s,), r) && row == (match r {
            Ok(m) => Ok::<MetricRecord, Seq<char>>(m),
            Err(e) => Err::<MetricRecord, Seq<char>>(e@),
        })
}

/// Whether a line is a row.
pub open spec fn is_row<P: Fn(&str) -> Result<MetricRecord, String>>(
    parse: P,
    line: Seq<char>,
) -> bool {
    exists|m: MetricRecord| #[trigger] reads_as(parse, line, Ok(m))
}

/// Reads the rows of a metric log. Blank lines are skipped; the first line that
/// is no row is an error.
pub fn read_rows<P: Fn(&str) -> Result<MetricRecord, String>>(log: &str, parse: &P) -> (r: Result<
    Vec<MetricRecord>,
    EmryError,
>)
    requires
        forall|s: &str| call_requires(*parse, (s,)),
    ensures
        ({
            let lines = lines_from(log@, 0, 0);
            let filled = filled_lines(lines, lines.len() as int);
            match r {
                Ok(rows) => rows@.len() == filled.len() && forall|i: int|
                    0 <= i < filled.len() ==> #[trigger] reads_as(*parse, filled[i], Ok(rows@[i])),
                Err(e) => exists|k: int, t: Seq<char>|
                    {
                        &&& 0 <= k < filled.len()
                        &&& e matches EmryError::Json(message)
                        &&& message@ == t
                        &&& #[trigger] reads_as(*parse, filled[k], Err(t))
                        &&& forall|i: int| 0 <= i < k ==> is_row(*parse, #[trigger] filled[i])
                    },
            }
        }),
{
    let lines = value_lines(log);
    let ghost filled = text::texts(lines@);
    let mut rows: Vec<MetricRecord> = Vec::new();
    let mut i: usize = 0;
    while i < lines.len()
        invariant
            i <= lines@.len(),
            filled == text::texts(lines@),
            filled == filled_lines(lines_from(log@, 0, 0), lines_from(log@, 0, 0).len() as int),
            forall|s: &str| call_requires(*parse, (s,)),
            rows@.len() == i,
            forall|j: int| 0 <= j < i ==> #[trigger] reads_as(*parse, filled[j], Ok(rows@[j])),
        decreases lines.len() - i,
    {
        let line: &str = lines[i].as_str();
        let got = parse(line);
        let ghost seen = got;
        assert(call_ensures(*parse, (line,), seen));
        assert(line@ == filled[i as int]);
        match got {
            Ok(row) => {
                let ghost before = rows@;
                rows.push(row);
                assert(reads_as(*parse, filled[i as int], Ok(row)));
                assert forall|j: int| 0 <= j < i + 1 implies #[trigger] reads_as(
                    *parse,
                    filled[j],
                    Ok(rows@[j]),
                ) by {
                    if j < i {
                        assert(reads_as(*parse, filled[j], Ok(before[j])));
                    }
                }
            },
            Err(message) => {
                proof {
                    assert(reads_as(*parse, filled[i as int], Err(message@)));
                    assert forall|j: int| 0 <= j < i implies is_row(*parse, #[trigger] filled[j]) by {
                        assert(reads_as(*parse, filled[j], Ok(rows@[j])));
                    }
                }
                return Err(EmryError::Json(message));
            },
        }
        i = i + 1;
    }
    Ok(rows)
}

proof fn lemma_lines_shape(s: Seq<char>, start: int, i: int)
    requires
        0 <= start <= i <= s.len(),
        forall|j: int| start <= j < i ==> s[j] != '\n',
    ensures
        lines_from(s, start, i).len() > 0,
        text::join_texts(lines_from(s, start, i), seq!['\n']) == s.skip(start),
        forall|k: int, j: int|
            0 <= k < lines_from(s, start, i).len() && 0 <= j < lines_from(s, start, i)[k].len()
                ==> #[trigger] lines_from(s, start, i)[k][j] != '\n',
    decreases s.len() - i,
{
    let lines = lines_from(s, start, i);
    let sep = seq!['\n'];
    if i >= s.len() {
        assert(s.subrange(start, s.len() as int) =~= s.skip(start));
    } else if s[i] == '\n' {
        let rest = lines_from(s, i + 1, i + 1);
        lemma_lines_shape(s, i + 1, i + 1);
        text::joined_texts_keep_their_order(lines, sep);
        assert(lines.skip(1) =~= rest);
        assert(lines[0] == s.subrange(start, i));
        assert(s.skip(start) =~= s.subrange(start, i) + sep + s.skip(i + 1));
        assert forall|k: int, j: int|
            0 <= k < lines.len() && 0 <= j < lines[k].len() implies #[trigger] lines[k][j]
            != '\n' by {
            if k > 0 {
                assert(lines[k] == rest[k - 1]);
                assert(rest[k - 1][j] != '\n');
            } else {
                assert(s[start + j] != '\n');
            }
        }
    } else {
        lemma_lines_shape(s, start, i + 1);
    }
}

/// Cutting a log into lines loses nothing: no line has a line break within it, and the
/// lines with line breaks between them are the log.
pub proof fn lines_make_up_the_log(s: Seq<char>)
    ensures
        text::join_texts(lines_from(s, 0, 0), seq!['\n']) == s,
        forall|k: int, j: int|
            0 <= k < lines_from(s, 0, 0).len() && 0 <= j < lines_from(s, 0, 0)[k].len()
                ==> #[trigger] lines_from(s, 0, 0)[k][j] != '\n',
{
    lemma_lines_shape(s, 0, 0);
    assert(s.skip(0) =~= s);
}

/// The values of a log are its lines without the white space around them, in order, but
/// for those that are blank.
pub proof fn blank_lines_alone_are_skipped(lines: Seq<Seq<char>>, k: int)
    requires
        0 <= k <= lines.len(),
    ensures
        filled_lines(lines, k) == lines.take(k).map_values(|l: Seq<char>| text::trimmed(l)).filter(
            |t: Seq<char>| t.len() > 0,
        ),
    decreases k,
{
    reveal(Seq::filter);
    let bare = |l: Seq<char>| text::trimmed(l);
    let full = |t: Seq<char>| t.len() > 0;
    if k > 0 {
        blank_lines_alone_are_skipped(lines, k - 1);
        let before = lines.take(k - 1).map_values(bare);
        assert(lines.take(k).map_values(bare) =~= before.push(bare(lines[k - 1])));
        assert(before.push(bare(lines[k - 1])).drop_last() =~= before);
    } else {
        assert(lines.take(0).map_values(bare) =~= Seq::<Seq<char>>::empty());
    }
}

/// A metric log keeps exactly the finite values of a row, each under its name.
pub proof fn finite_values_are_kept(values: Map<Seq<char>, Real>, name: Seq<char>)
    ensures
        finite_part(values).contains_key(name) <==> values.contains_key(name)
            && values[name].finite(),
        finite_part(values).contains_key(name) ==> finite_part(values)[name] == values[name],
{
}

/// Events and metric rows go to logs of their own.
pub proof fn logs_are_told_apart(record: RecordView)
    ensures
        record is Event ==> log_of(record) == "events.jsonl"@,
        record is Metric ==> log_of(record) == "metrics.jsonl"@,
{
}

} // verus!
