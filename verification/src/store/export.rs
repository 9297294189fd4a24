//! Metric rows as CSV and as columns.
//!
//! Both put `step`, `epoch` and `phase` first and then one column for each
//! metric, in first-seen order; a row without a metric leaves its cell empty.
use crate::base::text;
use crate::base::types;
use crate::base::types::MetricRecord;
use crate::base::value::Real;
use crate::store::runs;
use vstd::prelude::*;
use vstd::string::*;

verus! {

/// Rows in one batch of columns.
pub const BATCH: usize = 8192;

/// The columns after the first `k` names of a row.
pub open spec fn columns_after(columns: Seq<Seq<char>>, entries: Seq<(String, Real)>, k: int) -> Seq<
    Seq<char>,
>
    decreases k,
{
    if k <= 0 {
        columns
    } else {
        let before = columns_after(columns, entries, k - 1);
        if before.contains(entries[k - 1].0@) {
            before
        } else {
            before.push(entries[k - 1].0@)
        }
    }
}

/// The columns of the first `k` rows, in first-seen order.
pub open spec fn columns_of(records: Seq<MetricRecord>, k: int) -> Seq<Seq<char>>
    decreases k,
{
    if k <= 0 {
        Seq::empty()
    } else {
        columns_after(
            columns_of(records, k - 1),
            records[k - 1].values.entries@,
            records[k - 1].values.entries@.len() as int,
        )
    }
}

fn has_text(list: &Vec<String>, s: &String) -> (r: bool)
    ensures
        r == text::texts(list@).contains(s@),
{
    let ghost all = text::texts(list@);
    let mut i: usize = 0;
    while i < list.len()
        invariant
            i <= list@.len(),
            all == text::texts(list@),
            forall|j: int| 0 <= j < i ==> #[trigger] all[j] != s@,
        decreases list.len() - i,
    {
        if text::same(list[i].as_str(), s.as_str()) {
            assert(all[i as int] == s@);
            return true;
        }
        i = i + 1;
    }
    false
}

/// Adds the metrics of a row that have no column yet.
pub fn scan_row(columns: &mut Vec<String>, record: &MetricRecord)
    ensures
        text::texts(final(columns)@) == columns_after(
            text::texts(old(columns)@),
            record.values.entries@,
            record.values.entries@.len() as int,
        ),
{
    let ghost start = text::texts(columns@);
    let entries = &record.values.entries;
    let mut i: usize = 0;
    while i < entries.len()
        invariant
            i <= entries@.len(),
            text::texts(columns@) == columns_after(start, entries@, i as int),
        decreases entries.len() - i,
    {
        if !has_text(columns, &entries[i].0) {
            let ghost before = text::texts(columns@);
            columns.push(entries[i].0.clone());
            assert(text::texts(columns@) =~= before.push(entries@[i as int].0@));
        }
        i = i + 1;
    }
}

/// The metric columns of a run, in first-seen order.
pub fn scan_columns(records: &Vec<MetricRecord>) -> (columns: Vec<String>)
    ensures
        text::texts(columns@) == columns_of(records@, records@.len() as int),
{
    let mut columns: Vec<String> = Vec::new();
    let mut k: usize = 0;
    assert(text::texts(columns@) =~= Seq::<Seq<char>>::empty());
    while k < records.len()
        invariant
            k <= records@.len(),
            text::texts(columns@) == columns_of(records@, k as int),
        decreases records.len() - k,
    {
        scan_row(&mut columns, &records[k]);
        k = k + 1;
    }
    columns
}

proof fn lemma_columns_after(columns: Seq<Seq<char>>, entries: Seq<(String, Real)>, k: int)
    requires
        columns.no_duplicates(),
        0 <= k <= entries.len(),
    ensures
        columns_after(columns, entries, k).no_duplicates(),
        columns.is_prefix_of(columns_after(columns, entries, k)),
        forall|j: int|
            0 <= j < k ==> columns_after(columns, entries, k).contains((#[trigger] entries[j]).0@),
    decreases k,
{
    if k > 0 {
        lemma_columns_after(columns, entries, k - 1);
        let before = columns_after(columns, entries, k - 1);
        let after = columns_after(columns, entries, k);
        assert(before.is_prefix_of(after));
        assert forall|j: int| 0 <= j < k implies after.contains((#[trigger] entries[j]).0@) by {
            if j < k - 1 {
                assert(before.contains(entries[j].0@));
                let i = choose|i: int| 0 <= i < before.len() && before[i] == entries[j].0@;
                assert(after[i] == entries[j].0@);
            } else if !before.contains(entries[j].0@) {
                assert(after[before.len() as int] == entries[j].0@);
            }
        }
    } else {
        assert(columns.is_prefix_of(columns));
    }
}

/// Every metric of every row has exactly one column, and columns found early
/// keep their places.
pub proof fn every_metric_has_one_column(records: Seq<MetricRecord>, k: int, row: int, j: int)
    requires
        0 <= row < k <= records.len(),
        0 <= j < records[row].values.entries@.len(),
    ensures
        columns_of(records, k).no_duplicates(),
        columns_of(records, k).contains(records[row].values.entries@[j].0@),
        columns_of(records, k - 1).is_prefix_of(columns_of(records, k)),
    decreases k,
{
    lemma_columns_distinct(records, k - 1);
    let before = columns_of(records, k - 1);
    let entries = records[k - 1].values.entries@;
    lemma_columns_after(before, entries, entries.len() as int);
    let after = columns_of(records, k);
    if row < k - 1 {
        every_metric_has_one_column(records, k - 1, row, j);
        let name = records[row].values.entries@[j].0@;
        let i = choose|i: int| 0 <= i < before.len() && before[i] == name;
        assert(after[i] == name);
    }
}

proof fn lemma_columns_distinct(records: Seq<MetricRecord>, k: int)
    requires
        k <= records.len(),
    ensures
        columns_of(records, k).no_duplicates(),
    decreases k,
{
    if k > 0 {
        lemma_columns_distinct(records, k - 1);
        lemma_columns_after(
            columns_of(records, k - 1),
            records[k - 1].values.entries@,
            records[k - 1].values.entries@.len() as int,
        );
    }
}

/// Whether a field has to be quoted: it holds a comma, a quote or a line break.
pub open spec fn needs_quotes(field: Seq<char>) -> bool {
    exists|i: int| 0 <= i < field.len() && is_special(#[trigger] field[i])
}

/// A comma, a quote or a line break.
pub open spec fn is_special(c: char) -> bool {
    c == ',' || c == '"' || c == '\n' || c == '\r'
}

/// A field with each quote doubled.
pub open spec fn doubled(field: Seq<char>) -> Seq<char>
    decreases field.len(),
{
    if field.len() == 0 {
        Seq::empty()
    } else if field.last() == '"' {
        doubled(field.drop_last()).push('"').push('"')
    } else {
        doubled(field.drop_last()).push(field.last())
    }
}

/// A field as a CSV file holds it.
pub open spec fn escaped(field: Seq<char>) -> Seq<char> {
    if needs_quotes(field) {
        seq!['"'] + doubled(field) + seq!['"']
    } else {
        field
    }
}

/// A field as a CSV file holds it: quoted, with quotes doubled, where it holds a
/// comma, a quote or a line break.
pub fn escape(field: &str) -> (r: String)
    ensures
        r@ == escaped(field@),
{
    let cs = text::chars_of(field);
    let mut special: bool = false;
    let mut body: String = String::new();
    body.push('"');
    let mut i: usize = 0;
    assert(body@ =~= seq!['"'] + doubled(cs@.take(0)));
    while i < cs.len()
        invariant
            i <= cs@.len(),
            special == exists|j: int| 0 <= j < i && is_special(#[trigger] cs@[j]),
            body@ == seq!['"'] + doubled(cs@.take(i as int)),
        decreases cs.len() - i,
    {
        let c: char = cs[i];
        if c == ',' || c == '"' || c == '\n' || c == '\r' {
            special = true;
        }
        assert(cs@.take(i + 1).drop_last() =~= cs@.take(i as int));
        if c == '"' {
            body.push('"');
        }
        body.push(c);
        assert(body@ =~= seq!['"'] + doubled(cs@.take(i + 1)));
        i = i + 1;
    }
    assert(cs@.take(cs@.len() as int) =~= cs@);
    if special {
        body.push('"');
        assert(body@ =~= escaped(field@));
        body
    } else {
        field.to_owned()
    }
}

/// Fields with commas between them.
pub open spec fn row_text(fields: Seq<Seq<char>>, k: int) -> Seq<char>
    decreases k,
{
    if k <= 0 {
        Seq::empty()
    } else if k == 1 {
        escaped(fields[0])
    } else {
        row_text(fields, k - 1) + seq![','] + escaped(fields[k - 1])
    }
}

/// Appends one CSV row: fields with commas between them, and a line break.
pub fn write_row(out: &mut String, fields: &Vec<String>)
    ensures
        final(out)@ == old(out)@ + row_text(text::texts(fields@), fields@.len() as int) + seq!['\n'],
{
    let ghost start = out@;
    let ghost fs = text::texts(fields@);
    let mut i: usize = 0;
    assert(out@ =~= start + row_text(fs, 0));
    while i < fields.len()
        invariant
            i <= fields@.len(),
            fs == text::texts(fields@),
            out@ == start + row_text(fs, i as int),
        decreases fields.len() - i,
    {
        if i > 0 {
            out.push(',');
        }
        let cell = escape(fields[i].as_str());
        out.append(cell.as_str());
        assert(out@ =~= start + row_text(fs, i + 1));
        i = i + 1;
    }
    out.push('\n');
    assert(out@ =~= start + row_text(fs, fs.len() as int) + seq!['\n']);
}

/// The header fields: the fixed columns and the metrics.
pub open spec fn header_fields(columns: Seq<Seq<char>>) -> Seq<Seq<char>> {
    seq!["step"@, "epoch"@, "phase"@] + columns
}

/// The fields of a row under the given metric columns.
pub open spec fn record_fields(
    columns: Seq<Seq<char>>,
    record: types::MetricRecordView,
    show: spec_fn(Real) -> Seq<char>,
) -> Seq<Seq<char>> {
    seq![
        text::decimal(record.step as nat),
        text::decimal(record.epoch as nat),
        types::phase_tag(record.phase),
    ] + Seq::new(
        columns.len(),
        |i: int|
            if record.values.contains_key(columns[i]) {
                show(record.values[columns[i]])
            } else {
                Seq::empty()
            },
    )
}

/// Whether the closure `f` shows values as `g` does.
pub open spec fn shows<F: Fn(Real) -> String>(f: F, g: spec_fn(Real) -> Seq<char>) -> bool {
    forall|v: Real, r: String| call_ensures(f, (v,), r) ==> r@ == g(v)
}

/// Appends the header row.
pub fn write_header(out: &mut String, columns: &Vec<String>)
    ensures
        final(out)@ == old(out)@ + row_text(
            header_fields(text::texts(columns@)),
            columns@.len() as int + 3,
        ) + seq!['\n'],
{
    let mut fields: Vec<String> = Vec::new();
    fields.push("step".to_owned());
    fields.push("epoch".to_owned());
    fields.push("phase".to_owned());
    let mut i: usize = 0;
    while i < columns.len()
        invariant
            i <= columns@.len(),
            fields@.len() == i + 3,
            fields@[0]@ == "step"@,
            fields@[1]@ == "epoch"@,
            fields@[2]@ == "phase"@,
            forall|j: int| 0 <= j < i ==> (#[trigger] fields@[j + 3])@ == columns@[j]@,
        decreases columns.len() - i,
    {
        fields.push(columns[i].clone());
        i = i + 1;
    }
    proof {
        let goal = header_fields(text::texts(columns@));
        assert forall|j: int| 0 <= j < goal.len() implies text::texts(fields@)[j] == goal[j] by {
            if j >= 3 {
                assert(fields@[(j - 3) + 3]@ == columns@[j - 3]@);
            }
        }
        assert(text::texts(fields@) =~= goal);
    }
    write_row(out, &fields);
}

/// Appends the row of one record.
pub fn write_record_row<F: Fn(Real) -> String>(
    out: &mut String,
    columns: &Vec<String>,
    record: &MetricRecord,
    show: &F,
)
    requires
        record.values.wf(),
        forall|v: Real| call_requires(*show, (v,)),
    ensures
        forall|g: spec_fn(Real) -> Seq<char>| #[trigger]
            shows(*show, g) ==> final(out)@ == old(out)@ + row_text(
                record_fields(text::texts(columns@), record@, g),
                columns@.len() as int + 3,
            ) + seq!['\n'],
{
    let ghost cs = text::texts(columns@);
    let mut fields: Vec<String> = Vec::new();
    fields.push(text::decimal_text(record.step));
    fields.push(text::decimal_text(record.epoch as u64));
    fields.push(types::phase_str(record.phase).to_owned());
    let mut i: usize = 0;
    while i < columns.len()
        invariant
            i <= columns@.len(),
            cs == text::texts(columns@),
            record.values.wf(),
            forall|v: Real| call_requires(*show, (v,)),
            fields@.len() == i + 3,
            fields@[0]@ == text::decimal(record.step as nat),
            fields@[1]@ == text::decimal(record.epoch as nat),
            fields@[2]@ == types::phase_tag(record.phase),
            forall|g: spec_fn(Real) -> Seq<char>, j: int|
                #![trigger shows(*show, g), fields@[j]]
                shows(*show, g) && 3 <= j < i + 3 ==> fields@[j]@ == record_fields(
                    cs,
                    record@,
                    g,
                )[j],
        decreases columns.len() - i,
    {
        match record.values.get(columns[i].as_str()) {
            Some(v) => {
                fields.push(show(v));
            },
            None => {
                fields.push(String::new());
            },
        }
        proof {
            assert(fields@[i + 3]@.len() == 0 || record@.values.contains_key(cs[i as int]));
            assert(!record@.values.contains_key(cs[i as int]) ==> fields@[i + 3]@ =~= Seq::<
                char,
            >::empty());
        }
        i = i + 1;
    }
    proof {
        assert forall|g: spec_fn(Real) -> Seq<char>| #[trigger]
            shows(*show, g) implies text::texts(fields@) == record_fields(cs, record@, g) by {
            let goal = record_fields(cs, record@, g);
            assert forall|j: int| 0 <= j < goal.len() implies text::texts(fields@)[j] == goal[j] by {
                if j >= 3 {
                    assert(fields@[j]@ == goal[j]);
                }
            }
            assert(text::texts(fields@) =~= goal);
        }
    }
    write_row(out, &fields);
}

/// The CSV text of the first `k` rows, with its header.
pub open spec fn csv_text(
    columns: Seq<Seq<char>>,
    records: Seq<MetricRecord>,
    show: spec_fn(Real) -> Seq<char>,
    k: int,
) -> Seq<char>
    decreases k,
{
    if k <= 0 {
        row_text(header_fields(columns), columns.len() as int + 3) + seq!['\n']
    } else {
        csv_text(columns, records, show, k - 1) + row_text(
            record_fields(columns, records[k - 1]@, show),
            columns.len() as int + 3,
        ) + seq!['\n']
    }
}

/// The metric rows of a run as CSV, and how many rows that are.
pub fn export_csv<F: Fn(Real) -> String>(records: &Vec<MetricRecord>, show: &F) -> (r: (String, usize))
    requires
        runs::rows_wf(records@),
        forall|v: Real| call_requires(*show, (v,)),
    ensures
        r.1 == records@.len(),
        forall|g: spec_fn(Real) -> Seq<char>| #[trigger]
            shows(*show, g) ==> r.0@ == csv_text(
                columns_of(records@, records@.len() as int),
                records@,
                g,
                records@.len() as int,
            ),
{
    let columns = scan_columns(records);
    let ghost cs = text::texts(columns@);
    let mut out: String = String::new();
    write_header(&mut out, &columns);
    assert(out@ =~= row_text(header_fields(cs), cs.len() as int + 3) + seq!['\n']);
    let mut k: usize = 0;
    while k < records.len()
        invariant
            k <= records@.len(),
            runs::rows_wf(records@),
            cs == text::texts(columns@),
            forall|v: Real| call_requires(*show, (v,)),
            forall|g: spec_fn(Real) -> Seq<char>| #[trigger]
                shows(*show, g) ==> out@ == csv_text(cs, records@, g, k as int),
        decreases records.len() - k,
    {
        write_record_row(&mut out, &columns, &records[k], show);
        k = k + 1;
    }
    (out, k)
}

/// Rows as columns: one entry of each list for each row.
#[derive(Debug)]
pub struct TableBatch {
    pub steps: Vec<u64>,
    pub epochs: Vec<u32>,
    pub phases: Vec<String>,
    /// One list for each metric column; `None` where a row lacks the metric.
    pub metrics: Vec<Vec<Option<Real>>>,
}

/// One row of a table.
#[verifier::ext_equal]
pub struct TableRow {
    pub step: u64,
    pub epoch: u32,
    pub phase: Seq<char>,
    pub cells: Seq<Option<Real>>,
}

impl TableBatch {
    /// Every list has one entry for each row.
    pub open spec fn wf(self) -> bool {
        &&& self.epochs@.len() == self.steps@.len()
        &&& self.phases@.len() == self.steps@.len()
        &&& forall|c: int|
            0 <= c < self.metrics@.len() ==> (#[trigger] self.metrics@[c])@.len()
                == self.steps@.len()
    }
}

impl View for TableBatch {
    type V = Seq<TableRow>;

    open spec fn view(&self) -> Seq<TableRow> {
        Seq::new(
            self.steps@.len(),
            |i: int|
                TableRow {
                    step: self.steps@[i],
                    epoch: self.epochs@[i],
                    phase: self.phases@[i]@,
                    cells: Seq::new(self.metrics@.len(), |c: int| self.metrics@[c]@[i]),
                },
        )
    }
}

/// A record as a row under the given metric columns.
pub open spec fn row_under(columns: Seq<Seq<char>>, record: types::MetricRecordView) -> TableRow {
    TableRow {
        step: record.step,
        epoch: record.epoch,
        phase: types::phase_tag(record.phase),
        cells: Seq::new(
            columns.len(),
            |c: int|
                if record.values.contains_key(columns[c]) {
                    Some(record.values[columns[c]])
                } else {
                    None
                },
        ),
    }
}

/// Gathers rows into batches of columns.
pub struct TableBuilder {
    pub columns: Vec<String>,
    pub batch: TableBatch,
    pub rows: usize,
}

fn empty_batch(n: usize) -> (b: TableBatch)
    ensures
        b.wf(),
        b@ == Seq::<TableRow>::empty(),
        b.metrics@.len() == n,
{
    let mut metrics: Vec<Vec<Option<Real>>> = Vec::new();
    let mut i: usize = 0;
    while i < n
        invariant
            i <= n,
            metrics@.len() == i,
            forall|c: int| 0 <= c < i ==> (#[trigger] metrics@[c])@.len() == 0,
        decreases n - i,
    {
        metrics.push(Vec::new());
        i = i + 1;
    }
    let b = TableBatch { steps: Vec::new(), epochs: Vec::new(), phases: Vec::new(), metrics };
    assert(b@ =~= Seq::<TableRow>::empty());
    b
}

impl TableBuilder {
    /// The batch matches the columns and is not full.
    pub open spec fn wf(self) -> bool {
        &&& self.batch.wf()
        &&& self.batch.metrics@.len() == self.columns@.len()
        &&& self.batch@.len() < BATCH
    }

    /// A builder for the given metric columns, without rows yet.
    pub fn new(columns: Vec<String>) -> (b: TableBuilder)
        ensures
            b.wf(),
            b.columns == columns,
            b.batch@ == Seq::<TableRow>::empty(),
            b.rows == 0,
    {
        let n: usize = columns.len();
        TableBuilder { columns, batch: empty_batch(n), rows: 0 }
    }

    /// Adds a row, and hands out the batch once it is full.
    pub fn push(&mut self, record: &MetricRecord) -> (full: Option<TableBatch>)
        requires
            old(self).wf(),
            record.values.wf(),
            old(self).rows < usize::MAX,
        ensures
            final(self).wf(),
            final(self).columns@ == old(self).columns@,
            final(self).rows == old(self).rows + 1,
            ({
                let rows = old(self).batch@.push(
                    row_under(text::texts(old(self).columns@), record@),
                );
                match full {
                    None => rows.len() < BATCH && final(self).batch@ == rows,
                    Some(b) => rows.len() == BATCH && b.wf() && b.metrics@.len() == old(
                        self).columns@.len() && b@ == rows && final(self).batch@ == Seq::<
                        TableRow,
                    >::empty(),
                }
            }),
    {
        let ghost before = self.batch;
        let ghost cs = text::texts(self.columns@);
        let ghost n = self.batch.steps@.len();
        self.batch.steps.push(record.step);
        self.batch.epochs.push(record.epoch);
        self.batch.phases.push(types::phase_str(record.phase).to_owned());
        let mut c: usize = 0;
        let width: usize = self.columns.len();
        while c < width
            invariant
                c <= width == self.columns@.len(),
                cs == text::texts(self.columns@),
                self.columns == old(self).columns,
                self.rows == old(self).rows,
                record.values.wf(),
                before.wf(),
                n == before.steps@.len(),
                before.metrics@.len() == width,
                self.batch.metrics@.len() == width,
                self.batch.steps@ == before.steps@.push(record.step),
                self.batch.epochs@ == before.epochs@.push(record.epoch),
                self.batch.phases@.len() == n + 1,
                self.batch.phases@.take(n as int) == before.phases@,
                self.batch.phases@[n as int]@ == types::phase_tag(record.phase),
                forall|k: int|
                    0 <= k < c ==> (#[trigger] self.batch.metrics@[k])@ == before.metrics@[k]@.push(
                        row_under(cs, record@).cells[k],
                    ),
                forall|k: int|
                    c <= k < width ==> (#[trigger] self.batch.metrics@[k])@ == before.metrics@[k]@,
            decreases width - c,
        {
            let cell: Option<Real> = record.values.get(self.columns[c].as_str());
            let list = &mut self.batch.metrics[c];
            list.push(cell);
            c = c + 1;
        }
        self.rows = self.rows + 1;
        proof {
            let rows = before@.push(row_under(cs, record@));
            assert forall|i: int| 0 <= i < n + 1 implies #[trigger] self.batch@[i] == rows[i] by {
                assert(self.batch@[i].cells =~= rows[i].cells);
                if i < n {
                    assert(self.batch.phases@[i] == self.batch.phases@.take(n as int)[i]);
                }
            }
            assert(self.batch@ =~= rows);
        }
        if self.batch.steps.len() >= BATCH {
            let mut fresh = empty_batch(width);
            std::mem::swap(&mut fresh, &mut self.batch);
            Some(fresh)
        } else {
            None
        }
    }

    /// Hands out the columns and the rows that are left, if any.
    pub fn finish(self) -> (r: (Vec<String>, Option<TableBatch>))
        requires
            self.wf(),
        ensures
            r.0 == self.columns,
            match r.1 {
                None => self.batch@.len() == 0,
                Some(b) => b == self.batch && b@.len() > 0,
            },
    {
        if self.batch.steps.len() > 0 {
            (self.columns, Some(self.batch))
        } else {
            (self.columns, None)
        }
    }
}

/// The rows of batches, one list for each batch.
pub open spec fn batch_rows(batches: Seq<TableBatch>) -> Seq<Seq<TableRow>> {
    Seq::new(batches.len(), |i: int| batches[i]@)
}

/// The first `k` records as rows under the given metric columns.
pub open spec fn all_rows(columns: Seq<Seq<char>>, records: Seq<MetricRecord>, k: int) -> Seq<
    TableRow,
> {
    Seq::new(k as nat, |i: int| row_under(columns, records[i]@))
}

/// Whether every batch has the given number of metric columns.
pub open spec fn batches_wf(batches: Seq<TableBatch>, width: nat) -> bool {
    forall|i: int|
        0 <= i < batches.len() ==> (#[trigger] batches[i]).wf() && batches[i].metrics@.len()
            == width
}

/// A run's metrics as columns.
#[derive(Debug)]
pub struct Table {
    /// The metric columns, in first-seen order.
    pub columns: Vec<String>,
    /// The rows, cut into batches.
    pub batches: Vec<TableBatch>,
    /// How many rows there are.
    pub rows: usize,
}

proof fn lemma_push_batch(batches: Seq<TableBatch>, b: TableBatch)
    ensures
        batch_rows(batches.push(b)).flatten() == batch_rows(batches).flatten() + b@,
{
    batch_rows(batches).lemma_flatten_push(b@);
    assert(batch_rows(batches.push(b)) =~= batch_rows(batches).push(b@));
}

/// The metric rows of a run as batches of columns. Rows are neither lost nor
/// moved; every batch but the last is full, and none is empty.
pub fn export_table(records: &Vec<MetricRecord>) -> (t: Table)
    requires
        runs::rows_wf(records@),
    ensures
        text::texts(t.columns@) == columns_of(records@, records@.len() as int),
        t.rows == records@.len(),
        batches_wf(t.batches@, t.columns@.len()),
        batch_rows(t.batches@).flatten() == all_rows(
            text::texts(t.columns@),
            records@,
            records@.len() as int,
        ),
        forall|i: int|
            0 <= i < t.batches@.len() ==> 0 < (#[trigger] t.batches@[i])@.len() <= BATCH && (i
                < t.batches@.len() - 1 ==> t.batches@[i]@.len() == BATCH),
{
    let columns = scan_columns(records);
    let ghost cs = text::texts(columns@);
    let ghost n = columns@.len();
    let mut builder = TableBuilder::new(columns);
    let mut batches: Vec<TableBatch> = Vec::new();
    let mut k: usize = 0;
    proof {
        reveal(Seq::flatten);
        assert(batch_rows(batches@) =~= Seq::<Seq<TableRow>>::empty());
        assert(batch_rows(batches@).flatten() + builder.batch@ =~= all_rows(cs, records@, 0));
    }
    while k < records.len()
        invariant
            k <= records@.len(),
            runs::rows_wf(records@),
            builder.wf(),
            builder.rows == k,
            builder.columns@.len() == n,
            text::texts(builder.columns@) == cs,
            batches_wf(batches@, n),
            forall|i: int| 0 <= i < batches@.len() ==> (#[trigger] batches@[i])@.len() == BATCH,
            batch_rows(batches@).flatten() + builder.batch@ == all_rows(cs, records@, k as int),
        decreases records.len() - k,
    {
        let ghost open = builder.batch@;
        let ghost row = row_under(cs, records@[k as int]@);
        let ghost done = batch_rows(batches@).flatten();
        let full = builder.push(&records[k]);
        assert(all_rows(cs, records@, k + 1) =~= all_rows(cs, records@, k as int).push(row));
        assert(done + open.push(row) =~= (done + open).push(row));
        match full {
            Some(b) => {
                proof {
                    lemma_push_batch(batches@, b);
                }
                batches.push(b);
                assert(done + b@ + Seq::<TableRow>::empty() =~= done + b@);
            },
            None => {},
        }
        k = k + 1;
    }
    let ghost done = batch_rows(batches@).flatten();
    let rows: usize = builder.rows;
    let ghost open = builder.batch@;
    let (kept, last) = builder.finish();
    match last {
        Some(b) => {
            proof {
                lemma_push_batch(batches@, b);
            }
            batches.push(b);
        },
        None => {
            assert(done + open =~= done);
        },
    }
    Table { columns: kept, batches, rows }
}

/// Where a reader of CSV stands within a field.
pub enum Place {
    /// Before its first character.
    Start,
    /// In a field without quotes.
    Plain,
    /// Between the quotes.
    Quoted,
    /// Behind a quote that either closes the field or is half of a doubled one.
    Closing,
}

/// What a reader of CSV has seen of a row.
#[verifier::ext_equal]
pub struct Reading {
    pub fields: Seq<Seq<char>>,
    pub field: Seq<char>,
    pub place: Place,
}

/// The reading after one more character.
pub open spec fn read_char(r: Reading, c: char) -> Reading {
    let grown = Reading { field: r.field.push(c), ..r };
    let ended = Reading {
        fields: r.fields.push(r.field),
        field: Seq::empty(),
        place: Place::Start,
    };
    match r.place {
        Place::Start => if c == '"' {
            Reading { place: Place::Quoted, ..r }
        } else if c == ',' {
            ended
        } else {
            Reading { place: Place::Plain, ..grown }
        },
        Place::Plain => if c == ',' {
            ended
        } else {
            grown
        },
        Place::Quoted => if c == '"' {
            Reading { place: Place::Closing, ..r }
        } else {
            grown
        },
        Place::Closing => if c == '"' {
            Reading { place: Place::Quoted, ..grown }
        } else if c == ',' {
            ended
        } else {
            Reading { place: Place::Plain, ..grown }
        },
    }
}

/// The reading after the text `s`.
pub open spec fn read_text(r: Reading, s: Seq<char>) -> Reading
    decreases s.len(),
{
    if s.len() == 0 {
        r
    } else {
        read_char(read_text(r, s.drop_last()), s.last())
    }
}

/// The fields of a row of CSV, without its line break.
pub open spec fn row_fields(s: Seq<char>) -> Seq<Seq<char>> {
    let start = Reading { fields: Seq::empty(), field: Seq::empty(), place: Place::Start };
    let end = read_text(start, s);
    end.fields.push(end.field)
}

proof fn lemma_read_concat(r: Reading, a: Seq<char>, b: Seq<char>)
    ensures
        read_text(r, a + b) == read_text(read_text(r, a), b),
    decreases b.len(),
{
    if b.len() == 0 {
        assert(a + b =~= a);
    } else {
        assert((a + b).drop_last() =~= a + b.drop_last());
        lemma_read_concat(r, a, b.drop_last());
    }
}

proof fn lemma_read_one(r: Reading, c: char)
    ensures
        read_text(r, seq![c]) == read_char(r, c),
{
    assert(seq![c].drop_last() =~= Seq::<char>::empty());
    assert(read_text(r, Seq::<char>::empty()) == r);
}

proof fn lemma_read_doubled(r: Reading, field: Seq<char>)
    requires
        r.place is Quoted,
    ensures
        read_text(r, doubled(field)) == (Reading { field: r.field + field, ..r }),
    decreases field.len(),
{
    if field.len() == 0 {
        assert(r.field + field =~= r.field);
    } else {
        let front = field.drop_last();
        lemma_read_doubled(r, front);
        let d = doubled(front);
        let after = read_text(r, d);
        assert(r.field + field =~= (r.field + front).push(field.last()));
        if field.last() == '"' {
            assert(d.push('"').push('"').drop_last() =~= d.push('"'));
            assert(d.push('"').drop_last() =~= d);
            assert(read_text(r, d.push('"')) == read_char(after, '"'));
        } else {
            assert(d.push(field.last()).drop_last() =~= d);
        }
    }
}

proof fn lemma_read_plain(r: Reading, field: Seq<char>)
    requires
        r.place is Start,
        !needs_quotes(field),
    ensures
        read_text(r, field).fields == r.fields,
        read_text(r, field).field == r.field + field,
        read_text(r, field).place is Start || read_text(r, field).place is Plain,
    decreases field.len(),
{
    if field.len() == 0 {
        assert(r.field + field =~= r.field);
    } else {
        let front = field.drop_last();
        assert(!is_special(field[field.len() - 1]));
        assert forall|i: int| 0 <= i < front.len() implies !is_special(#[trigger] front[i]) by {
            assert(front[i] == field[i]);
        }
        lemma_read_plain(r, front);
        assert(r.field + field =~= (r.field + front).push(field.last()));
    }
}

proof fn lemma_read_cell(r: Reading, field: Seq<char>)
    requires
        r.place is Start,
        r.field.len() == 0,
    ensures
        read_text(r, escaped(field)).fields == r.fields,
        read_text(r, escaped(field)).field == field,
        !(read_text(r, escaped(field)).place is Quoted),
{
    assert(r.field + field =~= field);
    if needs_quotes(field) {
        let d = doubled(field);
        lemma_read_concat(r, seq!['"'] + d, seq!['"']);
        lemma_read_concat(r, seq!['"'], d);
        lemma_read_one(r, '"');
        let inside = read_char(r, '"');
        lemma_read_doubled(inside, field);
        lemma_read_one(read_text(inside, d), '"');
    } else {
        lemma_read_plain(r, field);
    }
}

proof fn lemma_read_row(fields: Seq<Seq<char>>, k: int)
    requires
        1 <= k <= fields.len(),
    ensures
        ({
            let start = Reading { fields: Seq::empty(), field: Seq::empty(), place: Place::Start };
            let end = read_text(start, row_text(fields, k));
            &&& end.fields == fields.take(k - 1)
            &&& end.field == fields[k - 1]
            &&& !(end.place is Quoted)
        }),
    decreases k,
{
    let start = Reading { fields: Seq::empty(), field: Seq::empty(), place: Place::Start };
    if k == 1 {
        lemma_read_cell(start, fields[0]);
        assert(fields.take(0) =~= Seq::<Seq<char>>::empty());
    } else {
        lemma_read_row(fields, k - 1);
        let head = row_text(fields, k - 1);
        let cell = escaped(fields[k - 1]);
        lemma_read_concat(start, head + seq![','], cell);
        lemma_read_concat(start, head, seq![',']);
        let before = read_text(start, head);
        lemma_read_one(before, ',');
        let next = read_char(before, ',');
        lemma_read_cell(next, fields[k - 1]);
        assert(fields.take(k - 2).push(fields[k - 2]) =~= fields.take(k - 1));
    }
}

/// A row is read back as it was written, whatever its fields hold.
pub proof fn rows_read_back(fields: Seq<Seq<char>>)
    requires
        fields.len() > 0,
    ensures
        row_fields(row_text(fields, fields.len() as int)) == fields,
{
    lemma_read_row(fields, fields.len() as int);
    assert(fields.take(fields.len() - 1).push(fields[fields.len() - 1]) =~= fields);
}

/// What a reader of CSV has seen of a file: the records that ended, and the row that it
/// is in.
#[verifier::ext_equal]
pub struct FileReading {
    pub records: Seq<Seq<Seq<char>>>,
    pub row: Reading,
}

/// The reading at the beginning of a row.
pub open spec fn row_start() -> Reading {
    Reading { fields: Seq::empty(), field: Seq::empty(), place: Place::Start }
}

/// The reading of a file after one more character: a line break outside quotes ends the
/// record.
pub open spec fn read_file_char(f: FileReading, c: char) -> FileReading {
    if c == '\n' && !(f.row.place is Quoted) {
        FileReading { records: f.records.push(f.row.fields.push(f.row.field)), row: row_start() }
    } else {
        FileReading { row: read_char(f.row, c), ..f }
    }
}

/// The reading of a file after the text `s`.
pub open spec fn read_file(f: FileReading, s: Seq<char>) -> FileReading
    decreases s.len(),
{
    if s.len() == 0 {
        f
    } else {
        read_file_char(read_file(f, s.drop_last()), s.last())
    }
}

/// The records of a CSV text, and what is left behind the last line break.
pub open spec fn csv_records(s: Seq<char>) -> FileReading {
    read_file(FileReading { records: Seq::empty(), row: row_start() }, s)
}

proof fn lemma_file_concat(f: FileReading, a: Seq<char>, b: Seq<char>)
    ensures
        read_file(f, a + b) == read_file(read_file(f, a), b),
    decreases b.len(),
{
    if b.len() == 0 {
        assert(a + b =~= a);
    } else {
        assert((a + b).drop_last() =~= a + b.drop_last());
        lemma_file_concat(f, a, b.drop_last());
    }
}

/// Whether a text has line breaks only where a reader is between quotes.
spec fn calm(r: Reading, s: Seq<char>) -> bool {
    forall|i: int|
        0 <= i < s.len() && #[trigger] s[i] == '\n' ==> read_text(r, s.take(i)).place is Quoted
}

#[verifier::spinoff_prover]
proof fn lemma_calm_file(f: FileReading, s: Seq<char>)
    requires
        calm(f.row, s),
    ensures
        read_file(f, s) == (FileReading { row: read_text(f.row, s), ..f }),
    decreases s.len(),
{
    if s.len() > 0 {
        let front = s.drop_last();
        assert forall|i: int| 0 <= i < front.len() && #[trigger] front[i] == '\n' implies read_text(
            f.row,
            front.take(i),
        ).place is Quoted by {
            assert(s[i] == '\n');
            assert(front.take(i) =~= s.take(i));
        }
        lemma_calm_file(f, front);
        assert(s.take(s.len() - 1) =~= front);
        assert(s[s.len() - 1] == s.last());
    }
}

#[verifier::spinoff_prover]
proof fn lemma_calm_concat(r: Reading, a: Seq<char>, b: Seq<char>)
    requires
        calm(r, a),
        calm(read_text(r, a), b),
    ensures
        calm(r, a + b),
{
    assert forall|i: int| 0 <= i < (a + b).len() && #[trigger] (a + b)[i] == '\n' implies read_text(
        r,
        (a + b).take(i),
    ).place is Quoted by {
        if i < a.len() {
            assert(a[i] == '\n');
            assert((a + b).take(i) =~= a.take(i));
        } else {
            let j = i - a.len();
            assert(b[j] == '\n');
            assert((a + b).take(i) =~= a + b.take(j));
            lemma_read_concat(r, a, b.take(j));
        }
    }
}

proof fn lemma_calm_between_quotes(r: Reading, c: char)
    requires
        r.place is Quoted,
    ensures
        calm(r, seq![c]),
        calm(r, seq!['"', '"']),
{
    let one = seq![c];
    let two = seq!['"', '"'];
    assert forall|i: int| 0 <= i < one.len() && #[trigger] one[i] == '\n' implies read_text(
        r,
        one.take(i),
    ).place is Quoted by {
        assert(one.take(i) =~= Seq::<char>::empty());
    }
    assert forall|i: int| 0 <= i < two.len() implies #[trigger] two[i] != '\n' by {}
}

#[verifier::spinoff_prover]
proof fn lemma_calm_doubled(r: Reading, field: Seq<char>)
    requires
        r.place is Quoted,
    ensures
        calm(r, doubled(field)),
    decreases field.len(),
{
    if field.len() > 0 {
        let front = field.drop_last();
        let d = doubled(front);
        lemma_calm_doubled(r, front);
        lemma_read_doubled(r, front);
        lemma_calm_between_quotes(read_text(r, d), field.last());
        let tail = if field.last() == '"' {
            seq!['"', '"']
        } else {
            seq![field.last()]
        };
        lemma_calm_concat(r, d, tail);
        assert(doubled(field) =~= d + tail);
    }
}

#[verifier::spinoff_prover]
proof fn lemma_calm_cell(r: Reading, field: Seq<char>)
    requires
        r.place is Start,
    ensures
        calm(r, escaped(field)),
{
    if needs_quotes(field) {
        let open = seq!['"'];
        let d = doubled(field);
        lemma_read_one(r, '"');
        let inside = read_char(r, '"');
        lemma_calm_doubled(inside, field);
        lemma_calm_concat(r, open, d);
        lemma_calm_concat(r, open + d, seq!['"']);
    } else {
        assert forall|i: int| 0 <= i < field.len() implies #[trigger] field[i] != '\n' by {
            assert(!is_special(field[i]));
        }
    }
}

#[verifier::spinoff_prover]
proof fn lemma_calm_row(fields: Seq<Seq<char>>, k: int)
    requires
        1 <= k <= fields.len(),
    ensures
        calm(row_start(), row_text(fields, k)),
    decreases k,
{
    if k == 1 {
        lemma_calm_cell(row_start(), fields[0]);
    } else {
        lemma_calm_row(fields, k - 1);
        lemma_read_row(fields, k - 1);
        let head = row_text(fields, k - 1);
        let before = read_text(row_start(), head);
        lemma_calm_concat(row_start(), head, seq![',']);
        lemma_read_concat(row_start(), head, seq![',']);
        lemma_read_one(before, ',');
        lemma_calm_cell(read_char(before, ','), fields[k - 1]);
        lemma_calm_concat(row_start(), head + seq![','], escaped(fields[k - 1]));
    }
}

/// A row that is written behind whole records is read as one record more.
#[verifier::spinoff_prover]
proof fn lemma_row_is_a_record(f: FileReading, fields: Seq<Seq<char>>)
    requires
        f.row == row_start(),
        fields.len() > 0,
    ensures
        read_file(f, row_text(fields, fields.len() as int) + seq!['\n']) == (FileReading {
            records: f.records.push(fields),
            row: row_start(),
        }),
{
    let n = fields.len() as int;
    let line = row_text(fields, n);
    lemma_calm_row(fields, n);
    lemma_calm_file(f, line);
    lemma_read_row(fields, n);
    lemma_file_concat(f, line, seq!['\n']);
    let g = read_file(f, line);
    assert(seq!['\n'].drop_last() =~= Seq::<char>::empty());
    assert(read_file(g, Seq::<char>::empty()) == g);
    assert(read_file(g, seq!['\n']) == read_file_char(g, '\n'));
    assert(fields.take(n - 1).push(fields[n - 1]) =~= fields);
}

#[verifier::spinoff_prover]
proof fn lemma_csv_records(
    columns: Seq<Seq<char>>,
    records: Seq<MetricRecord>,
    show: spec_fn(Real) -> Seq<char>,
    k: int,
)
    requires
        0 <= k <= records.len(),
    ensures
        csv_records(csv_text(columns, records, show, k)).row == row_start(),
        csv_records(csv_text(columns, records, show, k)).records == seq![header_fields(columns)]
            + Seq::new(k as nat, |i: int| record_fields(columns, records[i]@, show)),
    decreases k,
{
    let start = FileReading { records: Seq::empty(), row: row_start() };
    if k == 0 {
        let fields = header_fields(columns);
        lemma_row_is_a_record(start, fields);
        assert(start.records.push(fields) =~= seq![fields] + Seq::new(
            0,
            |i: int| record_fields(columns, records[i]@, show),
        ));
    } else {
        lemma_csv_records(columns, records, show, k - 1);
        let before = csv_text(columns, records, show, k - 1);
        let fields = record_fields(columns, records[k - 1]@, show);
        let line = row_text(fields, fields.len() as int) + seq!['\n'];
        assert(csv_text(columns, records, show, k) =~= before + line);
        lemma_file_concat(start, before, line);
        lemma_row_is_a_record(csv_records(before), fields);
        assert(csv_records(csv_text(columns, records, show, k)).records =~= seq![
            header_fields(columns),
        ] + Seq::new(k as nat, |i: int| record_fields(columns, records[i]@, show)));
    }
}

/// An exported run reads back whole: the text is one header record and then one record
/// for each row, in order, and nothing else. The header names step, epoch, phase and the
/// metric columns. The record of a row holds its step, epoch and phase and, under each
/// column, the shown value of that metric, or nothing where the row lacks it.
#[verifier::spinoff_prover]
pub proof fn exports_read_back(records: Seq<MetricRecord>, show: spec_fn(Real) -> Seq<char>, i: int)
    ensures
        ({
            let n = records.len() as int;
            let columns = columns_of(records, n);
            let read = csv_records(csv_text(columns, records, show, n));
            &&& read.row == row_start()
            &&& read.records.len() == n + 1
            &&& read.records[0].len() == columns.len() + 3
            &&& read.records[0][0] == "step"@
            &&& read.records[0][1] == "epoch"@
            &&& read.records[0][2] == "phase"@
            &&& forall|c: int|
                0 <= c < columns.len() ==> read.records[0][c + 3] == #[trigger] columns[c]
            &&& 0 <= i < n ==> {
                let row = read.records[i + 1];
                &&& row.len() == columns.len() + 3
                &&& row[0] == text::decimal(records[i].step as nat)
                &&& row[1] == text::decimal(records[i].epoch as nat)
                &&& row[2] == types::phase_tag(records[i].phase)
                &&& forall|c: int|
                    0 <= c < columns.len() ==> row[c + 3] == (if records[i].values@.contains_key(
                        #[trigger] columns[c],
                    ) {
                        show(records[i].values@[columns[c]])
                    } else {
                        Seq::<char>::empty()
                    })
            }
        }),
{
    lemma_csv_records(columns_of(records, records.len() as int), records, show, records.len() as int);
}

/// The names of all metrics of the first `k` rows, row by row.
pub open spec fn names_given(records: Seq<MetricRecord>, k: int) -> Seq<Seq<char>>
    decreases k,
{
    if k <= 0 {
        Seq::empty()
    } else {
        names_given(records, k - 1) + Seq::new(
            records[k - 1].values.entries@.len(),
            |j: int| records[k - 1].values.entries@[j].0@,
        )
    }
}

/// Whether column `c` is the name at `p`, and the names before it are earlier columns.
pub open spec fn first_seen_at(
    columns: Seq<Seq<char>>,
    given: Seq<Seq<char>>,
    c: int,
    p: int,
) -> bool {
    &&& 0 <= p < given.len()
    &&& given[p] == columns[c]
    &&& forall|q: int| 0 <= q < p ==> columns.take(c).contains(#[trigger] given[q])
}

/// Whether column `c` stands where its name first comes.
pub open spec fn first_seen(columns: Seq<Seq<char>>, given: Seq<Seq<char>>, c: int) -> bool {
    exists|p: int| #[trigger] first_seen_at(columns, given, c, p)
}

/// Whether `columns` are the distinct names of `given`, each where it first comes.
pub open spec fn in_first_seen_order(columns: Seq<Seq<char>>, given: Seq<Seq<char>>) -> bool {
    &&& columns.no_duplicates()
    &&& forall|p: int| 0 <= p < given.len() ==> columns.contains(#[trigger] given[p])
    &&& forall|c: int|
        0 <= c < columns.len() ==> #[trigger] first_seen(columns, given, c)
}

#[verifier::spinoff_prover]
pub(crate) proof fn lemma_first_seen_push(
    columns: Seq<Seq<char>>,
    given: Seq<Seq<char>>,
    name: Seq<char>,
    after: Seq<Seq<char>>,
)
    requires
        in_first_seen_order(columns, given),
        columns.contains(name) ==> after == columns,
        !columns.contains(name) ==> after == columns.push(name),
    ensures
        in_first_seen_order(after, given.push(name)),
{
    let all = given.push(name);
    assert forall|i: int, j: int| 0 <= i < j < after.len() implies after[i] != after[j] by {
        if j == columns.len() {
            assert(columns.contains(columns[i]));
        }
    }
    assert forall|p: int| 0 <= p < all.len() implies after.contains(#[trigger] all[p]) by {
        if p < given.len() {
            assert(columns.contains(given[p]));
            let c = choose|c: int| 0 <= c < columns.len() && columns[c] == given[p];
            assert(after[c] == all[p]);
        } else if !columns.contains(name) {
            assert(after[columns.len() as int] == name);
        }
    }
    assert forall|c: int|
        0 <= c < after.len() implies #[trigger] first_seen(after, all, c) by {
        assert(after.take(c) =~= columns.take(c));
        if c < columns.len() {
            assert(first_seen(columns, given, c));
            let p = choose|p: int| #[trigger] first_seen_at(columns, given, c, p);
            assert forall|q: int| 0 <= q < p implies after.take(c).contains(#[trigger] all[q]) by {
                assert(all[q] == given[q]);
            }
            assert(first_seen_at(after, all, c, p));
        } else {
            let p = given.len() as int;
            assert(columns.take(c) =~= columns);
            assert forall|q: int| 0 <= q < p implies after.take(c).contains(#[trigger] all[q]) by {
                assert(columns.contains(given[q]));
            }
            assert(first_seen_at(after, all, c, p));
        }
    }
}

#[verifier::spinoff_prover]
proof fn lemma_columns_after_order(
    columns: Seq<Seq<char>>,
    given: Seq<Seq<char>>,
    entries: Seq<(String, Real)>,
    k: int,
)
    requires
        in_first_seen_order(columns, given),
        0 <= k <= entries.len(),
    ensures
        in_first_seen_order(
            columns_after(columns, entries, k),
            given + Seq::new(k as nat, |j: int| entries[j].0@),
        ),
    decreases k,
{
    let more = Seq::new(k as nat, |j: int| entries[j].0@);
    if k == 0 {
        assert(given + more =~= given);
    } else {
        lemma_columns_after_order(columns, given, entries, k - 1);
        let before = Seq::new((k - 1) as nat, |j: int| entries[j].0@);
        lemma_first_seen_push(
            columns_after(columns, entries, k - 1),
            given + before,
            entries[k - 1].0@,
            columns_after(columns, entries, k),
        );
        assert((given + before).push(entries[k - 1].0@) =~= given + more);
    }
}

/// The metric columns are the names that occur in the rows, each once, in the order in
/// which they first occur.
pub proof fn columns_stand_in_first_seen_order(records: Seq<MetricRecord>, k: int)
    requires
        0 <= k <= records.len(),
    ensures
        in_first_seen_order(columns_of(records, k), names_given(records, k)),
    decreases k,
{
    if k > 0 {
        columns_stand_in_first_seen_order(records, k - 1);
        let entries = records[k - 1].values.entries@;
        lemma_columns_after_order(
            columns_of(records, k - 1),
            names_given(records, k - 1),
            entries,
            entries.len() as int,
        );
    }
}

/// An exported table holds every row where it stood: its step, epoch and phase, and
/// under each column the row's value of that metric, or nothing where the row lacks it.
pub proof fn tables_hold_every_row(columns: Seq<Seq<char>>, records: Seq<MetricRecord>, i: int)
    requires
        0 <= i < records.len(),
    ensures
        ({
            let rows = all_rows(columns, records, records.len() as int);
            &&& rows.len() == records.len()
            &&& rows[i].step == records[i].step
            &&& rows[i].epoch == records[i].epoch
            &&& rows[i].phase == types::phase_tag(records[i].phase)
            &&& rows[i].cells.len() == columns.len()
            &&& forall|c: int|
                0 <= c < columns.len() ==> (#[trigger] rows[i].cells[c] is Some
                    <==> records[i].values@.contains_key(columns[c])) && (rows[i].cells[c]
                    matches Some(v) ==> v == records[i].values@[columns[c]])
        }),
{
}

/// A field is quoted exactly when it holds a comma, a quote or a line break of either
/// sort; any other field stands as it is. A quoted field begins and ends with a quote, and
/// only its own quotes are written twice.
#[verifier::spinoff_prover]
pub proof fn fields_are_quoted_where_needed(field: Seq<char>)
    ensures
        ({
            let special = field.contains(',') || field.contains('"') || field.contains('\n')
                || field.contains('\r');
            let written = escaped(field);
            &&& !special ==> written == field
            &&& special ==> {
                &&& written.len() == field.len() + 2 + field.filter(|c: char| c == '"').len()
                &&& written[0] == '"'
                &&& written[written.len() - 1] == '"'
                &&& written.subrange(1, written.len() - 1).filter(|c: char| c != '"')
                    == field.filter(|c: char| c != '"')
            }
        }),
{
    lemma_doubled_quotes(field);
    if field.contains(',') {
        let i = choose|i: int| 0 <= i < field.len() && field[i] == ',';
        assert(is_special(field[i]));
    }
    if field.contains('"') {
        let i = choose|i: int| 0 <= i < field.len() && field[i] == '"';
        assert(is_special(field[i]));
    }
    if field.contains('\n') {
        let i = choose|i: int| 0 <= i < field.len() && field[i] == '\n';
        assert(is_special(field[i]));
    }
    if field.contains('\r') {
        let i = choose|i: int| 0 <= i < field.len() && field[i] == '\r';
        assert(is_special(field[i]));
    }
    if needs_quotes(field) {
        let i = choose|i: int| 0 <= i < field.len() && is_special(#[trigger] field[i]);
        assert(field.contains(field[i]));
        let written = escaped(field);
        assert(written.subrange(1, written.len() - 1) =~= doubled(field));
    }
}

#[verifier::spinoff_prover]
proof fn lemma_doubled_quotes(field: Seq<char>)
    ensures
        doubled(field).len() == field.len() + field.filter(|c: char| c == '"').len(),
        doubled(field).filter(|c: char| c != '"') == field.filter(|c: char| c != '"'),
    decreases field.len(),
{
    reveal(Seq::filter);
    let other = |c: char| c != '"';
    if field.len() > 0 {
        let front = field.drop_last();
        let d = doubled(front);
        lemma_doubled_quotes(front);
        if field.last() == '"' {
            assert(d.push('"').drop_last() =~= d);
            assert(d.push('"').push('"').drop_last() =~= d.push('"'));
            assert(d.push('"').filter(other) == d.filter(other));
        } else {
            assert(d.push(field.last()).drop_last() =~= d);
        }
    }
}

} // verus!
