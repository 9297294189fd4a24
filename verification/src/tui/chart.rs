//! Chart drawing: spike-preserving compression, smoothing, and curves made of
//! braille characters (a grid of 2 by 4 dots in each character cell).
//!
//! Placing a step on the x axis, interpolating between two values and scaling a
//! value to a row are arithmetic on measured numbers; the functions here take
//! them as closures and decide everything else.
use crate::base::text;
use crate::base::value;
use crate::base::value::Real;
use vstd::prelude::*;

verus! {

/// The blank braille cell, a column with no plotted dots.
pub const BRAILLE_BLANK: char = '\u{2800}';

/// Where bucket `b` of `buckets` begins in a series of `len` points.
pub open spec fn bucket_start(b: int, len: int, buckets: int) -> int {
    b * len / buckets
}

/// Where bucket `b` of `buckets` ends, exclusively. A bucket holds a point.
pub open spec fn bucket_end(b: int, len: int, buckets: int) -> int {
    let start = bucket_start(b, len, buckets);
    let end = (b + 1) * len / buckets;
    let end = if end < start + 1 {
        start + 1
    } else {
        end
    };
    if end > len {
        len
    } else {
        end
    }
}

/// A range, or two zeros where there is none.
pub open spec fn range_or_zero(r: Option<(Real, Real)>) -> (Real, Real) {
    match r {
        Some(p) => p,
        None => (value::zero(), value::zero()),
    }
}

/// The (min, max) pairs that a series is compressed to.
pub open spec fn minmax_buckets(data: Seq<Real>, buckets: int) -> Seq<(Real, Real)> {
    if buckets <= 0 {
        Seq::empty()
    } else if data.len() <= buckets {
        Seq::new(
            data.len(),
            |i: int|
                if data[i].finite() {
                    (data[i], data[i])
                } else {
                    (value::zero(), value::zero())
                },
        )
    } else {
        Seq::new(
            buckets as nat,
            |b: int|
                range_or_zero(
                    value::finite_range(
                        data.subrange(
                            bucket_start(b, data.len() as int, buckets),
                            bucket_end(b, data.len() as int, buckets),
                        ),
                    ),
                ),
        )
    }
}

proof fn lemma_bucket_bounds(b: int, len: int, buckets: int)
    requires
        0 <= b < buckets < len,
    ensures
        0 <= bucket_start(b, len, buckets) < bucket_end(b, len, buckets) <= len,
        (b + 1) * len / buckets <= len,
        b * len >= 0,
        bucket_end(b, len, buckets) == (b + 1) * len / buckets,
{
    assert(b * len / buckets < len) by (nonlinear_arith)
        requires
            0 <= b < buckets < len,
    ;
    assert(0 <= b * len && 0 <= b * len / buckets) by (nonlinear_arith)
        requires
            0 <= b < buckets < len,
    ;
    assert((b + 1) * len / buckets <= len) by (nonlinear_arith)
        requires
            0 <= b < buckets < len,
    ;
    assert((b + 1) * len / buckets >= b * len / buckets + 1) by (nonlinear_arith)
        requires
            0 <= b < buckets < len,
    ;
}

/// Compresses `data` to `buckets` (min, max) pairs, left to right.
///
/// A bucket reports the least and the greatest finite value of its slice, so a
/// spike is never averaged away; a bucket with no finite value reports two
/// zeros. A series with no more points than buckets gives a pair for each point.
pub fn downsample_minmax(data: &[Real], buckets: usize) -> (r: Vec<(Real, Real)>)
    ensures
        r@ == minmax_buckets(data@, buckets as int),
{
    let mut out: Vec<(Real, Real)> = Vec::new();
    let len: usize = data.len();
    if buckets == 0 || len == 0 {
        assert(out@ == minmax_buckets(data@, buckets as int));
        return out;
    }
    let ghost goal = minmax_buckets(data@, buckets as int);
    if len <= buckets {
        let mut i: usize = 0;
        while i < len
            invariant
                i <= len == data@.len(),
                len <= buckets,
                goal == minmax_buckets(data@, buckets as int),
                out@ == goal.take(i as int),
            decreases len - i,
        {
            let v: Real = data[i];
            out.push(
                if v.is_finite() {
                    (v, v)
                } else {
                    (value::zero(), value::zero())
                },
            );
            assert(goal.take(i + 1) == goal.take(i as int).push(goal[i as int]));
            i = i + 1;
        }
        assert(goal.take(len as int) == goal);
        return out;
    }
    let mut b: usize = 0;
    while b < buckets
        invariant
            b <= buckets < len,
            len == data@.len(),
            goal == minmax_buckets(data@, buckets as int),
            out@ == goal.take(b as int),
        decreases buckets - b,
    {
        proof {
            lemma_bucket_bounds(b as int, len as int, buckets as int);
            assert(b * len <= u64::MAX * u64::MAX && (b + 1) * len <= u64::MAX * u64::MAX)
                by (nonlinear_arith)
                requires
                    0 <= b < buckets < len <= u64::MAX,
            ;
        }
        let start: usize = ((b as u128) * (len as u128) / (buckets as u128)) as usize;
        let end: usize = ((b as u128 + 1) * (len as u128) / (buckets as u128)) as usize;
        let band = match value::range_of(data, start, end) {
            Some(p) => p,
            None => (value::zero(), value::zero()),
        };
        out.push(band);
        assert(goal.take(b + 1) == goal.take(b as int).push(goal[b as int]));
        b = b + 1;
    }
    assert(goal.take(buckets as int) == goal);
    out
}

/// Every finite point of a series lies within the (min, max) pair of some
/// bucket: compression never hides a spike.
pub proof fn spikes_survive_downsampling(data: Seq<Real>, buckets: int, i: int)
    requires
        buckets > 0,
        0 <= i < data.len(),
        data[i].finite(),
    ensures
        exists|b: int|
            0 <= b < minmax_buckets(data, buckets).len()
                && (#[trigger] minmax_buckets(data, buckets)[b]).0.rank() <= data[i].rank()
                <= minmax_buckets(data, buckets)[b].1.rank(),
{
    let len = data.len() as int;
    if len <= buckets {
        assert(minmax_buckets(data, buckets)[i] == (data[i], data[i]));
    } else {
        assert(buckets * len / buckets == len) by (nonlinear_arith)
            requires
                buckets > 0,
        ;
        let b = lemma_bucket_of(i, len, buckets, buckets);
        lemma_bucket_bounds(b, len, buckets);
        let s = bucket_start(b, len, buckets);
        let slice = data.subrange(s, bucket_end(b, len, buckets));
        value::finite_range_bounds(slice);
        assert(slice[i - s] == data[i]);
        assert(minmax_buckets(data, buckets)[b] == range_or_zero(value::finite_range(slice)));
    }
}

/// The bucket that holds point `i`, searched below `upto`.
proof fn lemma_bucket_of(i: int, len: int, buckets: int, upto: int) -> (b: int)
    requires
        0 < buckets < len,
        0 < upto <= buckets,
        0 <= i < upto * len / buckets,
    ensures
        0 <= b < upto,
        bucket_start(b, len, buckets) <= i < bucket_end(b, len, buckets),
    decreases upto,
{
    lemma_bucket_bounds(upto - 1, len, buckets);
    if (upto - 1) * len / buckets <= i {
        upto - 1
    } else {
        assert(0 * len / buckets == 0) by (nonlinear_arith)
            requires
                buckets > 0,
        ;
        lemma_bucket_of(i, len, buckets, upto - 1)
    }
}

/// The finite min and max of `values`, or `None` when nothing is finite.
pub fn value_range(values: &[Real]) -> (r: Option<(Real, Real)>)
    ensures
        r == value::finite_range(values@),
{
    assert(values@.subrange(0, values@.len() as int) == values@);
    value::range_of(values, 0, values.len())
}

/// The smoothing span for a series of `n` points: 8% of them, rounded to the
/// nearest whole number and kept within 3 and 64.
pub open spec fn ema_span(n: int) -> int {
    let nearest = (2 * n * 8 + 100) / 200;
    if nearest < 3 {
        3
    } else if nearest > 64 {
        64
    } else {
        nearest
    }
}

/// The smoothing span for a series of `n` points.
pub fn adaptive_ema_span(n: usize) -> (r: usize)
    ensures
        r == ema_span(n as int),
{
    if n >= 1000 {
        return 64;
    }
    let nearest: usize = (16 * n + 100) / 200;
    if nearest < 3 {
        3
    } else if nearest > 64 {
        64
    } else {
        nearest
    }
}

/// Exponential smoothing up to position `k`: the running average after the
/// first `k` values. A value that is not finite leaves it as it is; the first
/// finite value, and the first after the average overflowed, starts it anew.
pub open spec fn running_average(
    values: Seq<Real>,
    span: usize,
    blend: spec_fn(Real, Real, usize) -> Real,
    k: int,
) -> Real
    decreases k,
{
    if k <= 0 {
        value::no_value()
    } else {
        let acc = running_average(values, span, blend, k - 1);
        let v = values[k - 1];
        if !v.finite() {
            acc
        } else if acc.finite() {
            blend(v, acc, span)
        } else {
            v
        }
    }
}

/// Whether the closure `f` computes the function `g`.
pub open spec fn blends<F: Fn(Real, Real, usize) -> Real>(
    f: F,
    g: spec_fn(Real, Real, usize) -> Real,
) -> bool {
    forall|v: Real, acc: Real, span: usize, r: Real|
        call_ensures(f, (v, acc, span), r) ==> r == g(v, acc, span)
}

/// The exponential moving average of `values` over `span` points.
///
/// `blend(v, acc, span)` mixes a value into the average with weight
/// `2 / (span + 1)`; `span` is at least 1. The result has one entry for each
/// value; entries before the first finite value are NaN.
pub fn ema_smooth<F: Fn(Real, Real, usize) -> Real>(values: &[Real], span: usize, blend: F) -> (r:
    Vec<Real>)
    requires
        forall|v: Real, acc: Real, n: usize| call_requires(blend, (v, acc, n)),
    ensures
        r@.len() == values@.len(),
        forall|i: int| 0 <= i < r@.len() && (forall|j: int| 0 <= j <= i ==> !(#[trigger] values@[j]).finite())
            ==> #[trigger] r@[i] == value::no_value(),
        forall|g: spec_fn(Real, Real, usize) -> Real, i: int|
            #![trigger blends(blend, g), r@[i]]
            blends(blend, g) && 0 <= i < r@.len() ==> r@[i] == running_average(
                values@,
                if span == 0 {
                    1
                } else {
                    span
                },
                g,
                i + 1,
            ),
{
    let n: usize = if span == 0 {
        1
    } else {
        span
    };
    let mut out: Vec<Real> = Vec::new();
    let mut acc: Real = value::no_value();
    let mut i: usize = 0;
    while i < values.len()
        invariant
            i <= values@.len(),
            out@.len() == i,
            forall|v: Real, a: Real, k: usize| call_requires(blend, (v, a, k)),
            forall|g: spec_fn(Real, Real, usize) -> Real| #[trigger]
                blends(blend, g) ==> acc == running_average(values@, n, g, i as int),
            (forall|j: int| 0 <= j < i ==> !(#[trigger] values@[j]).finite()) ==> acc == value::no_value(),
            forall|k: int| 0 <= k < i && (forall|j: int| 0 <= j <= k ==> !(#[trigger] values@[j]).finite())
                ==> #[trigger] out@[k] == value::no_value(),
            forall|g: spec_fn(Real, Real, usize) -> Real, k: int|
                #![trigger blends(blend, g), out@[k]]
                blends(blend, g) && 0 <= k < i ==> out@[k] == running_average(values@, n, g, k + 1),
        decreases values.len() - i,
    {
        let v: Real = values[i];
        if v.is_finite() {
            acc = if acc.is_finite() {
                blend(v, acc, n)
            } else {
                v
            };
        }
        out.push(acc);
        i = i + 1;
    }
    out
}

/// The dot of a braille cell at column `col` (0 or 1) and row `row` (0 at the
/// top, up to 3), as its weight in the character; 0 elsewhere.
pub open spec fn dot_weight(col: int, row: int) -> int {
    if col == 0 && row == 0 {
        0x01
    } else if col == 0 && row == 1 {
        0x02
    } else if col == 0 && row == 2 {
        0x04
    } else if col == 0 && row == 3 {
        0x40
    } else if col == 1 && row == 0 {
        0x08
    } else if col == 1 && row == 1 {
        0x10
    } else if col == 1 && row == 2 {
        0x20
    } else if col == 1 && row == 3 {
        0x80
    } else {
        0
    }
}

/// The braille dot bit at `(col, row)` of a cell.
pub fn dot_bit(col: usize, row: usize) -> (r: u8)
    ensures
        r == dot_weight(col as int, row as int),
{
    match (col, row) {
        (0, 0) => 0x01,
        (0, 1) => 0x02,
        (0, 2) => 0x04,
        (0, 3) => 0x40,
        (1, 0) => 0x08,
        (1, 1) => 0x10,
        (1, 2) => 0x20,
        (1, 3) => 0x80,
        _ => 0,
    }
}

/// Whether dot column `c` has a dot at row `y`, counted from the bottom: column
/// `c` is filled from the first to the second row of its band.
pub open spec fn lit(bands: Seq<(usize, usize)>, c: int, y: int) -> bool {
    0 <= c < bands.len() && bands[c].0 <= y <= bands[c].1
}

/// What one dot adds to its cell's character.
pub open spec fn dot_value(
    bands: Seq<(usize, usize)>,
    height: int,
    row: int,
    col: int,
    sub_col: int,
    sub_row: int,
) -> int {
    if lit(bands, 2 * col + sub_col, 4 * height - 1 - (4 * row + sub_row)) {
        dot_weight(sub_col, sub_row)
    } else {
        0
    }
}

/// The dots of the cell at `(row, col)`, summed.
pub open spec fn cell_dots(bands: Seq<(usize, usize)>, height: int, row: int, col: int) -> int {
    dot_value(bands, height, row, col, 0, 0) + dot_value(bands, height, row, col, 0, 1) + dot_value(
        bands,
        height,
        row,
        col,
        0,
        2,
    ) + dot_value(bands, height, row, col, 0, 3) + dot_value(bands, height, row, col, 1, 0)
        + dot_value(bands, height, row, col, 1, 1) + dot_value(bands, height, row, col, 1, 2)
        + dot_value(bands, height, row, col, 1, 3)
}

/// One character row of a band chart, `width` cells wide.
pub open spec fn band_row(bands: Seq<(usize, usize)>, width: int, height: int, row: int) -> Seq<
    char,
> {
    Seq::new(width as nat, |col: int| (0x2800 + cell_dots(bands, height, row, col)) as char)
}

/// The character rows of a band chart, top first.
pub open spec fn band_rows(bands: Seq<(usize, usize)>, width: int, height: int) -> Seq<Seq<char>> {
    Seq::new(height as nat, |row: int| band_row(bands, width, height, row))
}

/// `height` rows of `width` copies of `c`.
pub open spec fn blank_rows(c: char, width: int, height: int) -> Seq<Seq<char>> {
    Seq::new(height as nat, |row: int| text::run_of(c, width as nat))
}

fn dot_at(
    bands: &Vec<(usize, usize)>,
    height: usize,
    row: usize,
    col: usize,
    sub_col: usize,
    sub_row: usize,
) -> (r: u32)
    requires
        row < height,
        4 * height <= usize::MAX,
        2 * col + 1 <= usize::MAX,
        sub_col < 2,
        sub_row < 4,
    ensures
        r == dot_value(bands@, height as int, row as int, col as int, sub_col as int, sub_row as int),
        r == 0 || r == dot_weight(sub_col as int, sub_row as int),
{
    let c: usize = 2 * col + sub_col;
    let y: usize = 4 * height - 1 - (4 * row + sub_row);
    if c < bands.len() && bands[c].0 <= y && y <= bands[c].1 {
        dot_bit(sub_col, sub_row) as u32
    } else {
        0
    }
}

/// Draws bands as braille: `height` rows of `width` cells.
pub fn draw_bands(bands: &Vec<(usize, usize)>, width: usize, height: usize) -> (rows: Vec<String>)
    requires
        2 * width <= usize::MAX,
        4 * height <= usize::MAX,
    ensures
        text::texts(rows@) == band_rows(bands@, width as int, height as int),
{
    let mut rows: Vec<String> = Vec::new();
    let mut row: usize = 0;
    while row < height
        invariant
            row <= height,
            2 * width <= usize::MAX,
            4 * height <= usize::MAX,
            rows@.len() == row,
            forall|k: int|
                0 <= k < row ==> (#[trigger] rows@[k])@ == band_row(
                    bands@,
                    width as int,
                    height as int,
                    k,
                ),
        decreases height - row,
    {
        let mut line: String = String::new();
        let ghost goal = band_row(bands@, width as int, height as int, row as int);
        let mut col: usize = 0;
        while col < width
            invariant
                row < height,
                col <= width,
                2 * width <= usize::MAX,
                4 * height <= usize::MAX,
                goal == band_row(bands@, width as int, height as int, row as int),
                line@ == goal.take(col as int),
            decreases width - col,
        {
            let bits: u32 = dot_at(bands, height, row, col, 0, 0) + dot_at(
                bands,
                height,
                row,
                col,
                0,
                1,
            ) + dot_at(bands, height, row, col, 0, 2) + dot_at(bands, height, row, col, 0, 3)
                + dot_at(bands, height, row, col, 1, 0) + dot_at(bands, height, row, col, 1, 1)
                + dot_at(bands, height, row, col, 1, 2) + dot_at(bands, height, row, col, 1, 3);
            let c: char = match char::from_u32(0x2800 + bits) {
                Some(c) => c,
                None => ' ',
            };
            line.push(c);
            assert(goal.take(col + 1) == goal.take(col as int).push(goal[col as int]));
            col = col + 1;
        }
        assert(goal.take(width as int) == goal);
        rows.push(line);
        row = row + 1;
    }
    assert(text::texts(rows@) =~= band_rows(bands@, width as int, height as int));
    rows
}

/// `height` rows of `width` copies of `c`.
pub fn draw_blank(c: char, width: usize, height: usize) -> (rows: Vec<String>)
    ensures
        text::texts(rows@) == blank_rows(c, width as int, height as int),
{
    let mut rows: Vec<String> = Vec::new();
    let mut row: usize = 0;
    while row < height
        invariant
            row <= height,
            rows@.len() == row,
            forall|k: int| 0 <= k < row ==> (#[trigger] rows@[k])@ == text::run_of(c, width as nat),
        decreases height - row,
    {
        let mut line: String = String::new();
        text::push_run(&mut line, c, width);
        assert(line@ == text::run_of(c, width as nat));
        rows.push(line);
        row = row + 1;
    }
    assert(text::texts(rows@) =~= blank_rows(c, width as int, height as int));
    rows
}

/// Whether the closure `f` computes the function `g`: scaling a value between
/// the ends of the y axis to a row between 0 and the top row.
pub open spec fn scales<F: Fn(Real, Real, Real, usize) -> usize>(
    f: F,
    g: spec_fn(Real, Real, Real, usize) -> usize,
) -> bool {
    forall|v: Real, lo: Real, hi: Real, top: usize, r: usize|
        call_ensures(f, (v, lo, hi, top), r) ==> r == g(v, lo, hi, top)
}

/// A row kept on the grid.
pub open spec fn on_grid(row: usize, top: usize) -> usize {
    if row > top {
        top
    } else {
        row
    }
}

/// The bands of (min, max) columns.
pub open spec fn column_bands(
    columns: Seq<(Real, Real)>,
    lo: Real,
    hi: Real,
    top: usize,
    row: spec_fn(Real, Real, Real, usize) -> usize,
) -> Seq<(usize, usize)> {
    Seq::new(
        columns.len(),
        |c: int|
            (
                on_grid(row(columns[c].0, lo, hi, top), top),
                on_grid(row(columns[c].1, lo, hi, top), top),
            ),
    )
}

/// The text of a band chart of `data`.
pub open spec fn braille_chart(
    data: Seq<Real>,
    width: int,
    height: int,
    row: spec_fn(Real, Real, Real, usize) -> usize,
) -> Seq<Seq<char>> {
    if width == 0 || height == 0 {
        Seq::empty()
    } else {
        match value::finite_range(data) {
            None => blank_rows(' ', width, height),
            Some((lo, hi)) => band_rows(
                column_bands(
                    minmax_buckets(data, 2 * width),
                    lo,
                    hi,
                    (4 * height - 1) as usize,
                    row,
                ),
                width,
                height,
            ),
        }
    }
}

/// Draws `data` as a band chart of `width` by `height` character cells.
///
/// Each column is filled from its bucket's min to its max, so spikes show. The
/// y axis spans the finite values; `row(v, lo, hi, top)` scales a value to it.
/// No finite value, no plot: the rows are blank.
pub fn render_braille<F: Fn(Real, Real, Real, usize) -> usize>(
    data: &[Real],
    width: usize,
    height: usize,
    row: F,
) -> (rows: Vec<String>)
    requires
        2 * width <= usize::MAX,
        4 * height <= usize::MAX,
        forall|v: Real, lo: Real, hi: Real, top: usize| call_requires(row, (v, lo, hi, top)),
    ensures
        rows@.len() == (if width == 0 {
            0
        } else {
            height as nat
        }),
        forall|r: int| 0 <= r < rows@.len() ==> (#[trigger] rows@[r])@.len() == width,
        forall|g: spec_fn(Real, Real, Real, usize) -> usize| #[trigger]
            scales(row, g) ==> text::texts(rows@) == braille_chart(
                data@,
                width as int,
                height as int,
                g,
            ),
{
    if width == 0 || height == 0 {
        let none: Vec<String> = Vec::new();
        assert(text::texts(none@) =~= Seq::<Seq<char>>::empty());
        return none;
    }
    let (lo, hi) = match value_range(data) {
        None => {
            let rows = draw_blank(' ', width, height);
            proof {
                lemma_row_lengths(rows@, blank_rows(' ', width as int, height as int));
            }
            return rows;
        },
        Some(range) => range,
    };
    let top: usize = 4 * height - 1;
    let columns = downsample_minmax(data, 2 * width);
    let mut bands: Vec<(usize, usize)> = Vec::new();
    let mut c: usize = 0;
    while c < columns.len()
        invariant
            c <= columns@.len(),
            bands@.len() == c,
            forall|v: Real, l: Real, h: Real, t: usize| call_requires(row, (v, l, h, t)),
            forall|g: spec_fn(Real, Real, Real, usize) -> usize, k: int|
                #![trigger scales(row, g), bands@[k]]
                scales(row, g) && 0 <= k < c ==> bands@[k] == column_bands(
                    columns@,
                    lo,
                    hi,
                    top,
                    g,
                )[k],
        decreases columns.len() - c,
    {
        let a: usize = row(columns[c].0, lo, hi, top);
        let b: usize = row(columns[c].1, lo, hi, top);
        bands.push(
            (
                if a > top {
                    top
                } else {
                    a
                },
                if b > top {
                    top
                } else {
                    b
                },
            ),
        );
        c = c + 1;
    }
    let rows = draw_bands(&bands, width, height);
    proof {
        lemma_row_lengths(rows@, band_rows(bands@, width as int, height as int));
        assert forall|g: spec_fn(Real, Real, Real, usize) -> usize| #[trigger]
            scales(row, g) implies text::texts(rows@) == braille_chart(
            data@,
            width as int,
            height as int,
            g,
        ) by {
            assert(bands@ =~= column_bands(columns@, lo, hi, top, g));
        }
    }
    rows
}

proof fn lemma_row_lengths(rows: Seq<String>, goal: Seq<Seq<char>>)
    requires
        text::texts(rows) == goal,
    ensures
        rows.len() == goal.len(),
        forall|r: int| 0 <= r < rows.len() ==> (#[trigger] rows[r])@ == goal[r],
{
    assert forall|r: int| 0 <= r < rows.len() implies (#[trigger] rows[r])@ == goal[r] by {
        assert(text::texts(rows)[r] == rows[r]@);
    }
}

/// A chart over training steps: its rows, top first, and the step at each
/// character column.
#[derive(Debug, PartialEq)]
pub struct StepChart {
    pub rows: Vec<String>,
    pub col_steps: Vec<u64>,
}

/// A step chart as a mathematical value.
#[verifier::ext_equal]
pub struct StepChartView {
    pub rows: Seq<Seq<char>>,
    pub col_steps: Seq<u64>,
}

impl View for StepChart {
    type V = StepChartView;

    open spec fn view(&self) -> StepChartView {
        StepChartView { rows: text::texts(self.rows@), col_steps: self.col_steps@ }
    }
}

/// The arithmetic on measured numbers that a step chart needs.
pub struct ChartMath {
    /// The step at a column: (column, columns, first step, span of steps).
    pub place: spec_fn(usize, usize, u64, u64) -> u64,
    /// The value part of the way from one value to another: (from, to, part, whole).
    pub lerp: spec_fn(Real, Real, u64, u64) -> Real,
    /// The row of a value on the y axis: (value, low end, high end, top row).
    pub row: spec_fn(Real, Real, Real, usize) -> usize,
}

/// Whether the closure `f` places columns as `g` does.
pub open spec fn places<F: Fn(usize, usize, u64, u64) -> u64>(
    f: F,
    g: spec_fn(usize, usize, u64, u64) -> u64,
) -> bool {
    forall|c: usize, n: usize, s0: u64, span: u64, r: u64|
        call_ensures(f, (c, n, s0, span), r) ==> r == g(c, n, s0, span)
}

/// Whether the closure `f` interpolates as `g` does.
pub open spec fn lerps<F: Fn(Real, Real, u64, u64) -> Real>(
    f: F,
    g: spec_fn(Real, Real, u64, u64) -> Real,
) -> bool {
    forall|a: Real, b: Real, part: u64, whole: u64, r: Real|
        call_ensures(f, (a, b, part, whole), r) ==> r == g(a, b, part, whole)
}

/// How many steps the window `[s0, s1]` spans, at least 1.
pub open spec fn step_span(s0: u64, s1: u64) -> u64 {
    if s1 > s0 {
        (s1 - s0) as u64
    } else {
        1
    }
}

/// The step at column `c` of `n`.
pub open spec fn column_step(
    place: spec_fn(usize, usize, u64, u64) -> u64,
    s0: u64,
    span: u64,
    c: int,
    n: int,
) -> u64 {
    if n <= 1 {
        s0
    } else {
        place(c as usize, n as usize, s0, span)
    }
}

/// The steps at `n` columns.
pub open spec fn column_steps(
    place: spec_fn(usize, usize, u64, u64) -> u64,
    s0: u64,
    span: u64,
    n: int,
) -> Seq<u64> {
    Seq::new(n as nat, |c: int| column_step(place, s0, span, c, n))
}

/// Whether the closure `f` can be called on any arguments.
pub open spec fn total_place<F: Fn(usize, usize, u64, u64) -> u64>(f: F) -> bool {
    forall|c: usize, n: usize, s0: u64, span: u64| call_requires(f, (c, n, s0, span))
}

fn steps_at_columns<F: Fn(usize, usize, u64, u64) -> u64>(n: usize, s0: u64, span: u64, place: &F) -> (r:
    Vec<u64>)
    requires
        total_place(*place),
    ensures
        r@.len() == n,
        forall|g: spec_fn(usize, usize, u64, u64) -> u64| #[trigger]
            places(*place, g) ==> r@ == column_steps(g, s0, span, n as int),
{
    let mut out: Vec<u64> = Vec::new();
    let mut c: usize = 0;
    while c < n
        invariant
            c <= n,
            out@.len() == c,
            total_place(*place),
            forall|g: spec_fn(usize, usize, u64, u64) -> u64, k: int|
                #![trigger places(*place, g), out@[k]]
                places(*place, g) && 0 <= k < c ==> out@[k] == column_step(
                    g,
                    s0,
                    span,
                    k,
                    n as int,
                ),
        decreases n - c,
    {
        if n <= 1 {
            out.push(s0);
        } else {
            out.push(place(c, n, s0, span));
        }
        c = c + 1;
    }
    proof {
        assert forall|g: spec_fn(usize, usize, u64, u64) -> u64| #[trigger]
            places(*place, g) implies out@ == column_steps(g, s0, span, n as int) by {
            assert(out@ =~= column_steps(g, s0, span, n as int));
        }
    }
    out
}

/// The finite points among the first `k` whose step lies in `[s0, s1]`.
pub open spec fn window_points(steps: Seq<u64>, values: Seq<Real>, s0: u64, s1: u64, k: int) -> Seq<
    (u64, Real),
>
    decreases k,
{
    if k <= 0 {
        Seq::empty()
    } else {
        let before = window_points(steps, values, s0, s1, k - 1);
        if values[k - 1].finite() && s0 <= steps[k - 1] <= s1 {
            before.push((steps[k - 1], values[k - 1]))
        } else {
            before
        }
    }
}

fn points_in_window(steps: &[u64], values: &[Real], s0: u64, s1: u64) -> (r: Vec<(u64, Real)>)
    requires
        steps@.len() == values@.len(),
    ensures
        r@ == window_points(steps@, values@, s0, s1, steps@.len() as int),
{
    let mut out: Vec<(u64, Real)> = Vec::new();
    let mut k: usize = 0;
    while k < steps.len()
        invariant
            k <= steps@.len() == values@.len(),
            out@ == window_points(steps@, values@, s0, s1, k as int),
        decreases steps.len() - k,
    {
        if values[k].is_finite() && steps[k] >= s0 && steps[k] <= s1 {
            out.push((steps[k], values[k]));
        }
        k = k + 1;
    }
    out
}

/// The first position from `from` on whose step lies after `st`.
pub open spec fn first_after(pts: Seq<(u64, Real)>, st: u64, from: int) -> int
    decreases pts.len() - from,
{
    if from >= pts.len() || pts[from].0 > st {
        from
    } else {
        first_after(pts, st, from + 1)
    }
}

/// The value at step `st` on the line through `pts`, held constant before the
/// first and after the last point.
pub open spec fn line_at(
    lerp: spec_fn(Real, Real, u64, u64) -> Real,
    pts: Seq<(u64, Real)>,
    st: u64,
) -> Real {
    if st <= pts[0].0 {
        pts[0].1
    } else if st >= pts.last().0 {
        pts.last().1
    } else {
        let i = first_after(pts, st, 0);
        lerp(
            pts[i - 1].1,
            pts[i].1,
            (st - pts[i - 1].0) as u64,
            (pts[i].0 - pts[i - 1].0) as u64,
        )
    }
}

/// Linear interpolation of the value at step `st` over `pts`, which stand in
/// ascending step order.
pub fn interp_at<F: Fn(Real, Real, u64, u64) -> Real>(pts: &Vec<(u64, Real)>, st: u64, lerp: &F) -> (r:
    Real)
    requires
        pts@.len() > 0,
        forall|a: Real, b: Real, part: u64, whole: u64|
            call_requires(*lerp, (a, b, part, whole)),
    ensures
        st <= pts@[0].0 ==> r == pts@[0].1,
        st > pts@[0].0 && st >= pts@.last().0 ==> r == pts@.last().1,
        forall|g: spec_fn(Real, Real, u64, u64) -> Real| #[trigger]
            lerps(*lerp, g) ==> r == line_at(g, pts@, st),
{
    let last: usize = pts.len() - 1;
    if st <= pts[0].0 {
        return pts[0].1;
    }
    if st >= pts[last].0 {
        return pts[last].1;
    }
    let mut i: usize = 0;
    while pts[i].0 <= st
        invariant
            i <= last,
            last == pts@.len() - 1,
            pts@[0].0 < st < pts@[last as int].0,
            first_after(pts@, st, 0) == first_after(pts@, st, i as int),
            i > 0 ==> pts@[i - 1].0 <= st,
        decreases last - i,
    {
        i = i + 1;
    }
    lerp(pts[i - 1].1, pts[i].1, st - pts[i - 1].0, pts[i].0 - pts[i - 1].0)
}

/// The bands of a connected line through rows: each column reaches from its own
/// row to that of the column before.
pub open spec fn line_bands(ys: Seq<usize>) -> Seq<(usize, usize)> {
    Seq::new(
        ys.len(),
        |c: int|
            if c == 0 {
                (ys[0], ys[0])
            } else if ys[c - 1] <= ys[c] {
                (ys[c - 1], ys[c])
            } else {
                (ys[c], ys[c - 1])
            },
    )
}

/// A drawn line has no gaps: the row where a column stands is lit in that
/// column and in the next.
pub proof fn lines_are_connected(ys: Seq<usize>, c: int)
    requires
        0 <= c < ys.len(),
    ensures
        lit(line_bands(ys), c, ys[c] as int),
        c + 1 < ys.len() ==> lit(line_bands(ys), c + 1, ys[c] as int),
{
}

/// The row of a series at each of `n` dot columns.
pub open spec fn line_rows(
    m: ChartMath,
    pts: Seq<(u64, Real)>,
    n: int,
    s0: u64,
    span: u64,
    lo: Real,
    hi: Real,
    top: usize,
) -> Seq<usize> {
    Seq::new(
        n as nat,
        |c: int|
            on_grid(
                (m.row)(line_at(m.lerp, pts, column_step(m.place, s0, span, c, n)), lo, hi, top),
                top,
            ),
    )
}

/// A step chart of `values` over the step window `[s0, s1]` and the y axis
/// `[lo, hi]`.
pub open spec fn step_chart(
    m: ChartMath,
    values: Seq<Real>,
    steps: Seq<u64>,
    width: int,
    height: int,
    s0: u64,
    s1: u64,
    lo: Real,
    hi: Real,
) -> StepChartView {
    let span = step_span(s0, s1);
    let pts = window_points(steps, values, s0, s1, steps.len() as int);
    if width == 0 || height == 0 {
        StepChartView { rows: Seq::empty(), col_steps: Seq::empty() }
    } else if steps.len() != values.len() || !lo.finite() || !hi.finite() || pts.len() == 0 {
        StepChartView {
            rows: blank_rows(BRAILLE_BLANK, width, height),
            col_steps: column_steps(m.place, s0, span, width),
        }
    } else {
        StepChartView {
            rows: band_rows(
                line_bands(
                    line_rows(m, pts, 2 * width, s0, span, lo, hi, (4 * height - 1) as usize),
                ),
                width,
                height,
            ),
            col_steps: column_steps(m.place, s0, span, width),
        }
    }
}

fn bands_of_line(ys: &Vec<usize>) -> (r: Vec<(usize, usize)>)
    ensures
        r@ == line_bands(ys@),
{
    let mut out: Vec<(usize, usize)> = Vec::new();
    let mut c: usize = 0;
    while c < ys.len()
        invariant
            c <= ys@.len(),
            out@ == line_bands(ys@).take(c as int),
        decreases ys.len() - c,
    {
        if c == 0 {
            out.push((ys[0], ys[0]));
        } else if ys[c - 1] <= ys[c] {
            out.push((ys[c - 1], ys[c]));
        } else {
            out.push((ys[c], ys[c - 1]));
        }
        assert(line_bands(ys@).take(c + 1) == line_bands(ys@).take(c as int).push(
            line_bands(ys@)[c as int],
        ));
        c = c + 1;
    }
    assert(line_bands(ys@).take(ys@.len() as int) == line_bands(ys@));
    out
}

/// Draws a series as a connected line over the step window `[s0, s1]` and the
/// y axis `[g_min, g_max]`, so that two series can share their axes. Points
/// outside the window and values that are not finite are left out; with no
/// point left, or an axis that is not finite, the rows are blank.
pub fn render_braille_steps_scaled<
    P: Fn(usize, usize, u64, u64) -> u64,
    L: Fn(Real, Real, u64, u64) -> Real,
    R: Fn(Real, Real, Real, usize) -> usize,
>(
    values: &[Real],
    steps: &[u64],
    width: usize,
    height: usize,
    s0: u64,
    s1: u64,
    g_min: Real,
    g_max: Real,
    place: &P,
    lerp: &L,
    row: &R,
) -> (chart: StepChart)
    requires
        2 * width <= usize::MAX,
        4 * height <= usize::MAX,
        total_place(*place),
        forall|a: Real, b: Real, part: u64, whole: u64|
            call_requires(*lerp, (a, b, part, whole)),
        forall|v: Real, lo: Real, hi: Real, top: usize| call_requires(*row, (v, lo, hi, top)),
    ensures
        chart.rows@.len() == (if width == 0 {
            0
        } else {
            height as nat
        }),
        chart.col_steps@.len() == (if height == 0 {
            0
        } else {
            width as nat
        }),
        forall|r: int| 0 <= r < chart.rows@.len() ==> (#[trigger] chart.rows@[r])@.len() == width,
        forall|m: ChartMath|
            #![trigger places(*place, m.place), lerps(*lerp, m.lerp), scales(*row, m.row)]
            places(*place, m.place) && lerps(*lerp, m.lerp) && scales(*row, m.row) ==> chart@
                == step_chart(
                m,
                values@,
                steps@,
                width as int,
                height as int,
                s0,
                s1,
                g_min,
                g_max,
            ),
{
    if width == 0 || height == 0 {
        let chart = StepChart { rows: Vec::new(), col_steps: Vec::new() };
        assert(chart@.rows =~= Seq::<Seq<char>>::empty());
        return chart;
    }
    let span: u64 = if s1 > s0 {
        s1 - s0
    } else {
        1
    };
    let col_steps = steps_at_columns(width, s0, span, place);
    if steps.len() != values.len() || !g_min.is_finite() || !g_max.is_finite() {
        let rows = draw_blank(BRAILLE_BLANK, width, height);
        proof {
            lemma_row_lengths(rows@, blank_rows(BRAILLE_BLANK, width as int, height as int));
        }
        return StepChart { rows, col_steps };
    }
    let pts = points_in_window(steps, values, s0, s1);
    if pts.len() == 0 {
        let rows = draw_blank(BRAILLE_BLANK, width, height);
        proof {
            lemma_row_lengths(rows@, blank_rows(BRAILLE_BLANK, width as int, height as int));
        }
        return StepChart { rows, col_steps };
    }
    let top: usize = 4 * height - 1;
    let dot_w: usize = 2 * width;
    let dot_steps = steps_at_columns(dot_w, s0, span, place);
    let mut ys: Vec<usize> = Vec::new();
    let mut c: usize = 0;
    while c < dot_w
        invariant
            c <= dot_w,
            dot_w == dot_steps@.len(),
            ys@.len() == c,
            pts@.len() > 0,
            forall|a: Real, b: Real, part: u64, whole: u64|
                call_requires(*lerp, (a, b, part, whole)),
            forall|v: Real, lo: Real, hi: Real, t: usize| call_requires(*row, (v, lo, hi, t)),
            forall|g: spec_fn(usize, usize, u64, u64) -> u64| #[trigger]
                places(*place, g) ==> dot_steps@ == column_steps(g, s0, span, dot_w as int),
            forall|m: ChartMath, k: int|
                #![trigger places(*place, m.place), lerps(*lerp, m.lerp), scales(*row, m.row), ys@[k]]
                places(*place, m.place) && lerps(*lerp, m.lerp) && scales(*row, m.row) && 0 <= k < c
                    ==> ys@[k] == line_rows(m, pts@, dot_w as int, s0, span, g_min, g_max, top)[k],
        decreases dot_w - c,
    {
        let v: Real = interp_at(&pts, dot_steps[c], lerp);
        let y: usize = row(v, g_min, g_max, top);
        ys.push(
            if y > top {
                top
            } else {
                y
            },
        );
        c = c + 1;
    }
    let bands = bands_of_line(&ys);
    let rows = draw_bands(&bands, width, height);
    proof {
        lemma_row_lengths(rows@, band_rows(bands@, width as int, height as int));
        assert forall|m: ChartMath|
            #![trigger places(*place, m.place), lerps(*lerp, m.lerp), scales(*row, m.row)]
            places(*place, m.place) && lerps(*lerp, m.lerp) && scales(*row, m.row) implies ys@
            == line_rows(m, pts@, dot_w as int, s0, span, g_min, g_max, top) by {
            assert(ys@ =~= line_rows(m, pts@, dot_w as int, s0, span, g_min, g_max, top));
        }
    }
    StepChart { rows, col_steps }
}

/// Draws a series as a connected line, with both axes fitted to the data.
pub fn render_braille_steps<
    P: Fn(usize, usize, u64, u64) -> u64,
    L: Fn(Real, Real, u64, u64) -> Real,
    R: Fn(Real, Real, Real, usize) -> usize,
>(
    values: &[Real],
    steps: &[u64],
    width: usize,
    height: usize,
    place: &P,
    lerp: &L,
    row: &R,
) -> (chart: StepChart)
    requires
        2 * width <= usize::MAX,
        4 * height <= usize::MAX,
        total_place(*place),
        forall|a: Real, b: Real, part: u64, whole: u64|
            call_requires(*lerp, (a, b, part, whole)),
        forall|v: Real, lo: Real, hi: Real, top: usize| call_requires(*row, (v, lo, hi, top)),
    ensures
        chart.rows@.len() == (if width == 0 {
            0
        } else {
            height as nat
        }),
        chart.col_steps@.len() == (if height == 0 {
            0
        } else {
            width as nat
        }),
        forall|r: int| 0 <= r < chart.rows@.len() ==> (#[trigger] chart.rows@[r])@.len() == width,
        forall|m: ChartMath|
            #![trigger places(*place, m.place), lerps(*lerp, m.lerp), scales(*row, m.row)]
            places(*place, m.place) && lerps(*lerp, m.lerp) && scales(*row, m.row) ==> chart@
                == step_chart(
                m,
                values@,
                steps@,
                width as int,
                height as int,
                first_step(steps@),
                last_step(steps@),
                fitted_axis(values@).0,
                fitted_axis(values@).1,
            ),
{
    let s0: u64 = if steps.len() == 0 {
        0
    } else {
        steps[0]
    };
    let s1: u64 = if steps.len() == 0 {
        0
    } else {
        steps[steps.len() - 1]
    };
    let (g_min, g_max) = match value_range(values) {
        Some(range) => range,
        None => (value::no_value(), value::no_value()),
    };
    render_braille_steps_scaled(
        values,
        steps,
        width,
        height,
        s0,
        s1,
        g_min,
        g_max,
        place,
        lerp,
        row,
    )
}

/// The first step of a series, or 0.
pub open spec fn first_step(steps: Seq<u64>) -> u64 {
    if steps.len() == 0 {
        0
    } else {
        steps[0]
    }
}

/// The last step of a series, or 0.
pub open spec fn last_step(steps: Seq<u64>) -> u64 {
    if steps.len() == 0 {
        0
    } else {
        steps.last()
    }
}

/// The y axis that fits a series, or two NaNs when nothing is finite.
pub open spec fn fitted_axis(values: Seq<Real>) -> (Real, Real) {
    match value::finite_range(values) {
        Some(range) => range,
        None => (value::no_value(), value::no_value()),
    }
}

/// One part of the x axis with its own y axis: the steps from `start` to `end`,
/// both among them.
#[derive(Debug, Clone, Copy, PartialEq, Eq, Structural)]
pub struct Segment {
    pub start: u64,
    pub end: u64,
    pub min: Real,
    pub max: Real,
}

/// The first segment from `from` on that holds step `st`, or the last segment.
pub open spec fn segment_of(segments: Seq<Segment>, st: u64, from: int) -> int
    decreases segments.len() - from,
{
    if from >= segments.len() {
        segments.len() - 1
    } else if segments[from].start <= st <= segments[from].end {
        from
    } else {
        segment_of(segments, st, from + 1)
    }
}

fn find_segment(segments: &[Segment], st: u64) -> (si: usize)
    requires
        segments@.len() > 0,
    ensures
        si == segment_of(segments@, st, 0),
        si < segments@.len(),
{
    let mut i: usize = 0;
    while i < segments.len()
        invariant
            i <= segments@.len(),
            segment_of(segments@, st, 0) == segment_of(segments@, st, i as int),
        decreases segments.len() - i,
    {
        if st >= segments[i].start && st <= segments[i].end {
            return i;
        }
        i = i + 1;
    }
    segments.len() - 1
}

/// Where a series stands at each of `n` dot columns: the segment, and the row
/// on that segment's own y axis.
pub open spec fn segment_rows(
    m: ChartMath,
    pts: Seq<(u64, Real)>,
    n: int,
    s0: u64,
    span: u64,
    segments: Seq<Segment>,
    top: usize,
) -> Seq<(usize, usize)> {
    Seq::new(
        n as nat,
        |c: int|
            {
                let st = column_step(m.place, s0, span, c, n);
                let si = segment_of(segments, st, 0);
                (
                    si as usize,
                    on_grid(
                        (m.row)(line_at(m.lerp, pts, st), segments[si].min, segments[si].max, top),
                        top,
                    ),
                )
            },
    )
}

/// The bands of a line that is connected within a segment and breaks between
/// segments.
pub open spec fn broken_bands(at: Seq<(usize, usize)>) -> Seq<(usize, usize)> {
    Seq::new(
        at.len(),
        |c: int|
            if c == 0 || at[c - 1].0 != at[c].0 {
                (at[c].1, at[c].1)
            } else if at[c - 1].1 <= at[c].1 {
                (at[c - 1].1, at[c].1)
            } else {
                (at[c].1, at[c - 1].1)
            },
    )
}

/// Where the line enters another segment, only the column's own row is lit.
pub proof fn lines_break_between_segments(at: Seq<(usize, usize)>, c: int, y: int)
    requires
        0 < c < at.len(),
        at[c - 1].0 != at[c].0,
    ensures
        lit(broken_bands(at), c, y) <==> y == at[c].1,
{
}

fn bands_of_broken_line(at: &Vec<(usize, usize)>) -> (r: Vec<(usize, usize)>)
    ensures
        r@ == broken_bands(at@),
{
    let mut out: Vec<(usize, usize)> = Vec::new();
    let mut c: usize = 0;
    while c < at.len()
        invariant
            c <= at@.len(),
            out@ == broken_bands(at@).take(c as int),
        decreases at.len() - c,
    {
        if c == 0 || at[c - 1].0 != at[c].0 {
            out.push((at[c].1, at[c].1));
        } else if at[c - 1].1 <= at[c].1 {
            out.push((at[c - 1].1, at[c].1));
        } else {
            out.push((at[c].1, at[c - 1].1));
        }
        assert(broken_bands(at@).take(c + 1) == broken_bands(at@).take(c as int).push(
            broken_bands(at@)[c as int],
        ));
        c = c + 1;
    }
    assert(broken_bands(at@).take(at@.len() as int) == broken_bands(at@));
    out
}

/// A step chart whose x segments have y axes of their own.
pub open spec fn segment_chart(
    m: ChartMath,
    values: Seq<Real>,
    steps: Seq<u64>,
    width: int,
    height: int,
    s0: u64,
    s1: u64,
    segments: Seq<Segment>,
) -> StepChartView {
    let span = step_span(s0, s1);
    let pts = window_points(steps, values, s0, s1, steps.len() as int);
    StepChartView {
        rows: if width == 0 || height == 0 || segments.len() == 0 || steps.len() != values.len()
            || pts.len() == 0 {
            blank_rows(BRAILLE_BLANK, width, height)
        } else {
            band_rows(
                broken_bands(
                    segment_rows(
                        m,
                        pts,
                        2 * width,
                        s0,
                        span,
                        segments,
                        (4 * height - 1) as usize,
                    ),
                ),
                width,
                height,
            )
        },
        col_steps: column_steps(m.place, s0, span, width),
    }
}

/// Draws a series as a line on which each segment is scaled to its own y axis.
/// The line breaks where one segment ends and the next begins.
pub fn render_braille_segments<
    P: Fn(usize, usize, u64, u64) -> u64,
    L: Fn(Real, Real, u64, u64) -> Real,
    R: Fn(Real, Real, Real, usize) -> usize,
>(
    values: &[Real],
    steps: &[u64],
    width: usize,
    height: usize,
    s0: u64,
    s1: u64,
    segments: &[Segment],
    place: &P,
    lerp: &L,
    row: &R,
) -> (chart: StepChart)
    requires
        2 * width <= usize::MAX,
        4 * height <= usize::MAX,
        total_place(*place),
        forall|a: Real, b: Real, part: u64, whole: u64|
            call_requires(*lerp, (a, b, part, whole)),
        forall|v: Real, lo: Real, hi: Real, top: usize| call_requires(*row, (v, lo, hi, top)),
    ensures
        chart.rows@.len() == height,
        chart.col_steps@.len() == width,
        forall|r: int| 0 <= r < height ==> (#[trigger] chart.rows@[r])@.len() == width,
        forall|m: ChartMath|
            #![trigger places(*place, m.place), lerps(*lerp, m.lerp), scales(*row, m.row)]
            places(*place, m.place) && lerps(*lerp, m.lerp) && scales(*row, m.row) ==> chart@
                == segment_chart(
                m,
                values@,
                steps@,
                width as int,
                height as int,
                s0,
                s1,
                segments@,
            ),
{
    let span: u64 = if s1 > s0 {
        s1 - s0
    } else {
        1
    };
    let col_steps = steps_at_columns(width, s0, span, place);
    let rows = draw_blank(BRAILLE_BLANK, width, height);
    proof {
        lemma_row_lengths(rows@, blank_rows(BRAILLE_BLANK, width as int, height as int));
    }
    if width == 0 || height == 0 || segments.len() == 0 || steps.len() != values.len() {
        return StepChart { rows, col_steps };
    }
    let pts = points_in_window(steps, values, s0, s1);
    if pts.len() == 0 {
        return StepChart { rows, col_steps };
    }
    let top: usize = 4 * height - 1;
    let dot_w: usize = 2 * width;
    let dot_steps = steps_at_columns(dot_w, s0, span, place);
    let mut at: Vec<(usize, usize)> = Vec::new();
    let mut c: usize = 0;
    while c < dot_w
        invariant
            c <= dot_w,
            dot_w == dot_steps@.len(),
            at@.len() == c,
            pts@.len() > 0,
            segments@.len() > 0,
            forall|a: Real, b: Real, part: u64, whole: u64|
                call_requires(*lerp, (a, b, part, whole)),
            forall|v: Real, lo: Real, hi: Real, t: usize| call_requires(*row, (v, lo, hi, t)),
            forall|g: spec_fn(usize, usize, u64, u64) -> u64| #[trigger]
                places(*place, g) ==> dot_steps@ == column_steps(g, s0, span, dot_w as int),
            forall|m: ChartMath, k: int|
                #![trigger places(*place, m.place), lerps(*lerp, m.lerp), scales(*row, m.row), at@[k]]
                places(*place, m.place) && lerps(*lerp, m.lerp) && scales(*row, m.row) && 0 <= k < c
                    ==> at@[k] == segment_rows(m, pts@, dot_w as int, s0, span, segments@, top)[k],
        decreases dot_w - c,
    {
        let st: u64 = dot_steps[c];
        let si: usize = find_segment(segments, st);
        let v: Real = interp_at(&pts, st, lerp);
        let y: usize = row(v, segments[si].min, segments[si].max, top);
        at.push(
            (
                si,
                if y > top {
                    top
                } else {
                    y
                },
            ),
        );
        c = c + 1;
    }
    let bands = bands_of_broken_line(&at);
    let rows = draw_bands(&bands, width, height);
    proof {
        lemma_row_lengths(rows@, band_rows(bands@, width as int, height as int));
        assert forall|m: ChartMath|
            #![trigger places(*place, m.place), lerps(*lerp, m.lerp), scales(*row, m.row)]
            places(*place, m.place) && lerps(*lerp, m.lerp) && scales(*row, m.row) implies at@
            == segment_rows(m, pts@, dot_w as int, s0, span, segments@, top) by {
            assert(at@ =~= segment_rows(m, pts@, dot_w as int, s0, span, segments@, top));
        }
    }
    StepChart { rows, col_steps }
}

/// What a dot of a braille cell weighs in its character: the dots of the left column are
/// numbers 1, 2, 3 and 7 from the top, those of the right column 4, 5, 6 and 8, and dot
/// `n` stands for bit `n - 1`.
pub open spec fn braille_weight(left: bool, from_top: int) -> int {
    if left {
        if from_top == 0 {
            1
        } else if from_top == 1 {
            2
        } else if from_top == 2 {
            4
        } else {
            64
        }
    } else {
        if from_top == 0 {
            8
        } else if from_top == 1 {
            16
        } else if from_top == 2 {
            32
        } else {
            128
        }
    }
}

/// Whether a drawing of `height` text rows shows the dot at column `c` from the left and
/// row `y` from the bottom.
pub open spec fn dot_shown(rows: Seq<Seq<char>>, height: int, c: int, y: int) -> bool {
    let from_top = 4 * height - 1 - y;
    let cell = rows[from_top / 4][c / 2] as int - 0x2800;
    cell / braille_weight(c % 2 == 0, from_top % 4) % 2 == 1
}

/// What a dot adds to its cell.
spec fn bit(b: bool, weight: int) -> int {
    if b {
        weight
    } else {
        0
    }
}

#[verifier::spinoff_prover]
proof fn lemma_bits(
    a0: bool,
    a1: bool,
    a2: bool,
    a3: bool,
    a4: bool,
    a5: bool,
    a6: bool,
    a7: bool,
)
    ensures
        ({
            let x = bit(a0, 1) + bit(a1, 2) + bit(a2, 4) + bit(a3, 8) + bit(a4, 16) + bit(a5, 32)
                + bit(a6, 64) + bit(a7, 128);
            &&& 0 <= x < 256
            &&& (x / 1 % 2 == 1) == a0
            &&& (x / 2 % 2 == 1) == a1
            &&& (x / 4 % 2 == 1) == a2
            &&& (x / 8 % 2 == 1) == a3
            &&& (x / 16 % 2 == 1) == a4
            &&& (x / 32 % 2 == 1) == a5
            &&& (x / 64 % 2 == 1) == a6
            &&& (x / 128 % 2 == 1) == a7
        }),
{
    let b0: int = bit(a0, 1);
    let b1: int = bit(a1, 1);
    let b2: int = bit(a2, 1);
    let b3: int = bit(a3, 1);
    let b4: int = bit(a4, 1);
    let b5: int = bit(a5, 1);
    let b6: int = bit(a6, 1);
    let b7: int = bit(a7, 1);
    let x = b0 + 2 * b1 + 4 * b2 + 8 * b3 + 16 * b4 + 32 * b5 + 64 * b6 + 128 * b7;
    assert(x / 2 == b1 + 2 * b2 + 4 * b3 + 8 * b4 + 16 * b5 + 32 * b6 + 64 * b7);
    assert(x / 4 == b2 + 2 * b3 + 4 * b4 + 8 * b5 + 16 * b6 + 32 * b7);
    assert(x / 8 == b3 + 2 * b4 + 4 * b5 + 8 * b6 + 16 * b7);
    assert(x / 16 == b4 + 2 * b5 + 4 * b6 + 8 * b7);
    assert(x / 32 == b5 + 2 * b6 + 4 * b7);
    assert(x / 64 == b6 + 2 * b7);
    assert(x / 128 == b7);
}

/// A drawing of bands has the size asked for, and shows the dot at column `c` and row `y`
/// from the bottom exactly when column `c` has a band that reaches over row `y`.
#[verifier::spinoff_prover]
pub proof fn drawings_show_their_bands(
    bands: Seq<(usize, usize)>,
    width: int,
    height: int,
    c: int,
    y: int,
)
    requires
        0 <= c < 2 * width,
        0 <= y < 4 * height,
    ensures
        band_rows(bands, width, height).len() == height,
        forall|r: int|
            0 <= r < height ==> (#[trigger] band_rows(bands, width, height)[r]).len() == width,
        dot_shown(band_rows(bands, width, height), height, c, y) <==> c < bands.len() && bands[c].0
            <= y <= bands[c].1,
{
    let from_top = 4 * height - 1 - y;
    let row = from_top / 4;
    let col = c / 2;
    let base = 4 * height - 1 - 4 * row;
    lemma_bits(
        lit(bands, 2 * col, base),
        lit(bands, 2 * col, base - 1),
        lit(bands, 2 * col, base - 2),
        lit(bands, 2 * col + 1, base),
        lit(bands, 2 * col + 1, base - 1),
        lit(bands, 2 * col + 1, base - 2),
        lit(bands, 2 * col, base - 3),
        lit(bands, 2 * col + 1, base - 3),
    );
    let x = cell_dots(bands, height, row, col);
    assert(0 <= row < height);
    assert(0 <= x < 256);
    assert(band_rows(bands, width, height)[row][col] == (0x2800 + x) as char);
    assert((0x2800 + x) as char as int == 0x2800 + x);
    assert(from_top % 4 == 0 || from_top % 4 == 1 || from_top % 4 == 2 || from_top % 4 == 3);
    assert(c % 2 == 0 || c % 2 == 1);
    assert(y == base - from_top % 4);
    assert(c == 2 * col + c % 2);
}

/// The points of a series within a window of steps: the finite ones, in order.
pub open spec fn points_within(steps: Seq<u64>, values: Seq<Real>, s0: u64, s1: u64) -> Seq<
    (u64, Real),
> {
    Seq::new(steps.len(), |i: int| (steps[i], values[i])).filter(
        |p: (u64, Real)| p.1.finite() && s0 <= p.0 <= s1,
    )
}

proof fn lemma_window_points(steps: Seq<u64>, values: Seq<Real>, s0: u64, s1: u64, k: int)
    requires
        0 <= k <= steps.len(),
    ensures
        window_points(steps, values, s0, s1, k) == Seq::new(
            steps.len(),
            |i: int| (steps[i], values[i]),
        ).take(k).filter(|p: (u64, Real)| p.1.finite() && s0 <= p.0 <= s1),
    decreases k,
{
    reveal(Seq::filter);
    let all = Seq::new(steps.len(), |i: int| (steps[i], values[i]));
    if k > 0 {
        lemma_window_points(steps, values, s0, s1, k - 1);
        assert(all.take(k).drop_last() =~= all.take(k - 1));
        assert(all.take(k).last() == (steps[k - 1], values[k - 1]));
    } else {
        assert(all.take(0) =~= Seq::<(u64, Real)>::empty());
    }
}

/// A chart draws the finite points whose step lies in its window, and no others, in the
/// order of the series.
pub proof fn windows_keep_their_points(steps: Seq<u64>, values: Seq<Real>, s0: u64, s1: u64)
    ensures
        window_points(steps, values, s0, s1, steps.len() as int) == points_within(
            steps,
            values,
            s0,
            s1,
        ),
{
    let all = Seq::new(steps.len(), |i: int| (steps[i], values[i]));
    lemma_window_points(steps, values, s0, s1, steps.len() as int);
    assert(all.take(steps.len() as int) =~= all);
}

/// Whether `v` is the value at step `st` on the line through `pts`: the first value up
/// to the first step, the last value from the last step on, and otherwise the value on
/// the way between the two neighbours, where `st` lies.
pub open spec fn on_line(
    lerp: spec_fn(Real, Real, u64, u64) -> Real,
    pts: Seq<(u64, Real)>,
    st: u64,
    v: Real,
) -> bool {
    &&& pts.len() > 0
    &&& st <= pts[0].0 ==> v == pts[0].1
    &&& pts[0].0 < st && pts[pts.len() - 1].0 <= st ==> v == pts[pts.len() - 1].1
    &&& pts[0].0 < st < pts[pts.len() - 1].0 ==> exists|i: int|
        #![trigger pts[i]]
        {
            &&& 0 < i < pts.len()
            &&& st < pts[i].0
            &&& forall|j: int| 0 <= j < i ==> (#[trigger] pts[j]).0 <= st
            &&& v == lerp(
                pts[i - 1].1,
                pts[i].1,
                (st - pts[i - 1].0) as u64,
                (pts[i].0 - pts[i - 1].0) as u64,
            )
        }
}

proof fn lemma_first_after(pts: Seq<(u64, Real)>, st: u64, from: int)
    requires
        0 <= from < pts.len(),
        pts.last().0 > st,
    ensures
        from <= first_after(pts, st, from) < pts.len(),
        pts[first_after(pts, st, from)].0 > st,
        forall|j: int|
            from <= j < first_after(pts, st, from) ==> (#[trigger] pts[j]).0 <= st,
    decreases pts.len() - from,
{
    if pts[from].0 <= st {
        lemma_first_after(pts, st, from + 1);
    }
}

/// Interpolation stays on the line: it holds the ends and otherwise goes from the last
/// point at or before the step to the first after it.
#[verifier::spinoff_prover]
pub proof fn interpolation_follows_the_line(
    lerp: spec_fn(Real, Real, u64, u64) -> Real,
    pts: Seq<(u64, Real)>,
    st: u64,
    v: Real,
)
    requires
        pts.len() > 0,
    ensures
        on_line(lerp, pts, st, v) <==> v == line_at(lerp, pts, st),
{
    if pts[0].0 < st < pts[pts.len() - 1].0 {
        lemma_first_after(pts, st, 0);
        let k = first_after(pts, st, 0);
        assert(pts[k].0 > st);
        if on_line(lerp, pts, st, v) {
            let i = choose|i: int|
                #![trigger pts[i]]
                {
                    &&& 0 < i < pts.len()
                    &&& st < pts[i].0
                    &&& forall|j: int| 0 <= j < i ==> (#[trigger] pts[j]).0 <= st
                    &&& v == lerp(
                        pts[i - 1].1,
                        pts[i].1,
                        (st - pts[i - 1].0) as u64,
                        (pts[i].0 - pts[i - 1].0) as u64,
                    )
                };
            if i < k {
                assert(pts[i].0 <= st);
            } else if k < i {
                assert(pts[k].0 <= st);
            }
        }
    }
}

/// A row number held within a grid whose top row is `top`.
pub open spec fn held(row: int, top: int) -> int {
    if row > top {
        top
    } else {
        row
    }
}

/// Whether row `y` lies between two rows, in whichever order they stand.
pub open spec fn between(a: int, b: int, y: int) -> bool {
    a <= y <= b || b <= y <= a
}

/// The step at dot column `c` of a chart over the window from `s0` to `s1`.
pub open spec fn dot_step(m: ChartMath, width: int, s0: u64, s1: u64, c: int) -> u64 {
    (m.place)(
        c as usize,
        (2 * width) as usize,
        s0,
        if s0 < s1 {
            (s1 - s0) as u64
        } else {
            1
        },
    )
}

/// The dot column before `c`; the first has none before it.
pub open spec fn column_before(c: int) -> int {
    if c == 0 {
        0
    } else {
        c - 1
    }
}

/// Whether the line through `pts` stands on row `y` at the step of column `c`.
pub open spec fn stands_at(
    m: ChartMath,
    pts: Seq<(u64, Real)>,
    width: int,
    height: int,
    s0: u64,
    s1: u64,
    lo: Real,
    hi: Real,
    c: int,
    y: int,
) -> bool {
    exists|v: Real|
        {
            &&& #[trigger] on_line(m.lerp, pts, dot_step(m, width, s0, s1, c), v)
            &&& y == held((m.row)(v, lo, hi, (4 * height - 1) as usize) as int, 4 * height - 1)
        }
}

/// A step chart shows the line through its points. At each dot column the line stands on
/// the row, counted from the bottom, to which its value at that column's step is scaled,
/// and the column shows exactly the dots from there to the row of the column before. A
/// line at the top of the axis is drawn in the first text row, one at the bottom in the
/// last, and a column of text has the step that was placed there.
#[verifier::spinoff_prover]
pub proof fn step_charts_show_their_line(
    m: ChartMath,
    values: Seq<Real>,
    steps: Seq<u64>,
    width: int,
    height: int,
    s0: u64,
    s1: u64,
    lo: Real,
    hi: Real,
    c: int,
    y: int,
)
    requires
        steps.len() == values.len(),
        lo.finite(),
        hi.finite(),
        points_within(steps, values, s0, s1).len() > 0,
        0 <= c < 2 * width <= usize::MAX,
        0 <= y < 4 * height <= usize::MAX,
    ensures
        ({
            let pts = points_within(steps, values, s0, s1);
            let chart = step_chart(m, values, steps, width, height, s0, s1, lo, hi);
            &&& chart.rows.len() == height
            &&& forall|r: int| 0 <= r < height ==> (#[trigger] chart.rows[r]).len() == width
            &&& exists|here: int, before: int|
                {
                    &&& #[trigger] stands_at(m, pts, width, height, s0, s1, lo, hi, c, here)
                    &&& #[trigger] stands_at(
                        m,
                        pts,
                        width,
                        height,
                        s0,
                        s1,
                        lo,
                        hi,
                        column_before(c),
                        before,
                    )
                    &&& dot_shown(chart.rows, height, c, y) <==> between(here, before, y)
                    &&& dot_shown(chart.rows, height, c, here)
                    &&& here == 4 * height - 1 ==> chart.rows[0][c / 2] != BRAILLE_BLANK
                    &&& here == 0 ==> chart.rows[height - 1][c / 2] != BRAILLE_BLANK
                }
        }),
{
    let pts = points_within(steps, values, s0, s1);
    windows_keep_their_points(steps, values, s0, s1);
    let top = (4 * height - 1) as usize;
    let span = step_span(s0, s1);
    let ys = line_rows(m, pts, 2 * width, s0, span, lo, hi, top);
    let bands = line_bands(ys);
    let rows = band_rows(bands, width, height);
    let b = column_before(c);
    let here = ys[c] as int;
    let before = ys[b] as int;
    lemma_line_stands(m, pts, width, height, s0, s1, lo, hi, c);
    lemma_line_stands(m, pts, width, height, s0, s1, lo, hi, b);
    assert(step_chart(m, values, steps, width, height, s0, s1, lo, hi).rows == rows);
    drawings_show_their_bands(bands, width, height, c, y);
    drawings_show_their_bands(bands, width, height, c, here);
    assert(bands.len() == 2 * width);
    assert(dot_shown(rows, height, c, y) <==> between(here, before, y));
    assert(dot_shown(rows, height, c, here));
    lemma_shown_is_drawn(rows, height, c, here);
}

#[verifier::spinoff_prover]
proof fn lemma_line_stands(
    m: ChartMath,
    pts: Seq<(u64, Real)>,
    width: int,
    height: int,
    s0: u64,
    s1: u64,
    lo: Real,
    hi: Real,
    c: int,
)
    requires
        pts.len() > 0,
        0 <= c < 2 * width <= usize::MAX,
        0 < 4 * height <= usize::MAX,
    ensures
        ({
            let top = (4 * height - 1) as usize;
            let y = line_rows(m, pts, 2 * width, s0, step_span(s0, s1), lo, hi, top)[c] as int;
            0 <= y < 4 * height && stands_at(m, pts, width, height, s0, s1, lo, hi, c, y)
        }),
{
    let st = column_step(m.place, s0, step_span(s0, s1), c, 2 * width);
    let v = line_at(m.lerp, pts, st);
    interpolation_follows_the_line(m.lerp, pts, st, v);
    assert(dot_step(m, width, s0, s1, c) == st);
    assert(on_line(m.lerp, pts, dot_step(m, width, s0, s1, c), v));
}

proof fn lemma_shown_is_drawn(rows: Seq<Seq<char>>, height: int, c: int, y: int)
    requires
        0 <= y < 4 * height,
        dot_shown(rows, height, c, y),
    ensures
        rows[(4 * height - 1 - y) / 4][c / 2] != BRAILLE_BLANK,
        y == 4 * height - 1 ==> rows[0][c / 2] != BRAILLE_BLANK,
        y == 0 ==> rows[height - 1][c / 2] != BRAILLE_BLANK,
{
}

/// A step chart has no rows without a size, is blank where there is nothing to draw, and
/// tells the step of each text column.
#[verifier::spinoff_prover]
pub proof fn step_charts_without_points_are_blank(
    m: ChartMath,
    values: Seq<Real>,
    steps: Seq<u64>,
    width: int,
    height: int,
    s0: u64,
    s1: u64,
    lo: Real,
    hi: Real,
)
    requires
        0 <= width,
        0 <= height,
    ensures
        ({
            let chart = step_chart(m, values, steps, width, height, s0, s1, lo, hi);
            let span = if s0 < s1 {
                (s1 - s0) as u64
            } else {
                1
            };
            &&& width == 0 || height == 0 ==> chart.rows.len() == 0 && chart.col_steps.len() == 0
            &&& width > 0 && height > 0 ==> {
                &&& chart.col_steps.len() == width
                &&& forall|c: int|
                    0 <= c < width ==> #[trigger] chart.col_steps[c] == (if width == 1 {
                        s0
                    } else {
                        (m.place)(c as usize, width as usize, s0, span)
                    })
                &&& (steps.len() != values.len() || !lo.finite() || !hi.finite() || points_within(
                    steps,
                    values,
                    s0,
                    s1,
                ).len() == 0) ==> chart.rows.len() == height && forall|r: int, k: int|
                    0 <= r < height && 0 <= k < width ==> chart.rows[r].len() == width
                        && #[trigger] chart.rows[r][k] == BRAILLE_BLANK
            }
        }),
{
    windows_keep_their_points(steps, values, s0, s1);
}

/// Whether segment `si` is the one whose axis a step is drawn on: the first that holds
/// the step, or the last when none does.
pub open spec fn drawn_on(segments: Seq<Segment>, st: u64, si: int) -> bool {
    &&& 0 <= si < segments.len()
    &&& forall|j: int|
        0 <= j < si ==> !((#[trigger] segments[j]).start <= st <= segments[j].end)
    &&& segments[si].start <= st <= segments[si].end || si == segments.len() - 1
}

/// Each step is drawn on the axis of the first segment that holds it, or of the last
/// segment when none does.
pub proof fn steps_find_their_segment(segments: Seq<Segment>, st: u64, from: int)
    requires
        0 <= from < segments.len(),
        forall|j: int|
            0 <= j < from ==> !((#[trigger] segments[j]).start <= st <= segments[j].end),
    ensures
        drawn_on(segments, st, segment_of(segments, st, from)),
    decreases segments.len() - from,
{
    if !(segments[from].start <= st <= segments[from].end) {
        if from + 1 < segments.len() {
            steps_find_their_segment(segments, st, from + 1);
        } else {
            reveal_with_fuel(segment_of, 2);
            assert(segment_of(segments, st, from) == from);
        }
    }
}

/// Whether the line through `pts` stands on row `y` of segment `si` at the step of
/// column `c`.
pub open spec fn stands_in(
    m: ChartMath,
    pts: Seq<(u64, Real)>,
    width: int,
    height: int,
    s0: u64,
    s1: u64,
    segments: Seq<Segment>,
    c: int,
    si: int,
    y: int,
) -> bool {
    &&& drawn_on(segments, dot_step(m, width, s0, s1, c), si)
    &&& exists|v: Real|
        {
            &&& #[trigger] on_line(m.lerp, pts, dot_step(m, width, s0, s1, c), v)
            &&& y == held(
                (m.row)(
                    v,
                    segments[si].min,
                    segments[si].max,
                    (4 * height - 1) as usize,
                ) as int,
                4 * height - 1,
            )
        }
}

/// A chart with segments shows the line through its points, each column on the axis of
/// its own segment. A column shows the dots from its own row to that of the column
/// before where both lie in one segment, and its own dot alone where the line enters
/// another segment.
#[verifier::spinoff_prover]
pub proof fn segment_charts_show_their_line(
    m: ChartMath,
    values: Seq<Real>,
    steps: Seq<u64>,
    width: int,
    height: int,
    s0: u64,
    s1: u64,
    segments: Seq<Segment>,
    c: int,
    y: int,
)
    requires
        steps.len() == values.len(),
        0 < segments.len() <= usize::MAX,
        points_within(steps, values, s0, s1).len() > 0,
        0 <= c < 2 * width <= usize::MAX,
        0 <= y < 4 * height <= usize::MAX,
    ensures
        ({
            let pts = points_within(steps, values, s0, s1);
            let chart = segment_chart(m, values, steps, width, height, s0, s1, segments);
            &&& chart.rows.len() == height
            &&& forall|r: int| 0 <= r < height ==> (#[trigger] chart.rows[r]).len() == width
            &&& exists|si: int, here: int, sb: int, before: int|
                {
                    &&& #[trigger] stands_in(m, pts, width, height, s0, s1, segments, c, si, here)
                    &&& #[trigger] stands_in(
                        m,
                        pts,
                        width,
                        height,
                        s0,
                        s1,
                        segments,
                        column_before(c),
                        sb,
                        before,
                    )
                    &&& dot_shown(chart.rows, height, c, y) <==> (if si == sb {
                        between(here, before, y)
                    } else {
                        y == here
                    })
                    &&& dot_shown(chart.rows, height, c, here)
                }
        }),
{
    let pts = points_within(steps, values, s0, s1);
    windows_keep_their_points(steps, values, s0, s1);
    let top = (4 * height - 1) as usize;
    let span = step_span(s0, s1);
    let at = segment_rows(m, pts, 2 * width, s0, span, segments, top);
    let bands = broken_bands(at);
    let rows = band_rows(bands, width, height);
    let b = column_before(c);
    let si = at[c].0 as int;
    let here = at[c].1 as int;
    let sb = at[b].0 as int;
    let before = at[b].1 as int;
    lemma_line_stands_in(m, pts, width, height, s0, s1, segments, c);
    lemma_line_stands_in(m, pts, width, height, s0, s1, segments, b);
    assert(segment_chart(m, values, steps, width, height, s0, s1, segments).rows == rows);
    drawings_show_their_bands(bands, width, height, c, y);
    drawings_show_their_bands(bands, width, height, c, here);
    assert(bands.len() == 2 * width);
    assert(dot_shown(rows, height, c, y) <==> (if si == sb {
        between(here, before, y)
    } else {
        y == here
    }));
    assert(dot_shown(rows, height, c, here));
}

#[verifier::spinoff_prover]
proof fn lemma_line_stands_in(
    m: ChartMath,
    pts: Seq<(u64, Real)>,
    width: int,
    height: int,
    s0: u64,
    s1: u64,
    segments: Seq<Segment>,
    c: int,
)
    requires
        pts.len() > 0,
        0 < segments.len() <= usize::MAX,
        0 <= c < 2 * width <= usize::MAX,
        0 < 4 * height <= usize::MAX,
    ensures
        ({
            let top = (4 * height - 1) as usize;
            let (si, y) = segment_rows(m, pts, 2 * width, s0, step_span(s0, s1), segments, top)[c];
            &&& 0 <= y < 4 * height
            &&& stands_in(m, pts, width, height, s0, s1, segments, c, si as int, y as int)
        }),
{
    let st = column_step(m.place, s0, step_span(s0, s1), c, 2 * width);
    let v = line_at(m.lerp, pts, st);
    assert(dot_step(m, width, s0, s1, c) == st);
    steps_find_their_segment(segments, st, 0);
    interpolation_follows_the_line(m.lerp, pts, st, v);
    assert(on_line(m.lerp, pts, dot_step(m, width, s0, s1, c), v));
}

/// A chart with segments is blank where there is nothing to draw, and always tells the
/// step of each text column.
#[verifier::spinoff_prover]
pub proof fn segment_charts_without_points_are_blank(
    m: ChartMath,
    values: Seq<Real>,
    steps: Seq<u64>,
    width: int,
    height: int,
    s0: u64,
    s1: u64,
    segments: Seq<Segment>,
)
    requires
        0 <= width,
        0 <= height,
    ensures
        ({
            let chart = segment_chart(m, values, steps, width, height, s0, s1, segments);
            let span = if s0 < s1 {
                (s1 - s0) as u64
            } else {
                1
            };
            &&& chart.rows.len() == height
            &&& chart.col_steps.len() == width
            &&& forall|c: int|
                0 <= c < width ==> #[trigger] chart.col_steps[c] == (if width == 1 {
                    s0
                } else {
                    (m.place)(c as usize, width as usize, s0, span)
                })
            &&& (segments.len() == 0 || steps.len() != values.len() || points_within(
                steps,
                values,
                s0,
                s1,
            ).len() == 0) ==> forall|r: int, k: int|
                0 <= r < height && 0 <= k < width ==> chart.rows[r].len() == width
                    && #[trigger] chart.rows[r][k] == BRAILLE_BLANK
        }),
{
    windows_keep_their_points(steps, values, s0, s1);
}

/// Whether `lo` and `hi` are the least and the greatest of the finite values of `data`
/// from position `from` up to `to`.
pub open spec fn spans(data: Seq<Real>, from: int, to: int, lo: Real, hi: Real) -> bool {
    &&& lo.finite() && hi.finite()
    &&& exists|i: int| from <= i < to && #[trigger] data[i] == lo
    &&& exists|i: int| from <= i < to && #[trigger] data[i] == hi
    &&& forall|i: int|
        from <= i < to && (#[trigger] data[i]).finite() ==> lo.rank() <= data[i].rank()
            <= hi.rank()
}

/// A compressed series has a pair for each point where there are no more points than
/// buckets, and one for each bucket otherwise. The buckets share the points out evenly
/// and in order, and the pair of a bucket is the least and the greatest of its finite
/// values, or two zeros where it has none.
#[verifier::spinoff_prover]
pub proof fn buckets_tell_their_extremes(data: Seq<Real>, buckets: int, b: int)
    requires
        buckets > 0,
    ensures
        minmax_buckets(data, buckets).len() == (if data.len() <= buckets {
            data.len() as int
        } else {
            buckets
        }),
        0 <= b < data.len() <= buckets && data[b].finite() ==> minmax_buckets(data, buckets)[b] == (
            data[b],
            data[b],
        ),
        0 <= b < data.len() <= buckets && !data[b].finite() ==> minmax_buckets(data, buckets)[b]
            == (value::zero(), value::zero()),
        0 <= b < buckets < data.len() ==> {
            let from = b * data.len() / buckets;
            let to = (b + 1) * data.len() / buckets;
            let pair = minmax_buckets(data, buckets)[b];
            &&& 0 <= from < to <= data.len()
            &&& (exists|i: int| from <= i < to && (#[trigger] data[i]).finite()) ==> spans(
                data,
                from,
                to,
                pair.0,
                pair.1,
            )
            &&& (forall|i: int| from <= i < to ==> !(#[trigger] data[i]).finite()) ==> pair == (
                value::zero(),
                value::zero(),
            )
        },
{
    let len = data.len() as int;
    if 0 <= b < buckets < len {
        lemma_bucket_bounds(b, len, buckets);
        lemma_spans(data, bucket_start(b, len, buckets), bucket_end(b, len, buckets));
    }
}

#[verifier::spinoff_prover]
pub(crate) proof fn lemma_spans(data: Seq<Real>, from: int, to: int)
    requires
        0 <= from <= to <= data.len(),
    ensures
        value::finite_range(data.subrange(from, to)) is None <==> forall|i: int|
            from <= i < to ==> !(#[trigger] data[i]).finite(),
        value::finite_range(data.subrange(from, to)) matches Some(p) ==> spans(
            data,
            from,
            to,
            p.0,
            p.1,
        ),
{
    let slice = data.subrange(from, to);
    value::finite_range_bounds(slice);
    match value::finite_range(slice) {
        None => {
            assert forall|i: int| from <= i < to implies !(#[trigger] data[i]).finite() by {
                assert(slice[i - from] == data[i]);
            }
        },
        Some((lo, hi)) => {
            let i = choose|i: int| 0 <= i < slice.len() && slice[i] == lo;
            assert(data[from + i] == lo);
            let j = choose|j: int| 0 <= j < slice.len() && slice[j] == hi;
            assert(data[from + j] == hi);
            assert forall|i: int| from <= i < to && (#[trigger] data[i]).finite() implies lo.rank()
                <= data[i].rank() <= hi.rank() by {
                assert(slice[i - from] == data[i]);
            }
        },
    }
}

/// A band chart is as large as asked for. With no finite value it is all spaces.
/// Otherwise its axis reaches from the least to the greatest finite value, and dot column
/// `c` shows exactly the dots from the row of that column's least value to the row of its
/// greatest, counted from the bottom.
#[verifier::spinoff_prover]
pub proof fn band_charts_show_their_columns(
    data: Seq<Real>,
    width: int,
    height: int,
    row: spec_fn(Real, Real, Real, usize) -> usize,
    c: int,
    y: int,
)
    requires
        0 <= c < 2 * width <= usize::MAX,
        0 <= y < 4 * height <= usize::MAX,
    ensures
        ({
            let rows = braille_chart(data, width, height, row);
            let top = (4 * height - 1) as usize;
            let columns = minmax_buckets(data, 2 * width);
            &&& rows.len() == height
            &&& forall|r: int| 0 <= r < height ==> (#[trigger] rows[r]).len() == width
            &&& (forall|i: int| 0 <= i < data.len() ==> !(#[trigger] data[i]).finite()) ==> forall|
                r: int,
                k: int,
            |
                0 <= r < height && 0 <= k < width ==> #[trigger] rows[r][k] == ' '
            &&& (exists|i: int| 0 <= i < data.len() && (#[trigger] data[i]).finite()) ==> exists|
                lo: Real,
                hi: Real,
            |
                {
                    &&& #[trigger] spans(data, 0, data.len() as int, lo, hi)
                    &&& dot_shown(rows, height, c, y) <==> c < columns.len() && held(
                        row(columns[c].0, lo, hi, top) as int,
                        4 * height - 1,
                    ) <= y <= held(row(columns[c].1, lo, hi, top) as int, 4 * height - 1)
                }
        }),
{
    let top = (4 * height - 1) as usize;
    let columns = minmax_buckets(data, 2 * width);
    lemma_spans(data, 0, data.len() as int);
    assert(data.subrange(0, data.len() as int) =~= data);
    match value::finite_range(data) {
        None => {},
        Some((lo, hi)) => {
            let bands = column_bands(columns, lo, hi, top, row);
            drawings_show_their_bands(bands, width, height, c, y);
            assert(spans(data, 0, data.len() as int, lo, hi));
        },
    }
}

/// The smoothing span is 8% of the points to the nearest whole number, but never under 3
/// nor over 64.
pub proof fn smoothing_spans_are_eight_percent(n: int)
    requires
        0 <= n,
    ensures
        3 <= ema_span(n) <= 64,
        3 < ema_span(n) < 64 ==> -50 <= 100 * ema_span(n) - 8 * n <= 50,
        ema_span(n) == 3 ==> 8 * n < 350,
        ema_span(n) == 64 ==> 8 * n >= 6350,
        ema_span(n) <= ema_span(n + 1),
{
}

/// The running average after each value: a value that is not finite leaves it alone; a
/// finite value starts it where there is no finite average yet, and is otherwise blended
/// into it.
pub proof fn averages_take_in_every_finite_value(
    values: Seq<Real>,
    span: usize,
    blend: spec_fn(Real, Real, usize) -> Real,
    i: int,
)
    requires
        0 <= i < values.len(),
    ensures
        ({
            let before = running_average(values, span, blend, i);
            let after = running_average(values, span, blend, i + 1);
            &&& running_average(values, span, blend, 0) == value::no_value()
            &&& !values[i].finite() ==> after == before
            &&& values[i].finite() && !before.finite() ==> after == values[i]
            &&& values[i].finite() && before.finite() ==> after == blend(values[i], before, span)
        }),
{
}

/// The axis that fits a series reaches from its least to its greatest finite value, and
/// is no axis where there is none.
pub proof fn fitted_axes_span_their_values(values: Seq<Real>)
    ensures
        (exists|i: int| 0 <= i < values.len() && (#[trigger] values[i]).finite()) ==> spans(
            values,
            0,
            values.len() as int,
            fitted_axis(values).0,
            fitted_axis(values).1,
        ),
        (forall|i: int| 0 <= i < values.len() ==> !(#[trigger] values[i]).finite()) ==> fitted_axis(
            values,
        ).0.nan() && fitted_axis(values).1.nan(),
{
    lemma_spans(values, 0, values.len() as int);
    assert(values.subrange(0, values.len() as int) =~= values);
}

/// The window that fits a series reaches from its first to its last step.
pub proof fn fitted_windows_span_their_steps(steps: Seq<u64>)
    ensures
        steps.len() > 0 ==> first_step(steps) == steps[0] && last_step(steps)
            == steps[steps.len() - 1],
        steps.len() == 0 ==> first_step(steps) == 0 && last_step(steps) == 0,
{
}

} // verus!
