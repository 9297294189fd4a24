//! The earlier run that the demo compares itself with.
use crate::base::value::Real;
use crate::tui::ui;
use crate::tui::ui::{BaselineData, BaselineSeries};
use vstd::prelude::*;

verus! {

/// Points that the curve has at most, but for the rounding of the stride.
pub const DEMO_POINTS: u64 = 400;

/// The distance of two points of the curve.
pub open spec fn demo_stride(steps: u64) -> int {
    if steps / DEMO_POINTS == 0 {
        1
    } else {
        (steps / DEMO_POINTS) as int
    }
}

/// How many points the curve has.
pub open spec fn demo_count(steps: u64) -> int {
    (steps + demo_stride(steps) - 1) / demo_stride(steps)
}

/// The steps of the curve: each multiple of the stride below `steps`.
pub open spec fn demo_steps(steps: u64) -> Seq<u64> {
    Seq::new(demo_count(steps) as nat, |i: int| (i * demo_stride(steps)) as u64)
}

/// Whether the closure `f` gives each step the value that `g` gives it.
pub open spec fn follows<F: Fn(u64) -> Real>(f: F, g: spec_fn(u64) -> Real) -> bool {
    forall|step: u64, r: Real| call_ensures(f, (step,), r) ==> r == g(step)
}

/// The curves that the demo is compared with: the loss and its average, which
/// share one curve.
pub open spec fn demo_series(steps: u64, g: spec_fn(u64) -> Real) -> Seq<BaselineData> {
    let points = demo_steps(steps);
    let values = Seq::new(points.len(), |i: int| g(points[i]));
    seq![
        BaselineData { label: "loss"@, steps: points, values },
        BaselineData { label: "loss_ema"@, steps: points, values },
    ]
}

proof fn lemma_point(steps: u64, i: int)
    requires
        0 <= i < demo_count(steps),
    ensures
        0 <= i * demo_stride(steps) < steps,
{
    let stride = demo_stride(steps);
    let n = demo_count(steps);
    assert(n * stride <= steps + stride - 1) by (nonlinear_arith)
        requires
            n == (steps + stride - 1) / stride,
            stride > 0,
    ;
    assert(i * stride <= (n - 1) * stride) by (nonlinear_arith)
        requires
            i <= n - 1,
            stride > 0,
    ;
    assert((n - 1) * stride == n * stride - stride) by (nonlinear_arith);
    assert(0 <= i * stride) by (nonlinear_arith)
        requires
            0 <= i,
            stride > 0,
    ;
}

proof fn lemma_last_point(steps: u64, i: int, step: int)
    requires
        0 <= i,
        step == i * demo_stride(steps),
        i == 0 ==> steps > 0,
    ensures
        (i < demo_count(steps)) == (step < steps),
{
    let stride = demo_stride(steps);
    let n = demo_count(steps);
    if i < n {
        lemma_point(steps, i);
    } else {
        assert(steps <= n * stride) by (nonlinear_arith)
            requires
                n == (steps + stride - 1) / stride,
                stride > 0,
        ;
        assert(n * stride <= i * stride) by (nonlinear_arith)
            requires
                n <= i,
                stride > 0,
        ;
    }
}

/// The earlier run that the demo compares itself with: the given loss curve at
/// about as many points as a chart shows.
pub fn demo_baseline<F: Fn(u64) -> Real>(steps: u64, loss: &F) -> (r: Vec<BaselineSeries>)
    requires
        forall|step: u64| call_requires(*loss, (step,)),
    ensures
        forall|g: spec_fn(u64) -> Real| #[trigger]
            follows(*loss, g) ==> ui::baseline_views(r@) == demo_series(steps, g),
{
    let mut stride: u64 = steps / DEMO_POINTS;
    if stride == 0 {
        stride = 1;
    }
    let mut s: Vec<u64> = Vec::new();
    let mut s_again: Vec<u64> = Vec::new();
    let mut v: Vec<Real> = Vec::new();
    let mut v_again: Vec<Real> = Vec::new();
    let mut step: u64 = 0;
    let mut more: bool = steps > 0;
    let ghost points = demo_steps(steps);
    proof {
        if steps > 0 {
            lemma_last_point(steps, 0, 0);
        } else {
            assert(demo_count(steps) == 0);
        }
    }
    while more
        invariant
            stride == demo_stride(steps),
            points == demo_steps(steps),
            forall|t: u64| call_requires(*loss, (t,)),
            demo_count(steps) >= 0,
            s@.len() <= demo_count(steps),
            more == (s@.len() < demo_count(steps)),
            more ==> step == s@.len() * stride,
            s@ == points.take(s@.len() as int),
            s_again@ == s@,
            v_again@ == v@,
            v@.len() == s@.len(),
            forall|i: int| 0 <= i < s@.len() ==> call_ensures(*loss, (points[i],), #[trigger] v@[i]),
        decreases demo_count(steps) - s@.len(),
    {
        proof {
            lemma_point(steps, s@.len() as int);
        }
        let value: Real = loss(step);
        let ghost k = s@.len() as int;
        assert(points[k] == step);
        s.push(step);
        s_again.push(step);
        v.push(value);
        v_again.push(value);
        assert(s@ =~= points.take(k + 1));
        proof {
            assert((k + 1) * stride == step + stride) by (nonlinear_arith)
                requires
                    step == k * stride,
            ;
            lemma_last_point(steps, k + 1, step + stride);
        }
        if steps - step > stride {
            step = step + stride;
        } else {
            more = false;
        }
    }
    assert(s@ =~= points);
    let mut out: Vec<BaselineSeries> = Vec::new();
    out.push(BaselineSeries { label: "loss".to_owned(), steps: s, values: v });
    out.push(BaselineSeries { label: "loss_ema".to_owned(), steps: s_again, values: v_again });
    proof {
        assert forall|g: spec_fn(u64) -> Real| #[trigger]
            follows(*loss, g) implies ui::baseline_views(out@) == demo_series(steps, g) by {
            assert(v@ =~= Seq::new(points.len(), |i: int| g(points[i])));
            assert(ui::baseline_views(out@) =~= demo_series(steps, g));
        }
    }
    out
}

/// The curve of the demo has a point at step 0 and at every stride from there on, as long
/// as the step lies before the end, and at no other step. The stride is a step, or as many
/// as keep the points few.
pub proof fn demo_points_cover_the_run(steps: u64, i: int)
    requires
        0 <= i < demo_count(steps),
    ensures
        demo_stride(steps) >= 1,
        steps >= DEMO_POINTS ==> demo_stride(steps) == steps as int / DEMO_POINTS as int,
        steps < DEMO_POINTS ==> demo_stride(steps) == 1,
        demo_steps(steps).len() == demo_count(steps),
        demo_steps(steps)[0] == 0,
        demo_steps(steps)[i] < steps,
        i + 1 < demo_count(steps) ==> demo_steps(steps)[i + 1] == demo_steps(steps)[i]
            + demo_stride(steps),
        i + 1 == demo_count(steps) ==> demo_steps(steps)[i] + demo_stride(steps) >= steps,
{
    lemma_point(steps, 0);
    lemma_point(steps, i);
    if i + 1 < demo_count(steps) {
        lemma_point(steps, i + 1);
    }
    let k = demo_stride(steps);
    assert((i + 1) * k == i * k + k) by (nonlinear_arith);
    lemma_last_point(steps, i + 1, (i + 1) * k);
    assert(0 * k == 0) by (nonlinear_arith);
}

/// The demo is compared with two curves, the loss and its average, which have the same
/// value at each of the same steps.
pub proof fn demo_curves_follow_the_loss(steps: u64, g: spec_fn(u64) -> Real, i: int)
    requires
        0 <= i < demo_count(steps),
    ensures
        ({
            let series = demo_series(steps, g);
            &&& series.len() == 2
            &&& series[0].label == "loss"@ && series[1].label == "loss_ema"@
            &&& series[0].steps == demo_steps(steps) && series[1].steps == demo_steps(steps)
            &&& series[0].values.len() == demo_count(steps)
            &&& series[0].values[i] == g(demo_steps(steps)[i])
            &&& series[1].values == series[0].values
        }),
{
}

} // verus!
