//! How fast a run goes, and when it will be done.
use crate::base::types::{Event, EventView};
use crate::base::value;
use crate::base::value::Real;
use crate::engine::processor;
use crate::engine::processor::{DerivedMetric, DerivedView};
use std::collections::VecDeque;
use vstd::prelude::*;

verus! {

/// The step of a metric event.
pub open spec fn event_step(event: EventView) -> Option<u64> {
    match event {
        EventView::Metric { step, .. } => Some(step),
        EventView::MetricsBatch { step, .. } => Some(step),
        _ => None,
    }
}

/// The step of a metric event, if it is one.
pub fn step_of(event: &Event) -> (r: Option<u64>)
    ensures
        r == event_step(event@),
{
    match event {
        Event::Metric { step, .. } => Some(*step),
        Event::MetricsBatch { step, .. } => Some(*step),
        _ => None,
    }
}

/// Estimates steps per second, and the time left when the total is known.
pub struct Throughput {
    total_steps: Option<u64>,
    window: VecDeque<(Real, u64)>,
    capacity: usize,
    last_step: Option<u64>,
}

/// The samples after another one, of which the newest `capacity` are kept.
pub open spec fn window_after(window: Seq<(Real, u64)>, sample: (Real, u64), capacity: int) -> Seq<
    (Real, u64),
> {
    let w = window.push(sample);
    if w.len() > capacity {
        w.drop_first()
    } else {
        w
    }
}

/// What a window of samples says of the rate. `span` is the time between its
/// ends, `rate` the steps per second and `eta` the seconds left.
pub open spec fn estimates(
    window: Seq<(Real, u64)>,
    total: Option<u64>,
    span: Real,
    rate: Real,
    eta: Real,
) -> Seq<DerivedView> {
    if window.len() < 2 || (!span.nan() && span.rank() <= 0) {
        Seq::empty()
    } else if total is Some && value::zero().less(rate) {
        seq![
            DerivedView { name: "steps_per_sec"@, value: rate },
            DerivedView { name: "eta_secs"@, value: eta },
        ]
    } else {
        seq![DerivedView { name: "steps_per_sec"@, value: rate }]
    }
}

/// The steps left to `total` after `step`.
pub open spec fn steps_left(total: u64, step: u64) -> u64 {
    if total > step {
        (total - step) as u64
    } else {
        0
    }
}

impl Throughput {
    /// The total number of steps, if known.
    pub closed spec fn total(self) -> Option<u64> {
        self.total_steps
    }

    /// The samples that the rate is taken over: time and step, oldest first.
    pub closed spec fn samples(self) -> Seq<(Real, u64)> {
        self.window@
    }

    /// How many samples are kept.
    pub closed spec fn limit(self) -> nat {
        self.capacity as nat
    }

    /// The latest step that was counted.
    pub closed spec fn latest(self) -> Option<u64> {
        self.last_step
    }

    /// Steps rise from sample to sample up to the latest one.
    pub open spec fn wf(self) -> bool {
        &&& self.limit() >= 2
        &&& self.samples().len() <= self.limit()
        &&& forall|i: int, j: int|
            0 <= i < j < self.samples().len() ==> (#[trigger] self.samples()[i]).1 < (
            #[trigger] self.samples()[j]).1
        &&& self.samples().len() > 0 ==> self.latest() == Some(self.samples().last().1)
        &&& self.samples().len() == 0 ==> self.latest() is None
    }

    /// An estimator over the newest `window_capacity` samples. A rate needs two.
    pub fn new(total_steps: Option<u64>, window_capacity: usize) -> (t: Throughput)
        requires
            window_capacity >= 2,
        ensures
            t.wf(),
            t.total() == total_steps,
            t.samples() == Seq::<(Real, u64)>::empty(),
            t.limit() == window_capacity,
            t.latest() is None,
    {
        Throughput {
            total_steps,
            window: VecDeque::new(),
            capacity: window_capacity,
            last_step: None,
        }
    }

    /// Counts a step seen at `now`, and derives the rate and the time left.
    ///
    /// Only a step beyond the latest counts, so that several metrics of one
    /// step do not skew the rate. `elapsed(t0, t1)` is the time between two
    /// samples, `rate(steps, time)` the steps per second and `eta(steps, rate)`
    /// the time that steps take.
    pub fn observe<
        D: Fn(Real, Real) -> Real,
        R: Fn(u64, Real) -> Real,
        E: Fn(u64, Real) -> Real,
    >(&mut self, step: u64, now: Real, elapsed: &D, rate: &R, eta: &E) -> (out: Vec<DerivedMetric>)
        requires
            old(self).wf(),
            forall|a: Real, b: Real| call_requires(*elapsed, (a, b)),
            forall|n: u64, d: Real| call_requires(*rate, (n, d)),
            forall|n: u64, r: Real| call_requires(*eta, (n, r)),
        ensures
            final(self).wf(),
            final(self).total() == old(self).total(),
            final(self).limit() == old(self).limit(),
            (old(self).latest() matches Some(last) && step <= last) ==> final(self).samples()
                == old(self).samples() && final(self).latest() == old(self).latest()
                && processor::derived_views(out@) == Seq::<DerivedView>::empty(),
            !(old(self).latest() matches Some(last) && step <= last) ==> {
                &&& final(self).latest() == Some(step)
                &&& final(self).samples() == window_after(
                    old(self).samples(),
                    (now, step),
                    old(self).limit() as int,
                )
                &&& final(self).samples().len() < 2 ==> processor::derived_views(out@) == Seq::<
                    DerivedView,
                >::empty()
                &&& final(self).samples().len() >= 2 ==> exists|span: Real, r: Real, e: Real| {
                    &&& call_ensures(
                        *elapsed,
                        (final(self).samples()[0].0, final(self).samples().last().0),
                        span,
                    )
                    &&& (span.nan() || span.rank() > 0) ==> call_ensures(
                        *rate,
                        ((final(self).samples().last().1 - final(self).samples()[0].1) as u64, span),
                        r,
                    )
                    &&& (span.nan() || span.rank() > 0) && value::zero().less(r) ==> (
                    old(self).total() matches Some(total) ==> call_ensures(
                        *eta,
                        (steps_left(total, step), r),
                        e,
                    ))
                    &&& processor::derived_views(out@) == #[trigger] estimates(
                        final(self).samples(),
                        old(self).total(),
                        span,
                        r,
                        e,
                    )
                }
            },
    {
        let mut out: Vec<DerivedMetric> = Vec::new();
        assert(processor::derived_views(out@) =~= Seq::<DerivedView>::empty());
        match self.last_step {
            Some(last) => {
                if step <= last {
                    return out;
                }
            },
            None => {},
        }
        self.last_step = Some(step);
        self.window.push_back((now, step));
        if self.window.len() > self.capacity {
            let _ = self.window.pop_front();
        }
        let n: usize = self.window.len();
        if n < 2 {
            return out;
        }
        let (t0, s0) = self.window[0];
        let (t1, s1) = self.window[n - 1];
        let span: Real = elapsed(t0, t1);
        if !span.is_nan() && span.get_rank() <= 0 {
            assert(processor::derived_views(out@) == estimates(
                self.samples(),
                self.total(),
                span,
                span,
                span,
            ));
            return out;
        }
        assert(s0 < s1);
        let r: Real = rate(s1 - s0, span);
        out.push(DerivedMetric::new("steps_per_sec", r));
        match self.total_steps {
            Some(total) => {
                if value::zero().is_less(r) {
                    let left: u64 = if total > s1 {
                        total - s1
                    } else {
                        0
                    };
                    let e: Real = eta(left, r);
                    out.push(DerivedMetric::new("eta_secs", e));
                    assert(processor::derived_views(out@) =~= estimates(
                        self.samples(),
                        self.total(),
                        span,
                        r,
                        e,
                    ));
                } else {
                    assert(processor::derived_views(out@) =~= estimates(
                        self.samples(),
                        self.total(),
                        span,
                        r,
                        r,
                    ));
                }
            },
            None => {
                assert(processor::derived_views(out@) =~= estimates(
                    self.samples(),
                    self.total(),
                    span,
                    r,
                    r,
                ));
            },
        }
        out
    }
}

/// The samples kept once all of `samples` came in.
pub open spec fn window_reached(samples: Seq<(Real, u64)>, capacity: int) -> Seq<(Real, u64)>
    decreases samples.len(),
{
    if samples.len() == 0 {
        Seq::empty()
    } else {
        window_after(window_reached(samples.drop_last(), capacity), samples.last(), capacity)
    }
}

/// The rate is taken over the newest samples: however many came in, the window holds the
/// last ones, in order, up to its capacity.
pub proof fn windows_hold_the_newest_samples(samples: Seq<(Real, u64)>, capacity: int)
    requires
        capacity > 0,
    ensures
        window_reached(samples, capacity) == (if samples.len() <= capacity {
            samples
        } else {
            samples.skip(samples.len() - capacity)
        }),
    decreases samples.len(),
{
    if samples.len() > 0 {
        let before = samples.drop_last();
        windows_hold_the_newest_samples(before, capacity);
        assert(window_reached(samples, capacity) =~= (if samples.len() <= capacity {
            samples
        } else {
            samples.skip(samples.len() - capacity)
        }));
    }
}

/// A rate is derived exactly when there are two samples with time between them, and the
/// time left beside it exactly when the total is known and the rate is above 0.
pub proof fn rates_need_two_samples(
    window: Seq<(Real, u64)>,
    total: Option<u64>,
    span: Real,
    rate: Real,
    eta: Real,
)
    ensures
        ({
            let derived = estimates(window, total, span, rate, eta);
            let timed = window.len() >= 2 && (span.nan() || span.rank() > 0);
            &&& derived.len() > 0 <==> timed
            &&& timed ==> derived[0] == (DerivedView { name: "steps_per_sec"@, value: rate })
            &&& derived.len() > 1 <==> timed && total is Some && value::zero().less(rate)
            &&& derived.len() > 1 ==> derived.len() == 2 && derived[1] == (DerivedView {
                name: "eta_secs"@,
                value: eta,
            })
        }),
{
}

/// The steps left and the step reached make up the total; a run past its total has none
/// left.
pub proof fn steps_left_add_up(total: u64, step: u64)
    ensures
        step <= total ==> steps_left(total, step) + step == total,
        step >= total ==> steps_left(total, step) == 0,
{
}

} // verus!
