//! Running statistics of one metric: moving average, mean and spread.
//!
//! A value that is not finite is passed over, so that one bad step never spoils
//! a statistic. The arithmetic itself comes in as closures.
use crate::base::queue;
use crate::base::text;
use crate::base::types::{Event, EventView, MetricId};
use crate::base::value;
use crate::base::value::Real;
use crate::engine::processor;
use crate::engine::processor::{DerivedMetric, DerivedView, Processor};
use vstd::prelude::*;

verus! {

/// The finite value of `target` that an event carries, if any.
pub open spec fn finite_sample(event: EventView, target: MetricId) -> Option<Real> {
    match processor::sample_of(event, target) {
        Some((_, v)) => if v.finite() {
            Some(v)
        } else {
            None
        },
        None => None,
    }
}

/// The value of `target` that an event carries, if any.
pub fn value_for(event: &Event, target: MetricId) -> (r: Option<Real>)
    ensures
        r == (match processor::sample_of(event@, target) {
            Some((_, v)) => Some(v),
            None => None,
        }),
{
    match processor::step_value(event, target) {
        Some((_, v)) => Some(v),
        None => None,
    }
}

/// Whether `alpha` is a weight: above 0 and at most 1.
pub open spec fn is_weight(alpha: Real) -> bool {
    value::zero().less(alpha) && alpha.rank() <= value::one().rank()
}

/// The exponential moving average of one metric.
///
/// `blend(value, average, alpha)` gives the next average.
pub struct Ema<B: Fn(Real, Real, Real) -> Real> {
    pub target: MetricId,
    pub out_name: String,
    pub alpha: Real,
    pub current: Option<Real>,
    pub blend: B,
}

impl<B: Fn(Real, Real, Real) -> Real> Ema<B> {
    /// An average without a value yet.
    pub fn new(target: MetricId, out_name: &str, alpha: Real, blend: B) -> (e: Ema<B>)
        requires
            is_weight(alpha),
            forall|v: Real, avg: Real, a: Real| call_requires(blend, (v, avg, a)),
        ensures
            e.target == target,
            e.out_name@ == out_name@,
            e.alpha == alpha,
            e.current is None,
            e.blend == blend,
    {
        Ema { target, out_name: out_name.to_owned(), alpha, current: None, blend }
    }

    /// The current average, if a value has arrived.
    pub fn value(&self) -> (r: Option<Real>)
        ensures
            r == self.current,
    {
        self.current
    }
}

impl<B: Fn(Real, Real, Real) -> Real + Send> Processor for Ema<B> {
    open spec fn ready(&self) -> bool {
        forall|v: Real, avg: Real, a: Real| call_requires(self.blend, (v, avg, a))
    }

    /// The first finite value is the average; each further one is blended in.
    /// Anything else leaves the average as it is and derives nothing.
    open spec fn gives(&self, event: EventView, after: &Self, derived: Seq<DerivedView>) -> bool {
        &&& after.target == self.target
        &&& after.out_name@ == self.out_name@
        &&& after.alpha == self.alpha
        &&& after.blend == self.blend
        &&& match finite_sample(event, self.target) {
            None => derived == Seq::<DerivedView>::empty() && after.current == self.current,
            Some(v) => after.current matches Some(next) && derived == seq![
                DerivedView { name: self.out_name@, value: next },
            ] && match self.current {
                None => next == v,
                Some(avg) => call_ensures(self.blend, (v, avg, self.alpha), next),
            },
        }
    }

    fn on_event(&mut self, event: &Event) -> (out: Vec<DerivedMetric>)
    {
        let mut out: Vec<DerivedMetric> = Vec::new();
        match value_for(event, self.target) {
            None => {
                assert(processor::derived_views(out@) =~= Seq::<DerivedView>::empty());
            },
            Some(v) => {
                if !v.is_finite() {
                    assert(processor::derived_views(out@) =~= Seq::<DerivedView>::empty());
                    return out;
                }
                let next: Real = match self.current {
                    Some(avg) => (self.blend)(v, avg, self.alpha),
                    None => v,
                };
                self.current = Some(next);
                out.push(DerivedMetric::new(self.out_name.as_str(), next));
                assert(processor::derived_views(out@) =~= seq![
                    DerivedView { name: self.out_name@, value: next },
                ]);
            },
        }
        out
    }
}

/// The running mean and spread of one metric.
///
/// `shift(mean, value, count)` gives the mean once `value` is the `count`-th
/// value; `grow(m2, value, mean, next_mean)` the sum of squared deviations; and
/// `spread(m2, count)` the sample standard deviation of two values or more.
pub struct Welford<
    M: Fn(Real, Real, u64) -> Real,
    G: Fn(Real, Real, Real, Real) -> Real,
    S: Fn(Real, u64) -> Real,
> {
    pub target: MetricId,
    pub mean_name: String,
    pub std_name: String,
    pub count: u64,
    pub mean: Real,
    pub m2: Real,
    pub shift: M,
    pub grow: G,
    pub spread: S,
}

impl<
    M: Fn(Real, Real, u64) -> Real,
    G: Fn(Real, Real, Real, Real) -> Real,
    S: Fn(Real, u64) -> Real,
> Welford<M, G, S> {
    /// A statistic without values yet. It derives `{base}_mean` and `{base}_std`.
    pub fn new(target: MetricId, base: &str, shift: M, grow: G, spread: S) -> (w: Welford<M, G, S>)
        requires
            forall|a: Real, v: Real, n: u64| call_requires(shift, (a, v, n)),
            forall|a: Real, v: Real, m: Real, k: Real| call_requires(grow, (a, v, m, k)),
            forall|a: Real, n: u64| call_requires(spread, (a, n)),
        ensures
            w.target == target,
            w.mean_name@ == base@ + "_mean"@,
            w.std_name@ == base@ + "_std"@,
            w.count == 0,
            w.mean == value::zero(),
            w.m2 == value::zero(),
            w.shift == shift,
            w.grow == grow,
            w.spread == spread,
    {
        Welford {
            target,
            mean_name: text::joined(base, "_mean"),
            std_name: text::joined(base, "_std"),
            count: 0,
            mean: value::zero(),
            m2: value::zero(),
            shift,
            grow,
            spread,
        }
    }

    /// The mean so far, 0 before the first value.
    pub fn mean(&self) -> (r: Real)
        ensures
            r == self.mean,
    {
        self.mean
    }

    /// The sample standard deviation so far, 0 before the second value.
    pub fn std_dev(&self) -> (r: Real)
        requires
            forall|a: Real, n: u64| call_requires(self.spread, (a, n)),
        ensures
            self.count <= 1 ==> r == value::zero(),
            self.count > 1 ==> call_ensures(self.spread, (self.m2, self.count), r),
    {
        if self.count > 1 {
            (self.spread)(self.m2, self.count)
        } else {
            value::zero()
        }
    }
}

impl<
    M: Fn(Real, Real, u64) -> Real + Send,
    G: Fn(Real, Real, Real, Real) -> Real + Send,
    S: Fn(Real, u64) -> Real + Send,
> Processor for Welford<M, G, S> {
    open spec fn ready(&self) -> bool {
        &&& forall|a: Real, v: Real, n: u64| call_requires(self.shift, (a, v, n))
        &&& forall|a: Real, v: Real, m: Real, k: Real| call_requires(self.grow, (a, v, m, k))
        &&& forall|a: Real, n: u64| call_requires(self.spread, (a, n))
    }

    /// A finite value moves the mean and the spread, and both are derived.
    /// Anything else leaves them as they are and derives nothing.
    open spec fn gives(&self, event: EventView, after: &Self, derived: Seq<DerivedView>) -> bool {
        &&& after.target == self.target
        &&& after.mean_name@ == self.mean_name@
        &&& after.std_name@ == self.std_name@
        &&& after.shift == self.shift
        &&& after.grow == self.grow
        &&& after.spread == self.spread
        &&& match finite_sample(event, self.target) {
            None => derived == Seq::<DerivedView>::empty() && after.count == self.count
                && after.mean == self.mean && after.m2 == self.m2,
            Some(v) => {
                &&& after.count == queue::one_more(self.count)
                &&& call_ensures(self.shift, (self.mean, v, after.count), after.mean)
                &&& call_ensures(self.grow, (self.m2, v, self.mean, after.mean), after.m2)
                &&& derived.len() == 2
                &&& derived[0] == (DerivedView { name: self.mean_name@, value: after.mean })
                &&& derived[1].name == self.std_name@
                &&& after.count <= 1 ==> derived[1].value == value::zero()
                &&& after.count > 1 ==> call_ensures(
                    self.spread,
                    (after.m2, after.count),
                    derived[1].value,
                )
            },
        }
    }

    fn on_event(&mut self, event: &Event) -> (out: Vec<DerivedMetric>)
    {
        let mut out: Vec<DerivedMetric> = Vec::new();
        match value_for(event, self.target) {
            None => {
                assert(processor::derived_views(out@) =~= Seq::<DerivedView>::empty());
            },
            Some(v) => {
                if !v.is_finite() {
                    assert(processor::derived_views(out@) =~= Seq::<DerivedView>::empty());
                    return out;
                }
                self.count = self.count.saturating_add(1);
                let before: Real = self.mean;
                let next: Real = (self.shift)(before, v, self.count);
                let m2: Real = (self.grow)(self.m2, v, before, next);
                self.mean = next;
                self.m2 = m2;
                let dev: Real = self.std_dev();
                out.push(DerivedMetric::new(self.mean_name.as_str(), next));
                out.push(DerivedMetric::new(self.std_name.as_str(), dev));
            },
        }
        out
    }
}

/// The moving average takes in every finite value of its metric and nothing else: the
/// first one is the average, each later one is blended into the average before it, and
/// each gives one derived value, the new average under its own name.
pub proof fn averages_take_in_finite_values<B: Fn(Real, Real, Real) -> Real + Send>(
    before: Ema<B>,
    event: EventView,
    after: Ema<B>,
    derived: Seq<DerivedView>,
)
    requires
        before.gives(event, &after, derived),
    ensures
        after.target == before.target && after.alpha == before.alpha && after.blend == before.blend,
        match processor::sample_of(event, before.target) {
            Some((_, v)) => if v.finite() {
                &&& derived.len() == 1
                &&& derived[0].name == before.out_name@
                &&& after.current == Some(derived[0].value)
                &&& before.current is None ==> after.current == Some(v)
                &&& before.current matches Some(avg) ==> call_ensures(
                    before.blend,
                    (v, avg, before.alpha),
                    after.current->0,
                )
            } else {
                derived.len() == 0 && after.current == before.current
            },
            None => derived.len() == 0 && after.current == before.current,
        },
{
}

/// The mean and spread take in every finite value of their metric and nothing else: each
/// is counted once, moves the mean and the sum of squares, and gives two derived values,
/// the new mean and the new spread, which is 0 for a single value.
pub proof fn means_take_in_finite_values<
    M: Fn(Real, Real, u64) -> Real + Send,
    G: Fn(Real, Real, Real, Real) -> Real + Send,
    S: Fn(Real, u64) -> Real + Send,
>(before: Welford<M, G, S>, event: EventView, after: Welford<M, G, S>, derived: Seq<DerivedView>)
    requires
        before.gives(event, &after, derived),
    ensures
        match processor::sample_of(event, before.target) {
            Some((_, v)) => if v.finite() {
                &&& before.count < u64::MAX ==> after.count == before.count + 1
                &&& before.count == u64::MAX ==> after.count == u64::MAX
                &&& call_ensures(before.shift, (before.mean, v, after.count), after.mean)
                &&& call_ensures(before.grow, (before.m2, v, before.mean, after.mean), after.m2)
                &&& derived.len() == 2
                &&& derived[0].name == before.mean_name@ && derived[0].value == after.mean
                &&& derived[1].name == before.std_name@
                &&& before.count == 0 ==> derived[1].value == value::zero()
                &&& before.count > 0 ==> call_ensures(
                    before.spread,
                    (after.m2, after.count),
                    derived[1].value,
                )
            } else {
                derived.len() == 0 && after.count == before.count && after.mean == before.mean
                    && after.m2 == before.m2
            },
            None => derived.len() == 0 && after.count == before.count && after.mean == before.mean
                && after.m2 == before.m2,
        },
{
}

/// A weight is a number above 0 and at most 1.
pub proof fn weights_lie_above_zero(alpha: Real)
    ensures
        is_weight(alpha) <==> 0 < alpha.bits as int <= 0x3ff0_0000_0000_0000,
{
}

} // verus!
