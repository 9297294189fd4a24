//! Stream processors and what they derive.
use crate::base::types::{Event, EventView, MetricId};
use crate::base::value::Real;
use vstd::prelude::*;

verus! {

/// A named value derived from the event stream.
#[derive(Debug, PartialEq)]
pub struct DerivedMetric {
    pub name: String,
    pub value: Real,
}

/// A derived value as a mathematical value.
#[verifier::ext_equal]
pub struct DerivedView {
    pub name: Seq<char>,
    pub value: Real,
}

impl View for DerivedMetric {
    type V = DerivedView;

    open spec fn view(&self) -> DerivedView {
        DerivedView { name: self.name@, value: self.value }
    }
}

/// The views of derived values.
pub open spec fn derived_views(s: Seq<DerivedMetric>) -> Seq<DerivedView> {
    Seq::new(s.len(), |i: int| s[i]@)
}

impl DerivedMetric {
    /// A value under a name.
    pub fn new(name: &str, value: Real) -> (d: DerivedMetric)
        ensures
            d@ == (DerivedView { name: name@, value }),
    {
        DerivedMetric { name: name.to_owned(), value }
    }
}

/// Turns events into derived values, one event at a time.
pub trait Processor: Send {
    /// Whether the processor can take an event. By default it always can.
    open spec fn ready(&self) -> bool {
        true
    }

    /// Whether an event can lead to the state `after` and give rise to `derived`.
    /// By default nothing is ruled out.
    open spec fn gives(&self, event: EventView, after: &Self, derived: Seq<DerivedView>) -> bool {
        true
    }

    /// Takes the next event and returns what it gives rise to.
    fn on_event(&mut self, event: &Event) -> (out: Vec<DerivedMetric>)
        requires
            old(self).ready(),
        ensures
            final(self).ready(),
            old(self).gives(event@, final(self), derived_views(out@)),
    ;
}

/// One of two processors, so that a pipeline can run different ones side by side.
/// More than two are told apart by nesting.
pub enum Either<A, B> {
    Left(A),
    Right(B),
}

impl<A: Processor, B: Processor> Processor for Either<A, B> {
    open spec fn ready(&self) -> bool {
        match self {
            Either::Left(a) => a.ready(),
            Either::Right(b) => b.ready(),
        }
    }

    open spec fn gives(
        &self,
        event: EventView,
        after: &Either<A, B>,
        derived: Seq<DerivedView>,
    ) -> bool {
        match (self, after) {
            (Either::Left(a), Either::Left(next)) => a.gives(event, next, derived),
            (Either::Right(b), Either::Right(next)) => b.gives(event, next, derived),
            _ => false,
        }
    }

    fn on_event(&mut self, event: &Event) -> (out: Vec<DerivedMetric>) {
        match self {
            Either::Left(a) => a.on_event(event),
            Either::Right(b) => b.on_event(event),
        }
    }
}

/// The first value of `target` among `values`, from position `i` on.
pub open spec fn value_in(values: Seq<(MetricId, Real)>, target: MetricId, i: int) -> Option<Real>
    decreases values.len() - i,
{
    if i >= values.len() {
        None
    } else if values[i].0 == target {
        Some(values[i].1)
    } else {
        value_in(values, target, i + 1)
    }
}

/// The step and the value of `target` that an event carries.
pub open spec fn sample_of(event: EventView, target: MetricId) -> Option<(u64, Real)> {
    match event {
        EventView::Metric { id, value, step, .. } => if id == target {
            Some((step, value))
        } else {
            None
        },
        EventView::MetricsBatch { step, values, .. } => match value_in(values, target, 0) {
            Some(v) => Some((step, v)),
            None => None,
        },
        _ => None,
    }
}

fn find_value(values: &Vec<(MetricId, Real)>, target: MetricId) -> (r: Option<Real>)
    ensures
        r == value_in(values@, target, 0),
{
    let mut i: usize = 0;
    while i < values.len()
        invariant
            i <= values@.len(),
            value_in(values@, target, 0) == value_in(values@, target, i as int),
        decreases values.len() - i,
    {
        if values[i].0 == target {
            return Some(values[i].1);
        }
        i = i + 1;
    }
    None
}

/// The step and the value of `target` that an event carries, if any.
pub fn step_value(event: &Event, target: MetricId) -> (r: Option<(u64, Real)>)
    ensures
        r == sample_of(event@, target),
{
    match event {
        Event::Metric { id, value, step, .. } => if *id == target {
            Some((*step, *value))
        } else {
            None
        },
        Event::MetricsBatch { step, values, .. } => match find_value(values, target) {
            Some(v) => Some((*step, v)),
            None => None,
        },
        _ => None,
    }
}

proof fn lemma_value_in(values: Seq<(MetricId, Real)>, target: MetricId, i: int)
    requires
        0 <= i <= values.len(),
    ensures
        value_in(values, target, i) is None <==> forall|j: int|
            i <= j < values.len() ==> (#[trigger] values[j]).0 != target,
        forall|j: int|
            i <= j < values.len() && (#[trigger] values[j]).0 == target && (forall|k: int|
                i <= k < j ==> (#[trigger] values[k]).0 != target) ==> value_in(values, target, i)
                == Some(values[j].1),
    decreases values.len() - i,
{
    if i < values.len() {
        lemma_value_in(values, target, i + 1);
        if values[i].0 != target {
            assert forall|j: int|
                i <= j < values.len() && (#[trigger] values[j]).0 == target && (forall|k: int|
                    i <= k < j ==> (#[trigger] values[k]).0 != target) implies value_in(
                values,
                target,
                i,
            ) == Some(values[j].1) by {
                assert(j >= i + 1);
            }
        }
    }
}

/// The sample of a metric is the value that an event reports of it, at the event's
/// step: of a batch the first value under its identifier, and none where there is none.
/// Events without metrics have no sample.
pub proof fn samples_are_what_events_report(event: EventView, target: MetricId)
    ensures
        event matches EventView::Metric { id, value, step, .. } ==> sample_of(event, target) == (
        if id == target {
            Some((step, value))
        } else {
            None
        }),
        event matches EventView::MetricsBatch { step, values, .. } ==> {
            &&& sample_of(event, target) is None <==> forall|j: int|
                0 <= j < values.len() ==> (#[trigger] values[j]).0 != target
            &&& forall|j: int|
                0 <= j < values.len() && (#[trigger] values[j]).0 == target && (forall|k: int|
                    0 <= k < j ==> (#[trigger] values[k]).0 != target) ==> sample_of(event, target)
                    == Some((step, values[j].1))
        },
        !(event is Metric) && !(event is MetricsBatch) ==> sample_of(event, target) is None,
{
    match event {
        EventView::MetricsBatch { values, .. } => {
            lemma_value_in(values, target, 0);
        },
        _ => {},
    }
}

} // verus!
