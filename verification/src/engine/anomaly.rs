//! Alerts on values that are not finite and on spikes.
use crate::base::text;
use crate::base::types;
use crate::base::types::{AlertRecord, AlertView, Event, EventView, MetricId, Severity};
use crate::base::value;
use crate::base::value::Real;
use crate::engine::processor;
use std::collections::VecDeque;
use vstd::prelude::*;
use vstd::string::*;

verus! {

/// How many values a spike is measured against unless told otherwise.
pub const DEFAULT_WINDOW: usize = 50;

/// Fewer values than these say nothing about a spike.
pub const MIN_SAMPLES: usize = 5;

/// How many standard deviations make a spike unless told otherwise: 4.
#[verifier::allow_in_spec]
pub fn default_z_threshold() -> Real
    returns
        (Real { bits: 0x4010_0000_0000_0000 }),
{
    Real { bits: 0x4010_0000_0000_0000 }
}

/// Watches one metric for values that are not finite and for spikes.
pub struct AnomalyDetector {
    target: MetricId,
    label: String,
    window: VecDeque<Real>,
    capacity: usize,
    z_threshold: Real,
}

/// A detector as a mathematical value.
#[verifier::ext_equal]
pub struct DetectorData {
    pub target: MetricId,
    pub label: Seq<char>,
    pub window: Seq<Real>,
    pub capacity: nat,
    pub threshold: Real,
}

impl View for AnomalyDetector {
    type V = DetectorData;

    closed spec fn view(&self) -> DetectorData {
        DetectorData {
            target: self.target,
            label: self.label@,
            window: self.window@,
            capacity: self.capacity as nat,
            threshold: self.z_threshold,
        }
    }
}

/// The arithmetic behind spike detection.
pub struct SpikeMath {
    /// Mean and standard deviation of a window.
    pub moments: spec_fn(Seq<Real>) -> (Real, Real),
    /// How many standard deviations a value lies from the mean: (value, mean, deviation).
    pub z: spec_fn(Real, Real, Real) -> Real,
    /// A number as text, to one decimal.
    pub show: spec_fn(Real) -> Seq<char>,
}

/// Whether the closures compute what `m` says.
pub open spec fn computes<
    M: Fn(&VecDeque<Real>) -> (Real, Real),
    Z: Fn(Real, Real, Real) -> Real,
    S: Fn(Real) -> String,
>(moments: M, z: Z, show: S, m: SpikeMath) -> bool {
    &&& forall|w: &VecDeque<Real>, r: (Real, Real)|
        call_ensures(moments, (w,), r) ==> r == (m.moments)(w@)
    &&& forall|v: Real, mean: Real, dev: Real, r: Real|
        call_ensures(z, (v, mean, dev), r) ==> r == (m.z)(v, mean, dev)
    &&& forall|v: Real, r: String| call_ensures(show, (v,), r) ==> r@ == (m.show)(v)
}

/// How far a value lies from the window's mean, in standard deviations; none
/// while the window is too short or has no spread.
pub open spec fn z_of(m: SpikeMath, window: Seq<Real>, v: Real) -> Option<Real> {
    let (mean, dev) = (m.moments)(window);
    if window.len() < MIN_SAMPLES || (!dev.nan() && dev.rank() <= 0) {
        None
    } else {
        Some((m.z)(v, mean, dev))
    }
}

/// Whether `z` lies beyond the threshold in either direction.
pub open spec fn beyond(z: Real, threshold: Real) -> bool {
    !z.nan() && !threshold.nan() && z.magnitude() > threshold.rank()
}

/// The alert for a value that is not finite.
pub open spec fn broken_alert(d: DetectorData, step: u64, v: Real) -> AlertView {
    AlertView {
        severity: Severity::Critical,
        message: d.label + " became "@ + (if v.nan() {
            "NaN"@
        } else {
            "infinite"@
        }) + " at step "@ + text::decimal(step as nat)
            + " — you may want to pause and check your data."@,
        step: Some(step),
    }
}

/// The alert for a spike.
pub open spec fn spike_alert(d: DetectorData, step: u64, shown: Seq<char>) -> AlertView {
    AlertView {
        severity: Severity::Warning,
        message: d.label + " spiked at step "@ + text::decimal(step as nat) + " (z-score "@ + shown
            + ") — this may be a transient blip."@,
        step: Some(step),
    }
}

/// The alerts that an event gives rise to.
pub open spec fn alerts_for(m: SpikeMath, d: DetectorData, event: EventView) -> Seq<AlertView> {
    match processor::sample_of(event, d.target) {
        None => Seq::empty(),
        Some((step, v)) => if !v.finite() {
            seq![broken_alert(d, step, v)]
        } else {
            match z_of(m, d.window, v) {
                Some(z) => if beyond(z, d.threshold) {
                    seq![spike_alert(d, step, (m.show)(z))]
                } else {
                    Seq::empty()
                },
                None => Seq::empty(),
            }
        },
    }
}

/// Whether an event can make a detector raise `alerts`. A value that is not finite
/// raises its alert whatever the closures compute, and without enough values to
/// measure against nothing is a spike.
pub open spec fn raises<
    M: Fn(&VecDeque<Real>) -> (Real, Real),
    Z: Fn(Real, Real, Real) -> Real,
    S: Fn(Real) -> String,
>(moments: M, z: Z, show: S, d: DetectorData, event: EventView, alerts: Seq<AlertView>) -> bool {
    &&& match processor::sample_of(event, d.target) {
        None => alerts == Seq::<AlertView>::empty(),
        Some((step, v)) => {
            &&& !v.finite() ==> alerts == seq![broken_alert(d, step, v)]
            &&& v.finite() && d.window.len() < MIN_SAMPLES ==> alerts == Seq::<AlertView>::empty()
        },
    }
    &&& forall|m: SpikeMath| #[trigger]
        computes(moments, z, show, m) ==> alerts == alerts_for(m, d, event)
}

/// The detector after an event: only a finite value enters its window.
pub open spec fn detector_after(d: DetectorData, event: EventView) -> DetectorData {
    match processor::sample_of(event, d.target) {
        None => d,
        Some((_, v)) => if !v.finite() {
            d
        } else {
            DetectorData {
                window: if d.window.len() == d.capacity {
                    d.window.drop_first().push(v)
                } else {
                    d.window.push(v)
                },
                ..d
            }
        },
    }
}

impl AnomalyDetector {
    /// A detector with the default window and threshold.
    pub fn new(target: MetricId, label: String) -> (d: AnomalyDetector)
        ensures
            d@ == (DetectorData {
                target,
                label: label@,
                window: Seq::empty(),
                capacity: DEFAULT_WINDOW as nat,
                threshold: default_z_threshold(),
            }),
    {
        AnomalyDetector::with_config(target, label, DEFAULT_WINDOW, default_z_threshold())
    }

    /// A detector with a window of at least two values and a positive threshold.
    pub fn with_config(target: MetricId, label: String, window: usize, z_threshold: Real) -> (d:
        AnomalyDetector)
        requires
            window >= 2,
            value::zero().less(z_threshold),
        ensures
            d@ == (DetectorData {
                target,
                label: label@,
                window: Seq::empty(),
                capacity: window as nat,
                threshold: z_threshold,
            }),
    {
        let d = AnomalyDetector {
            target,
            label,
            window: VecDeque::new(),
            capacity: window,
            z_threshold,
        };
        assert(d@.window =~= Seq::<Real>::empty());
        d
    }

    /// The watched metric.
    pub fn target(&self) -> (id: MetricId)
        ensures
            id == self@.target,
    {
        self.target
    }

    /// Takes an event and returns the alerts it gives rise to.
    ///
    /// A value that is not finite is critical at once and never enters the
    /// window. A finite value is a spike when it lies further from the window's
    /// mean than the threshold allows. `moments(window)` is mean and standard
    /// deviation, `z(value, mean, deviation)` the distance, `show(z)` its text.
    pub fn detect<
        M: Fn(&VecDeque<Real>) -> (Real, Real),
        Z: Fn(Real, Real, Real) -> Real,
        S: Fn(Real) -> String,
    >(&mut self, event: &Event, moments: &M, z: &Z, show: &S) -> (alerts: Vec<AlertRecord>)
        requires
            old(self)@.capacity >= 2,
            forall|w: &VecDeque<Real>| call_requires(*moments, (w,)),
            forall|v: Real, mean: Real, dev: Real| call_requires(*z, (v, mean, dev)),
            forall|v: Real| call_requires(*show, (v,)),
        ensures
            final(self)@ == detector_after(old(self)@, event@),
            raises(*moments, *z, *show, old(self)@, event@, types::alert_views(alerts@)),
    {
        let mut alerts: Vec<AlertRecord> = Vec::new();
        assert(types::alert_views(alerts@) =~= Seq::<AlertView>::empty());
        let (step, v) = match processor::step_value(event, self.target) {
            None => {
                return alerts;
            },
            Some(sample) => sample,
        };
        if !v.is_finite() {
            let mut message: String = text::joined(self.label.as_str(), " became ");
            message.append(
                if v.is_nan() {
                    "NaN"
                } else {
                    "infinite"
                },
            );
            message.append(" at step ");
            message.append(text::decimal_text(step).as_str());
            message.append(" — you may want to pause and check your data.");
            alerts.push(AlertRecord { severity: Severity::Critical, message, step: Some(step) });
            assert(types::alert_views(alerts@) =~= seq![broken_alert(self@, step, v)]);
            return alerts;
        }
        if self.window.len() >= MIN_SAMPLES {
            let (mean, dev) = moments(&self.window);
            if dev.is_nan() || dev.get_rank() > 0 {
                let distance: Real = z(v, mean, dev);
                if !distance.is_nan() && !self.z_threshold.is_nan() && distance.get_magnitude()
                    as i128 > self.z_threshold.get_rank() as i128 {
                    let shown: String = show(distance);
                    let mut message: String = text::joined(
                        self.label.as_str(),
                        " spiked at step ",
                    );
                    message.append(text::decimal_text(step).as_str());
                    message.append(" (z-score ");
                    message.append(shown.as_str());
                    message.append(") — this may be a transient blip.");
                    alerts.push(
                        AlertRecord { severity: Severity::Warning, message, step: Some(step) },
                    );
                    assert(types::alert_views(alerts@) =~= seq![spike_alert(self@, step, shown@)]);
                }
            }
        }
        if self.window.len() == self.capacity {
            let _ = self.window.pop_front();
        }
        self.window.push_back(v);
        assert(self@.window =~= detector_after(old(self)@, event@).window);
        alerts
    }
}

/// A detector's window never outgrows its capacity.
pub proof fn windows_stay_bounded(d: DetectorData, event: EventView)
    requires
        d.window.len() <= d.capacity,
        d.capacity >= 2,
    ensures
        detector_after(d, event).window.len() <= d.capacity,
{
}

/// Only finite values enter a detector's window, so a bad step never blunts the
/// measure for later ones.
pub proof fn windows_hold_finite_values(d: DetectorData, event: EventView)
    requires
        forall|i: int| 0 <= i < d.window.len() ==> (#[trigger] d.window[i]).finite(),
        d.capacity >= 2,
    ensures
        forall|i: int|
            0 <= i < detector_after(d, event).window.len() ==> (#[trigger] detector_after(
                d,
                event,
            ).window[i]).finite(),
{
}

/// The finite values of a metric that events carry, in order.
pub open spec fn finite_samples(events: Seq<EventView>, target: MetricId) -> Seq<Real>
    decreases events.len(),
{
    if events.len() == 0 {
        Seq::empty()
    } else {
        let before = finite_samples(events.drop_last(), target);
        match processor::sample_of(events.last(), target) {
            Some((_, v)) => if v.finite() {
                before.push(v)
            } else {
                before
            },
            None => before,
        }
    }
}

/// The detector that events lead to.
pub open spec fn detector_reached(d: DetectorData, events: Seq<EventView>) -> DetectorData
    decreases events.len(),
{
    if events.len() == 0 {
        d
    } else {
        detector_after(detector_reached(d, events.drop_last()), events.last())
    }
}

/// A spike is measured against the newest values: after any events, a detector's window
/// holds the newest finite values of its metric in the order they came, as many as it
/// has room for. Nothing else of the detector changes.
pub proof fn windows_hold_the_newest_values(d: DetectorData, events: Seq<EventView>)
    requires
        d.window.len() == 0,
        d.capacity >= 2,
    ensures
        ({
            let all = finite_samples(events, d.target);
            let n = all.len();
            let r = detector_reached(d, events);
            &&& r.window.len() == (if n < d.capacity {
                n
            } else {
                d.capacity
            })
            &&& r.window == all.skip(n - r.window.len())
            &&& r.target == d.target
            &&& r.label == d.label
            &&& r.capacity == d.capacity
            &&& r.threshold == d.threshold
        }),
    decreases events.len(),
{
    if events.len() == 0 {
        assert(d.window =~= finite_samples(events, d.target).skip(0));
    } else {
        windows_hold_the_newest_values(d, events.drop_last());
        let before = finite_samples(events.drop_last(), d.target);
        let all = finite_samples(events, d.target);
        let r = detector_reached(d, events);
        assert(r.window =~= all.skip(all.len() - r.window.len()));
    }
}

/// A finite value just seen is the last of the window.
pub proof fn the_value_just_seen_is_last(d: DetectorData, event: EventView, step: u64, v: Real)
    requires
        d.capacity >= 2,
        d.window.len() <= d.capacity,
        processor::sample_of(event, d.target) == Some((step, v)),
        v.finite(),
    ensures
        detector_after(d, event).window.len() > 0,
        detector_after(d, event).window.last() == v,
{
}

/// What is an anomaly. A value that is not finite raises one critical alert for its
/// step. A finite value raises one warning for its step exactly when at least five
/// values were seen, they have a spread, and the value lies further from their mean, to
/// either side, than the threshold allows. Other metrics raise nothing.
pub proof fn anomalies_are_broken_values_and_spikes(
    m: SpikeMath,
    d: DetectorData,
    event: EventView,
)
    ensures
        processor::sample_of(event, d.target) is None ==> alerts_for(m, d, event).len() == 0,
        processor::sample_of(event, d.target) matches Some((step, v)) ==> {
            let alerts = alerts_for(m, d, event);
            let (mean, dev) = (m.moments)(d.window);
            let z = (m.z)(v, mean, dev);
            let spike = d.window.len() >= 5 && (dev.nan() || dev.rank() > 0) && !z.nan()
                && !d.threshold.nan() && (z.rank() > d.threshold.rank() || -z.rank()
                > d.threshold.rank());
            if !v.finite() {
                &&& alerts.len() == 1
                &&& alerts[0].severity == Severity::Critical
                &&& alerts[0].step == Some(step)
            } else if spike {
                &&& alerts.len() == 1
                &&& alerts[0].severity == Severity::Warning
                &&& alerts[0].step == Some(step)
            } else {
                alerts.len() == 0
            }
        },
{
}

/// An alert names its metric first, then tells what happened and at which step: whether
/// the value was not a number or infinite, or how far a spike went.
pub proof fn alerts_tell_what_happened(d: DetectorData, step: u64, v: Real, shown: Seq<char>)
    ensures
        v.nan() ==> (d.label + " became NaN at step "@ + text::decimal(step as nat)).is_prefix_of(
            broken_alert(d, step, v).message,
        ),
        !v.nan() ==> (d.label + " became infinite at step "@ + text::decimal(
            step as nat,
        )).is_prefix_of(broken_alert(d, step, v).message),
        (d.label + " spiked at step "@ + text::decimal(step as nat) + " (z-score "@
            + shown).is_prefix_of(spike_alert(d, step, shown).message),
{
    reveal_strlit(" became ");
    reveal_strlit("NaN");
    reveal_strlit("infinite");
    reveal_strlit(" at step ");
    reveal_strlit(" became NaN at step ");
    reveal_strlit(" became infinite at step ");
    assert(" became NaN at step "@ =~= " became "@ + "NaN"@ + " at step "@);
    assert(" became infinite at step "@ =~= " became "@ + "infinite"@ + " at step "@);
    let message = broken_alert(d, step, v).message;
    let kind = if v.nan() {
        " became NaN at step "@
    } else {
        " became infinite at step "@
    };
    let head = d.label + kind + text::decimal(step as nat);
    assert(message.subrange(0, head.len() as int) =~= head);
    let spiked = spike_alert(d, step, shown).message;
    let front = d.label + " spiked at step "@ + text::decimal(step as nat) + " (z-score "@ + shown;
    assert(spiked.subrange(0, front.len() as int) =~= front);
}

} // verus!
