//! Measured numbers.
//!
//! A measurement is an IEEE-754 binary64 number. It is carried as its bit
//! pattern, so that classifying and ordering measurements is integer work.
use vstd::prelude::*;

verus! {

/// A binary64 number, held as its 64 bits.
#[derive(Debug, Clone, Copy, PartialEq, Eq, Structural)]
pub struct Real {
    pub bits: u64,
}

/// The weight of the sign bit.
pub const SIGN: u64 = 0x8000_0000_0000_0000;

/// The bits of positive infinity; a greater magnitude is not a number.
pub const INFINITY: u64 = 0x7ff0_0000_0000_0000;

/// Positive zero.
#[verifier::allow_in_spec]
pub fn zero() -> Real
    returns
        (Real { bits: 0 }),
{
    Real { bits: 0 }
}

/// One.
#[verifier::allow_in_spec]
pub fn one() -> Real
    returns
        (Real { bits: 0x3ff0_0000_0000_0000 }),
{
    Real { bits: 0x3ff0_0000_0000_0000 }
}

/// The quiet NaN that stands for "no value yet".
#[verifier::allow_in_spec]
pub fn no_value() -> Real
    returns
        (Real { bits: 0x7ff8_0000_0000_0000 }),
{
    Real { bits: 0x7ff8_0000_0000_0000 }
}

impl Real {
    /// Whether the sign bit is set.
    pub open spec fn negative(self) -> bool {
        self.bits >= SIGN
    }

    /// The bits without the sign.
    pub open spec fn magnitude(self) -> int {
        if self.negative() {
            self.bits - SIGN
        } else {
            self.bits as int
        }
    }

    /// Neither infinite nor NaN.
    pub open spec fn finite(self) -> bool {
        self.magnitude() < INFINITY
    }

    /// Not a number.
    pub open spec fn nan(self) -> bool {
        self.magnitude() > INFINITY
    }

    /// Where the number stands in numeric order: for two numbers that are not
    /// NaN, one is less than the other exactly when its rank is. Both zeros
    /// have rank 0.
    pub open spec fn rank(self) -> int {
        if self.negative() {
            -self.magnitude()
        } else {
            self.magnitude()
        }
    }

    /// Where the number stands in the total order of IEEE-754, which also
    /// places the two zeros and every NaN.
    pub open spec fn total_rank(self) -> int {
        if self.negative() {
            -1 - self.magnitude()
        } else {
            self.magnitude()
        }
    }

    /// Numeric `self < other`; never holds of NaN.
    pub open spec fn less(self, other: Real) -> bool {
        !self.nan() && !other.nan() && self.rank() < other.rank()
    }

    /// The bits without the sign.
    pub fn get_magnitude(self) -> (m: u64)
        ensures
            m == self.magnitude(),
    {
        if self.bits >= SIGN {
            self.bits - SIGN
        } else {
            self.bits
        }
    }

    /// Whether the number is neither infinite nor NaN.
    pub fn is_finite(self) -> (r: bool)
        ensures
            r == self.finite(),
    {
        self.get_magnitude() < INFINITY
    }

    /// Whether the value is not a number.
    pub fn is_nan(self) -> (r: bool)
        ensures
            r == self.nan(),
    {
        self.get_magnitude() > INFINITY
    }

    /// The rank in numeric order.
    pub fn get_rank(self) -> (r: i64)
        ensures
            r == self.rank(),
    {
        let m: u64 = self.get_magnitude();
        if self.bits >= SIGN {
            -(m as i64)
        } else {
            m as i64
        }
    }

    /// The rank in the total order.
    pub fn get_total_rank(self) -> (r: i64)
        ensures
            r == self.total_rank(),
    {
        let m: u64 = self.get_magnitude();
        if self.bits >= SIGN {
            -1 - (m as i64)
        } else {
            m as i64
        }
    }

    /// Numeric `self < other`; false when either is NaN.
    pub fn is_less(self, other: Real) -> (r: bool)
        ensures
            r == self.less(other),
    {
        !self.is_nan() && !other.is_nan() && self.get_rank() < other.get_rank()
    }
}

/// The least and the greatest finite value of `s`, each the first that attains
/// it; `None` when `s` holds no finite value.
pub open spec fn finite_range(s: Seq<Real>) -> Option<(Real, Real)>
    decreases s.len(),
{
    if s.len() == 0 {
        None
    } else {
        widen(finite_range(s.drop_last()), s.last())
    }
}

/// A range widened by one more value.
pub open spec fn widen(range: Option<(Real, Real)>, v: Real) -> Option<(Real, Real)> {
    if !v.finite() {
        range
    } else {
        match range {
            None => Some((v, v)),
            Some((lo, hi)) => Some(
                (
                    if v.rank() < lo.rank() {
                        v
                    } else {
                        lo
                    },
                    if v.rank() > hi.rank() {
                        v
                    } else {
                        hi
                    },
                ),
            ),
        }
    }
}

/// The range holds every finite value, its ends are values of the sequence, and
/// there is none exactly when nothing is finite.
pub proof fn finite_range_bounds(s: Seq<Real>)
    ensures
        match finite_range(s) {
            None => forall|i: int| 0 <= i < s.len() ==> !(#[trigger] s[i]).finite(),
            Some((lo, hi)) => {
                &&& lo.finite() && hi.finite()
                &&& s.contains(lo) && s.contains(hi)
                &&& forall|i: int|
                    0 <= i < s.len() && (#[trigger] s[i]).finite() ==> lo.rank() <= s[i].rank()
                        <= hi.rank()
            },
        },
    decreases s.len(),
{
    if s.len() > 0 {
        let t = s.drop_last();
        finite_range_bounds(t);
        assert(s == t.push(s.last()));
        match finite_range(t) {
            None => {},
            Some((lo, hi)) => {
                let i = choose|i: int| 0 <= i < t.len() && t[i] == lo;
                assert(s[i] == lo);
                let j = choose|j: int| 0 <= j < t.len() && t[j] == hi;
                assert(s[j] == hi);
            },
        }
        assert(s[s.len() - 1] == s.last());
    }
}

/// The range of the values at positions `from..to`.
pub fn range_of(values: &[Real], from: usize, to: usize) -> (r: Option<(Real, Real)>)
    requires
        from <= to <= values@.len(),
    ensures
        r == finite_range(values@.subrange(from as int, to as int)),
{
    let mut range: Option<(Real, Real)> = None;
    let mut i: usize = from;
    while i < to
        invariant
            from <= i <= to <= values@.len(),
            range == finite_range(values@.subrange(from as int, i as int)),
        decreases to - i,
    {
        let v: Real = values[i];
        if v.is_finite() {
            range = match range {
                None => Some((v, v)),
                Some((lo, hi)) => Some(
                    (
                        if v.get_rank() < lo.get_rank() {
                            v
                        } else {
                            lo
                        },
                        if v.get_rank() > hi.get_rank() {
                            v
                        } else {
                            hi
                        },
                    ),
                ),
            };
        }
        assert(values@.subrange(from as int, i + 1).drop_last() == values@.subrange(
            from as int,
            i as int,
        ));
        i = i + 1;
    }
    range
}

/// The total order tells any two bit patterns apart.
pub proof fn total_rank_is_injective(a: Real, b: Real)
    ensures
        a.total_rank() == b.total_rank() ==> a == b,
{
}

/// The total order refines numeric order: a number less than another has the
/// lower total rank.
pub proof fn total_rank_refines_less(a: Real, b: Real)
    ensures
        a.less(b) ==> a.total_rank() < b.total_rank(),
{
}

/// The weight of the lowest exponent bit.
pub const EXPONENT_UNIT: u64 = 0x10_0000_0000_0000;

/// The whole part of a magnitude.
pub open spec fn whole_part(magnitude: int) -> int {
    let e = magnitude / EXPONENT_UNIT as int;
    let m = magnitude % EXPONENT_UNIT as int + EXPONENT_UNIT;
    if e < 1023 {
        0
    } else if e <= 1075 {
        m / (vstd::arithmetic::power2::pow2((1075 - e) as nat) as int)
    } else {
        m * vstd::arithmetic::power2::pow2((e - 1075) as nat)
    }
}

/// A number without its fraction, as the nearest 64-bit integer; 0 for NaN.
pub open spec fn truncated(r: Real) -> int {
    let w = whole_part(r.magnitude());
    if r.nan() {
        0
    } else if r.negative() {
        if -w < i64::MIN {
            i64::MIN as int
        } else {
            -w
        }
    } else if w > i64::MAX {
        i64::MAX as int
    } else {
        w
    }
}

fn power_of_two(n: u64) -> (p: u64)
    requires
        n <= 62,
    ensures
        p == vstd::arithmetic::power2::pow2(n as nat),
        1 <= p <= 0x4000_0000_0000_0000,
{
    proof {
        vstd::arithmetic::power2::lemma2_to64();
        vstd::arithmetic::power2::lemma2_to64_rest();
    }
    let mut p: u64 = 1;
    let mut k: u64 = 0;
    while k < n
        invariant
            k <= n <= 62,
            p == vstd::arithmetic::power2::pow2(k as nat),
            p <= 0x4000_0000_0000_0000,
            k < 62 ==> p <= 0x2000_0000_0000_0000,
            p >= 1,
        decreases n - k,
    {
        proof {
            vstd::arithmetic::power2::lemma_pow2_unfold((k + 1) as nat);
            vstd::arithmetic::power2::lemma2_to64_rest();
            if k + 1 < 61 {
                vstd::arithmetic::power2::lemma_pow2_strictly_increases((k + 1) as nat, 61);
            }
        }
        p = p * 2;
        k = k + 1;
    }
    p
}

impl Real {
    /// The number without its fraction; numbers out of range give the nearest
    /// end of the range, and NaN gives 0.
    pub fn to_i64(self) -> (r: i64)
        ensures
            r == truncated(self),
    {
        if self.is_nan() {
            return 0;
        }
        let mag: u64 = self.get_magnitude();
        let e: u64 = mag / EXPONENT_UNIT;
        let m: u64 = mag % EXPONENT_UNIT + EXPONENT_UNIT;
        let negative: bool = self.bits >= SIGN;
        if e < 1023 {
            return 0;
        }
        if e >= 1086 {
            proof {
                vstd::arithmetic::power2::lemma2_to64();
                if e > 1086 {
                    vstd::arithmetic::power2::lemma_pow2_strictly_increases(
                        11,
                        (e - 1075) as nat,
                    );
                }
                let q = vstd::arithmetic::power2::pow2((e - 1075) as nat) as int;
                assert(m * q >= 0x8000_0000_0000_0000) by (nonlinear_arith)
                    requires
                        m >= 0x10_0000_0000_0000,
                        q >= 2048,
                ;
            }
            return if negative {
                i64::MIN
            } else {
                i64::MAX
            };
        }
        let w: u64 = if e <= 1075 {
            let d: u64 = power_of_two(1075 - e);
            proof {
                assert(m as int / d as int <= m) by (nonlinear_arith)
                    requires
                        d >= 1,
                        m >= 0,
                ;
            }
            m / d
        } else {
            let q: u64 = power_of_two(e - 1075);
            proof {
                vstd::arithmetic::power2::lemma2_to64();
                if e < 1085 {
                    vstd::arithmetic::power2::lemma_pow2_strictly_increases(
                        (e - 1075) as nat,
                        10,
                    );
                }
                assert(m * q < 0x8000_0000_0000_0000) by (nonlinear_arith)
                    requires
                        m < 0x20_0000_0000_0000,
                        q <= 1024,
                ;
            }
            m * q
        };
        if negative {
            -(w as i64)
        } else {
            w as i64
        }
    }
}

/// The exponent bits tell what a number is: with all of them set it is infinite, or not a
/// number where the fraction is not 0; otherwise it is finite. The topmost bit is the
/// sign, and the rank of a number and of its negation are opposite.
pub proof fn bits_tell_the_kind(r: Real)
    ensures
        ({
            let exponent = r.bits as int / 0x10_0000_0000_0000 % 2048;
            let fraction = r.bits as int % 0x10_0000_0000_0000;
            &&& r.finite() <==> exponent < 2047
            &&& r.nan() <==> exponent == 2047 && fraction != 0
            &&& r.negative() <==> r.bits as int >= 0x8000_0000_0000_0000
            &&& r.rank() == (if r.bits as int >= 0x8000_0000_0000_0000 {
                0x8000_0000_0000_0000 - r.bits as int
            } else {
                r.bits as int
            })
        }),
{
}

/// Truncating cuts off the fraction: a number with exponent `e` and significand `m` is
/// `m` times two to the power `e - 1075`. Below one it becomes 0; while it has a fraction
/// it becomes the greatest whole number that is not larger in size; and without one it
/// stays what it is, up to the ends of the 64-bit range. The sign stays, and a value that
/// is not a number becomes 0.
#[verifier::spinoff_prover]
pub proof fn truncating_cuts_off_the_fraction(r: Real)
    ensures
        ({
            let e = r.magnitude() / 0x10_0000_0000_0000;
            let m = r.magnitude() % 0x10_0000_0000_0000 + 0x10_0000_0000_0000;
            let t = truncated(r);
            let size = if r.negative() {
                -t
            } else {
                t
            };
            &&& r.nan() ==> t == 0
            &&& !r.nan() && e < 1023 ==> t == 0
            &&& !r.nan() && 1023 <= e <= 1075 ==> {
                let part = vstd::arithmetic::power2::pow2((1075 - e) as nat) as int;
                &&& size > 0
                &&& size * part <= m < (size + 1) * part
            }
            &&& !r.nan() && 1075 < e < 1086 ==> size == m * vstd::arithmetic::power2::pow2(
                (e - 1075) as nat,
            )
            &&& i64::MIN <= t <= i64::MAX
            &&& !r.nan() && e > 1086 ==> t == (if r.negative() {
                i64::MIN as int
            } else {
                i64::MAX as int
            })
        }),
{
    let e = r.magnitude() / 0x10_0000_0000_0000;
    let m = r.magnitude() % 0x10_0000_0000_0000 + 0x10_0000_0000_0000;
    let w = whole_part(r.magnitude());
    vstd::arithmetic::power2::lemma2_to64();
    vstd::arithmetic::power2::lemma2_to64_rest();
    if 1023 <= e <= 1075 {
        let n = (1075 - e) as nat;
        let part = vstd::arithmetic::power2::pow2(n) as int;
        vstd::arithmetic::power2::lemma_pow2_pos(n);
        if n < 52 {
            vstd::arithmetic::power2::lemma_pow2_strictly_increases(n, 52);
        }
        assert(vstd::arithmetic::power2::pow2(52) == 0x10_0000_0000_0000);
        assert(w * part <= m < (w + 1) * part && 0 < w <= m) by (nonlinear_arith)
            requires
                0 < part <= m,
                w == m / part,
        ;
    } else if 1075 < e < 1086 {
        let q = vstd::arithmetic::power2::pow2((e - 1075) as nat) as int;
        if e < 1085 {
            vstd::arithmetic::power2::lemma_pow2_strictly_increases((e - 1075) as nat, 10);
        }
        vstd::arithmetic::power2::lemma_pow2_pos((e - 1075) as nat);
        assert(0 < m * q <= 0x20_0000_0000_0000 * 1024 - 1024) by (nonlinear_arith)
            requires
                0 < m <= 0x20_0000_0000_0000 - 1,
                0 < q <= 1024,
        ;
    } else if e > 1086 {
        let q = vstd::arithmetic::power2::pow2((e - 1075) as nat) as int;
        vstd::arithmetic::power2::lemma_pow2_strictly_increases(11, (e - 1075) as nat);
        assert(m * q > 0x8000_0000_0000_0000) by (nonlinear_arith)
            requires
                m >= 0x10_0000_0000_0000,
                q > 2048,
        ;
    }
}

} // verus!
