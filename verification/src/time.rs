//! Exact rational time and the rate types the timeline measures against.
//!
//! Time is an exact `i64/i64` rational number of seconds, never floating
//! point, so conversions between frame rates and sample rates never drift.
//! Values are compared by cross multiplication in `i128`, which is exact for
//! any pair of `i64` numerators and denominators.
use vstd::prelude::*;

use crate::error::TimelineError;
use crate::rational::{
    difference_fits, sum_fits,
    canonical, checked_ratio_difference, checked_ratio_sum, divides, ratio_checked_add,
    ratio_checked_sub, ratio_int_div, ratio_mul_round, ratio_new, reduced_ratio, round_half_away,
    lemma_reduced_ratio_is, lemma_canonical_divides,
};

verus! {

/// Any product of two `i64` values lies within `±2^126`, well inside `i128`.
proof fn lemma_product_fits(a: i64, b: i64)
    ensures
        -0x4000_0000_0000_0000_0000_0000_0000_0000 <= a * b <= 0x4000_0000_0000_0000_0000_0000_0000_0000,
{
    assert(-0x4000_0000_0000_0000_0000_0000_0000_0000 <= a * b <= 0x4000_0000_0000_0000_0000_0000_0000_0000)
        by (nonlinear_arith)
        requires
            -0x8000_0000_0000_0000 <= a <= 0x7fff_ffff_ffff_ffff,
            -0x8000_0000_0000_0000 <= b <= 0x7fff_ffff_ffff_ffff,
    ;
}

/// A whole number `n / 1` is in lowest terms.
proof fn lemma_whole_is_canonical(n: int)
    ensures
        canonical(n, 1),
{
    assert forall|k: int| k > 1 && #[trigger] divides(k, n) implies !divides(k, 1) by {
        vstd::arithmetic::div_mod::lemma_small_mod(1nat, k as nat);
    }
}

/// If `x` denotes a whole number in lowest terms, its denominator is one.
proof fn lemma_whole_value_has_unit_denominator(xn: int, xd: int, w: int)
    requires
        canonical(xn, xd),
        xn == w * xd,
    ensures
        xd == 1,
{
    if xd > 1 {
        vstd::arithmetic::div_mod::lemma_mod_multiples_basic(w, xd);
        assert(w * xd == xd * w) by (nonlinear_arith);
        vstd::arithmetic::div_mod::lemma_mod_self_0(xd);
        assert(divides(xd, xn));
        assert(divides(xd, xd));
    }
}

/// For `x = p/k` and `y = q/k` over one positive `k`, comparing `x` with `y`
/// by cross multiplication agrees with comparing `p` with `q`.
pub proof fn lemma_compare_over_common(xn: int, xd: int, yn: int, yd: int, p: int, q: int, k: int)
    requires
        xd > 0,
        yd > 0,
        k > 0,
        xn * k == p * xd,
        yn * k == q * yd,
    ensures
        (xn * yd <= yn * xd) == (p <= q),
        (xn * yd < yn * xd) == (p < q),
        (xn * yd == yn * xd) == (p == q),
{
    assert((xn * yd - yn * xd) * k == (xn * k) * yd - (yn * k) * xd) by (nonlinear_arith);
    assert((p - q) * (xd * yd) == (p * xd) * yd - (q * yd) * xd) by (nonlinear_arith);
    assert((xn * yd - yn * xd) * k == (p - q) * (xd * yd));
    assert(xd * yd > 0) by (nonlinear_arith)
        requires
            xd > 0,
            yd > 0,
    ;
    let l = xn * yd - yn * xd;
    let m = p - q;
    let c = xd * yd;
    assert((l > 0) == (m > 0) && (l == 0) == (m == 0)) by (nonlinear_arith)
        requires
            l * k == m * c,
            k > 0,
            c > 0,
    ;
}

/// Where `e = s + d` exactly (all denominators positive), `e` compares with
/// `s` as `d` compares with zero.
proof fn lemma_sum_against_start(sn: int, sd: int, dn: int, dd: int, en: int, ed: int)
    requires
        sd > 0,
        dd > 0,
        ed > 0,
        en * (sd * dd) == (sn * dd + dn * sd) * ed,
    ensures
        (sn * ed < en * sd) == (dn > 0),
        (sn * ed == en * sd) == (dn == 0),
{
    assert(en * (sd * dd) == (en * sd) * dd) by (nonlinear_arith);
    assert((sn * dd + dn * sd) * ed == (sn * ed) * dd + dn * (sd * ed)) by (nonlinear_arith);
    assert((en * sd - sn * ed) * dd == (en * sd) * dd - (sn * ed) * dd) by (nonlinear_arith);
    assert(sd * ed > 0) by (nonlinear_arith)
        requires
            sd > 0,
            ed > 0,
    ;
    let l = en * sd - sn * ed;
    let c = sd * ed;
    assert((l > 0) == (dn > 0) && (l == 0) == (dn == 0)) by (nonlinear_arith)
        requires
            l * dd == dn * c,
            dd > 0,
            c > 0,
    ;
}

/// Cross-multiplied comparison is transitive over positive denominators.
pub proof fn lemma_cross_trans(xn: int, xd: int, yn: int, yd: int, zn: int, zd: int)
    requires
        xd > 0,
        yd > 0,
        zd > 0,
    ensures
        xn * yd <= yn * xd && yn * zd <= zn * yd ==> xn * zd <= zn * xd,
        xn * yd <= yn * xd && yn * zd < zn * yd ==> xn * zd < zn * xd,
        xn * yd < yn * xd && yn * zd <= zn * yd ==> xn * zd < zn * xd,
        xn * yd == yn * xd ==> (xn * zd < zn * xd) == (yn * zd < zn * yd),
        xn * yd == yn * xd ==> (xn * zd <= zn * xd) == (yn * zd <= zn * yd),
        xn * yd == yn * xd ==> (zn * xd < xn * zd) == (zn * yd < yn * zd),
        xn * yd == yn * xd ==> (zn * xd <= xn * zd) == (zn * yd <= yn * zd),
{
    // (xn*zd - zn*xd) * yd == (xn*yd - yn*xd) * zd + (yn*zd - zn*yd) * xd
    assert((xn * zd - zn * xd) * yd == (xn * yd - yn * xd) * zd + (yn * zd - zn * yd) * xd)
        by (nonlinear_arith);
    let a = xn * yd - yn * xd;
    let b = yn * zd - zn * yd;
    let t = xn * zd - zn * xd;
    assert(a <= 0 && b <= 0 ==> t <= 0) by (nonlinear_arith)
        requires
            t * yd == a * zd + b * xd,
            xd > 0,
            yd > 0,
            zd > 0,
    ;
    assert(a <= 0 && b < 0 ==> t < 0) by (nonlinear_arith)
        requires
            t * yd == a * zd + b * xd,
            xd > 0,
            yd > 0,
            zd > 0,
    ;
    assert(a < 0 && b <= 0 ==> t < 0) by (nonlinear_arith)
        requires
            t * yd == a * zd + b * xd,
            xd > 0,
            yd > 0,
            zd > 0,
    ;
    assert(a == 0 ==> (t < 0) == (b < 0) && (t <= 0) == (b <= 0) && (t > 0) == (b > 0)
        && (t >= 0) == (b >= 0)) by (nonlinear_arith)
        requires
            t * yd == a * zd + b * xd,
            xd > 0,
            yd > 0,
    ;
}

/// An exact instant or duration, in seconds.
///
/// Stored as an `i64/i64` rational in lowest terms with a positive
/// denominator, so two values are equal exactly when their fields are.
#[derive(Clone, Copy, Debug, PartialEq, Eq, Hash, Structural)]
pub struct Seconds {
    num: i64,
    den: i64,
}

impl Seconds {
    /// Zero seconds.
    pub fn zero() -> (s: Seconds)
        ensures
            s.wf(),
            s.numer() == 0,
            s.denom() == 1,
            s == Seconds::from_raw((0, 1)),
    {
        Seconds::from_secs(0)
    }

    /// The numerator of this value in lowest terms.
    pub closed spec fn spec_numer(self) -> i64 {
        self.num
    }

    /// The (positive) denominator of this value in lowest terms.
    pub closed spec fn spec_denom(self) -> i64 {
        self.den
    }

    /// The numerator of this value in lowest terms.
    #[verifier::when_used_as_spec(spec_numer)]
    pub fn numer(self) -> (n: i64)
        ensures
            n == self.spec_numer(),
    {
        self.num
    }

    /// The denominator of this value in lowest terms.
    #[verifier::when_used_as_spec(spec_denom)]
    pub fn denom(self) -> (d: i64)
        ensures
            d == self.spec_denom(),
    {
        self.den
    }

    /// The value stored as the lowest-terms pair `(n, d)`.
    pub closed spec fn from_raw(pair: (i64, i64)) -> Seconds {
        Seconds { num: pair.0, den: pair.1 }
    }

    /// [`from_raw`](Self::from_raw) stores the pair it is given.
    pub broadcast proof fn lemma_from_raw(pair: (i64, i64))
        ensures
            #[trigger] Seconds::from_raw(pair).numer() == pair.0,
            Seconds::from_raw(pair).denom() == pair.1,
    {
    }

    /// What [`checked_sub`](Self::checked_sub) returns.
    pub open spec fn spec_checked_sub(self, rhs: Seconds) -> Option<Seconds> {
        match checked_ratio_difference(self.numer(), self.denom(), rhs.numer(), rhs.denom()) {
            Some(p) => Some(Seconds::from_raw(p)),
            None => None,
        }
    }

    /// What [`checked_add`](Self::checked_add) returns.
    pub open spec fn spec_checked_add(self, rhs: Seconds) -> Option<Seconds> {
        match checked_ratio_sum(self.numer(), self.denom(), rhs.numer(), rhs.denom()) {
            Some(p) => Some(Seconds::from_raw(p)),
            None => None,
        }
    }

    /// The value is stored in lowest terms with a positive denominator.
    pub open spec fn wf(self) -> bool {
        canonical(self.numer() as int, self.denom() as int)
    }

    /// This value equals the rational `n / d` (for `d > 0`).
    pub open spec fn denotes(self, n: int, d: int) -> bool {
        self.numer() * d == n * self.denom()
    }

    /// This value and `other` denote the same rational number.
    pub open spec fn same_as(self, other: Seconds) -> bool {
        self.numer() * other.denom() == other.numer() * self.denom()
    }

    /// This value is strictly less than `other`.
    pub open spec fn spec_before(self, other: Seconds) -> bool {
        self.numer() * other.denom() < other.numer() * self.denom()
    }

    /// This value is less than or equal to `other`.
    pub open spec fn spec_at_or_before(self, other: Seconds) -> bool {
        self.numer() * other.denom() <= other.numer() * self.denom()
    }

    /// `numerator / denominator` seconds. Errors on a zero denominator, and on
    /// a negative one: the sign belongs on the numerator.
    pub fn new(numerator: i64, denominator: i64) -> (r: Result<Seconds, TimelineError>)
        ensures
            denominator == 0 ==> r == Err::<Seconds, TimelineError>(
                TimelineError::ZeroDenominator,
            ),
            denominator < 0 ==> r == Err::<Seconds, TimelineError>(
                TimelineError::NegativeDenominator,
            ),
            denominator > 0 ==> (r matches Ok(s) && s.wf() && s.denotes(
                numerator as int,
                denominator as int,
            )),
    {
        if denominator == 0 {
            return Err(TimelineError::ZeroDenominator);
        }
        if denominator < 0 {
            return Err(TimelineError::NegativeDenominator);
        }
        let (n, d) = ratio_new(numerator, denominator);
        Ok(Seconds { num: n, den: d })
    }

    /// A whole number of seconds.
    pub fn from_secs(seconds: i64) -> (s: Seconds)
        ensures
            s.wf(),
            s.numer() == seconds,
            s.denom() == 1,
            s == Seconds::from_raw((seconds, 1)),
    {
        proof {
            lemma_whole_is_canonical(seconds as int);
        }
        Seconds { num: seconds, den: 1 }
    }

    /// The duration spanned by `frames` whole frames at `rate`: exactly
    /// `frames * rate.denom() / rate.numer()` seconds.
    pub fn from_frames(frames: i64, rate: FrameRate) -> (s: Seconds)
        requires
            rate.wf(),
            -0x7fff_ffff_ffff_ffff <= frames * rate.denom() <= 0x7fff_ffff_ffff_ffff,
        ensures
            s.wf(),
            s.denotes(frames * rate.denom(), rate.numer() as int),
    {
        let (n, d) = ratio_int_div(frames, rate.num, rate.den);
        Seconds { num: n, den: d }
    }

    /// The duration spanned by `samples` samples at `rate`: exactly
    /// `samples / rate.hertz()` seconds.
    pub fn from_samples(samples: i64, rate: SampleRate) -> (s: Seconds)
        requires
            rate.wf(),
        ensures
            s == Seconds::from_raw(reduced_ratio(samples, rate.hertz() as i64)),
            s.wf(),
            s.denotes(samples as int, rate.hertz() as int),
    {
        let (n, d) = ratio_new(samples, rate.hertz as i64);
        proof {
            lemma_reduced_ratio_is(samples, rate.hertz as i64, (n, d));
        }
        Seconds { num: n, den: d }
    }

    /// The number of whole samples this duration spans at `rate`, rounded to
    /// the nearest sample (half-way cases away from zero).
    pub fn to_samples(self, rate: SampleRate) -> (n: i64)
        requires
            self.wf(),
            rate.wf(),
            -0x7fff_ffff_ffff_ffff < self.numer() * rate.hertz() < 0x7fff_ffff_ffff_ffff,
        ensures
            n == round_half_away(self.numer() * rate.hertz(), self.denom() as int),
    {
        assert(self.den * 1 == self.den);
        ratio_mul_round(self.num, self.den, rate.hertz as i64, 1)
    }

    /// The number of whole samples this duration spans at `rate`, rounded to
    /// the nearest sample (half-way cases away from zero), or `None` where
    /// the count does not fit an `i64`.
    pub fn checked_to_samples(self, rate: SampleRate) -> (r: Option<i64>)
        requires
            self.wf(),
            rate.wf(),
        ensures
            ({
                let n = round_half_away(self.numer() * rate.hertz(), self.denom() as int);
                r == if i64::MIN <= n <= i64::MAX {
                    Some(n as i64)
                } else {
                    None::<i64>
                }
            }),
    {
        let hz = rate.hertz;
        assert(-0x8000_0000_0000_0000_0000_0000 <= self.num * hz <= 0x8000_0000_0000_0000_0000_0000)
            by (nonlinear_arith)
            requires
                -0x8000_0000_0000_0000 <= self.num <= 0x7fff_ffff_ffff_ffff,
                0 <= hz <= 0xffff_ffff,
        ;
        let p: i128 = (self.num as i128) * (hz as i128);
        let d: u128 = self.den as u128;
        let magnitude: u128 = if p < 0 {
            (-p) as u128
        } else {
            p as u128
        };
        let q: u128 = (2 * magnitude + d) / (2 * d);
        proof {
            if p < 0 {
                assert(-2 * (p as int) + (d as int) == 2 * (magnitude as int) + (d as int));
            }
        }
        if p < 0 {
            if q > 0x8000_0000_0000_0000 {
                None
            } else if q == 0x8000_0000_0000_0000 {
                Some(i64::MIN)
            } else {
                Some(-(q as i64))
            }
        } else if q > 0x7fff_ffff_ffff_ffff {
            None
        } else {
            Some(q as i64)
        }
    }

    /// The number of whole frames this duration spans at `rate`, rounded to
    /// the nearest frame (half-way cases away from zero). Lossy for a
    /// sub-frame duration.
    pub fn to_frames(self, rate: FrameRate) -> (n: i64)
        requires
            self.wf(),
            rate.wf(),
            -0x7fff_ffff_ffff_ffff < self.numer() * rate.numer() < 0x7fff_ffff_ffff_ffff,
            self.denom() * rate.denom() <= 0x7fff_ffff_ffff_ffff,
        ensures
            n == round_half_away(
                self.numer() * rate.numer(),
                self.denom() * rate.denom(),
            ),
    {
        ratio_mul_round(self.num, self.den, rate.num, rate.den)
    }

    /// Whether this value is strictly less than zero.
    pub fn is_negative(self) -> (b: bool)
        ensures
            b == (self.numer() < 0),
    {
        self.num < 0
    }

    /// Whether this value is exactly zero.
    pub fn is_zero(self) -> (b: bool)
        ensures
            b == (self.numer() == 0),
    {
        self.num == 0
    }

    /// `self + rhs`, or `None` where `Rational64` overflows.
    pub fn checked_add(self, rhs: Seconds) -> (r: Option<Seconds>)
        requires
            self.wf(),
            rhs.wf(),
        ensures
            r == self.spec_checked_add(rhs),
            sum_fits(self.numer(), self.denom(), rhs.numer(), rhs.denom()) ==> r is Some,
            r matches Some(s) ==> s.wf() && s.denotes(
                self.numer() * rhs.denom() + rhs.numer() * self.denom(),
                self.denom() * rhs.denom(),
            ),
    {
        match ratio_checked_add(self.num, self.den, rhs.num, rhs.den) {
            Some((n, d)) => Some(Seconds { num: n, den: d }),
            None => None,
        }
    }

    /// `self - rhs`, or `None` where `Rational64` overflows.
    pub fn checked_sub(self, rhs: Seconds) -> (r: Option<Seconds>)
        requires
            self.wf(),
            rhs.wf(),
        ensures
            r == self.spec_checked_sub(rhs),
            difference_fits(self.numer(), self.denom(), rhs.numer(), rhs.denom()) ==> r is Some,
            r matches Some(s) ==> s.wf() && s.denotes(
                self.numer() * rhs.denom() - rhs.numer() * self.denom(),
                self.denom() * rhs.denom(),
            ),
    {
        match ratio_checked_sub(self.num, self.den, rhs.num, rhs.den) {
            Some((n, d)) => Some(Seconds { num: n, den: d }),
            None => None,
        }
    }

    /// Whether this value is strictly less than `other`.
    #[verifier::when_used_as_spec(spec_before)]
    pub fn before(self, other: Seconds) -> (b: bool)
        ensures
            b == self.spec_before(other),
    {
        proof {
            lemma_product_fits(self.num, other.den);
            lemma_product_fits(other.num, self.den);
        }
        (self.num as i128) * (other.den as i128) < (other.num as i128) * (self.den as i128)
    }

    /// Whether this value is less than or equal to `other`.
    #[verifier::when_used_as_spec(spec_at_or_before)]
    pub fn at_or_before(self, other: Seconds) -> (b: bool)
        ensures
            b == self.spec_at_or_before(other),
    {
        proof {
            lemma_product_fits(self.num, other.den);
            lemma_product_fits(other.num, self.den);
        }
        (self.num as i128) * (other.den as i128) <= (other.num as i128) * (self.den as i128)
    }
}

/// Frames per second, an exact positive rational (e.g. `30000/1001`).
#[derive(Clone, Copy, Debug, PartialEq, Eq, Hash, Structural)]
pub struct FrameRate {
    num: i64,
    den: i64,
}

impl FrameRate {
    /// The numerator of the rate in lowest terms.
    pub closed spec fn spec_numer(self) -> i64 {
        self.num
    }

    /// The denominator of the rate in lowest terms.
    pub closed spec fn spec_denom(self) -> i64 {
        self.den
    }

    /// The numerator of the rate in lowest terms.
    #[verifier::when_used_as_spec(spec_numer)]
    pub fn numer(self) -> (n: i64)
        ensures
            n == self.spec_numer(),
    {
        self.num
    }

    /// The denominator of the rate in lowest terms.
    #[verifier::when_used_as_spec(spec_denom)]
    pub fn denom(self) -> (d: i64)
        ensures
            d == self.spec_denom(),
    {
        self.den
    }

    /// A positive rate in lowest terms.
    pub open spec fn wf(self) -> bool {
        canonical(self.numer() as int, self.denom() as int) && self.numer() > 0
    }

    /// `numerator / denominator` frames per second. Both must be positive.
    pub fn new(numerator: u32, denominator: u32) -> (r: Result<FrameRate, TimelineError>)
        ensures
            numerator == 0 || denominator == 0 ==> r == Err::<FrameRate, TimelineError>(
                TimelineError::NonPositiveFrameRate,
            ),
            numerator > 0 && denominator > 0 ==> (r matches Ok(f) && f.wf() && f.numer()
                * denominator == numerator * f.denom()),
    {
        if numerator == 0 || denominator == 0 {
            return Err(TimelineError::NonPositiveFrameRate);
        }
        let (n, d) = ratio_new(numerator as i64, denominator as i64);
        assert(n > 0) by (nonlinear_arith)
            requires
                n * (denominator as i64) == (numerator as i64) * d,
                d > 0,
                numerator > 0,
                denominator > 0,
        ;
        Ok(FrameRate { num: n, den: d })
    }

    /// A whole-number frame rate, e.g. `FrameRate::whole(30)`.
    pub fn whole(fps: u32) -> (r: Result<FrameRate, TimelineError>)
        ensures
            fps == 0 ==> r == Err::<FrameRate, TimelineError>(
                TimelineError::NonPositiveFrameRate,
            ),
            fps > 0 ==> (r matches Ok(f) && f.wf() && f.numer() == fps && f.denom() == 1),
    {
        let r = FrameRate::new(fps, 1);
        proof {
            if fps > 0 {
                let f = r->Ok_0;
                assert(f.numer() * 1 == fps * f.denom());
                assert(f.numer() == fps * f.denom());
                lemma_whole_value_has_unit_denominator(
                    f.numer() as int,
                    f.denom() as int,
                    fps as int,
                );
                assert(f.denom() == 1);
                assert(f.numer() == fps) by (nonlinear_arith)
                    requires
                        f.numer() == fps * f.denom(),
                        f.denom() == 1,
                ;
            }
        }
        r
    }

    /// The whole frames per second, if this rate is an integer that fits in
    /// a `u32`.
    pub fn as_whole(self) -> (r: Option<u32>)
        ensures
            r == (if self.denom() == 1 && 0 <= self.numer() <= u32::MAX {
                Some(self.numer() as u32)
            } else {
                None::<u32>
            }),
    {
        if self.den == 1 && 0 <= self.num && self.num <= 0xffff_ffff {
            Some(self.num as u32)
        } else {
            None
        }
    }
}

/// Audio samples per second (e.g. 48 000 Hz); never zero.
#[derive(Clone, Copy, Debug, PartialEq, Eq, PartialOrd, Ord, Hash, Structural)]
pub struct SampleRate {
    hertz: u32,
}

impl SampleRate {
    /// The rate in hertz.
    pub closed spec fn spec_hertz(self) -> u32 {
        self.hertz
    }

    /// A non-zero rate.
    pub open spec fn wf(self) -> bool {
        self.hertz() > 0
    }

    /// A sample rate in hertz. Must be non-zero.
    pub fn new(hertz: u32) -> (r: Result<SampleRate, TimelineError>)
        ensures
            hertz == 0 ==> r == Err::<SampleRate, TimelineError>(TimelineError::ZeroSampleRate),
            hertz > 0 ==> (r matches Ok(s) && s.wf() && s.hertz() == hertz),
    {
        if hertz == 0 {
            Err(TimelineError::ZeroSampleRate)
        } else {
            Ok(SampleRate { hertz })
        }
    }

    /// The rate in hertz.
    #[verifier::when_used_as_spec(spec_hertz)]
    pub fn hertz(self) -> (h: u32)
        ensures
            h == self.spec_hertz(),
    {
        self.hertz
    }
}

/// A half-open span `[start, start + duration)` in exact seconds.
#[derive(Clone, Copy, Debug, PartialEq, Eq, Structural)]
pub struct TimeRange {
    start: Seconds,
    duration: Seconds,
}

/// The facts `Rational64::checked_add` guarantees of a successful sum of
/// `s` and `d`, recorded in a range so its end can be reasoned about.
pub open spec fn exact_sum(s: Seconds, d: Seconds) -> bool {
    checked_ratio_sum(s.numer(), s.denom(), d.numer(), d.denom()) matches Some(p) && canonical(
        p.0 as int,
        p.1 as int,
    ) && p.0 * (s.denom() * d.denom()) == (s.numer() * d.denom() + d.numer() * s.denom()) * p.1
}

impl TimeRange {
    /// The start instant.
    pub closed spec fn spec_start(self) -> Seconds {
        self.start
    }

    /// The span's length.
    pub closed spec fn spec_duration(self) -> Seconds {
        self.duration
    }

    /// The exclusive end instant, `start + duration`.
    pub closed spec fn spec_end(self) -> Seconds {
        let p = checked_ratio_sum(
            self.start.num,
            self.start.den,
            self.duration.num,
            self.duration.den,
        )->Some_0;
        Seconds { num: p.0, den: p.1 }
    }

    /// Both endpoints are exact, the duration is non-negative and the end is
    /// representable.
    pub open spec fn wf(self) -> bool {
        &&& self.start().wf()
        &&& self.duration().wf()
        &&& self.duration().numer() >= 0
        &&& exact_sum(self.start(), self.duration())
    }

    /// Whether `at` lies in `[start, end)`.
    pub open spec fn spec_contains(self, at: Seconds) -> bool {
        self.start().spec_at_or_before(at) && at.spec_before(self.end())
    }

    /// Whether the two ranges share any instant.
    pub open spec fn spec_overlaps(self, other: TimeRange) -> bool {
        self.start().spec_before(other.end()) && other.start().spec_before(self.end())
    }

    /// The end of a well-formed range is `start + duration`, exactly and in
    /// lowest terms.
    pub proof fn lemma_end(self)
        requires
            self.wf(),
        ensures
            self.end().wf(),
            self.end().denotes(
                self.start().numer() * self.duration().denom() + self.duration().numer()
                    * self.start().denom(),
                self.start().denom() * self.duration().denom(),
            ),
            !self.end().spec_before(self.start()),
            self.start().spec_before(self.end()) == (self.duration().numer() > 0),
            self.start().same_as(self.end()) == (self.duration().numer() == 0),
    {
        let s = self.start();
        let d = self.duration();
        let e = self.end();
        lemma_sum_against_start(
            s.numer() as int,
            s.denom() as int,
            d.numer() as int,
            d.denom() as int,
            e.numer() as int,
            e.denom() as int,
        );
        assert(s.numer() * e.denom() == e.denom() * s.numer()) by (nonlinear_arith);
        assert(e.numer() * s.denom() == s.denom() * e.numer()) by (nonlinear_arith);
    }

    /// A range starting at `start` lasting `duration`. Errors if `duration` is
    /// negative, or if `start + duration` is not representable, so that
    /// [`end`](Self::end) can never overflow.
    pub fn new(start: Seconds, duration: Seconds) -> (r: Result<TimeRange, TimelineError>)
        requires
            start.wf(),
            duration.wf(),
        ensures
            duration.numer() < 0 ==> r == Err::<TimeRange, TimelineError>(
                TimelineError::NegativeDuration,
            ),
            duration.numer() >= 0 && checked_ratio_sum(
                start.numer(),
                start.denom(),
                duration.numer(),
                duration.denom(),
            ) is None ==> r == Err::<TimeRange, TimelineError>(TimelineError::TimeRangeOverflow),
            duration.numer() >= 0 && checked_ratio_sum(
                start.numer(),
                start.denom(),
                duration.numer(),
                duration.denom(),
            ) is Some ==> (r matches Ok(t) && t.wf() && t.start() == start && t.duration()
                == duration),
            duration.numer() >= 0 && sum_fits(
                start.numer(),
                start.denom(),
                duration.numer(),
                duration.denom(),
            ) ==> r is Ok,
    {
        if duration.is_negative() {
            return Err(TimelineError::NegativeDuration);
        }
        match ratio_checked_add(start.num, start.den, duration.num, duration.den) {
            None => Err(TimelineError::TimeRangeOverflow),
            Some(_) => Ok(TimeRange { start, duration }),
        }
    }

    /// A range from the timeline origin lasting `duration`.
    pub fn from_origin(duration: Seconds) -> (r: Result<TimeRange, TimelineError>)
        requires
            duration.wf(),
        ensures
            duration.numer() < 0 ==> r == Err::<TimeRange, TimelineError>(
                TimelineError::NegativeDuration,
            ),
            duration.numer() >= 0 && checked_ratio_sum(0, 1, duration.numer(), duration.denom())
                is None ==> r == Err::<TimeRange, TimelineError>(TimelineError::TimeRangeOverflow),
            duration.numer() >= 0 && checked_ratio_sum(0, 1, duration.numer(), duration.denom())
                is Some ==> (r matches Ok(t) && t.wf() && t.start().numer() == 0 && t.start().denom() == 1
                && t.duration() == duration),
            duration.numer() >= 0 && sum_fits(0, 1, duration.numer(), duration.denom()) ==> r is Ok,
    {
        let zero = Seconds::zero();
        TimeRange::new(zero, duration)
    }

    /// The start instant.
    #[verifier::when_used_as_spec(spec_start)]
    pub fn start(self) -> (s: Seconds)
        ensures
            s == self.spec_start(),
    {
        self.start
    }

    /// The span's length.
    #[verifier::when_used_as_spec(spec_duration)]
    pub fn duration(self) -> (d: Seconds)
        ensures
            d == self.spec_duration(),
    {
        self.duration
    }

    /// The exclusive end instant, `start + duration`. Cannot overflow: a
    /// well-formed range has a representable end.
    #[verifier::when_used_as_spec(spec_end)]
    pub fn end(self) -> (e: Seconds)
        requires
            self.wf(),
        ensures
            e == self.spec_end(),
    {
        match ratio_checked_add(self.start.num, self.start.den, self.duration.num, self.duration.den) {
            Some((n, d)) => Seconds { num: n, den: d },
            None => Seconds { num: 0, den: 1 },
        }
    }

    /// Whether `at` lies in `[start, end)`.
    pub fn contains(self, at: Seconds) -> (b: bool)
        requires
            self.wf(),
        ensures
            b == self.spec_contains(at),
    {
        self.start.at_or_before(at) && at.before(self.end())
    }

    /// Whether the two ranges share any instant.
    pub fn overlaps(self, other: TimeRange) -> (b: bool)
        requires
            self.wf(),
            other.wf(),
        ensures
            b == self.spec_overlaps(other),
    {
        self.start.before(other.end()) && other.start.before(self.end())
    }
}

/// A whole `m >= 1` times `p` within `[-k, k]` leaves `p` within it too.
proof fn lemma_factor_within(p: int, m: int, k: int)
    requires
        m >= 1,
        -k <= p * m <= k,
    ensures
        -k <= p <= k,
{
    assert(-k <= p <= k) by (nonlinear_arith)
        requires
            m >= 1,
            -k <= p * m <= k,
    ;
}

/// Adding `x` to a value `acc` that denotes `n / d` fits every step of
/// `Rational64::checked_add` when the unreduced sum `n / d + x` does: `acc`
/// is `n / d` reduced, so each of its products is a fraction of the
/// unreduced one.
pub proof fn lemma_step_fits(acc: Seconds, x: Seconds, n: int, d: int)
    requires
        acc.wf(),
        x.wf(),
        d > 0,
        acc.denotes(n, d),
        d * x.denom() <= i64::MAX,
        -i64::MAX <= n * x.denom() <= i64::MAX,
        -i64::MAX <= x.numer() * d <= i64::MAX,
        -i64::MAX <= n * x.denom() + x.numer() * d <= i64::MAX,
    ensures
        sum_fits(acc.numer(), acc.denom(), x.numer(), x.denom()),
{
    let (an, ad, xn, xd) = (acc.numer() as int, acc.denom() as int, x.numer() as int, x.denom() as int);
    let m = lemma_canonical_divides(an, ad, n, d);
    let k = i64::MAX as int;
    assert((ad * xd) * m == d * xd) by (nonlinear_arith)
        requires
            d == ad * m,
    ;
    lemma_factor_within(ad * xd, m, k);
    assert((an * xd) * m == n * xd) by (nonlinear_arith)
        requires
            n == an * m,
    ;
    lemma_factor_within(an * xd, m, k);
    assert((xn * ad) * m == xn * d) by (nonlinear_arith)
        requires
            d == ad * m,
    ;
    lemma_factor_within(xn * ad, m, k);
    assert((an * xd + xn * ad) * m == n * xd + xn * d) by (nonlinear_arith)
        requires
            n == an * m,
            d == ad * m,
    ;
    lemma_factor_within(an * xd + xn * ad, m, k);
}

/// Exact sums compose: if `acc` denotes `n / d` and `sum` is exactly
/// `acc + x`, then `sum` denotes `n / d + x`.
pub proof fn lemma_sum_denotes(acc: Seconds, x: Seconds, sum: Seconds, n: int, d: int)
    requires
        acc.wf(),
        x.wf(),
        d > 0,
        acc.denotes(n, d),
        sum.denotes(
            acc.numer() * x.denom() + x.numer() * acc.denom(),
            acc.denom() * x.denom(),
        ),
    ensures
        sum.denotes(n * x.denom() + x.numer() * d, d * x.denom()),
        d * x.denom() > 0,
{
    let (an, ad, xn, xd, sn, sd) = (
        acc.numer() as int,
        acc.denom() as int,
        x.numer() as int,
        x.denom() as int,
        sum.numer() as int,
        sum.denom() as int,
    );
    let l = sn * (d * xd);
    let r = (n * xd + xn * d) * sd;
    assert(sn * (d * xd) * ad == d * (sn * (ad * xd))) by (nonlinear_arith);
    assert(d * ((an * xd + xn * ad) * sd) == d * (an * xd * sd) + d * (xn * ad * sd))
        by (nonlinear_arith);
    assert(d * (an * xd * sd) == (an * d) * (xd * sd)) by (nonlinear_arith);
    assert(d * (xn * ad * sd) == xn * ad * d * sd) by (nonlinear_arith);
    assert((n * ad) * (xd * sd) == (n * xd * sd) * ad) by (nonlinear_arith);
    assert(xn * ad * d * sd == (xn * d * sd) * ad) by (nonlinear_arith);
    assert((n * xd + xn * d) * sd == n * xd * sd + xn * d * sd) by (nonlinear_arith);
    assert((n * xd * sd + xn * d * sd) * ad == (n * xd * sd) * ad + (xn * d * sd) * ad)
        by (nonlinear_arith);
    assert(l * ad == r * ad);
    assert(l == r) by (nonlinear_arith)
        requires
            l * ad == r * ad,
            ad > 0,
    ;
    assert(d * xd > 0) by (nonlinear_arith)
        requires
            d > 0,
            xd > 0,
    ;
}

/// An exact `x - p` with `p >= 0` is at or before `x`.
pub proof fn lemma_difference_at_most(x: Seconds, p: Seconds, r: Seconds)
    requires
        x.wf(),
        p.wf(),
        r.wf(),
        p.numer() >= 0,
        r.denotes(x.numer() * p.denom() - p.numer() * x.denom(), x.denom() * p.denom()),
    ensures
        r.spec_at_or_before(x),
{
    assert(x.numer() * p.denom() - p.numer() * x.denom() == x.numer() * p.denom() + (-p.numer())
        * x.denom()) by (nonlinear_arith);
    lemma_sum_against_start(
        x.numer() as int,
        x.denom() as int,
        -p.numer(),
        p.denom() as int,
        r.numer() as int,
        r.denom() as int,
    );
}

/// An exact `x + p` with `p >= 0` is at or after `x`.
pub proof fn lemma_sum_at_least(x: Seconds, p: Seconds, r: Seconds)
    requires
        x.wf(),
        p.wf(),
        r.wf(),
        p.numer() >= 0,
        r.denotes(x.numer() * p.denom() + p.numer() * x.denom(), x.denom() * p.denom()),
    ensures
        x.spec_at_or_before(r),
{
    lemma_sum_against_start(
        x.numer() as int,
        x.denom() as int,
        p.numer() as int,
        p.denom() as int,
        r.numer() as int,
        r.denom() as int,
    );
    assert(x.numer() * r.denom() == r.denom() * x.numer()) by (nonlinear_arith);
    assert(r.numer() * x.denom() == x.denom() * r.numer()) by (nonlinear_arith);
}

/// `s + (e - s)`, computed exactly, is `e` again.
pub proof fn lemma_difference_then_sum(s: Seconds, e: Seconds, d: Seconds, total: Seconds)
    requires
        s.wf(),
        e.wf(),
        d.wf(),
        total.wf(),
        d.denotes(e.numer() * s.denom() - s.numer() * e.denom(), e.denom() * s.denom()),
        total.denotes(s.numer() * d.denom() + d.numer() * s.denom(), s.denom() * d.denom()),
    ensures
        total.same_as(e),
{
    let (sn, sd, en, ed, dn, dd, tn, td) = (
        s.numer() as int,
        s.denom() as int,
        e.numer() as int,
        e.denom() as int,
        d.numer() as int,
        d.denom() as int,
        total.numer() as int,
        total.denom() as int,
    );
    // tn * sd * dd * ed == (sn * dd + dn * sd) * td * ed
    //                  == sn * dd * td * ed + (en * sd - sn * ed) * dd * td
    //                  == en * sd * dd * td
    assert(tn * (sd * dd) * ed == (sn * dd + dn * sd) * td * ed) by (nonlinear_arith)
        requires
            tn * (sd * dd) == (sn * dd + dn * sd) * td,
    ;
    assert((sn * dd + dn * sd) * td * ed == sn * dd * td * ed + (dn * (ed * sd)) * td)
        by (nonlinear_arith);
    assert((dn * (ed * sd)) * td == ((en * sd - sn * ed) * dd) * td) by (nonlinear_arith)
        requires
            dn * (ed * sd) == (en * sd - sn * ed) * dd,
    ;
    assert(((en * sd - sn * ed) * dd) * td == en * sd * dd * td - sn * ed * dd * td)
        by (nonlinear_arith);
    assert(sn * dd * td * ed == sn * ed * dd * td) by (nonlinear_arith);
    assert(tn * (sd * dd) * ed == en * sd * dd * td);
    assert(tn * (sd * dd) * ed == (tn * ed) * (sd * dd)) by (nonlinear_arith);
    assert(en * sd * dd * td == (en * td) * (sd * dd)) by (nonlinear_arith);
    assert(sd * dd > 0) by (nonlinear_arith)
        requires
            sd > 0,
            dd > 0,
    ;
    let c = sd * dd;
    assert(tn * ed == en * td) by (nonlinear_arith)
        requires
            (tn * ed) * c == (en * td) * c,
            c > 0,
    ;
}

/// A range never ends before it starts: `start <= end`.
pub proof fn lemma_end_never_precedes_start(range: TimeRange)
    requires
        range.wf(),
    ensures
        range.start().spec_at_or_before(range.end()),
{
    range.lemma_end();
}

/// Ranges are half-open: a non-empty range contains its start and never its
/// end, no point before the start, and no point at or after the end.
pub proof fn lemma_contains_is_half_open(range: TimeRange, at: Seconds)
    requires
        range.wf(),
        at.wf(),
    ensures
        range.spec_contains(range.start()) == (range.duration().numer() > 0),
        !range.spec_contains(range.end()),
        at.spec_before(range.start()) ==> !range.spec_contains(at),
        range.end().spec_at_or_before(at) ==> !range.spec_contains(at),
        range.spec_contains(at) ==> range.start().spec_at_or_before(at) && at.spec_before(
            range.end(),
        ),
{
    range.lemma_end();
}

/// Overlap is symmetric, reflexive on non-empty ranges, holds between two
/// non-empty ranges sharing a start, and never holds between ranges that
/// merely meet at one instant.
pub proof fn lemma_overlaps_laws(a: TimeRange, b: TimeRange)
    requires
        a.wf(),
        b.wf(),
    ensures
        a.spec_overlaps(b) == b.spec_overlaps(a),
        a.duration().numer() > 0 ==> a.spec_overlaps(a),
        b.start().same_as(a.end()) ==> !a.spec_overlaps(b) && !b.spec_overlaps(a),
        a.start().same_as(b.start()) && a.duration().numer() > 0 && b.duration().numer() > 0
            ==> a.spec_overlaps(b),
{
    a.lemma_end();
    b.lemma_end();
    let (sa, ea, sb, eb) = (a.start(), a.end(), b.start(), b.end());
    lemma_cross_trans(
        sa.numer() as int,
        sa.denom() as int,
        sb.numer() as int,
        sb.denom() as int,
        eb.numer() as int,
        eb.denom() as int,
    );
    lemma_cross_trans(
        sb.numer() as int,
        sb.denom() as int,
        sa.numer() as int,
        sa.denom() as int,
        ea.numer() as int,
        ea.denom() as int,
    );
    assert(sa.numer() * sb.denom() == sb.numer() * sa.denom() ==> sb.numer() * sa.denom()
        == sa.numer() * sb.denom());
    assert(sb.numer() * ea.denom() == ea.numer() * sb.denom() ==> !(sb.numer() * ea.denom()
        < ea.numer() * sb.denom()));
}

/// Whole frames map to time monotonically: for what
/// [`Seconds::from_frames`] returns at one rate, `a <= b` exactly when the
/// time for `a` is at or before the time for `b`.
pub proof fn lemma_from_frames_is_monotonic(
    rate: FrameRate,
    a: int,
    b: int,
    time_a: Seconds,
    time_b: Seconds,
)
    requires
        rate.wf(),
        time_a.wf(),
        time_b.wf(),
        time_a.denotes(a * rate.denom(), rate.numer() as int),
        time_b.denotes(b * rate.denom(), rate.numer() as int),
    ensures
        (a <= b) == time_a.spec_at_or_before(time_b),
        (a < b) == time_a.spec_before(time_b),
{
    lemma_compare_over_common(
        time_a.numer() as int,
        time_a.denom() as int,
        time_b.numer() as int,
        time_b.denom() as int,
        a * rate.denom(),
        b * rate.denom(),
        rate.numer() as int,
    );
    let rd = rate.denom() as int;
    assert((a * rd <= b * rd) == (a <= b) && (a * rd < b * rd) == (a < b)) by (nonlinear_arith)
        requires
            rd > 0,
    ;
}

/// Whole frames survive a round trip: converting what
/// [`Seconds::from_frames`] returns for `frames` back with
/// [`Seconds::to_frames`] at the same rate gives `frames` again.
pub proof fn lemma_frames_round_trip(rate: FrameRate, frames: int, time: Seconds)
    requires
        rate.wf(),
        time.wf(),
        time.denotes(frames * rate.denom(), rate.numer() as int),
    ensures
        round_half_away(time.numer() * rate.numer(), time.denom() * rate.denom()) == frames,
{
    let p = time.numer() * rate.numer();
    let q = time.denom() * rate.denom();
    assert(q > 0) by (nonlinear_arith)
        requires
            time.denom() > 0,
            rate.denom() > 0,
            q == time.denom() * rate.denom(),
    ;
    assert(p == frames * q) by (nonlinear_arith)
        requires
            time.numer() * rate.numer() == frames * rate.denom() * time.denom(),
            p == time.numer() * rate.numer(),
            q == time.denom() * rate.denom(),
    ;
    lemma_round_whole(frames, q);
}

/// Rounding an exact whole quotient `n * q / q` gives `n`.
proof fn lemma_round_whole(n: int, q: int)
    requires
        q > 0,
    ensures
        round_half_away(n * q, q) == n,
{
    if n >= 0 {
        assert(2 * (n * q) + q == n * (2 * q) + q) by (nonlinear_arith);
        vstd::arithmetic::div_mod::lemma_fundamental_div_mod_converse(
            2 * (n * q) + q,
            2 * q,
            n,
            q,
        );
    } else {
        assert(-2 * (n * q) + q == (-n) * (2 * q) + q) by (nonlinear_arith);
        assert(n * q < 0) by (nonlinear_arith)
            requires
                n < 0,
                q > 0,
        ;
        vstd::arithmetic::div_mod::lemma_fundamental_div_mod_converse(
            -2 * (n * q) + q,
            2 * q,
            -n,
            q,
        );
    }
}

/// Whole seconds survive a trip through samples: what
/// [`Seconds::from_samples`] returns for `seconds * hertz` samples is exactly
/// `seconds / 1`, the value [`Seconds::from_secs`] builds.
pub proof fn lemma_whole_seconds_of_samples(rate: SampleRate, seconds: int, time: Seconds)
    requires
        rate.wf(),
        time.wf(),
        time.denotes(seconds * rate.hertz(), rate.hertz() as int),
    ensures
        time.numer() == seconds,
        time.denom() == 1,
{
    let h = rate.hertz() as int;
    assert(time.numer() == seconds * time.denom()) by (nonlinear_arith)
        requires
            time.numer() * h == seconds * h * time.denom(),
            h > 0,
    ;
    lemma_whole_value_has_unit_denominator(time.numer() as int, time.denom() as int, seconds);
}

/// Whole samples survive a round trip: converting what
/// [`Seconds::from_samples`] returns for `samples` back with
/// [`Seconds::to_samples`] at the same rate gives `samples` again.
pub proof fn lemma_samples_round_trip(rate: SampleRate, samples: int, time: Seconds)
    requires
        rate.wf(),
        time.wf(),
        time.denotes(samples, rate.hertz() as int),
    ensures
        round_half_away(time.numer() * rate.hertz(), time.denom() as int) == samples,
{
    let h = rate.hertz() as int;
    assert(time.numer() * h == samples * time.denom());
    lemma_round_whole(samples, time.denom() as int);
}

} // verus!
