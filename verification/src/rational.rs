//! Exact rational arithmetic over `i64` numerator/denominator pairs, backed by
//! `num_rational::Rational64`.
//!
//! A pair `(n, d)` denotes the rational number `n / d`. Every pair this module
//! hands out is *canonical*: `d > 0` and `n`, `d` share no factor above one, which
//! is the form `Rational64` keeps its values in.
use vstd::prelude::*;
use num_rational::Rational64;
use num_traits::{CheckedAdd, CheckedSub};

verus! {

/// `k` divides `n`.
pub open spec fn divides(k: int, n: int) -> bool {
    n % k == 0
}

/// `n` and `d` have no common divisor greater than one.
pub open spec fn coprime(n: int, d: int) -> bool {
    forall|k: int| k > 1 && #[trigger] divides(k, n) ==> !divides(k, d)
}

/// The lowest-terms form `Rational64` stores: a positive denominator and no
/// common factor.
pub open spec fn canonical(n: int, d: int) -> bool {
    d > 0 && coprime(n, d)
}

/// `p / q` rounded to the nearest integer, half-way cases away from zero
/// (`q > 0`).
pub open spec fn round_half_away(p: int, q: int) -> int {
    if p >= 0 {
        (2 * p + q) / (2 * q)
    } else {
        -((-2 * p + q) / (2 * q))
    }
}

/// Every step of `Rational64::checked_add` on `an/ad + bn/bd` stays within
/// `i64`: the denominators' product, each numerator scaled by the other
/// denominator, and their sum.
pub open spec fn sum_fits(an: i64, ad: i64, bn: i64, bd: i64) -> bool {
    &&& ad * bd <= i64::MAX
    &&& -i64::MAX <= an * bd <= i64::MAX
    &&& -i64::MAX <= bn * ad <= i64::MAX
    &&& -i64::MAX <= an * bd + bn * ad <= i64::MAX
}

/// Every step of `Rational64::checked_sub` on `an/ad - bn/bd` stays within
/// `i64`.
pub open spec fn difference_fits(an: i64, ad: i64, bn: i64, bd: i64) -> bool {
    &&& ad * bd <= i64::MAX
    &&& -i64::MAX <= an * bd <= i64::MAX
    &&& -i64::MAX <= bn * ad <= i64::MAX
    &&& -i64::MAX <= an * bd - bn * ad <= i64::MAX
}

/// What `Rational64::checked_add` returns for `an/ad + bn/bd`, as a canonical
/// pair.
pub uninterp spec fn checked_ratio_sum(an: i64, ad: i64, bn: i64, bd: i64) -> Option<(i64, i64)>;

/// What `Rational64::checked_sub` returns for `an/ad - bn/bd`, as a canonical
/// pair.
pub uninterp spec fn checked_ratio_difference(an: i64, ad: i64, bn: i64, bd: i64) -> Option<(i64, i64)>;

/// `n / d` in lowest terms (for `d > 0`): the canonical pair with the same
/// value, which [`lemma_canonical_unique`] shows is the only one.
pub open spec fn reduced_ratio(n: i64, d: i64) -> (i64, i64) {
    choose|p: (i64, i64)| canonical(p.0 as int, p.1 as int) && p.0 * d == n * p.1
}

/// A number divisible by a positive `k` is `k` times its quotient.
proof fn lemma_divides_is_multiple(k: int, n: int)
    requires
        k > 0,
    ensures
        divides(k, n) <==> n == k * (n / k),
{
    vstd::arithmetic::div_mod::lemma_fundamental_div_mod(n, k);
}

/// `k` divides each of its multiples.
proof fn lemma_multiple_divides(k: int, t: int)
    requires
        k > 0,
    ensures
        divides(k, k * t),
{
    vstd::arithmetic::div_mod::lemma_mod_multiples_basic(t, k);
    assert(t * k == k * t) by (nonlinear_arith);
}

/// Bezout's identity for coprime `x` and `y >= 0`: some `u * x + v * y` is one.
proof fn lemma_bezout(x: int, y: int) -> (uv: (int, int))
    requires
        y >= 0,
        coprime(x, y),
    ensures
        uv.0 * x + uv.1 * y == 1,
    decreases y,
{
    if y == 0 {
        // every k > 1 divides 0, so none divides x: x is 1 or -1
        if x == 0 {
            assert(divides(2, 0));
        } else if x > 1 {
            vstd::arithmetic::div_mod::lemma_mod_self_0(x);
            assert(divides(x, x));
            assert(divides(x, 0));
        } else if x < -1 {
            lemma_multiple_divides(-x, -1);
            assert(x == (-x) * -1);
            assert(divides(-x, x));
            lemma_multiple_divides(-x, 0);
            assert(0 == (-x) * 0);
            assert(divides(-x, 0));
        }
        assert(x * x == 1) by (nonlinear_arith)
            requires
                x == 1 || x == -1,
        ;
        (x, 0)
    } else {
        let q = x / y;
        let r = x % y;
        vstd::arithmetic::div_mod::lemma_fundamental_div_mod(x, y);
        assert forall|k: int| k > 1 && #[trigger] divides(k, y) implies !divides(k, r) by {
            if divides(k, r) {
                lemma_divides_is_multiple(k, y);
                lemma_divides_is_multiple(k, r);
                let a = y / k;
                let b = r / k;
                assert(x == k * (q * a + b)) by (nonlinear_arith)
                    requires
                        x == y * q + r,
                        y == k * a,
                        r == k * b,
                ;
                lemma_multiple_divides(k, q * a + b);
                assert(divides(k, x));
            }
        }
        let uv = lemma_bezout(y, r);
        assert((uv.1) * x + (uv.0 - uv.1 * q) * y == 1) by (nonlinear_arith)
            requires
                uv.0 * y + uv.1 * r == 1,
                x == y * q + r,
        ;
        (uv.1, uv.0 - uv.1 * q)
    }
}

/// Euclid's lemma: a positive `b` coprime to `a` that divides `a * e` divides
/// `e`.
proof fn lemma_euclid(a: int, b: int, e: int)
    requires
        b > 0,
        coprime(a, b),
        divides(b, a * e),
    ensures
        divides(b, e),
{
    let uv = lemma_bezout(a, b);
    lemma_divides_is_multiple(b, a * e);
    let t = (a * e) / b;
    assert(e == b * (uv.0 * t + uv.1 * e)) by (nonlinear_arith)
        requires
            uv.0 * a + uv.1 * b == 1,
            a * e == b * t,
    ;
    lemma_multiple_divides(b, uv.0 * t + uv.1 * e);
}

/// Two canonical pairs with the same value are the same pair.
pub proof fn lemma_canonical_unique(a: int, b: int, c: int, e: int)
    requires
        canonical(a, b),
        canonical(c, e),
        a * e == c * b,
    ensures
        a == c,
        b == e,
{
    // b divides a * e and is coprime to a, so b divides e; symmetrically e divides b
    lemma_multiple_divides(b, c);
    assert(a * e == b * c) by (nonlinear_arith)
        requires
            a * e == c * b,
    ;
    lemma_euclid(a, b, e);
    lemma_multiple_divides(e, a);
    assert(c * b == e * a) by (nonlinear_arith)
        requires
            a * e == c * b,
    ;
    lemma_euclid(c, e, b);
    lemma_divides_is_multiple(b, e);
    lemma_divides_is_multiple(e, b);
    assert(b == e) by (nonlinear_arith)
        requires
            b > 0,
            e > 0,
            e == b * (e / b),
            b == e * (b / e),
    ;
    assert(a == c) by (nonlinear_arith)
        requires
            b > 0,
            b == e,
            a * e == c * b,
    ;
}

/// A canonical pair `a / b` with the value `n / d` (`d > 0`) is `n / d`
/// divided through by some whole `m >= 1`.
pub proof fn lemma_canonical_divides(a: int, b: int, n: int, d: int) -> (m: int)
    requires
        canonical(a, b),
        d > 0,
        a * d == n * b,
    ensures
        m >= 1,
        d == b * m,
        n == a * m,
{
    lemma_multiple_divides(b, n);
    assert(a * d == b * n) by (nonlinear_arith)
        requires
            a * d == n * b,
    ;
    lemma_euclid(a, b, d);
    lemma_divides_is_multiple(b, d);
    let m = d / b;
    assert(m >= 1 && n == a * m) by (nonlinear_arith)
        requires
            d == b * m,
            d > 0,
            b > 0,
            a * d == n * b,
    ;
    m
}

/// A canonical pair with the value `n / d` is `reduced_ratio(n, d)`.
pub proof fn lemma_reduced_ratio_is(n: i64, d: i64, r: (i64, i64))
    requires
        d > 0,
        canonical(r.0 as int, r.1 as int),
        r.0 * d == n * r.1,
    ensures
        r == reduced_ratio(n, d),
{
    let p = reduced_ratio(n, d);
    assert(canonical(p.0 as int, p.1 as int) && p.0 * d == n * p.1);
    assert(r.0 * p.1 == p.0 * r.1) by (nonlinear_arith)
        requires
            d > 0,
            r.1 > 0,
            p.1 > 0,
            r.0 * d == n * r.1,
            p.0 * d == n * p.1,
    ;
    lemma_canonical_unique(r.0 as int, r.1 as int, p.0 as int, p.1 as int);
}

/// `Rational64::new(n, d)`, read back as its numerator and denominator.
///
/// The contract states what the crate documents: the result is `n / d` put
/// into lowest terms with a positive denominator, which fixes it
/// ([`lemma_reduced_ratio_is`]). A positive `d` is required; `Rational64::new`
/// panics on a zero denominator.
#[verifier::external_body]
pub(crate) fn ratio_new(n: i64, d: i64) -> (r: (i64, i64))
    requires
        d > 0,
    ensures
        canonical(r.0 as int, r.1 as int),
        r.0 * d == n * r.1,
{
    Rational64::new(n, d).into_raw()
}

/// `Rational64::checked_add` on two canonical values.
///
/// The contract names the result and states, as the source shows, that a
/// `Some` result is the exact sum in lowest terms, and that the sum succeeds
/// whenever every step fits in `i64` (the least common multiple, each scaled
/// numerator and their sum are no larger in magnitude than the products
/// [`sum_fits`] bounds). The other inputs on which it returns `None` are left
/// to the name.
#[verifier::external_body]
pub(crate) fn ratio_checked_add(an: i64, ad: i64, bn: i64, bd: i64) -> (r: Option<(i64, i64)>)
    requires
        ad > 0,
        bd > 0,
    ensures
        r == checked_ratio_sum(an, ad, bn, bd),
        r matches Some(s) ==> canonical(s.0 as int, s.1 as int)
            && s.0 * (ad * bd) == (an * bd + bn * ad) * s.1,
        sum_fits(an, ad, bn, bd) ==> r is Some,
{
    Rational64::new_raw(an, ad).checked_add(&Rational64::new_raw(bn, bd)).map(|x| x.into_raw())
}

/// `Rational64::checked_sub` on two canonical values.
///
/// As for the sum: a `Some` result is the exact difference in lowest terms,
/// and the difference succeeds whenever every step fits in `i64`
/// ([`difference_fits`]); the other inputs that give `None` are left to the
/// name.
#[verifier::external_body]
pub(crate) fn ratio_checked_sub(an: i64, ad: i64, bn: i64, bd: i64) -> (r: Option<(i64, i64)>)
    requires
        ad > 0,
        bd > 0,
    ensures
        r == checked_ratio_difference(an, ad, bn, bd),
        r matches Some(s) ==> canonical(s.0 as int, s.1 as int)
            && s.0 * (ad * bd) == (an * bd - bn * ad) * s.1,
        difference_fits(an, ad, bn, bd) ==> r is Some,
{
    Rational64::new_raw(an, ad).checked_sub(&Rational64::new_raw(bn, bd)).map(|x| x.into_raw())
}

/// `(an/ad * bn/bd).round().to_integer()` with `Rational64`.
///
/// `round` is documented to round to the nearest integer with half-way cases
/// away from zero. The bounds keep every intermediate product of the crate's
/// `Mul` and `round` inside `i64`, where it would otherwise panic.
#[verifier::external_body]
pub(crate) fn ratio_mul_round(an: i64, ad: i64, bn: i64, bd: i64) -> (r: i64)
    requires
        ad > 0,
        bd > 0,
        -0x7fff_ffff_ffff_ffff < an * bn < 0x7fff_ffff_ffff_ffff,
        ad * bd <= 0x7fff_ffff_ffff_ffff,
    ensures
        r == round_half_away(an * bn, ad * bd),
{
    (Rational64::new_raw(an, ad) * Rational64::new_raw(bn, bd)).round().to_integer()
}

/// `Rational64::from_integer(n) / (bn/bd)` for a positive divisor.
///
/// The result is the exact quotient in lowest terms; the bound keeps the
/// crate's `Div` product `n * bd` inside `i64`.
#[verifier::external_body]
pub(crate) fn ratio_int_div(n: i64, bn: i64, bd: i64) -> (r: (i64, i64))
    requires
        bn > 0,
        bd > 0,
        -0x7fff_ffff_ffff_ffff <= n * bd <= 0x7fff_ffff_ffff_ffff,
    ensures
        canonical(r.0 as int, r.1 as int),
        r.0 * bn == n * bd * r.1,
{
    (Rational64::from_integer(n) / Rational64::new_raw(bn, bd)).into_raw()
}

} // verus!
