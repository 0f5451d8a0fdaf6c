//! The complex scalar and the trusted layer around it.
//!
//! The scalar is `num_complex::Complex64`. Its floating-point arithmetic is
//! opaque here: each operation the algorithms use is reached through one
//! trusted wrapper, and the value an operation returns is pinned by an
//! uninterpreted name, so that the verified code above can state exactly
//! which operations, in which order, produced each coefficient.

use vstd::prelude::*;

use num_complex::Complex64;

verus! {

#[verifier::external_type_specification]
#[verifier::external_body]
#[verifier::reject_recursive_types(T)]
pub struct ExComplex<T>(num_complex::Complex<T>);

// Names for the results of the complex operations. Each is a pure function
// of its arguments; the trusted wrappers below are the only places that say
// anything about them.

pub uninterp spec fn cadd(a: Complex64, b: Complex64) -> Complex64;

pub uninterp spec fn csub(a: Complex64, b: Complex64) -> Complex64;

pub uninterp spec fn cmul(a: Complex64, b: Complex64) -> Complex64;

pub uninterp spec fn cdiv(a: Complex64, b: Complex64) -> Complex64;

pub uninterp spec fn cneg(a: Complex64) -> Complex64;

pub uninterp spec fn csqrt(a: Complex64) -> Complex64;

/// Holds iff both parts of `a` are zero.
pub uninterp spec fn is_zero_c(a: Complex64) -> bool;

/// Holds iff `a` is the multiplicative identity.
pub uninterp spec fn is_one_c(a: Complex64) -> bool;

/// Holds iff the imaginary part of `a` is zero.
pub uninterp spec fn im_is_zero_c(a: Complex64) -> bool;

/// `|a| <= |b|`.
pub uninterp spec fn norm_le(a: Complex64, b: Complex64) -> bool;

/// `|a| < |b|`.
pub uninterp spec fn norm_lt(a: Complex64, b: Complex64) -> bool;

/// The magnitude-then-phase order used to sort root lists.
pub uninterp spec fn mag_phase_le(a: Complex64, b: Complex64) -> bool;

/// Holds iff both parts of `a` are finite (no infinity, no NaN part).
pub uninterp spec fn is_finite_c(a: Complex64) -> bool;

/// The complex number with real part `n` and imaginary part zero.
pub uninterp spec fn c_of_usize(n: usize) -> Complex64;

/// The complex number `1/n + 0i`.
pub uninterp spec fn recip_of_usize(n: usize) -> Complex64;

/// The complex number `0 + (1/n)i`.
pub uninterp spec fn imag_recip_of_usize(n: usize) -> Complex64;

/// The candidate `(e^{i arg(w)} * |a0/ak|)^(1/k)` of the initial-guess
/// heuristic.
pub uninterp spec fn guess_term_of(w: Complex64, a0: Complex64, ak: Complex64, k: usize) -> Complex64;

/// Relies on `Add for num_complex::Complex`: componentwise sum.
#[verifier::external_body]
pub(crate) fn c_add(a: Complex64, b: Complex64) -> (r: Complex64)
    ensures
        r == cadd(a, b),
{
    a + b
}

/// Relies on `Sub for num_complex::Complex`: componentwise difference.
#[verifier::external_body]
pub(crate) fn c_sub(a: Complex64, b: Complex64) -> (r: Complex64)
    ensures
        r == csub(a, b),
{
    a - b
}

/// Relies on `Mul for num_complex::Complex`: the complex product.
#[verifier::external_body]
pub(crate) fn c_mul(a: Complex64, b: Complex64) -> (r: Complex64)
    ensures
        r == cmul(a, b),
{
    a * b
}

/// Relies on `Div for num_complex::Complex`: the complex quotient.
/// A zero divisor yields non-finite parts; it does not panic.
#[verifier::external_body]
pub(crate) fn c_div(a: Complex64, b: Complex64) -> (r: Complex64)
    ensures
        r == cdiv(a, b),
{
    a / b
}

/// Relies on `Neg for num_complex::Complex`: componentwise negation.
#[verifier::external_body]
pub(crate) fn c_neg(a: Complex64) -> (r: Complex64)
    ensures
        r == cneg(a),
{
    -a
}

/// Relies on `Complex::sqrt`: the principal complex square root.
#[verifier::external_body]
pub(crate) fn c_sqrt(a: Complex64) -> (r: Complex64)
    ensures
        r == csqrt(a),
{
    a.sqrt()
}

/// Relies on `num_traits::Zero::zero` for `Complex`: both parts zero.
#[verifier::external_body]
pub(crate) fn c_zero() -> (r: Complex64)
    ensures
        is_zero_c(r),
{
    num_traits::Zero::zero()
}

/// Relies on `num_traits::One::one` for `Complex`: the value `1 + 0i`,
/// which `is_one` accepts and `is_zero` rejects.
#[verifier::external_body]
pub(crate) fn c_one() -> (r: Complex64)
    ensures
        is_one_c(r),
        !is_zero_c(r),
{
    num_traits::One::one()
}

/// Relies on `num_traits::Zero::is_zero` for `Complex`: true iff both
/// parts are zero.
#[verifier::external_body]
pub(crate) fn c_is_zero(a: &Complex64) -> (r: bool)
    ensures
        r == is_zero_c(*a),
{
    num_traits::Zero::is_zero(a)
}

/// Relies on `num_traits::One::is_one` for `Complex`: true iff the value
/// is `1 + 0i`.
#[verifier::external_body]
pub(crate) fn c_is_one(a: &Complex64) -> (r: bool)
    ensures
        r == is_one_c(*a),
{
    num_traits::One::is_one(a)
}

/// Relies on `num_traits::Zero::is_zero` for the imaginary part of `a`.
#[verifier::external_body]
pub(crate) fn c_im_is_zero(a: &Complex64) -> (r: bool)
    ensures
        r == im_is_zero_c(*a),
{
    num_traits::Zero::is_zero(&a.im)
}

/// Relies on `Complex::norm`: compares the magnitudes of `a` and `b`
/// with `<=`.
#[verifier::external_body]
pub(crate) fn c_norm_le(a: &Complex64, b: &Complex64) -> (r: bool)
    ensures
        r == norm_le(*a, *b),
{
    a.norm() <= b.norm()
}

/// Relies on `Complex::norm`: compares the magnitudes of `a` and `b`
/// with `<`.
#[verifier::external_body]
pub(crate) fn c_norm_lt(a: &Complex64, b: &Complex64) -> (r: bool)
    ensures
        r == norm_lt(*a, *b),
{
    a.norm() < b.norm()
}

/// Relies on `Complex::norm` and `Complex::arg`: orders by magnitude,
/// breaking ties by phase. For finite operands `norm` (a `hypot`) and `arg`
/// (an `atan2`) never return NaN, so the comparison key is a pair of
/// non-NaN reals and the order is total there: when the comparison fails,
/// the reversed one holds. Nothing is said when a part is infinite or NaN.
#[verifier::external_body]
pub(crate) fn c_mag_phase_le(a: &Complex64, b: &Complex64) -> (r: bool)
    ensures
        r == mag_phase_le(*a, *b),
        !r && is_finite_c(*a) && is_finite_c(*b) ==> mag_phase_le(*b, *a),
{
    a.norm() < b.norm() || (a.norm() == b.norm() && a.arg() <= b.arg())
}

/// Relies on `Complex::is_finite`: true iff the real and the imaginary
/// part are both finite.
#[verifier::external_body]
pub(crate) fn c_is_finite(a: &Complex64) -> (r: bool)
    ensures
        r == is_finite_c(*a),
{
    a.is_finite()
}

/// Relies on `num_traits::FromPrimitive::from_usize` for `Complex`:
/// the real number `n`, which always converts.
#[verifier::external_body]
pub(crate) fn c_from_usize(n: usize) -> (r: Complex64)
    ensures
        r == c_of_usize(n),
{
    num_traits::FromPrimitive::from_usize(n).unwrap()
}

/// Relies on `num_traits::FromPrimitive::from_usize` and `Complex::inv`:
/// the real number `1/n`.
#[verifier::external_body]
pub(crate) fn c_recip_usize(n: usize) -> (r: Complex64)
    requires
        1 <= n,
    ensures
        r == recip_of_usize(n),
{
    let x: Complex64 = num_traits::FromPrimitive::from_usize(n).unwrap();
    x.inv()
}

/// Relies on `Complex::i`, `Complex::scale` and `Add for Complex`: the
/// imaginary number `(1/n)i`. Its imaginary part `1/n` is a positive
/// normal float for every `n >= 1`, so adding it to a number whose
/// imaginary part is zero gives the imaginary part `1/n`, which is not
/// zero: the sum is pushed off the real axis.
#[verifier::external_body]
pub(crate) fn c_imag_recip_usize(n: usize) -> (r: Complex64)
    requires
        1 <= n,
    ensures
        r == imag_recip_of_usize(n),
        forall|a: Complex64| im_is_zero_c(a) ==> !im_is_zero_c(#[trigger] cadd(a, r)),
{
    Complex64::i().scale(num_traits::Float::recip(num_traits::cast(n).unwrap()))
}

/// One candidate of the initial-guess heuristic. Relies on `Complex::arg`,
/// `Complex::i`, `Complex::scale`, `Complex::exp`, `Complex::norm`,
/// `Div for Complex` and `Complex::powf` to form
/// `(e^{i arg(w)} * |a0/ak|)^(1/k)`, a pure function of the arguments.
#[verifier::external_body]
pub(crate) fn c_guess_term(w: Complex64, a0: Complex64, ak: Complex64, k: usize) -> (r: Complex64)
    requires
        1 <= k,
    ensures
        r == guess_term_of(w, a0, ak, k),
{
    let theta = w.arg();
    let mag = (a0 / ak).norm();
    Complex64::i().scale(theta).exp().scale(mag).powf(
        num_traits::Float::recip(num_traits::cast(k).unwrap()),
    )
}

/// Of two candidates, the one with the smaller magnitude; ties go to the
/// second, as the pairwise reduction of the guess heuristic asks.
pub(crate) fn c_min_norm(a: Complex64, b: Complex64) -> (r: Complex64)
    ensures
        r == (if norm_lt(a, b) {
            a
        } else {
            b
        }),
{
    if c_norm_lt(&a, &b) {
        a
    } else {
        b
    }
}

} // verus!
