use num_complex::Complex64;
use num_traits::One;
use num_traits::Zero;
use rust_poly::CMatrix;
use rust_poly::Poly;

fn c(re: f64, im: f64) -> Complex64 {
    Complex64::new(re, im)
}

fn r(re: f64) -> Complex64 {
    Complex64::new(re, 0.0)
}

/// This was a bug
#[test]
fn normalize0() {
    let p = Poly::new(&[Complex64::zero()]);
    assert_eq!(p.normalize().coeffs(), vec![Complex64::zero()]);
}

/// This was a bug
#[test]
fn is_normalized0() {
    let p = Poly::new(&[Complex64::zero()]);
    assert!(p.is_normalized());
}

#[test]
fn normalize_strips_trailing_zeros() {
    let p = Poly::new(&[r(1.0), r(2.0), r(0.0), r(0.0)]);
    assert_eq!(p.normalize().coeffs(), vec![r(1.0), r(2.0)]);
    assert!(!p.is_normalized());
    assert!(p.normalize().is_normalized());
}

#[test]
fn normalize_all_zero_keeps_one_coefficient() {
    let p = Poly::new(&[r(0.0), r(0.0), r(0.0)]);
    assert_eq!(p.normalize().coeffs(), vec![r(0.0)]);
    assert_eq!(p.len(), 1);
}

#[test]
fn normalize_twice_is_normalize_once() {
    let p = Poly::new(&[r(3.0), r(0.0), r(7.0), r(0.0), r(0.0)]);
    let once = p.normalize();
    let twice = once.normalize();
    assert_eq!(once.coeffs(), twice.coeffs());
}

#[test]
fn normalize_empty_stays_empty() {
    let p = Poly::new(&[]);
    assert_eq!(p.normalize().coeffs(), vec![]);
    assert!(p.is_empty());
}

#[test]
fn eval_point_example() {
    let p = Poly::new(&[r(1.0), r(2.0), r(3.0)]);
    assert_eq!(p.eval_point(r(1.0)), r(6.0));
    assert_eq!(p.eval_point(r(2.0)), r(17.0));
}

#[test]
fn eval_broadcast_matches_eval_point() {
    let p = Poly::new(&[r(1.0), r(0.0), r(1.0)]);
    let points = vec![r(0.0), r(1.0), c(0.0, 1.0), r(2.0)];
    let m = CMatrix::new(2, 2, points.clone());
    let out = m;
    let values = p.eval(&out);
    assert_eq!(values.nrows, 2);
    assert_eq!(values.ncols, 2);
    for (i, x) in points.iter().enumerate() {
        assert_eq!(values.data[i], p.eval_point(*x));
    }
}

#[test]
fn line_examples() {
    assert_eq!(
        Poly::line(Complex64::one(), r(-1.0)).eval_point(Complex64::one()),
        Complex64::zero()
    );
    assert_eq!(Poly::line(r(5.0), r(0.0)).coeffs(), vec![r(5.0)]);
    assert_eq!(Poly::line(r(5.0), r(2.0)).coeffs(), vec![r(5.0), r(2.0)]);
}

#[test]
fn line_from_points_example() {
    let p1 = (r(-1.0), r(2.0));
    let p2 = (r(2.0), r(-1.0));
    assert_eq!(
        Poly::line_from_points(p1, p2).eval_point(Complex64::one()),
        Complex64::zero()
    );
}

#[test]
fn diff_example() {
    let p = Poly::new(&[r(1.0), r(2.0), r(3.0)]);
    assert_eq!(p.diff().coeffs(), vec![r(2.0), r(6.0)]);
    let constant = Poly::new(&[r(9.0)]);
    assert_eq!(constant.diff().coeffs(), vec![r(0.0)]);
}

#[test]
fn mul_convolution_example() {
    // (1 + x) * (1 + x) = 1 + 2x + x^2
    let p = Poly::new(&[r(1.0), r(1.0)]);
    assert_eq!(p.mul(&p).coeffs(), vec![r(1.0), r(2.0), r(1.0)]);
    // (1 + 2x) * (3 + 4x + 5x^2)
    let a = Poly::new(&[r(1.0), r(2.0)]);
    let b = Poly::new(&[r(3.0), r(4.0), r(5.0)]);
    assert_eq!(
        a.mul(&b).coeffs(),
        vec![r(3.0), r(10.0), r(13.0), r(10.0)]
    );
}

#[test]
fn pow_examples() {
    let p = Poly::new(&[r(1.0), r(1.0)]);
    assert_eq!(p.pow(0).coeffs(), vec![r(1.0)]);
    assert_eq!(p.pow(1).coeffs(), vec![r(1.0), r(1.0)]);
    assert_eq!(p.pow(3).coeffs(), vec![r(1.0), r(3.0), r(3.0), r(1.0)]);
    assert_eq!(p.pow_usize(2).coeffs(), vec![r(1.0), r(2.0), r(1.0)]);
}

#[test]
fn add_sub_examples() {
    let a = Poly::new(&[r(1.0), r(2.0), r(3.0)]);
    let b = Poly::new(&[r(10.0), r(20.0)]);
    assert_eq!(a.add(&b).coeffs(), vec![r(11.0), r(22.0), r(3.0)]);
    assert_eq!(a.sub(&b).coeffs(), vec![r(-9.0), r(-18.0), r(3.0)]);
    assert_eq!(b.sub(&a).coeffs(), vec![r(9.0), r(18.0), r(-3.0)]);
}

#[test]
fn almost_zero_checks_every_coefficient() {
    let tiny = Poly::new(&[r(1e-16), c(0.0, -1e-17)]);
    assert!(tiny.almost_zero(&r(1e-14)));
    let not_tiny = Poly::new(&[r(1e-16), r(0.5)]);
    assert!(!not_tiny.almost_zero(&r(1e-14)));
}

#[test]
fn compose_with_one_is_identity() {
    let f = Poly::new(&[r(1.0), r(2.0)]);
    assert_eq!(f.compose(&Poly::one()).coeffs(), f.coeffs());
    let g = Poly::new(&[c(1.0, -2.0), r(0.5), c(0.0, 3.0)]);
    assert_eq!(g.compose(&Poly::one()).coeffs(), g.coeffs());
}

#[test]
fn compose_then_eval_is_eval_of_eval() {
    let f = Poly::new(&[r(1.0), r(2.0), r(1.0)]);
    let x = Poly::new(&[r(3.0), r(2.0)]);
    for x0 in [r(0.0), r(1.0), r(2.0), c(0.0, 1.0)] {
        assert_eq!(f.compose(&x).eval_point(x0), f.eval_point(x.eval_point(x0)));
    }
}

#[test]
fn compose_with_zero_collapses() {
    let f = Poly::new(&[r(1.0), r(2.0)]);
    let z = Poly::zero();
    assert_eq!(f.compose(&z).coeffs(), vec![r(0.0)]);
}

#[test]
fn div_rem_example() {
    // (3x^2 + 2x + 1) / (x^2 + 2x + 3) = 3, remainder -4x - 8
    let c1 = Poly::new(&[r(1.0), r(2.0), r(3.0)]);
    let c2 = Poly::new(&[r(3.0), r(2.0), r(1.0)]);
    let (q, rem) = c1.div_rem(&c2);
    assert_eq!(q.coeffs(), vec![r(3.0)]);
    assert_eq!(rem.coeffs(), vec![r(-8.0), r(-4.0)]);
}

#[test]
fn div_rem_reconstructs_dividend() {
    // A = q*B + rem, with deg(rem) < deg(B), on exactly representable input
    let a = Poly::new(&[r(4.0), r(3.0), r(2.0), r(1.0)]);
    let b = Poly::new(&[r(1.0), r(1.0)]);
    let (q, rem) = a.clone().div_rem(&b);
    assert_eq!(q.coeffs(), vec![r(2.0), r(1.0), r(1.0)]);
    assert_eq!(rem.coeffs(), vec![r(2.0)]);
    assert!(rem.len() < b.len());
    let back = q.mul(&b).add(&rem);
    assert_eq!(back.coeffs(), a.coeffs());
}

#[test]
fn div_rem_by_constant_scales() {
    let a = Poly::new(&[r(2.0), r(4.0), r(6.0)]);
    let b = Poly::new(&[r(2.0)]);
    let (q, rem) = a.div_rem(&b);
    assert_eq!(q.coeffs(), vec![r(1.0), r(2.0), r(3.0)]);
    assert_eq!(rem.coeffs(), vec![r(0.0)]);
}

#[test]
fn div_rem_smaller_dividend() {
    let a = Poly::new(&[r(5.0)]);
    let b = Poly::new(&[r(1.0), r(1.0)]);
    let (q, rem) = a.div_rem(&b);
    assert_eq!(q.coeffs(), vec![r(0.0)]);
    assert_eq!(rem.coeffs(), vec![r(5.0)]);
}

#[test]
fn from_roots_example() {
    let p = Poly::from_roots(&[r(-1.0), Complex64::zero(), Complex64::one()]);
    assert_eq!(
        p.coeffs(),
        vec![Complex64::zero(), r(-1.0), Complex64::zero(), Complex64::one()]
    );
    assert_eq!(p.eval_point(Complex64::one()), Complex64::zero());
}

#[test]
fn from_roots_is_order_independent() {
    let a = Poly::from_roots(&[r(1.0), r(-1.0), r(0.0)]);
    let b = Poly::from_roots(&[r(-1.0), r(0.0), r(1.0)]);
    assert_eq!(a.coeffs(), b.coeffs());
}

#[test]
fn from_roots_with_repeated_root() {
    // (x - 1)^2 = 1 - 2x + x^2
    let p = Poly::from_roots(&[r(1.0), r(1.0)]);
    assert_eq!(p.coeffs(), vec![r(1.0), r(-2.0), r(1.0)]);
}

#[test]
fn from_roots_empty_is_one() {
    let p = Poly::from_roots(&[]);
    assert_eq!(p.coeffs(), vec![Complex64::one()]);
}

#[test]
fn len_normalizes_first() {
    let p = Poly::new(&[r(1.0), r(0.0)]);
    assert_eq!(p.len(), 1);
    assert!(!p.is_empty());
}

#[test]
fn coeff_reads_one_coefficient() {
    let p = Poly::new(&[r(4.0), c(1.0, -2.0)]);
    assert_eq!(p.coeff(0), r(4.0));
    assert_eq!(p.coeff(1), c(1.0, -2.0));
}
