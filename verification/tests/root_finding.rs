use num_complex::Complex64;
use rust_poly::OneRootAlgorithms;
use rust_poly::Poly;

fn r(re: f64) -> Complex64 {
    Complex64::new(re, 0.0)
}

fn rp(coeffs: &[f64]) -> Poly {
    let cs: Vec<Complex64> = coeffs.iter().map(|x| Complex64::new(*x, 0.0)).collect();
    Poly::new(&cs)
}

#[test]
fn initial_guess_smallest() {
    assert!(
        (rp(&[24.0, -14.0, -13.0, 2.0, 1.0]).initial_guess_smallest() - Complex64::new(0.68, 0.0))
            .norm()
            < 0.01
    );
}

#[test]
fn roots_schur() {
    rp(&[1.0, 0.0, 1.0, 0.0, 1.0, 0.0, 1.0])
        .try_roots(r(0.01), 100, 10, None, None, None)
        .unwrap();
}

#[test]
fn roots_newton() {
    let p = rp(&[1.0, 0.0, 1.0, 0.0, 1.0]);

    // takes exactly 10 iterations
    let roots = p
        .try_n_roots(4, None, r(1E-14), 10, Some(OneRootAlgorithms::Newton))
        .unwrap();
    assert!(Poly::from_roots(&roots).sub(&p).almost_zero(&r(1E-14)));
}

#[test]
fn roots_halley() {
    let p = rp(&[1.0, 0.0, 1.0, 0.0, 1.0]);

    // takes exactly 5 iterations
    let roots = p
        .try_n_roots(4, None, r(1E-14), 5, Some(OneRootAlgorithms::Halley))
        .unwrap();
    assert!(Poly::from_roots(&roots).sub(&p).almost_zero(&r(1E-14)));
}

#[test]
fn roots_laguerre() {
    let p = rp(&[1.0, 0.0, 1.0, 0.0, 1.0]);

    // takes exactly 5 iterations
    let roots = p
        .try_n_roots(4, None, r(1E-14), 100, Some(OneRootAlgorithms::Laguerre))
        .unwrap();
    assert!(Poly::from_roots(&roots).sub(&p).almost_zero(&r(1E-14)));
}

#[test]
fn roots_of_a_line() {
    let p = rp(&[2.0, 4.0]);
    let roots = p.roots().unwrap();
    assert_eq!(roots, vec![r(-0.5)]);
}

#[test]
fn roots_of_constants() {
    assert_eq!(rp(&[5.0]).roots().unwrap(), vec![]);
    assert_eq!(Poly::new(&[]).roots().unwrap(), vec![]);
}

#[test]
fn roots_round_trip() {
    let p = Poly::from_roots(&[r(-1.0), r(0.0), r(1.0)]);
    let roots = p.roots().unwrap();
    assert_eq!(roots.len(), 3);
    assert!(Poly::from_roots(&roots).sub(&p).almost_zero(&r(1e-8)));
}

#[test]
fn roots_come_sorted_by_magnitude() {
    let p = Poly::from_roots(&[r(3.0), r(1.0), r(-2.0)]);
    let roots = p.roots().unwrap();
    assert_eq!(roots.len(), 3);
    assert!((roots[0] - r(1.0)).norm() < 1e-6);
    assert!((roots[1] - r(-2.0)).norm() < 1e-6);
    assert!((roots[2] - r(3.0)).norm() < 1e-6);
}

#[test]
fn try_n_roots_partial_failure_keeps_progress() {
    // a zero iteration budget cannot satisfy the tolerance, so the search
    // fails carrying the (empty) set of roots found so far
    let p = rp(&[1.0, 0.0, 1.0]);
    let err = p
        .try_n_roots(2, None, r(1e-30), 0, Some(OneRootAlgorithms::Newton))
        .unwrap_err();
    assert!(err.len() < 2);
}

#[test]
fn try_roots_exhausted_budget_fails_with_partial_roots() {
    // one global attempt with a single iteration and an impossible
    // tolerance, and an equally starved recovery: a failure that still
    // reports how far it came
    let p = rp(&[1.0, 0.0, 1.0, 0.0, 1.0, 0.0, 1.0]);
    let err = p
        .try_roots(r(1e-300), 1, 1, Some(1), None, None)
        .unwrap_err();
    assert!(err.len() < 6);
}

#[test]
fn hybrid_recovery_finds_all_roots() {
    // sparse polynomials with many zero coefficients are the documented
    // hard case for the global method; the hybrid strategy must still
    // deliver one root per degree, each meeting the residual tolerance
    let p = rp(&[1.0, 0.0, 1.0, 0.0, 1.0, 0.0, 1.0]);
    let roots = p.try_roots(r(0.01), 100, 10, None, None, None).unwrap();
    assert_eq!(roots.len(), 6);
    for root in &roots {
        assert!(p.eval_point(*root).norm() < 0.05);
    }
}

#[test]
fn hybrid_recovery_deflates_when_global_method_is_starved() {
    // a single Schur iteration cannot converge on a degree-six matrix, so
    // every root must come from recovery searches over deflated polynomials
    let p = rp(&[1.0, 0.0, 1.0, 0.0, 1.0, 0.0, 1.0]);
    let result = p.try_roots(r(1e-10), 1, 10, Some(1000), None, None);
    match result {
        Ok(roots) => {
            assert_eq!(roots.len(), 6);
            for root in &roots {
                assert!(p.eval_point(*root).norm() < 1e-3);
            }
        }
        Err(partial) => {
            // a clearly partial result is acceptable for a pathological
            // input, but progress may not overshoot the degree
            assert!(partial.len() < 6);
        }
    }
}

#[test]
fn schur_roots_of_reverse_bessel() {
    // the degree-two reverse Bessel polynomial x^2 + 3x + 3
    let poly = rp(&[3.0, 3.0, 1.0]);
    let roots = poly.roots_schur(r(1E-14), 1000).unwrap();
    assert_eq!(roots[0].re, -1.5);
    assert!((roots[0].im.abs() - 0.866) < 0.01);
    assert_eq!(roots[1].re, -1.5);
    assert!((roots[1].im.abs() - 0.866) < 0.01);
}

#[test]
fn newton_roots_of_reverse_bessel() {
    // the degree-two reverse Bessel polynomial x^2 + 3x + 3
    let poly = rp(&[3.0, 3.0, 1.0]);
    let roots = poly
        .try_n_roots(2, None, r(1E-14), 1000, Some(OneRootAlgorithms::Newton))
        .unwrap();
    assert_eq!(roots[0].re, -1.5);
    assert!((roots[0].im.abs() - 0.866) < 0.01);
    assert_eq!(roots[1].re, -1.5);
    assert!((roots[1].im.abs() - 0.866) < 0.01);
}

#[test]
fn all_finite_reports_non_finite_values() {
    let finite = vec![r(1.0), Complex64::new(0.5, -2.0)];
    assert!(rust_poly::poly::all_finite(&finite));
    let with_nan = vec![r(1.0), Complex64::new(f64::NAN, 0.0)];
    assert!(!rust_poly::poly::all_finite(&with_nan));
    let with_inf = vec![Complex64::new(0.0, f64::INFINITY)];
    assert!(!rust_poly::poly::all_finite(&with_inf));
}

#[test]
fn newton_residual_meets_tolerance() {
    let p = rp(&[-2.0, 0.0, 1.0]);
    let roots = p
        .try_n_roots(1, None, r(1e-12), 100, Some(OneRootAlgorithms::Newton))
        .unwrap();
    assert_eq!(roots.len(), 1);
    assert!(p.eval_point(roots[0]).norm() <= 1e-12);
}
