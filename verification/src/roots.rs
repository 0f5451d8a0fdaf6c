//! Root extraction: the companion-matrix construction, the global
//! eigenvalue solver, the single-root iterative solvers with their shared
//! initial-guess heuristic, and the hybrid strategy that recovers from a
//! failed global attempt by deflating one root at a time.

use vstd::prelude::*;

use num_complex::Complex64;

use crate::cmat::matrix_eigenvalues;
use crate::cmat::schur_eigenvalues;
use crate::cmat::CMatrix;
use crate::cnum::c_add;
use crate::cnum::c_div;
use crate::cnum::c_from_usize;
use crate::cnum::c_guess_term;
use crate::cnum::c_im_is_zero;
use crate::cnum::c_imag_recip_usize;
use crate::cnum::c_min_norm;
use crate::cnum::c_mul;
use crate::cnum::c_neg;
use crate::cnum::c_norm_le;
use crate::cnum::c_norm_lt;
use crate::cnum::c_one;
use crate::cnum::c_recip_usize;
use crate::cnum::c_sqrt;
use crate::cnum::c_sub;
use crate::cnum::c_zero;
use crate::cnum::cadd;
use crate::cnum::cdiv;
use crate::cnum::cmul;
use crate::cnum::cneg;
use crate::cnum::csqrt;
use crate::cnum::csub;
use crate::cnum::c_of_usize;
use crate::cnum::guess_term_of;
use crate::cnum::im_is_zero_c;
use crate::cnum::imag_recip_of_usize;
use crate::cnum::is_one_c;
use crate::cnum::is_zero_c;
use crate::cnum::norm_le;
use crate::cnum::norm_lt;
use crate::cnum::recip_of_usize;
use crate::poly::all_finite_seq;
use crate::poly::deflate_by;
use crate::poly::eval_at;
use crate::poly::sort_by_mag_phase;
use crate::poly::sorted_mag_phase;
use crate::poly::spec_diff;
use crate::poly::spec_is_normalized;
use crate::poly::Poly;

verus! {

/// The single-root iterative methods.
#[non_exhaustive]
pub enum OneRootAlgorithms {
    Newton,
    Halley,
    Laguerre,
}

/// The global multi-root methods.
#[non_exhaustive]
pub enum AllRootsAlgorithms {
    Schur,
}

/// The value that the companion construction places at row `a`, column `b`
/// of an `n` by `n` matrix: the rightmost column carries the negated monic
/// coefficients, the subdiagonal the given one value, everything else the
/// given zero value.
pub open spec fn companion_val(
    s: Seq<Complex64>,
    onev: Complex64,
    zerov: Complex64,
    n: int,
    a: int,
    b: int,
) -> Complex64 {
    if b == n - 1 {
        cneg(cdiv(s[a], s.last()))
    } else if a == b + 1 {
        onev
    } else {
        zerov
    }
}

/// The second-derivative coefficients the solvers evaluate: the derivative
/// of the derivative, which for fewer than three coefficients collapses to
/// the zero polynomial holding the single zero coefficient `z`.
pub open spec fn second_diff(p: Seq<Complex64>, z: Complex64) -> Seq<Complex64> {
    if p.len() >= 3 {
        spec_diff(spec_diff(p))
    } else {
        seq![z]
    }
}

/// One Newton update: `x - p(x)/p'(x)`.
pub open spec fn newton_step(p: Seq<Complex64>, x: Complex64) -> Complex64 {
    csub(x, cdiv(eval_at(p, x), eval_at(spec_diff(p), x)))
}

/// One Halley update: `x - 2 p p' / (2 p'^2 - p p'')`, with `z` the zero
/// coefficient standing in when the second derivative vanished.
pub open spec fn halley_step(p: Seq<Complex64>, z: Complex64, x: Complex64) -> Complex64 {
    let px = eval_at(p, x);
    let pdx = eval_at(spec_diff(p), x);
    let pddx = eval_at(second_diff(p, z), x);
    let two = c_of_usize(2);
    csub(x, cdiv(cmul(cmul(px, pdx), two), csub(cmul(cmul(pdx, pdx), two), cmul(px, pddx))))
}

/// One Laguerre update: with `G = p'/p` and `H = G^2 - p''/p`, the step is
/// `degree / (G +- sqrt((degree-1)(degree H - G^2)))`, taking the
/// larger-magnitude denominator.
pub open spec fn laguerre_step(p: Seq<Complex64>, z: Complex64, x: Complex64) -> Complex64 {
    let px = eval_at(p, x);
    let pdx = eval_at(spec_diff(p), x);
    let pddx = eval_at(second_diff(p, z), x);
    let deg = c_of_usize((p.len() - 1) as usize);
    let g = cdiv(pdx, px);
    let g2 = cmul(g, g);
    let h = csub(g2, cdiv(pddx, px));
    let m1 = csub(deg, c_of_usize(1));
    let pm = csqrt(cmul(m1, csub(cmul(deg, h), g2)));
    let d1 = cadd(g, pm);
    let d2 = csub(g, pm);
    let den = (if norm_lt(d2, d1) {
        d1
    } else {
        d2
    });
    csub(x, cdiv(deg, den))
}

/// The `k`-th iterate of the chosen method from the start `g`.
pub open spec fn one_root_iterate(
    alg: OneRootAlgorithms,
    p: Seq<Complex64>,
    z: Complex64,
    g: Complex64,
    k: nat,
) -> Complex64
    decreases k,
{
    if k == 0 {
        g
    } else {
        let prev = one_root_iterate(alg, p, z, g, (k - 1) as nat);
        match alg {
            OneRootAlgorithms::Newton => newton_step(p, prev),
            OneRootAlgorithms::Halley => halley_step(p, z, prev),
            OneRootAlgorithms::Laguerre => laguerre_step(p, z, prev),
        }
    }
}

/// No iterate below `mi` meets the residual tolerance.
pub open spec fn no_hit_below(
    alg: OneRootAlgorithms,
    p: Seq<Complex64>,
    z: Complex64,
    g: Complex64,
    eps: Complex64,
    mi: nat,
) -> bool {
    forall|j: nat|
        j < mi ==> !norm_le(eval_at(p, #[trigger] one_root_iterate(alg, p, z, g, j)), eps)
}

/// Whether `z` can stand for the degenerate second derivative: Newton never
/// reads it, and with three or more coefficients neither do the others.
pub open spec fn valid_dd_zero(alg: OneRootAlgorithms, p: Seq<Complex64>, z: Complex64) -> bool {
    match alg {
        OneRootAlgorithms::Newton => true,
        OneRootAlgorithms::Halley => p.len() >= 3 || is_zero_c(z),
        OneRootAlgorithms::Laguerre => p.len() >= 3 || is_zero_c(z),
    }
}

/// What a single-root search returns: success is the first iterate whose
/// residual meets the tolerance, reached within the budget; failure is the
/// budget-th iterate, no earlier one having met the tolerance.
pub open spec fn one_root_outcome(
    alg: OneRootAlgorithms,
    p: Seq<Complex64>,
    z: Complex64,
    g: Complex64,
    eps: Complex64,
    mi: nat,
    r: Result<Complex64, Complex64>,
) -> bool {
    match r {
        Result::Ok(x) => exists|k: nat|
            k < mi && x == #[trigger] one_root_iterate(alg, p, z, g, k) && norm_le(
                eval_at(p, x),
                eps,
            ) && no_hit_below(alg, p, z, g, eps, k),
        Result::Err(x) => x == one_root_iterate(alg, p, z, g, mi) && no_hit_below(
            alg,
            p,
            z,
            g,
            eps,
            mi,
        ),
    }
}

/// The start of a search: the guess handed in, or the heuristic's value.
pub open spec fn start_matches(p: Seq<Complex64>, ig: Option<Complex64>, g: Complex64) -> bool {
    match ig {
        Option::Some(v) => g == v,
        Option::None => is_heuristic_guess(p, g),
    }
}

/// The whole claim a single-root search makes: from its actual start, and
/// with some zero value for the degenerate second derivative, the result
/// describes the iteration chain.
pub open spec fn search_outcome(
    alg: OneRootAlgorithms,
    p: Seq<Complex64>,
    ig: Option<Complex64>,
    eps: Complex64,
    mi: nat,
    r: Result<Complex64, Complex64>,
) -> bool {
    exists|g: Complex64, z: Complex64|
        start_matches(p, ig, g) && valid_dd_zero(alg, p, z) && #[trigger] one_root_outcome(
            alg,
            p,
            z,
            g,
            eps,
            mi,
            r,
        )
}

/// Evidence that a search failed: from its actual start, no iterate within
/// the budget met the tolerance.
pub open spec fn search_fails(
    alg: OneRootAlgorithms,
    p: Seq<Complex64>,
    ig: Option<Complex64>,
    eps: Complex64,
    mi: nat,
) -> bool {
    exists|g: Complex64, z: Complex64|
        start_matches(p, ig, g) && valid_dd_zero(alg, p, z) && #[trigger] no_hit_below(
            alg,
            p,
            z,
            g,
            eps,
            mi,
        )
}

/// `x` is what a successful search on `p` returned: from the search's
/// actual start, `x` is the first iterate whose residual meets the
/// tolerance, reached within the budget.
pub open spec fn search_found(
    alg: OneRootAlgorithms,
    p: Seq<Complex64>,
    ig: Option<Complex64>,
    eps: Complex64,
    mi: nat,
    x: Complex64,
) -> bool {
    exists|g: Complex64, z: Complex64|
        start_matches(p, ig, g) && valid_dd_zero(alg, p, z) && #[trigger] one_root_outcome(
            alg,
            p,
            z,
            g,
            eps,
            mi,
            Result::<Complex64, Complex64>::Ok(x),
        )
}

/// The single-root method a caller picked; Newton is the default.
pub open spec fn chosen_one_root(a: Option<OneRootAlgorithms>) -> OneRootAlgorithms {
    match a {
        Option::Some(x) => x,
        Option::None => OneRootAlgorithms::Newton,
    }
}

/// The recovery budget a caller picked; the global budget is the default.
pub open spec fn chosen_iter(m: Option<usize>, fallback: usize) -> usize {
    match m {
        Option::Some(x) => x,
        Option::None => fallback,
    }
}

/// The shape of a successful hybrid result, split at position `k`: the
/// first `k` roots came from recovery searches with method `ralg` and
/// budget `ri`, each the first hit of its own search and each meeting the
/// residual tolerance on the polynomial deflated by the roots before it;
/// the rest is one global batch, exactly as large as the remaining
/// polynomial's degree, and sorted when its values are all finite.
pub open spec fn hybrid_split_at(
    s: Seq<Complex64>,
    v: Seq<Complex64>,
    eps: Complex64,
    ralg: OneRootAlgorithms,
    ri: nat,
    k: int,
) -> bool {
    &&& 0 <= k <= v.len()
    &&& forall|i: int|
        0 <= i < k ==> norm_le(eval_at(#[trigger] deflate_by(s, v.take(i)), v[i]), eps)
    &&& forall|i: int|
        0 <= i < k ==> search_found(
            ralg,
            #[trigger] deflate_by(s, v.take(i)),
            Option::None,
            eps,
            ri,
            v[i],
        )
    &&& deflate_by(s, v.take(k)).len() == v.len() + 1 - k
    &&& (all_finite_seq(v.skip(k)) ==> sorted_mag_phase(v.skip(k)))
}

/// A successful hybrid result splits somewhere into recovery roots and one
/// final global batch.
pub open spec fn hybrid_ok(
    s: Seq<Complex64>,
    v: Seq<Complex64>,
    eps: Complex64,
    ralg: OneRootAlgorithms,
    ri: nat,
) -> bool {
    exists|k: int| #[trigger] hybrid_split_at(s, v, eps, ralg, ri, k)
}

/// The seed ratio `-p(0)/p'(0)` of the guess heuristic, both values bumped
/// by 1/1000 when the derivative is nearly zero; `z` is the zero value the
/// evaluations use.
pub open spec fn guess_seed(s: Seq<Complex64>, z: Complex64) -> Complex64 {
    let pz0 = eval_at(s, z);
    let pdz0 = eval_at(spec_diff(s), z);
    let small = recip_of_usize(1000);
    if norm_lt(pdz0, small) {
        cdiv(cneg(cadd(pz0, small)), cadd(pdz0, small))
    } else {
        cdiv(cneg(pz0), pdz0)
    }
}

/// The minimum-magnitude reduction of the guess candidates for exponents
/// one through `k`.
pub open spec fn guess_min(s: Seq<Complex64>, w: Complex64, k: int) -> Complex64
    recommends
        1 <= k < s.len(),
    decreases k,
{
    if k <= 1 {
        guess_term_of(w, s[0], s[1], 1)
    } else {
        let prev = guess_min(s, w, k - 1);
        let t = guess_term_of(w, s[0], s[k], k as usize);
        if norm_lt(prev, t) {
            prev
        } else {
            t
        }
    }
}

/// The heuristic's value, given the zero value `z` used to evaluate at the
/// origin: the halved minimum candidate, nudged off the real axis when it
/// came out real.
pub open spec fn spec_guess(s: Seq<Complex64>, z: Complex64) -> Complex64 {
    let halved = cmul(guess_min(s, guess_seed(s, z), s.len() - 1), recip_of_usize(2));
    if im_is_zero_c(halved) {
        cadd(halved, imag_recip_of_usize(1000))
    } else {
        halved
    }
}

/// `g` is the heuristic's value for some zero evaluation point.
pub open spec fn is_heuristic_guess(s: Seq<Complex64>, g: Complex64) -> bool {
    exists|z: Complex64| is_zero_c(z) && g == #[trigger] spec_guess(s, z)
}

impl Poly {
    /// The companion matrix of a normalized polynomial of degree one or
    /// more: ones on the subdiagonal and the negated, monic-normalized
    /// coefficients in the rightmost column. Its eigenvalues are the
    /// polynomial's roots.
    pub(crate) fn companion(&self) -> (m: CMatrix)
        requires
            spec_is_normalized(self@),
            self@.len() >= 2,
        ensures
            m.wf(),
            m.nrows == self@.len() - 1,
            m.ncols == self@.len() - 1,
            forall|i: int|
                0 <= i < m.nrows ==> #[trigger] m.spec_entry(i, m.ncols - 1 as int) == cneg(
                    cdiv(self@[i], self@.last()),
                ),
            forall|i: int, j: int|
                0 <= i < m.nrows && 0 <= j < m.ncols - 1 && i == j + 1 ==> is_one_c(
                    #[trigger] m.spec_entry(i, j),
                ),
            forall|i: int, j: int|
                0 <= i < m.nrows && 0 <= j < m.ncols - 1 && i != j + 1 ==> is_zero_c(
                    #[trigger] m.spec_entry(i, j),
                ),
    {
        if self.coeffs.len() == 2 {
            // degree one: the single entry -c0/c1 in closed form, with no
            // monic copy
            let mut data: Vec<Complex64> = Vec::new();
            data.push(c_neg(c_div(self.coeffs[0], self.coeffs[1])));
            let m = CMatrix { nrows: 1, ncols: 1, data };
            proof {
                assert(m.nrows * m.ncols == 1) by (nonlinear_arith)
                    requires
                        m.nrows == 1,
                        m.ncols == 1,
                ;
            }
            return m;
        }
        let n = self.coeffs.len() - 1;
        let mut monic = self.clone();
        monic.make_monic();
        let onev = c_one();
        let zerov = c_zero();
        let ghost s = self@;
        let mut data: Vec<Complex64> = Vec::new();
        let mut i: usize = 0;
        while i < n
            invariant
                n == s.len() - 1,
                s.len() >= 2,
                monic@.len() == s.len(),
                forall|t: int| 0 <= t < monic@.len() ==> monic@[t] == cdiv(s[t], s.last()),
                is_one_c(onev),
                is_zero_c(zerov),
                i <= n,
                data@.len() == i * n,
                forall|a: int, b: int|
                    0 <= a < i && 0 <= b < n ==> data@[a * n + b] == #[trigger] companion_val(
                        s,
                        onev,
                        zerov,
                        n as int,
                        a,
                        b,
                    ),
            decreases n - i,
        {
            let mut j: usize = 0;
            while j < n
                invariant
                    n == s.len() - 1,
                    s.len() >= 2,
                    monic@.len() == s.len(),
                    forall|t: int| 0 <= t < monic@.len() ==> monic@[t] == cdiv(s[t], s.last()),
                    is_one_c(onev),
                    is_zero_c(zerov),
                    i < n,
                    j <= n,
                    data@.len() == i * n + j,
                    forall|a: int, b: int|
                        0 <= a < i && 0 <= b < n ==> data@[a * n + b] == #[trigger] companion_val(
                            s,
                            onev,
                            zerov,
                            n as int,
                            a,
                            b,
                        ),
                    forall|b: int|
                        0 <= b < j ==> data@[i * n + b] == #[trigger] companion_val(
                            s,
                            onev,
                            zerov,
                            n as int,
                            i as int,
                            b,
                        ),
                decreases n - j,
            {
                if j == n - 1 {
                    data.push(c_neg(monic.coeffs[i]));
                } else if i == j + 1 {
                    data.push(onev);
                } else {
                    data.push(zerov);
                }
                proof {
                    assert forall|a: int, b: int| 0 <= a < i && 0 <= b < n implies data@[a * n + b]
                        == #[trigger] companion_val(s, onev, zerov, n as int, a, b) by {
                        assert(a * n + b < i * n) by (nonlinear_arith)
                            requires
                                0 <= a < i as int,
                                0 <= b < n as int,
                        ;
                    }
                }
                j = j + 1;
            }
            proof {
                assert(i * n + n == (i + 1) * n) by (nonlinear_arith);
            }
            i = i + 1;
        }
        let m = CMatrix { nrows: n, ncols: n, data };
        proof {
            assert forall|a: int, b: int| 0 <= a < n && 0 <= b < n implies m.spec_entry(a, b)
                == companion_val(s, onev, zerov, n as int, a, b) by {
                assert(data@[a * n + b] == companion_val(s, onev, zerov, n as int, a, b));
            }
            assert forall|a: int| 0 <= a < n implies #[trigger] m.spec_entry(a, n - 1 as int)
                == cneg(cdiv(s[a], s.last())) by {
                assert(m.spec_entry(a, n - 1 as int) == companion_val(
                    s,
                    onev,
                    zerov,
                    n as int,
                    a,
                    n - 1 as int,
                ));
            }
        }
        m
    }

    /// Best-effort root extraction through the eigenvalues of the reversed
    /// companion matrix, sorted by magnitude then phase; `None` when the
    /// eigenvalue primitive does not converge. A polynomial of degree `d`
    /// yields exactly `d` roots on success; a constant polynomial has none.
    /// When the returned roots are all finite they come in the canonical
    /// order (a NaN magnitude or phase admits none).
    pub fn roots(&self) -> (r: Option<Vec<Complex64>>)
        requires
            spec_is_normalized(self@),
        ensures
            r matches Some(v) ==> v@.len() == (if self@.len() >= 1 {
                self@.len() - 1
            } else {
                0
            }),
            r matches Some(v) ==> (all_finite_seq(v@) ==> sorted_mag_phase(v@)),
            self@.len() < 2 ==> r is Some,
            self@.len() == 2 ==> (r matches Some(v) && v@[0] == cdiv(cneg(self@[0]), self@[1])),
    {
        let m = self.coeffs.len();
        if m < 2 {
            return Some(Vec::new());
        }
        if m == 2 {
            let mut v: Vec<Complex64> = Vec::new();
            v.push(c_div(c_neg(self.coeffs[0]), self.coeffs[1]));
            return Some(v);
        }
        let comp = self.companion().reversed();
        let n = comp.nrows;
        match matrix_eigenvalues(&comp.data, n) {
            None => None,
            Some(ev) => Some(sort_by_mag_phase(&ev)),
        }
    }

    /// Root extraction through a bounded Schur decomposition of the
    /// reversed companion matrix; the roots come back sorted by magnitude
    /// then phase (promised for all-finite results; a NaN magnitude or
    /// phase admits no order). The error case only arises for polynomials
    /// of degree one or more, when the decomposition does not converge
    /// within `max_iter`.
    pub fn roots_schur(&self, epsilon: Complex64, max_iter: usize) -> (r: Result<
        Vec<Complex64>,
        (),
    >)
        requires
            spec_is_normalized(self@),
            max_iter >= 1,
        ensures
            r matches Ok(v) ==> v@.len() == (if self@.len() >= 1 {
                self@.len() - 1
            } else {
                0
            }),
            r matches Ok(v) ==> (all_finite_seq(v@) ==> sorted_mag_phase(v@)),
            r is Err ==> self@.len() >= 2,
    {
        let m = self.coeffs.len();
        if m < 2 {
            return Ok(Vec::new());
        }
        let comp = self.companion().reversed();
        let n = comp.nrows;
        match schur_eigenvalues(&comp.data, n, epsilon, max_iter) {
            None => Err(()),
            Some(ev) => Ok(sort_by_mag_phase(&ev)),
        }
    }

    /// The shared initial guess of the single-root solvers: an estimate of
    /// the smallest root, built from the angle of `-p(0)/p'(0)` and the
    /// magnitudes `|a0/ak|^(1/k)`, halved, and nudged off the real axis.
    /// The contract pins the whole computation (up to the zero value the
    /// evaluations at the origin use) and the nudge: the result never lies
    /// on the real axis. Beyond that it is a numerical bootstrap: no root
    /// bound is promised.
    pub fn initial_guess_smallest(&self) -> (r: Complex64)
        requires
            spec_is_normalized(self@),
            self@.len() >= 2,
        ensures
            is_heuristic_guess(self@, r),
            !im_is_zero_c(r),
    {
        let zv = c_zero();
        let small = c_recip_usize(1000);
        let p_diff = self.diff();
        let mut pz = self.eval_point(zv);
        let mut pdz = p_diff.eval_point(zv);
        if c_norm_lt(&pdz, &small) {
            pz = c_add(pz, small);
            pdz = c_add(pdz, small);
        }
        let w = c_div(c_neg(pz), pdz);
        proof {
            assert(w == guess_seed(self@, zv));
        }
        let a0 = self.coeffs[0];
        let mut guess = c_guess_term(w, a0, self.coeffs[1], 1);
        let mut k: usize = 2;
        while k < self.coeffs.len()
            invariant
                2 <= k <= self@.len(),
                a0 == self@[0],
                guess == guess_min(self@, w, k as int - 1),
            decreases self@.len() - k,
        {
            let t = c_guess_term(w, a0, self.coeffs[k], k);
            guess = c_min_norm(guess, t);
            k = k + 1;
        }
        let halved = c_mul(guess, c_recip_usize(2));
        if c_im_is_zero(&halved) {
            // some methods cannot leave the real axis, so a real-valued
            // seed gets a small imaginary offset
            let r = c_add(halved, c_imag_recip_usize(1000));
            proof {
                assert(r == spec_guess(self@, zv));
            }
            r
        } else {
            proof {
                assert(halved == spec_guess(self@, zv));
            }
            halved
        }
    }

    /// Newton's method: `x <- x - p(x)/p'(x)`. Success is the first iterate
    /// whose residual `|p(x)|` meets `|epsilon|`, exactly as evaluation
    /// computes it; on exhaustion the `max_iter`-th iterate comes back as
    /// the error payload, no earlier one having met the tolerance.
    fn one_root_newton(
        &self,
        initial_guess: Option<Complex64>,
        epsilon: Complex64,
        max_iter: usize,
    ) -> (r: Result<Complex64, Complex64>)
        requires
            spec_is_normalized(self@),
            self@.len() >= 2,
        ensures
            r matches Ok(x) ==> norm_le(eval_at(self@, x), epsilon),
            search_outcome(
                OneRootAlgorithms::Newton,
                self@,
                initial_guess,
                epsilon,
                max_iter as nat,
                r,
            ),
    {
        let p_diff = self.diff();
        let mut x = match initial_guess {
            Some(g) => g,
            None => self.initial_guess_smallest(),
        };
        let ghost g0 = x;
        let ghost z0 = x;
        let mut it: usize = 0;
        while it < max_iter
            invariant
                spec_is_normalized(self@),
                self@.len() >= 2,
                p_diff@ == spec_diff(self@),
                it <= max_iter,
                start_matches(self@, initial_guess, g0),
                x == one_root_iterate(OneRootAlgorithms::Newton, self@, z0, g0, it as nat),
                no_hit_below(OneRootAlgorithms::Newton, self@, z0, g0, epsilon, it as nat),
            decreases max_iter - it,
        {
            let px = self.eval_point(x);
            if c_norm_le(&px, &epsilon) {
                proof {
                    assert(one_root_outcome(
                        OneRootAlgorithms::Newton,
                        self@,
                        z0,
                        g0,
                        epsilon,
                        max_iter as nat,
                        Result::<Complex64, Complex64>::Ok(x),
                    ));
                }
                return Ok(x);
            }
            let ghost xprev = x;
            let pdx = p_diff.eval_point(x);
            x = c_sub(x, c_div(px, pdx));
            proof {
                assert(x == one_root_iterate(
                    OneRootAlgorithms::Newton,
                    self@,
                    z0,
                    g0,
                    (it + 1) as nat,
                ));
                assert forall|j: nat| j < it + 1 implies !norm_le(
                    eval_at(
                        self@,
                        #[trigger] one_root_iterate(OneRootAlgorithms::Newton, self@, z0, g0, j),
                    ),
                    epsilon,
                ) by {
                    if j == it as nat {
                        assert(one_root_iterate(OneRootAlgorithms::Newton, self@, z0, g0, j)
                            == xprev);
                        assert(!norm_le(eval_at(self@, xprev), epsilon));
                    }
                }
            }
            it = it + 1;
        }
        proof {
            assert(one_root_outcome(
                OneRootAlgorithms::Newton,
                self@,
                z0,
                g0,
                epsilon,
                max_iter as nat,
                Result::<Complex64, Complex64>::Err(x),
            ));
        }
        Err(x)
    }

    /// Halley's method:
    /// `x <- x - 2 p(x) p'(x) / (2 p'(x)^2 - p(x) p''(x))`. Success is the
    /// first iterate whose residual meets the tolerance; on exhaustion the
    /// `max_iter`-th iterate comes back as the error payload, no earlier one
    /// having met the tolerance.
    fn one_root_halley(
        &self,
        initial_guess: Option<Complex64>,
        epsilon: Complex64,
        max_iter: usize,
    ) -> (r: Result<Complex64, Complex64>)
        requires
            spec_is_normalized(self@),
            self@.len() >= 2,
        ensures
            r matches Ok(x) ==> norm_le(eval_at(self@, x), epsilon),
            search_outcome(
                OneRootAlgorithms::Halley,
                self@,
                initial_guess,
                epsilon,
                max_iter as nat,
                r,
            ),
    {
        let p_diff = self.diff();
        let p_diff2 = p_diff.diff();
        let two = c_from_usize(2);
        let mut x = match initial_guess {
            Some(g) => g,
            None => self.initial_guess_smallest(),
        };
        let ghost g0 = x;
        let ghost z0 = if self@.len() >= 3 {
            x
        } else {
            p_diff2@[0]
        };
        proof {
            assert(p_diff2@ == second_diff(self@, z0)) by {
                if self@.len() < 3 {
                    assert(p_diff2@ =~= seq![z0]);
                }
            }
        }
        let mut it: usize = 0;
        while it < max_iter
            invariant
                spec_is_normalized(self@),
                self@.len() >= 2,
                p_diff@ == spec_diff(self@),
                p_diff2@ == second_diff(self@, z0),
                p_diff2@.len() >= 1,
                two == c_of_usize(2),
                it <= max_iter,
                start_matches(self@, initial_guess, g0),
                valid_dd_zero(OneRootAlgorithms::Halley, self@, z0),
                x == one_root_iterate(OneRootAlgorithms::Halley, self@, z0, g0, it as nat),
                no_hit_below(OneRootAlgorithms::Halley, self@, z0, g0, epsilon, it as nat),
            decreases max_iter - it,
        {
            let px = self.eval_point(x);
            if c_norm_le(&px, &epsilon) {
                proof {
                    assert(one_root_outcome(
                        OneRootAlgorithms::Halley,
                        self@,
                        z0,
                        g0,
                        epsilon,
                        max_iter as nat,
                        Result::<Complex64, Complex64>::Ok(x),
                    ));
                }
                return Ok(x);
            }
            let ghost xprev = x;
            let pdx = p_diff.eval_point(x);
            let pddx = p_diff2.eval_point(x);
            let num = c_mul(c_mul(px, pdx), two);
            let den = c_sub(c_mul(c_mul(pdx, pdx), two), c_mul(px, pddx));
            x = c_sub(x, c_div(num, den));
            proof {
                assert(x == one_root_iterate(
                    OneRootAlgorithms::Halley,
                    self@,
                    z0,
                    g0,
                    (it + 1) as nat,
                ));
                assert forall|j: nat| j < it + 1 implies !norm_le(
                    eval_at(
                        self@,
                        #[trigger] one_root_iterate(OneRootAlgorithms::Halley, self@, z0, g0, j),
                    ),
                    epsilon,
                ) by {
                    if j == it as nat {
                        assert(one_root_iterate(OneRootAlgorithms::Halley, self@, z0, g0, j)
                            == xprev);
                        assert(!norm_le(eval_at(self@, xprev), epsilon));
                    }
                }
            }
            it = it + 1;
        }
        proof {
            assert(one_root_outcome(
                OneRootAlgorithms::Halley,
                self@,
                z0,
                g0,
                epsilon,
                max_iter as nat,
                Result::<Complex64, Complex64>::Err(x),
            ));
        }
        Err(x)
    }

    /// Laguerre's method: from `G = p'(x)/p(x)` and `H = G^2 - p''(x)/p(x)`
    /// the step is `degree / (G +- sqrt((degree-1)(degree H - G^2)))`, with
    /// the larger-magnitude denominator chosen for robustness. Success is
    /// the first iterate whose residual meets the tolerance; on exhaustion
    /// the `max_iter`-th iterate comes back as the error payload, no
    /// earlier one having met the tolerance.
    fn one_root_laguerre(
        &self,
        initial_guess: Option<Complex64>,
        epsilon: Complex64,
        max_iter: usize,
    ) -> (r: Result<Complex64, Complex64>)
        requires
            spec_is_normalized(self@),
            self@.len() >= 2,
        ensures
            r matches Ok(x) ==> norm_le(eval_at(self@, x), epsilon),
            search_outcome(
                OneRootAlgorithms::Laguerre,
                self@,
                initial_guess,
                epsilon,
                max_iter as nat,
                r,
            ),
    {
        let p_diff = self.diff();
        let p_diff2 = p_diff.diff();
        let degree = c_from_usize(self.coeffs.len() - 1);
        let one = c_from_usize(1);
        let mut x = match initial_guess {
            Some(g) => g,
            None => self.initial_guess_smallest(),
        };
        let ghost g0 = x;
        let ghost z0 = if self@.len() >= 3 {
            x
        } else {
            p_diff2@[0]
        };
        proof {
            assert(p_diff2@ == second_diff(self@, z0)) by {
                if self@.len() < 3 {
                    assert(p_diff2@ =~= seq![z0]);
                }
            }
        }
        let mut it: usize = 0;
        while it < max_iter
            invariant
                spec_is_normalized(self@),
                self@.len() >= 2,
                p_diff@ == spec_diff(self@),
                p_diff2@ == second_diff(self@, z0),
                p_diff2@.len() >= 1,
                degree == c_of_usize((self@.len() - 1) as usize),
                one == c_of_usize(1),
                it <= max_iter,
                start_matches(self@, initial_guess, g0),
                valid_dd_zero(OneRootAlgorithms::Laguerre, self@, z0),
                x == one_root_iterate(OneRootAlgorithms::Laguerre, self@, z0, g0, it as nat),
                no_hit_below(OneRootAlgorithms::Laguerre, self@, z0, g0, epsilon, it as nat),
            decreases max_iter - it,
        {
            let px = self.eval_point(x);
            if c_norm_le(&px, &epsilon) {
                proof {
                    assert(one_root_outcome(
                        OneRootAlgorithms::Laguerre,
                        self@,
                        z0,
                        g0,
                        epsilon,
                        max_iter as nat,
                        Result::<Complex64, Complex64>::Ok(x),
                    ));
                }
                return Ok(x);
            }
            let ghost xprev = x;
            let pdx = p_diff.eval_point(x);
            let pddx = p_diff2.eval_point(x);
            let g = c_div(pdx, px);
            let g2 = c_mul(g, g);
            let h = c_sub(g2, c_div(pddx, px));
            let degree_m_1 = c_sub(degree, one);
            let denom_pm = c_sqrt(c_mul(degree_m_1, c_sub(c_mul(degree, h), g2)));
            let denom1 = c_add(g, denom_pm);
            let denom2 = c_sub(g, denom_pm);
            let denom = if c_norm_lt(&denom2, &denom1) {
                denom1
            } else {
                denom2
            };
            x = c_sub(x, c_div(degree, denom));
            proof {
                assert(x == one_root_iterate(
                    OneRootAlgorithms::Laguerre,
                    self@,
                    z0,
                    g0,
                    (it + 1) as nat,
                ));
                assert forall|j: nat| j < it + 1 implies !norm_le(
                    eval_at(
                        self@,
                        #[trigger] one_root_iterate(
                            OneRootAlgorithms::Laguerre,
                            self@,
                            z0,
                            g0,
                            j,
                        ),
                    ),
                    epsilon,
                ) by {
                    if j == it as nat {
                        assert(one_root_iterate(OneRootAlgorithms::Laguerre, self@, z0, g0, j)
                            == xprev);
                        assert(!norm_le(eval_at(self@, xprev), epsilon));
                    }
                }
            }
            it = it + 1;
        }
        proof {
            assert(one_root_outcome(
                OneRootAlgorithms::Laguerre,
                self@,
                z0,
                g0,
                epsilon,
                max_iter as nat,
                Result::<Complex64, Complex64>::Err(x),
            ));
        }
        Err(x)
    }

    /// Runs the chosen single-root method once.
    fn one_root(
        &self,
        alg: &OneRootAlgorithms,
        initial_guess: Option<Complex64>,
        epsilon: Complex64,
        max_iter: usize,
    ) -> (r: Result<Complex64, Complex64>)
        requires
            spec_is_normalized(self@),
            self@.len() >= 2,
        ensures
            r matches Ok(x) ==> norm_le(eval_at(self@, x), epsilon),
            search_outcome(*alg, self@, initial_guess, epsilon, max_iter as nat, r),
    {
        match alg {
            OneRootAlgorithms::Newton => self.one_root_newton(initial_guess, epsilon, max_iter),
            OneRootAlgorithms::Halley => self.one_root_halley(initial_guess, epsilon, max_iter),
            OneRootAlgorithms::Laguerre => self.one_root_laguerre(
                initial_guess,
                epsilon,
                max_iter,
            ),
        }
    }

    /// Finds exactly `n` roots with a chosen single-root method (Newton by
    /// default), deflating by each found root's monic linear factor so the
    /// next search runs one degree lower. On a failed search the roots
    /// found so far come back as the error payload, always fewer than
    /// requested. Each returned root, in success and failure alike, meets
    /// the residual tolerance on the polynomial deflated by the roots found
    /// before it, and a failure also carries the evidence that the next
    /// search ran its whole budget without a hit.
    pub fn try_n_roots(
        &self,
        n: usize,
        initial_guess: Option<Complex64>,
        epsilon: Complex64,
        max_iter: usize,
        algorithm: Option<OneRootAlgorithms>,
    ) -> (r: Result<Vec<Complex64>, Vec<Complex64>>)
        requires
            spec_is_normalized(self@),
            self@.len() >= 1,
            n <= self@.len() - 1,
        ensures
            n == 0 ==> r is Ok,
            r matches Ok(v) ==> v@.len() == n as int,
            r matches Err(v) ==> v@.len() < n as int,
            r matches Ok(v) ==> forall|t: int|
                0 <= t < v@.len() ==> norm_le(
                    eval_at(#[trigger] deflate_by(self@, v@.take(t)), v@[t]),
                    epsilon,
                ),
            r matches Err(v) ==> forall|t: int|
                0 <= t < v@.len() ==> norm_le(
                    eval_at(#[trigger] deflate_by(self@, v@.take(t)), v@[t]),
                    epsilon,
                ),
            r matches Err(v) ==> search_fails(
                chosen_one_root(algorithm),
                deflate_by(self@, v@),
                initial_guess,
                epsilon,
                max_iter as nat,
            ),
            r matches Ok(v) ==> forall|t: int|
                0 <= t < v@.len() ==> search_found(
                    chosen_one_root(algorithm),
                    #[trigger] deflate_by(self@, v@.take(t)),
                    initial_guess,
                    epsilon,
                    max_iter as nat,
                    v@[t],
                ),
            r matches Err(v) ==> forall|t: int|
                0 <= t < v@.len() ==> search_found(
                    chosen_one_root(algorithm),
                    #[trigger] deflate_by(self@, v@.take(t)),
                    initial_guess,
                    epsilon,
                    max_iter as nat,
                    v@[t],
                ),
            n >= 1 ==> (r matches Ok(v) ==> norm_le(eval_at(self@, v@[0]), epsilon)),
    {
        let alg = match algorithm {
            Some(a) => a,
            None => OneRootAlgorithms::Newton,
        };
        proof {
            assert(alg == chosen_one_root(algorithm));
        }
        let mut roots: Vec<Complex64> = Vec::new();
        let mut this = self.clone();
        let mut i: usize = 0;
        while i < n
            invariant
                spec_is_normalized(self@),
                self@.len() >= 1,
                n <= self@.len() - 1,
                alg == chosen_one_root(algorithm),
                i <= n,
                roots@.len() == i,
                i < n ==> this@.len() == self@.len() - i,
                i < n ==> this@ == deflate_by(self@, roots@),
                spec_is_normalized(this@),
                this@.len() >= 1,
                forall|t: int|
                    0 <= t < roots@.len() ==> norm_le(
                        eval_at(#[trigger] deflate_by(self@, roots@.take(t)), roots@[t]),
                        epsilon,
                    ),
                forall|t: int|
                    0 <= t < roots@.len() ==> search_found(
                        alg,
                        #[trigger] deflate_by(self@, roots@.take(t)),
                        initial_guess,
                        epsilon,
                        max_iter as nat,
                        roots@[t],
                    ),
            decreases n - i,
        {
            let res = this.one_root(&alg, initial_guess, epsilon, max_iter);
            let ghost gres = res;
            let root = match res {
                Ok(x) => x,
                Err(_) => {
                    proof {
                        let (g, z) = choose|g: Complex64, z: Complex64|
                            start_matches(this@, initial_guess, g) && valid_dd_zero(
                                alg,
                                this@,
                                z,
                            ) && one_root_outcome(
                                alg,
                                this@,
                                z,
                                g,
                                epsilon,
                                max_iter as nat,
                                gres,
                            );
                        assert(no_hit_below(alg, this@, z, g, epsilon, max_iter as nat));
                        assert(this@ == deflate_by(self@, roots@));
                        assert(no_hit_below(
                            alg,
                            deflate_by(self@, roots@),
                            z,
                            g,
                            epsilon,
                            max_iter as nat,
                        ));
                        assert(search_fails(
                            alg,
                            deflate_by(self@, roots@),
                            initial_guess,
                            epsilon,
                            max_iter as nat,
                        ));
                    }
                    return Err(roots);
                },
            };
            let ghost prev_roots = roots@;
            roots.push(root);
            proof {
                let (sg, sz) = choose|g: Complex64, z: Complex64|
                    start_matches(this@, initial_guess, g) && valid_dd_zero(alg, this@, z)
                        && one_root_outcome(alg, this@, z, g, epsilon, max_iter as nat, gres);
                assert(this@ == deflate_by(self@, prev_roots));
                assert(one_root_outcome(
                    alg,
                    deflate_by(self@, prev_roots),
                    sz,
                    sg,
                    epsilon,
                    max_iter as nat,
                    Result::<Complex64, Complex64>::Ok(root),
                ));
                assert(search_found(
                    alg,
                    deflate_by(self@, prev_roots),
                    initial_guess,
                    epsilon,
                    max_iter as nat,
                    root,
                ));
                assert forall|t: int| 0 <= t < roots@.len() implies norm_le(
                    eval_at(#[trigger] deflate_by(self@, roots@.take(t)), roots@[t]),
                    epsilon,
                ) && search_found(
                    alg,
                    deflate_by(self@, roots@.take(t)),
                    initial_guess,
                    epsilon,
                    max_iter as nat,
                    roots@[t],
                ) by {
                    if t < prev_roots.len() {
                        assert(roots@.take(t) =~= prev_roots.take(t));
                        assert(roots@[t] == prev_roots[t]);
                    } else {
                        assert(roots@.take(t) =~= prev_roots);
                        assert(deflate_by(self@, prev_roots) == this@);
                        assert(norm_le(eval_at(this@, root), epsilon));
                    }
                }
            }
            if i < n - 1 {
                // the last search needs no deflated leftover
                let next = this.deflate(root);
                proof {
                    assert(roots@.drop_last() =~= prev_roots);
                    assert(roots@.last() == root);
                    assert(next@ == deflate_by(self@, roots@));
                }
                this = next;
            }
            i = i + 1;
        }
        proof {
            if n >= 1 {
                assert(roots@.take(0) =~= Seq::<Complex64>::empty());
                assert(deflate_by(self@, roots@.take(0)) == self@);
            }
        }
        Ok(roots)
    }

    /// The hybrid strategy: attempt the global eigenvalue method; on
    /// non-convergence run one single-root recovery search (Newton by
    /// default), deflate by the found root, and try again, at most
    /// `max_tries` times. Success yields exactly one root per degree of the
    /// undeflated polynomial: first the recovery roots, each meeting the
    /// residual tolerance on its deflated polynomial, then one global batch
    /// sorted by magnitude and phase (for finite values). A polynomial
    /// deflated all the way down to a constant counts as success at once.
    /// Failure carries every recovery root accumulated so far, with the
    /// same per-root residuals — always strictly fewer than the degree —
    /// and arises only when the budget of attempts ran out or a recovery
    /// search itself exhausted its iterations without a hit.
    pub fn try_roots(
        &self,
        epsilon: Complex64,
        max_iter: usize,
        max_tries: usize,
        max_recovery_iter: Option<usize>,
        algorithm: Option<AllRootsAlgorithms>,
        recovery_algorithm: Option<OneRootAlgorithms>,
    ) -> (r: Result<Vec<Complex64>, Vec<Complex64>>)
        requires
            spec_is_normalized(self@),
            max_iter >= 1,
        ensures
            r matches Ok(v) ==> v@.len() == (if self@.len() >= 1 {
                self@.len() - 1
            } else {
                0
            }),
            self@.len() >= 1 ==> (r matches Ok(v) ==> hybrid_ok(
                self@,
                v@,
                epsilon,
                chosen_one_root(recovery_algorithm),
                chosen_iter(max_recovery_iter, max_iter) as nat,
            )),
            r matches Err(v) ==> self@.len() >= 2 && v@.len() < self@.len() - 1,
            r matches Err(v) ==> forall|i: int|
                0 <= i < v@.len() ==> norm_le(
                    eval_at(#[trigger] deflate_by(self@, v@.take(i)), v@[i]),
                    epsilon,
                ),
            r matches Err(v) ==> forall|i: int|
                0 <= i < v@.len() ==> search_found(
                    chosen_one_root(recovery_algorithm),
                    #[trigger] deflate_by(self@, v@.take(i)),
                    Option::None,
                    epsilon,
                    chosen_iter(max_recovery_iter, max_iter) as nat,
                    v@[i],
                ),
            r matches Err(v) ==> v@.len() == max_tries || search_fails(
                chosen_one_root(recovery_algorithm),
                deflate_by(self@, v@),
                Option::None,
                epsilon,
                chosen_iter(max_recovery_iter, max_iter) as nat,
            ),
    {
        if self.coeffs.len() < 2 {
            let out: Vec<Complex64> = Vec::new();
            proof {
                if self@.len() >= 1 {
                    assert(out@.take(0) =~= Seq::<Complex64>::empty());
                    assert(out@.skip(0) =~= Seq::<Complex64>::empty());
                    assert(deflate_by(self@, out@.take(0)) == self@);
                    assert(hybrid_split_at(
                        self@,
                        out@,
                        epsilon,
                        chosen_one_root(recovery_algorithm),
                        chosen_iter(max_recovery_iter, max_iter) as nat,
                        0,
                    ));
                    assert(hybrid_ok(
                        self@,
                        out@,
                        epsilon,
                        chosen_one_root(recovery_algorithm),
                        chosen_iter(max_recovery_iter, max_iter) as nat,
                    ));
                }
            }
            return Ok(out);
        }
        let recovery_iter = match max_recovery_iter {
            Some(x) => x,
            None => max_iter,
        };
        let alg = match algorithm {
            Some(a) => a,
            None => AllRootsAlgorithms::Schur,
        };
        let recovery_alg = match recovery_algorithm {
            Some(a) => a,
            None => OneRootAlgorithms::Newton,
        };
        proof {
            assert(recovery_alg == chosen_one_root(recovery_algorithm));
            assert(recovery_iter == chosen_iter(max_recovery_iter, max_iter));
        }
        let mut roots: Vec<Complex64> = Vec::new();
        let mut this = self.clone();
        let mut t: usize = 0;
        while t < max_tries
            invariant
                spec_is_normalized(self@),
                self@.len() >= 2,
                max_iter >= 1,
                recovery_alg == chosen_one_root(recovery_algorithm),
                recovery_iter == chosen_iter(max_recovery_iter, max_iter),
                t <= max_tries,
                roots@.len() == t,
                spec_is_normalized(this@),
                this@.len() >= 2,
                roots@.len() + this@.len() == self@.len(),
                this@ == deflate_by(self@, roots@),
                forall|i: int|
                    0 <= i < roots@.len() ==> norm_le(
                        eval_at(#[trigger] deflate_by(self@, roots@.take(i)), roots@[i]),
                        epsilon,
                    ),
                forall|i: int|
                    0 <= i < roots@.len() ==> search_found(
                        recovery_alg,
                        #[trigger] deflate_by(self@, roots@.take(i)),
                        Option::None,
                        epsilon,
                        recovery_iter as nat,
                        roots@[i],
                    ),
            decreases max_tries - t,
        {
            let attempt = match &alg {
                AllRootsAlgorithms::Schur => this.roots_schur(epsilon, max_iter),
            };
            match attempt {
                Ok(mut found) => {
                    let ghost k0 = roots@.len() as int;
                    let ghost pre = roots@;
                    let ghost fnd = found@;
                    roots.append(&mut found);
                    proof {
                        // the split: the recovery roots with their
                        // residuals, then the sorted global batch
                        assert(roots@.skip(k0) =~= fnd);
                        assert forall|i: int| 0 <= i < k0 implies norm_le(
                            eval_at(#[trigger] deflate_by(self@, roots@.take(i)), roots@[i]),
                            epsilon,
                        ) && search_found(
                            recovery_alg,
                            deflate_by(self@, roots@.take(i)),
                            Option::None,
                            epsilon,
                            recovery_iter as nat,
                            roots@[i],
                        ) by {
                            assert(roots@.take(i) =~= pre.take(i));
                            assert(roots@[i] == pre[i]);
                        }
                        assert(roots@.take(k0) =~= pre);
                        assert(deflate_by(self@, roots@.take(k0)) == this@);
                        assert(fnd.len() == this@.len() - 1);
                        assert(deflate_by(self@, roots@.take(k0)).len() == roots@.len() + 1
                            - k0);
                        assert(all_finite_seq(roots@.skip(k0)) ==> sorted_mag_phase(
                            roots@.skip(k0),
                        ));
                        assert(hybrid_split_at(
                            self@,
                            roots@,
                            epsilon,
                            recovery_alg,
                            recovery_iter as nat,
                            k0,
                        ));
                        assert(hybrid_ok(
                            self@,
                            roots@,
                            epsilon,
                            recovery_alg,
                            recovery_iter as nat,
                        ));
                    }
                    return Ok(roots);
                },
                Err(_) => {
                    // one recovery step: a single root, found iteratively,
                    // deflates the polynomial and moves the coefficients
                    // out of the pathological pattern
                    let rec = this.one_root(&recovery_alg, None, epsilon, recovery_iter);
                    let ghost grec = rec;
                    match rec {
                        Ok(root) => {
                            let ghost pre = roots@;
                            roots.push(root);
                            proof {
                                let (sg, sz) = choose|g: Complex64, z: Complex64|
                                    start_matches(this@, Option::None, g) && valid_dd_zero(
                                        recovery_alg,
                                        this@,
                                        z,
                                    ) && one_root_outcome(
                                        recovery_alg,
                                        this@,
                                        z,
                                        g,
                                        epsilon,
                                        recovery_iter as nat,
                                        grec,
                                    );
                                assert(this@ == deflate_by(self@, pre));
                                assert(one_root_outcome(
                                    recovery_alg,
                                    deflate_by(self@, pre),
                                    sz,
                                    sg,
                                    epsilon,
                                    recovery_iter as nat,
                                    Result::<Complex64, Complex64>::Ok(root),
                                ));
                                assert(search_found(
                                    recovery_alg,
                                    deflate_by(self@, pre),
                                    Option::None,
                                    epsilon,
                                    recovery_iter as nat,
                                    root,
                                ));
                                assert forall|i: int| 0 <= i < roots@.len() implies norm_le(
                                    eval_at(
                                        #[trigger] deflate_by(self@, roots@.take(i)),
                                        roots@[i],
                                    ),
                                    epsilon,
                                ) && search_found(
                                    recovery_alg,
                                    deflate_by(self@, roots@.take(i)),
                                    Option::None,
                                    epsilon,
                                    recovery_iter as nat,
                                    roots@[i],
                                ) by {
                                    if i < pre.len() {
                                        assert(roots@.take(i) =~= pre.take(i));
                                        assert(roots@[i] == pre[i]);
                                    } else {
                                        assert(roots@.take(i) =~= pre);
                                        assert(deflate_by(self@, pre) == this@);
                                        assert(norm_le(eval_at(this@, root), epsilon));
                                    }
                                }
                            }
                            let next = this.deflate(root);
                            proof {
                                assert(roots@.drop_last() =~= pre);
                                assert(roots@.last() == root);
                                assert(next@ == deflate_by(self@, roots@));
                            }
                            this = next;
                            if this.len_raw() < 2 {
                                // fully deflated: one root per degree is
                                // already in hand, and a global attempt on
                                // the constant leftover would add nothing
                                proof {
                                    let ghost kk = roots@.len() as int;
                                    assert(roots@.skip(kk) =~= Seq::<Complex64>::empty());
                                    assert(roots@.take(kk) =~= roots@);
                                    assert(deflate_by(self@, roots@.take(kk)) == this@);
                                    assert(deflate_by(self@, roots@.take(kk)).len() == roots@.len()
                                        + 1 - kk);
                                    assert(all_finite_seq(roots@.skip(kk)) ==> sorted_mag_phase(
                                        roots@.skip(kk),
                                    ));
                                    assert(hybrid_split_at(
                                        self@,
                                        roots@,
                                        epsilon,
                                        recovery_alg,
                                        recovery_iter as nat,
                                        kk,
                                    ));
                                    assert(hybrid_ok(
                                        self@,
                                        roots@,
                                        epsilon,
                                        recovery_alg,
                                        recovery_iter as nat,
                                    ));
                                }
                                return Ok(roots);
                            }
                        },
                        Err(_) => {
                            proof {
                                let (g, z) = choose|g: Complex64, z: Complex64|
                                    start_matches(this@, Option::None, g) && valid_dd_zero(
                                        recovery_alg,
                                        this@,
                                        z,
                                    ) && one_root_outcome(
                                        recovery_alg,
                                        this@,
                                        z,
                                        g,
                                        epsilon,
                                        recovery_iter as nat,
                                        grec,
                                    );
                                assert(no_hit_below(
                                    recovery_alg,
                                    this@,
                                    z,
                                    g,
                                    epsilon,
                                    recovery_iter as nat,
                                ));
                                assert(this@ == deflate_by(self@, roots@));
                                assert(no_hit_below(
                                    recovery_alg,
                                    deflate_by(self@, roots@),
                                    z,
                                    g,
                                    epsilon,
                                    recovery_iter as nat,
                                ));
                                assert(search_fails(
                                    recovery_alg,
                                    deflate_by(self@, roots@),
                                    Option::None,
                                    epsilon,
                                    recovery_iter as nat,
                                ));
                            }
                            return Err(roots);
                        },
                    }
                },
            }
            t = t + 1;
        }
        Err(roots)
    }
}

} // verus!
