//! The polynomial representation, its normalization invariant, and the
//! coefficient-level algebra: evaluation, differentiation, addition,
//! multiplication, powers, composition and division with remainder.
//!
//! A polynomial is an ordered coefficient sequence; index `i` carries the
//! coefficient of `x^i`. It is *normalized* when it is empty, has a single
//! coefficient, or its highest-index coefficient is nonzero. Normalization
//! is applied lazily: the degree-sensitive operations require it instead of
//! re-deriving it.

use vstd::prelude::*;

use num_complex::Complex64;

use crate::cnum::c_add;
use crate::cnum::c_div;
use crate::cnum::c_from_usize;
use crate::cnum::c_is_one;
use crate::cnum::c_mag_phase_le;
use crate::cnum::c_is_finite;
use crate::cnum::c_is_zero;
use crate::cnum::c_mul;
use crate::cnum::c_neg;
use crate::cnum::c_norm_le;
use crate::cnum::c_one;
use crate::cnum::c_sub;
use crate::cnum::c_zero;
use crate::cnum::cadd;
use crate::cnum::cdiv;
use crate::cnum::cmul;
use crate::cnum::cneg;
use crate::cnum::csub;
use crate::cnum::c_of_usize;
use crate::cnum::is_finite_c;
use crate::cnum::is_one_c;
use crate::cnum::mag_phase_le;
use crate::cnum::norm_le;
use crate::cnum::is_zero_c;

verus! {

/// A dense polynomial over complex coefficients, lowest degree first.
pub struct Poly {
    pub coeffs: Vec<Complex64>,
}

impl View for Poly {
    type V = Seq<Complex64>;

    open spec fn view(&self) -> Seq<Complex64> {
        self.coeffs@
    }
}

/// Empty, a single coefficient, or a nonzero leading coefficient.
pub open spec fn spec_is_normalized(s: Seq<Complex64>) -> bool {
    s.len() <= 1 || !is_zero_c(s.last())
}

/// `s` with its trailing zero coefficients removed.
pub open spec fn strip_zeros(s: Seq<Complex64>) -> Seq<Complex64>
    decreases s.len(),
{
    if s.len() == 0 {
        s
    } else if is_zero_c(s.last()) {
        strip_zeros(s.drop_last())
    } else {
        s
    }
}

/// What normalization returns: trailing zeros stripped, except that a
/// nonempty polynomial whose coefficients are all zero keeps one zero
/// coefficient.
pub open spec fn spec_normalize(s: Seq<Complex64>) -> Seq<Complex64> {
    if s.len() >= 1 && strip_zeros(s).len() == 0 {
        s.take(1)
    } else {
        strip_zeros(s)
    }
}

/// Every coefficient is zero (an empty polynomial counts).
pub open spec fn is_zero_poly(s: Seq<Complex64>) -> bool {
    forall|i: int| 0 <= i < s.len() ==> is_zero_c(s[i])
}

/// The constant polynomial one.
pub open spec fn is_one_poly(s: Seq<Complex64>) -> bool {
    s.len() == 1 && is_one_c(s[0])
}

proof fn lemma_strip_zeros_shape(s: Seq<Complex64>)
    ensures
        strip_zeros(s).len() <= s.len(),
        strip_zeros(s) == s.take(strip_zeros(s).len() as int),
        strip_zeros(s).len() > 0 ==> !is_zero_c(strip_zeros(s).last()),
        forall|i: int| strip_zeros(s).len() <= i < s.len() ==> is_zero_c(s[i]),
    decreases s.len(),
{
    if s.len() == 0 {
        assert(strip_zeros(s) =~= s.take(0));
    } else if is_zero_c(s.last()) {
        lemma_strip_zeros_shape(s.drop_last());
        assert(s.drop_last().take(strip_zeros(s).len() as int) =~= s.take(
            strip_zeros(s).len() as int,
        ));
        assert(forall|i: int|
            strip_zeros(s).len() <= i < s.len() - 1 ==> is_zero_c(s.drop_last()[i]) && s.drop_last()[i]
                == s[i]);
    } else {
        assert(strip_zeros(s) =~= s.take(s.len() as int));
    }
}

proof fn lemma_normalized_fixpoint(s: Seq<Complex64>)
    requires
        spec_is_normalized(s),
    ensures
        spec_normalize(s) == s,
{
    lemma_strip_zeros_shape(s);
    if s.len() == 0 {
    } else if s.len() == 1 {
        if is_zero_c(s.last()) {
            assert(strip_zeros(s) =~= strip_zeros(s.drop_last()));
            assert(s.take(1) =~= s);
        } else {
            assert(strip_zeros(s) =~= s.take(1));
            assert(s.take(1) =~= s);
        }
    } else {
        assert(strip_zeros(s) =~= s);
    }
}

/// Normalizing is idempotent: a second normalization changes nothing.
pub proof fn lemma_normalize_idempotent(c: Seq<Complex64>)
    ensures
        spec_normalize(spec_normalize(c)) == spec_normalize(c),
{
    lemma_strip_zeros_shape(c);
    let r = spec_normalize(c);
    if c.len() >= 1 && strip_zeros(c).len() == 0 {
        assert(is_zero_c(c[0]));
        assert(r =~= seq![c[0]]);
        assert(spec_is_normalized(r));
        lemma_normalized_fixpoint(r);
    } else if c.len() == 0 {
        assert(r =~= c);
        lemma_normalized_fixpoint(r);
    } else {
        assert(r == strip_zeros(c));
        assert(spec_is_normalized(r));
        lemma_normalized_fixpoint(r);
    }
}

/// Normalization strips the trailing zero coefficients and keeps everything
/// below them; a nonempty all-zero polynomial keeps a single zero
/// coefficient instead of vanishing.
pub proof fn lemma_normalize_strips_trailing_zeros(c: Seq<Complex64>)
    ensures
        spec_normalize(c).len() <= c.len(),
        forall|i: int| 0 <= i < spec_normalize(c).len() ==> spec_normalize(c)[i] == c[i],
        forall|i: int| spec_normalize(c).len() <= i < c.len() ==> is_zero_c(c[i]),
        (exists|i: int| 0 <= i < c.len() && !is_zero_c(c[i])) ==> spec_normalize(c).len() > 0
            && !is_zero_c(spec_normalize(c).last()),
        c.len() >= 1 && is_zero_poly(c) ==> spec_normalize(c) == seq![c[0]] && is_zero_c(c[0]),
        spec_is_normalized(spec_normalize(c)),
{
    lemma_strip_zeros_shape(c);
    if c.len() >= 1 && strip_zeros(c).len() == 0 {
        assert(spec_normalize(c) =~= seq![c[0]]);
        assert(is_zero_c(c[0]));
    } else if c.len() >= 1 {
        if exists|i: int| 0 <= i < c.len() && !is_zero_c(c[i]) {
            assert(strip_zeros(c).len() > 0);
        }
        if is_zero_poly(c) && strip_zeros(c).len() > 0 {
            assert(is_zero_c(c[strip_zeros(c).len() - 1]));
            assert(!is_zero_c(strip_zeros(c).last()));
            assert(strip_zeros(c).last() == c[strip_zeros(c).len() - 1]);
        }
    }
}

/// Copies a prefix of a coefficient vector.
fn prefix_vec(v: &Vec<Complex64>, end: usize) -> (r: Vec<Complex64>)
    requires
        end <= v@.len(),
    ensures
        r@ == v@.take(end as int),
{
    let mut out: Vec<Complex64> = Vec::new();
    let mut i: usize = 0;
    while i < end
        invariant
            i <= end <= v@.len(),
            out@ == v@.take(i as int),
        decreases end - i,
    {
        out.push(v[i]);
        assert(v@.take(i as int).push(v@[i as int]) =~= v@.take(i as int + 1));
        i = i + 1;
    }
    out
}

impl Clone for Poly {
    /// An exact copy: the coefficient sequence is preserved.
    fn clone(&self) -> (r: Self)
        ensures
            r@ == self@,
    {
        let r = Poly { coeffs: prefix_vec(&self.coeffs, self.coeffs.len()) };
        proof {
            assert(self.coeffs@.take(self.coeffs@.len() as int) =~= self.coeffs@);
        }
        r
    }
}

impl Poly {
    /// A polynomial from its coefficients, lowest degree first, stored as
    /// given (not normalized).
    pub fn new(coeffs: &[Complex64]) -> (r: Poly)
        ensures
            r@ == coeffs@,
    {
        Poly { coeffs: vstd::slice::slice_to_vec(coeffs) }
    }

    /// The zero polynomial: a single zero coefficient.
    pub fn zero() -> (r: Poly)
        ensures
            r@.len() == 1,
            is_zero_c(r@[0]),
            is_zero_poly(r@),
    {
        let mut coeffs: Vec<Complex64> = Vec::new();
        coeffs.push(c_zero());
        Poly { coeffs }
    }

    /// The constant polynomial one.
    pub fn one() -> (r: Poly)
        ensures
            is_one_poly(r@),
            !is_zero_c(r@[0]),
            r@.len() == 1,
    {
        let mut coeffs: Vec<Complex64> = Vec::new();
        coeffs.push(c_one());
        Poly { coeffs }
    }

    /// The stored coefficients, lowest degree first.
    pub fn coeffs(&self) -> (r: Vec<Complex64>)
        ensures
            r@ == self@,
    {
        let r = prefix_vec(&self.coeffs, self.coeffs.len());
        proof {
            assert(self.coeffs@.take(self.coeffs@.len() as int) =~= self.coeffs@);
        }
        r
    }

    /// One stored coefficient.
    pub fn coeff(&self, i: usize) -> (r: Complex64)
        requires
            i < self@.len(),
        ensures
            r == self@[i as int],
    {
        self.coeffs[i]
    }

    /// The stored length, without normalizing first.
    pub(crate) fn len_raw(&self) -> (r: usize)
        ensures
            r == self@.len(),
    {
        self.coeffs.len()
    }

    /// The length after normalization; the degree is this minus one.
    pub fn len(&self) -> (r: usize)
        ensures
            r == spec_normalize(self@).len(),
    {
        self.normalize().len_raw()
    }

    /// Whether the normalized polynomial has no coefficients.
    pub fn is_empty(&self) -> (r: bool)
        ensures
            r == (spec_normalize(self@).len() == 0),
    {
        self.len() == 0
    }

    /// The highest-degree stored coefficient.
    pub(crate) fn last(&self) -> (r: Complex64)
        requires
            self@.len() >= 1,
        ensures
            r == self@.last(),
    {
        self.coeffs[self.coeffs.len() - 1]
    }

    /// True iff the polynomial is empty, a constant, or its leading
    /// coefficient is nonzero.
    pub fn is_normalized(&self) -> (r: bool)
        ensures
            r == spec_is_normalized(self@),
    {
        let n = self.coeffs.len();
        if n <= 1 {
            return true;
        }
        !c_is_zero(&self.coeffs[n - 1])
    }

    /// Strips trailing zero coefficients; an all-zero polynomial keeps a
    /// single zero coefficient. Idempotent.
    pub fn normalize(&self) -> (r: Poly)
        ensures
            r@ == spec_normalize(self@),
            spec_is_normalized(r@),
    {
        proof {
            lemma_normalize_strips_trailing_zeros(self@);
        }
        if self.is_normalized() {
            proof {
                lemma_normalized_fixpoint(self@);
            }
            return self.clone();
        }
        let ghost s = self@;
        let mut end = self.coeffs.len();
        proof {
            assert(s.take(end as int) =~= s);
        }
        while end > 0 && c_is_zero(&self.coeffs[end - 1])
            invariant
                end <= s.len(),
                s == self@,
                strip_zeros(s) == strip_zeros(s.take(end as int)),
            decreases end,
        {
            proof {
                assert(s.take(end as int).last() == s[end - 1]);
                assert(s.take(end as int).drop_last() =~= s.take(end as int - 1));
            }
            end = end - 1;
        }
        if end == 0 {
            proof {
                assert(strip_zeros(s.take(0)) =~= s.take(0));
                assert(strip_zeros(s).len() == 0);
                assert(s.take(1) =~= seq![s[0]]);
            }
            let mut coeffs: Vec<Complex64> = Vec::new();
            coeffs.push(self.coeffs[0]);
            return Poly { coeffs };
        }
        proof {
            assert(s.take(end as int).last() == s[end - 1]);
            assert(!is_zero_c(s.take(end as int).last()));
            assert(strip_zeros(s.take(end as int)) =~= s.take(end as int));
        }
        Poly { coeffs: prefix_vec(&self.coeffs, end) }
    }

    /// Whether every coefficient's magnitude is within the tolerance, taken
    /// as the magnitude of `epsilon`.
    pub fn almost_zero(&self, epsilon: &Complex64) -> (r: bool)
        ensures
            r == (forall|i: int| 0 <= i < self@.len() ==> norm_le(self@[i], *epsilon)),
    {
        let mut i: usize = 0;
        while i < self.coeffs.len()
            invariant
                i <= self@.len(),
                forall|j: int| 0 <= j < i ==> norm_le(self@[j], *epsilon),
            decreases self@.len() - i,
        {
            if !c_norm_le(&self.coeffs[i], epsilon) {
                return false;
            }
            i = i + 1;
        }
        true
    }

    /// Whether every stored coefficient is zero.
    pub fn is_zero(&self) -> (r: bool)
        ensures
            r == is_zero_poly(self@),
    {
        let mut i: usize = 0;
        while i < self.coeffs.len()
            invariant
                i <= self@.len(),
                forall|j: int| 0 <= j < i ==> is_zero_c(self@[j]),
            decreases self@.len() - i,
        {
            if !c_is_zero(&self.coeffs[i]) {
                return false;
            }
            i = i + 1;
        }
        true
    }

    /// Whether the polynomial is the constant one.
    pub fn is_one(&self) -> (r: bool)
        ensures
            r == is_one_poly(self@),
    {
        if self.coeffs.len() != 1 {
            return false;
        }
        c_is_one(&self.coeffs[0])
    }
}

/// Horner's scheme from the leading coefficient down to index `k`.
pub open spec fn horner(c: Seq<Complex64>, x: Complex64, k: int) -> Complex64
    recommends
        0 <= k < c.len(),
    decreases c.len() - k,
{
    if k >= c.len() - 1 {
        c[c.len() - 1]
    } else {
        cadd(cmul(horner(c, x, k + 1), x), c[k])
    }
}

/// The value of the polynomial `c` at `x`, exactly as the evaluation loop
/// forms it: Horner's scheme, one multiplication and one addition per
/// coefficient below the leading one.
pub open spec fn eval_at(c: Seq<Complex64>, x: Complex64) -> Complex64 {
    horner(c, x, 0)
}

/// The coefficients of the derivative: index `i` holds `c[i+1] * (i+1)`.
pub open spec fn spec_diff(s: Seq<Complex64>) -> Seq<Complex64> {
    Seq::new((s.len() - 1) as nat, |i: int| cmul(s[i + 1], c_of_usize((i + 1) as usize)))
}

/// The larger of two lengths.
pub open spec fn spec_max(a: int, b: int) -> int {
    if a >= b {
        a
    } else {
        b
    }
}

/// Coefficientwise sum; where only one polynomial has a coefficient it is
/// kept as it is.
pub open spec fn padd(a: Seq<Complex64>, b: Seq<Complex64>) -> Seq<Complex64> {
    Seq::new(
        spec_max(a.len() as int, b.len() as int) as nat,
        |k: int|
            if k < a.len() && k < b.len() {
                cadd(a[k], b[k])
            } else if k < a.len() {
                a[k]
            } else {
                b[k]
            },
    )
}

/// Coefficientwise difference; coefficients only the right side has are
/// negated.
pub open spec fn psub(a: Seq<Complex64>, b: Seq<Complex64>) -> Seq<Complex64> {
    Seq::new(
        spec_max(a.len() as int, b.len() as int) as nat,
        |k: int|
            if k < a.len() && k < b.len() {
                csub(a[k], b[k])
            } else if k < a.len() {
                a[k]
            } else {
                cneg(b[k])
            },
    )
}

/// Every coefficient multiplied by the scalar `c` from the left.
pub open spec fn smul(c: Complex64, s: Seq<Complex64>) -> Seq<Complex64> {
    Seq::new(s.len(), |k: int| cmul(c, s[k]))
}

/// The coefficients of `(c + x) * s` at index `k` and above, written as the
/// multiply-by-a-monic-linear-factor recurrence.
pub open spec fn lin_mul_at(s: Seq<Complex64>, c: Complex64, k: int) -> Complex64
    recommends
        s.len() >= 1,
        0 <= k <= s.len(),
{
    if k == 0 {
        cmul(c, s[0])
    } else if k < s.len() {
        cadd(s[k - 1], cmul(c, s[k]))
    } else {
        s[s.len() - 1]
    }
}

/// Every entry has finite real and imaginary parts.
pub open spec fn all_finite_seq(s: Seq<Complex64>) -> bool {
    forall|i: int| 0 <= i < s.len() ==> is_finite_c(#[trigger] s[i])
}

/// Neighbouring entries are in magnitude-then-phase order.
pub open spec fn sorted_mag_phase(s: Seq<Complex64>) -> bool {
    forall|i: int| 0 <= i < s.len() - 1 ==> mag_phase_le(#[trigger] s[i], s[i + 1])
}

/// The quotient coefficients of synthetic division by the monic linear
/// factor `(x - r)`, from the top down: the recurrence
/// `q[n-2] = s[n-1]`, `q[k] = s[k+1] + r * q[k+1]`.
pub open spec fn deflate_at(s: Seq<Complex64>, r: Complex64, k: int) -> Complex64
    recommends
        s.len() >= 2,
        0 <= k <= s.len() - 2,
    decreases s.len() - k,
{
    if k >= s.len() - 2 {
        s[s.len() - 1]
    } else {
        cadd(s[k + 1], cmul(r, deflate_at(s, r, k + 1)))
    }
}

/// The whole quotient of synthetic division by the monic linear factor
/// `(x - r)`.
pub open spec fn deflate_seq(s: Seq<Complex64>, r: Complex64) -> Seq<Complex64>
    recommends
        s.len() >= 2,
{
    Seq::new((s.len() - 1) as nat, |k: int| deflate_at(s, r, k))
}

/// `s` deflated by each root in turn, left to right.
pub open spec fn deflate_by(s: Seq<Complex64>, roots: Seq<Complex64>) -> Seq<Complex64>
    decreases roots.len(),
{
    if roots.len() == 0 {
        s
    } else {
        deflate_seq(deflate_by(s, roots.drop_last()), roots.last())
    }
}

impl Poly {
    /// The polynomial's value at one point, by Horner's scheme from the
    /// leading coefficient down.
    pub fn eval_point(&self, x: Complex64) -> (r: Complex64)
        requires
            self@.len() >= 1,
        ensures
            r == eval_at(self@, x),
    {
        let n = self.coeffs.len();
        let mut acc = self.coeffs[n - 1];
        let mut k = n - 1;
        while k > 0
            invariant
                1 <= n == self@.len(),
                k < n,
                acc == horner(self@, x, k as int),
            decreases k,
        {
            k = k - 1;
            acc = c_add(c_mul(acc, x), self.coeffs[k]);
        }
        acc
    }

    /// Evaluates the polynomial at every entry of `x` at once, giving a
    /// matrix of the same shape whose entries are the values.
    pub fn eval(&self, x: &crate::cmat::CMatrix) -> (r: crate::cmat::CMatrix)
        requires
            self@.len() >= 1,
            x.wf(),
        ensures
            r.wf(),
            r.nrows == x.nrows,
            r.ncols == x.ncols,
            r.data@.len() == x.data@.len(),
            forall|t: int| 0 <= t < r.data@.len() ==> r.data@[t] == eval_at(self@, x.data@[t]),
    {
        let n = x.data.len();
        let mut out: Vec<Complex64> = Vec::new();
        let mut t: usize = 0;
        while t < n
            invariant
                self@.len() >= 1,
                n == x.data@.len(),
                t <= n,
                out@.len() == t,
                forall|j: int| 0 <= j < t ==> out@[j] == eval_at(self@, x.data@[j]),
            decreases n - t,
        {
            let v = self.eval_point(x.data[t]);
            out.push(v);
            t = t + 1;
        }
        crate::cmat::CMatrix { nrows: x.nrows, ncols: x.ncols, data: out }
    }

    /// The derivative: coefficient `i` of the result is `(i+1) * c[i+1]`.
    /// A constant (or empty) polynomial differentiates to the zero
    /// polynomial.
    pub fn diff(&self) -> (r: Poly)
        ensures
            self@.len() <= 1 ==> r@.len() == 1 && is_zero_poly(r@),
            self@.len() >= 2 ==> r@ == spec_diff(self@),
    {
        let n = self.coeffs.len();
        if n <= 1 {
            return Poly::zero();
        }
        let mut out: Vec<Complex64> = Vec::new();
        let mut i: usize = 1;
        while i < n
            invariant
                1 <= i <= n == self@.len(),
                out@.len() == i - 1,
                forall|j: int| 0 <= j < i - 1 ==> out@[j] == cmul(self@[j + 1], c_of_usize((j
                    + 1) as usize)),
            decreases n - i,
        {
            out.push(c_mul(self.coeffs[i], c_from_usize(i)));
            i = i + 1;
        }
        let r = Poly { coeffs: out };
        proof {
            assert(r@ =~= spec_diff(self@));
        }
        r
    }

    /// Divides every coefficient in place by the leading one, so that the
    /// roots are kept and the leading coefficient becomes one (up to
    /// rounding).
    pub(crate) fn make_monic(&mut self)
        requires
            old(self)@.len() >= 1,
        ensures
            final(self)@.len() == old(self)@.len(),
            forall|i: int|
                0 <= i < final(self)@.len() ==> final(self)@[i] == cdiv(
                    old(self)@[i],
                    old(self)@.last(),
                ),
    {
        let n = self.coeffs.len();
        let last = self.coeffs[n - 1];
        let mut i: usize = 0;
        while i < n
            invariant
                i <= n == self@.len() == old(self)@.len(),
                last == old(self)@.last(),
                forall|j: int| 0 <= j < i ==> self@[j] == cdiv(old(self)@[j], old(self)@.last()),
                forall|j: int| i <= j < n ==> self@[j] == old(self)@[j],
            decreases n - i,
        {
            let q = c_div(self.coeffs[i], last);
            self.coeffs[i] = q;
            i = i + 1;
        }
    }

    /// Coefficientwise sum; the longer polynomial's tail is kept.
    pub fn add(&self, rhs: &Poly) -> (r: Poly)
        ensures
            r@ == padd(self@, rhs@),
    {
        let an = self.coeffs.len();
        let bn = rhs.coeffs.len();
        let n = if an >= bn {
            an
        } else {
            bn
        };
        let mut out: Vec<Complex64> = Vec::new();
        let mut k: usize = 0;
        while k < n
            invariant
                n == spec_max(an as int, bn as int),
                an == self@.len(),
                bn == rhs@.len(),
                k <= n,
                out@.len() == k,
                forall|j: int| 0 <= j < k ==> out@[j] == padd(self@, rhs@)[j],
            decreases n - k,
        {
            if k < an && k < bn {
                out.push(c_add(self.coeffs[k], rhs.coeffs[k]));
            } else if k < an {
                out.push(self.coeffs[k]);
            } else {
                out.push(rhs.coeffs[k]);
            }
            k = k + 1;
        }
        let r = Poly { coeffs: out };
        proof {
            assert(r@ =~= padd(self@, rhs@));
        }
        r
    }

    /// Coefficientwise difference; coefficients only the right side has are
    /// negated.
    pub fn sub(&self, rhs: &Poly) -> (r: Poly)
        ensures
            r@ == psub(self@, rhs@),
    {
        let an = self.coeffs.len();
        let bn = rhs.coeffs.len();
        let n = if an >= bn {
            an
        } else {
            bn
        };
        let mut out: Vec<Complex64> = Vec::new();
        let mut k: usize = 0;
        while k < n
            invariant
                n == spec_max(an as int, bn as int),
                an == self@.len(),
                bn == rhs@.len(),
                k <= n,
                out@.len() == k,
                forall|j: int| 0 <= j < k ==> out@[j] == psub(self@, rhs@)[j],
            decreases n - k,
        {
            if k < an && k < bn {
                out.push(c_sub(self.coeffs[k], rhs.coeffs[k]));
            } else if k < an {
                out.push(self.coeffs[k]);
            } else {
                out.push(c_neg(rhs.coeffs[k]));
            }
            k = k + 1;
        }
        let r = Poly { coeffs: out };
        proof {
            assert(r@ =~= psub(self@, rhs@));
        }
        r
    }

    /// Every coefficient multiplied by the scalar `c`.
    pub fn scalar_mul(&self, c: Complex64) -> (r: Poly)
        ensures
            r@ == smul(c, self@),
    {
        let n = self.coeffs.len();
        let mut out: Vec<Complex64> = Vec::new();
        let mut k: usize = 0;
        while k < n
            invariant
                n == self@.len(),
                k <= n,
                out@.len() == k,
                forall|j: int| 0 <= j < k ==> out@[j] == cmul(c, self@[j]),
            decreases n - k,
        {
            out.push(c_mul(c, self.coeffs[k]));
            k = k + 1;
        }
        let r = Poly { coeffs: out };
        proof {
            assert(r@ =~= smul(c, self@));
        }
        r
    }

    /// Multiplies by the monic linear factor `(c + x)`. The length grows by
    /// one and the leading coefficient is kept as it is, so a normalized
    /// polynomial stays normalized.
    pub(crate) fn mul_linear(&self, c: Complex64) -> (r: Poly)
        requires
            self@.len() >= 1,
        ensures
            r@.len() == self@.len() + 1,
            forall|k: int| 0 <= k <= self@.len() ==> r@[k] == lin_mul_at(self@, c, k),
            r@.last() == self@.last(),
    {
        let n = self.coeffs.len();
        let mut out: Vec<Complex64> = Vec::new();
        out.push(c_mul(c, self.coeffs[0]));
        let mut k: usize = 1;
        while k < n
            invariant
                1 <= k <= n == self@.len(),
                out@.len() == k,
                forall|j: int| 0 <= j < k ==> out@[j] == lin_mul_at(self@, c, j),
            decreases n - k,
        {
            out.push(c_add(self.coeffs[k - 1], c_mul(c, self.coeffs[k])));
            k = k + 1;
        }
        out.push(self.coeffs[n - 1]);
        Poly { coeffs: out }
    }

    /// Synthetic division by the monic linear factor `(x - r)`: the
    /// quotient polynomial, one degree lower, with the leading coefficient
    /// kept, so deflation preserves normalization.
    pub(crate) fn deflate(&self, root: Complex64) -> (q: Poly)
        requires
            self@.len() >= 2,
        ensures
            q@.len() == self@.len() - 1,
            q@ == deflate_seq(self@, root),
            forall|k: int| 0 <= k < q@.len() ==> q@[k] == deflate_at(self@, root, k),
            q@.last() == self@.last(),
    {
        let n = self.coeffs.len();
        let mut rev: Vec<Complex64> = Vec::new();
        // built from the top coefficient down, then reversed
        rev.push(self.coeffs[n - 1]);
        let mut k: usize = n - 2;
        while k > 0
            invariant
                k <= n - 2,
                n == self@.len() >= 2,
                rev@.len() == n - 1 - k,
                forall|j: int| 0 <= j < rev@.len() ==> rev@[j] == deflate_at(self@, root, n - 2 - j),
            decreases k,
        {
            k = k - 1;
            let top = rev[rev.len() - 1];
            rev.push(c_add(self.coeffs[k + 1], c_mul(root, top)));
        }
        let mut out: Vec<Complex64> = Vec::new();
        let mut i: usize = rev.len();
        while i > 0
            invariant
                i <= rev@.len() == n - 1,
                out@.len() == n - 1 - i,
                forall|j: int| 0 <= j < out@.len() ==> out@[j] == rev@[n - 2 - j],
            decreases i,
        {
            i = i - 1;
            out.push(rev[i]);
        }
        let q = Poly { coeffs: out };
        proof {
            assert(forall|j: int| 0 <= j < q@.len() ==> q@[j] == deflate_at(self@, root, j));
            assert(q@.last() == deflate_at(self@, root, n - 2 as int));
            assert(q@ =~= deflate_seq(self@, root));
        }
        q
    }
}

/// Whether every value in the vector has finite parts.
pub fn all_finite(v: &Vec<Complex64>) -> (r: bool)
    ensures
        r == all_finite_seq(v@),
{
    let mut i: usize = 0;
    while i < v.len()
        invariant
            i <= v@.len(),
            forall|j: int| 0 <= j < i ==> is_finite_c(#[trigger] v@[j]),
        decreases v@.len() - i,
    {
        if !c_is_finite(&v[i]) {
            return false;
        }
        i = i + 1;
    }
    true
}

/// The first position of `out` whose value is not below `x` in the
/// magnitude-then-phase order; everything before it is below `x`, and for
/// finite values `x` is below the value found there.
fn insert_pos(out: &Vec<Complex64>, x: &Complex64) -> (j: usize)
    ensures
        j <= out@.len(),
        forall|t: int| 0 <= t < j ==> mag_phase_le(#[trigger] out@[t], *x),
        j < out@.len() ==> !mag_phase_le(out@[j as int], *x),
        j < out@.len() && is_finite_c(out@[j as int]) && is_finite_c(*x) ==> mag_phase_le(
            *x,
            out@[j as int],
        ),
{
    let mut j: usize = 0;
    while j < out.len()
        invariant
            j <= out@.len(),
            forall|t: int| 0 <= t < j ==> mag_phase_le(#[trigger] out@[t], *x),
        decreases out@.len() - j,
    {
        if !c_mag_phase_le(&out[j], x) {
            return j;
        }
        j = j + 1;
    }
    j
}

/// The lowest index of `a` that contributes to coefficient `k` of a product
/// with a polynomial of length `n`.
pub open spec fn conv_lo(k: int, n: int) -> int {
    if k >= n - 1 {
        k - (n - 1)
    } else {
        0
    }
}

/// The highest index of `a` (length `m`) that contributes to coefficient `k`.
pub open spec fn conv_hi(k: int, m: int) -> int {
    if k < m - 1 {
        k
    } else {
        m - 1
    }
}

/// The partial convolution sum `a[lo]*b[k-lo] + ... + a[i]*b[k-i]`, added up
/// in ascending order of `i`.
pub open spec fn conv_sum(a: Seq<Complex64>, b: Seq<Complex64>, k: int, i: int) -> Complex64
    recommends
        conv_lo(k, b.len() as int) <= i <= conv_hi(k, a.len() as int),
    decreases i,
{
    if i <= conv_lo(k, b.len() as int) {
        cmul(a[i], b[k - i])
    } else {
        cadd(conv_sum(a, b, k, i - 1), cmul(a[i], b[k - i]))
    }
}

/// Coefficient `k` of the product of `a` and `b`.
pub open spec fn conv_at(a: Seq<Complex64>, b: Seq<Complex64>, k: int) -> Complex64 {
    conv_sum(a, b, k, conv_hi(k, a.len() as int))
}

/// The product of two nonempty polynomials: the dense convolution of their
/// coefficients.
pub open spec fn conv(a: Seq<Complex64>, b: Seq<Complex64>) -> Seq<Complex64>
    recommends
        a.len() >= 1,
        b.len() >= 1,
{
    Seq::new((a.len() + b.len() - 1) as nat, |k: int| conv_at(a, b, k))
}

/// The `p`-th power of `s` for `p >= 1`: repeated convolution from the left.
pub open spec fn spec_pow(s: Seq<Complex64>, p: nat) -> Seq<Complex64>
    recommends
        p >= 1,
        s.len() >= 1,
    decreases p,
{
    if p <= 1 {
        s
    } else {
        conv(spec_pow(s, (p - 1) as nat), s)
    }
}

/// The composition `f(x)`: the sum of `f[i] * x^i`, accumulated in ascending
/// order of `i`, with the `i = 0` term contributing the constant `f[0]`
/// directly.
pub open spec fn spec_compose(f: Seq<Complex64>, x: Seq<Complex64>) -> Seq<Complex64>
    recommends
        f.len() >= 1,
        x.len() >= 1,
    decreases f.len(),
{
    if f.len() <= 1 {
        seq![f[0]]
    } else {
        padd(spec_compose(f.drop_last(), x), smul(f.last(), spec_pow(x, (f.len() - 1) as nat)))
    }
}

/// The coefficients of `(c + x) * s`, the multiply-by-a-monic-linear-factor
/// recurrence over a whole sequence.
pub open spec fn mul_lin_seq(s: Seq<Complex64>, c: Complex64) -> Seq<Complex64>
    recommends
        s.len() >= 1,
{
    Seq::new(s.len() + 1, |k: int| lin_mul_at(s, c, k))
}

/// The product of the monic linear factors `(x - r)` over the roots `rs`,
/// folded from the left onto the constant polynomial `[base]`.
pub open spec fn lin_fold(rs: Seq<Complex64>, base: Complex64) -> Seq<Complex64>
    decreases rs.len(),
{
    if rs.len() == 0 {
        seq![base]
    } else {
        mul_lin_seq(lin_fold(rs.drop_last(), base), cneg(rs.last()))
    }
}

/// The slope of the line through two points, `(y2 - y1) / (x2 - x1)`.
pub open spec fn line_slope(p1: (Complex64, Complex64), p2: (Complex64, Complex64)) -> Complex64 {
    cdiv(csub(p2.1, p1.1), csub(p2.0, p1.0))
}

/// The offset of the line through two points, `y1 - slope * x1`.
pub open spec fn line_offset(p1: (Complex64, Complex64), p2: (Complex64, Complex64)) -> Complex64 {
    csub(p1.1, cmul(line_slope(p1, p2), p1.0))
}

impl Poly {
    /// The product of two polynomials, by dense convolution of their
    /// coefficients.
    pub fn mul(&self, rhs: &Poly) -> (r: Poly)
        requires
            self@.len() >= 1,
            rhs@.len() >= 1,
            self@.len() + rhs@.len() <= usize::MAX,
        ensures
            r@ == conv(self@, rhs@),
            r@.len() == self@.len() + rhs@.len() - 1,
    {
        let m = self.coeffs.len();
        let n = rhs.coeffs.len();
        let total = m + n - 1;
        let mut out: Vec<Complex64> = Vec::new();
        let mut k: usize = 0;
        while k < total
            invariant
                m == self@.len() >= 1,
                n == rhs@.len() >= 1,
                total == m + n - 1 <= usize::MAX,
                k <= total,
                out@.len() == k,
                forall|j: int| 0 <= j < k ==> out@[j] == conv_at(self@, rhs@, j),
            decreases total - k,
        {
            let lo = if k >= n - 1 {
                k - (n - 1)
            } else {
                0
            };
            let hi = if k < m - 1 {
                k
            } else {
                m - 1
            };
            let mut acc = c_mul(self.coeffs[lo], rhs.coeffs[k - lo]);
            let mut i = lo;
            while i < hi
                invariant
                    m == self@.len() >= 1,
                    n == rhs@.len() >= 1,
                    k < m + n - 1,
                    lo == conv_lo(k as int, n as int),
                    hi == conv_hi(k as int, m as int),
                    lo <= i <= hi,
                    acc == conv_sum(self@, rhs@, k as int, i as int),
                decreases hi - i,
            {
                i = i + 1;
                acc = c_add(acc, c_mul(self.coeffs[i], rhs.coeffs[k - i]));
            }
            out.push(acc);
            k = k + 1;
        }
        let r = Poly { coeffs: out };
        proof {
            assert(r@ =~= conv(self@, rhs@));
        }
        r
    }

    /// The `pow`-th power by repeated multiplication; the zeroth power is
    /// the constant one.
    pub fn pow_usize(&self, pow: usize) -> (r: Poly)
        requires
            spec_is_normalized(self@),
            self@.len() >= 1,
            pow * (self@.len() - 1) + 1 < usize::MAX,
        ensures
            pow == 0 ==> is_one_poly(r@),
            pow >= 1 ==> r@ == spec_pow(self@, pow as nat),
            r@.len() == pow * (self@.len() - 1) + 1,
    {
        let l = self.coeffs.len();
        if pow == 0 {
            return Poly::one();
        }
        if pow == 1 {
            return self.clone();
        }
        let mut res = self.clone();
        let mut i: usize = 1;
        while i < pow
            invariant
                l == self@.len() >= 1,
                pow * (l - 1) + 1 < usize::MAX,
                1 <= i <= pow,
                res@ == spec_pow(self@, i as nat),
                res@.len() == i * (l - 1) + 1,
            decreases pow - i,
        {
            proof {
                vstd::arithmetic::mul::lemma_mul_inequality(
                    i as int + 1,
                    pow as int,
                    l as int - 1,
                );
                assert((i + 1) * (l - 1) == i * (l - 1) + (l - 1)) by (nonlinear_arith);
            }
            res = res.mul(self);
            i = i + 1;
        }
        res
    }

    /// The `pow`-th power by repeated multiplication.
    pub fn pow(&self, pow: u32) -> (r: Poly)
        requires
            spec_is_normalized(self@),
            self@.len() >= 1,
            pow * (self@.len() - 1) + 1 < usize::MAX,
        ensures
            pow == 0 ==> is_one_poly(r@),
            pow >= 1 ==> r@ == spec_pow(self@, pow as nat),
            r@.len() == pow * (self@.len() - 1) + 1,
    {
        self.pow_usize(pow as usize)
    }

    /// Substitutes `x` into `self` and expands: the sum of `f[i] * x^i`.
    /// Composing with the constant one returns `self` unchanged, and a zero
    /// polynomial on either side collapses to zero.
    pub fn compose(&self, x: &Poly) -> (r: Poly)
        requires
            spec_is_normalized(self@),
            spec_is_normalized(x@),
            (self@.len() as int - 1) * (x@.len() as int - 1) + 1 < usize::MAX,
        ensures
            is_zero_poly(self@) || is_zero_poly(x@) ==> r@.len() == 1 && is_zero_c(r@[0]),
            !is_zero_poly(self@) && !is_zero_poly(x@) && is_one_poly(x@) ==> r@ == self@,
            !is_zero_poly(self@) && !is_zero_poly(x@) && !is_one_poly(x@) && is_one_poly(self@)
                ==> r@ == x@,
            !is_zero_poly(self@) && !is_zero_poly(x@) && !is_one_poly(x@) && !is_one_poly(self@)
                ==> r@ == spec_compose(self@, x@),
    {
        if self.is_zero() || x.is_zero() {
            return Poly::zero();
        }
        if x.is_one() {
            return self.clone();
        }
        if self.is_one() {
            return x.clone();
        }
        let m = self.coeffs.len();
        let xl = x.coeffs.len();
        let mut res = Poly { coeffs: prefix_vec(&self.coeffs, 1) };
        proof {
            assert(self@.take(1) =~= seq![self@[0]]);
            assert(self@.take(1) =~= spec_compose(self@.take(1), x@));
        }
        let mut i: usize = 1;
        while i < m
            invariant
                m == self@.len() >= 1,
                xl == x@.len() >= 1,
                spec_is_normalized(x@),
                (m as int - 1) * (xl as int - 1) + 1 < usize::MAX,
                1 <= i <= m,
                res@ == spec_compose(self@.take(i as int), x@),
            decreases m - i,
        {
            proof {
                vstd::arithmetic::mul::lemma_mul_inequality(
                    i as int,
                    m as int - 1,
                    xl as int - 1,
                );
            }
            let term = x.pow_usize(i).scalar_mul(self.coeffs[i]);
            res = res.add(&term);
            proof {
                assert(self@.take(i as int + 1).drop_last() =~= self@.take(i as int));
                assert(self@.take(i as int + 1).last() == self@[i as int]);
            }
            i = i + 1;
        }
        proof {
            assert(self@.take(m as int) =~= self@);
        }
        res
    }

    /// Long division with remainder by a normalized, nonzero divisor. The
    /// divisor is first scaled monic by its leading coefficient; one
    /// elimination step then runs for each quotient coefficient, from the
    /// highest down; the quotient coefficients are the eliminated tops
    /// divided back by the leading coefficient. The remainder keeps strictly
    /// fewer coefficients than the divisor.
    pub fn div_rem(self, rhs: &Poly) -> (qr: (Poly, Poly))
        requires
            spec_is_normalized(self@),
            spec_is_normalized(rhs@),
            rhs@.len() >= 1,
            !(rhs@.len() == 1 && is_zero_c(rhs@[0])),
        ensures
            qr.1@.len() < rhs@.len() || (qr.1@.len() == 1 && is_zero_c(qr.1@[0])),
            self@.len() < rhs@.len() ==> qr.0@.len() == 1 && is_zero_c(qr.0@[0]) && qr.1@
                == self@,
            self@.len() >= rhs@.len() && rhs@.len() == 1 ==> qr.0@.len() == self@.len() && (
            forall|i: int| 0 <= i < self@.len() ==> qr.0@[i] == cdiv(self@[i], rhs@[0]))
                && qr.1@.len() == 1 && is_zero_c(qr.1@[0]),
            self@.len() >= rhs@.len() && rhs@.len() >= 2 ==> {
                let d = Seq::new((rhs@.len() - 1) as nat, |j: int| cdiv(rhs@[j], rhs@.last()));
                let delta = self@.len() - rhs@.len();
                &&& qr.0@.len() == delta + 1
                &&& qr.1@.len() == rhs@.len() - 1
                &&& qr.1@ == elim_from(self@, d, delta as int, 0).take(rhs@.len() - 1)
                &&& forall|k: int|
                    0 <= k <= delta ==> qr.0@[k] == cdiv(
                        elim_from(self@, d, delta as int, k + 1)[k + rhs@.len() - 1],
                        rhs@.last(),
                    )
            },
    {
        let m = self.coeffs.len();
        let n = rhs.coeffs.len();
        if m < n {
            return (Poly::zero(), self);
        }
        if n == 1 {
            let mut out: Vec<Complex64> = Vec::new();
            let mut i: usize = 0;
            while i < m
                invariant
                    m == self@.len(),
                    rhs@.len() == 1,
                    i <= m,
                    out@.len() == i,
                    forall|j: int| 0 <= j < i ==> out@[j] == cdiv(self@[j], rhs@[0]),
                decreases m - i,
            {
                out.push(c_div(self.coeffs[i], rhs.coeffs[0]));
                i = i + 1;
            }
            return (Poly { coeffs: out }, Poly::zero());
        }
        let ghost s = self@;
        let ghost dg = Seq::new((rhs@.len() - 1) as nat, |j: int| cdiv(rhs@[j], rhs@.last()));
        let delta = m - n;
        let scale = rhs.coeffs[n - 1];
        let mut d: Vec<Complex64> = Vec::new();
        let mut j: usize = 0;
        while j < n - 1
            invariant
                n == rhs@.len() >= 2,
                scale == rhs@.last(),
                j <= n - 1,
                d@.len() == j,
                forall|t: int| 0 <= t < j ==> d@[t] == cdiv(rhs@[t], rhs@.last()),
            decreases n - 1 - j,
        {
            d.push(c_div(rhs.coeffs[j], scale));
            j = j + 1;
        }
        proof {
            assert(d@ =~= dg);
        }
        let mut rem = prefix_vec(&self.coeffs, m);
        proof {
            assert(s.take(m as int) =~= s);
        }
        let mut qrev: Vec<Complex64> = Vec::new();
        let mut k: usize = delta + 1;
        while k > 0
            invariant
                m == s.len(),
                n == rhs@.len() >= 2,
                m >= n,
                delta == m - n,
                scale == rhs@.last(),
                d@ == dg,
                d@.len() == n - 1,
                k <= delta + 1,
                rem@ == elim_from(s, dg, delta as int, k as int),
                rem@.len() == m,
                qrev@.len() == delta + 1 - k,
                forall|t: int|
                    0 <= t < qrev@.len() ==> qrev@[t] == cdiv(
                        elim_from(s, dg, delta as int, delta - t + 1)[delta - t + n - 1],
                        rhs@.last(),
                    ),
            decreases k,
        {
            k = k - 1;
            let ghost prev = rem@;
            let top = rem[k + n - 1];
            qrev.push(c_div(top, scale));
            let mut j: usize = 0;
            while j < n - 1
                invariant
                    n >= 2,
                    k + n - 1 < m,
                    rem@.len() == m == prev.len(),
                    d@ == dg,
                    d@.len() == n - 1,
                    j <= n - 1,
                    top == prev[k + n - 1],
                    forall|t: int| k <= t < k + j ==> rem@[t] == csub(
                        prev[t],
                        cmul(dg[t - k], prev[k + n - 1]),
                    ),
                    forall|t: int| 0 <= t < k ==> rem@[t] == prev[t],
                    forall|t: int| k + j <= t < m ==> rem@[t] == prev[t],
                decreases n - 1 - j,
            {
                let upd = c_sub(rem[k + j], c_mul(d[j], top));
                rem[k + j] = upd;
                j = j + 1;
            }
            proof {
                assert(rem@ =~= elim_one(prev, dg, k as int));
            }
        }
        let rem_out = prefix_vec(&rem, n - 1);
        let mut q: Vec<Complex64> = Vec::new();
        let mut i: usize = qrev.len();
        while i > 0
            invariant
                i <= qrev@.len() == delta + 1,
                q@.len() == delta + 1 - i,
                forall|t: int| 0 <= t < q@.len() ==> q@[t] == qrev@[delta - t],
            decreases i,
        {
            i = i - 1;
            q.push(qrev[i]);
        }
        let qp = Poly { coeffs: q };
        let rp = Poly { coeffs: rem_out };
        proof {
            assert(forall|t: int|
                0 <= t <= delta ==> qp@[t] == cdiv(
                    elim_from(s, dg, delta as int, t + 1)[t + n - 1],
                    rhs@.last(),
                ));
        }
        (qp, rp)
    }

    /// The monic polynomial whose roots are exactly the given values: the
    /// product of `(x - r)` over the roots, taken in magnitude/phase order.
    /// An empty root list gives the constant one.
    pub fn from_roots(roots: &[Complex64]) -> (r: Poly)
        ensures
            r@.len() == roots@.len() + 1,
            is_one_c(r@.last()),
            spec_is_normalized(r@),
            roots@.len() == 0 ==> is_one_poly(r@),
            exists|order: Seq<Complex64>|
                #![trigger lin_fold(order, r@.last())]
                order.to_multiset() == roots@.to_multiset() && r@ == lin_fold(
                    order,
                    r@.last(),
                ),
    {
        let rv = vstd::slice::slice_to_vec(roots);
        if rv.len() == 0 {
            let r = Poly::one();
            proof {
                assert(roots@ =~= Seq::<Complex64>::empty());
                assert(r@ =~= lin_fold(roots@, r@.last()));
            }
            return r;
        }
        let sorted = sort_by_mag_phase(&rv);
        let mut acc = Poly::one();
        let ghost onev = acc@[0];
        proof {
            assert(acc@ =~= lin_fold(sorted@.take(0), onev));
        }
        let mut i: usize = 0;
        while i < sorted.len()
            invariant
                sorted@.len() == roots@.len(),
                i <= sorted@.len(),
                acc@.len() == i + 1,
                acc@.last() == onev,
                is_one_c(onev),
                !is_zero_c(onev),
                acc@ == lin_fold(sorted@.take(i as int), onev),
            decreases sorted@.len() - i,
        {
            let ghost prev = acc@;
            acc = acc.mul_linear(c_neg(sorted[i]));
            proof {
                assert(acc@ =~= mul_lin_seq(prev, cneg(sorted@[i as int])));
                assert(sorted@.take(i as int + 1).drop_last() =~= sorted@.take(i as int));
                assert(sorted@.take(i as int + 1).last() == sorted@[i as int]);
            }
            i = i + 1;
        }
        proof {
            assert(sorted@.take(sorted@.len() as int) =~= sorted@);
            assert(acc@ == lin_fold(sorted@, acc@.last()));
        }
        acc
    }

    /// The line `offset + slope * x`; a zero slope leaves only the constant
    /// term.
    pub fn line(offset: Complex64, slope: Complex64) -> (r: Poly)
        ensures
            is_zero_c(slope) ==> r@ == seq![offset],
            !is_zero_c(slope) ==> r@ == seq![offset, slope],
    {
        let mut coeffs: Vec<Complex64> = Vec::new();
        coeffs.push(offset);
        if !c_is_zero(&slope) {
            coeffs.push(slope);
        }
        let r = Poly { coeffs };
        proof {
            if is_zero_c(slope) {
                assert(r@ =~= seq![offset]);
            } else {
                assert(r@ =~= seq![offset, slope]);
            }
        }
        r
    }

    /// The line through two points `(x, y)`: its slope is the difference
    /// quotient, its offset anchors the first point.
    pub fn line_from_points(p1: (Complex64, Complex64), p2: (Complex64, Complex64)) -> (r: Poly)
        ensures
            is_zero_c(line_slope(p1, p2)) ==> r@ == seq![line_offset(p1, p2)],
            !is_zero_c(line_slope(p1, p2)) ==> r@ == seq![
                line_offset(p1, p2),
                line_slope(p1, p2),
            ],
    {
        let slope = c_div(c_sub(p2.1, p1.1), c_sub(p2.0, p1.0));
        let offset = c_sub(p1.1, c_mul(slope, p1.0));
        Poly::line(offset, slope)
    }
}

/// One elimination step of long division at quotient position `k`: the
/// window `rem[k .. k + d.len())` drops the monic divisor head `d` times the
/// window's top value `rem[k + d.len()]`.
pub open spec fn elim_one(rem: Seq<Complex64>, d: Seq<Complex64>, k: int) -> Seq<Complex64> {
    Seq::new(
        rem.len(),
        |t: int|
            if k <= t < k + d.len() {
                csub(rem[t], cmul(d[t - k], rem[k + d.len()]))
            } else {
                rem[t]
            },
    )
}

/// The remainder vector after the elimination steps `delta, delta-1, ..., k`.
pub open spec fn elim_from(rem: Seq<Complex64>, d: Seq<Complex64>, delta: int, k: int) -> Seq<
    Complex64,
>
    decreases delta - k + 1,
{
    if k > delta || k < 0 {
        rem
    } else {
        elim_one(elim_from(rem, d, delta, k + 1), d, k)
    }
}

/// Sorts complex values by magnitude, then phase, by insertion; the result
/// holds exactly the same values, and when they are all finite, neighbours
/// come out in order. (NaN magnitudes or phases admit no order, so nothing
/// is promised of non-finite values.)
pub(crate) fn sort_by_mag_phase(v: &Vec<Complex64>) -> (r: Vec<Complex64>)
    ensures
        r@.len() == v@.len(),
        r@.to_multiset() == v@.to_multiset(),
        all_finite_seq(r@) ==> sorted_mag_phase(r@),
{
    let mut out: Vec<Complex64> = Vec::new();
    proof {
        assert(v@.take(0) =~= Seq::<Complex64>::empty());
    }
    let mut i: usize = 0;
    while i < v.len()
        invariant
            i <= v@.len(),
            out@.len() == i,
            out@.to_multiset() == v@.take(i as int).to_multiset(),
            all_finite_seq(out@) ==> sorted_mag_phase(out@),
        decreases v@.len() - i,
    {
        let x = v[i];
        let j = insert_pos(&out, &x);
        let ghost prev = out@;
        out.insert(j, x);
        proof {
            vstd::seq_lib::to_multiset_insert(prev, j as int, x);
            vstd::seq_lib::to_multiset_build(v@.take(i as int), x);
            assert(v@.take(i as int).push(x) =~= v@.take(i as int + 1));
            assert(forall|t: int| 0 <= t < j ==> out@[t] == prev[t]);
            assert(out@[j as int] == x);
            assert(forall|t: int| j < t < out@.len() ==> out@[t] == prev[t - 1]);
            if all_finite_seq(out@) {
                assert forall|t: int| 0 <= t < prev.len() implies is_finite_c(
                    #[trigger] prev[t],
                ) by {
                    if t < j {
                        assert(prev[t] == out@[t]);
                    } else {
                        assert(prev[t] == out@[t + 1]);
                    }
                }
                assert forall|t: int|
                    0 <= t < out@.len() - 1 implies mag_phase_le(
                    #[trigger] out@[t],
                    out@[t + 1],
                ) by {
                    if t + 1 < j {
                        assert(out@[t] == prev[t] && out@[t + 1] == prev[t + 1]);
                    } else if t + 1 == j {
                        assert(out@[t] == prev[t] && out@[t + 1] == x);
                    } else if t == j {
                        assert(out@[t] == x && out@[t + 1] == prev[t]);
                        assert(is_finite_c(prev[t]) && is_finite_c(x));
                    } else {
                        assert(out@[t] == prev[t - 1] && out@[t + 1] == prev[t]);
                    }
                }
            }
        }
        i = i + 1;
    }
    proof {
        assert(v@.take(v@.len() as int) =~= v@);
    }
    out
}

} // verus!
