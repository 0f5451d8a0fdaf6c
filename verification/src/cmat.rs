//! A dense complex matrix in row-major order, and the trusted gateway to
//! the eigenvalue primitive.
//!
//! The matrix layout, the conditioning reversal and the broadcast
//! evaluation are verified here; only the eigenvalue decomposition itself
//! is delegated to nalgebra behind trusted wrappers.

use vstd::prelude::*;

use num_complex::Complex64;

verus! {

/// A dense matrix of complex scalars, stored row-major: the entry at row
/// `i`, column `j` sits at index `i * ncols + j`.
pub struct CMatrix {
    pub nrows: usize,
    pub ncols: usize,
    pub data: Vec<Complex64>,
}

impl CMatrix {
    /// The storage holds exactly one value per entry.
    pub open spec fn wf(&self) -> bool {
        self.data@.len() == self.nrows * self.ncols
    }

    /// The entry at row `i`, column `j`.
    pub open spec fn spec_entry(&self, i: int, j: int) -> Complex64 {
        self.data@[i * self.ncols + j]
    }

    /// A matrix from its row-major entries.
    pub fn new(nrows: usize, ncols: usize, data: Vec<Complex64>) -> (r: CMatrix)
        requires
            data@.len() == nrows * ncols,
        ensures
            r.wf(),
            r.nrows == nrows,
            r.ncols == ncols,
            r.data@ == data@,
    {
        CMatrix { nrows, ncols, data }
    }

    /// Reads the entry at row `i`, column `j`.
    pub fn entry(&self, i: usize, j: usize) -> (r: Complex64)
        requires
            self.wf(),
            i < self.nrows,
            j < self.ncols,
        ensures
            r == self.spec_entry(i as int, j as int),
    {
        // reading the length pins the storage size, and with it the index,
        // inside the usize range
        let _bound = self.data.len();
        proof {
            assert(i * self.ncols + j < self.nrows * self.ncols) by (nonlinear_arith)
                requires
                    i < self.nrows,
                    j < self.ncols,
            ;
        }
        self.data[i * self.ncols + j]
    }

    /// The entry that the conditioning reversal places at row `a`, column
    /// `b`.
    spec fn rev_entry(&self, a: int, b: int) -> Complex64 {
        self.spec_entry(self.nrows - 1 - a, self.ncols - 1 - b)
    }

    /// The conditioning transform applied before eigenvalue extraction:
    /// both the row order and the column order are reversed. This is an
    /// orthogonal similarity transform, so the eigenvalues are unchanged,
    /// while the eigenvalue algorithm behaves better on the reversed
    /// companion form.
    pub(crate) fn reversed(&self) -> (r: CMatrix)
        requires
            self.wf(),
        ensures
            r.wf(),
            r.nrows == self.nrows,
            r.ncols == self.ncols,
            forall|i: int, j: int|
                0 <= i < self.nrows && 0 <= j < self.ncols ==> #[trigger] r.spec_entry(i, j)
                    == self.spec_entry(self.nrows - 1 - i, self.ncols - 1 - j),
    {
        let nr = self.nrows;
        let nc = self.ncols;
        let mut data: Vec<Complex64> = Vec::new();
        let mut i: usize = 0;
        while i < nr
            invariant
                self.wf(),
                nr == self.nrows,
                nc == self.ncols,
                i <= nr,
                data@.len() == i * nc,
                forall|a: int, b: int|
                    0 <= a < i && 0 <= b < nc ==> data@[a * nc + b] == #[trigger] self.rev_entry(
                        a,
                        b,
                    ),
            decreases nr - i,
        {
            let mut j: usize = 0;
            while j < nc
                invariant
                    self.wf(),
                    nr == self.nrows,
                    nc == self.ncols,
                    i < nr,
                    j <= nc,
                    data@.len() == i * nc + j,
                    forall|a: int, b: int|
                        0 <= a < i && 0 <= b < nc ==> data@[a * nc + b]
                            == #[trigger] self.rev_entry(a, b),
                    forall|b: int|
                        0 <= b < j ==> data@[i * nc + b] == #[trigger] self.rev_entry(
                            i as int,
                            b,
                        ),
                decreases nc - j,
            {
                let v = self.entry(nr - 1 - i, nc - 1 - j);
                data.push(v);
                proof {
                    assert forall|a: int, b: int| 0 <= a < i && 0 <= b < nc implies data@[a * nc
                        + b] == #[trigger] self.rev_entry(a, b) by {
                        assert(a * nc + b < i * nc) by (nonlinear_arith)
                            requires
                                0 <= a < i as int,
                                0 <= b < nc as int,
                        ;
                    }
                }
                j = j + 1;
            }
            proof {
                assert(i * nc + nc == (i + 1) * nc) by (nonlinear_arith);
            }
            i = i + 1;
        }
        let r = CMatrix { nrows: nr, ncols: nc, data };
        proof {
            assert forall|i: int, j: int|
                0 <= i < self.nrows && 0 <= j < self.ncols implies #[trigger] r.spec_entry(i, j)
                == self.spec_entry(self.nrows - 1 - i, self.ncols - 1 - j) by {
                assert(data@[i * nc + j] == self.rev_entry(i, j));
            }
        }
        r
    }
}

/// Bounded eigenvalue extraction. Relies on nalgebra's
/// `DMatrix::from_row_slice` (converting the row-major storage),
/// `Matrix::try_schur`, whose documentation says it returns `None` when the
/// decomposition does not converge within `max_iter` iterations, and
/// `Schur::eigenvalues`, which returns one value per matrix row when the
/// triangular factor exposes them. The tolerance handed on is the magnitude
/// of `epsilon`. Nothing is assumed about the values beyond their count;
/// `max_iter` must be positive because nalgebra treats zero as "iterate
/// forever".
#[verifier::external_body]
pub(crate) fn schur_eigenvalues(
    data: &Vec<Complex64>,
    n: usize,
    epsilon: Complex64,
    max_iter: usize,
) -> (r: Option<Vec<Complex64>>)
    requires
        data@.len() == n * n,
        n >= 1,
        max_iter >= 1,
    ensures
        r matches Some(v) ==> v@.len() == n as int,
{
    let m = nalgebra::DMatrix::<Complex64>::from_row_slice(n, n, data.as_slice());
    m.try_schur(epsilon.norm(), max_iter).and_then(|s| s.eigenvalues()).map(
        |v| v.as_slice().to_vec(),
    )
}

/// Best-effort eigenvalue extraction with nalgebra's own defaults. Relies
/// on `DMatrix::from_row_slice` and `Matrix::eigenvalues`, which returns one
/// value per matrix row, or `None` when it cannot produce them. Its
/// iteration is not bounded by a caller budget, a documented risk of the
/// underlying primitive that the bounded wrapper above avoids.
#[verifier::external_body]
pub(crate) fn matrix_eigenvalues(data: &Vec<Complex64>, n: usize) -> (r: Option<Vec<Complex64>>)
    requires
        data@.len() == n * n,
        n >= 1,
    ensures
        r matches Some(v) ==> v@.len() == n as int,
{
    let m = nalgebra::DMatrix::<Complex64>::from_row_slice(n, n, data.as_slice());
    m.eigenvalues().map(|v| v.as_slice().to_vec())
}

} // verus!
