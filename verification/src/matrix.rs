//! Dense matrices of exact rational scalars, stored row-major.
//!
//! Contracts speak of a matrix through `rep()`: the sequence of its rows,
//! each row a sequence of rational representations.

use vstd::prelude::*;

use crate::frac::{frac_wf, fracv, Frac};

verus! {

/// A dense `nrows x ncols` matrix of rationals in row-major order.
#[derive(Debug)]
pub struct Matrix {
    pub nrows: usize,
    pub ncols: usize,
    pub data: Vec<Frac>,
}

/// The grid has `nr` rows of `nc` entries each.
pub open spec fn grid_dims(m: Seq<Seq<(int, int)>>, nr: int, nc: int) -> bool {
    m.len() == nr && forall|i: int| 0 <= i < nr ==> (#[trigger] m[i]).len() == nc
}

/// Every entry of the grid has a positive denominator.
pub open spec fn grid_wf(m: Seq<Seq<(int, int)>>) -> bool {
    forall|i: int, j: int| 0 <= i < m.len() && 0 <= j < m[i].len() ==> (#[trigger] m[i][j]).1 > 0
}

proof fn lemma_rm_index(i: int, j: int, nr: int, nc: int)
    requires
        0 <= i < nr,
        0 <= j < nc,
    ensures
        0 <= i * nc + j < nr * nc,
        i * nc >= 0,
{
    assert(0 <= i * nc + j < nr * nc) by (nonlinear_arith)
        requires
            0 <= i < nr,
            0 <= j < nc,
    ;
    assert(i * nc >= 0) by (nonlinear_arith)
        requires
            0 <= i,
            0 < nc,
    ;
}

proof fn lemma_rm_inj(i: int, j: int, p: int, q: int, nc: int)
    requires
        0 <= i,
        0 <= j < nc,
        0 <= p,
        0 <= q < nc,
        (i, j) != (p, q),
    ensures
        i * nc + j != p * nc + q,
{
    assert(i * nc + j != p * nc + q) by (nonlinear_arith)
        requires
            0 <= i,
            0 <= j < nc,
            0 <= p,
            0 <= q < nc,
            !(i == p && j == q),
    ;
}

impl Matrix {
    /// The storage matches the dimensions and every entry is well-formed.
    pub open spec fn wf(&self) -> bool {
        &&& self.data@.len() == self.nrows * self.ncols
        &&& forall|k: int| 0 <= k < self.data@.len() ==> frac_wf(#[trigger] self.data@[k])
    }

    /// The rows of the matrix, as rational representations.
    pub open spec fn rep(&self) -> Seq<Seq<(int, int)>> {
        Seq::new(
            self.nrows as nat,
            |i: int| Seq::new(self.ncols as nat, |j: int| fracv(self.data@[i * self.ncols + j])),
        )
    }

    pub proof fn lemma_rep_wf(&self)
        requires
            self.wf(),
        ensures
            grid_dims(self.rep(), self.nrows as int, self.ncols as int),
            grid_wf(self.rep()),
    {
        assert forall|i: int, j: int|
            0 <= i < self.rep().len() && 0 <= j < self.rep()[i].len() implies (
        #[trigger] self.rep()[i][j]).1 > 0 by {
            lemma_rm_index(i, j, self.nrows as int, self.ncols as int);
        }
    }

    /// Build a matrix from its dimensions and a flat row-major entry list.
    pub fn from_flat(nrows: usize, ncols: usize, data: Vec<Frac>) -> (r: Matrix)
        requires
            data@.len() == nrows * ncols,
            forall|k: int| 0 <= k < data@.len() ==> frac_wf(#[trigger] data@[k]),
        ensures
            r.wf(),
            r.nrows == nrows,
            r.ncols == ncols,
            forall|i: int, j: int| 0 <= i < nrows && 0 <= j < ncols ==> #[trigger] r.rep()[i][j]
                == fracv(data@[i * ncols + j]),
    {
        let r = Matrix { nrows, ncols, data };
        proof {
            assert forall|i: int, j: int| 0 <= i < nrows && 0 <= j < ncols implies
                #[trigger] r.rep()[i][j] == fracv(r.data@[i * ncols + j]) by {
                lemma_rm_index(i, j, nrows as int, ncols as int);
            }
        }
        r
    }

    /// Read the entry at row `i`, column `j`.
    pub fn get(&self, i: usize, j: usize) -> (r: Frac)
        requires
            self.wf(),
            i < self.nrows,
            j < self.ncols,
        ensures
            fracv(r) == self.rep()[i as int][j as int],
            frac_wf(r),
    {
        let _n = self.data.len();
        proof {
            lemma_rm_index(i as int, j as int, self.nrows as int, self.ncols as int);
        }
        self.data[i * self.ncols + j]
    }

    /// Write the entry at row `i`, column `j`.
    pub fn set(&mut self, i: usize, j: usize, v: Frac)
        requires
            old(self).wf(),
            i < old(self).nrows,
            j < old(self).ncols,
            frac_wf(v),
        ensures
            final(self).wf(),
            final(self).nrows == old(self).nrows,
            final(self).ncols == old(self).ncols,
            final(self).rep() == old(self).rep().update(
                i as int,
                old(self).rep()[i as int].update(j as int, fracv(v)),
            ),
    {
        let _n = self.data.len();
        proof {
            lemma_rm_index(i as int, j as int, self.nrows as int, self.ncols as int);
        }
        let idx = i * self.ncols + j;
        self.data[idx] = v;
        proof {
            let target = old(self).rep().update(
                i as int,
                old(self).rep()[i as int].update(j as int, fracv(v)),
            );
            assert forall|p: int, q: int|
                0 <= p < self.nrows && 0 <= q < self.ncols implies #[trigger] self.rep()[p][q]
                == target[p][q] by {
                lemma_rm_index(p, q, self.nrows as int, self.ncols as int);
                if (p, q) != (i as int, j as int) {
                    lemma_rm_inj(p, q, i as int, j as int, self.ncols as int);
                }
            }
            assert(self.rep() =~~= target);
        }
    }

    /// The all-zero matrix of the given dimensions.
    pub fn zeros(nrows: usize, ncols: usize) -> (r: Matrix)
        requires
            nrows * ncols <= usize::MAX,
        ensures
            r.wf(),
            r.nrows == nrows,
            r.ncols == ncols,
            forall|i: int, j: int| 0 <= i < nrows && 0 <= j < ncols ==> #[trigger] r.rep()[i][j]
                == (0int, 1int),
    {
        let total = nrows * ncols;
        let mut data: Vec<Frac> = Vec::new();
        let mut t: usize = 0;
        while t < total
            invariant
                t <= total,
                data@.len() == t,
                forall|k: int| 0 <= k < t ==> fracv(#[trigger] data@[k]) == (0int, 1int)
                    && frac_wf(data@[k]),
            decreases total - t,
        {
            data.push(Frac::zero());
            t += 1;
        }
        let r = Matrix { nrows, ncols, data };
        proof {
            assert forall|i: int, j: int| 0 <= i < nrows && 0 <= j < ncols implies
                #[trigger] r.rep()[i][j] == (0int, 1int) by {
                lemma_rm_index(i, j, nrows as int, ncols as int);
            }
        }
        r
    }

    /// The identity matrix of size `n`.
    pub fn identity(n: usize) -> (r: Matrix)
        requires
            n * n <= usize::MAX,
        ensures
            r.wf(),
            r.nrows == n,
            r.ncols == n,
            forall|i: int, j: int| 0 <= i < n && 0 <= j < n ==> #[trigger] r.rep()[i][j] == (
            if i == j {
                (1int, 1int)
            } else {
                (0int, 1int)
            }),
    {
        let mut r = Matrix::zeros(n, n);
        let mut i: usize = 0;
        while i < n
            invariant
                i <= n,
                r.wf(),
                r.nrows == n,
                r.ncols == n,
                forall|p: int, q: int| 0 <= p < n && 0 <= q < n ==> #[trigger] r.rep()[p][q] == (
                if p == q && p < i {
                    (1int, 1int)
                } else {
                    (0int, 1int)
                }),
            decreases n - i,
        {
            r.set(i, i, Frac::one());
            i += 1;
        }
        r
    }

    /// An element-wise copy.
    pub fn dup(&self) -> (r: Matrix)
        requires
            self.wf(),
        ensures
            r.wf(),
            r.nrows == self.nrows,
            r.ncols == self.ncols,
            r.rep() == self.rep(),
    {
        let mut data: Vec<Frac> = Vec::new();
        let mut t: usize = 0;
        while t < self.data.len()
            invariant
                t <= self.data@.len(),
                data@.len() == t,
                forall|k: int| 0 <= k < t ==> #[trigger] data@[k] == self.data@[k],
            decreases self.data@.len() - t,
        {
            data.push(self.data[t]);
            t += 1;
        }
        proof {
            assert(data@ =~= self.data@);
        }
        let r = Matrix { nrows: self.nrows, ncols: self.ncols, data };
        proof {
            assert(r.rep() =~~= self.rep());
        }
        r
    }

    /// Exchange rows `a` and `b` in place.
    pub fn swap_rows(&mut self, a: usize, b: usize)
        requires
            old(self).wf(),
            a < old(self).nrows,
            b < old(self).nrows,
        ensures
            final(self).wf(),
            final(self).nrows == old(self).nrows,
            final(self).ncols == old(self).ncols,
            final(self).rep() == old(self).rep().update(a as int, old(self).rep()[b as int]).update(
                b as int,
                old(self).rep()[a as int],
            ),
    {
        let ghost orig = self.rep();
        let mut c: usize = 0;
        while c < self.ncols
            invariant
                c <= old(self).ncols,
                self.wf(),
                self.nrows == old(self).nrows,
                self.ncols == old(self).ncols,
                a < self.nrows,
                b < self.nrows,
                orig == old(self).rep(),
                grid_dims(orig, self.nrows as int, self.ncols as int),
                grid_dims(self.rep(), self.nrows as int, self.ncols as int),
                forall|p: int, q: int|
                    0 <= p < self.nrows && 0 <= q < self.ncols ==> #[trigger] self.rep()[p][q]
                        == (if q < c && p == a {
                        orig[b as int][q]
                    } else if q < c && p == b {
                        orig[a as int][q]
                    } else {
                        orig[p][q]
                    }),
            decreases self.ncols - c,
        {
            let x = self.get(a, c);
            let y = self.get(b, c);
            self.set(a, c, y);
            self.set(b, c, x);
            proof {
                self.lemma_rep_wf();
            }
            c += 1;
        }
        proof {
            let target = orig.update(a as int, orig[b as int]).update(b as int, orig[a as int]);
            assert(self.rep() =~~= target);
        }
    }

    /// Exchange columns `a` and `b` in place.
    pub fn swap_cols(&mut self, a: usize, b: usize)
        requires
            old(self).wf(),
            a < old(self).ncols,
            b < old(self).ncols,
        ensures
            final(self).wf(),
            final(self).nrows == old(self).nrows,
            final(self).ncols == old(self).ncols,
            grid_dims(final(self).rep(), old(self).nrows as int, old(self).ncols as int),
            forall|p: int, q: int|
                0 <= p < old(self).nrows && 0 <= q < old(self).ncols
                    ==> #[trigger] final(self).rep()[p][q] == (if q == a {
                    old(self).rep()[p][b as int]
                } else if q == b {
                    old(self).rep()[p][a as int]
                } else {
                    old(self).rep()[p][q]
                }),
    {
        let ghost orig = self.rep();
        let mut r: usize = 0;
        while r < self.nrows
            invariant
                r <= old(self).nrows,
                self.wf(),
                self.nrows == old(self).nrows,
                self.ncols == old(self).ncols,
                a < self.ncols,
                b < self.ncols,
                orig == old(self).rep(),
                grid_dims(orig, self.nrows as int, self.ncols as int),
                grid_dims(self.rep(), self.nrows as int, self.ncols as int),
                forall|p: int, q: int|
                    0 <= p < self.nrows && 0 <= q < self.ncols ==> #[trigger] self.rep()[p][q]
                        == (if p < r && q == a {
                        orig[p][b as int]
                    } else if p < r && q == b {
                        orig[p][a as int]
                    } else {
                        orig[p][q]
                    }),
            decreases self.nrows - r,
        {
            let x = self.get(r, a);
            let y = self.get(r, b);
            self.set(r, a, y);
            self.set(r, b, x);
            proof {
                self.lemma_rep_wf();
            }
            r += 1;
        }
    }
}

impl PartialEq for Matrix {
    fn eq(&self, other: &Matrix) -> (r: bool) {
        if self.nrows != other.nrows || self.ncols != other.ncols {
            return false;
        }
        if self.data.len() != other.data.len() {
            proof {
                assert(self.data@ != other.data@);
            }
            return false;
        }
        let mut k: usize = 0;
        while k < self.data.len()
            invariant
                k <= self.data@.len(),
                self.data@.len() == other.data@.len(),
                self.nrows == other.nrows,
                self.ncols == other.ncols,
                forall|q: int| 0 <= q < k ==> self.data@[q] == other.data@[q],
            decreases self.data@.len() - k,
        {
            if self.data[k] != other.data[k] {
                proof {
                    assert(self.data@ != other.data@);
                }
                return false;
            }
            k += 1;
        }
        proof {
            assert(self.data@ =~= other.data@);
        }
        true
    }
}

impl Eq for Matrix {

}

impl vstd::std_specs::cmp::PartialEqSpecImpl for Matrix {
    open spec fn obeys_eq_spec() -> bool {
        true
    }

    open spec fn eq_spec(&self, other: &Matrix) -> bool {
        self.nrows == other.nrows && self.ncols == other.ncols && self.data@ == other.data@
    }
}

} // verus!
