//! The boundary operator of a simplicial complex, and Betti numbers
//! derived from the ranks of consecutive boundary maps.

use vstd::prelude::*;

use crate::frac::Frac;
use crate::linear_algebra::smith::{diag_normal_upto, diag_rank, is_diagonal, min_dim, Smith};
use crate::matrix::Matrix;
use crate::simplex::spec_boundary_coeff;
use crate::simplicial_complex::{dim_filter, views_of, SimplicialComplex};
use crate::TdaError;

verus! {

/// The matrix of the `k`-th boundary map: rows indexed by the
/// `(k-1)`-simplices and columns by the `k`-simplices, both in canonical
/// order; the entry at `(t, s)` is the incidence sign of `t` in `s`.  At
/// `k = 0` the map has no rows.
pub open spec fn boundary_grid(c: SimplicialComplex, k: int) -> Seq<Seq<(int, int)>> {
    if k == 0 {
        Seq::empty()
    } else {
        let rows = dim_filter(c.srep(), k - 1);
        let cols = dim_filter(c.srep(), k);
        Seq::new(
            rows.len(),
            |ti: int|
                Seq::new(
                    cols.len(),
                    |si: int| (spec_boundary_coeff(cols[si], rows[ti]), 1int),
                ),
        )
    }
}

impl SimplicialComplex {
    /// The `k`-th boundary matrix, with `|C_{k-1}|` rows and `|C_k|`
    /// columns; at `k = 0` a matrix with no rows and one column per
    /// vertex.
    pub fn boundary(&self, k: usize) -> (r: Matrix)
        requires
            self.wf(),
        ensures
            r.wf(),
            r.rep() == boundary_grid(*self, k as int),
            k == 0 ==> r.nrows == 0 && r.ncols == self.vertices@.len(),
            k >= 1 ==> r.nrows == dim_filter(self.srep(), k - 1).len() && r.ncols == dim_filter(
                self.srep(),
                k as int,
            ).len(),
    {
        if k == 0 {
            let n = self.vertices.len();
            let r = Matrix::zeros(0, n);
            proof {
                assert(r.rep() =~~= boundary_grid(*self, 0));
            }
            return r;
        }
        let rows_v = self.dim_simplices(k - 1);
        let cols_v = self.dim_simplices(k);
        let m = rows_v.len();
        let n = cols_v.len();
        let ghost rows = dim_filter(self.srep(), k - 1);
        let ghost cols = dim_filter(self.srep(), k as int);
        proof {
            assert(views_of(rows_v@).len() == rows_v@.len());
            assert(views_of(cols_v@).len() == cols_v@.len());
        }
        let mut data: Vec<Frac> = Vec::new();
        let mut ti: usize = 0;
        while ti < m
            invariant
                ti <= m,
                m == rows.len(),
                n == cols.len(),
                rows == views_of(rows_v@),
                cols == views_of(cols_v@),
                rows_v@.len() == m,
                cols_v@.len() == n,
                forall|q: int| 0 <= q < rows_v@.len() ==> (#[trigger] rows_v@[q]).wf(),
                forall|q: int| 0 <= q < cols_v@.len() ==> (#[trigger] cols_v@[q]).wf(),
                data@.len() == ti * n,
                forall|p: int, q: int| 0 <= p < ti && 0 <= q < n ==> #[trigger] data@[p * n + q]
                    == (Frac {
                    num: spec_boundary_coeff(cols[q], rows[p]) as i128,
                    den: 1,
                }),
            decreases m - ti,
        {
            let mut si: usize = 0;
            while si < n
                invariant
                    si <= n,
                    ti < m,
                    m == rows.len(),
                    n == cols.len(),
                    rows == views_of(rows_v@),
                    cols == views_of(cols_v@),
                    rows_v@.len() == m,
                    cols_v@.len() == n,
                    forall|q: int| 0 <= q < rows_v@.len() ==> (#[trigger] rows_v@[q]).wf(),
                    forall|q: int| 0 <= q < cols_v@.len() ==> (#[trigger] cols_v@[q]).wf(),
                    data@.len() == ti * n + si,
                    forall|p: int, q: int| 0 <= p < ti && 0 <= q < n ==> #[trigger] data@[p * n
                        + q] == (Frac {
                        num: spec_boundary_coeff(cols[q], rows[p]) as i128,
                        den: 1,
                    }),
                    forall|q: int| 0 <= q < si ==> #[trigger] data@[ti * n + q] == (Frac {
                        num: spec_boundary_coeff(cols[q], rows[ti as int]) as i128,
                        den: 1,
                    }),
                decreases n - si,
            {
                let coeff = cols_v[si].boundary_coeff(&rows_v[ti]);
                proof {
                    assert(cols[si as int] == cols_v@[si as int].vertices@);
                    assert(rows[ti as int] == rows_v@[ti as int].vertices@);
                }
                data.push(Frac::from_int(coeff));
                proof {
                    assert forall|p: int, q: int| 0 <= p < ti && 0 <= q < n implies
                        #[trigger] data@[p * n + q] == (Frac {
                        num: spec_boundary_coeff(cols[q], rows[p]) as i128,
                        den: 1,
                    }) by {
                        assert(p * n + q < ti * n + si) by (nonlinear_arith)
                            requires
                                0 <= p < ti,
                                0 <= q < n,
                                0 <= si,
                        ;
                    }
                }
                si += 1;
            }
            ti += 1;
            proof {
                assert(ti * n == (ti - 1) * n + n) by (nonlinear_arith);
            }
        }
        let r = Matrix { nrows: m, ncols: n, data };
        proof {
            assert(r.wf()) by {
                assert forall|kk: int| 0 <= kk < r.data@.len() implies crate::frac::frac_wf(
                    #[trigger] r.data@[kk],
                ) by {
                    let p = kk / (n as int);
                    let q = kk % (n as int);
                    if n > 0 {
                        assert(kk == p * n + q && 0 <= q < n && 0 <= p < m) by (nonlinear_arith)
                            requires
                                0 <= kk < m * (n as int),
                                p == kk / (n as int),
                                q == kk % (n as int),
                                n > 0,
                        ;
                        assert(r.data@[p * (n as int) + q] == (Frac {
                            num: spec_boundary_coeff(cols[q], rows[p]) as i128,
                            den: 1,
                        }));
                    } else {
                        assert(m * (n as int) == 0) by (nonlinear_arith)
                            requires
                                n == 0,
                        ;
                    }
                }
            }
            assert(r.rep() =~~= boundary_grid(*self, k as int)) by {
                assert forall|p: int, q: int| 0 <= p < m && 0 <= q < n implies #[trigger] r.rep()[
                    p
                ][q] == (spec_boundary_coeff(cols[q], rows[p]), 1int) by {
                    assert(0 <= p * n + q < m * n) by (nonlinear_arith)
                        requires
                            0 <= p < m,
                            0 <= q < n,
                    ;
                }
            }
        }
        r
    }

    /// The `k`-th Betti number: the number of columns of the `k`-th
    /// boundary map less the ranks of the `k`-th and `(k+1)`-th maps,
    /// each rank read off a recorded diagonalization.  `Err` reports
    /// exact-arithmetic overflow, or a rank pair exceeding the column
    /// count (which no chain complex produces).
    pub fn betti(&self, k: usize) -> (r: Result<usize, TdaError>)
        requires
            self.wf(),
            k < usize::MAX,
        ensures
            r matches Ok(b) ==> exists|s1: Smith, s2: Smith|
                {
                    &&& s1.wf()
                    &&& s2.wf()
                    &&& s1.spec_original() == boundary_grid(*self, k as int)
                    &&& s2.spec_original() == boundary_grid(*self, k as int + 1)
                    &&& b + diag_rank(
                        s1.result.rep(),
                        min_dim(s1.result.nrows as int, s1.result.ncols as int),
                    ) + diag_rank(
                        s2.result.rep(),
                        min_dim(s2.result.nrows as int, s2.result.ncols as int),
                    ) == (if k == 0 {
                        self.vertices@.len() as int
                    } else {
                        dim_filter(self.srep(), k as int).len() as int
                    })
                },
            r is Err ==> r == Result::<usize, TdaError>::Err(TdaError::ArithmeticOverflow) || r
                == Result::<usize, TdaError>::Err(TdaError::RankExceedsColumns),
            r == Result::<usize, TdaError>::Err(TdaError::RankExceedsColumns) ==> exists|
                s1: Smith,
                s2: Smith,
            |
                {
                    &&& s1.wf()
                    &&& s2.wf()
                    &&& s1.spec_original() == boundary_grid(*self, k as int)
                    &&& s2.spec_original() == boundary_grid(*self, k as int + 1)
                    &&& diag_rank(
                        s1.result.rep(),
                        min_dim(s1.result.nrows as int, s1.result.ncols as int),
                    ) + diag_rank(
                        s2.result.rep(),
                        min_dim(s2.result.nrows as int, s2.result.ncols as int),
                    ) > (if k == 0 {
                        self.vertices@.len() as int
                    } else {
                        dim_filter(self.srep(), k as int).len() as int
                    })
                },
            k == 0 && dim_filter(self.srep(), 1).len() == 0 ==> (r matches Ok(b) && b
                == self.vertices@.len()),
            k >= 1 && dim_filter(self.srep(), k as int).len() == 0 && dim_filter(
                self.srep(),
                k as int + 1,
            ).len() == 0 ==> (r matches Ok(b) && b == 0),
    {
        let dk = self.boundary(k);
        let dk1 = self.boundary(k + 1);
        let ncols = dk.ncols;
        let ghost owed = (k == 0 && dim_filter(self.srep(), 1).len() == 0) || (k >= 1
            && dim_filter(self.srep(), k as int).len() == 0 && dim_filter(
            self.srep(),
            k as int + 1,
        ).len() == 0);
        proof {
            // with no simplices at the relevant dimensions both boundary
            // matrices are degenerate and diagonalization cannot fail
            if owed {
                assert(min_dim(dk.nrows as int, dk.ncols as int) == 0);
                assert(is_diagonal(dk.rep(), dk.nrows as int, dk.ncols as int));
                assert(diag_normal_upto(dk.rep(), 0));
                assert(dk1.ncols == 0);
                assert(min_dim(dk1.nrows as int, dk1.ncols as int) == 0);
                assert(is_diagonal(dk1.rep(), dk1.nrows as int, dk1.ncols as int));
                assert(diag_normal_upto(dk1.rep(), 0));
            }
        }
        let sk = match Smith::of(&dk) {
            Ok(s) => s,
            Err(e) => {
                proof {
                    if owed {
                        assert(false);
                    }
                }
                return Err(e);
            },
        };
        let sk1 = match Smith::of(&dk1) {
            Ok(s) => s,
            Err(e) => {
                proof {
                    if owed {
                        assert(false);
                    }
                }
                return Err(e);
            },
        };
        let rk = sk.rank();
        let rk1 = sk1.rank();
        if rk > ncols {
            proof {
                assert(sk.wf() && sk1.wf());
            }
            return Err(TdaError::RankExceedsColumns);
        }
        let rem = ncols - rk;
        if rk1 > rem {
            proof {
                assert(sk.wf() && sk1.wf());
                if owed {
                    assert(rk == 0 && rk1 == 0);
                    assert(false);
                }
            }
            return Err(TdaError::RankExceedsColumns);
        }
        let b = rem - rk1;
        proof {
            assert(sk.wf() && sk1.wf());
            assert(sk.spec_original() == boundary_grid(*self, k as int));
            assert(sk1.spec_original() == boundary_grid(*self, k as int + 1));
            if owed {
                assert(rk == 0 && rk1 == 0);
            }
        }
        Ok(b)
    }
}

} // verus!
