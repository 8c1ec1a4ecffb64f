//! Diagonal reduction of a rational matrix by recorded elementary
//! operations, in the style of a Smith normal form over a field.
//!
//! The reducer keeps the input's image, the full row- and column-operation
//! sequences, and a ghost history interleaving them in the order they were
//! applied; its well-formedness ties the three together: replaying the
//! history over the input yields exactly the recorded result, and the
//! result is diagonal with every diagonal entry zero or one.

use vstd::prelude::*;

use crate::frac::{fracv, rat_add, rat_inv, rat_mul, rat_neg, Frac};
use crate::linear_algebra::operations::{
    applied_op_inverse, apply_col_ops, apply_row_ops, apply_trace, col_proj, grids_rat_eq,
    is_inverse_ops, is_inverse_trace, is_op_inverse, lemma_applied_op_congruence,
    lemma_applied_op_preserves, lemma_applied_op_undo, lemma_apply_trace_prepend,
    lemma_op_inverse_wf, lemma_trace_push, op_invertible, op_wf, ops_invertible, ops_wf, row_proj,
    spec_applied_op, trace_wf, AppliedOp, Operation, Operations,
};
use crate::matrix::{grid_dims, grid_wf, Matrix};
use crate::TdaError;

verus! {

/// Entries away from the diagonal are zero wherever their row or column
/// index is below `k`.
pub open spec fn cleared_outside(m: Seq<Seq<(int, int)>>, k: int, nr: int, nc: int) -> bool {
    forall|i: int, j: int|
        0 <= i < nr && 0 <= j < nc && i != j && (i < k || j < k) ==> (#[trigger] m[i][j]).0 == 0
}

/// Every diagonal entry below `k` is zero or one.
pub open spec fn diag_normal_upto(m: Seq<Seq<(int, int)>>, k: int) -> bool {
    forall|i: int| 0 <= i < k ==> ((#[trigger] m[i][i]).0 == 0 || m[i][i].0 == m[i][i].1)
}

/// All entries away from the diagonal are zero.
pub open spec fn is_diagonal(m: Seq<Seq<(int, int)>>, nr: int, nc: int) -> bool {
    forall|i: int, j: int| 0 <= i < nr && 0 <= j < nc && i != j ==> (#[trigger] m[i][j]).0 == 0
}

/// Nonzero diagonal entries fill the leading positions: once a diagonal
/// entry is zero, all later diagonal entries are zero.
pub open spec fn ones_lead(m: Seq<Seq<(int, int)>>, n: int) -> bool {
    forall|i: int, j: int|
        0 <= i < j < n && (#[trigger] m[i][i]).0 == 0 ==> (#[trigger] m[j][j]).0 == 0
}

/// The number of nonzero diagonal entries among the first `n`.
pub open spec fn diag_rank(m: Seq<Seq<(int, int)>>, n: int) -> int
    decreases n,
{
    if n <= 0 {
        0
    } else {
        diag_rank(m, n - 1) + if m[n - 1][n - 1].0 != 0 {
            1int
        } else {
            0int
        }
    }
}

/// The first position at or after `(k, k)` holding a nonzero entry, in a
/// row-major scan of the lower-right block; `None` when the block is zero.
fn find_pivot(d: &Matrix, k: usize) -> (r: Option<(usize, usize)>)
    requires
        d.wf(),
    ensures
        r matches Some(p) ==> k <= p.0 < d.nrows && k <= p.1 < d.ncols && d.rep()[p.0 as int][
            p.1 as int
        ].0 != 0,
        r is None ==> forall|i: int, j: int|
            k <= i < d.nrows && k <= j < d.ncols ==> (#[trigger] d.rep()[i][j]).0 == 0,
{
    let mut i = k;
    while i < d.nrows
        invariant
            k <= i,
            d.wf(),
            forall|p: int, q: int|
                k <= p < i && k <= q < d.ncols ==> (#[trigger] d.rep()[p][q]).0 == 0,
        decreases d.nrows - i,
    {
        let mut j = k;
        while j < d.ncols
            invariant
                k <= j,
                k <= i < d.nrows,
                d.wf(),
                forall|q: int| k <= q < j ==> (#[trigger] d.rep()[i as int][q]).0 == 0,
            decreases d.ncols - j,
        {
            let e = d.get(i, j);
            if !e.is_zero() {
                return Some((i, j));
            }
            j += 1;
        }
        i += 1;
    }
    None
}

proof fn lemma_pivot_one(t: (int, int))
    requires
        t.0 != 0,
        t.1 > 0,
    ensures
        rat_mul(rat_inv(t), t).0 == rat_mul(rat_inv(t), t).1,
        rat_mul(rat_inv(t), t).1 != 0,
{
    if t.0 < 0 {
        assert(rat_mul(rat_inv(t), t) == ((-t.1) * t.0, (-t.0) * t.1));
        assert((-t.1) * t.0 == (-t.0) * t.1) by (nonlinear_arith);
        assert((-t.0) * t.1 != 0) by (nonlinear_arith)
            requires
                t.0 < 0,
                t.1 > 0,
        ;
    } else {
        assert(rat_mul(rat_inv(t), t) == (t.1 * t.0, t.0 * t.1));
        assert(t.1 * t.0 == t.0 * t.1) by (nonlinear_arith);
        assert(t.0 * t.1 != 0) by (nonlinear_arith)
            requires
                t.0 != 0,
                t.1 > 0,
        ;
    }
}

proof fn lemma_clear_entry(c: (int, int), p: (int, int))
    requires
        p.0 == p.1,
    ensures
        rat_add(c, rat_mul(rat_neg(c), p)).0 == 0,
{
    assert(c.0 * (c.1 * p.1) + (-c.0 * p.0) * c.1 == 0) by (nonlinear_arith)
        requires
            p.0 == p.1,
    ;
}

proof fn lemma_add_keeps_zero(x: (int, int), l: (int, int), z: (int, int))
    requires
        x.0 == 0,
        z.0 == 0,
    ensures
        rat_add(x, rat_mul(l, z)).0 == 0,
{
    assert(x.0 * (l.1 * z.1) + (l.0 * z.0) * x.1 == 0) by (nonlinear_arith)
        requires
            x.0 == 0,
            z.0 == 0,
    ;
}

proof fn lemma_scale_keeps_zero(l: (int, int), x: (int, int))
    requires
        x.0 == 0,
    ensures
        rat_mul(l, x).0 == 0,
{
    assert(l.0 * x.0 == 0) by (nonlinear_arith)
        requires
            x.0 == 0,
    ;
}

/// The outcome of the diagonal reduction: the input's image, the recorded
/// row and column operations, the diagonal result, and the ghost history
/// that replays the reduction.
pub struct Smith {
    pub row_ops: Operations,
    pub col_ops: Operations,
    pub result: Matrix,
    pub original: Ghost<Seq<Seq<(int, int)>>>,
    pub trace: Ghost<Seq<AppliedOp>>,
}

impl Smith {
    /// The reducer's records cohere: replaying the history over the input
    /// gives the result; the history's row and column parts are exactly
    /// the recorded sequences; every operation is invertible; the result
    /// is diagonal with each diagonal entry zero or one.
    pub open spec fn wf(&self) -> bool {
        &&& self.result.wf()
        &&& grid_dims(self.original@, self.result.nrows as int, self.result.ncols as int)
        &&& grid_wf(self.original@)
        &&& row_proj(self.trace@) == self.row_ops.ops@
        &&& col_proj(self.trace@) == self.col_ops.ops@
        &&& trace_wf(self.trace@, self.result.nrows as int, self.result.ncols as int)
        &&& ops_wf(self.row_ops.ops@, self.result.nrows as int)
        &&& ops_wf(self.col_ops.ops@, self.result.ncols as int)
        &&& ops_invertible(self.row_ops.ops@)
        &&& ops_invertible(self.col_ops.ops@)
        &&& apply_trace(self.original@, self.trace@) == self.result.rep()
        &&& is_diagonal(self.result.rep(), self.result.nrows as int, self.result.ncols as int)
        &&& diag_normal_upto(self.result.rep(), min_dim(self.result.nrows as int, self.result.ncols as int))
        &&& ones_lead(self.result.rep(), min_dim(self.result.nrows as int, self.result.ncols as int))
    }

    /// The image of the matrix the reduction started from.
    pub open spec fn spec_original(&self) -> Seq<Seq<(int, int)>> {
        self.original@
    }

    /// The recorded history, row and column operations interleaved in the
    /// order they were applied.
    pub open spec fn spec_trace(&self) -> Seq<AppliedOp> {
        self.trace@
    }

    /// The recorded row operations, in order of application.
    pub fn row_ops(&self) -> (r: &Operations)
        ensures
            r == &self.row_ops,
    {
        &self.row_ops
    }

    /// The recorded column operations, in order of application.
    pub fn col_ops(&self) -> (r: &Operations)
        ensures
            r == &self.col_ops,
    {
        &self.col_ops
    }

    /// The reduced, diagonal matrix.
    pub fn result(&self) -> (r: &Matrix)
        ensures
            r == &self.result,
    {
        &self.result
    }

    /// Diagonalize `d`, recording every elementary operation used.  `Err`
    /// reports exact-arithmetic overflow; a matrix that is already
    /// diagonal with every diagonal entry zero or one (in particular an
    /// empty or all-zero matrix) needs no arithmetic and always succeeds.
    pub fn of(d: &Matrix) -> (r: Result<Smith, TdaError>)
        requires
            d.wf(),
        ensures
            r matches Ok(s) ==> {
                &&& s.wf()
                &&& s.spec_original() == d.rep()
                &&& s.result.nrows == d.nrows
                &&& s.result.ncols == d.ncols
            },
            r is Err ==> r == Result::<Smith, TdaError>::Err(TdaError::ArithmeticOverflow),
            is_diagonal(d.rep(), d.nrows as int, d.ncols as int) && diag_normal_upto(
                d.rep(),
                min_dim(d.nrows as int, d.ncols as int),
            ) ==> r is Ok,
            r matches Ok(s) ==> s.row_ops.ops@.len() <= min_dim(d.nrows as int, d.ncols as int)
                * (d.nrows + 1) && s.col_ops.ops@.len() <= min_dim(d.nrows as int, d.ncols as int)
                * (d.ncols + 1),
    {
        let nr = d.nrows;
        let nc = d.ncols;
        let n = if nr < nc {
            nr
        } else {
            nc
        };
        let mut row_ops = Operations::new();
        let mut col_ops = Operations::new();
        let mut result = d.dup();
        let ghost orig = d.rep();
        let ghost already_reduced = is_diagonal(orig, nr as int, nc as int) && diag_normal_upto(
            orig,
            n as int,
        );
        let ghost mut trace: Seq<AppliedOp> = Seq::empty();
        proof {
            d.lemma_rep_wf();
        }
        let mut k: usize = 0;
        while k < n
            invariant
                k <= n,
                n == min_dim(nr as int, nc as int),
                result.wf(),
                result.nrows == nr,
                result.ncols == nc,
                grid_dims(orig, nr as int, nc as int),
                grid_wf(orig),
                row_proj(trace) == row_ops.ops@,
                col_proj(trace) == col_ops.ops@,
                trace_wf(trace, nr as int, nc as int),
                ops_wf(row_ops.ops@, nr as int),
                ops_wf(col_ops.ops@, nc as int),
                ops_invertible(row_ops.ops@),
                ops_invertible(col_ops.ops@),
                apply_trace(orig, trace) == result.rep(),
                cleared_outside(result.rep(), k as int, nr as int, nc as int),
                diag_normal_upto(result.rep(), k as int),
                forall|i: int| 0 <= i < k ==> (#[trigger] result.rep()[i][i]).0 != 0,
                row_ops.ops@.len() <= k * ((nr + 1) as int),
                col_ops.ops@.len() <= k * ((nc + 1) as int),
                orig == d.rep(),
                nr == d.nrows,
                nc == d.ncols,
                already_reduced == (is_diagonal(orig, nr as int, nc as int) && diag_normal_upto(
                    orig,
                    n as int,
                )),
                already_reduced ==> is_diagonal(result.rep(), nr as int, nc as int) && diag_normal_upto(
                    result.rep(),
                    n as int,
                ),
            decreases n - k,
        {
            proof {
                result.lemma_rep_wf();
            }
            match find_pivot(&result, k) {
                None => {
                    // the remaining block is zero, so later passes would
                    // find no pivot and record nothing
                    proof {
                        let m = result.rep();
                        assert forall|i: int, j: int|
                            0 <= i < nr && 0 <= j < nc && i != j implies (#[trigger] m[i][
                            j
                        ]).0 == 0 by {
                            if !(i < k || j < k) {
                                assert(k <= i && k <= j);
                            }
                        }
                        assert forall|i: int| 0 <= i < n implies ((#[trigger] m[i][i]).0 == 0
                            || m[i][i].0 == m[i][i].1) by {
                            if i >= k {
                                assert(m[i][i].0 == 0);
                            }
                        }
                        assert forall|i: int, j: int|
                            0 <= i < j < n && (#[trigger] m[i][i]).0 == 0 implies (#[trigger] m[
                            j
                        ][j]).0 == 0 by {
                            assert(i >= k);
                        }
                        assert(k * ((nr + 1) as int) <= n * ((nr + 1) as int))
                            by (nonlinear_arith)
                            requires
                                0 <= k <= n,
                        ;
                        assert(k * ((nc + 1) as int) <= n * ((nc + 1) as int))
                            by (nonlinear_arith)
                            requires
                                0 <= k <= n,
                        ;
                    }
                    return Ok(
                        Smith {
                            row_ops,
                            col_ops,
                            result,
                            original: Ghost(orig),
                            trace: Ghost(trace),
                        },
                    );
                },
                Some((pi, pj)) => {
                    let ghost m0 = result.rep();
                    if pi != k {
                        let op = Operation::Swap(pi, k);
                        let ghost pre = result.rep();
                        let ghost tr0 = trace;
                        if op.row_op(&mut result).is_err() {
                            return Err(TdaError::ArithmeticOverflow);
                        }
                        row_ops.push(op);
                        proof {
                            trace = trace.push(AppliedOp::Row(op));
                            lemma_trace_push(orig, tr0, AppliedOp::Row(op));
                            let m = result.rep();
                            assert forall|i: int, j: int|
                                0 <= i < nr && 0 <= j < nc && i != j && (i < k || j < k)
                                implies (#[trigger] m[i][j]).0 == 0 by {
                                if i == pi as int {
                                    assert(m[i][j] == pre[k as int][j]);
                                } else if i == k as int {
                                    assert(m[i][j] == pre[pi as int][j]);
                                }
                            }
                            assert forall|i: int| 0 <= i < k implies #[trigger] m[i][i] == pre[i][i] by {
                            }
                            result.lemma_rep_wf();
                        }
                    }
                    if pj != k {
                        let op = Operation::Swap(pj, k);
                        let ghost pre = result.rep();
                        let ghost tr0 = trace;
                        if op.col_op(&mut result).is_err() {
                            return Err(TdaError::ArithmeticOverflow);
                        }
                        col_ops.push(op);
                        proof {
                            trace = trace.push(AppliedOp::Col(op));
                            lemma_trace_push(orig, tr0, AppliedOp::Col(op));
                            let m = result.rep();
                            assert forall|i: int, j: int|
                                0 <= i < nr && 0 <= j < nc && i != j && (i < k || j < k)
                                implies (#[trigger] m[i][j]).0 == 0 by {
                                if j == pj as int {
                                    assert(m[i][j] == pre[i][k as int]);
                                } else if j == k as int {
                                    assert(m[i][j] == pre[i][pj as int]);
                                }
                            }
                            assert forall|i: int| 0 <= i < k implies #[trigger] m[i][i] == pre[i][i] by {
                            }
                            result.lemma_rep_wf();
                        }
                    }
                    proof {
                        // the pivot now sits at (k, k) and is nonzero
                        assert(result.rep()[k as int][k as int].0 != 0) by {
                            assert(result.rep()[k as int][k as int] == m0[pi as int][pj as int]);
                        }
                        if already_reduced {
                            // on a diagonal input the pivot lies on the
                            // diagonal, so both swaps moved the same index
                            // and the matrix stays diagonal-normal
                            assert(pi == pj) by {
                                if pi != pj {
                                    assert(m0[pi as int][pj as int].0 == 0);
                                }
                            }
                            let m2 = result.rep();
                            assert forall|p: int, q: int| 0 <= p < nr && 0 <= q < nc implies
                                #[trigger] m2[p][q] == m0[
                                if p == pi { k as int } else if p == k { pi as int } else { p }
                            ][
                                if q == pi { k as int } else if q == k { pi as int } else { q }
                            ] by {
                            }
                            assert forall|p: int, q: int|
                                0 <= p < nr && 0 <= q < nc && p != q implies (
                            #[trigger] m2[p][q]).0 == 0 by {
                                let sp: int = if p == pi {
                                    k as int
                                } else if p == k {
                                    pi as int
                                } else {
                                    p
                                };
                                let sq: int = if q == pi {
                                    k as int
                                } else if q == k {
                                    pi as int
                                } else {
                                    q
                                };
                                assert(sp != sq);
                                assert(m0[sp][sq].0 == 0);
                            }
                            assert forall|i2: int| 0 <= i2 < n implies ((#[trigger] m2[i2][
                                i2
                            ]).0 == 0 || m2[i2][i2].0 == m2[i2][i2].1) by {
                                let sp: int = if i2 == pi {
                                    k as int
                                } else if i2 == k {
                                    pi as int
                                } else {
                                    i2
                                };
                                assert(m2[i2][i2] == m0[sp][sp]);
                            }
                        }
                    }
                    let t = result.get(k, k);
                    if !t.is_one() {
                        proof {
                            if already_reduced {
                                assert(false);
                            }
                        }
                        let op = Operation::Scale(k, t.inv());
                        let ghost pre = result.rep();
                        let ghost tr0 = trace;
                        if op.row_op(&mut result).is_err() {
                            return Err(TdaError::ArithmeticOverflow);
                        }
                        row_ops.push(op);
                        proof {
                            trace = trace.push(AppliedOp::Row(op));
                            lemma_trace_push(orig, tr0, AppliedOp::Row(op));
                            let m = result.rep();
                            lemma_pivot_one(fracv(t));
                            assert(m[k as int][k as int] == rat_mul(
                                rat_inv(fracv(t)),
                                pre[k as int][k as int],
                            ));
                            assert forall|i: int, j: int|
                                0 <= i < nr && 0 <= j < nc && i != j && (i < k || j < k)
                                implies (#[trigger] m[i][j]).0 == 0 by {
                                if i == k as int {
                                    assert(m[i][j] == rat_mul(rat_inv(fracv(t)), pre[i][j]));
                                    lemma_scale_keeps_zero(rat_inv(fracv(t)), pre[i][j]);
                                }
                            }
                            assert forall|i: int| 0 <= i < k implies #[trigger] m[i][i] == pre[i][i] by {
                            }
                            result.lemma_rep_wf();
                        }
                    }
                    proof {
                        let m = result.rep();
                        assert(m[k as int][k as int].0 == m[k as int][k as int].1);
                        assert(m[k as int][k as int].1 > 0) by {
                            result.lemma_rep_wf();
                        }
                    }
                    // clear the rest of pivot row k with column operations
                    let mut l = k + 1;
                    while l < nc
                        invariant
                            k < l <= nc,
                            k < n,
                            n == min_dim(nr as int, nc as int),
                            result.wf(),
                            result.nrows == nr,
                            result.ncols == nc,
                            grid_dims(orig, nr as int, nc as int),
                            grid_wf(orig),
                            row_proj(trace) == row_ops.ops@,
                            col_proj(trace) == col_ops.ops@,
                            trace_wf(trace, nr as int, nc as int),
                            ops_wf(row_ops.ops@, nr as int),
                            ops_wf(col_ops.ops@, nc as int),
                            ops_invertible(row_ops.ops@),
                            ops_invertible(col_ops.ops@),
                            apply_trace(orig, trace) == result.rep(),
                            cleared_outside(result.rep(), k as int, nr as int, nc as int),
                            diag_normal_upto(result.rep(), k as int),
                            result.rep()[k as int][k as int].0 == result.rep()[k as int][
                                k as int
                            ].1,
                            result.rep()[k as int][k as int].0 != 0,
                            forall|c: int| k < c < l ==> (#[trigger] result.rep()[k as int][
                                c
                            ]).0 == 0,
                            forall|i: int| 0 <= i < k ==> (#[trigger] result.rep()[i][i]).0 != 0,
                            row_ops.ops@.len() <= k * ((nr + 1) as int) + 2,
                            col_ops.ops@.len() <= k * ((nc + 1) as int) + 1 + (l - (k + 1)),
                            orig == d.rep(),
                            nr == d.nrows,
                            nc == d.ncols,
                            already_reduced == (is_diagonal(orig, nr as int, nc as int) && diag_normal_upto(
                                orig,
                                n as int,
                            )),
                            already_reduced ==> is_diagonal(result.rep(), nr as int, nc as int)
                                && diag_normal_upto(result.rep(), n as int),
                        decreases nc - l,
                    {
                        let c = result.get(k, l);
                        if !c.is_zero() {
                            proof {
                                if already_reduced {
                                    assert(result.rep()[k as int][l as int].0 == 0);
                                    assert(false);
                                }
                            }
                            let op = Operation::Add(l, k, c.neg());
                            let ghost pre = result.rep();
                            let ghost tr0 = trace;
                            if op.col_op(&mut result).is_err() {
                                return Err(TdaError::ArithmeticOverflow);
                            }
                            col_ops.push(op);
                            proof {
                                trace = trace.push(AppliedOp::Col(op));
                                lemma_trace_push(orig, tr0, AppliedOp::Col(op));
                                let m = result.rep();
                                let lam = rat_neg(fracv(c));
                                assert forall|p: int, q: int|
                                    0 <= p < nr && 0 <= q < nc implies #[trigger] m[p][q] == (
                                if q == l {
                                    rat_add(pre[p][q], rat_mul(lam, pre[p][k as int]))
                                } else {
                                    pre[p][q]
                                }) by {
                                }
                                assert forall|i: int, j: int|
                                    0 <= i < nr && 0 <= j < nc && i != j && (i < k || j < k)
                                    implies (#[trigger] m[i][j]).0 == 0 by {
                                    if j == l {
                                        assert(pre[i][j].0 == 0);
                                        assert(pre[i][k as int].0 == 0);
                                        lemma_add_keeps_zero(pre[i][j], lam, pre[i][k as int]);
                                    }
                                }
                                assert forall|i: int| 0 <= i < k implies #[trigger] m[i][i] == pre[i][
                                    i
                                ] by {
                                }
                                assert(m[k as int][l as int].0 == 0) by {
                                    lemma_clear_entry(fracv(c), pre[k as int][k as int]);
                                }
                                assert forall|cc: int| k < cc < l + 1 implies (
                                #[trigger] m[k as int][cc]).0 == 0 by {
                                    if cc < l {
                                        assert(m[k as int][cc] == pre[k as int][cc]);
                                    }
                                }
                                result.lemma_rep_wf();
                            }
                        }
                        l += 1;
                    }
                    // clear the rest of pivot column k with row operations
                    let mut l2 = k + 1;
                    while l2 < nr
                        invariant
                            k < l2 <= nr,
                            k < n,
                            n == min_dim(nr as int, nc as int),
                            result.wf(),
                            result.nrows == nr,
                            result.ncols == nc,
                            grid_dims(orig, nr as int, nc as int),
                            grid_wf(orig),
                            row_proj(trace) == row_ops.ops@,
                            col_proj(trace) == col_ops.ops@,
                            trace_wf(trace, nr as int, nc as int),
                            ops_wf(row_ops.ops@, nr as int),
                            ops_wf(col_ops.ops@, nc as int),
                            ops_invertible(row_ops.ops@),
                            ops_invertible(col_ops.ops@),
                            apply_trace(orig, trace) == result.rep(),
                            cleared_outside(result.rep(), k as int, nr as int, nc as int),
                            diag_normal_upto(result.rep(), k as int),
                            result.rep()[k as int][k as int].0 == result.rep()[k as int][
                                k as int
                            ].1,
                            result.rep()[k as int][k as int].0 != 0,
                            forall|c: int| k < c < nc ==> (#[trigger] result.rep()[k as int][
                                c
                            ]).0 == 0,
                            forall|p: int| k < p < l2 ==> (#[trigger] result.rep()[p][
                                k as int
                            ]).0 == 0,
                            forall|i: int| 0 <= i < k ==> (#[trigger] result.rep()[i][i]).0 != 0,
                            row_ops.ops@.len() <= k * ((nr + 1) as int) + 2 + (l2 - (k + 1)),
                            col_ops.ops@.len() <= k * ((nc + 1) as int) + 1 + (nc - (k + 1)),
                            orig == d.rep(),
                            nr == d.nrows,
                            nc == d.ncols,
                            already_reduced == (is_diagonal(orig, nr as int, nc as int) && diag_normal_upto(
                                orig,
                                n as int,
                            )),
                            already_reduced ==> is_diagonal(result.rep(), nr as int, nc as int)
                                && diag_normal_upto(result.rep(), n as int),
                        decreases nr - l2,
                    {
                        let c = result.get(l2, k);
                        if !c.is_zero() {
                            proof {
                                if already_reduced {
                                    assert(result.rep()[l2 as int][k as int].0 == 0);
                                    assert(false);
                                }
                            }
                            let op = Operation::Add(l2, k, c.neg());
                            let ghost pre = result.rep();
                            let ghost tr0 = trace;
                            if op.row_op(&mut result).is_err() {
                                return Err(TdaError::ArithmeticOverflow);
                            }
                            row_ops.push(op);
                            proof {
                                trace = trace.push(AppliedOp::Row(op));
                                lemma_trace_push(orig, tr0, AppliedOp::Row(op));
                                let m = result.rep();
                                let lam = rat_neg(fracv(c));
                                assert forall|p: int, q: int|
                                    0 <= p < nr && 0 <= q < nc implies #[trigger] m[p][q] == (
                                if p == l2 {
                                    rat_add(pre[p][q], rat_mul(lam, pre[k as int][q]))
                                } else {
                                    pre[p][q]
                                }) by {
                                }
                                assert forall|i: int, j: int|
                                    0 <= i < nr && 0 <= j < nc && i != j && (i < k || j < k)
                                    implies (#[trigger] m[i][j]).0 == 0 by {
                                    if i == l2 as int {
                                        assert(pre[i][j].0 == 0);
                                        assert(pre[k as int][j].0 == 0);
                                        lemma_add_keeps_zero(pre[i][j], lam, pre[k as int][j]);
                                    }
                                }
                                assert forall|i: int| 0 <= i < k implies #[trigger] m[i][i] == pre[i][
                                    i
                                ] by {
                                }
                                assert forall|c2: int| k < c2 < nc implies (
                                #[trigger] m[k as int][c2]).0 == 0 by {
                                    assert(m[k as int][c2] == pre[k as int][c2]);
                                }
                                assert(m[l2 as int][k as int].0 == 0) by {
                                    lemma_clear_entry(fracv(c), pre[k as int][k as int]);
                                }
                                assert forall|p: int| k < p < l2 + 1 implies (#[trigger] m[p][
                                    k as int
                                ]).0 == 0 by {
                                    if p < l2 {
                                        assert(m[p][k as int] == pre[p][k as int]);
                                    }
                                }
                                result.lemma_rep_wf();
                            }
                        }
                        l2 += 1;
                    }
                    proof {
                        let m = result.rep();
                        assert forall|i: int, j: int|
                            0 <= i < nr && 0 <= j < nc && i != j && (i < k + 1 || j < k + 1)
                            implies (#[trigger] m[i][j]).0 == 0 by {
                            if !(i < k || j < k) {
                                if i == k {
                                    assert(k < j < nc);
                                } else {
                                    assert(j == k && k < i < nr);
                                }
                            }
                        }
                    }
                },
            }
            proof {
                assert((k + 1) * ((nr + 1) as int) == k * ((nr + 1) as int) + ((nr + 1) as int))
                    by (nonlinear_arith);
                assert((k + 1) * ((nc + 1) as int) == k * ((nc + 1) as int) + ((nc + 1) as int))
                    by (nonlinear_arith);
            }
            k += 1;
        }
        proof {
            let m = result.rep();
            assert forall|i: int, j: int| 0 <= i < nr && 0 <= j < nc && i != j implies (
            #[trigger] m[i][j]).0 == 0 by {
                if i < j {
                    assert(i < n);
                } else {
                    assert(j < n);
                }
            }
            assert(ones_lead(m, n as int));
        }
        Ok(Smith { row_ops, col_ops, result, original: Ghost(orig), trace: Ghost(trace) })
    }

    /// The rank of the reduced matrix: the number of nonzero entries on
    /// its diagonal.
    pub fn rank(&self) -> (r: usize)
        requires
            self.wf(),
        ensures
            r as int == diag_rank(
                self.result.rep(),
                min_dim(self.result.nrows as int, self.result.ncols as int),
            ),
            r <= self.result.nrows,
            r <= self.result.ncols,
    {
        let n = if self.result.nrows < self.result.ncols {
            self.result.nrows
        } else {
            self.result.ncols
        };
        let mut count: usize = 0;
        let mut i: usize = 0;
        while i < n
            invariant
                i <= n,
                count <= i,
                self.wf(),
                n == min_dim(self.result.nrows as int, self.result.ncols as int),
                count as int == diag_rank(self.result.rep(), i as int),
            decreases n - i,
        {
            let e = self.result.get(i, i);
            if !e.is_zero() {
                count += 1;
            }
            i += 1;
        }
        count
    }
}

/// Replaying a well-formed history keeps a grid's dimensions and
/// well-formedness.
pub proof fn lemma_apply_trace_preserves(
    m: Seq<Seq<(int, int)>>,
    tr: Seq<AppliedOp>,
    nr: int,
    nc: int,
)
    requires
        grid_dims(m, nr, nc),
        grid_wf(m),
        trace_wf(tr, nr, nc),
    ensures
        grid_dims(apply_trace(m, tr), nr, nc),
        grid_wf(apply_trace(m, tr)),
    decreases tr.len(),
{
    if tr.len() > 0 {
        assert(trace_wf(tr.drop_last(), nr, nc)) by {
            assert forall|k: int| 0 <= k < tr.drop_last().len() implies match
                #[trigger] tr.drop_last()[k] {
                AppliedOp::Row(op) => op_wf(op, nr) && op_invertible(op),
                AppliedOp::Col(op) => op_wf(op, nc) && op_invertible(op),
            } by {
                assert(tr.drop_last()[k] == tr[k]);
            }
        }
        lemma_apply_trace_preserves(m, tr.drop_last(), nr, nc);
        lemma_applied_op_preserves(apply_trace(m, tr.drop_last()), tr.last(), nr, nc);
    }
}

/// Replaying one history over grids that agree rationally gives grids
/// that agree rationally.
proof fn lemma_trace_congruence(
    a: Seq<Seq<(int, int)>>,
    b: Seq<Seq<(int, int)>>,
    tr: Seq<AppliedOp>,
    nr: int,
    nc: int,
)
    requires
        grid_dims(a, nr, nc),
        grid_dims(b, nr, nc),
        grid_wf(a),
        grid_wf(b),
        grids_rat_eq(a, b),
        trace_wf(tr, nr, nc),
    ensures
        grids_rat_eq(apply_trace(a, tr), apply_trace(b, tr)),
    decreases tr.len(),
{
    if tr.len() > 0 {
        assert(trace_wf(tr.drop_last(), nr, nc)) by {
            assert forall|k: int| 0 <= k < tr.drop_last().len() implies match
                #[trigger] tr.drop_last()[k] {
                AppliedOp::Row(op) => op_wf(op, nr) && op_invertible(op),
                AppliedOp::Col(op) => op_wf(op, nc) && op_invertible(op),
            } by {
                assert(tr.drop_last()[k] == tr[k]);
            }
        }
        lemma_trace_congruence(a, b, tr.drop_last(), nr, nc);
        lemma_apply_trace_preserves(a, tr.drop_last(), nr, nc);
        lemma_apply_trace_preserves(b, tr.drop_last(), nr, nc);
        lemma_applied_op_congruence(
            apply_trace(a, tr.drop_last()),
            apply_trace(b, tr.drop_last()),
            tr.last(),
            nr,
            nc,
        );
    }
}

proof fn lemma_grids_rat_eq_trans(
    a: Seq<Seq<(int, int)>>,
    b: Seq<Seq<(int, int)>>,
    c: Seq<Seq<(int, int)>>,
)
    requires
        grid_wf(b),
        grids_rat_eq(a, b),
        grids_rat_eq(b, c),
    ensures
        grids_rat_eq(a, c),
{
    assert forall|i: int, j: int|
        0 <= i < a.len() && 0 <= j < a[i].len() implies crate::frac::rat_eq(
        #[trigger] a[i][j],
        c[i][j],
    ) by {
        crate::frac::lemma_rat_eq_trans(a[i][j], b[i][j], c[i][j]);
    }
}

/// Replaying a history and then any inverse of it recovers the original
/// grid, entry by entry as rationals.
pub proof fn lemma_trace_round_trip(
    m: Seq<Seq<(int, int)>>,
    tr: Seq<AppliedOp>,
    itr: Seq<AppliedOp>,
    nr: int,
    nc: int,
)
    requires
        grid_dims(m, nr, nc),
        grid_wf(m),
        trace_wf(tr, nr, nc),
        is_inverse_trace(tr, itr),
    ensures
        grids_rat_eq(apply_trace(apply_trace(m, tr), itr), m),
    decreases tr.len(),
{
    if tr.len() == 0 {
        assert(itr.len() == 0);
    } else {
        let t = tr.last();
        let tr0 = tr.drop_last();
        let it0 = itr[0];
        let rest = itr.drop_first();
        assert(applied_op_inverse(t, it0)) by {
            assert(tr[tr.len() - 1 - 0] == t);
        }
        assert(trace_wf(tr0, nr, nc)) by {
            assert forall|k: int| 0 <= k < tr0.len() implies match #[trigger] tr0[k] {
                AppliedOp::Row(op) => op_wf(op, nr) && op_invertible(op),
                AppliedOp::Col(op) => op_wf(op, nc) && op_invertible(op),
            } by {
                assert(tr0[k] == tr[k]);
            }
        }
        assert(is_inverse_trace(tr0, rest)) by {
            assert forall|k: int| 0 <= k < tr0.len() implies applied_op_inverse(
                #[trigger] tr0[tr0.len() - 1 - k],
                rest[k],
            ) by {
                assert(tr0[tr0.len() - 1 - k] == tr[tr.len() - 1 - (k + 1)]);
                assert(rest[k] == itr[k + 1]);
            }
        }
        let b = apply_trace(m, tr0);
        lemma_apply_trace_preserves(m, tr0, nr, nc);
        let a1 = apply_trace(m, tr);
        assert(a1 == spec_applied_op(b, t));
        lemma_applied_op_preserves(b, t, nr, nc);
        // the inverse history, element by element, is well-formed
        assert(trace_wf(rest, nr, nc)) by {
            assert forall|k: int| 0 <= k < rest.len() implies match #[trigger] rest[k] {
                AppliedOp::Row(op) => op_wf(op, nr) && op_invertible(op),
                AppliedOp::Col(op) => op_wf(op, nc) && op_invertible(op),
            } by {
                assert(applied_op_inverse(tr0[tr0.len() - 1 - k], rest[k]));
                match tr0[tr0.len() - 1 - k] {
                    AppliedOp::Row(op) => {
                        match rest[k] {
                            AppliedOp::Row(iop) => {
                                lemma_op_inverse_wf(op, iop, nr);
                            },
                            AppliedOp::Col(_) => {
                            },
                        }
                    },
                    AppliedOp::Col(op) => {
                        match rest[k] {
                            AppliedOp::Col(iop) => {
                                lemma_op_inverse_wf(op, iop, nc);
                            },
                            AppliedOp::Row(_) => {
                            },
                        }
                    },
                }
            }
        }
        assert(itr =~= seq![it0] + rest);
        lemma_apply_trace_prepend(a1, it0, rest);
        let c = spec_applied_op(a1, it0);
        lemma_applied_op_undo(b, t, it0, nr, nc);
        lemma_applied_op_preserves(a1, it0, nr, nc);
        lemma_trace_congruence(c, b, rest, nr, nc);
        lemma_trace_round_trip(m, tr0, rest, nr, nc);
        lemma_apply_trace_preserves(b, rest, nr, nc);
        lemma_grids_rat_eq_trans(apply_trace(c, rest), apply_trace(b, rest), m);
    }
}

/// The history holding the given operations, all acting on rows.
pub open spec fn row_trace(ops: Seq<Operation>) -> Seq<AppliedOp> {
    ops.map_values(|op: Operation| AppliedOp::Row(op))
}

/// The history holding the given operations, all acting on columns.
pub open spec fn col_trace(ops: Seq<Operation>) -> Seq<AppliedOp> {
    ops.map_values(|op: Operation| AppliedOp::Col(op))
}

proof fn lemma_row_trace_apply(m: Seq<Seq<(int, int)>>, ops: Seq<Operation>)
    ensures
        apply_trace(m, row_trace(ops)) == apply_row_ops(m, ops),
    decreases ops.len(),
{
    if ops.len() > 0 {
        assert(row_trace(ops).drop_last() =~= row_trace(ops.drop_last()));
        assert(row_trace(ops).last() == AppliedOp::Row(ops.last()));
        lemma_row_trace_apply(m, ops.drop_last());
    }
}

proof fn lemma_col_trace_apply(m: Seq<Seq<(int, int)>>, ops: Seq<Operation>)
    ensures
        apply_trace(m, col_trace(ops)) == apply_col_ops(m, ops),
    decreases ops.len(),
{
    if ops.len() > 0 {
        assert(col_trace(ops).drop_last() =~= col_trace(ops.drop_last()));
        assert(col_trace(ops).last() == AppliedOp::Col(ops.last()));
        lemma_col_trace_apply(m, ops.drop_last());
    }
}

/// A row-operation sequence followed by its inverse sequence, as
/// `Operations::inv` builds it, is the identity transform on any matrix
/// it addresses, entry by entry as rationals.
pub proof fn lemma_row_ops_round_trip(
    m: Seq<Seq<(int, int)>>,
    ops: Seq<Operation>,
    iops: Seq<Operation>,
    nr: int,
    nc: int,
)
    requires
        grid_dims(m, nr, nc),
        grid_wf(m),
        ops_wf(ops, nr),
        ops_invertible(ops),
        is_inverse_ops(ops, iops),
    ensures
        grids_rat_eq(apply_row_ops(apply_row_ops(m, ops), iops), m),
{
    assert(trace_wf(row_trace(ops), nr, nc)) by {
        assert forall|k: int| 0 <= k < row_trace(ops).len() implies match
            #[trigger] row_trace(ops)[k] {
            AppliedOp::Row(op) => op_wf(op, nr) && op_invertible(op),
            AppliedOp::Col(op) => op_wf(op, nc) && op_invertible(op),
        } by {
            assert(row_trace(ops)[k] == AppliedOp::Row(ops[k]));
            assert(op_wf(ops[k], nr) && op_invertible(ops[k]));
        }
    }
    assert(is_inverse_trace(row_trace(ops), row_trace(iops))) by {
        assert forall|k: int| 0 <= k < row_trace(ops).len() implies applied_op_inverse(
            #[trigger] row_trace(ops)[row_trace(ops).len() - 1 - k],
            row_trace(iops)[k],
        ) by {
            assert(row_trace(ops)[ops.len() - 1 - k] == AppliedOp::Row(ops[ops.len() - 1 - k]));
            assert(row_trace(iops)[k] == AppliedOp::Row(iops[k]));
            assert(is_op_inverse(ops[ops.len() - 1 - k], iops[k]));
        }
    }
    lemma_trace_round_trip(m, row_trace(ops), row_trace(iops), nr, nc);
    lemma_row_trace_apply(m, ops);
    lemma_row_trace_apply(apply_row_ops(m, ops), iops);
}

/// A column-operation sequence followed by its inverse sequence is the
/// identity transform, entry by entry as rationals.
pub proof fn lemma_col_ops_round_trip(
    m: Seq<Seq<(int, int)>>,
    ops: Seq<Operation>,
    iops: Seq<Operation>,
    nr: int,
    nc: int,
)
    requires
        grid_dims(m, nr, nc),
        grid_wf(m),
        ops_wf(ops, nc),
        ops_invertible(ops),
        is_inverse_ops(ops, iops),
    ensures
        grids_rat_eq(apply_col_ops(apply_col_ops(m, ops), iops), m),
{
    assert(trace_wf(col_trace(ops), nr, nc)) by {
        assert forall|k: int| 0 <= k < col_trace(ops).len() implies match
            #[trigger] col_trace(ops)[k] {
            AppliedOp::Row(op) => op_wf(op, nr) && op_invertible(op),
            AppliedOp::Col(op) => op_wf(op, nc) && op_invertible(op),
        } by {
            assert(col_trace(ops)[k] == AppliedOp::Col(ops[k]));
            assert(op_wf(ops[k], nc) && op_invertible(ops[k]));
        }
    }
    assert(is_inverse_trace(col_trace(ops), col_trace(iops))) by {
        assert forall|k: int| 0 <= k < col_trace(ops).len() implies applied_op_inverse(
            #[trigger] col_trace(ops)[col_trace(ops).len() - 1 - k],
            col_trace(iops)[k],
        ) by {
            assert(col_trace(ops)[ops.len() - 1 - k] == AppliedOp::Col(ops[ops.len() - 1 - k]));
            assert(col_trace(iops)[k] == AppliedOp::Col(iops[k]));
            assert(is_op_inverse(ops[ops.len() - 1 - k], iops[k]));
        }
    }
    lemma_trace_round_trip(m, col_trace(ops), col_trace(iops), nr, nc);
    lemma_col_trace_apply(m, ops);
    lemma_col_trace_apply(apply_col_ops(m, ops), iops);
}

impl Smith {
    /// The reduction round trip: replaying the recorded history over the
    /// input gives exactly the recorded result, and replaying any inverse
    /// of the history over the result recovers the input, entry by entry
    /// as rational numbers.
    pub proof fn lemma_reduction_round_trip(&self, itr: Seq<AppliedOp>)
        requires
            self.wf(),
            is_inverse_trace(self.trace@, itr),
        ensures
            apply_trace(self.original@, self.trace@) == self.result.rep(),
            grids_rat_eq(apply_trace(self.result.rep(), itr), self.original@),
    {
        lemma_trace_round_trip(
            self.original@,
            self.trace@,
            itr,
            self.result.nrows as int,
            self.result.ncols as int,
        );
    }
}

/// The smaller of two dimensions.
pub open spec fn min_dim(a: int, b: int) -> int {
    if a < b {
        a
    } else {
        b
    }
}

} // verus!
