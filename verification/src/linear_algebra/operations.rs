//! Elementary row and column operations on rational matrices: swaps,
//! scalings and add-a-multiple transforms, their inverses, and ordered
//! sequences of them.

use vstd::prelude::*;

use crate::frac::{frac_wf, fracv, rat_add, rat_add_fits, rat_eq, rat_inv, rat_mul, rat_mul_fits, rat_neg, Frac};
use crate::matrix::{grid_dims, grid_wf, Matrix};
use crate::TdaError;

verus! {

/// An elementary operation on the rows (or columns) of a matrix.
#[derive(Clone, Copy, Debug, PartialEq, Eq, Structural)]
pub enum Operation {
    /// Exchange rows/columns `i` and `j`.
    Swap(usize, usize),
    /// Multiply row/column `i` by a scalar.
    Scale(usize, Frac),
    /// Add a scalar multiple of row/column `j` to row/column `i`.
    Add(usize, usize, Frac),
}

/// The operation addresses lines below `n` and carries a well-formed
/// scalar; an `Add` never adds a line to itself.
pub open spec fn op_wf(op: Operation, n: int) -> bool {
    match op {
        Operation::Swap(i, j) => i < n && j < n,
        Operation::Scale(i, l) => i < n && frac_wf(l),
        Operation::Add(i, j, l) => i < n && j < n && i != j && frac_wf(l),
    }
}

/// The operation has an inverse: a `Scale` must use a nonzero scalar.
pub open spec fn op_invertible(op: Operation) -> bool {
    match op {
        Operation::Swap(i, j) => true,
        Operation::Scale(i, l) => l.num != 0,
        Operation::Add(i, j, l) => true,
    }
}

/// `b` undoes `a`: swaps reverse their arguments, scalings invert the
/// scalar, additions negate it.
pub open spec fn is_op_inverse(a: Operation, b: Operation) -> bool {
    match a {
        Operation::Swap(i, j) => b == Operation::Swap(j, i),
        Operation::Scale(i, l) => match b {
            Operation::Scale(i2, l2) => i2 == i && fracv(l2) == rat_inv(fracv(l)) && frac_wf(l2),
            _ => false,
        },
        Operation::Add(i, j, l) => match b {
            Operation::Add(i2, j2, l2) => i2 == i && j2 == j && fracv(l2) == rat_neg(fracv(l))
                && frac_wf(l2),
            _ => false,
        },
    }
}

/// The grid after an elementary row operation.
pub open spec fn spec_row_op(m: Seq<Seq<(int, int)>>, op: Operation) -> Seq<Seq<(int, int)>> {
    match op {
        Operation::Swap(i, j) => m.update(i as int, m[j as int]).update(j as int, m[i as int]),
        Operation::Scale(i, l) => m.update(
            i as int,
            Seq::new(m[i as int].len(), |c: int| rat_mul(fracv(l), m[i as int][c])),
        ),
        Operation::Add(i, j, l) => m.update(
            i as int,
            Seq::new(
                m[i as int].len(),
                |c: int| rat_add(m[i as int][c], rat_mul(fracv(l), m[j as int][c])),
            ),
        ),
    }
}

/// The grid after an elementary column operation.
pub open spec fn spec_col_op(m: Seq<Seq<(int, int)>>, op: Operation) -> Seq<Seq<(int, int)>> {
    match op {
        Operation::Swap(i, j) => Seq::new(
            m.len(),
            |r: int|
                m[r].update(i as int, m[r][j as int]).update(j as int, m[r][i as int]),
        ),
        Operation::Scale(i, l) => Seq::new(
            m.len(),
            |r: int| m[r].update(i as int, rat_mul(fracv(l), m[r][i as int])),
        ),
        Operation::Add(i, j, l) => Seq::new(
            m.len(),
            |r: int|
                m[r].update(
                    i as int,
                    rat_add(m[r][i as int], rat_mul(fracv(l), m[r][j as int])),
                ),
        ),
    }
}

/// A grid after the row operations of `ops`, applied in order.
pub open spec fn apply_row_ops(m: Seq<Seq<(int, int)>>, ops: Seq<Operation>) -> Seq<
    Seq<(int, int)>,
>
    decreases ops.len(),
{
    if ops.len() == 0 {
        m
    } else {
        spec_row_op(apply_row_ops(m, ops.drop_last()), ops.last())
    }
}

/// A grid after the column operations of `ops`, applied in order.
pub open spec fn apply_col_ops(m: Seq<Seq<(int, int)>>, ops: Seq<Operation>) -> Seq<
    Seq<(int, int)>,
>
    decreases ops.len(),
{
    if ops.len() == 0 {
        m
    } else {
        spec_col_op(apply_col_ops(m, ops.drop_last()), ops.last())
    }
}

/// Scaling row `i` by `l` involves only in-range products.
pub open spec fn scale_row_fits(m: Seq<Seq<(int, int)>>, i: int, l: (int, int)) -> bool {
    forall|c: int| 0 <= c < m[i].len() ==> rat_mul_fits(l, #[trigger] m[i][c])
}

/// Adding `l` times row `j` to row `i` involves only in-range products
/// and sums.
pub open spec fn add_row_fits(m: Seq<Seq<(int, int)>>, i: int, j: int, l: (int, int)) -> bool {
    forall|c: int|
        0 <= c < m[i].len() ==> rat_mul_fits(l, #[trigger] m[j][c]) && rat_add_fits(
            m[i][c],
            rat_mul(l, m[j][c]),
        )
}

/// Scaling column `i` by `l` involves only in-range products.
pub open spec fn scale_col_fits(m: Seq<Seq<(int, int)>>, i: int, l: (int, int)) -> bool {
    forall|p: int| 0 <= p < m.len() ==> rat_mul_fits(l, #[trigger] m[p][i])
}

/// Adding `l` times column `j` to column `i` involves only in-range
/// products and sums.
pub open spec fn add_col_fits(m: Seq<Seq<(int, int)>>, i: int, j: int, l: (int, int)) -> bool {
    forall|p: int|
        0 <= p < m.len() ==> rat_mul_fits(l, #[trigger] m[p][j]) && rat_add_fits(
            m[p][i],
            rat_mul(l, m[p][j]),
        )
}

/// The exact arithmetic of one row operation on this grid stays within
/// the machine scalar range (a swap involves none).
pub open spec fn row_op_fits(m: Seq<Seq<(int, int)>>, op: Operation) -> bool {
    match op {
        Operation::Swap(i, j) => true,
        Operation::Scale(i, l) => scale_row_fits(m, i as int, fracv(l)),
        Operation::Add(i, j, l) => add_row_fits(m, i as int, j as int, fracv(l)),
    }
}

/// The exact arithmetic of one column operation on this grid stays
/// within the machine scalar range.
pub open spec fn col_op_fits(m: Seq<Seq<(int, int)>>, op: Operation) -> bool {
    match op {
        Operation::Swap(i, j) => true,
        Operation::Scale(i, l) => scale_col_fits(m, i as int, fracv(l)),
        Operation::Add(i, j, l) => add_col_fits(m, i as int, j as int, fracv(l)),
    }
}

/// The exact arithmetic of a whole row-operation sequence, applied in
/// order, stays within the machine scalar range.
pub open spec fn row_ops_fit(m: Seq<Seq<(int, int)>>, ops: Seq<Operation>) -> bool
    decreases ops.len(),
{
    if ops.len() == 0 {
        true
    } else {
        row_op_fits(m, ops[0]) && row_ops_fit(spec_row_op(m, ops[0]), ops.drop_first())
    }
}

/// The exact arithmetic of a whole column-operation sequence stays
/// within the machine scalar range.
pub open spec fn col_ops_fit(m: Seq<Seq<(int, int)>>, ops: Seq<Operation>) -> bool
    decreases ops.len(),
{
    if ops.len() == 0 {
        true
    } else {
        col_op_fits(m, ops[0]) && col_ops_fit(spec_col_op(m, ops[0]), ops.drop_first())
    }
}

proof fn lemma_row_scale_unfit(m: Seq<Seq<(int, int)>>, i: usize, l: Frac, c: int)
    requires
        0 <= c < m[i as int].len(),
        !rat_mul_fits(fracv(l), m[i as int][c]),
    ensures
        !row_op_fits(m, Operation::Scale(i, l)),
{
    if scale_row_fits(m, i as int, fracv(l)) {
        assert(rat_mul_fits(fracv(l), m[i as int][c]));
    }
}

proof fn lemma_row_add_unfit(m: Seq<Seq<(int, int)>>, i: usize, j: usize, l: Frac, c: int)
    requires
        0 <= c < m[i as int].len(),
        !(rat_mul_fits(fracv(l), m[j as int][c]) && rat_add_fits(
            m[i as int][c],
            rat_mul(fracv(l), m[j as int][c]),
        )),
    ensures
        !row_op_fits(m, Operation::Add(i, j, l)),
{
    if add_row_fits(m, i as int, j as int, fracv(l)) {
        assert(rat_mul_fits(fracv(l), m[j as int][c]) && rat_add_fits(
            m[i as int][c],
            rat_mul(fracv(l), m[j as int][c]),
        ));
    }
}

proof fn lemma_col_scale_unfit(m: Seq<Seq<(int, int)>>, i: usize, l: Frac, p: int)
    requires
        0 <= p < m.len(),
        !rat_mul_fits(fracv(l), m[p][i as int]),
    ensures
        !col_op_fits(m, Operation::Scale(i, l)),
{
    if scale_col_fits(m, i as int, fracv(l)) {
        assert(rat_mul_fits(fracv(l), m[p][i as int]));
    }
}

proof fn lemma_col_add_unfit(m: Seq<Seq<(int, int)>>, i: usize, j: usize, l: Frac, p: int)
    requires
        0 <= p < m.len(),
        !(rat_mul_fits(fracv(l), m[p][j as int]) && rat_add_fits(
            m[p][i as int],
            rat_mul(fracv(l), m[p][j as int]),
        )),
    ensures
        !col_op_fits(m, Operation::Add(i, j, l)),
{
    if add_col_fits(m, i as int, j as int, fracv(l)) {
        assert(rat_mul_fits(fracv(l), m[p][j as int]) && rat_add_fits(
            m[p][i as int],
            rat_mul(fracv(l), m[p][j as int]),
        ));
    }
}

proof fn lemma_apply_row_ops_prepend(m: Seq<Seq<(int, int)>>, op: Operation, rest: Seq<Operation>)
    ensures
        apply_row_ops(m, seq![op] + rest) == apply_row_ops(spec_row_op(m, op), rest),
    decreases rest.len(),
{
    let s = seq![op] + rest;
    if rest.len() == 0 {
        assert(s.drop_last() =~= Seq::<Operation>::empty());
        assert(s.last() == op);
        assert(apply_row_ops(m, s.drop_last()) == m);
    } else {
        assert(s.drop_last() =~= seq![op] + rest.drop_last());
        assert(s.last() == rest.last());
        lemma_apply_row_ops_prepend(m, op, rest.drop_last());
    }
}

proof fn lemma_apply_col_ops_prepend(m: Seq<Seq<(int, int)>>, op: Operation, rest: Seq<Operation>)
    ensures
        apply_col_ops(m, seq![op] + rest) == apply_col_ops(spec_col_op(m, op), rest),
    decreases rest.len(),
{
    let s = seq![op] + rest;
    if rest.len() == 0 {
        assert(s.drop_last() =~= Seq::<Operation>::empty());
        assert(s.last() == op);
        assert(apply_col_ops(m, s.drop_last()) == m);
    } else {
        assert(s.drop_last() =~= seq![op] + rest.drop_last());
        assert(s.last() == rest.last());
        lemma_apply_col_ops_prepend(m, op, rest.drop_last());
    }
}

proof fn lemma_row_ops_fit_push(m: Seq<Seq<(int, int)>>, ops: Seq<Operation>, op: Operation)
    ensures
        row_ops_fit(m, ops.push(op)) == (row_ops_fit(m, ops) && row_op_fits(
            apply_row_ops(m, ops),
            op,
        )),
    decreases ops.len(),
{
    if ops.len() == 0 {
        assert(ops.push(op)[0] == op);
        assert(ops.push(op).drop_first() =~= Seq::<Operation>::empty());
        assert(apply_row_ops(m, ops) == m);
        assert(row_ops_fit(m, ops.push(op)) == (row_op_fits(m, op) && row_ops_fit(
            spec_row_op(m, op),
            ops.push(op).drop_first(),
        )));
        assert(row_ops_fit(spec_row_op(m, op), ops.push(op).drop_first()));
    } else {
        assert(ops.push(op)[0] == ops[0]);
        assert(ops.push(op).drop_first() =~= ops.drop_first().push(op));
        lemma_row_ops_fit_push(spec_row_op(m, ops[0]), ops.drop_first(), op);
        assert(ops =~= seq![ops[0]] + ops.drop_first());
        lemma_apply_row_ops_prepend(m, ops[0], ops.drop_first());
        assert(row_ops_fit(m, ops.push(op)) == (row_op_fits(m, ops[0]) && row_ops_fit(
            spec_row_op(m, ops[0]),
            ops.drop_first().push(op),
        )));
        assert(row_ops_fit(m, ops) == (row_op_fits(m, ops[0]) && row_ops_fit(
            spec_row_op(m, ops[0]),
            ops.drop_first(),
        )));
    }
}

proof fn lemma_col_ops_fit_push(m: Seq<Seq<(int, int)>>, ops: Seq<Operation>, op: Operation)
    ensures
        col_ops_fit(m, ops.push(op)) == (col_ops_fit(m, ops) && col_op_fits(
            apply_col_ops(m, ops),
            op,
        )),
    decreases ops.len(),
{
    if ops.len() == 0 {
        assert(ops.push(op)[0] == op);
        assert(ops.push(op).drop_first() =~= Seq::<Operation>::empty());
        assert(apply_col_ops(m, ops) == m);
        assert(col_ops_fit(m, ops.push(op)) == (col_op_fits(m, op) && col_ops_fit(
            spec_col_op(m, op),
            ops.push(op).drop_first(),
        )));
        assert(col_ops_fit(spec_col_op(m, op), ops.push(op).drop_first()));
    } else {
        assert(ops.push(op)[0] == ops[0]);
        assert(ops.push(op).drop_first() =~= ops.drop_first().push(op));
        lemma_col_ops_fit_push(spec_col_op(m, ops[0]), ops.drop_first(), op);
        assert(ops =~= seq![ops[0]] + ops.drop_first());
        lemma_apply_col_ops_prepend(m, ops[0], ops.drop_first());
        assert(col_ops_fit(m, ops.push(op)) == (col_op_fits(m, ops[0]) && col_ops_fit(
            spec_col_op(m, ops[0]),
            ops.drop_first().push(op),
        )));
        assert(col_ops_fit(m, ops) == (col_op_fits(m, ops[0]) && col_ops_fit(
            spec_col_op(m, ops[0]),
            ops.drop_first(),
        )));
    }
}

proof fn lemma_row_ops_fit_prefix(m: Seq<Seq<(int, int)>>, ops: Seq<Operation>, j: int)
    requires
        row_ops_fit(m, ops),
        0 <= j <= ops.len(),
    ensures
        row_ops_fit(m, ops.take(j)),
        j < ops.len() ==> row_op_fits(apply_row_ops(m, ops.take(j)), ops[j]),
    decreases ops.len() - j,
{
    if j == ops.len() {
        assert(ops.take(j) =~= ops);
    } else {
        lemma_row_ops_fit_prefix(m, ops, j + 1);
        assert(ops.take(j + 1) =~= ops.take(j).push(ops[j]));
        lemma_row_ops_fit_push(m, ops.take(j), ops[j]);
    }
}

proof fn lemma_col_ops_fit_prefix(m: Seq<Seq<(int, int)>>, ops: Seq<Operation>, j: int)
    requires
        col_ops_fit(m, ops),
        0 <= j <= ops.len(),
    ensures
        col_ops_fit(m, ops.take(j)),
        j < ops.len() ==> col_op_fits(apply_col_ops(m, ops.take(j)), ops[j]),
    decreases ops.len() - j,
{
    if j == ops.len() {
        assert(ops.take(j) =~= ops);
    } else {
        lemma_col_ops_fit_prefix(m, ops, j + 1);
        assert(ops.take(j + 1) =~= ops.take(j).push(ops[j]));
        lemma_col_ops_fit_push(m, ops.take(j), ops[j]);
    }
}

/// An elementary operation together with the side it acted on.
#[derive(Clone, Copy, Debug, PartialEq, Eq, Structural)]
pub enum AppliedOp {
    Row(Operation),
    Col(Operation),
}

/// The grid after one applied operation.
pub open spec fn spec_applied_op(m: Seq<Seq<(int, int)>>, t: AppliedOp) -> Seq<Seq<(int, int)>> {
    match t {
        AppliedOp::Row(op) => spec_row_op(m, op),
        AppliedOp::Col(op) => spec_col_op(m, op),
    }
}

/// A grid after a whole recorded history of operations, in order.
pub open spec fn apply_trace(m: Seq<Seq<(int, int)>>, tr: Seq<AppliedOp>) -> Seq<Seq<(int, int)>>
    decreases tr.len(),
{
    if tr.len() == 0 {
        m
    } else {
        spec_applied_op(apply_trace(m, tr.drop_last()), tr.last())
    }
}

/// The row operations of a history, in order.
pub open spec fn row_proj(tr: Seq<AppliedOp>) -> Seq<Operation>
    decreases tr.len(),
{
    if tr.len() == 0 {
        Seq::empty()
    } else {
        match tr.last() {
            AppliedOp::Row(op) => row_proj(tr.drop_last()).push(op),
            AppliedOp::Col(_) => row_proj(tr.drop_last()),
        }
    }
}

/// The column operations of a history, in order.
pub open spec fn col_proj(tr: Seq<AppliedOp>) -> Seq<Operation>
    decreases tr.len(),
{
    if tr.len() == 0 {
        Seq::empty()
    } else {
        match tr.last() {
            AppliedOp::Col(op) => col_proj(tr.drop_last()).push(op),
            AppliedOp::Row(_) => col_proj(tr.drop_last()),
        }
    }
}

pub proof fn lemma_trace_push(m: Seq<Seq<(int, int)>>, tr: Seq<AppliedOp>, t: AppliedOp)
    ensures
        apply_trace(m, tr.push(t)) == spec_applied_op(apply_trace(m, tr), t),
        row_proj(tr.push(t)) == (match t {
            AppliedOp::Row(op) => row_proj(tr).push(op),
            AppliedOp::Col(_) => row_proj(tr),
        }),
        col_proj(tr.push(t)) == (match t {
            AppliedOp::Col(op) => col_proj(tr).push(op),
            AppliedOp::Row(_) => col_proj(tr),
        }),
{
    assert(tr.push(t).drop_last() =~= tr);
    assert(tr.push(t).last() == t);
}

/// The two grids hold the same rational values, entry by entry.
pub open spec fn grids_rat_eq(a: Seq<Seq<(int, int)>>, b: Seq<Seq<(int, int)>>) -> bool {
    &&& a.len() == b.len()
    &&& forall|i: int| 0 <= i < a.len() ==> (#[trigger] a[i]).len() == b[i].len()
    &&& forall|i: int, j: int|
        0 <= i < a.len() && 0 <= j < a[i].len() ==> rat_eq(#[trigger] a[i][j], b[i][j])
}

/// `it` undoes `t`: the same side, with the inverse operation.
pub open spec fn applied_op_inverse(t: AppliedOp, it: AppliedOp) -> bool {
    match (t, it) {
        (AppliedOp::Row(x), AppliedOp::Row(y)) => is_op_inverse(x, y),
        (AppliedOp::Col(x), AppliedOp::Col(y)) => is_op_inverse(x, y),
        _ => false,
    }
}

/// `itr` undoes `tr`: the operations of `tr` reversed, each replaced by
/// its inverse on the same side.
pub open spec fn is_inverse_trace(tr: Seq<AppliedOp>, itr: Seq<AppliedOp>) -> bool {
    &&& itr.len() == tr.len()
    &&& forall|k: int| 0 <= k < tr.len() ==> applied_op_inverse(
        #[trigger] tr[tr.len() - 1 - k],
        itr[k],
    )
}

/// `iops` undoes `ops`: the operations reversed, each inverted.
pub open spec fn is_inverse_ops(ops: Seq<Operation>, iops: Seq<Operation>) -> bool {
    &&& iops.len() == ops.len()
    &&& forall|k: int| 0 <= k < ops.len() ==> is_op_inverse(
        #[trigger] ops[ops.len() - 1 - k],
        iops[k],
    )
}

/// Every recorded operation is in bounds for its side and invertible.
pub open spec fn trace_wf(tr: Seq<AppliedOp>, nr: int, nc: int) -> bool {
    forall|k: int| 0 <= k < tr.len() ==> match #[trigger] tr[k] {
        AppliedOp::Row(op) => op_wf(op, nr) && op_invertible(op),
        AppliedOp::Col(op) => op_wf(op, nc) && op_invertible(op),
    }
}

/// The inverse of an in-bounds invertible operation is in bounds and
/// invertible.
pub proof fn lemma_op_inverse_wf(op: Operation, iop: Operation, n: int)
    requires
        op_wf(op, n),
        op_invertible(op),
        is_op_inverse(op, iop),
    ensures
        op_wf(iop, n),
        op_invertible(iop),
{
}

proof fn lemma_pos_mul(x: int, y: int)
    requires
        x > 0,
        y > 0,
    ensures
        x * y > 0,
{
    assert(x * y > 0) by (nonlinear_arith)
        requires
            x > 0,
            y > 0,
    ;
}

/// Applying an in-bounds operation keeps the grid's dimensions and
/// well-formedness.
pub proof fn lemma_applied_op_preserves(m: Seq<Seq<(int, int)>>, t: AppliedOp, nr: int, nc: int)
    requires
        grid_dims(m, nr, nc),
        grid_wf(m),
        match t {
            AppliedOp::Row(op) => op_wf(op, nr),
            AppliedOp::Col(op) => op_wf(op, nc),
        },
    ensures
        grid_dims(spec_applied_op(m, t), nr, nc),
        grid_wf(spec_applied_op(m, t)),
{
    let out = spec_applied_op(m, t);
    match t {
        AppliedOp::Row(op) => match op {
            Operation::Swap(i, j) => {
            },
            Operation::Scale(i, l) => {
                assert forall|p: int, q: int|
                    0 <= p < out.len() && 0 <= q < out[p].len() implies (
                #[trigger] out[p][q]).1 > 0 by {
                    if p == i {
                        lemma_pos_mul(l.den as int, m[p][q].1);
                    }
                }
            },
            Operation::Add(i, j, l) => {
                assert forall|p: int, q: int|
                    0 <= p < out.len() && 0 <= q < out[p].len() implies (
                #[trigger] out[p][q]).1 > 0 by {
                    if p == i {
                        lemma_pos_mul(l.den as int, m[j as int][q].1);
                        lemma_pos_mul(m[p][q].1, l.den as int * m[j as int][q].1);
                    }
                }
            },
        },
        AppliedOp::Col(op) => match op {
            Operation::Swap(i, j) => {
            },
            Operation::Scale(i, l) => {
                assert forall|p: int, q: int|
                    0 <= p < out.len() && 0 <= q < out[p].len() implies (
                #[trigger] out[p][q]).1 > 0 by {
                    if q == i {
                        lemma_pos_mul(l.den as int, m[p][q].1);
                    }
                }
            },
            Operation::Add(i, j, l) => {
                assert forall|p: int, q: int|
                    0 <= p < out.len() && 0 <= q < out[p].len() implies (
                #[trigger] out[p][q]).1 > 0 by {
                    if q == i {
                        lemma_pos_mul(l.den as int, m[p][j as int].1);
                        lemma_pos_mul(m[p][q].1, l.den as int * m[p][j as int].1);
                    }
                }
            },
        },
    }
}

/// Applying one operation to grids that agree rationally gives grids that
/// agree rationally.
pub proof fn lemma_applied_op_congruence(
    a: Seq<Seq<(int, int)>>,
    b: Seq<Seq<(int, int)>>,
    t: AppliedOp,
    nr: int,
    nc: int,
)
    requires
        grid_dims(a, nr, nc),
        grid_dims(b, nr, nc),
        grids_rat_eq(a, b),
        match t {
            AppliedOp::Row(op) => op_wf(op, nr),
            AppliedOp::Col(op) => op_wf(op, nc),
        },
    ensures
        grids_rat_eq(spec_applied_op(a, t), spec_applied_op(b, t)),
{
    let oa = spec_applied_op(a, t);
    let ob = spec_applied_op(b, t);
    assert forall|p: int, q: int|
        0 <= p < oa.len() && 0 <= q < oa[p].len() implies rat_eq(#[trigger] oa[p][q], ob[p][q])
        by {
        match t {
            AppliedOp::Row(op) => match op {
                Operation::Swap(i, j) => {
                },
                Operation::Scale(i, l) => {
                    if p == i {
                        crate::frac::lemma_rat_mul_congruence(
                            fracv(l),
                            fracv(l),
                            a[p][q],
                            b[p][q],
                        );
                    }
                },
                Operation::Add(i, j, l) => {
                    if p == i {
                        crate::frac::lemma_rat_mul_congruence(
                            fracv(l),
                            fracv(l),
                            a[j as int][q],
                            b[j as int][q],
                        );
                        crate::frac::lemma_rat_add_congruence(
                            a[p][q],
                            b[p][q],
                            rat_mul(fracv(l), a[j as int][q]),
                            rat_mul(fracv(l), b[j as int][q]),
                        );
                    }
                },
            },
            AppliedOp::Col(op) => match op {
                Operation::Swap(i, j) => {
                },
                Operation::Scale(i, l) => {
                    if q == i {
                        crate::frac::lemma_rat_mul_congruence(
                            fracv(l),
                            fracv(l),
                            a[p][q],
                            b[p][q],
                        );
                    }
                },
                Operation::Add(i, j, l) => {
                    if q == i {
                        crate::frac::lemma_rat_mul_congruence(
                            fracv(l),
                            fracv(l),
                            a[p][j as int],
                            b[p][j as int],
                        );
                        crate::frac::lemma_rat_add_congruence(
                            a[p][q],
                            b[p][q],
                            rat_mul(fracv(l), a[p][j as int]),
                            rat_mul(fracv(l), b[p][j as int]),
                        );
                    }
                },
            },
        }
    }
}

/// Applying an operation and then its inverse returns the original grid,
/// entry by entry as rationals.
pub proof fn lemma_applied_op_undo(m: Seq<Seq<(int, int)>>, t: AppliedOp, it: AppliedOp, nr: int, nc: int)
    requires
        grid_dims(m, nr, nc),
        grid_wf(m),
        match t {
            AppliedOp::Row(op) => op_wf(op, nr) && op_invertible(op),
            AppliedOp::Col(op) => op_wf(op, nc) && op_invertible(op),
        },
        applied_op_inverse(t, it),
    ensures
        grids_rat_eq(spec_applied_op(spec_applied_op(m, t), it), m),
{
    let mid = spec_applied_op(m, t);
    let out = spec_applied_op(mid, it);
    assert forall|p: int, q: int|
        0 <= p < out.len() && 0 <= q < out[p].len() implies rat_eq(#[trigger] out[p][q], m[p][q])
        by {
        match t {
            AppliedOp::Row(op) => match op {
                Operation::Swap(i, j) => {
                    if p == i as int || p == j as int {
                    }
                },
                Operation::Scale(i, l) => {
                    if p == i {
                        crate::frac::lemma_rat_mul_inv(fracv(l), m[p][q]);
                    }
                },
                Operation::Add(i, j, l) => {
                    if p == i {
                        assert(mid[j as int][q] == m[j as int][q]);
                        crate::frac::lemma_rat_add_cancel(m[p][q], fracv(l), m[j as int][q]);
                    }
                },
            },
            AppliedOp::Col(op) => match op {
                Operation::Swap(i, j) => {
                    if q == i as int || q == j as int {
                    }
                },
                Operation::Scale(i, l) => {
                    if q == i {
                        crate::frac::lemma_rat_mul_inv(fracv(l), m[p][q]);
                    }
                },
                Operation::Add(i, j, l) => {
                    if q == i {
                        assert(mid[p][j as int] == m[p][j as int]);
                        crate::frac::lemma_rat_add_cancel(m[p][q], fracv(l), m[p][j as int]);
                    }
                },
            },
        }
    }
}

/// Peeling the first operation off a history.
pub proof fn lemma_apply_trace_prepend(m: Seq<Seq<(int, int)>>, t: AppliedOp, rest: Seq<AppliedOp>)
    ensures
        apply_trace(m, seq![t] + rest) == apply_trace(spec_applied_op(m, t), rest),
    decreases rest.len(),
{
    let s = seq![t] + rest;
    let mid = spec_applied_op(m, t);
    if rest.len() == 0 {
        assert(s.len() == 1);
        assert(s.drop_last() =~= Seq::<AppliedOp>::empty());
        assert(s.last() == t);
        assert(apply_trace(m, s) == spec_applied_op(apply_trace(m, s.drop_last()), t));
        assert(apply_trace(m, s.drop_last()) == m);
        assert(apply_trace(mid, rest) == mid);
    } else {
        assert(s.len() == 1 + rest.len());
        assert(s.drop_last() =~= seq![t] + rest.drop_last());
        assert(s.last() == rest.last());
        lemma_apply_trace_prepend(m, t, rest.drop_last());
        assert(apply_trace(m, s) == spec_applied_op(apply_trace(m, s.drop_last()), s.last()));
        assert(apply_trace(mid, rest) == spec_applied_op(
            apply_trace(mid, rest.drop_last()),
            rest.last(),
        ));
    }
}

impl Operation {
    /// Apply the operation to the rows of `d`; `Err` when the exact
    /// arithmetic leaves the machine range, in which case only the
    /// dimensions and well-formedness of `d` are promised.
    pub fn row_op(&self, d: &mut Matrix) -> (r: Result<(), TdaError>)
        requires
            old(d).wf(),
            op_wf(*self, old(d).nrows as int),
        ensures
            final(d).wf(),
            final(d).nrows == old(d).nrows,
            final(d).ncols == old(d).ncols,
            r is Ok <==> row_op_fits(old(d).rep(), *self),
            r is Ok ==> final(d).rep() == spec_row_op(old(d).rep(), *self),
            r is Err ==> r == Result::<(), TdaError>::Err(TdaError::ArithmeticOverflow),
    {
        proof {
            d.lemma_rep_wf();
        }
        match *self {
            Operation::Swap(i, j) => {
                d.swap_rows(i, j);
                Ok(())
            },
            Operation::Scale(i, l) => {
                let ghost orig = d.rep();
                let mut c: usize = 0;
                while c < d.ncols
                    invariant
                        c <= old(d).ncols,
                        d.wf(),
                        d.nrows == old(d).nrows,
                        d.ncols == old(d).ncols,
                        i < d.nrows,
                        frac_wf(l),
                        *self == Operation::Scale(i, l),
                        orig == old(d).rep(),
                        grid_dims(orig, d.nrows as int, d.ncols as int),
                        forall|cp: int| 0 <= cp < c ==> rat_mul_fits(
                            fracv(l),
                            #[trigger] orig[i as int][cp],
                        ),
                        forall|p: int, q: int|
                            0 <= p < d.nrows && 0 <= q < d.ncols ==> #[trigger] d.rep()[p][q]
                                == (if p == i && q < c {
                                rat_mul(fracv(l), orig[p][q])
                            } else {
                                orig[p][q]
                            }),
                    decreases d.ncols - c,
                {
                    let x = d.get(i, c);
                    proof {
                        assert(fracv(x) == orig[i as int][c as int]);
                    }
                    let y = match l.try_mul(x) {
                        Some(y) => y,
                        None => {
                            proof {
                                assert(orig[i as int].len() == d.ncols as int);
                                assert(!rat_mul_fits(fracv(l), orig[i as int][c as int]));
                                lemma_row_scale_unfit(orig, i, l, c as int);
                            }
                            return Err(TdaError::ArithmeticOverflow);
                        },
                    };
                    d.set(i, c, y);
                    proof {
                        d.lemma_rep_wf();
                    }
                    c += 1;
                }
                proof {
                    assert(orig[i as int].len() == d.ncols as int);
                    assert(row_op_fits(orig, *self));
                    assert(d.rep() =~~= spec_row_op(orig, *self));
                }
                Ok(())
            },
            Operation::Add(i, j, l) => {
                let ghost orig = d.rep();
                let mut c: usize = 0;
                while c < d.ncols
                    invariant
                        c <= old(d).ncols,
                        d.wf(),
                        d.nrows == old(d).nrows,
                        d.ncols == old(d).ncols,
                        i < d.nrows,
                        j < d.nrows,
                        i != j,
                        frac_wf(l),
                        *self == Operation::Add(i, j, l),
                        orig == old(d).rep(),
                        grid_dims(orig, d.nrows as int, d.ncols as int),
                        forall|cp: int| 0 <= cp < c ==> rat_mul_fits(
                            fracv(l),
                            #[trigger] orig[j as int][cp],
                        ) && rat_add_fits(
                            orig[i as int][cp],
                            rat_mul(fracv(l), orig[j as int][cp]),
                        ),
                        forall|p: int, q: int|
                            0 <= p < d.nrows && 0 <= q < d.ncols ==> #[trigger] d.rep()[p][q]
                                == (if p == i && q < c {
                                rat_add(orig[p][q], rat_mul(fracv(l), orig[j as int][q]))
                            } else {
                                orig[p][q]
                            }),
                    decreases d.ncols - c,
                {
                    let x = d.get(i, c);
                    let y = d.get(j, c);
                    proof {
                        assert(fracv(x) == orig[i as int][c as int]);
                        assert(fracv(y) == orig[j as int][c as int]);
                    }
                    let prod = match l.try_mul(y) {
                        Some(p) => p,
                        None => {
                            proof {
                                assert(orig[i as int].len() == d.ncols as int);
                                assert(!rat_mul_fits(fracv(l), orig[j as int][c as int]));
                                lemma_row_add_unfit(orig, i, j, l, c as int);
                            }
                            return Err(TdaError::ArithmeticOverflow);
                        },
                    };
                    let sum = match x.try_add(prod) {
                        Some(s) => s,
                        None => {
                            proof {
                                assert(orig[i as int].len() == d.ncols as int);
                                assert(!rat_add_fits(
                                    orig[i as int][c as int],
                                    rat_mul(fracv(l), orig[j as int][c as int]),
                                ));
                                lemma_row_add_unfit(orig, i, j, l, c as int);
                            }
                            return Err(TdaError::ArithmeticOverflow);
                        },
                    };
                    d.set(i, c, sum);
                    proof {
                        d.lemma_rep_wf();
                    }
                    c += 1;
                }
                proof {
                    assert(orig[i as int].len() == d.ncols as int);
                    assert(row_op_fits(orig, *self));
                    assert(d.rep() =~~= spec_row_op(orig, *self));
                }
                Ok(())
            },
        }
    }

    /// Apply the operation to the columns of `d`, under the same contract
    /// as `row_op`.
    pub fn col_op(&self, d: &mut Matrix) -> (r: Result<(), TdaError>)
        requires
            old(d).wf(),
            op_wf(*self, old(d).ncols as int),
        ensures
            final(d).wf(),
            final(d).nrows == old(d).nrows,
            final(d).ncols == old(d).ncols,
            r is Ok <==> col_op_fits(old(d).rep(), *self),
            r is Ok ==> final(d).rep() == spec_col_op(old(d).rep(), *self),
            r is Err ==> r == Result::<(), TdaError>::Err(TdaError::ArithmeticOverflow),
    {
        proof {
            d.lemma_rep_wf();
        }
        match *self {
            Operation::Swap(i, j) => {
                let ghost orig = d.rep();
                d.swap_cols(i, j);
                proof {
                    assert(d.rep() =~~= spec_col_op(orig, *self));
                }
                Ok(())
            },
            Operation::Scale(i, l) => {
                let ghost orig = d.rep();
                let mut p: usize = 0;
                while p < d.nrows
                    invariant
                        p <= old(d).nrows,
                        d.wf(),
                        d.nrows == old(d).nrows,
                        d.ncols == old(d).ncols,
                        i < d.ncols,
                        frac_wf(l),
                        *self == Operation::Scale(i, l),
                        orig == old(d).rep(),
                        grid_dims(orig, d.nrows as int, d.ncols as int),
                        forall|pp: int| 0 <= pp < p ==> rat_mul_fits(
                            fracv(l),
                            #[trigger] orig[pp][i as int],
                        ),
                        forall|r2: int, q: int|
                            0 <= r2 < d.nrows && 0 <= q < d.ncols ==> #[trigger] d.rep()[r2][q]
                                == (if q == i && r2 < p {
                                rat_mul(fracv(l), orig[r2][q])
                            } else {
                                orig[r2][q]
                            }),
                    decreases d.nrows - p,
                {
                    let x = d.get(p, i);
                    proof {
                        assert(fracv(x) == orig[p as int][i as int]);
                    }
                    let y = match l.try_mul(x) {
                        Some(y) => y,
                        None => {
                            proof {
                                assert(!rat_mul_fits(fracv(l), orig[p as int][i as int]));
                                lemma_col_scale_unfit(orig, i, l, p as int);
                            }
                            return Err(TdaError::ArithmeticOverflow);
                        },
                    };
                    d.set(p, i, y);
                    proof {
                        d.lemma_rep_wf();
                    }
                    p += 1;
                }
                proof {
                    assert(col_op_fits(orig, *self));
                    assert(d.rep() =~~= spec_col_op(orig, *self));
                }
                Ok(())
            },
            Operation::Add(i, j, l) => {
                let ghost orig = d.rep();
                let mut p: usize = 0;
                while p < d.nrows
                    invariant
                        p <= old(d).nrows,
                        d.wf(),
                        d.nrows == old(d).nrows,
                        d.ncols == old(d).ncols,
                        i < d.ncols,
                        j < d.ncols,
                        i != j,
                        frac_wf(l),
                        *self == Operation::Add(i, j, l),
                        orig == old(d).rep(),
                        grid_dims(orig, d.nrows as int, d.ncols as int),
                        forall|pp: int| 0 <= pp < p ==> rat_mul_fits(
                            fracv(l),
                            #[trigger] orig[pp][j as int],
                        ) && rat_add_fits(
                            orig[pp][i as int],
                            rat_mul(fracv(l), orig[pp][j as int]),
                        ),
                        forall|r2: int, q: int|
                            0 <= r2 < d.nrows && 0 <= q < d.ncols ==> #[trigger] d.rep()[r2][q]
                                == (if q == i && r2 < p {
                                rat_add(orig[r2][q], rat_mul(fracv(l), orig[r2][j as int]))
                            } else {
                                orig[r2][q]
                            }),
                    decreases d.nrows - p,
                {
                    let x = d.get(p, i);
                    let y = d.get(p, j);
                    proof {
                        assert(fracv(x) == orig[p as int][i as int]);
                        assert(fracv(y) == orig[p as int][j as int]);
                    }
                    let prod = match l.try_mul(y) {
                        Some(pr) => pr,
                        None => {
                            proof {
                                assert(!rat_mul_fits(fracv(l), orig[p as int][j as int]));
                                lemma_col_add_unfit(orig, i, j, l, p as int);
                            }
                            return Err(TdaError::ArithmeticOverflow);
                        },
                    };
                    let sum = match x.try_add(prod) {
                        Some(s) => s,
                        None => {
                            proof {
                                assert(!rat_add_fits(
                                    orig[p as int][i as int],
                                    rat_mul(fracv(l), orig[p as int][j as int]),
                                ));
                                lemma_col_add_unfit(orig, i, j, l, p as int);
                            }
                            return Err(TdaError::ArithmeticOverflow);
                        },
                    };
                    d.set(p, i, sum);
                    proof {
                        d.lemma_rep_wf();
                    }
                    p += 1;
                }
                proof {
                    assert(col_op_fits(orig, *self));
                    assert(d.rep() =~~= spec_col_op(orig, *self));
                }
                Ok(())
            },
        }
    }

    /// The inverse operation: swaps reverse, scalings invert the scalar,
    /// additions negate it.  A `Scale` must carry a nonzero scalar.
    pub fn inv(&self) -> (r: Operation)
        requires
            match *self {
                Operation::Swap(i, j) => true,
                Operation::Scale(i, l) => frac_wf(l) && l.num != 0,
                Operation::Add(i, j, l) => frac_wf(l),
            },
        ensures
            is_op_inverse(*self, r),
    {
        match *self {
            Operation::Swap(i, j) => Operation::Swap(j, i),
            Operation::Scale(i, l) => Operation::Scale(i, l.inv()),
            Operation::Add(i, j, l) => Operation::Add(i, j, l.neg()),
        }
    }

    /// The matrix of the operation acting on rows: the operation applied
    /// to the `n x n` identity.
    pub fn row_matrix(&self, n: usize) -> (r: Result<Matrix, TdaError>)
        requires
            n * n <= usize::MAX,
            op_wf(*self, n as int),
        ensures
            r is Ok <==> row_op_fits(identity_rep(n as int), *self),
            r matches Ok(m) ==> m.wf() && m.nrows == n && m.ncols == n && m.rep() == spec_row_op(
                identity_rep(n as int),
                *self,
            ),
            r is Err ==> r == Result::<Matrix, TdaError>::Err(TdaError::ArithmeticOverflow),
    {
        let mut m = Matrix::identity(n);
        proof {
            assert(m.rep() =~~= identity_rep(n as int));
        }
        self.row_op(&mut m)?;
        Ok(m)
    }

    /// The matrix of the operation acting on columns.
    pub fn col_matrix(&self, n: usize) -> (r: Result<Matrix, TdaError>)
        requires
            n * n <= usize::MAX,
            op_wf(*self, n as int),
        ensures
            r is Ok <==> col_op_fits(identity_rep(n as int), *self),
            r matches Ok(m) ==> m.wf() && m.nrows == n && m.ncols == n && m.rep() == spec_col_op(
                identity_rep(n as int),
                *self,
            ),
            r is Err ==> r == Result::<Matrix, TdaError>::Err(TdaError::ArithmeticOverflow),
    {
        let mut m = Matrix::identity(n);
        proof {
            assert(m.rep() =~~= identity_rep(n as int));
        }
        self.col_op(&mut m)?;
        Ok(m)
    }
}

/// The `n x n` identity grid.
pub open spec fn identity_rep(n: int) -> Seq<Seq<(int, int)>> {
    Seq::new(
        n as nat,
        |i: int| Seq::new(n as nat, |j: int| if i == j { (1int, 1int) } else { (0int, 1int) }),
    )
}

/// An ordered sequence of elementary operations, applied first to last.
#[derive(Debug)]
pub struct Operations {
    pub ops: Vec<Operation>,
}

/// Every operation addresses lines below `n` and is well-formed.
pub open spec fn ops_wf(ops: Seq<Operation>, n: int) -> bool {
    forall|k: int| 0 <= k < ops.len() ==> op_wf(#[trigger] ops[k], n)
}

/// Every operation in the sequence has an inverse.
pub open spec fn ops_invertible(ops: Seq<Operation>) -> bool {
    forall|k: int| 0 <= k < ops.len() ==> op_invertible(#[trigger] ops[k])
}

proof fn lemma_apply_row_ops_push(m: Seq<Seq<(int, int)>>, ops: Seq<Operation>, op: Operation)
    ensures
        apply_row_ops(m, ops.push(op)) == spec_row_op(apply_row_ops(m, ops), op),
{
    assert(ops.push(op).drop_last() =~= ops);
    assert(ops.push(op).last() == op);
}

proof fn lemma_apply_col_ops_push(m: Seq<Seq<(int, int)>>, ops: Seq<Operation>, op: Operation)
    ensures
        apply_col_ops(m, ops.push(op)) == spec_col_op(apply_col_ops(m, ops), op),
{
    assert(ops.push(op).drop_last() =~= ops);
    assert(ops.push(op).last() == op);
}

impl Operations {
    /// The empty sequence.
    pub fn new() -> (r: Operations)
        ensures
            r.ops@ == Seq::<Operation>::empty(),
    {
        Operations { ops: Vec::new() }
    }

    /// Record one more operation at the end.
    pub fn push(&mut self, op: Operation)
        ensures
            final(self).ops@ == old(self).ops@.push(op),
    {
        self.ops.push(op);
    }

    /// Apply the whole sequence, in order, to the rows of `d`.  `Err`
    /// reports exact-arithmetic overflow; `d` then keeps only its
    /// dimensions and well-formedness.
    pub fn row_op(&self, d: &mut Matrix) -> (r: Result<(), TdaError>)
        requires
            old(d).wf(),
            ops_wf(self.ops@, old(d).nrows as int),
        ensures
            final(d).wf(),
            final(d).nrows == old(d).nrows,
            final(d).ncols == old(d).ncols,
            r is Ok <==> row_ops_fit(old(d).rep(), self.ops@),
            r is Ok ==> final(d).rep() == apply_row_ops(old(d).rep(), self.ops@),
            r is Err ==> r == Result::<(), TdaError>::Err(TdaError::ArithmeticOverflow),
    {
        let ghost orig = d.rep();
        let mut k: usize = 0;
        while k < self.ops.len()
            invariant
                k <= self.ops@.len(),
                d.wf(),
                d.nrows == old(d).nrows,
                d.ncols == old(d).ncols,
                orig == old(d).rep(),
                ops_wf(self.ops@, d.nrows as int),
                row_ops_fit(orig, self.ops@.take(k as int)),
                d.rep() == apply_row_ops(orig, self.ops@.take(k as int)),
            decreases self.ops@.len() - k,
        {
            let op = self.ops[k];
            let ghost pre = self.ops@.take(k as int);
            match op.row_op(d) {
                Ok(()) => {},
                Err(e) => {
                    proof {
                        if row_ops_fit(orig, self.ops@) {
                            lemma_row_ops_fit_prefix(orig, self.ops@, k as int);
                            assert(false);
                        }
                    }
                    return Err(e);
                },
            }
            proof {
                lemma_apply_row_ops_push(orig, pre, op);
                lemma_row_ops_fit_push(orig, pre, op);
                assert(self.ops@.take(k as int + 1) =~= pre.push(op));
            }
            k += 1;
        }
        proof {
            assert(self.ops@.take(self.ops@.len() as int) =~= self.ops@);
        }
        Ok(())
    }

    /// Apply the whole sequence, in order, to the columns of `d`.
    pub fn col_op(&self, d: &mut Matrix) -> (r: Result<(), TdaError>)
        requires
            old(d).wf(),
            ops_wf(self.ops@, old(d).ncols as int),
        ensures
            final(d).wf(),
            final(d).nrows == old(d).nrows,
            final(d).ncols == old(d).ncols,
            r is Ok <==> col_ops_fit(old(d).rep(), self.ops@),
            r is Ok ==> final(d).rep() == apply_col_ops(old(d).rep(), self.ops@),
            r is Err ==> r == Result::<(), TdaError>::Err(TdaError::ArithmeticOverflow),
    {
        let ghost orig = d.rep();
        let mut k: usize = 0;
        while k < self.ops.len()
            invariant
                k <= self.ops@.len(),
                d.wf(),
                d.nrows == old(d).nrows,
                d.ncols == old(d).ncols,
                orig == old(d).rep(),
                ops_wf(self.ops@, d.ncols as int),
                col_ops_fit(orig, self.ops@.take(k as int)),
                d.rep() == apply_col_ops(orig, self.ops@.take(k as int)),
            decreases self.ops@.len() - k,
        {
            let op = self.ops[k];
            let ghost pre = self.ops@.take(k as int);
            match op.col_op(d) {
                Ok(()) => {},
                Err(e) => {
                    proof {
                        if col_ops_fit(orig, self.ops@) {
                            lemma_col_ops_fit_prefix(orig, self.ops@, k as int);
                            assert(false);
                        }
                    }
                    return Err(e);
                },
            }
            proof {
                lemma_apply_col_ops_push(orig, pre, op);
                lemma_col_ops_fit_push(orig, pre, op);
                assert(self.ops@.take(k as int + 1) =~= pre.push(op));
            }
            k += 1;
        }
        proof {
            assert(self.ops@.take(self.ops@.len() as int) =~= self.ops@);
        }
        Ok(())
    }

    /// The inverse sequence: the operations reversed, each inverted.
    /// Applying a sequence and then its inverse is the identity transform.
    pub fn inv(&self) -> (r: Operations)
        requires
            ops_invertible(self.ops@),
            forall|k: int| 0 <= k < self.ops@.len() ==> match #[trigger] self.ops@[k] {
                Operation::Swap(i, j) => true,
                Operation::Scale(i, l) => frac_wf(l),
                Operation::Add(i, j, l) => frac_wf(l),
            },
        ensures
            is_inverse_ops(self.ops@, r.ops@),
    {
        let mut out: Vec<Operation> = Vec::new();
        let n = self.ops.len();
        let mut k: usize = 0;
        while k < n
            invariant
                k <= n,
                n == self.ops@.len(),
                out@.len() == k,
                ops_invertible(self.ops@),
                forall|q: int| 0 <= q < self.ops@.len() ==> match #[trigger] self.ops@[q] {
                    Operation::Swap(i, j) => true,
                    Operation::Scale(i, l) => frac_wf(l),
                    Operation::Add(i, j, l) => frac_wf(l),
                },
                forall|q: int| 0 <= q < k ==> is_op_inverse(
                    self.ops@[n - 1 - q],
                    #[trigger] out@[q],
                ),
            decreases n - k,
        {
            let op = self.ops[n - 1 - k];
            out.push(op.inv());
            k += 1;
        }
        Operations { ops: out }
    }

    /// The matrix of the sequence acting on rows: the sequence applied to
    /// the `n x n` identity.
    pub fn row_matrix(&self, n: usize) -> (r: Result<Matrix, TdaError>)
        requires
            n * n <= usize::MAX,
            ops_wf(self.ops@, n as int),
        ensures
            r is Ok <==> row_ops_fit(identity_rep(n as int), self.ops@),
            r matches Ok(m) ==> m.wf() && m.nrows == n && m.ncols == n && m.rep() == apply_row_ops(
                identity_rep(n as int),
                self.ops@,
            ),
            r is Err ==> r == Result::<Matrix, TdaError>::Err(TdaError::ArithmeticOverflow),
    {
        let mut m = Matrix::identity(n);
        proof {
            assert(m.rep() =~~= identity_rep(n as int));
        }
        self.row_op(&mut m)?;
        Ok(m)
    }

    /// The matrix of the sequence acting on columns.
    pub fn col_matrix(&self, n: usize) -> (r: Result<Matrix, TdaError>)
        requires
            n * n <= usize::MAX,
            ops_wf(self.ops@, n as int),
        ensures
            r is Ok <==> col_ops_fit(identity_rep(n as int), self.ops@),
            r matches Ok(m) ==> m.wf() && m.nrows == n && m.ncols == n && m.rep() == apply_col_ops(
                identity_rep(n as int),
                self.ops@,
            ),
            r is Err ==> r == Result::<Matrix, TdaError>::Err(TdaError::ArithmeticOverflow),
    {
        let mut m = Matrix::identity(n);
        proof {
            assert(m.rep() =~~= identity_rep(n as int));
        }
        self.col_op(&mut m)?;
        Ok(m)
    }
}

} // verus!
