use tda::frac::Frac;
use tda::linear_algebra::smith::Smith;
use tda::matrix::Matrix;

fn int_matrix(nrows: usize, ncols: usize, entries: Vec<i64>) -> Matrix {
    let data: Vec<Frac> = entries.into_iter().map(Frac::from_int).collect();
    Matrix::from_flat(nrows, ncols, data)
}

fn rat_eq(a: (i128, i128), b: (i128, i128)) -> bool {
    a.0 * b.1 == b.0 * a.1
}

/// The rational product of two matrices, unreduced.
fn rat_product(a: &Matrix, b: &Matrix) -> Vec<Vec<(i128, i128)>> {
    assert_eq!(a.ncols, b.nrows);
    let mut out = vec![vec![(0i128, 1i128); b.ncols]; a.nrows];
    for i in 0..a.nrows {
        for j in 0..b.ncols {
            let mut acc = (0i128, 1i128);
            for t in 0..a.ncols {
                let x = a.get(i, t);
                let y = b.get(t, j);
                let prod = (x.num * y.num, x.den * y.den);
                acc = (acc.0 * prod.1 + prod.0 * acc.1, acc.1 * prod.1);
            }
            out[i][j] = acc;
        }
    }
    out
}

fn matrices_rat_eq(a: &[Vec<(i128, i128)>], b: &Matrix) -> bool {
    a.len() == b.nrows
        && (0..b.nrows).all(|i| {
            (0..b.ncols).all(|j| {
                let f = b.get(i, j);
                rat_eq(a[i][j], (f.num, f.den))
            })
        })
}

#[test]
fn identity() {
    let m = int_matrix(3, 3, vec![
        1, 0, 0, //
        0, 1, 0, //
        0, 0, 1,
    ]);
    let sm = Smith::of(&m).unwrap();
    println!("{:?}", sm.result());
}

#[test]
fn some_matrix1() {
    let m = int_matrix(3, 3, vec![
        1, 1, 1, //
        0, 1, 1, //
        0, 0, 1,
    ]);
    let sm = Smith::of(&m).unwrap();
    let d = sm.result();
    let c = sm.col_ops().col_matrix(3).unwrap();
    let r = sm.row_ops().row_matrix(3).unwrap();
    println!("{:?}", d);
    let rm = rat_product(&r, &m);
    // materialize r * m to multiply again by c
    let mut rm_flat: Vec<Frac> = Vec::new();
    for row in &rm {
        for &(n, den) in row {
            rm_flat.push(Frac { num: n, den });
        }
    }
    let rm_mat = Matrix::from_flat(3, 3, rm_flat);
    let rmc = rat_product(&rm_mat, &c);
    println!("{:?}", rmc);
    assert!(matrices_rat_eq(&rmc, d));
}

#[test]
fn some_matrix2() {
    let m = int_matrix(3, 3, vec![
        1, 1, 1, //
        0, 2, 1, //
        0, 0, 1,
    ]);
    let sm = Smith::of(&m).unwrap();
    println!("{:?}", sm.result());
    let mut d = sm.result().dup();
    sm.row_ops().inv().row_op(&mut d).unwrap();
    sm.col_ops().inv().col_op(&mut d).unwrap();
    println!("{:?}", d);
}

#[test]
fn some_matrix3() {
    let m = int_matrix(3, 3, vec![
        1, 1, 1, //
        7, 2, 1, //
        8, 6, 3,
    ]);
    let sm = Smith::of(&m).unwrap();
    println!("{:?}", sm.result());
    let mut d = sm.result().dup();
    sm.row_ops().inv().row_op(&mut d).unwrap();
    sm.col_ops().inv().col_op(&mut d).unwrap();
    println!("{:?}", d);
}

#[test]
fn some_matrix4() {
    let m = int_matrix(3, 3, vec![
        1, 1, 0, //
        1, 1, 0, //
        0, 0, 1,
    ]);
    let sm = Smith::of(&m).unwrap();
    println!("{:?}", sm.result());
    let mut d = sm.result().dup();
    sm.row_ops().inv().row_op(&mut d).unwrap();
    sm.col_ops().inv().col_op(&mut d).unwrap();
    println!("{:?}", d);
}

#[test]
fn rectangle() {
    let m = int_matrix(3, 4, vec![
        1, 2, 3, 4, //
        5, 6, 7, 8, //
        9, 10, 11, 12,
    ]);
    let sm = Smith::of(&m).unwrap();
    println!("{:?}", sm.result());
}

#[test]
fn reduction_round_trip() {
    // applying the recorded operations to the input reproduces the
    // result, and undoing them recovers the input exactly
    let m = int_matrix(3, 3, vec![
        1, 1, 1, //
        7, 2, 1, //
        8, 6, 3,
    ]);
    let sm = Smith::of(&m).unwrap();
    let mut fwd = m.dup();
    sm.row_ops().row_op(&mut fwd).unwrap();
    sm.col_ops().col_op(&mut fwd).unwrap();
    for i in 0..3 {
        for j in 0..3 {
            let a = fwd.get(i, j);
            let b = sm.result().get(i, j);
            assert!(rat_eq((a.num, a.den), (b.num, b.den)));
        }
    }
    let mut back = sm.result().dup();
    sm.row_ops().inv().row_op(&mut back).unwrap();
    sm.col_ops().inv().col_op(&mut back).unwrap();
    for i in 0..3 {
        for j in 0..3 {
            let a = back.get(i, j);
            let b = m.get(i, j);
            assert!(rat_eq((a.num, a.den), (b.num, b.den)));
        }
    }
}

#[test]
fn result_is_diagonal_zero_or_one() {
    let m = int_matrix(3, 4, vec![
        1, 2, 3, 4, //
        5, 6, 7, 8, //
        9, 10, 11, 12,
    ]);
    let sm = Smith::of(&m).unwrap();
    let d = sm.result();
    for i in 0..d.nrows {
        for j in 0..d.ncols {
            let f = d.get(i, j);
            if i != j {
                assert_eq!(f.num, 0);
            } else {
                assert!(f.num == 0 || f.num == f.den);
            }
        }
    }
    assert_eq!(sm.rank(), 2);
}

#[test]
fn zero_and_empty_matrices_reduce() {
    // already-reduced inputs need no arithmetic and always succeed
    let zero = Matrix::zeros(3, 2);
    let sm = Smith::of(&zero).unwrap();
    assert_eq!(sm.rank(), 0);
    assert_eq!(sm.row_ops().ops.len(), 0);
    assert_eq!(sm.col_ops().ops.len(), 0);
    let empty = Matrix::zeros(0, 4);
    let sme = Smith::of(&empty).unwrap();
    assert_eq!(sme.rank(), 0);
}

#[test]
fn nonzero_diagonal_entries_lead() {
    let m = int_matrix(3, 3, vec![
        0, 0, 0, //
        0, 5, 0, //
        0, 0, 0,
    ]);
    let sm = Smith::of(&m).unwrap();
    let d = sm.result();
    let first = d.get(0, 0);
    assert_eq!(first.num, first.den);
    assert_eq!(d.get(1, 1).num, 0);
    assert_eq!(d.get(2, 2).num, 0);
    assert_eq!(sm.rank(), 1);
}

#[test]
fn overflow_is_reported() {
    let huge = Frac { num: 1i128 << 100, den: 1 };
    let m = Matrix::from_flat(2, 2, vec![huge, huge, huge, huge]);
    assert!(matches!(Smith::of(&m), Err(tda::TdaError::ArithmeticOverflow)));
}
