use tda::filtration::Filtration;
use tda::frac::Frac;
use tda::linear_algebra::operations::{Operation, Operations};
use tda::matrix::Matrix;
use tda::simplicial_complex::SimplicialComplex;

fn int_matrix(nrows: usize, ncols: usize, entries: Vec<i64>) -> Matrix {
    let data: Vec<Frac> = entries.into_iter().map(Frac::from_int).collect();
    Matrix::from_flat(nrows, ncols, data)
}

#[test]
fn frac_arithmetic() {
    let half = Frac { num: 1, den: 2 };
    let third = Frac { num: 1, den: 3 };
    let sum = half.try_add(third).unwrap();
    assert_eq!((sum.num, sum.den), (5, 6));
    let prod = half.try_mul(third).unwrap();
    assert_eq!((prod.num, prod.den), (1, 6));
    let neg = half.neg();
    assert_eq!((neg.num, neg.den), (-1, 2));
    let inv = Frac { num: -2, den: 3 }.inv();
    assert_eq!((inv.num, inv.den), (-3, 2));
    assert!(Frac::zero().is_zero());
    assert!(Frac::one().is_one());
    assert!(Frac { num: 4, den: 4 }.is_one());
}

#[test]
fn operation_inverses() {
    assert_eq!(Operation::Swap(1, 2).inv(), Operation::Swap(2, 1));
    let scale = Operation::Scale(0, Frac { num: 2, den: 3 });
    assert_eq!(scale.inv(), Operation::Scale(0, Frac { num: 3, den: 2 }));
    let add = Operation::Add(0, 1, Frac { num: 5, den: 1 });
    assert_eq!(add.inv(), Operation::Add(0, 1, Frac { num: -5, den: 1 }));
}

#[test]
fn row_and_col_ops_apply() {
    let mut m = int_matrix(2, 2, vec![
        1, 2, //
        3, 4,
    ]);
    Operation::Swap(0, 1).row_op(&mut m).unwrap();
    assert_eq!(m, int_matrix(2, 2, vec![
        3, 4, //
        1, 2,
    ]));
    Operation::Add(0, 1, Frac::from_int(2)).row_op(&mut m).unwrap();
    assert_eq!(m, int_matrix(2, 2, vec![
        5, 8, //
        1, 2,
    ]));
    Operation::Swap(0, 1).col_op(&mut m).unwrap();
    assert_eq!(m, int_matrix(2, 2, vec![
        8, 5, //
        2, 1,
    ]));
}

#[test]
fn operation_matrices() {
    let swap = Operation::Swap(0, 1).row_matrix(2).unwrap();
    assert_eq!(swap, int_matrix(2, 2, vec![
        0, 1, //
        1, 0,
    ]));
    let add_row = Operation::Add(0, 1, Frac::from_int(3)).row_matrix(2).unwrap();
    assert_eq!(add_row, int_matrix(2, 2, vec![
        1, 3, //
        0, 1,
    ]));
    let add_col = Operation::Add(0, 1, Frac::from_int(3)).col_matrix(2).unwrap();
    assert_eq!(add_col, int_matrix(2, 2, vec![
        1, 0, //
        3, 1,
    ]));
}

#[test]
fn sequence_and_inverse_cancel() {
    let mut ops = Operations::new();
    ops.push(Operation::Swap(0, 1));
    ops.push(Operation::Scale(0, Frac::from_int(2)));
    ops.push(Operation::Add(1, 0, Frac::from_int(3)));
    let m0 = int_matrix(2, 3, vec![
        1, 2, 3, //
        4, 5, 6,
    ]);
    let mut m = m0.dup();
    ops.row_op(&mut m).unwrap();
    assert_ne!(m, m0);
    ops.inv().row_op(&mut m).unwrap();
    for i in 0..2 {
        for j in 0..3 {
            let a = m.get(i, j);
            let b = m0.get(i, j);
            assert_eq!(a.num * b.den, b.num * a.den);
        }
    }
}

#[test]
fn filtration_holds_complexes() {
    let f = Filtration::new(vec![SimplicialComplex::solid(0), SimplicialComplex::solid(1)]);
    assert_eq!(f.data.len(), 2);
    assert_eq!(f.data[1], SimplicialComplex::solid(1));
}
