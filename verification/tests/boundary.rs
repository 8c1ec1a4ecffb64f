use tda::frac::Frac;
use tda::matrix::Matrix;
use tda::simplicial_complex::SimplicialComplex;

fn int_matrix(nrows: usize, ncols: usize, entries: Vec<i64>) -> Matrix {
    let data: Vec<Frac> = entries.into_iter().map(Frac::from_int).collect();
    Matrix::from_flat(nrows, ncols, data)
}

fn entry_int(m: &Matrix, i: usize, j: usize) -> i128 {
    let f = m.get(i, j);
    assert_eq!(f.den, 1);
    f.num
}

/// The integer product of two matrices whose entries all have
/// denominator one.
fn int_product(a: &Matrix, b: &Matrix) -> Vec<Vec<i128>> {
    assert_eq!(a.ncols, b.nrows);
    let mut out = vec![vec![0i128; b.ncols]; a.nrows];
    for i in 0..a.nrows {
        for j in 0..b.ncols {
            for t in 0..a.ncols {
                out[i][j] += entry_int(a, i, t) * entry_int(b, t, j);
            }
        }
    }
    out
}

fn is_zero_grid(g: &[Vec<i128>]) -> bool {
    g.iter().all(|row| row.iter().all(|&x| x == 0))
}

#[test]
fn boundary_solid_0_simplex() {
    let k = SimplicialComplex::solid(0);
    println!("{:?}", k.boundary(1));
}

#[test]
fn boundary_solid_1_simplex() {
    let k = SimplicialComplex::solid(1);
    // There is only one non-zero boundary map for the 1-simplex.
    assert_eq!(
        k.boundary(1),
        int_matrix(
            2,
            1,
            // 01
            vec![
                -1, // 0
                1, // 1
            ],
        )
    );
}

#[test]
fn boundary_solid_2_simplex() {
    let k = SimplicialComplex::solid(2);
    let d2 = k.boundary(2);
    let d1 = k.boundary(1);
    // Here, we have two non-zero boundary maps
    assert_eq!(
        d2,
        int_matrix(
            3,
            1,
            // 012
            vec![
                1, // 01
                -1, // 02
                1, // 12
            ],
        )
    );
    assert_eq!(
        d1,
        int_matrix(
            3,
            3,
            // 01   02   12
            vec![
                -1, -1, 0, // 0
                1, 0, -1, // 1
                0, 1, 1, // 2
            ],
        )
    );
    // and the composition of boundary maps is zero
    assert!(is_zero_grid(&int_product(&d1, &d2)));
}

#[test]
fn boundary_solid_3_simplex() {
    let k = SimplicialComplex::solid(3);
    let d3 = k.boundary(3);
    let d2 = k.boundary(2);
    let d1 = k.boundary(1);
    // Here, we have three non-zero boundary maps
    assert_eq!(
        d3,
        int_matrix(
            4,
            1,
            // 0123
            vec![
                -1, // 012
                1, // 013
                -1, // 023
                1, // 123
            ],
        )
    );
    assert_eq!(
        d2,
        int_matrix(
            6,
            4,
            // 012  013  023  123
            vec![
                1, 1, 0, 0, // 01
                -1, 0, 1, 0, // 02
                0, -1, -1, 0, // 03
                1, 0, 0, 1, // 12
                0, 1, 0, -1, // 13
                0, 0, 1, 1, // 23
            ],
        )
    );
    assert_eq!(
        d1,
        int_matrix(
            4,
            6,
            // 01  02  03  12  13  23
            vec![
                -1, -1, -1, 0, 0, 0, // 0
                1, 0, 0, -1, -1, 0, // 1
                0, 1, 0, 1, 0, -1, // 2
                0, 0, 1, 0, 1, 1, // 3
            ],
        )
    );
    // and the composition of adjacent boundary maps is zero
    assert!(is_zero_grid(&int_product(&d1, &d2)));
    assert!(is_zero_grid(&int_product(&d2, &d3)));
}

#[test]
fn betti_solid_0_simplex() {
    let k = SimplicialComplex::solid(0);
    // First 4 Betti numbers of the solid 0-simplex
    assert_eq!(k.betti(0).unwrap(), 1);
    assert_eq!(k.betti(1).unwrap(), 0);
    assert_eq!(k.betti(2).unwrap(), 0);
    assert_eq!(k.betti(3).unwrap(), 0);
}

#[test]
fn betti_solid_1_simplex() {
    let k = SimplicialComplex::solid(1);
    // First 4 Betti numbers of the solid 1-simplex
    assert_eq!(k.betti(0).unwrap(), 1);
    assert_eq!(k.betti(1).unwrap(), 0);
    assert_eq!(k.betti(2).unwrap(), 0);
    assert_eq!(k.betti(3).unwrap(), 0);
}

#[test]
fn betti_solid_2_simplex() {
    let k = SimplicialComplex::solid(2);
    // First 4 Betti numbers of the solid 2-simplex
    assert_eq!(k.betti(0).unwrap(), 1);
    assert_eq!(k.betti(1).unwrap(), 0);
    assert_eq!(k.betti(2).unwrap(), 0);
    assert_eq!(k.betti(3).unwrap(), 0);
}

#[test]
fn betti_hollow_1_simplex() {
    let k = SimplicialComplex::hollow(1).unwrap();
    // First 4 Betti numbers of the hollow 1-simplex
    assert_eq!(k.betti(0).unwrap(), 2);
    assert_eq!(k.betti(1).unwrap(), 0);
    assert_eq!(k.betti(2).unwrap(), 0);
    assert_eq!(k.betti(3).unwrap(), 0);
}

#[test]
fn betti_hollow_2_simplex() {
    let k = SimplicialComplex::hollow(2).unwrap();
    // First 4 Betti numbers of the hollow 2-simplex
    assert_eq!(k.betti(0).unwrap(), 1);
    assert_eq!(k.betti(1).unwrap(), 1);
    assert_eq!(k.betti(2).unwrap(), 0);
    assert_eq!(k.betti(3).unwrap(), 0);
}

#[test]
fn betti_solid_3_simplex() {
    let k = SimplicialComplex::solid(3);
    assert_eq!(k.betti(0).unwrap(), 1);
    assert_eq!(k.betti(1).unwrap(), 0);
    assert_eq!(k.betti(2).unwrap(), 0);
    assert_eq!(k.betti(3).unwrap(), 0);
}

#[test]
fn euler_equals_alternating_betti_sum() {
    for k in [
        SimplicialComplex::solid(2),
        SimplicialComplex::solid(3),
        SimplicialComplex::hollow(1).unwrap(),
        SimplicialComplex::hollow(2).unwrap(),
        SimplicialComplex::hollow(3).unwrap(),
    ] {
        let mut sum: i64 = 0;
        for i in 0..=k.dim() {
            let b = k.betti(i).unwrap() as i64;
            if i % 2 == 0 {
                sum += b;
            } else {
                sum -= b;
            }
        }
        assert_eq!(k.euler(), sum);
    }
}
