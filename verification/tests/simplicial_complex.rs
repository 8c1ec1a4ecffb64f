use tda::simplex::Simplex;
use tda::simplicial_complex::SimplicialComplex;
use tda::TdaError;

fn complex_of(vs: Vec<Vec<usize>>) -> SimplicialComplex {
    SimplicialComplex::new(vs.into_iter().map(Simplex::new).collect())
}

#[test]
fn make_empty() {
    let k = SimplicialComplex::new(Vec::new());
    assert_eq!(k.vertices, Vec::<usize>::new());
    assert_eq!(k.simplices, Vec::<Simplex>::new());
}

#[test]
fn make_one_simplex() {
    let k = complex_of(vec![vec![0]]);
    assert_eq!(k.vertices, vec![0]);
    assert_eq!(k.simplices, vec![Simplex::new(vec![0])]);
}

#[test]
fn make_two_simplex1() {
    let k = complex_of(vec![vec![0], vec![1]]);
    assert_eq!(k.vertices, vec![0, 1]);
    assert_eq!(k.simplices, vec![Simplex::new(vec![0]), Simplex::new(vec![1])]);
}

#[test]
fn make_two_simplex2() {
    let k = complex_of(vec![vec![0], vec![1], vec![0, 1]]);
    assert_eq!(k.vertices, vec![0, 1]);
    assert_eq!(
        k.simplices,
        vec![Simplex::new(vec![0]), Simplex::new(vec![0, 1]), Simplex::new(vec![1])]
    );
}

#[test]
fn solid_0() {
    let k = SimplicialComplex::solid(0);
    assert_eq!(k, complex_of(vec![vec![0]]));
}

#[test]
fn solid_1() {
    let k = SimplicialComplex::solid(1);
    assert_eq!(k, complex_of(vec![vec![0], vec![1], vec![0, 1]]));
}

#[test]
fn solid_2() {
    let k = SimplicialComplex::solid(2);
    assert_eq!(
        k,
        complex_of(vec![
            vec![0],
            vec![1],
            vec![2],
            vec![0, 1],
            vec![0, 2],
            vec![1, 2],
            vec![0, 1, 2],
        ])
    );
}

#[test]
fn hollow_1() {
    let k = SimplicialComplex::hollow(1).unwrap();
    assert_eq!(k, complex_of(vec![vec![0], vec![1]]));
}

#[test]
fn hollow_2() {
    let k = SimplicialComplex::hollow(2).unwrap();
    assert_eq!(
        k,
        complex_of(vec![vec![0], vec![1], vec![2], vec![0, 1], vec![0, 2], vec![1, 2]])
    );
}

#[test]
fn hollow_0_is_an_error() {
    assert_eq!(SimplicialComplex::hollow(0), Err(TdaError::HollowOfDimZero));
}

#[test]
fn generator_counts() {
    let s2 = SimplicialComplex::solid(2);
    assert_eq!(s2.simplices.len(), 7);
    assert_eq!(s2.dim_simplices(0).len(), 3);
    assert_eq!(s2.dim_simplices(1).len(), 3);
    assert_eq!(s2.dim_simplices(2).len(), 1);
    let h2 = SimplicialComplex::hollow(2).unwrap();
    assert_eq!(h2.simplices.len(), 6);
    assert_eq!(h2.dim_simplices(2).len(), 0);
}

#[test]
fn dims_and_euler() {
    let s3 = SimplicialComplex::solid(3);
    assert_eq!(s3.dim(), 3);
    assert_eq!(s3.euler(), 1);
    let h2 = SimplicialComplex::hollow(2).unwrap();
    assert_eq!(h2.dim(), 1);
    assert_eq!(h2.euler(), 0);
    let empty = SimplicialComplex::new(Vec::new());
    assert_eq!(empty.dim(), 0);
    assert_eq!(empty.euler(), 0);
}
