use tda::simplicial_complex::SimplicialComplex;
use tda::vietoris_rips::{vietoris_rips, vietoris_rips_step, Adjacency};

/// Threshold a distance matrix at `epsilon`.
fn adjacency(dist: &[&[f64]], epsilon: f64) -> Adjacency {
    let n = dist.len();
    let mut data = Vec::with_capacity(n * n);
    for row in dist {
        assert_eq!(row.len(), n);
        for &x in *row {
            data.push(x <= epsilon);
        }
    }
    Adjacency::new(n, data)
}

#[test]
fn single_point() {
    let dist: &[&[f64]] = &[&[0.]];
    let k0 = vietoris_rips(&adjacency(dist, 0.));
    assert_eq!(k0, SimplicialComplex::solid(0));
    let k1 = vietoris_rips(&adjacency(dist, 1.));
    assert_eq!(k0, k1);
}

#[test]
fn two_points() {
    let dist: &[&[f64]] = &[&[0., 1.], &[1., 0.]];
    let k0 = vietoris_rips(&adjacency(dist, 0.));
    assert_eq!(k0, SimplicialComplex::hollow(1).unwrap());
    let k1 = vietoris_rips(&adjacency(dist, 1.));
    assert_eq!(k1, SimplicialComplex::solid(1));
    let k1step = vietoris_rips_step(&adjacency(dist, 1.), k1.clone());
    assert_eq!(k1, k1step);
}

#[test]
fn four_points() {
    let s = std::f64::consts::SQRT_2;
    let dist: &[&[f64]] = &[
        &[0., 1., s, 1.],
        &[1., 0., 1., s],
        &[s, 1., 0., 1.],
        &[1., s, 1., 0.],
    ];
    let k0 = vietoris_rips(&adjacency(dist, 0.));
    let verts = SimplicialComplex::new(
        vec![
            tda::simplex::Simplex::new(vec![0]),
            tda::simplex::Simplex::new(vec![1]),
            tda::simplex::Simplex::new(vec![2]),
            tda::simplex::Simplex::new(vec![3]),
        ],
    );
    assert_eq!(k0, verts);
    let k1 = vietoris_rips(&adjacency(dist, 1.));
    let square = SimplicialComplex::new(
        vec![
            tda::simplex::Simplex::new(vec![0]),
            tda::simplex::Simplex::new(vec![1]),
            tda::simplex::Simplex::new(vec![2]),
            tda::simplex::Simplex::new(vec![3]),
            tda::simplex::Simplex::new(vec![0, 1]),
            tda::simplex::Simplex::new(vec![1, 2]),
            tda::simplex::Simplex::new(vec![2, 3]),
            tda::simplex::Simplex::new(vec![0, 3]),
        ],
    );
    assert_eq!(k1, square);
    let k_sqrt2 = vietoris_rips(&adjacency(dist, s));
    assert_eq!(k_sqrt2, SimplicialComplex::solid(3));
    assert_eq!(k1, vietoris_rips_step(&adjacency(dist, 1.), k0.clone()));
    assert_eq!(k_sqrt2, vietoris_rips_step(&adjacency(dist, s), k0));
    assert_eq!(k_sqrt2, vietoris_rips_step(&adjacency(dist, s), k1));
}

#[test]
fn monotone_under_larger_threshold() {
    let s = std::f64::consts::SQRT_2;
    let dist: &[&[f64]] = &[
        &[0., 1., s, 1.],
        &[1., 0., 1., s],
        &[s, 1., 0., 1.],
        &[1., s, 1., 0.],
    ];
    let small = vietoris_rips(&adjacency(dist, 1.));
    let large = vietoris_rips(&adjacency(dist, s));
    for simplex in &small.simplices {
        assert!(large.simplices.contains(simplex));
    }
}

#[test]
fn circle_has_a_hole() {
    // the square at threshold one is a cycle of four edges
    let s = std::f64::consts::SQRT_2;
    let dist: &[&[f64]] = &[
        &[0., 1., s, 1.],
        &[1., 0., 1., s],
        &[s, 1., 0., 1.],
        &[1., s, 1., 0.],
    ];
    let k1 = vietoris_rips(&adjacency(dist, 1.));
    assert_eq!(k1.betti(0).unwrap(), 1);
    assert_eq!(k1.betti(1).unwrap(), 1);
    assert_eq!(k1.betti(2).unwrap(), 0);
}
