use tda::simplex::Simplex;

#[test]
fn boundary_coeff_2_0() {
    let s = Simplex::new(vec![0, 1]);
    let t = Simplex::new(vec![0]);
    assert_eq!(s.boundary_coeff(&t), -1);
}

#[test]
fn boundary_coeff_2_1() {
    let s = Simplex::new(vec![0, 1]);
    let t = Simplex::new(vec![1]);
    assert_eq!(s.boundary_coeff(&t), 1);
}

#[test]
fn boundary_coeff_3_0() {
    let s = Simplex::new(vec![0, 1, 2]);
    let t = Simplex::new(vec![0, 1]);
    assert_eq!(s.boundary_coeff(&t), 1);
}

#[test]
fn boundary_coeff_3_1() {
    let s = Simplex::new(vec![0, 1, 2]);
    let t = Simplex::new(vec![0, 2]);
    assert_eq!(s.boundary_coeff(&t), -1);
}

#[test]
fn boundary_coeff_3_2() {
    let s = Simplex::new(vec![0, 1, 2]);
    let t = Simplex::new(vec![1, 2]);
    assert_eq!(s.boundary_coeff(&t), 1);
}

#[test]
fn boundary_coeff_not_a_face() {
    let s = Simplex::new(vec![0, 1, 2]);
    let t = Simplex::new(vec![3]);
    assert_eq!(s.boundary_coeff(&t), 0);
}

#[test]
fn boundary_coeff_codim_two() {
    let s = Simplex::new(vec![0, 1, 2]);
    let t = Simplex::new(vec![0]);
    assert_eq!(s.boundary_coeff(&t), 0);
}

#[test]
fn new_sorts_and_dedups() {
    let s = Simplex::new(vec![3, 1, 2, 1, 3]);
    assert_eq!(s.vertices, vec![1, 2, 3]);
    assert_eq!(s.dim(), 2);
}

#[test]
fn is_face_and_codim() {
    let s = Simplex::new(vec![0, 1, 2]);
    let t = Simplex::new(vec![0, 2]);
    assert!(t.is_face(&s));
    assert!(!s.is_face(&t));
    assert_eq!(s.codim(&t), 1);
}

#[test]
fn add_vertex_is_persistent() {
    let s = Simplex::new(vec![0, 2]);
    let t = s.add_vertex(1);
    assert_eq!(t.vertices, vec![0, 1, 2]);
    assert_eq!(s.vertices, vec![0, 2]);
    let u = s.add_vertex(2);
    assert_eq!(u.vertices, vec![0, 2]);
}
