use linalg::error::LinalgError;
use linalg::lattice::Lattice;
use linalg::scalar::is_valid_delta;
use linalg::vector::Vector;

fn basis_from(rows: &[&[f64]]) -> Vec<Vector<f64>> {
    rows.iter().map(|r| Vector::new(r.to_vec())).collect()
}

fn lattice_of(rows: &[&[f64]]) -> Lattice<f64> {
    Lattice::new(basis_from(rows)).unwrap()
}

fn coords_of(vectors: &Vec<Vector<f64>>) -> Vec<Vec<f64>> {
    vectors.iter().map(|v| v.coords().clone()).collect()
}

fn basis_of(lattice: &Lattice<f64>) -> Vec<Vec<f64>> {
    coords_of(lattice.basis())
}

fn dot(a: &[f64], b: &[f64]) -> f64 {
    a.iter().zip(b.iter()).map(|(x, y)| x * y).sum()
}

fn half_away(x: f64) -> f64 {
    x.round()
}

fn reduced(lattice: &Lattice<f64>, delta: f64) -> bool {
    let n = lattice.dim();
    (1..n).all(|k| lattice.check_lovasz(k - 1, delta))
        && (1..n).all(|k| (0..k).all(|i| lattice.mu()[k][i].abs() <= 0.5))
}

#[test]
fn delta_is_valid_above_a_quarter_and_up_to_one() {
    assert!(is_valid_delta(0.75f64));
    assert!(is_valid_delta(1.0f64));
    assert!(is_valid_delta(0.2500001f64));
    assert!(is_valid_delta(0.5f32));
    assert!(!is_valid_delta(0.25f64));
    assert!(!is_valid_delta(1.0000001f64));
    assert!(!is_valid_delta(1.5f64));
    assert!(!is_valid_delta(0.1f64));
    assert!(!is_valid_delta(0.0f64));
    assert!(!is_valid_delta(-0.75f64));
    assert!(!is_valid_delta(f64::NAN));
    assert!(!is_valid_delta(f64::INFINITY));
}

#[test]
fn new_orthogonalises_the_basis() {
    let lattice = lattice_of(&[&[3.0, 1.0], &[2.0, 2.0]]);
    assert_eq!(lattice.dim(), 2);
    assert_eq!(basis_of(&lattice), vec![vec![3.0, 1.0], vec![2.0, 2.0]]);
    assert_eq!(
        coords_of(lattice.orth_basis()),
        vec![vec![3.0, 1.0], vec![-0.40000000000000036, 1.2]]
    );
    assert_eq!(lattice.mu(), &vec![vec![1.0], vec![0.8, 0.9999999999999993]]);
}

#[test]
fn new_orthogonalises_three_vectors() {
    let lattice = lattice_of(&[&[1.0, 1.0, 1.0], &[-1.0, 0.0, 2.0], &[3.0, 5.0, 6.0]]);
    assert_eq!(
        coords_of(lattice.orth_basis()),
        vec![
            vec![1.0, 1.0, 1.0],
            vec![-1.3333333333333333, -0.3333333333333333, 1.6666666666666667],
            vec![-0.4285714285714288, 0.6428571428571426, -0.21428571428571463],
        ]
    );
    assert_eq!(
        lattice.mu(),
        &vec![
            vec![1.0],
            vec![0.3333333333333333, 1.0],
            vec![4.666666666666667, 0.9285714285714286, 0.9999999999999931],
        ]
    );
}

#[test]
fn new_accepts_a_basis_without_vectors() {
    let mut lattice: Lattice<f64> = Lattice::new(Vec::new()).unwrap();
    assert_eq!(lattice.dim(), 0);
    assert_eq!(lattice.lll(0.75, half_away, 10), Ok(true));
    lattice.size_reduce(half_away);
    lattice.gram_schmidt();
    assert_eq!(lattice.dim(), 0);
    assert_eq!(lattice.render(), "B :");
}

#[test]
fn new_accepts_a_single_vector() {
    let mut lattice = lattice_of(&[&[3.0, 4.0]]);
    assert_eq!(lattice.mu(), &vec![vec![1.0]]);
    assert_eq!(coords_of(lattice.orth_basis()), vec![vec![3.0, 4.0]]);
    assert_eq!(lattice.lll(0.75, half_away, 0), Ok(true));
    assert_eq!(basis_of(&lattice), vec![vec![3.0, 4.0]]);
}

#[test]
fn new_refuses_vectors_of_unequal_length() {
    let r = Lattice::new(basis_from(&[&[1.0, 2.0], &[1.0, 2.0, 3.0]]));
    assert_eq!(r.err(), Some(LinalgError::DimensionMismatch));
    let r = Lattice::new(basis_from(&[&[], &[1.0]]));
    assert_eq!(r.err(), Some(LinalgError::DimensionMismatch));
    let r = Lattice::new(basis_from(&[&[1.0, 2.0], &[3.0, 4.0], &[5.0]]));
    assert_eq!(r.err(), Some(LinalgError::DimensionMismatch));
}

#[test]
fn new_refuses_vectors_without_coordinates() {
    let r = Lattice::new(basis_from(&[&[], &[]]));
    assert_eq!(r.err(), Some(LinalgError::EmptyVector));
    let r = Lattice::new(basis_from(&[&[]]));
    assert_eq!(r.err(), Some(LinalgError::EmptyVector));
}

#[test]
fn the_orthogonal_vectors_are_orthogonal() {
    let lattice = lattice_of(&[&[201.0, 37.0, 43.0], &[1648.0, 297.0, -29.0], &[42.0, 58.0, 23.0]]);
    let orth = coords_of(lattice.orth_basis());
    for i in 0..3 {
        for j in 0..3 {
            if i != j {
                assert!(dot(&orth[i], &orth[j]).abs() < 1e-8);
            }
        }
    }
    for i in 0..3 {
        assert!((lattice.mu()[i][i] - 1.0).abs() < 1e-12);
    }
}

#[test]
fn gram_schmidt_twice_is_gram_schmidt_once() {
    let mut lattice = lattice_of(&[&[201.0, 37.0, 43.0], &[1648.0, 297.0, -29.0], &[42.0, 58.0, 23.0]]);
    let orth = coords_of(lattice.orth_basis());
    let mu = lattice.mu().clone();
    lattice.gram_schmidt();
    assert_eq!(coords_of(lattice.orth_basis()), orth);
    assert_eq!(lattice.mu(), &mu);
}

#[test]
fn size_reduce_takes_rounded_multiples_away() {
    let mut lattice = lattice_of(&[&[201.0, 37.0], &[1648.0, 297.0]]);
    assert_eq!(lattice.mu(), &vec![vec![1.0], vec![8.193368446253292, 1.0000000000018059]]);
    lattice.size_reduce(half_away);
    assert_eq!(basis_of(&lattice), vec![vec![201.0, 37.0], vec![40.0, 1.0]]);
}

#[test]
fn size_reduce_uses_the_vectors_it_has_reduced() {
    let mut lattice = lattice_of(&[&[1.0, 1.0, 1.0], &[-1.0, 0.0, 2.0], &[3.0, 5.0, 6.0]]);
    lattice.size_reduce(half_away);
    assert_eq!(
        basis_of(&lattice),
        vec![vec![1.0, 1.0, 1.0], vec![-1.0, 0.0, 2.0], vec![-1.0, 0.0, -1.0]]
    );
    let mut demo = lattice_of(&[&[201.0, 37.0, 43.0], &[1648.0, 297.0, -29.0], &[42.0, 58.0, 23.0]]);
    demo.size_reduce(half_away);
    assert_eq!(
        basis_of(&demo),
        vec![vec![201.0, 37.0, 43.0], vec![40.0, 1.0, -373.0], vec![42.0, 58.0, 23.0]]
    );
}

#[test]
fn size_reduce_leaves_the_coefficients_as_they_were() {
    let mut lattice = lattice_of(&[&[201.0, 37.0], &[1648.0, 297.0]]);
    let orth = coords_of(lattice.orth_basis());
    let mu = lattice.mu().clone();
    lattice.size_reduce(half_away);
    assert_eq!(coords_of(lattice.orth_basis()), orth);
    assert_eq!(lattice.mu(), &mu);
    assert!(lattice.mu()[1][0].abs() > 0.5);
    lattice.gram_schmidt();
    assert!(lattice.mu()[1][0].abs() <= 0.5);
    assert_eq!(basis_of(&lattice), vec![vec![201.0, 37.0], vec![40.0, 1.0]]);
}

#[test]
fn size_reduce_rounds_as_it_is_told() {
    let mut lattice = lattice_of(&[&[201.0, 37.0], &[1648.0, 297.0]]);
    lattice.size_reduce(|x: f64| x.ceil());
    assert_eq!(basis_of(&lattice), vec![vec![201.0, 37.0], vec![-161.0, -36.0]]);
}

#[test]
fn check_lovasz_compares_neighbours() {
    // mu = 0.1 and <b*_1, b*_1> = 1 against (0.75 - 0.01) * 100.
    let lattice = lattice_of(&[&[10.0, 0.0], &[1.0, 1.0]]);
    assert!(!lattice.check_lovasz(0, 0.75));
    // A large coefficient makes the right-hand side negative.
    let steep = lattice_of(&[&[201.0, 37.0], &[1648.0, 297.0]]);
    assert!(steep.check_lovasz(0, 0.75));
    let square = lattice_of(&[&[1.0, 0.0], &[0.0, 1.0]]);
    assert!(square.check_lovasz(0, 0.75));
    assert!(square.check_lovasz(0, 1.0));
}

#[test]
fn lll_leaves_the_identity_basis_alone() {
    let mut lattice = lattice_of(&[&[1.0, 0.0], &[0.0, 1.0]]);
    assert_eq!(lattice.lll(0.75, half_away, 1000), Ok(true));
    assert_eq!(basis_of(&lattice), vec![vec![1.0, 0.0], vec![0.0, 1.0]]);
    assert_eq!(coords_of(lattice.orth_basis()), vec![vec![1.0, 0.0], vec![0.0, 1.0]]);
    assert_eq!(lattice.mu(), &vec![vec![1.0], vec![0.0, 1.0]]);
}

#[test]
fn lll_shortens_a_nearly_parallel_pair() {
    let mut lattice = lattice_of(&[&[201.0, 37.0], &[1648.0, 297.0]]);
    assert_eq!(lattice.lll(0.75, half_away, 1000), Ok(true));
    let basis = basis_of(&lattice);
    assert_eq!(basis, vec![vec![1.0, 32.0], vec![40.0, 1.0]]);
    let shortest_before = dot(&[201.0, 37.0], &[201.0, 37.0]);
    assert!(dot(&basis[0], &basis[0]) < shortest_before);
    assert!(dot(&basis[1], &basis[1]) < shortest_before);
    assert!(reduced(&lattice, 0.75));
    assert_eq!(lattice.mu(), &vec![vec![1.0], vec![0.0702439024390244, 1.0]]);
}

#[test]
fn lll_refuses_a_delta_out_of_range() {
    for delta in [1.5, 0.1, 0.25, -1.0, f64::NAN] {
        let mut lattice = lattice_of(&[&[201.0, 37.0], &[1648.0, 297.0]]);
        let orth = coords_of(lattice.orth_basis());
        let mu = lattice.mu().clone();
        assert_eq!(lattice.lll(delta, half_away, 1000), Err(LinalgError::InvalidDelta));
        assert_eq!(basis_of(&lattice), vec![vec![201.0, 37.0], vec![1648.0, 297.0]]);
        assert_eq!(coords_of(lattice.orth_basis()), orth);
        assert_eq!(lattice.mu(), &mu);
    }
}

#[test]
fn lll_reduces_the_three_vectors_of_the_demonstration() {
    let mut lattice = lattice_of(&[&[201.0, 37.0, 43.0], &[1648.0, 297.0, -29.0], &[42.0, 58.0, 23.0]]);
    assert_eq!(lattice.lll(0.75, half_away, 1000), Ok(true));
    assert_eq!(
        basis_of(&lattice),
        vec![vec![42.0, 58.0, 23.0], vec![117.0, -79.0, -3.0], vec![82.0, 59.0, -350.0]]
    );
    assert!(reduced(&lattice, 0.75));
}

#[test]
fn lll_leaves_a_reduced_basis_behind() {
    let mut lattice = lattice_of(&[&[1.0, 1.0, 1.0], &[-1.0, 0.0, 2.0], &[3.0, 5.0, 6.0]]);
    assert_eq!(lattice.lll(0.75, half_away, 1000), Ok(true));
    assert_eq!(
        basis_of(&lattice),
        vec![vec![0.0, 1.0, 0.0], vec![1.0, 0.0, 1.0], vec![-2.0, 0.0, 1.0]]
    );
    assert!(reduced(&lattice, 0.75));
    let mut small = lattice_of(&[&[3.0, 1.0], &[2.0, 2.0]]);
    assert_eq!(small.lll(1.0, half_away, 1000), Ok(true));
    assert!(reduced(&small, 1.0));
}

#[test]
fn lll_stops_at_the_round_limit() {
    let mut none = lattice_of(&[&[201.0, 37.0], &[1648.0, 297.0]]);
    assert_eq!(none.lll(0.75, half_away, 0), Ok(false));
    assert_eq!(basis_of(&none), vec![vec![201.0, 37.0], vec![1648.0, 297.0]]);

    let mut one = lattice_of(&[&[201.0, 37.0], &[1648.0, 297.0]]);
    assert_eq!(one.lll(0.75, half_away, 1), Ok(false));
    assert_eq!(basis_of(&one), vec![vec![40.0, 1.0], vec![201.0, 37.0]]);
    assert_eq!(one.mu(), &vec![vec![1.0], vec![5.044971892567146, 0.9999999999999949]]);

    let mut two = lattice_of(&[&[201.0, 37.0], &[1648.0, 297.0]]);
    assert_eq!(two.lll(0.75, half_away, 2), Ok(false));
    assert_eq!(basis_of(&two), vec![vec![1.0, 32.0], vec![40.0, 1.0]]);

    let mut three = lattice_of(&[&[201.0, 37.0], &[1648.0, 297.0]]);
    assert_eq!(three.lll(0.75, half_away, 3), Ok(true));
    assert_eq!(basis_of(&three), vec![vec![1.0, 32.0], vec![40.0, 1.0]]);
}

#[test]
fn lll_in_parts_is_lll_in_one() {
    let mut whole = lattice_of(&[&[201.0, 37.0, 43.0], &[1648.0, 297.0, -29.0], &[42.0, 58.0, 23.0]]);
    assert_eq!(whole.lll(0.75, half_away, 3), Ok(false));
    assert_eq!(
        basis_of(&whole),
        vec![vec![42.0, 58.0, 23.0], vec![201.0, 37.0, 43.0], vec![40.0, 1.0, -373.0]]
    );
    assert_eq!(
        whole.mu(),
        &vec![
            vec![1.0],
            vec![2.046491073006894, 1.0],
            vec![-1.2092982146013789, 0.3030117057367387, 1.0],
        ]
    );
}

#[test]
fn render_lists_the_basis_line_by_line() {
    let lattice = lattice_of(&[&[1.0, 0.0], &[0.0, 1.0]]);
    assert_eq!(lattice.render(), "B :\n[ 1 0 ]\n[ 0 1 ]");
    let mut demo = lattice_of(&[&[201.0, 37.0, 43.0], &[1648.0, 297.0, -29.0], &[42.0, 58.0, 23.0]]);
    assert_eq!(demo.render(), "B :\n[ 201 37 43 ]\n[ 1648 297 -29 ]\n[ 42 58 23 ]");
    demo.lll(0.75, half_away, 1000).unwrap();
    assert_eq!(demo.render(), "B :\n[ 42 58 23 ]\n[ 117 -79 -3 ]\n[ 82 59 -350 ]");
}
