use linalg::error::LinalgError;
use linalg::vector::Vector;

fn ints(v: &[isize]) -> Vector<isize> {
    Vector::new(v.to_vec())
}

fn reals(v: &[f64]) -> Vector<f64> {
    Vector::new(v.to_vec())
}

#[test]
fn new_keeps_the_coordinates_in_order() {
    let v = ints(&[4, -7, 0, 9]);
    assert_eq!(v.size(), 4);
    assert_eq!(v.coords(), &vec![4, -7, 0, 9]);
}

#[test]
fn a_vector_may_be_empty() {
    let v: Vector<isize> = Vector::new(Vec::new());
    assert_eq!(v.size(), 0);
    assert!(v.coords().is_empty());
}

#[test]
fn zero_has_the_asked_number_of_zeros() {
    assert_eq!(Vector::zero(3), ints(&[0, 0, 0]));
    assert_eq!(Vector::zero(0), ints(&[]));
    assert_eq!(Vector::zero(5).size(), 5);
}

#[test]
fn clone_gives_an_equal_vector() {
    let v = reals(&[1.5, -2.25, 3.0]);
    let w = v.clone();
    assert_eq!(v, w);
    assert_eq!(w.coords(), &vec![1.5, -2.25, 3.0]);
}

#[test]
fn add_sums_coordinate_by_coordinate() {
    assert_eq!(ints(&[1, 2, 3]).add(&ints(&[10, -20, 30])), Ok(ints(&[11, -18, 33])));
    assert_eq!(reals(&[0.5, 2.0]).add(&reals(&[0.25, -2.0])), Ok(reals(&[0.75, 0.0])));
    assert_eq!(ints(&[]).add(&ints(&[])), Ok(ints(&[])));
}

#[test]
fn add_refuses_unequal_lengths() {
    assert_eq!(ints(&[1, 2, 3]).add(&ints(&[1, 0])), Err(LinalgError::DimensionMismatch));
    assert_eq!(ints(&[]).add(&ints(&[1])), Err(LinalgError::DimensionMismatch));
}

#[test]
fn add_assign_sums_in_place() {
    let mut v = ints(&[1, 2, 3]);
    assert_eq!(v.add_assign(&ints(&[10, -20, 30])), Ok(()));
    assert_eq!(v, ints(&[11, -18, 33]));
}

#[test]
fn add_assign_refuses_unequal_lengths_and_changes_nothing() {
    let mut v = ints(&[1, 2, 3]);
    assert_eq!(v.add_assign(&ints(&[1, 2])), Err(LinalgError::DimensionMismatch));
    assert_eq!(v, ints(&[1, 2, 3]));
    assert_eq!(v.add_assign(&ints(&[1, 2, 3, 4])), Err(LinalgError::DimensionMismatch));
    assert_eq!(v, ints(&[1, 2, 3]));
}

#[test]
fn sub_takes_away_coordinate_by_coordinate() {
    assert_eq!(ints(&[1, 2, 3]).sub(&ints(&[10, -20, 3])), Ok(ints(&[-9, 22, 0])));
    assert_eq!(reals(&[0.5, 2.0]).sub(&reals(&[0.25, -2.0])), Ok(reals(&[0.25, 4.0])));
}

#[test]
fn sub_refuses_unequal_lengths() {
    assert_eq!(ints(&[1, 2]).sub(&ints(&[1, 2, 3])), Err(LinalgError::DimensionMismatch));
}

#[test]
fn sub_assign_takes_away_in_place() {
    let mut v = ints(&[1, 2, 3]);
    assert_eq!(v.sub_assign(&ints(&[10, -20, 3])), Ok(()));
    assert_eq!(v, ints(&[-9, 22, 0]));
}

#[test]
fn sub_assign_refuses_unequal_lengths_and_changes_nothing() {
    let mut v = ints(&[1, 2, 3]);
    assert_eq!(v.sub_assign(&ints(&[1, 2])), Err(LinalgError::DimensionMismatch));
    assert_eq!(v, ints(&[1, 2, 3]));
    assert_eq!(v.sub_assign(&ints(&[1, 2, 3, 4])), Err(LinalgError::DimensionMismatch));
    assert_eq!(v, ints(&[1, 2, 3]));
}

#[test]
fn scale_multiplies_every_coordinate() {
    assert_eq!(ints(&[1, -2, 3]).scale(-4), ints(&[-4, 8, -12]));
    assert_eq!(reals(&[1.5, -2.0]).scale(0.5), reals(&[0.75, -1.0]));
    assert_eq!(ints(&[]).scale(7), ints(&[]));
}

#[test]
fn scale_assign_multiplies_in_place() {
    let mut v = ints(&[1, -2, 3]);
    v.scale_assign(-4);
    assert_eq!(v, ints(&[-4, 8, -12]));
    let mut w = reals(&[1.5, -2.0]);
    w.scale_assign(0.5);
    assert_eq!(w, reals(&[0.75, -1.0]));
}

#[test]
fn dot_of_small_integer_vectors() {
    assert_eq!(ints(&[1, 2, 3]).dot(&ints(&[1, 0, -1])), Ok(-2));
}

#[test]
fn dot_of_small_real_vectors() {
    assert_eq!(reals(&[1.0, 2.0, 3.0]).dot(&reals(&[1.0, 0.0, -1.0])), Ok(-2.0));
}

#[test]
fn dot_of_one_coordinate_is_the_product() {
    assert_eq!(ints(&[-6]).dot(&ints(&[7])), Ok(-42));
}

#[test]
fn dot_adds_from_the_first_pair_on() {
    // In floating point the order of the additions shows: 1e16 + 1 is 1e16.
    let a = reals(&[1e16, 1.0, -1e16]);
    let b = reals(&[1.0, 1.0, 1.0]);
    assert_eq!(a.dot(&b), Ok(0.0));
    let c = reals(&[1e16, -1e16, 1.0]);
    assert_eq!(c.dot(&b), Ok(1.0));
}

#[test]
fn dot_refuses_unequal_lengths() {
    assert_eq!(ints(&[1, 2, 3]).dot(&ints(&[1, 2])), Err(LinalgError::DimensionMismatch));
    assert_eq!(ints(&[]).dot(&ints(&[1])), Err(LinalgError::DimensionMismatch));
}

#[test]
fn dot_refuses_vectors_without_coordinates() {
    assert_eq!(ints(&[]).dot(&ints(&[])), Err(LinalgError::EmptyVector));
}

#[test]
fn dot_does_not_depend_on_the_order_of_the_vectors() {
    let a = ints(&[3, -1, 4, 1, -5]);
    let b = ints(&[9, 2, -6, 5, 3]);
    assert_eq!(a.dot(&b), b.dot(&a));
    assert_eq!(a.dot(&b), Ok(27 - 2 - 24 + 5 - 15));
    let x = reals(&[0.1, 0.2, 0.3]);
    let y = reals(&[1.7, -2.9, 3.3]);
    assert_eq!(x.dot(&y), y.dot(&x));
}

#[test]
fn the_sum_less_a_summand_is_the_other_summand() {
    let a = ints(&[3, -1, 4, 1, -5]);
    let b = ints(&[9, 2, -6, 5, 3]);
    let sum = a.add(&b).unwrap();
    assert_eq!(sum.sub(&b), Ok(a.clone()));
    assert_eq!(sum.sub(&a), Ok(b.clone()));
    let mut in_place = a.clone();
    in_place.add_assign(&b).unwrap();
    in_place.sub_assign(&b).unwrap();
    assert_eq!(in_place, a);
}

#[test]
fn scaling_twice_is_scaling_by_the_product() {
    let a = ints(&[3, -1, 4, 0]);
    assert_eq!(a.scale(5).scale(-7), a.scale(5 * -7));
    assert_eq!(a.scale(5).scale(-7), ints(&[-105, 35, -140, 0]));
    let x = reals(&[0.1, -0.2, 0.3]);
    let twice = x.scale(3.0).scale(0.7);
    let once = x.scale(3.0 * 0.7);
    for i in 0..3 {
        assert!((twice.coords()[i] - once.coords()[i]).abs() < 1e-12);
    }
}

#[test]
fn scale_and_scale_assign_agree() {
    let a = ints(&[3, -1, 4, 0]);
    let mut b = a.clone();
    b.scale_assign(-6);
    assert_eq!(a.scale(-6), b);
}

#[test]
fn render_puts_the_coordinates_between_brackets() {
    assert_eq!(ints(&[1, 2, 3]).render(), "[ 1 2 3 ]");
    assert_eq!(ints(&[-4]).render(), "[ -4 ]");
    assert_eq!(ints(&[]).render(), "[ ]");
    assert_eq!(reals(&[201.0, 37.5, -0.25]).render(), "[ 201 37.5 -0.25 ]");
}
