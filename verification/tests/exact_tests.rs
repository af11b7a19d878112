use linalg::lattice::Lattice;
use linalg::vector::Vector;
use std::cmp::Ordering;
use std::fmt;
use std::ops::Add;
use std::ops::Div;
use std::ops::Mul;
use std::ops::Sub;

/// A rational number in lowest terms with a positive denominator.
#[derive(Clone, Copy, Debug, PartialEq, Eq)]
struct Q {
    num: i128,
    den: i128,
}

fn gcd(a: i128, b: i128) -> i128 {
    if b == 0 {
        a.abs()
    } else {
        gcd(b, a % b)
    }
}

fn q(num: i128, den: i128) -> Q {
    assert!(den != 0);
    let g = gcd(num, den);
    let s = if den < 0 { -1 } else { 1 };
    Q { num: s * num / g, den: s * den / g }
}

fn whole(n: i128) -> Q {
    q(n, 1)
}

impl Add for Q {
    type Output = Q;
    fn add(self, o: Q) -> Q {
        q(self.num * o.den + o.num * self.den, self.den * o.den)
    }
}

impl Sub for Q {
    type Output = Q;
    fn sub(self, o: Q) -> Q {
        q(self.num * o.den - o.num * self.den, self.den * o.den)
    }
}

impl Mul for Q {
    type Output = Q;
    fn mul(self, o: Q) -> Q {
        q(self.num * o.num, self.den * o.den)
    }
}

impl Div for Q {
    type Output = Q;
    fn div(self, o: Q) -> Q {
        q(self.num * o.den, self.den * o.num)
    }
}

impl PartialOrd for Q {
    fn partial_cmp(&self, o: &Q) -> Option<Ordering> {
        (self.num * o.den).partial_cmp(&(o.num * self.den))
    }
}

impl From<i8> for Q {
    fn from(n: i8) -> Q {
        whole(i128::from(n))
    }
}

impl fmt::Display for Q {
    fn fmt(&self, f: &mut fmt::Formatter) -> fmt::Result {
        if self.den == 1 {
            f.write_str(&format!("{}", self.num))
        } else {
            f.write_str(&format!("{}/{}", self.num, self.den))
        }
    }
}

/// The nearest integer, halves away from zero.
fn nearest(x: Q) -> Q {
    let twice = 2 * x.num.abs() + x.den;
    let magnitude = twice.div_euclid(2 * x.den);
    whole(if x.num < 0 { -magnitude } else { magnitude })
}

fn lattice_of(rows: &[&[i128]]) -> Lattice<Q> {
    let basis = rows.iter().map(|r| Vector::new(r.iter().map(|x| whole(*x)).collect())).collect();
    Lattice::new(basis).unwrap()
}

fn integers_of(vectors: &Vec<Vector<Q>>) -> Vec<Vec<i128>> {
    vectors
        .iter()
        .map(|v| {
            v.coords()
                .iter()
                .map(|x| {
                    assert_eq!(x.den, 1);
                    x.num
                })
                .collect()
        })
        .collect()
}

fn abs(x: Q) -> Q {
    q(x.num.abs(), x.den)
}

#[test]
fn nearest_rounds_halves_away_from_zero() {
    assert_eq!(nearest(q(1, 2)), whole(1));
    assert_eq!(nearest(q(-1, 2)), whole(-1));
    assert_eq!(nearest(q(49, 100)), whole(0));
    assert_eq!(nearest(q(-7, 4)), whole(-2));
    assert_eq!(nearest(q(5, 2)), whole(3));
    assert_eq!(nearest(whole(-3)), whole(-3));
}

#[test]
fn exact_orthogonal_vectors_have_inner_product_zero() {
    let lattice = lattice_of(&[&[201, 37, 43], &[1648, 297, -29], &[42, 58, 23]]);
    let orth = lattice.orth_basis();
    for i in 0..3 {
        for j in 0..3 {
            if i != j {
                assert_eq!(orth[i].dot(&orth[j]), Ok(whole(0)));
            }
        }
    }
    for i in 0..3 {
        assert_eq!(lattice.mu()[i][i], whole(1));
    }
}

#[test]
fn exact_gram_schmidt_of_two_vectors() {
    let lattice = lattice_of(&[&[3, 1], &[2, 2]]);
    assert_eq!(lattice.mu(), &vec![vec![whole(1)], vec![q(4, 5), whole(1)]]);
    assert_eq!(lattice.orth_basis()[1].coords(), &vec![q(-2, 5), q(6, 5)]);
    assert_eq!(lattice.orth_basis()[1].render(), "[ -2/5 6/5 ]");
}

#[test]
fn exact_lll_leaves_small_coefficients_and_the_lovasz_condition() {
    let delta = q(3, 4);
    for rows in [
        vec![vec![201, 37], vec![1648, 297]],
        vec![vec![201, 37, 43], vec![1648, 297, -29], vec![42, 58, 23]],
        vec![vec![1, 1, 1], vec![-1, 0, 2], vec![3, 5, 6]],
    ] {
        let borrowed: Vec<&[i128]> = rows.iter().map(|r| r.as_slice()).collect();
        let mut lattice = lattice_of(&borrowed);
        assert_eq!(lattice.lll(delta, nearest, 1000), Ok(true));
        let n = lattice.dim();
        for k in 1..n {
            assert!(lattice.check_lovasz(k - 1, delta));
            for i in 0..k {
                assert!(abs(lattice.mu()[k][i]) <= q(1, 2));
            }
        }
        for i in 0..n {
            assert_eq!(lattice.mu()[i][i], whole(1));
        }
    }
}

#[test]
fn exact_lll_of_the_nearly_parallel_pair() {
    let mut lattice = lattice_of(&[&[201, 37], &[1648, 297]]);
    assert_eq!(lattice.lll(q(3, 4), nearest, 1000), Ok(true));
    assert_eq!(integers_of(lattice.basis()), vec![vec![1, 32], vec![40, 1]]);
    assert_eq!(lattice.mu()[1][0], q(72, 1025));
}

#[test]
fn exact_size_reduce_of_the_nearly_parallel_pair() {
    let mut lattice = lattice_of(&[&[201, 37], &[1648, 297]]);
    assert_eq!(lattice.mu()[1][0], q(342237, 41770));
    lattice.size_reduce(nearest);
    assert_eq!(integers_of(lattice.basis()), vec![vec![201, 37], vec![40, 1]]);
    assert_eq!(lattice.mu()[1][0], q(342237, 41770));
}
