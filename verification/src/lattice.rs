use crate::error::LinalgError;
use crate::laws::orthogonalized_is_consistent;
use crate::laws::orthogonalizing_from_a_consistent_start;
use crate::model::coefficient_of;
use crate::model::coefficients;
use crate::model::lemma_lll_after_stays;
use crate::model::lemma_locally_reduced_row_corrected;
use crate::model::lemma_row_corrected_carries_over;
use crate::model::lemma_orthogonalize_row_wf;
use crate::model::lemma_orthogonalized_from_wf;
use crate::model::lemma_projected_len;
use crate::model::projected;
use crate::model::reduced_against;
use crate::model::size_reduced;
use crate::model::uniform;
use crate::model::zero_triangle;
use crate::model::LatticeModel;
use crate::scalar::callable_everywhere;
use crate::scalar::computes;
use crate::scalar::faithful_conversion;
use crate::scalar::faithful_order;
use crate::scalar::reducible_scalar;
use crate::scalar::is_valid_delta;
use crate::scalar::total_arithmetic;
use crate::scalar::valid_delta;
use crate::scalar::whole;
use crate::vector::lemma_dot_defined_when_total;
use crate::vector::renders;
use crate::vector::Vector;
use std::fmt::Display;
use std::ops::Add;
use std::ops::Div;
use std::ops::Mul;
use std::ops::Sub;
use vstd::prelude::*;
use vstd::std_specs::ops::AddSpec;
use vstd::std_specs::ops::DivSpec;
use vstd::std_specs::ops::MulSpec;
use vstd::std_specs::ops::SubSpec;

verus! {

/// A Euclidean lattice, given by a basis: the basis `B`, its Gram-Schmidt
/// orthogonalisation `B*`, and the coefficients
/// `mu[i][j] = <b_i, b*_j> / <b*_j, b*_j>` for `j <= i`.
pub struct Lattice<T> {
    basis: Vec<Vector<T>>,
    orth_basis: Vec<Vector<T>>,
    mu: Vec<Vec<T>>,
}

/// The vectors of `v` as sequences of scalars.
pub open spec fn rows<T>(v: Seq<Vector<T>>) -> Seq<Seq<T>> {
    Seq::new(v.len(), |i: int| v[i]@)
}

/// The rows of `v` as sequences of scalars.
pub open spec fn table<T>(v: Seq<Vec<T>>) -> Seq<Seq<T>> {
    Seq::new(v.len(), |i: int| v[i]@)
}

impl<T> View for Lattice<T> {
    type V = LatticeModel<T>;

    closed spec fn view(&self) -> LatticeModel<T> {
        LatticeModel {
            basis: rows(self.basis@),
            orth_basis: rows(self.orth_basis@),
            mu: table(self.mu@),
        }
    }
}

impl<
    T: Copy + Add<Output = T> + Sub<Output = T> + Mul<Output = T> + Div<Output = T> + PartialOrd
        + From<i8>,
> Lattice<T> {
    /// The number of basis vectors.
    pub fn dim(&self) -> (n: usize)
        ensures
            n == self@.len(),
    {
        self.basis.len()
    }

    /// The basis vectors, in their order.
    pub fn basis(&self) -> (b: &Vec<Vector<T>>)
        ensures
            rows(b@) == self@.basis,
    {
        &self.basis
    }

    /// The orthogonal vectors, as they were last made.
    pub fn orth_basis(&self) -> (b: &Vec<Vector<T>>)
        ensures
            rows(b@) == self@.orth_basis,
    {
        &self.orth_basis
    }

    /// The coefficients, as they were last made or corrected: row `i` holds
    /// `mu[i][j]` for `j` from 0 to `i`.
    pub fn mu(&self) -> (m: &Vec<Vec<T>>)
        ensures
            table(m@) == self@.mu,
    {
        &self.mu
    }

    /// The Gram-Schmidt coefficient of `b` on `o`.
    fn compute_mu(b: &Vector<T>, o: &Vector<T>) -> (c: T)
        requires
            total_arithmetic::<T>(),
            b@.len() == o@.len(),
            o@.len() > 0,
        ensures
            c == coefficient_of(b@, o@),
    {
        proof {
            lemma_dot_defined_when_total(b@, o@);
            lemma_dot_defined_when_total(o@, o@);
        }
        let p = b.dot(o).unwrap();
        let q = o.dot(o).unwrap();
        p / q
    }

    /// A lattice with the basis `basis`, orthogonalised. The vectors must all
    /// have one length, and at least one coordinate.
    pub fn new(basis: Vec<Vector<T>>) -> (r: Result<Lattice<T>, LinalgError>)
        requires
            total_arithmetic::<T>(),
            faithful_conversion::<T>(),
        ensures
            (match r {
                Ok(l) => uniform(rows(basis@)) && l@.wf() && l@.consistent() && l@
                    == LatticeModel::<T>::blank(rows(basis@)).orthogonalized(),
                Err(e) => if !uniform(rows(basis@)) {
                    e == LinalgError::DimensionMismatch
                } else {
                    basis@.len() > 0 && basis@[0]@.len() == 0 && e == LinalgError::EmptyVector
                },
            }),
    {
        let n = basis.len();
        if n > 0 {
            let d = basis[0].size();
            let mut i: usize = 1;
            while i < n
                invariant
                    n == basis@.len(),
                    1 <= i <= n,
                    d == basis@[0]@.len(),
                    forall|j: int| 0 <= j < i ==> (#[trigger] rows(basis@)[j]).len() == d,
                decreases n - i,
            {
                if basis[i].size() != d {
                    assert(rows(basis@)[i as int].len() != rows(basis@)[0].len());
                    return Err(LinalgError::DimensionMismatch);
                }
                i += 1;
            }
            if d == 0 {
                return Err(LinalgError::EmptyVector);
            }
        }
        let orth_basis = basis.clone();
        let mu = Self::empty_mu(n);
        let mut lattice = Lattice { basis, orth_basis, mu };
        proof {
            assert(lattice@.orth_basis =~= lattice@.basis);
            assert(lattice@.mu =~= zero_triangle::<T>(n as nat)) by {
                assert forall|i: int| 0 <= i < n implies table(lattice.mu@)[i] =~= zero_triangle::<
                    T,
                >(n as nat)[i] by {}
            }
            assert(lattice@ == LatticeModel::<T>::blank(rows(basis@)));
        }
        lattice.gram_schmidt();
        Ok(lattice)
    }

    /// The table of coefficients of `n` rows, row `i` with `i + 1` places,
    /// that holds zero everywhere.
    fn empty_mu(n: usize) -> (t: Vec<Vec<T>>)
        requires
            faithful_conversion::<T>(),
        ensures
            table(t@) == zero_triangle::<T>(n as nat),
    {
        let zero = T::from(0i8);
        let mut t: Vec<Vec<T>> = Vec::new();
        let mut i: usize = 0;
        while i < n
            invariant
                i <= n,
                zero == whole::<T>(0),
                t@.len() == i,
                forall|a: int| 0 <= a < i ==> (#[trigger] t@[a])@ == Seq::new(
                    (a + 1) as nat,
                    |j: int| whole::<T>(0),
                ),
            decreases n - i,
        {
            let mut row: Vec<T> = Vec::new();
            let mut j: usize = 0;
            while j <= i
                invariant
                    i < n,
                    j <= i + 1,
                    zero == whole::<T>(0),
                    row@.len() == j,
                    forall|b: int| 0 <= b < j ==> row@[b] == whole::<T>(0),
                decreases i + 1 - j,
            {
                row.push(zero);
                j += 1;
            }
            assert(row@ =~= Seq::new((i + 1) as nat, |j: int| whole::<T>(0)));
            t.push(row);
            i += 1;
        }
        assert(table(t@) =~= zero_triangle::<T>(n as nat));
        t
    }

    /// The basis vector `i` less, for each basis vector before it in
    /// ascending order, that vector times the rounding of the coefficient
    /// `mu[i][j]`.
    fn reduce_row<F: Fn(T) -> T>(&self, i: usize, round: &F) -> (b: Vector<T>)
        requires
            self@.wf(),
            total_arithmetic::<T>(),
            callable_everywhere(*round),
            i < self@.len(),
        ensures
            b@.len() == self@.basis[0].len(),
            forall|g: spec_fn(T) -> T| #[trigger]
                computes(*round, g) ==> b@ == reduced_against(
                    self@.basis[i as int],
                    self@.basis,
                    self@.mu[i as int],
                    g,
                    i as int,
                ),
    {
        let mut b = self.basis[i].clone();
        assert(self@.basis[i as int].len() == self@.basis[0].len());
        let mut j: usize = 0;
        while j < i
            invariant
                self@.wf(),
                total_arithmetic::<T>(),
                callable_everywhere(*round),
                i < self@.len(),
                j <= i,
                b@.len() == self@.basis[0].len(),
                forall|g: spec_fn(T) -> T| #[trigger]
                    computes(*round, g) ==> b@ == reduced_against(
                        self@.basis[i as int],
                        self@.basis,
                        self@.mu[i as int],
                        g,
                        j as int,
                    ),
            decreases i - j,
        {
            let ghost prev = b@;
            assert(self@.mu[i as int].len() == i + 1);
            assert(self@.basis[j as int].len() == self@.basis[0].len());
            let m = self.mu[i][j];
            let r = round(m);
            let approx = self.basis[j].scale(r);
            b.sub_assign(&approx).unwrap();
            proof {
                assert forall|g: spec_fn(T) -> T| #[trigger] computes(*round, g) implies b@
                    == reduced_against(
                    self@.basis[i as int],
                    self@.basis,
                    self@.mu[i as int],
                    g,
                    j as int + 1,
                ) by {
                    assert(r == g(m));
                    assert(prev == reduced_against(
                        self@.basis[i as int],
                        self@.basis,
                        self@.mu[i as int],
                        g,
                        j as int,
                    ));
                }
            }
            j += 1;
        }
        b
    }

    /// Reduces every basis vector against those before it: for each vector
    /// in ascending order, and for each vector before it in ascending order,
    /// it takes away that vector times the rounding of the coefficient
    /// between the two. `round` does the rounding.
    ///
    /// The coefficients are read as they stand and are not made anew, nor is
    /// the orthogonal basis: after this pass they belong to the basis as it
    /// was before, until `gram_schmidt` is called.
    pub fn size_reduce<F: Fn(T) -> T>(&mut self, round: F)
        requires
            old(self)@.wf(),
            total_arithmetic::<T>(),
            callable_everywhere(round),
        ensures
            final(self)@.wf(),
            final(self)@.orth_basis == old(self)@.orth_basis,
            final(self)@.mu == old(self)@.mu,
            forall|g: spec_fn(T) -> T| #[trigger]
                computes(round, g) ==> final(self)@.basis == size_reduced(
                    old(self)@.basis,
                    old(self)@.mu,
                    g,
                    old(self)@.len() as int,
                ),
    {
        let n = self.basis.len();
        let mut i: usize = 0;
        while i < n
            invariant
                total_arithmetic::<T>(),
                callable_everywhere(round),
                n == old(self)@.len(),
                i <= n,
                self@.wf(),
                self@.basis.len() == n,
                self@.orth_basis == old(self)@.orth_basis,
                self@.mu == old(self)@.mu,
                forall|g: spec_fn(T) -> T| #[trigger]
                    computes(round, g) ==> self@.basis == size_reduced(
                        old(self)@.basis,
                        old(self)@.mu,
                        g,
                        i as int,
                    ),
            decreases n - i,
        {
            let ghost before = self@;
            let b = self.reduce_row(i, &round);
            self.basis.set(i, b);
            proof {
                assert(self@.basis =~= before.basis.update(i as int, b@));
                assert(self@.orth_basis =~= before.orth_basis);
                assert(self@.mu =~= before.mu);
                assert(self@.wf()) by {
                    assert forall|a: int| 0 <= a < self@.basis.len() implies (
                    #[trigger] self@.basis[a]).len() == self@.basis[0].len() by {
                        if a != i {
                            assert(self@.basis[a] == before.basis[a]);
                        }
                        if i != 0 {
                            assert(self@.basis[0] == before.basis[0]);
                        }
                    }
                    assert forall|a: int| 0 <= a < self@.basis.len() implies (
                    #[trigger] self@.orth_basis[a]).len() == self@.basis[0].len() by {
                        assert(self@.orth_basis[a] == before.orth_basis[a]);
                        if i != 0 {
                            assert(self@.basis[0] == before.basis[0]);
                        }
                    }
                }
            }
            i += 1;
        }
    }

    /// Makes the orthogonal vectors and the coefficients anew for the basis
    /// vectors from `start` on, in ascending order. The rows before `start`
    /// are taken as they stand: they are right where nothing has changed the
    /// basis vectors before `start` since they were made.
    fn gram_schmidt_from(&mut self, start: usize)
        requires
            old(self)@.wf(),
            total_arithmetic::<T>(),
            start <= old(self)@.len(),
        ensures
            final(self)@.wf(),
            final(self)@ == old(self)@.orthogonalized_from(start as int, old(self)@.len() as int),
            old(self)@.consistent_before(start as int) ==> final(self)@ == old(
                self,
            )@.orthogonalized() && final(self)@.consistent(),
    {
        proof {
            if old(self)@.consistent_before(start as int) {
                orthogonalizing_from_a_consistent_start(old(self)@, start as int);
                orthogonalized_is_consistent(old(self)@);
            }
        }
        let n = self.basis.len();
        let mut i: usize = start;
        while i < n
            invariant
                total_arithmetic::<T>(),
                n == old(self)@.len(),
                start <= i <= n,
                old(self)@.wf(),
                self@.wf(),
                self@ == old(self)@.orthogonalized_from(start as int, i as int),
            decreases n - i,
        {
            let ghost before = self@;
            proof {
                lemma_orthogonalized_from_wf(old(self)@, start as int, i as int);
            }
            let mut o = self.basis[i].clone();
            let mut row: Vec<T> = Vec::new();
            let mut j: usize = 0;
            while j < i
                invariant
                    total_arithmetic::<T>(),
                    i < n,
                    j <= i,
                    self@ == before,
                    before.wf(),
                    n == before.len(),
                    o@ == projected(before.basis[i as int], before.orth_basis, j as int),
                    row@ == coefficients(before.basis[i as int], before.orth_basis, j as int),
                decreases i - j,
            {
                proof {
                    lemma_projected_len(before.basis[i as int], before.orth_basis, j as int);
                    assert(before.orth_basis[j as int].len() == before.basis[0].len());
                    assert(before.basis[i as int].len() == before.basis[0].len());
                }
                let c = Self::compute_mu(&self.basis[i], &self.orth_basis[j]);
                row.push(c);
                let p = self.orth_basis[j].scale(c);
                o.sub_assign(&p).unwrap();
                proof {
                    assert(row@ =~= coefficients(
                        before.basis[i as int],
                        before.orth_basis,
                        j as int + 1,
                    ));
                }
                j += 1;
            }
            proof {
                lemma_projected_len(before.basis[i as int], before.orth_basis, i as int);
                assert(before.basis[i as int].len() == before.basis[0].len());
            }
            let c = Self::compute_mu(&self.basis[i], &o);
            row.push(c);
            self.orth_basis.set(i, o);
            self.mu.set(i, row);
            proof {
                let after = before.orthogonalize_row(i as int);
                assert(self@.basis =~= after.basis);
                assert(self@.orth_basis =~= after.orth_basis);
                assert(self@.mu =~= after.mu);
                lemma_orthogonalize_row_wf(before, i as int);
            }
            i += 1;
        }
    }

    /// Makes the whole orthogonal basis and all coefficients anew from the
    /// basis: for each basis vector in ascending order, its coefficients on
    /// the orthogonal vectors before it, the vector itself less those
    /// projections, and its coefficient on what is left.
    pub fn gram_schmidt(&mut self)
        requires
            old(self)@.wf(),
            total_arithmetic::<T>(),
        ensures
            final(self)@.wf(),
            final(self)@.consistent(),
            final(self)@ == old(self)@.orthogonalized(),
    {
        self.gram_schmidt_from(0)
    }

    /// Tells whether the Lovasz condition holds between the vectors `i` and
    /// `i + 1`, with the orthogonal basis and the coefficients as they stand.
    pub fn check_lovasz(&self, i: usize, delta: T) -> (b: bool)
        requires
            self@.wf(),
            total_arithmetic::<T>(),
            faithful_order::<T>(),
            i + 1 < self@.len(),
        ensures
            b == self@.lovasz_holds(i as int, delta),
    {
        let n = self.basis.len();
        assert(i + 1 < n);
        proof {
            assert(self@.orth_basis[i as int].len() == self@.basis[0].len());
            assert(self@.orth_basis[i as int + 1].len() == self@.basis[0].len());
            assert(self@.mu[i as int + 1].len() == i + 2);
            lemma_dot_defined_when_total(self@.orth_basis[i as int], self@.orth_basis[i as int]);
            lemma_dot_defined_when_total(
                self@.orth_basis[i as int + 1],
                self@.orth_basis[i as int + 1],
            );
        }
        let p1 = self.orth_basis[i + 1].dot(&self.orth_basis[i + 1]).unwrap();
        let m = self.mu[i + 1][i];
        let p2 = (delta - m * m) * self.orth_basis[i].dot(&self.orth_basis[i]).unwrap();
        p1 >= p2
    }

    /// Puts the basis vectors `k - 1` and `k` in each other's place. Every
    /// other basis vector keeps its place.
    fn swap_with_previous(&mut self, k: usize)
        requires
            old(self)@.wf(),
            1 <= k < old(self)@.len(),
        ensures
            final(self)@.wf(),
            final(self)@ == old(self)@.swapped(k as int),
    {
        let bk = self.basis.remove(k);
        let bk_1 = self.basis.remove(k - 1);
        self.basis.insert(k - 1, bk);
        self.basis.insert(k, bk_1);
        proof {
            let target = old(self)@.swapped(k as int);
            assert(self.basis@ =~= old(self).basis@.update(
                k as int - 1,
                old(self).basis@[k as int],
            ).update(k as int, old(self).basis@[k as int - 1]));
            assert(self@.basis =~= target.basis);
            assert forall|a: int| 0 <= a < target.basis.len() implies (#[trigger] target.basis[a]).len()
                == target.basis[0].len() by {
                assert(old(self)@.basis[a].len() == old(self)@.basis[0].len());
                assert(old(self)@.basis[k as int].len() == old(self)@.basis[0].len());
                assert(old(self)@.basis[k as int - 1].len() == old(self)@.basis[0].len());
            }
            assert(target.basis[0].len() == old(self)@.basis[0].len()) by {
                assert(old(self)@.basis[k as int].len() == old(self)@.basis[0].len());
            }
        }
    }

    /// Reduces the basis vector `k` alone against all the vectors before it,
    /// and corrects its coefficients: `mu[k][i]` becomes
    /// `mu[k][i] - round(mu[k][i]) * mu[i][i]` for every `i < k`. The
    /// orthogonal basis is not touched and nothing is made anew.
    fn reduce_locally<F: Fn(T) -> T>(&mut self, k: usize, round: &F)
        requires
            old(self)@.wf(),
            total_arithmetic::<T>(),
            callable_everywhere(*round),
            k < old(self)@.len(),
        ensures
            final(self)@.wf(),
            final(self)@.len() == old(self)@.len(),
            final(self)@.orth_basis == old(self)@.orth_basis,
            forall|a: int|
                0 <= a < old(self)@.len() && a != k ==> final(self)@.mu[a] == old(self)@.mu[a],
            forall|g: spec_fn(T) -> T| #[trigger]
                computes(*round, g) ==> final(self)@ == old(self)@.locally_reduced(k as int, g),
    {
        let b = self.reduce_row(k, round);
        let mut row: Vec<T> = Vec::new();
        let mut i: usize = 0;
        assert(self@.mu[k as int].len() == k + 1);
        while i < k
            invariant
                self@ == old(self)@,
                self@.wf(),
                total_arithmetic::<T>(),
                callable_everywhere(*round),
                k < self@.len(),
                i <= k,
                row@.len() == i,
                forall|g: spec_fn(T) -> T| #[trigger]
                    computes(*round, g) ==> forall|t: int|
                        0 <= t < i ==> row@[t] == self@.mu[k as int][t].sub_spec(
                            g(self@.mu[k as int][t]).mul_spec(self@.mu[t][t]),
                        ),
            decreases k - i,
        {
            assert(self@.mu[k as int].len() == k + 1);
            assert(self@.mu[i as int].len() == i + 1);
            let m = self.mu[k][i];
            let r = round(m);
            let c = m - r * self.mu[i][i];
            let ghost prev = row@;
            row.push(c);
            proof {
                assert forall|g: spec_fn(T) -> T| #[trigger] computes(*round, g) implies forall|
                    t: int,
                |
                    0 <= t < i + 1 ==> row@[t] == self@.mu[k as int][t].sub_spec(
                        g(self@.mu[k as int][t]).mul_spec(self@.mu[t][t]),
                    ) by {
                    assert(r == g(m));
                    assert forall|t: int| 0 <= t < i + 1 implies row@[t] == self@.mu[k as int][t].sub_spec(
                        g(self@.mu[k as int][t]).mul_spec(self@.mu[t][t]),
                    ) by {
                        if t < i {
                            assert(row@[t] == prev[t]);
                        }
                    }
                }
            }
            i += 1;
        }
        row.push(self.mu[k][k]);
        let ghost before = self@;
        self.basis.set(k, b);
        self.mu.set(k, row);
        proof {
            assert(self@.basis =~= before.basis.update(k as int, b@));
            assert(self@.mu =~= before.mu.update(k as int, row@));
            assert(self@.orth_basis =~= before.orth_basis);
            assert(self@.wf()) by {
                assert forall|a: int| 0 <= a < self@.basis.len() implies (
                #[trigger] self@.basis[a]).len() == self@.basis[0].len() by {
                    if a != k {
                        assert(self@.basis[a] == before.basis[a]);
                    }
                    if k != 0 {
                        assert(self@.basis[0] == before.basis[0]);
                    }
                }
                assert forall|a: int| 0 <= a < self@.basis.len() implies (
                #[trigger] self@.orth_basis[a]).len() == self@.basis[0].len() by {
                    assert(self@.orth_basis[a] == before.orth_basis[a]);
                    if k != 0 {
                        assert(self@.basis[0] == before.basis[0]);
                    }
                }
                assert forall|a: int| 0 <= a < self@.basis.len() implies (#[trigger] self@.mu[a]).len()
                    == a + 1 by {
                    if a != k {
                        assert(self@.mu[a] == before.mu[a]);
                    }
                }
            }
            assert forall|g: spec_fn(T) -> T| #[trigger] computes(*round, g) implies self@
                == before.locally_reduced(k as int, g) by {
                let target = before.locally_reduced(k as int, g);
                assert(row@ =~= before.corrected_row(k as int, g));
                assert(self@.basis =~= target.basis);
                assert(self@.mu =~= target.mu);
            }
        }
    }

    /// Reduces the basis by LLL with the parameter `delta`, in at most
    /// `max_rounds` rounds, and tells whether it came to the end.
    ///
    /// A `delta` outside `(1/4, 1]` is refused before anything is changed.
    /// Otherwise the index `k` starts at 1 and, while it is below the number
    /// of vectors, a round is made: the vector `k` is reduced against the
    /// vectors before it, with its coefficients corrected; then, where the
    /// Lovasz condition holds between `k - 1` and `k`, `k` goes up by one;
    /// where it does not, the two vectors are swapped, the orthogonal basis
    /// and the coefficients are made anew from `k - 1` on, and `k` goes down
    /// by one, never below 1. `round` does the rounding.
    ///
    /// Nothing here says that the rounds end by themselves: where the
    /// scalars round they need not, and `max_rounds` ends them. The result
    /// tells whether the index came to the end.
    pub fn lll<F: Fn(T) -> T>(&mut self, delta: T, round: F, max_rounds: usize) -> (r: Result<
        bool,
        LinalgError,
    >)
        requires
            old(self)@.wf(),
            reducible_scalar::<T>(),
            callable_everywhere(round),
        ensures
            final(self)@.wf(),
            r is Ok <==> valid_delta(delta),
            r is Err ==> r->Err_0 == LinalgError::InvalidDelta && final(self)@ == old(self)@,
            r == Ok::<bool, LinalgError>(true) ==> final(self)@.lovasz_upto(
                old(self)@.len() as int,
                delta,
            ),
            forall|g: spec_fn(T) -> T| #[trigger]
                computes(round, g) && r is Ok ==> ({
                    let end = old(self)@.lll_after(delta, g, max_rounds as nat);
                    &&& final(self)@ == end.0
                    &&& r->Ok_0 == (end.1 >= old(self)@.len())
                    &&& r->Ok_0 ==> exists|before: Seq<Seq<T>>|
                        final(self)@.corrected_upto(old(self)@.len() as int, g, before)
                }),
    {
        if !is_valid_delta(delta) {
            return Err(LinalgError::InvalidDelta);
        }
        let n = self.basis.len();
        let mut k: usize = 1;
        let mut t: usize = 0;
        let ghost mut rows_before: Seq<Seq<T>> = self@.mu;
        while k < n && t < max_rounds
            invariant
                old(self)@.wf(),
                self@.wf(),
                reducible_scalar::<T>(),
                callable_everywhere(round),
                n == old(self)@.len(),
                n == self@.len(),
                1 <= k,
                k <= n || k == 1,
                t <= max_rounds,
                rows_before.len() == n,
                self@.lovasz_upto(k as int, delta),
                forall|g: spec_fn(T) -> T| #[trigger]
                    computes(round, g) ==> (self@, k as int) == old(self)@.lll_after(
                        delta,
                        g,
                        t as nat,
                    ) && self@.corrected_upto(k as int, g, rows_before),
            decreases max_rounds - t,
        {
            let ghost before = self@;
            let ghost k0 = k as int;
            self.reduce_locally(k, &round);
            let ghost reduced = self@;
            proof {
                assert forall|j: int| 1 <= j < k0 implies #[trigger] reduced.lovasz_holds(
                    j - 1,
                    delta,
                ) by {
                    assert(before.lovasz_holds(j - 1, delta));
                    assert(reduced.mu[j] == before.mu[j]);
                }
            }
            if self.check_lovasz(k - 1, delta) {
                k += 1;
                proof {
                    let ghost earlier = rows_before;
                    rows_before = rows_before.update(k0, before.mu[k0]);
                    assert forall|g: spec_fn(T) -> T| #[trigger] computes(round, g) implies (
                        self@,
                        k as int,
                    ) == old(self)@.lll_after(delta, g, (t + 1) as nat) && self@.corrected_upto(
                        k as int,
                        g,
                        rows_before,
                    ) by {
                        assert((before, k0) == old(self)@.lll_after(delta, g, t as nat));
                        assert(reduced == before.locally_reduced(k0, g));
                        assert forall|j: int| 1 <= j < k implies #[trigger] self@.row_corrected(
                            j,
                            g,
                            rows_before[j],
                        ) by {
                            if j < k0 {
                                assert(before.row_corrected(j, g, earlier[j]));
                                lemma_row_corrected_carries_over(before, reduced, j, g, earlier[j]);
                            } else {
                                lemma_locally_reduced_row_corrected(before, k0, g);
                            }
                        }
                    }
                }
            } else {
                self.swap_with_previous(k);
                let ghost swapped = self@;
                self.gram_schmidt_from(k - 1);
                k = if k - 1 > 1 {
                    k - 1
                } else {
                    1
                };
                proof {
                    lemma_orthogonalized_from_wf(swapped, k0 - 1, n as int);
                    assert forall|j: int| 1 <= j < k implies #[trigger] self@.lovasz_holds(
                        j - 1,
                        delta,
                    ) by {
                        assert(reduced.lovasz_holds(j - 1, delta));
                        assert(self@.orth_basis[j] == swapped.orth_basis[j]);
                        assert(self@.orth_basis[j - 1] == swapped.orth_basis[j - 1]);
                        assert(self@.mu[j] == swapped.mu[j]);
                    }
                    assert forall|g: spec_fn(T) -> T| #[trigger] computes(round, g) implies (
                        self@,
                        k as int,
                    ) == old(self)@.lll_after(delta, g, (t + 1) as nat) && self@.corrected_upto(
                        k as int,
                        g,
                        rows_before,
                    ) by {
                        assert((before, k0) == old(self)@.lll_after(delta, g, t as nat));
                        assert(reduced == before.locally_reduced(k0, g));
                        assert forall|j: int| 1 <= j < k implies #[trigger] self@.row_corrected(
                            j,
                            g,
                            rows_before[j],
                        ) by {
                            assert(before.row_corrected(j, g, rows_before[j]));
                            assert forall|i: int| 0 <= i <= j implies self@.mu[i]
                                == before.mu[i] by {
                                assert(self@.mu[i] == swapped.mu[i]);
                                assert(reduced.mu[i] == before.mu[i]);
                            }
                            lemma_row_corrected_carries_over(before, self@, j, g, rows_before[j]);
                        }
                    }
                }
            }
            t += 1;
        }
        proof {
            assert forall|g: spec_fn(T) -> T| #[trigger] computes(round, g) implies self@ == old(
                self,
            )@.lll_after(delta, g, max_rounds as nat).0 && (k >= n) == (old(self)@.lll_after(
                delta,
                g,
                max_rounds as nat,
            ).1 >= old(self)@.len()) && (k >= n ==> exists|before: Seq<Seq<T>>|
                self@.corrected_upto(n as int, g, before)) by {
                if k >= n {
                    assert(self@.corrected_upto(k as int, g, rows_before));
                    assert(self@.corrected_upto(n as int, g, rows_before));
                }
                assert((self@, k as int) == old(self)@.lll_after(delta, g, t as nat));
                if k >= n {
                    lemma_lll_after_stays(old(self)@, delta, g, t as nat, max_rounds as nat);
                }
            }
        }
        Ok(k >= n)
    }
}

/// The lines one after the other, each after a line break.
pub open spec fn stacked(lines: Seq<Seq<char>>) -> Seq<char>
    decreases lines.len(),
{
    if lines.len() == 0 {
        Seq::empty()
    } else {
        stacked(lines.drop_last()) + "\n"@ + lines.last()
    }
}

/// Whether `out` is the text of the basis: the heading `B :`, then each
/// basis vector on a line of its own, in the order of the basis.
pub open spec fn renders_basis<T: Display>(basis: Seq<Seq<T>>, out: Seq<char>) -> bool {
    exists|lines: Seq<Seq<char>>|
        {
            &&& lines.len() == basis.len()
            &&& forall|i: int| 0 <= i < basis.len() ==> renders(basis[i], #[trigger] lines[i])
            &&& out == "B :"@ + stacked(lines)
        }
}

impl<T: Display> Lattice<T> {
    /// The basis as text: the heading `B :` and one line for each vector.
    pub fn render(&self) -> (r: String)
        ensures
            renders_basis(self@.basis, r@),
    {
        let n = self.basis.len();
        let mut ret = String::from_str("B :");
        let ghost mut lines: Seq<Seq<char>> = Seq::empty();
        let mut i: usize = 0;
        while i < n
            invariant
                n == self@.basis.len(),
                i <= n,
                lines.len() == i,
                forall|j: int| 0 <= j < i ==> renders(self@.basis[j], #[trigger] lines[j]),
                ret@ == "B :"@ + stacked(lines),
            decreases n - i,
        {
            let line = self.basis[i].render();
            ret.append("\n");
            ret.append(line.as_str());
            proof {
                let before = lines;
                lines = lines.push(line@);
                assert(lines.drop_last() =~= before);
                assert(ret@ =~= "B :"@ + stacked(lines));
            }
            i += 1;
        }
        ret
    }
}

} // verus!
