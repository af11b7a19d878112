use crate::scalar::at_least;
use crate::scalar::whole;
use crate::vector::difference_of;
use crate::vector::dot_of;
use crate::vector::scaled;
use std::ops::Add;
use std::ops::Div;
use std::ops::Mul;
use std::ops::Sub;
use vstd::prelude::*;
use vstd::std_specs::ops::DivSpec;
use vstd::std_specs::ops::MulSpec;
use vstd::std_specs::ops::SubSpec;

verus! {

/// What a lattice holds, as mathematical sequences: the basis, its
/// orthogonal basis, and the table of coefficients that relates the two.
/// Row `i` of each belongs to the basis vector `i`.
pub struct LatticeModel<T> {
    /// The basis vectors, in their order.
    pub basis: Seq<Seq<T>>,
    /// The orthogonal vector of each basis vector.
    pub orth_basis: Seq<Seq<T>>,
    /// Row `i` holds the coefficients `mu[i][j]` for `j` from 0 to `i`.
    pub mu: Seq<Seq<T>>,
}

impl<T> LatticeModel<T> {
    /// The number of basis vectors.
    pub open spec fn len(self) -> nat {
        self.basis.len()
    }

    /// The three parts are aligned: as many orthogonal vectors and rows of
    /// coefficients as basis vectors, all vectors of one length which is not
    /// zero, and `i + 1` coefficients in row `i`.
    pub open spec fn wf(self) -> bool {
        &&& self.orth_basis.len() == self.basis.len()
        &&& self.mu.len() == self.basis.len()
        &&& forall|i: int|
            0 <= i < self.basis.len() ==> (#[trigger] self.basis[i]).len() == self.basis[0].len()
        &&& forall|i: int|
            0 <= i < self.basis.len() ==> (#[trigger] self.orth_basis[i]).len()
                == self.basis[0].len()
        &&& forall|i: int| 0 <= i < self.basis.len() ==> (#[trigger] self.mu[i]).len() == i + 1
        &&& self.basis.len() > 0 ==> self.basis[0].len() > 0
    }
}

/// The Gram-Schmidt coefficient of `b` on `o`: the inner product of the two,
/// divided by the inner product of `o` with itself.
pub open spec fn coefficient_of<T: Add<Output = T> + Mul<Output = T> + Div<Output = T>>(
    b: Seq<T>,
    o: Seq<T>,
) -> T {
    dot_of(b, o).div_spec(dot_of(o, o))
}

/// The vector `b` after its projections on the first `j` vectors of `orth`
/// were taken away, one after the other and in their order. Each coefficient
/// is that of `b` itself, not of what is left of it.
pub open spec fn projected<
    T: Add<Output = T> + Sub<Output = T> + Mul<Output = T> + Div<Output = T>,
>(b: Seq<T>, orth: Seq<Seq<T>>, j: int) -> Seq<T>
    decreases j,
{
    if j <= 0 {
        b
    } else {
        difference_of(
            projected(b, orth, j - 1),
            scaled(orth[j - 1], coefficient_of(b, orth[j - 1])),
        )
    }
}

/// The coefficients of `b` on the first `j` vectors of `orth`.
pub open spec fn coefficients<T: Add<Output = T> + Mul<Output = T> + Div<Output = T>>(
    b: Seq<T>,
    orth: Seq<Seq<T>>,
    j: int,
) -> Seq<T> {
    Seq::new(j as nat, |t: int| coefficient_of(b, orth[t]))
}

impl<T: Add<Output = T> + Sub<Output = T> + Mul<Output = T> + Div<Output = T>> LatticeModel<T> {
    /// The orthogonal vector of the basis vector `i`, made from the
    /// orthogonal vectors before it as they stand.
    pub open spec fn orthogonal_row(self, i: int) -> Seq<T> {
        projected(self.basis[i], self.orth_basis, i)
    }

    /// Row `i` of the coefficients, made from the orthogonal vectors before
    /// `i` as they stand: the coefficients of the basis vector on each of
    /// them, then its coefficient on its own orthogonal vector.
    pub open spec fn coefficient_row(self, i: int) -> Seq<T> {
        coefficients(self.basis[i], self.orth_basis, i).push(
            coefficient_of(self.basis[i], self.orthogonal_row(i)),
        )
    }

    /// The lattice with row `i` of the orthogonal basis and of the
    /// coefficients made anew.
    pub open spec fn orthogonalize_row(self, i: int) -> Self {
        LatticeModel {
            basis: self.basis,
            orth_basis: self.orth_basis.update(i, self.orthogonal_row(i)),
            mu: self.mu.update(i, self.coefficient_row(i)),
        }
    }

    /// The lattice with the rows from `start` up to, not including, `end`
    /// made anew in ascending order. The rows before `start` are used as
    /// they stand.
    pub open spec fn orthogonalized_from(self, start: int, end: int) -> Self
        decreases end - start,
    {
        if end <= start {
            self
        } else {
            self.orthogonalized_from(start, end - 1).orthogonalize_row(end - 1)
        }
    }

    /// The lattice with its whole orthogonal basis and all its coefficients
    /// made anew from the basis.
    pub open spec fn orthogonalized(self) -> Self {
        self.orthogonalized_from(0, self.basis.len() as int)
    }

    /// Whether the rows before `k` of the orthogonal basis and of the
    /// coefficients are those that the basis gives.
    pub open spec fn consistent_before(self, k: int) -> bool {
        forall|a: int|
            0 <= a < k ==> #[trigger] self.orth_basis[a] == self.orthogonalized().orth_basis[a]
                && self.mu[a] == self.orthogonalized().mu[a]
    }

    /// Whether the orthogonal basis and the coefficients are those that the
    /// basis gives.
    pub open spec fn consistent(self) -> bool {
        self == self.orthogonalized()
    }
}

/// Taking projections away leaves the length of a vector as it is, where the
/// vectors projected on have the same length.
pub proof fn lemma_projected_len<
    T: Add<Output = T> + Sub<Output = T> + Mul<Output = T> + Div<Output = T>,
>(b: Seq<T>, orth: Seq<Seq<T>>, j: int)
    ensures
        projected(b, orth, j).len() == b.len(),
    decreases j,
{
    if j > 0 {
        lemma_projected_len(b, orth, j - 1);
    }
}

/// Making a row anew keeps a lattice aligned and touches no other row.
pub proof fn lemma_orthogonalize_row_wf<
    T: Add<Output = T> + Sub<Output = T> + Mul<Output = T> + Div<Output = T>,
>(m: LatticeModel<T>, i: int)
    requires
        m.wf(),
        0 <= i < m.len(),
    ensures
        m.orthogonalize_row(i).wf(),
        m.orthogonalize_row(i).basis == m.basis,
{
    lemma_projected_len(m.basis[i], m.orth_basis, i);
    let r = m.orthogonalize_row(i);
    assert forall|k: int| 0 <= k < r.basis.len() implies (#[trigger] r.orth_basis[k]).len()
        == r.basis[0].len() by {
        if k != i {
            assert(r.orth_basis[k] == m.orth_basis[k]);
        }
    }
    assert forall|k: int| 0 <= k < r.basis.len() implies (#[trigger] r.mu[k]).len() == k + 1 by {
        if k != i {
            assert(r.mu[k] == m.mu[k]);
        }
    }
}

/// Making rows anew keeps a lattice aligned, keeps its basis, and leaves the
/// rows before `start` and from `end` on as they were.
pub proof fn lemma_orthogonalized_from_wf<
    T: Add<Output = T> + Sub<Output = T> + Mul<Output = T> + Div<Output = T>,
>(m: LatticeModel<T>, start: int, end: int)
    requires
        m.wf(),
        0 <= start,
        end <= m.len(),
    ensures
        m.orthogonalized_from(start, end).wf(),
        m.orthogonalized_from(start, end).basis == m.basis,
        forall|k: int|
            0 <= k < m.len() && (k < start || end <= k) ==> m.orthogonalized_from(
                start,
                end,
            ).orth_basis[k] == m.orth_basis[k] && m.orthogonalized_from(start, end).mu[k]
                == m.mu[k],
    decreases end - start,
{
    if end > start {
        lemma_orthogonalized_from_wf(m, start, end - 1);
        lemma_orthogonalize_row_wf(m.orthogonalized_from(start, end - 1), end - 1);
    }
}

/// Whether the vectors of `b` all have one length.
pub open spec fn uniform<T>(b: Seq<Seq<T>>) -> bool {
    forall|i: int| 0 <= i < b.len() ==> (#[trigger] b[i]).len() == b[0].len()
}

/// The table of coefficients of `n` rows that holds zero everywhere.
pub open spec fn zero_triangle<T: From<i8>>(n: nat) -> Seq<Seq<T>> {
    Seq::new(n, |i: int| Seq::new((i + 1) as nat, |j: int| whole::<T>(0)))
}

/// The vector `b` less, for each of the first `j` vectors of `basis` in
/// their order, that vector times the rounded coefficient of its place in
/// `mu_row`. The function `g` does the rounding.
pub open spec fn reduced_against<T: Sub<Output = T> + Mul<Output = T>>(
    b: Seq<T>,
    basis: Seq<Seq<T>>,
    mu_row: Seq<T>,
    g: spec_fn(T) -> T,
    j: int,
) -> Seq<T>
    decreases j,
{
    if j <= 0 {
        b
    } else {
        difference_of(
            reduced_against(b, basis, mu_row, g, j - 1),
            scaled(basis[j - 1], g(mu_row[j - 1])),
        )
    }
}

/// The basis after its first `i` vectors were size-reduced in ascending
/// order, each against the vectors before it as the pass has left them,
/// with the coefficients of `mu` as they stand.
pub open spec fn size_reduced<T: Sub<Output = T> + Mul<Output = T>>(
    basis: Seq<Seq<T>>,
    mu: Seq<Seq<T>>,
    g: spec_fn(T) -> T,
    i: int,
) -> Seq<Seq<T>>
    decreases i,
{
    if i <= 0 {
        basis
    } else {
        let prev = size_reduced(basis, mu, g, i - 1);
        prev.update(i - 1, reduced_against(prev[i - 1], prev, mu[i - 1], g, i - 1))
    }
}

impl<
    T: Add<Output = T> + Sub<Output = T> + Mul<Output = T> + Div<Output = T> + PartialOrd + From<
        i8,
    >,
> LatticeModel<T> {
    /// The lattice that starts from the basis `b`: the orthogonal basis is
    /// a copy of it and every coefficient is zero.
    pub open spec fn blank(b: Seq<Seq<T>>) -> Self {
        LatticeModel { basis: b, orth_basis: b, mu: zero_triangle::<T>(b.len()) }
    }

    /// Row `k` of the coefficients after the size reduction of the basis
    /// vector `k` alone: each coefficient before the last less its rounding
    /// times the last coefficient of the row it belongs to.
    pub open spec fn corrected_row(self, k: int, g: spec_fn(T) -> T) -> Seq<T> {
        Seq::new(
            (k + 1) as nat,
            |t: int|
                if t < k {
                    self.mu[k][t].sub_spec(g(self.mu[k][t]).mul_spec(self.mu[t][t]))
                } else {
                    self.mu[k][t]
                },
        )
    }

    /// The lattice after the size reduction of the basis vector `k` alone,
    /// against all the vectors before it, with the correction of its
    /// coefficients. The orthogonal basis stays.
    pub open spec fn locally_reduced(self, k: int, g: spec_fn(T) -> T) -> Self {
        LatticeModel {
            basis: self.basis.update(
                k,
                reduced_against(self.basis[k], self.basis, self.mu[k], g, k),
            ),
            orth_basis: self.orth_basis,
            mu: self.mu.update(k, self.corrected_row(k, g)),
        }
    }

    /// The Lovasz condition between the vectors `i` and `i + 1`:
    /// `<b*_{i+1}, b*_{i+1}> >= (delta - mu[i+1][i]^2) * <b*_i, b*_i>`.
    pub open spec fn lovasz_holds(self, i: int, delta: T) -> bool {
        let m = self.mu[i + 1][i];
        at_least(
            dot_of(self.orth_basis[i + 1], self.orth_basis[i + 1]),
            delta.sub_spec(m.mul_spec(m)).mul_spec(dot_of(self.orth_basis[i], self.orth_basis[i])),
        )
    }

    /// The lattice with the basis vectors `k - 1` and `k` in each other's
    /// place, and nothing else changed.
    pub open spec fn swapped(self, k: int) -> Self {
        LatticeModel {
            basis: self.basis.update(k - 1, self.basis[k]).update(k, self.basis[k - 1]),
            orth_basis: self.orth_basis,
            mu: self.mu,
        }
    }

    /// One round of LLL at the index `k`: the size reduction of the vector
    /// `k`, then either a step forward, where the Lovasz condition holds
    /// between `k - 1` and `k`, or the swap of the two, the rows from
    /// `k - 1` on made anew, and a step back that stops at 1.
    pub open spec fn lll_round(self, k: int, delta: T, g: spec_fn(T) -> T) -> (Self, int) {
        let r = self.locally_reduced(k, g);
        if r.lovasz_holds(k - 1, delta) {
            (r, k + 1)
        } else {
            (
                r.swapped(k).orthogonalized_from(k - 1, self.basis.len() as int),
                if k - 1 > 1 {
                    k - 1
                } else {
                    1
                },
            )
        }
    }

    /// The lattice and the index after at most `t` rounds of LLL that start
    /// at the index 1. Once the index has reached the number of vectors
    /// nothing changes any more.
    pub open spec fn lll_after(self, delta: T, g: spec_fn(T) -> T, t: nat) -> (Self, int)
        decreases t,
    {
        if t == 0 {
            (self, 1)
        } else {
            let (p, k) = self.lll_after(delta, g, (t - 1) as nat);
            if k >= p.basis.len() {
                (p, k)
            } else {
                p.lll_round(k, delta, g)
            }
        }
    }

    /// Whether row `j` of the coefficients is the row `r` corrected: each
    /// of its coefficients before the last is the scalar of its place in
    /// `r`, less the rounding of that scalar times the last coefficient of
    /// the row it belongs to.
    pub open spec fn row_corrected(self, j: int, g: spec_fn(T) -> T, r: Seq<T>) -> bool {
        forall|i: int|
            0 <= i < j ==> #[trigger] self.mu[j][i] == r[i].sub_spec(
                g(r[i]).mul_spec(self.mu[i][i]),
            )
    }

    /// Whether the rows from 1 up to, not including, `k` of the
    /// coefficients are the rows of `before`, corrected.
    pub open spec fn corrected_upto(
        self,
        k: int,
        g: spec_fn(T) -> T,
        before: Seq<Seq<T>>,
    ) -> bool {
        forall|j: int| 1 <= j < k ==> #[trigger] self.row_corrected(j, g, before[j])
    }

    /// Whether the Lovasz condition holds between every two neighbours
    /// among the first `k` vectors.
    pub open spec fn lovasz_upto(self, k: int, delta: T) -> bool {
        forall|j: int| 1 <= j < k ==> #[trigger] self.lovasz_holds(j - 1, delta)
    }
}

/// Size reduction leaves the length of a vector as it is.
pub proof fn lemma_reduced_against_len<T: Sub<Output = T> + Mul<Output = T>>(
    b: Seq<T>,
    basis: Seq<Seq<T>>,
    mu_row: Seq<T>,
    g: spec_fn(T) -> T,
    j: int,
)
    ensures
        reduced_against(b, basis, mu_row, g, j).len() == b.len(),
    decreases j,
{
    if j > 0 {
        lemma_reduced_against_len(b, basis, mu_row, g, j - 1);
    }
}

/// Once the index has reached the number of vectors, further rounds of LLL
/// change nothing.
pub proof fn lemma_lll_after_stays<
    T: Add<Output = T> + Sub<Output = T> + Mul<Output = T> + Div<Output = T> + PartialOrd + From<
        i8,
    >,
>(m: LatticeModel<T>, delta: T, g: spec_fn(T) -> T, t: nat, u: nat)
    requires
        t <= u,
        m.lll_after(delta, g, t).1 >= m.lll_after(delta, g, t).0.basis.len(),
    ensures
        m.lll_after(delta, g, u) == m.lll_after(delta, g, t),
    decreases u,
{
    if u > t {
        lemma_lll_after_stays(m, delta, g, t, (u - 1) as nat);
    }
}

/// A corrected row stays one in a lattice that holds the same coefficients
/// in that row and in the rows before it.
pub proof fn lemma_row_corrected_carries_over<
    T: Add<Output = T> + Sub<Output = T> + Mul<Output = T> + Div<Output = T> + PartialOrd + From<
        i8,
    >,
>(m1: LatticeModel<T>, m2: LatticeModel<T>, j: int, g: spec_fn(T) -> T, r: Seq<T>)
    requires
        0 <= j < m1.mu.len(),
        m1.mu.len() == m2.mu.len(),
        m1.row_corrected(j, g, r),
        forall|i: int| 0 <= i <= j ==> m2.mu[i] == m1.mu[i],
    ensures
        m2.row_corrected(j, g, r),
{
    assert forall|i: int| 0 <= i < j implies #[trigger] m2.mu[j][i] == r[i].sub_spec(
        g(r[i]).mul_spec(m2.mu[i][i]),
    ) by {
        assert(m2.mu[j] == m1.mu[j]);
        assert(m2.mu[i] == m1.mu[i]);
        assert(m1.mu[j][i] == r[i].sub_spec(g(r[i]).mul_spec(m1.mu[i][i])));
    }
}

/// The size reduction of the vector `k` alone leaves row `k` of the
/// coefficients the row that it was, corrected.
pub proof fn lemma_locally_reduced_row_corrected<
    T: Add<Output = T> + Sub<Output = T> + Mul<Output = T> + Div<Output = T> + PartialOrd + From<
        i8,
    >,
>(m: LatticeModel<T>, k: int, g: spec_fn(T) -> T)
    requires
        m.wf(),
        0 <= k < m.len(),
    ensures
        m.locally_reduced(k, g).row_corrected(k, g, m.mu[k]),
{
    let r = m.mu[k];
    let after = m.locally_reduced(k, g);
    assert forall|i: int| 0 <= i < k implies #[trigger] after.mu[k][i] == r[i].sub_spec(
        g(r[i]).mul_spec(after.mu[i][i]),
    ) by {
        assert(after.mu[i] == m.mu[i]);
        assert(after.mu[k] == m.corrected_row(k, g));
    }
}

} // verus!
