use crate::model::coefficients;
use crate::model::lemma_orthogonalized_from_wf;
use crate::model::projected;
use crate::model::LatticeModel;
use crate::vector::difference_of;
use crate::vector::dot_of;
use crate::vector::scaled;
use crate::vector::scaled_on_right;
use crate::vector::sum_of;
use std::ops::Add;
use std::ops::Div;
use std::ops::Mul;
use std::ops::Sub;
use vstd::prelude::*;
use vstd::std_specs::ops::AddSpec;
use vstd::std_specs::ops::MulSpec;
use vstd::std_specs::ops::SubSpec;

verus! {

/// The inner product does not depend on the order of its two vectors, where
/// the product of two scalars does not depend on the order of its factors.
pub proof fn dot_is_symmetric<T: Add<Output = T> + Mul<Output = T>>(a: Seq<T>, b: Seq<T>)
    requires
        a.len() == b.len(),
        forall|x: T, y: T| #[trigger] x.mul_spec(y) == y.mul_spec(x),
    ensures
        dot_of(a, b) == dot_of(b, a),
    decreases a.len(),
{
    if a.len() >= 2 {
        dot_is_symmetric(a.drop_last(), b.drop_last());
    }
}

/// For vectors of machine integers of equal length, the inner product of `a`
/// and `b` is that of `b` and `a`.
pub proof fn integer_dot_is_symmetric(a: Seq<isize>, b: Seq<isize>)
    requires
        a.len() == b.len(),
    ensures
        dot_of(a, b) == dot_of(b, a),
{
    assert forall|x: isize, y: isize| #[trigger] x.mul_spec(y) == y.mul_spec(x) by {
        assert(x * y == y * x) by (nonlinear_arith);
    }
    dot_is_symmetric(a, b);
}

/// For vectors of machine integers of equal length whose sum exists, taking
/// `b` away from the sum of `a` and `b` is possible and gives `a` back.
pub proof fn integer_sum_less_summand(a: Seq<isize>, b: Seq<isize>)
    requires
        a.len() == b.len(),
        forall|i: int| 0 <= i < a.len() ==> #[trigger] a[i].add_req(b[i]),
    ensures
        forall|i: int| 0 <= i < a.len() ==> #[trigger] sum_of(a, b)[i].sub_req(b[i]),
        difference_of(sum_of(a, b), b) == a,
{
    assert forall|i: int| 0 <= i < a.len() implies #[trigger] sum_of(a, b)[i].sub_req(b[i])
        && sum_of(a, b)[i].sub_spec(b[i]) == a[i] by {
        assert(a[i].add_req(b[i]));
    }
    assert forall|i: int| 0 <= i < a.len() implies #[trigger] difference_of(sum_of(a, b), b)[i]
        == a[i] by {
        assert(a[i].add_req(b[i]));
    }
    assert(difference_of(sum_of(a, b), b) =~= a);
}

/// For a vector of machine integers, scaling by `k` and then by `m` gives
/// what scaling by the product of `k` and `m` gives, where the products
/// that the two scalings make exist and `k * m` does.
pub proof fn integer_scaling_composes(a: Seq<isize>, k: isize, m: isize)
    requires
        k.mul_req(m),
        forall|i: int| 0 <= i < a.len() ==> #[trigger] k.mul_req(a[i]),
        forall|i: int| 0 <= i < a.len() ==> m.mul_req(#[trigger] k.mul_spec(a[i])),
    ensures
        forall|i: int| 0 <= i < a.len() ==> k.mul_spec(m).mul_req(#[trigger] a[i]),
        scaled(scaled(a, k), m) == scaled(a, k.mul_spec(m)),
{
    assert forall|i: int| 0 <= i < a.len() implies k.mul_spec(m).mul_req(#[trigger] a[i])
        && m.mul_spec(k.mul_spec(a[i])) == k.mul_spec(m).mul_spec(a[i]) by {
        assert(k.mul_req(a[i]));
        assert(m.mul_req(k.mul_spec(a[i])));
        assert(m * (k * a[i]) == (k * m) * a[i]) by (nonlinear_arith);
    }
    assert(scaled(scaled(a, k), m) =~= scaled(a, k.mul_spec(m)));
}

/// For a vector of machine integers it makes no difference on which side of
/// each coordinate the scalar stands.
pub proof fn integer_scaling_sides_agree(a: Seq<isize>, k: isize)
    ensures
        scaled(a, k) == scaled_on_right(a, k),
{
    assert forall|i: int| 0 <= i < a.len() implies k.mul_spec(a[i]) == a[i].mul_spec(k) by {
        assert(k * a[i] == a[i] * k) by (nonlinear_arith);
    }
    assert(scaled(a, k) =~= scaled_on_right(a, k));
}

/// What is left of a vector after its projections on the first `j` vectors
/// were taken away, and its coefficients on them, depend on those `j`
/// vectors alone.
pub proof fn projection_reads_the_rows_before<
    T: Add<Output = T> + Sub<Output = T> + Mul<Output = T> + Div<Output = T>,
>(b: Seq<T>, first: Seq<Seq<T>>, second: Seq<Seq<T>>, j: int)
    requires
        0 <= j <= first.len(),
        j <= second.len(),
        forall|t: int| 0 <= t < j ==> first[t] == second[t],
    ensures
        projected(b, first, j) == projected(b, second, j),
        coefficients(b, first, j) == coefficients(b, second, j),
    decreases j,
{
    if j > 0 {
        projection_reads_the_rows_before(b, first, second, j - 1);
        assert(first[j - 1] == second[j - 1]);
        assert forall|t: int| 0 <= t < j implies #[trigger] coefficients(b, first, j)[t]
            == coefficients(b, second, j)[t] by {
            assert(first[t] == second[t]);
        }
    }
    assert(coefficients(b, first, j) =~= coefficients(b, second, j));
}

/// Making the rows up to `later` anew gives, in the rows before `end`, what
/// making the rows up to `end` anew gives.
pub proof fn later_rows_leave_earlier_rows<
    T: Add<Output = T> + Sub<Output = T> + Mul<Output = T> + Div<Output = T>,
>(m: LatticeModel<T>, start: int, end: int, later: int)
    requires
        m.wf(),
        0 <= start,
        end <= later <= m.len(),
    ensures
        forall|a: int|
            0 <= a < end ==> m.orthogonalized_from(start, later).orth_basis[a]
                == m.orthogonalized_from(start, end).orth_basis[a] && m.orthogonalized_from(
                start,
                later,
            ).mu[a] == m.orthogonalized_from(start, end).mu[a],
    decreases later - end,
{
    if later > end {
        later_rows_leave_earlier_rows(m, start, end, later - 1);
        lemma_orthogonalized_from_wf(m, start, later - 1);
    }
}

/// Two aligned lattices with one basis, the first made anew from `s1` and
/// the second from an earlier `s2`, agree in every row before `end`, where
/// the first held in its rows before `s1` what the second gets there.
pub proof fn rows_made_anew_agree<
    T: Add<Output = T> + Sub<Output = T> + Mul<Output = T> + Div<Output = T>,
>(m1: LatticeModel<T>, s1: int, m2: LatticeModel<T>, s2: int, end: int)
    requires
        m1.wf(),
        m2.wf(),
        m1.basis == m2.basis,
        0 <= s2 <= s1 <= end <= m1.len(),
        forall|a: int|
            0 <= a < s1 ==> m1.orth_basis[a] == m2.orthogonalized_from(s2, s1).orth_basis[a]
                && m1.mu[a] == m2.orthogonalized_from(s2, s1).mu[a],
    ensures
        forall|a: int|
            0 <= a < end ==> m1.orthogonalized_from(s1, end).orth_basis[a]
                == m2.orthogonalized_from(s2, end).orth_basis[a] && m1.orthogonalized_from(
                s1,
                end,
            ).mu[a] == m2.orthogonalized_from(s2, end).mu[a],
    decreases end - s1,
{
    if end > s1 {
        rows_made_anew_agree(m1, s1, m2, s2, end - 1);
        let p1 = m1.orthogonalized_from(s1, end - 1);
        let p2 = m2.orthogonalized_from(s2, end - 1);
        lemma_orthogonalized_from_wf(m1, s1, end - 1);
        lemma_orthogonalized_from_wf(m2, s2, end - 1);
        projection_reads_the_rows_before(
            m1.basis[end - 1],
            p1.orth_basis,
            p2.orth_basis,
            end - 1,
        );
        assert(m1.orthogonalized_from(s1, end) == p1.orthogonalize_row(end - 1));
        assert(m2.orthogonalized_from(s2, end) == p2.orthogonalize_row(end - 1));
    }
}

/// The orthogonal basis and the coefficients that Gram-Schmidt gives depend
/// on the basis alone, not on what the lattice held of them before.
pub proof fn orthogonalization_needs_the_basis_only<
    T: Add<Output = T> + Sub<Output = T> + Mul<Output = T> + Div<Output = T>,
>(m1: LatticeModel<T>, m2: LatticeModel<T>)
    requires
        m1.wf(),
        m2.wf(),
        m1.basis == m2.basis,
    ensures
        m1.orthogonalized() == m2.orthogonalized(),
{
    let n = m1.len() as int;
    rows_made_anew_agree(m1, 0, m2, 0, n);
    lemma_orthogonalized_from_wf(m1, 0, n);
    lemma_orthogonalized_from_wf(m2, 0, n);
    assert(m1.orthogonalized().orth_basis =~= m2.orthogonalized().orth_basis);
    assert(m1.orthogonalized().mu =~= m2.orthogonalized().mu);
}

/// Gram-Schmidt a second time changes nothing: what it gives is consistent.
pub proof fn orthogonalized_is_consistent<
    T: Add<Output = T> + Sub<Output = T> + Mul<Output = T> + Div<Output = T>,
>(m: LatticeModel<T>)
    requires
        m.wf(),
    ensures
        m.orthogonalized().consistent(),
{
    lemma_orthogonalized_from_wf(m, 0, m.len() as int);
    orthogonalization_needs_the_basis_only(m.orthogonalized(), m);
}

/// Where the rows before `start` are those that the basis gives, making the
/// rows from `start` on anew gives what making all of them anew gives.
pub proof fn orthogonalizing_from_a_consistent_start<
    T: Add<Output = T> + Sub<Output = T> + Mul<Output = T> + Div<Output = T>,
>(m: LatticeModel<T>, start: int)
    requires
        m.wf(),
        0 <= start <= m.len(),
        m.consistent_before(start),
    ensures
        m.orthogonalized_from(start, m.len() as int) == m.orthogonalized(),
{
    let n = m.len() as int;
    later_rows_leave_earlier_rows(m, 0, start, n);
    assert forall|a: int| 0 <= a < start implies m.orth_basis[a] == m.orthogonalized_from(
        0,
        start,
    ).orth_basis[a] && m.mu[a] == m.orthogonalized_from(0, start).mu[a] by {
        assert(m.orth_basis[a] == m.orthogonalized().orth_basis[a]);
    }
    rows_made_anew_agree(m, start, m, 0, n);
    lemma_orthogonalized_from_wf(m, start, n);
    lemma_orthogonalized_from_wf(m, 0, n);
    assert(m.orthogonalized_from(start, n).orth_basis =~= m.orthogonalized().orth_basis);
    assert(m.orthogonalized_from(start, n).mu =~= m.orthogonalized().mu);
}

} // verus!
