use crate::laws::dot_is_symmetric;
use crate::laws::later_rows_leave_earlier_rows;
use crate::model::coefficient_of;
use crate::model::lemma_orthogonalized_from_wf;
use crate::model::lemma_projected_len;
use crate::model::lemma_reduced_against_len;
use crate::model::projected;
use crate::scalar::at_least;
use crate::scalar::at_most;
use crate::model::LatticeModel;
use crate::vector::difference_of;
use crate::vector::dot_of;
use crate::vector::scaled;
use std::ops::Add;
use std::ops::Div;
use std::ops::Mul;
use std::ops::Sub;
use vstd::prelude::*;
use vstd::std_specs::ops::AddSpec;
use vstd::std_specs::ops::DivSpec;
use vstd::std_specs::ops::MulSpec;
use vstd::std_specs::ops::SubSpec;

verus! {

/// Whether products do not depend on the order of their factors.
#[verifier::opaque]
pub open spec fn products_commute<T: Mul<Output = T>>() -> bool {
    forall|x: T, y: T| #[trigger] x.mul_spec(y) == y.mul_spec(x)
}

/// Whether `(a - b) * c` is `a * c - b * c` for all scalars.
#[verifier::opaque]
pub open spec fn differences_distribute<T: Sub<Output = T> + Mul<Output = T>>() -> bool {
    forall|a: T, b: T, c: T| #[trigger]
        a.sub_spec(b).mul_spec(c) == a.mul_spec(c).sub_spec(b.mul_spec(c))
}

/// Whether `(p - q) + (u - v)` is `(p + u) - (q + v)` for all scalars.
#[verifier::opaque]
pub open spec fn differences_add_up<T: Add<Output = T> + Sub<Output = T>>() -> bool {
    forall|p: T, q: T, u: T, v: T| #[trigger]
        p.sub_spec(q).add_spec(u.sub_spec(v)) == p.add_spec(u).sub_spec(q.add_spec(v))
}

/// Whether `(k * a) * c` is `k * (a * c)` for all scalars.
#[verifier::opaque]
pub open spec fn products_associate<T: Mul<Output = T>>() -> bool {
    forall|k: T, a: T, c: T| #[trigger] k.mul_spec(a).mul_spec(c) == k.mul_spec(a.mul_spec(c))
}

/// Whether `k * p + k * q` is `k * (p + q)` for all scalars.
#[verifier::opaque]
pub open spec fn sums_distribute<T: Add<Output = T> + Mul<Output = T>>() -> bool {
    forall|k: T, p: T, q: T| #[trigger]
        k.mul_spec(p).add_spec(k.mul_spec(q)) == k.mul_spec(p.add_spec(q))
}

/// Whether `zero` is the zero of the scalars: `k * zero` is `zero`,
/// `x - zero` is `x`, and `x - x` is `zero`, for all scalars.
#[verifier::opaque]
pub open spec fn is_zero<T: Sub<Output = T> + Mul<Output = T>>(zero: T) -> bool {
    &&& forall|k: T| #[trigger] k.mul_spec(zero) == zero
    &&& forall|x: T| #[trigger] x.sub_spec(zero) == x
    &&& forall|x: T| #[trigger] x.sub_spec(x) == zero
}

/// Whether `(p / q) * q` is `p` for all scalars `p` and all `q` but `zero`.
#[verifier::opaque]
pub open spec fn quotients_multiply_back<T: Mul<Output = T> + Div<Output = T>>(zero: T) -> bool {
    forall|p: T, q: T| q != zero ==> #[trigger] p.div_spec(q).mul_spec(q) == p
}

/// Whether the scalars of `T` calculate exactly, with `zero` as their zero:
/// the rules of a field that Gram-Schmidt rests on hold of every scalar.
/// Rational numbers calculate so; floating point, which rounds, does not.
pub open spec fn exact_arithmetic<
    T: Add<Output = T> + Sub<Output = T> + Mul<Output = T> + Div<Output = T>,
>(zero: T) -> bool {
    &&& products_commute::<T>()
    &&& differences_distribute::<T>()
    &&& differences_add_up::<T>()
    &&& products_associate::<T>()
    &&& sums_distribute::<T>()
    &&& is_zero::<T>(zero)
    &&& quotients_multiply_back::<T>(zero)
}

/// `(a - b) * c` is `a * c - b * c`.
proof fn rule_difference_times<T: Sub<Output = T> + Mul<Output = T>>(a: T, b: T, c: T)
    requires
        differences_distribute::<T>(),
    ensures
        a.sub_spec(b).mul_spec(c) == a.mul_spec(c).sub_spec(b.mul_spec(c)),
{
    reveal(differences_distribute);
}

/// `(p - q) + (u - v)` is `(p + u) - (q + v)`.
proof fn rule_sum_of_differences<T: Add<Output = T> + Sub<Output = T>>(p: T, q: T, u: T, v: T)
    requires
        differences_add_up::<T>(),
    ensures
        p.sub_spec(q).add_spec(u.sub_spec(v)) == p.add_spec(u).sub_spec(q.add_spec(v)),
{
    reveal(differences_add_up);
}

/// `(k * a) * c` is `k * (a * c)`.
proof fn rule_product_of_three<T: Mul<Output = T>>(k: T, a: T, c: T)
    requires
        products_associate::<T>(),
    ensures
        k.mul_spec(a).mul_spec(c) == k.mul_spec(a.mul_spec(c)),
{
    reveal(products_associate);
}

/// `k * p + k * q` is `k * (p + q)`.
proof fn rule_common_factor<T: Add<Output = T> + Mul<Output = T>>(k: T, p: T, q: T)
    requires
        sums_distribute::<T>(),
    ensures
        k.mul_spec(p).add_spec(k.mul_spec(q)) == k.mul_spec(p.add_spec(q)),
{
    reveal(sums_distribute);
}

/// `x * 0` is `0`, `x - 0` is `x`, and `x - x` is `0`.
proof fn rule_zero<T: Sub<Output = T> + Mul<Output = T>>(x: T, zero: T)
    requires
        is_zero::<T>(zero),
    ensures
        x.mul_spec(zero) == zero,
        x.sub_spec(zero) == x,
        x.sub_spec(x) == zero,
{
    reveal(is_zero);
}

/// `(p / q) * q` is `p`, where `q` is not zero.
proof fn rule_quotient_times<T: Mul<Output = T> + Div<Output = T>>(p: T, q: T, zero: T)
    requires
        quotients_multiply_back::<T>(zero),
        q != zero,
    ensures
        p.div_spec(q).mul_spec(q) == p,
{
    reveal(quotients_multiply_back);
}

/// Products do not depend on the order of their factors.
proof fn rule_products_commute<T: Mul<Output = T>>()
    requires
        products_commute::<T>(),
    ensures
        forall|x: T, y: T| #[trigger] x.mul_spec(y) == y.mul_spec(x),
{
    reveal(products_commute);
}

/// With exact scalars the inner product of a difference is the difference
/// of the inner products.
pub proof fn dot_of_a_difference<
    T: Add<Output = T> + Sub<Output = T> + Mul<Output = T> + Div<Output = T>,
>(x: Seq<T>, y: Seq<T>, z: Seq<T>, zero: T)
    requires
        exact_arithmetic::<T>(zero),
        x.len() == y.len(),
        x.len() == z.len(),
        x.len() >= 1,
    ensures
        dot_of(difference_of(x, y), z) == dot_of(x, z).sub_spec(dot_of(y, z)),
    decreases x.len(),
{
    let d = difference_of(x, y);
    if x.len() >= 2 {
        dot_of_a_difference(x.drop_last(), y.drop_last(), z.drop_last(), zero);
        assert(d.drop_last() =~= difference_of(x.drop_last(), y.drop_last()));
        let p = dot_of(x.drop_last(), z.drop_last());
        let q = dot_of(y.drop_last(), z.drop_last());
        let u = x.last().mul_spec(z.last());
        let v = y.last().mul_spec(z.last());
        assert(d.last() == x.last().sub_spec(y.last()));
        rule_difference_times(x.last(), y.last(), z.last());
        rule_sum_of_differences(p, q, u, v);
    } else {
        assert(d[0] == x[0].sub_spec(y[0]));
        rule_difference_times(x[0], y[0], z[0]);
    }
}

/// With exact scalars the inner product of a scaled vector is the inner
/// product of the vector, scaled.
pub proof fn dot_of_a_scaled_vector<
    T: Add<Output = T> + Sub<Output = T> + Mul<Output = T> + Div<Output = T>,
>(y: Seq<T>, k: T, z: Seq<T>, zero: T)
    requires
        exact_arithmetic::<T>(zero),
        y.len() == z.len(),
        y.len() >= 1,
    ensures
        dot_of(scaled(y, k), z) == k.mul_spec(dot_of(y, z)),
    decreases y.len(),
{
    let s = scaled(y, k);
    if y.len() >= 2 {
        dot_of_a_scaled_vector(y.drop_last(), k, z.drop_last(), zero);
        assert(s.drop_last() =~= scaled(y.drop_last(), k));
        let p = dot_of(y.drop_last(), z.drop_last());
        let q = y.last().mul_spec(z.last());
        assert(s.last() == k.mul_spec(y.last()));
        rule_product_of_three(k, y.last(), z.last());
        rule_common_factor(k, p, q);
    } else {
        assert(s[0] == k.mul_spec(y[0]));
        rule_product_of_three(k, y[0], z[0]);
    }
}

/// With exact scalars, scaling a vector by `k` and then by `m` gives what
/// scaling it by the product of `k` and `m` gives.
pub proof fn scaling_composes<
    T: Add<Output = T> + Sub<Output = T> + Mul<Output = T> + Div<Output = T>,
>(a: Seq<T>, k: T, m: T, zero: T)
    requires
        exact_arithmetic::<T>(zero),
    ensures
        scaled(scaled(a, k), m) == scaled(a, k.mul_spec(m)),
{
    assert forall|i: int| 0 <= i < a.len() implies m.mul_spec(k.mul_spec(a[i])) == k.mul_spec(
        m,
    ).mul_spec(a[i]) by {
        rule_product_of_three(m, k, a[i]);
        rule_product_of_three(k, m, a[i]);
        assert(k.mul_spec(m) == m.mul_spec(k)) by {
            rule_products_commute::<T>();
        }
    }
    assert(scaled(scaled(a, k), m) =~= scaled(a, k.mul_spec(m)));
}

/// Whether the first `i` vectors of `orth` are orthogonal to each other.
pub open spec fn pairwise_orthogonal<T: Add<Output = T> + Mul<Output = T>>(
    orth: Seq<Seq<T>>,
    i: int,
    zero: T,
) -> bool {
    forall|a: int, c: int|
        0 <= a < i && 0 <= c < i && a != c ==> #[trigger] dot_of(orth[a], orth[c]) == zero
}

/// With exact scalars, and the first `i` vectors of `orth` orthogonal to
/// each other, what is left of `b` after its projections on the first `j`
/// of them were taken away has with the vector `t` the inner product that
/// `b` has, as long as `j` has not passed `t`, and zero from then on.
pub proof fn projections_take_one_direction_away<
    T: Add<Output = T> + Sub<Output = T> + Mul<Output = T> + Div<Output = T>,
>(b: Seq<T>, orth: Seq<Seq<T>>, i: int, j: int, t: int, zero: T)
    requires
        exact_arithmetic::<T>(zero),
        0 <= t < i <= orth.len(),
        0 <= j <= i,
        b.len() >= 1,
        forall|a: int| 0 <= a < i ==> (#[trigger] orth[a]).len() == b.len(),
        pairwise_orthogonal(orth, i, zero),
        dot_of(orth[t], orth[t]) != zero,
    ensures
        dot_of(projected(b, orth, j), orth[t]) == if j <= t {
            dot_of(b, orth[t])
        } else {
            zero
        },
    decreases j,
{
    if j > 0 {
        projections_take_one_direction_away(b, orth, i, j - 1, t, zero);
        let before = projected(b, orth, j - 1);
        let c = coefficient_of(b, orth[j - 1]);
        lemma_projected_len(b, orth, j - 1);
        assert(orth[j - 1].len() == b.len());
        assert(orth[t].len() == b.len());
        dot_of_a_difference(before, scaled(orth[j - 1], c), orth[t], zero);
        dot_of_a_scaled_vector(orth[j - 1], c, orth[t], zero);
        if j - 1 == t {
            let p = dot_of(b, orth[t]);
            let q = dot_of(orth[t], orth[t]);
            rule_quotient_times(p, q, zero);
            rule_zero(p, zero);
        } else {
            assert(dot_of(orth[j - 1], orth[t]) == zero);
            rule_zero(c, zero);
            rule_zero(dot_of(before, orth[t]), zero);
        }
    }
}

/// Whether none of the first `i` vectors of `orth` has the inner product
/// zero with itself.
pub open spec fn nonzero_norms<T: Add<Output = T> + Mul<Output = T>>(
    orth: Seq<Seq<T>>,
    i: int,
    zero: T,
) -> bool {
    forall|a: int| 0 <= a < i ==> #[trigger] dot_of(orth[a], orth[a]) != zero
}

/// With exact scalars, making the rows from `start` on anew gives vectors
/// that are orthogonal to each other and to the vectors before `start`,
/// where those were orthogonal to each other. This holds where Gram-Schmidt
/// can divide: none of the vectors it ends with has the inner product zero
/// with itself.
pub proof fn rows_made_anew_are_orthogonal<
    T: Add<Output = T> + Sub<Output = T> + Mul<Output = T> + Div<Output = T>,
>(m: LatticeModel<T>, start: int, end: int, zero: T)
    requires
        m.wf(),
        exact_arithmetic::<T>(zero),
        0 <= start <= end <= m.len(),
        pairwise_orthogonal(m.orth_basis, start, zero),
        nonzero_norms(
            m.orthogonalized_from(start, m.len() as int).orth_basis,
            m.len() as int,
            zero,
        ),
    ensures
        pairwise_orthogonal(m.orthogonalized_from(start, end).orth_basis, end, zero),
    decreases end - start,
{
    if end > start {
        let i = end - 1;
        let n = m.len() as int;
        let all = m.orthogonalized_from(start, n);
        let prev = m.orthogonalized_from(start, i);
        let now = m.orthogonalized_from(start, end);
        rows_made_anew_are_orthogonal(m, start, i, zero);
        lemma_orthogonalized_from_wf(m, start, i);
        lemma_orthogonalized_from_wf(m, start, end);
        later_rows_leave_earlier_rows(m, start, i, n);
        assert(now == prev.orthogonalize_row(i));
        let b = m.basis[i];
        let o = projected(b, prev.orth_basis, i);
        assert(now.orth_basis[i] == o);
        assert(b.len() == m.basis[0].len());
        assert forall|a: int| 0 <= a < i implies (#[trigger] prev.orth_basis[a]).len()
            == b.len() by {}
        assert forall|a: int, c: int| 0 <= a < end && 0 <= c < end && a != c implies #[trigger] dot_of(
            now.orth_basis[a],
            now.orth_basis[c],
        ) == zero by {
            if a < i && c < i {
                assert(now.orth_basis[a] == prev.orth_basis[a]);
                assert(now.orth_basis[c] == prev.orth_basis[c]);
                assert(dot_of(prev.orth_basis[a], prev.orth_basis[c]) == zero);
            } else {
                let t = if a < i {
                    a
                } else {
                    c
                };
                assert(now.orth_basis[t] == prev.orth_basis[t]);
                assert(prev.orth_basis[t] == all.orth_basis[t]);
                assert(dot_of(all.orth_basis[t], all.orth_basis[t]) != zero);
                projections_take_one_direction_away(b, prev.orth_basis, i, i, t, zero);
                assert(dot_of(o, prev.orth_basis[t]) == zero);
                if a < i {
                    lemma_projected_len(b, prev.orth_basis, i);
                    rule_products_commute::<T>();
                    dot_is_symmetric(prev.orth_basis[t], o);
                }
            }
        }
    }
}

/// With exact scalars, the vectors that Gram-Schmidt gives are orthogonal
/// to each other: the inner product of any two of them is zero. This holds
/// of a basis that Gram-Schmidt can divide by: none of the vectors it gives
/// has the inner product zero with itself.
pub proof fn orthogonal_basis_is_orthogonal<
    T: Add<Output = T> + Sub<Output = T> + Mul<Output = T> + Div<Output = T>,
>(m: LatticeModel<T>, zero: T)
    requires
        m.wf(),
        exact_arithmetic::<T>(zero),
        nonzero_norms(m.orthogonalized().orth_basis, m.len() as int, zero),
    ensures
        pairwise_orthogonal(m.orthogonalized().orth_basis, m.len() as int, zero),
{
    rows_made_anew_are_orthogonal(m, 0, m.len() as int, zero);
}

/// Whether `one` is the one of the scalars: `x * one` is `x` for all
/// scalars, and `q / q` is `one` for all scalars but `zero`.
#[verifier::opaque]
pub open spec fn is_one<T: Mul<Output = T> + Div<Output = T>>(one: T, zero: T) -> bool {
    &&& forall|x: T| #[trigger] x.mul_spec(one) == x
    &&& forall|q: T| q != zero ==> #[trigger] q.div_spec(q) == one
}

/// `x * 1` is `x`, and `q / q` is `1` where `q` is not zero.
proof fn rule_one<T: Mul<Output = T> + Div<Output = T>>(x: T, one: T, zero: T)
    requires
        is_one::<T>(one, zero),
    ensures
        x.mul_spec(one) == x,
        x != zero ==> x.div_spec(x) == one,
{
    reveal(is_one);
}

/// With exact scalars, taking projections on vectors away from `b` leaves
/// its inner product with any vector `z` that is orthogonal to them all.
pub proof fn projections_keep_other_directions<
    T: Add<Output = T> + Sub<Output = T> + Mul<Output = T> + Div<Output = T>,
>(b: Seq<T>, orth: Seq<Seq<T>>, j: int, z: Seq<T>, zero: T)
    requires
        exact_arithmetic::<T>(zero),
        0 <= j <= orth.len(),
        b.len() >= 1,
        z.len() == b.len(),
        forall|a: int| 0 <= a < j ==> (#[trigger] orth[a]).len() == b.len(),
        forall|a: int| 0 <= a < j ==> #[trigger] dot_of(orth[a], z) == zero,
    ensures
        dot_of(projected(b, orth, j), z) == dot_of(b, z),
    decreases j,
{
    if j > 0 {
        projections_keep_other_directions(b, orth, j - 1, z, zero);
        let before = projected(b, orth, j - 1);
        let c = coefficient_of(b, orth[j - 1]);
        lemma_projected_len(b, orth, j - 1);
        assert(orth[j - 1].len() == b.len());
        dot_of_a_difference(before, scaled(orth[j - 1], c), z, zero);
        dot_of_a_scaled_vector(orth[j - 1], c, z, zero);
        assert(dot_of(orth[j - 1], z) == zero);
        rule_zero(c, zero);
        rule_zero(dot_of(before, z), zero);
    }
}

/// With exact scalars, each row of coefficients that is made anew ends in
/// one: the coefficient of a basis vector on its own orthogonal vector is
/// one. It holds under the conditions of `rows_made_anew_are_orthogonal`.
pub proof fn rows_made_anew_end_in_one<
    T: Add<Output = T> + Sub<Output = T> + Mul<Output = T> + Div<Output = T>,
>(m: LatticeModel<T>, start: int, zero: T, one: T)
    requires
        m.wf(),
        exact_arithmetic::<T>(zero),
        is_one::<T>(one, zero),
        0 <= start <= m.len(),
        pairwise_orthogonal(m.orth_basis, start, zero),
        nonzero_norms(
            m.orthogonalized_from(start, m.len() as int).orth_basis,
            m.len() as int,
            zero,
        ),
    ensures
        forall|i: int|
            start <= i < m.len() ==> (#[trigger] m.orthogonalized_from(
                start,
                m.len() as int,
            ).mu[i])[i] == one,
{
    let n = m.len() as int;
    let all = m.orthogonalized_from(start, n);
    rows_made_anew_are_orthogonal(m, start, n, zero);
    lemma_orthogonalized_from_wf(m, start, n);
    assert forall|i: int| start <= i < n implies (#[trigger] all.mu[i])[i] == one by {
        let prev = m.orthogonalized_from(start, i);
        let now = m.orthogonalized_from(start, i + 1);
        lemma_orthogonalized_from_wf(m, start, i);
        later_rows_leave_earlier_rows(m, start, i, n);
        later_rows_leave_earlier_rows(m, start, i + 1, n);
        assert(now == prev.orthogonalize_row(i));
        let b = m.basis[i];
        let o = projected(b, prev.orth_basis, i);
        assert(all.orth_basis[i] == o);
        assert(all.mu[i] == prev.coefficient_row(i));
        assert(all.mu[i][i] == coefficient_of(b, o));
        assert(b.len() == m.basis[0].len());
        lemma_projected_len(b, prev.orth_basis, i);
        assert forall|a: int| 0 <= a < i implies (#[trigger] prev.orth_basis[a]).len()
            == b.len() by {}
        assert forall|a: int| 0 <= a < i implies #[trigger] dot_of(prev.orth_basis[a], o)
            == zero by {
            assert(prev.orth_basis[a] == all.orth_basis[a]);
            assert(dot_of(all.orth_basis[a], all.orth_basis[i]) == zero);
        }
        projections_keep_other_directions(b, prev.orth_basis, i, o, zero);
        assert(dot_of(all.orth_basis[i], all.orth_basis[i]) != zero);
        rule_one(dot_of(o, o), one, zero);
    }
}

/// With exact scalars, the coefficient of each basis vector on its own
/// orthogonal vector is one after Gram-Schmidt: `mu[i][i]` is one. This
/// holds of a basis that Gram-Schmidt can divide by.
pub proof fn own_coefficients_are_one<
    T: Add<Output = T> + Sub<Output = T> + Mul<Output = T> + Div<Output = T>,
>(m: LatticeModel<T>, zero: T, one: T)
    requires
        m.wf(),
        exact_arithmetic::<T>(zero),
        is_one::<T>(one, zero),
        nonzero_norms(m.orthogonalized().orth_basis, m.len() as int, zero),
    ensures
        forall|i: int| 0 <= i < m.len() ==> (#[trigger] m.orthogonalized().mu[i])[i] == one,
{
    rows_made_anew_end_in_one(m, 0, zero, one);
}

/// Whether `g` rounds to a nearest whole scalar: no scalar is further than
/// `half` above its rounding, nor further than `minus_half` below it.
pub open spec fn rounds_to_nearest<T: Sub<Output = T> + PartialOrd>(
    g: spec_fn(T) -> T,
    half: T,
    minus_half: T,
) -> bool {
    forall|x: T|
        at_most(#[trigger] x.sub_spec(g(x)), half) && at_least(x.sub_spec(g(x)), minus_half)
}

/// A corrected row of coefficients is size-reduced: where the rounding is
/// to a nearest whole scalar and the last coefficient of every row before
/// it is one, each of its coefficients before the last lies between
/// `minus_half` and `half`.
pub proof fn corrected_coefficients_are_small<
    T: Add<Output = T> + Sub<Output = T> + Mul<Output = T> + Div<Output = T> + PartialOrd + From<
        i8,
    >,
>(m: LatticeModel<T>, j: int, g: spec_fn(T) -> T, r: Seq<T>, one: T, zero: T, half: T, minus_half: T)
    requires
        m.row_corrected(j, g, r),
        is_one::<T>(one, zero),
        rounds_to_nearest(g, half, minus_half),
        forall|i: int| 0 <= i < j ==> (#[trigger] m.mu[i])[i] == one,
    ensures
        forall|i: int|
            0 <= i < j ==> at_most(#[trigger] m.mu[j][i], half) && at_least(
                m.mu[j][i],
                minus_half,
            ),
{
    assert forall|i: int| 0 <= i < j implies at_most(#[trigger] m.mu[j][i], half) && at_least(
        m.mu[j][i],
        minus_half,
    ) by {
        assert(m.mu[i][i] == one);
        rule_one(g(r[i]), one, zero);
        assert(m.mu[j][i] == r[i].sub_spec(g(r[i])));
        assert(at_most(r[i].sub_spec(g(r[i])), half));
    }
}

/// Whether the lattice is settled: its orthogonal vectors are orthogonal to
/// each other, none of them has the inner product zero with itself, and
/// every row of coefficients ends in one.
pub open spec fn settled<T: Add<Output = T> + Mul<Output = T>>(
    m: LatticeModel<T>,
    zero: T,
    one: T,
) -> bool {
    &&& pairwise_orthogonal(m.orth_basis, m.len() as int, zero)
    &&& nonzero_norms(m.orth_basis, m.len() as int, zero)
    &&& forall|i: int| 0 <= i < m.len() ==> (#[trigger] m.mu[i])[i] == one
}

/// Whether LLL meets no orthogonal vector with the inner product zero with
/// itself in its first `t` rounds.
pub open spec fn never_degenerate<
    T: Add<Output = T> + Sub<Output = T> + Mul<Output = T> + Div<Output = T> + PartialOrd + From<
        i8,
    >,
>(m: LatticeModel<T>, delta: T, g: spec_fn(T) -> T, t: nat, zero: T) -> bool {
    forall|u: nat|
        u <= t ==> nonzero_norms(
            (#[trigger] m.lll_after(delta, g, u)).0.orth_basis,
            m.len() as int,
            zero,
        )
}

/// The size reduction of one vector keeps a lattice aligned, and touches
/// only that vector and, in its row of coefficients, what stands before
/// the last.
pub proof fn locally_reduced_is_aligned<
    T: Add<Output = T> + Sub<Output = T> + Mul<Output = T> + Div<Output = T> + PartialOrd + From<
        i8,
    >,
>(m: LatticeModel<T>, k: int, g: spec_fn(T) -> T)
    requires
        m.wf(),
        0 <= k < m.len(),
    ensures
        m.locally_reduced(k, g).wf(),
        m.locally_reduced(k, g).len() == m.len(),
        m.locally_reduced(k, g).orth_basis == m.orth_basis,
        forall|i: int|
            0 <= i < m.len() ==> (#[trigger] m.locally_reduced(k, g).mu[i])[i] == m.mu[i][i],
{
    let r = m.locally_reduced(k, g);
    lemma_reduced_against_len(m.basis[k], m.basis, m.mu[k], g, k);
    assert(m.basis[k].len() == m.basis[0].len());
    assert forall|a: int| 0 <= a < r.basis.len() implies (#[trigger] r.basis[a]).len()
        == r.basis[0].len() by {
        if a != k {
            assert(r.basis[a] == m.basis[a]);
        }
        if k != 0 {
            assert(r.basis[0] == m.basis[0]);
        }
    }
    assert forall|a: int| 0 <= a < r.basis.len() implies (#[trigger] r.orth_basis[a]).len()
        == r.basis[0].len() by {
        assert(m.orth_basis[a].len() == m.basis[0].len());
    }
    assert forall|a: int| 0 <= a < r.basis.len() implies (#[trigger] r.mu[a]).len() == a + 1 by {
        if a != k {
            assert(r.mu[a] == m.mu[a]);
        }
    }
    assert forall|i: int| 0 <= i < m.len() implies (#[trigger] r.mu[i])[i] == m.mu[i][i] by {
        assert(m.mu[i].len() == i + 1);
        if i != k {
            assert(r.mu[i] == m.mu[i]);
        }
    }
}

/// The swap of two neighbours keeps a lattice aligned.
pub proof fn swapped_is_aligned<
    T: Add<Output = T> + Sub<Output = T> + Mul<Output = T> + Div<Output = T> + PartialOrd + From<
        i8,
    >,
>(m: LatticeModel<T>, k: int)
    requires
        m.wf(),
        1 <= k < m.len(),
    ensures
        m.swapped(k).wf(),
        m.swapped(k).len() == m.len(),
{
    let r = m.swapped(k);
    assert(m.basis[k].len() == m.basis[0].len());
    assert(m.basis[k - 1].len() == m.basis[0].len());
    assert forall|a: int| 0 <= a < r.basis.len() implies (#[trigger] r.basis[a]).len()
        == m.basis[0].len() by {
        assert(m.basis[a].len() == m.basis[0].len());
    }
    assert forall|a: int| 0 <= a < r.basis.len() implies (#[trigger] r.orth_basis[a]).len()
        == r.basis[0].len() by {
        assert(m.orth_basis[a].len() == m.basis[0].len());
    }
}

/// With exact scalars, a round of LLL takes a settled lattice to a settled
/// one, where the vectors it ends with do not have the inner product zero
/// with themselves.
pub proof fn lll_round_keeps_settled<
    T: Add<Output = T> + Sub<Output = T> + Mul<Output = T> + Div<Output = T> + PartialOrd + From<
        i8,
    >,
>(m: LatticeModel<T>, k: int, delta: T, g: spec_fn(T) -> T, zero: T, one: T)
    requires
        m.wf(),
        1 <= k < m.len(),
        exact_arithmetic::<T>(zero),
        is_one::<T>(one, zero),
        settled(m, zero, one),
        nonzero_norms(m.lll_round(k, delta, g).0.orth_basis, m.len() as int, zero),
    ensures
        m.lll_round(k, delta, g).0.wf(),
        m.lll_round(k, delta, g).0.len() == m.len(),
        1 <= m.lll_round(k, delta, g).1 <= m.len(),
        settled(m.lll_round(k, delta, g).0, zero, one),
{
    let n = m.len() as int;
    let r = m.locally_reduced(k, g);
    locally_reduced_is_aligned(m, k, g);
    if !r.lovasz_holds(k - 1, delta) {
        let s = r.swapped(k);
        swapped_is_aligned(r, k);
        let f = s.orthogonalized_from(k - 1, n);
        lemma_orthogonalized_from_wf(s, k - 1, n);
        assert(pairwise_orthogonal(s.orth_basis, k - 1, zero)) by {
            assert forall|a: int, c: int| 0 <= a < k - 1 && 0 <= c < k - 1 && a != c implies #[trigger] dot_of(
                s.orth_basis[a],
                s.orth_basis[c],
            ) == zero by {
                assert(dot_of(m.orth_basis[a], m.orth_basis[c]) == zero);
            }
        }
        rows_made_anew_are_orthogonal(s, k - 1, n, zero);
        rows_made_anew_end_in_one(s, k - 1, zero, one);
        assert forall|i: int| 0 <= i < n implies (#[trigger] f.mu[i])[i] == one by {
            if i < k - 1 {
                assert(f.mu[i] == s.mu[i]);
                assert(r.mu[i][i] == m.mu[i][i]);
            }
        }
    }
}

/// With exact scalars, LLL keeps a settled lattice settled, round after
/// round, as long as it meets no orthogonal vector with the inner product
/// zero with itself.
pub proof fn lll_keeps_settled<
    T: Add<Output = T> + Sub<Output = T> + Mul<Output = T> + Div<Output = T> + PartialOrd + From<
        i8,
    >,
>(m: LatticeModel<T>, delta: T, g: spec_fn(T) -> T, t: nat, zero: T, one: T)
    requires
        m.wf(),
        exact_arithmetic::<T>(zero),
        is_one::<T>(one, zero),
        settled(m, zero, one),
        never_degenerate(m, delta, g, t, zero),
    ensures
        m.lll_after(delta, g, t).0.wf(),
        m.lll_after(delta, g, t).0.len() == m.len(),
        1 <= m.lll_after(delta, g, t).1,
        settled(m.lll_after(delta, g, t).0, zero, one),
    decreases t,
{
    if t > 0 {
        let u = (t - 1) as nat;
        assert forall|w: nat| w <= u implies nonzero_norms(
            (#[trigger] m.lll_after(delta, g, w)).0.orth_basis,
            m.len() as int,
            zero,
        ) by {}
        lll_keeps_settled(m, delta, g, u, zero, one);
        let (p, k) = m.lll_after(delta, g, u);
        if k < p.basis.len() {
            assert(m.lll_after(delta, g, t) == p.lll_round(k, delta, g));
            assert(nonzero_norms(m.lll_after(delta, g, t).0.orth_basis, m.len() as int, zero));
            lll_round_keeps_settled(p, k, delta, g, zero, one);
        }
    }
}

/// With exact scalars and a rounding to a nearest whole scalar, the basis
/// that LLL ends with is size-reduced: where the rows of coefficients are
/// corrected ones and the lattice is settled, every coefficient below the
/// last of its row lies between `minus_half` and `half`.
pub proof fn reduced_basis_is_size_reduced<
    T: Add<Output = T> + Sub<Output = T> + Mul<Output = T> + Div<Output = T> + PartialOrd + From<
        i8,
    >,
>(
    m: LatticeModel<T>,
    g: spec_fn(T) -> T,
    before: Seq<Seq<T>>,
    one: T,
    zero: T,
    half: T,
    minus_half: T,
)
    requires
        m.corrected_upto(m.len() as int, g, before),
        settled(m, zero, one),
        is_one::<T>(one, zero),
        rounds_to_nearest(g, half, minus_half),
    ensures
        forall|j: int, i: int|
            0 <= i < j < m.len() ==> at_most(#[trigger] m.mu[j][i], half) && at_least(
                m.mu[j][i],
                minus_half,
            ),
{
    assert forall|j: int, i: int| 0 <= i < j < m.len() implies at_most(
        #[trigger] m.mu[j][i],
        half,
    ) && at_least(m.mu[j][i], minus_half) by {
        assert(m.row_corrected(j, g, before[j]));
        corrected_coefficients_are_small(m, j, g, before[j], one, zero, half, minus_half);
    }
}

} // verus!
