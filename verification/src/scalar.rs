use std::cmp::Ordering;
use std::ops::Add;
use std::ops::Div;
use std::ops::Mul;
use std::ops::Sub;
use vstd::prelude::*;
use vstd::std_specs::cmp::PartialOrdSpec;
use vstd::std_specs::convert::FromSpec;
use vstd::std_specs::ops::AddSpec;
use vstd::std_specs::ops::DivSpec;
use vstd::std_specs::ops::MulSpec;
use vstd::std_specs::ops::SubSpec;

verus! {

/// Whether sums, differences, products and quotients exist for every pair of
/// scalars of `T`, and are the scalars that `add_spec`, `sub_spec`,
/// `mul_spec` and `div_spec` name. Real numbers in floating point are such
/// scalars; machine integers, which overflow, are not.
pub open spec fn total_arithmetic<
    T: Add<Output = T> + Sub<Output = T> + Mul<Output = T> + Div<Output = T>,
>() -> bool {
    &&& T::obeys_add_spec()
    &&& T::obeys_sub_spec()
    &&& T::obeys_mul_spec()
    &&& T::obeys_div_spec()
    &&& forall|x: T, y: T| #[trigger] x.add_req(y)
    &&& forall|x: T, y: T| #[trigger] x.sub_req(y)
    &&& forall|x: T, y: T| #[trigger] x.mul_req(y)
    &&& forall|x: T, y: T| #[trigger] x.div_req(y)
}

/// Whether `T` is a scalar type on which a lattice basis can be reduced: its
/// arithmetic is total, its comparisons are those that `partial_cmp_spec`
/// names, and its conversion from small integers is `from_spec`.
pub open spec fn reducible_scalar<
    T: Add<Output = T> + Sub<Output = T> + Mul<Output = T> + Div<Output = T> + PartialOrd + From<
        i8,
    >,
>() -> bool {
    &&& total_arithmetic::<T>()
    &&& faithful_order::<T>()
    &&& faithful_conversion::<T>()
}

/// Whether the comparisons of `T` are those that `partial_cmp_spec` names.
pub open spec fn faithful_order<T: PartialOrd>() -> bool {
    T::obeys_partial_cmp_spec()
}

/// Whether the scalars that `T` makes of small integers are those that
/// `from_spec` names.
pub open spec fn faithful_conversion<T: From<i8>>() -> bool {
    <T as FromSpec<i8>>::obeys_from_spec()
}

/// Whether `a` is strictly smaller than `b`.
pub open spec fn below<T: PartialOrd>(a: T, b: T) -> bool {
    a.partial_cmp_spec(&b) == Some(Ordering::Less)
}

/// Whether `a` is smaller than `b` or equal to it.
pub open spec fn at_most<T: PartialOrd>(a: T, b: T) -> bool {
    a.partial_cmp_spec(&b) matches Some(Ordering::Less | Ordering::Equal)
}

/// Whether `a` is greater than `b` or equal to it.
pub open spec fn at_least<T: PartialOrd>(a: T, b: T) -> bool {
    a.partial_cmp_spec(&b) matches Some(Ordering::Greater | Ordering::Equal)
}

/// The scalar that stands for the integer `n`.
pub open spec fn whole<T: From<i8>>(n: i8) -> T {
    <T as FromSpec<i8>>::from_spec(n)
}

/// Whether `g` tells what the function `f` returns: whatever a call `f(x)`
/// gives back is `g(x)`.
pub open spec fn computes<T, F: Fn(T) -> T>(f: F, g: spec_fn(T) -> T) -> bool {
    forall|x: T, r: T| #[trigger] call_ensures(f, (x,), r) ==> r == g(x)
}

/// Whether `f` may be called on every scalar.
pub open spec fn callable_everywhere<T, F: Fn(T) -> T>(f: F) -> bool {
    forall|x: T| #[trigger] call_requires(f, (x,))
}

/// The parameters that LLL accepts: the scalars strictly above one quarter
/// and at most one.
pub open spec fn valid_delta<T: Div<Output = T> + PartialOrd + From<i8>>(delta: T) -> bool {
    below(whole::<T>(1).div_spec(whole::<T>(4)), delta) && at_most(delta, whole::<T>(1))
}

/// Tells whether `delta` is a parameter that LLL accepts.
pub fn is_valid_delta<
    T: Copy + Add<Output = T> + Sub<Output = T> + Mul<Output = T> + Div<Output = T> + PartialOrd
        + From<i8>,
>(delta: T) -> (b: bool)
    requires
        reducible_scalar::<T>(),
    ensures
        b == valid_delta(delta),
{
    let one = T::from(1i8);
    let four = T::from(4i8);
    let quarter = one / four;
    quarter < delta && delta <= one
}

} // verus!
