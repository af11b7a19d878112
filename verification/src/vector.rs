use crate::error::LinalgError;
use std::fmt::Display;
use std::ops::Add;
use std::ops::Mul;
use std::ops::Sub;
use vstd::prelude::*;
use vstd::std_specs::ops::AddSpec;
use vstd::std_specs::ops::MulSpec;
use vstd::std_specs::ops::SubSpec;
use vstd::string::to_string_from_display_ensures;

verus! {

/// An ordered sequence of scalars of fixed length.
#[derive(Debug, PartialEq)]
pub struct Vector<T> {
    coord: Vec<T>,
}

impl<T> View for Vector<T> {
    type V = Seq<T>;

    closed spec fn view(&self) -> Seq<T> {
        self.coord@
    }
}

/// The coordinate-wise sum of `a` and `b`.
pub open spec fn sum_of<T: Add<Output = T>>(a: Seq<T>, b: Seq<T>) -> Seq<T> {
    Seq::new(a.len(), |i: int| a[i].add_spec(b[i]))
}

/// The coordinate-wise difference of `a` and `b`.
pub open spec fn difference_of<T: Sub<Output = T>>(a: Seq<T>, b: Seq<T>) -> Seq<T> {
    Seq::new(a.len(), |i: int| a[i].sub_spec(b[i]))
}

/// Each coordinate of `a` multiplied by `k`, with `k` as the left factor.
pub open spec fn scaled<T: Mul<Output = T>>(a: Seq<T>, k: T) -> Seq<T> {
    Seq::new(a.len(), |i: int| k.mul_spec(a[i]))
}

/// Each coordinate of `a` multiplied by `k`, with `k` as the right factor.
pub open spec fn scaled_on_right<T: Mul<Output = T>>(a: Seq<T>, k: T) -> Seq<T> {
    Seq::new(a.len(), |i: int| a[i].mul_spec(k))
}

/// The inner product of `a` and `b`: the products of matching coordinates,
/// added from the first pair on. It has a meaning for vectors of equal
/// length with at least one coordinate.
pub open spec fn dot_of<T: Add<Output = T> + Mul<Output = T>>(a: Seq<T>, b: Seq<T>) -> T
    decreases a.len(),
{
    if a.len() <= 1 {
        a[0].mul_spec(b[0])
    } else {
        dot_of(a.drop_last(), b.drop_last()).add_spec(a.last().mul_spec(b.last()))
    }
}

/// Whether every product and every sum that `dot_of(a, b)` is made of is one
/// that the scalar type can compute.
pub open spec fn dot_defined<T: Add<Output = T> + Mul<Output = T>>(a: Seq<T>, b: Seq<T>) -> bool
    decreases a.len(),
{
    if a.len() == 0 {
        true
    } else if a.len() == 1 {
        a[0].mul_req(b[0])
    } else {
        &&& dot_defined(a.drop_last(), b.drop_last())
        &&& a.last().mul_req(b.last())
        &&& dot_of(a.drop_last(), b.drop_last()).add_req(a.last().mul_spec(b.last()))
    }
}

impl<T> Vector<T> {
    /// The vector with the coordinates `coord`, in their order.
    pub fn new(coord: Vec<T>) -> (r: Self)
        ensures
            r@ == coord@,
    {
        Self { coord }
    }

    /// The number of coordinates.
    pub fn size(&self) -> (n: usize)
        ensures
            n == self@.len(),
    {
        self.coord.len()
    }

    /// The coordinates, in their order.
    pub fn coords(&self) -> (c: &Vec<T>)
        ensures
            c@ == self@,
    {
        &self.coord
    }
}

impl Vector<isize> {
    /// The vector of `dim` coordinates that are all zero.
    pub fn zero(dim: usize) -> (r: Self)
        ensures
            r@ == Seq::new(dim as nat, |i: int| 0isize),
    {
        let coord: Vec<isize> = vec![0isize; dim];
        assert(coord@ =~= Seq::new(dim as nat, |i: int| 0isize));
        Vector { coord }
    }
}

impl<T: Copy + Add<Output = T>> Vector<T> {
    /// The sum of two vectors of equal length, as a new vector.
    pub fn add(&self, other: &Vector<T>) -> (r: Result<Vector<T>, LinalgError>)
        requires
            self@.len() == other@.len() ==> forall|i: int|
                0 <= i < self@.len() ==> #[trigger] self@[i].add_req(other@[i]),
        ensures
            (match r {
                Ok(v) => self@.len() == other@.len() && v@.len() == self@.len() && (
                T::obeys_add_spec() ==> v@ == sum_of(self@, other@)),
                Err(e) => self@.len() != other@.len() && e == LinalgError::DimensionMismatch,
            }),
    {
        if self.size() != other.size() {
            return Err(LinalgError::DimensionMismatch);
        }
        let n = self.size();
        let mut coord: Vec<T> = Vec::new();
        let mut i: usize = 0;
        while i < n
            invariant
                n == self@.len(),
                n == other@.len(),
                i <= n,
                coord@.len() == i,
                forall|j: int| 0 <= j < n ==> #[trigger] self@[j].add_req(other@[j]),
                T::obeys_add_spec() ==> forall|j: int|
                    0 <= j < i ==> coord@[j] == #[trigger] self@[j].add_spec(other@[j]),
            decreases n - i,
        {
            coord.push(self.coord[i] + other.coord[i]);
            i += 1;
        }
        assert(T::obeys_add_spec() ==> coord@ =~= sum_of(self@, other@));
        Ok(Vector { coord })
    }

    /// Adds `other` to this vector, coordinate by coordinate. A vector of
    /// another length is refused and this one stays as it was.
    pub fn add_assign(&mut self, other: &Vector<T>) -> (r: Result<(), LinalgError>)
        requires
            old(self)@.len() == other@.len() ==> forall|i: int|
                0 <= i < other@.len() ==> #[trigger] old(self)@[i].add_req(other@[i]),
        ensures
            (match r {
                Ok(_) => old(self)@.len() == other@.len() && final(self)@.len() == other@.len() && (
                T::obeys_add_spec() ==> final(self)@ == sum_of(old(self)@, other@)),
                Err(e) => old(self)@.len() != other@.len() && e == LinalgError::DimensionMismatch
                    && final(self)@ == old(self)@,
            }),
    {
        if self.size() != other.size() {
            return Err(LinalgError::DimensionMismatch);
        }
        let n = self.size();
        let mut i: usize = 0;
        while i < n
            invariant
                n == old(self)@.len(),
                n == other@.len(),
                n == self@.len(),
                i <= n,
                forall|j: int| 0 <= j < n ==> #[trigger] old(self)@[j].add_req(other@[j]),
                forall|j: int| i <= j < n ==> self@[j] == old(self)@[j],
                T::obeys_add_spec() ==> forall|j: int|
                    0 <= j < i ==> self@[j] == #[trigger] old(self)@[j].add_spec(other@[j]),
            decreases n - i,
        {
            let x = self.coord[i] + other.coord[i];
            self.coord.set(i, x);
            i += 1;
        }
        assert(T::obeys_add_spec() ==> self@ =~= sum_of(old(self)@, other@));
        Ok(())
    }
}

impl<T: Copy + Sub<Output = T>> Vector<T> {
    /// The difference of two vectors of equal length, as a new vector.
    pub fn sub(&self, other: &Vector<T>) -> (r: Result<Vector<T>, LinalgError>)
        requires
            self@.len() == other@.len() ==> forall|i: int|
                0 <= i < self@.len() ==> #[trigger] self@[i].sub_req(other@[i]),
        ensures
            (match r {
                Ok(v) => self@.len() == other@.len() && v@.len() == self@.len() && (
                T::obeys_sub_spec() ==> v@ == difference_of(self@, other@)),
                Err(e) => self@.len() != other@.len() && e == LinalgError::DimensionMismatch,
            }),
    {
        if self.size() != other.size() {
            return Err(LinalgError::DimensionMismatch);
        }
        let n = self.size();
        let mut coord: Vec<T> = Vec::new();
        let mut i: usize = 0;
        while i < n
            invariant
                n == self@.len(),
                n == other@.len(),
                i <= n,
                coord@.len() == i,
                forall|j: int| 0 <= j < n ==> #[trigger] self@[j].sub_req(other@[j]),
                T::obeys_sub_spec() ==> forall|j: int|
                    0 <= j < i ==> coord@[j] == #[trigger] self@[j].sub_spec(other@[j]),
            decreases n - i,
        {
            coord.push(self.coord[i] - other.coord[i]);
            i += 1;
        }
        assert(T::obeys_sub_spec() ==> coord@ =~= difference_of(self@, other@));
        Ok(Vector { coord })
    }

    /// Subtracts `other` from this vector, coordinate by coordinate. A vector
    /// of another length is refused and this one stays as it was.
    pub fn sub_assign(&mut self, other: &Vector<T>) -> (r: Result<(), LinalgError>)
        requires
            old(self)@.len() == other@.len() ==> forall|i: int|
                0 <= i < other@.len() ==> #[trigger] old(self)@[i].sub_req(other@[i]),
        ensures
            (match r {
                Ok(_) => old(self)@.len() == other@.len() && final(self)@.len() == other@.len() && (
                T::obeys_sub_spec() ==> final(self)@ == difference_of(old(self)@, other@)),
                Err(e) => old(self)@.len() != other@.len() && e == LinalgError::DimensionMismatch
                    && final(self)@ == old(self)@,
            }),
    {
        if self.size() != other.size() {
            return Err(LinalgError::DimensionMismatch);
        }
        let n = self.size();
        let mut i: usize = 0;
        while i < n
            invariant
                n == old(self)@.len(),
                n == other@.len(),
                n == self@.len(),
                i <= n,
                forall|j: int| 0 <= j < n ==> #[trigger] old(self)@[j].sub_req(other@[j]),
                forall|j: int| i <= j < n ==> self@[j] == old(self)@[j],
                T::obeys_sub_spec() ==> forall|j: int|
                    0 <= j < i ==> self@[j] == #[trigger] old(self)@[j].sub_spec(other@[j]),
            decreases n - i,
        {
            let x = self.coord[i] - other.coord[i];
            self.coord.set(i, x);
            i += 1;
        }
        assert(T::obeys_sub_spec() ==> self@ =~= difference_of(old(self)@, other@));
        Ok(())
    }
}

impl<T: Copy + Mul<Output = T>> Vector<T> {
    /// This vector with every coordinate multiplied by `k`, as a new vector.
    /// The scalar is the left factor of each product.
    pub fn scale(&self, k: T) -> (r: Vector<T>)
        requires
            forall|i: int| 0 <= i < self@.len() ==> #[trigger] k.mul_req(self@[i]),
        ensures
            r@.len() == self@.len(),
            T::obeys_mul_spec() ==> r@ == scaled(self@, k),
    {
        let n = self.size();
        let mut coord: Vec<T> = Vec::new();
        let mut i: usize = 0;
        while i < n
            invariant
                n == self@.len(),
                i <= n,
                coord@.len() == i,
                forall|j: int| 0 <= j < n ==> #[trigger] k.mul_req(self@[j]),
                T::obeys_mul_spec() ==> forall|j: int|
                    0 <= j < i ==> coord@[j] == #[trigger] k.mul_spec(self@[j]),
            decreases n - i,
        {
            coord.push(k * self.coord[i]);
            i += 1;
        }
        assert(T::obeys_mul_spec() ==> coord@ =~= scaled(self@, k));
        Vector { coord }
    }

    /// Multiplies every coordinate of this vector by `k`. The scalar is the
    /// right factor of each product.
    pub fn scale_assign(&mut self, k: T)
        requires
            forall|i: int| 0 <= i < old(self)@.len() ==> #[trigger] old(self)@[i].mul_req(k),
        ensures
            final(self)@.len() == old(self)@.len(),
            T::obeys_mul_spec() ==> final(self)@ == scaled_on_right(old(self)@, k),
    {
        let n = self.size();
        let mut i: usize = 0;
        while i < n
            invariant
                n == old(self)@.len(),
                n == self@.len(),
                i <= n,
                forall|j: int| 0 <= j < n ==> #[trigger] old(self)@[j].mul_req(k),
                forall|j: int| i <= j < n ==> self@[j] == old(self)@[j],
                T::obeys_mul_spec() ==> forall|j: int|
                    0 <= j < i ==> self@[j] == #[trigger] old(self)@[j].mul_spec(k),
            decreases n - i,
        {
            let x = self.coord[i] * k;
            self.coord.set(i, x);
            i += 1;
        }
        assert(T::obeys_mul_spec() ==> self@ =~= scaled_on_right(old(self)@, k));
    }
}

impl<T: Copy + Add<Output = T> + Mul<Output = T>> Vector<T> {
    /// The inner product of two vectors of equal length. The first pair of
    /// coordinates seeds the sum, so a vector without coordinates has no
    /// inner product: it is refused, after the lengths were compared.
    pub fn dot(&self, other: &Vector<T>) -> (r: Result<T, LinalgError>)
        requires
            self@.len() == other@.len() ==> T::obeys_add_spec() && T::obeys_mul_spec()
                && dot_defined(self@, other@),
        ensures
            (match r {
                Ok(x) => self@.len() == other@.len() && self@.len() > 0 && x == dot_of(
                    self@,
                    other@,
                ),
                Err(e) => if self@.len() != other@.len() {
                    e == LinalgError::DimensionMismatch
                } else {
                    self@.len() == 0 && e == LinalgError::EmptyVector
                },
            }),
    {
        if self.size() != other.size() {
            return Err(LinalgError::DimensionMismatch);
        }
        let n = self.size();
        if n == 0 {
            return Err(LinalgError::EmptyVector);
        }
        proof {
            lemma_dot_defined_prefix(self@, other@, 1);
            assert(self@.take(1).len() == 1);
        }
        let mut ret = self.coord[0] * other.coord[0];
        let mut i: usize = 1;
        while i < n
            invariant
                n == self@.len(),
                n == other@.len(),
                1 <= i <= n,
                T::obeys_add_spec(),
                T::obeys_mul_spec(),
                dot_defined(self@, other@),
                ret == dot_of(self@.take(i as int), other@.take(i as int)),
            decreases n - i,
        {
            proof {
                lemma_dot_defined_prefix(self@, other@, i as int + 1);
                assert(self@.take(i as int + 1).drop_last() =~= self@.take(i as int));
                assert(other@.take(i as int + 1).drop_last() =~= other@.take(i as int));
            }
            ret = ret + self.coord[i] * other.coord[i];
            i += 1;
        }
        assert(self@.take(n as int) =~= self@);
        assert(other@.take(n as int) =~= other@);
        Ok(ret)
    }
}

/// What `dot_defined` says of two vectors it says of their first `k`
/// coordinates too.
pub proof fn lemma_dot_defined_prefix<T: Add<Output = T> + Mul<Output = T>>(
    a: Seq<T>,
    b: Seq<T>,
    k: int,
)
    requires
        a.len() == b.len(),
        0 <= k <= a.len(),
        dot_defined(a, b),
    ensures
        dot_defined(a.take(k), b.take(k)),
    decreases a.len(),
{
    if k < a.len() {
        if a.len() >= 2 {
            lemma_dot_defined_prefix(a.drop_last(), b.drop_last(), k);
            assert(a.drop_last().take(k) =~= a.take(k));
            assert(b.drop_last().take(k) =~= b.take(k));
        } else {
            assert(a.take(k).len() == 0);
        }
    } else {
        assert(a.take(k) =~= a);
        assert(b.take(k) =~= b);
    }
}

impl<T: Copy> Clone for Vector<T> {
    /// A vector with the same coordinates.
    fn clone(&self) -> (r: Self)
        ensures
            r@ == self@,
    {
        let n = self.coord.len();
        let mut coord: Vec<T> = Vec::new();
        let mut i: usize = 0;
        while i < n
            invariant
                n == self@.len(),
                i <= n,
                coord@.len() == i,
                forall|j: int| 0 <= j < i ==> coord@[j] == self@[j],
            decreases n - i,
        {
            coord.push(self.coord[i]);
            i += 1;
        }
        assert(coord@ =~= self@);
        Vector { coord }
    }
}

/// Where every product and every sum of two scalars exists, every inner
/// product of two vectors of equal length is defined.
pub proof fn lemma_dot_defined_when_total<T: Add<Output = T> + Mul<Output = T>>(
    a: Seq<T>,
    b: Seq<T>,
)
    requires
        forall|x: T, y: T| #[trigger] x.add_req(y),
        forall|x: T, y: T| #[trigger] x.mul_req(y),
    ensures
        dot_defined(a, b),
    decreases a.len(),
{
    if a.len() >= 2 {
        lemma_dot_defined_when_total(a.drop_last(), b.drop_last());
    }
}

/// The texts one after the other, each followed by a blank.
pub open spec fn spaced(texts: Seq<Seq<char>>) -> Seq<char>
    decreases texts.len(),
{
    if texts.len() == 0 {
        Seq::empty()
    } else {
        spaced(texts.drop_last()) + texts.last() + " "@
    }
}

/// Whether `out` is the text of the vector `v`: an opening bracket and a
/// blank, the text of each coordinate followed by a blank, and a closing
/// bracket. The text of a coordinate is the one that the scalar type gives
/// of it for display.
pub open spec fn renders<T: Display>(v: Seq<T>, out: Seq<char>) -> bool {
    exists|texts: Seq<String>|
        {
            &&& texts.len() == v.len()
            &&& forall|i: int|
                0 <= i < v.len() ==> to_string_from_display_ensures::<T>(
                    &v[i],
                    #[trigger] texts[i],
                )
            &&& out == "[ "@ + spaced(Seq::new(texts.len(), |i: int| texts[i]@)) + "]"@
        }
}

impl<T: Display> Vector<T> {
    /// The vector as text, such as `[ 1 2 3 ]`.
    pub fn render(&self) -> (r: String)
        ensures
            renders(self@, r@),
    {
        let n = self.coord.len();
        let mut ret = String::from_str("[ ");
        let ghost mut texts: Seq<String> = Seq::empty();
        let mut i: usize = 0;
        while i < n
            invariant
                n == self@.len(),
                i <= n,
                texts.len() == i,
                forall|j: int|
                    0 <= j < i ==> to_string_from_display_ensures::<T>(
                        &self@[j],
                        #[trigger] texts[j],
                    ),
                ret@ == "[ "@ + spaced(Seq::new(texts.len(), |j: int| texts[j]@)),
            decreases n - i,
        {
            let s = self.coord[i].to_string();
            ret.append(s.as_str());
            ret.append(" ");
            proof {
                let before = Seq::new(texts.len(), |j: int| texts[j]@);
                texts = texts.push(s);
                let after = Seq::new(texts.len(), |j: int| texts[j]@);
                assert(after.drop_last() =~= before);
                assert(after.last() == s@);
                assert(ret@ =~= "[ "@ + spaced(after));
            }
            i += 1;
        }
        ret.append("]");
        ret
    }
}

} // verus!
