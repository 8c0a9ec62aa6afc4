//! The number types that the engine computes with.
//!
//! The engine is written once, for any type that has the operations below. A
//! [`Scalar`] is what weights and activations are made of (single precision in
//! an application), its [`Scalar::Wide`] is what samples, sizes and levels are
//! given in (double precision). Nothing is assumed of an implementation: the
//! functions that compute ask for [`lawful`], which says that each operation
//! returns the value of its specification function.

use vstd::prelude::*;

verus! {

/// A number in which samples and model metadata are given.
pub trait Sample: Copy {
    /// The value of [`Sample::from_bits`].
    open spec fn from_bits_spec(bits: u64) -> Self {
        choose|r: Self| call_ensures(Self::from_bits, (bits,), r)
    }

    /// The value of [`Sample::lt`].
    open spec fn lt_spec(self, other: Self) -> bool {
        choose|r: bool| call_ensures(Self::lt, (self, other), r)
    }

    /// The value of [`Sample::le`].
    open spec fn le_spec(self, other: Self) -> bool {
        choose|r: bool| call_ensures(Self::le, (self, other), r)
    }

    /// The value of [`Sample::halved`].
    open spec fn halved_spec(self) -> isize {
        choose|r: isize| call_ensures(Self::halved, (self,), r)
    }

    /// The value of [`Sample::step_of`].
    open spec fn step_of_spec(self, steps: usize) -> isize {
        choose|r: isize| call_ensures(Self::step_of, (self, steps), r)
    }

    /// The number with this binary64 bit pattern.
    fn from_bits(bits: u64) -> (r: Self);

    /// `self < other`.
    fn lt(self, other: Self) -> (r: bool);

    /// `self <= other`.
    fn le(self, other: Self) -> (r: bool);

    /// Half of the number, truncated toward zero.
    fn halved(self) -> (r: isize);

    /// The greatest integer not above `self * steps`.
    fn step_of(self, steps: usize) -> (r: isize);
}

/// A number in which the network computes.
pub trait Scalar: Copy {
    /// The number type of samples.
    type Wide: Sample;

    /// The value of [`Scalar::zero`].
    open spec fn zero_spec() -> Self {
        choose|r: Self| call_ensures(Self::zero, (), r)
    }

    /// The value of [`Scalar::literal`].
    open spec fn literal_spec(digits: i64, places: u32) -> Self {
        choose|r: Self| call_ensures(Self::literal, (digits, places), r)
    }

    /// The value of [`Scalar::narrow`].
    open spec fn narrow_spec(x: Self::Wide) -> Self {
        choose|r: Self| call_ensures(Self::narrow, (x,), r)
    }

    /// The value of [`Scalar::widen`].
    open spec fn widen_spec(self) -> Self::Wide {
        choose|r: Self::Wide| call_ensures(Self::widen, (self,), r)
    }

    /// The value of [`Scalar::add`].
    open spec fn add_spec(self, other: Self) -> Self {
        choose|r: Self| call_ensures(Self::add, (self, other), r)
    }

    /// The value of [`Scalar::sub`].
    open spec fn sub_spec(self, other: Self) -> Self {
        choose|r: Self| call_ensures(Self::sub, (self, other), r)
    }

    /// The value of [`Scalar::mul`].
    open spec fn mul_spec(self, other: Self) -> Self {
        choose|r: Self| call_ensures(Self::mul, (self, other), r)
    }

    /// The value of [`Scalar::div`].
    open spec fn div_spec(self, other: Self) -> Self {
        choose|r: Self| call_ensures(Self::div, (self, other), r)
    }

    /// The value of [`Scalar::neg`].
    open spec fn neg_spec(self) -> Self {
        choose|r: Self| call_ensures(Self::neg, (self,), r)
    }

    /// The value of [`Scalar::abs`].
    open spec fn abs_spec(self) -> Self {
        choose|r: Self| call_ensures(Self::abs, (self,), r)
    }

    /// The value of [`Scalar::exp`].
    open spec fn exp_spec(self) -> Self {
        choose|r: Self| call_ensures(Self::exp, (self,), r)
    }

    /// The value of [`Scalar::tanh`].
    open spec fn tanh_spec(self) -> Self {
        choose|r: Self| call_ensures(Self::tanh, (self,), r)
    }

    /// The value of [`Scalar::lt`].
    open spec fn lt_spec(self, other: Self) -> bool {
        choose|r: bool| call_ensures(Self::lt, (self, other), r)
    }

    /// Positive zero.
    fn zero() -> (r: Self);

    /// The number nearest to `digits` divided by ten to the power of `places`.
    fn literal(digits: i64, places: u32) -> (r: Self);

    /// The number nearest to a sample.
    fn narrow(x: Self::Wide) -> (r: Self);

    /// This number as a sample.
    fn widen(self) -> (r: Self::Wide);

    /// `self + other`.
    fn add(self, other: Self) -> (r: Self);

    /// `self - other`.
    fn sub(self, other: Self) -> (r: Self);

    /// `self * other`.
    fn mul(self, other: Self) -> (r: Self);

    /// `self / other`.
    fn div(self, other: Self) -> (r: Self);

    /// `-self`.
    fn neg(self) -> (r: Self);

    /// The absolute value.
    fn abs(self) -> (r: Self);

    /// The exponential function.
    fn exp(self) -> (r: Self);

    /// The hyperbolic tangent.
    fn tanh(self) -> (r: Self);

    /// `self < other`.
    fn lt(self, other: Self) -> (r: bool);
}

/// Every operation on samples returns the value of its specification.
pub open spec fn lawful_sample<D: Sample>() -> bool {
    &&& forall|bits: u64, r: D|
        call_ensures(D::from_bits, (bits,), r) ==> r == D::from_bits_spec(bits)
    &&& forall|a: D, b: D, r: bool| call_ensures(D::lt, (a, b), r) ==> r == a.lt_spec(b)
    &&& forall|a: D, b: D, r: bool| call_ensures(D::le, (a, b), r) ==> r == a.le_spec(b)
    &&& forall|a: D, r: isize| call_ensures(D::halved, (a,), r) ==> r == a.halved_spec()
    &&& forall|a: D, n: usize, r: isize|
        call_ensures(D::step_of, (a, n), r) ==> r == a.step_of_spec(n)
}

/// Every operation on scalars and on their samples returns the value of its
/// specification.
pub open spec fn lawful<S: Scalar>() -> bool {
    &&& lawful_sample::<S::Wide>()
    &&& forall|r: S| call_ensures(S::zero, (), r) ==> r == S::zero_spec()
    &&& forall|d: i64, p: u32, r: S|
        call_ensures(S::literal, (d, p), r) ==> r == S::literal_spec(d, p)
    &&& forall|x: S::Wide, r: S| call_ensures(S::narrow, (x,), r) ==> r == S::narrow_spec(x)
    &&& forall|a: S, r: S::Wide| call_ensures(S::widen, (a,), r) ==> r == a.widen_spec()
    &&& forall|a: S, b: S, r: S| call_ensures(S::add, (a, b), r) ==> r == a.add_spec(b)
    &&& forall|a: S, b: S, r: S| call_ensures(S::sub, (a, b), r) ==> r == a.sub_spec(b)
    &&& forall|a: S, b: S, r: S| call_ensures(S::mul, (a, b), r) ==> r == a.mul_spec(b)
    &&& forall|a: S, b: S, r: S| call_ensures(S::div, (a, b), r) ==> r == a.div_spec(b)
    &&& forall|a: S, r: S| call_ensures(S::neg, (a,), r) ==> r == a.neg_spec()
    &&& forall|a: S, r: S| call_ensures(S::abs, (a,), r) ==> r == a.abs_spec()
    &&& forall|a: S, r: S| call_ensures(S::exp, (a,), r) ==> r == a.exp_spec()
    &&& forall|a: S, r: S| call_ensures(S::tanh, (a,), r) ==> r == a.tanh_spec()
    &&& forall|a: S, b: S, r: bool| call_ensures(S::lt, (a, b), r) ==> r == a.lt_spec(b)
}

/// `n` zeros.
pub open spec fn zeros<S: Scalar>(n: nat) -> Seq<S> {
    Seq::new(n, |i: int| S::zero_spec())
}

} // verus!
