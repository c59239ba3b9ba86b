use vstd::prelude::*;

verus! {

/// The numbers a network computes with, and its activation function.
///
/// Each operation is pinned to a spec function of the implementing type, so
/// the library's contracts can say exactly which operations produce each
/// value; what the spec functions are on a given type is up to that type
/// (typically a wrapper of a floating-point type with the logistic sigmoid,
/// whose spec functions compute what its operations compute).
pub trait Scalar: Copy + Sized {
    spec fn spec_zero() -> Self;

    spec fn spec_one() -> Self;

    spec fn spec_plus(self, o: Self) -> Self;

    spec fn spec_minus(self, o: Self) -> Self;

    spec fn spec_times(self, o: Self) -> Self;

    spec fn spec_div_count(self, n: usize) -> Self;

    spec fn spec_activation(self) -> Self;

    spec fn spec_activation_grad(self) -> Self;

    /// The additive identity.
    fn zero() -> (r: Self)
        ensures
            r == Self::spec_zero(),
    ;

    /// The constant input that feeds each layer's bias row.
    fn one() -> (r: Self)
        ensures
            r == Self::spec_one(),
    ;

    fn plus(&self, o: &Self) -> (r: Self)
        ensures
            r == self.spec_plus(*o),
    ;

    fn minus(&self, o: &Self) -> (r: Self)
        ensures
            r == self.spec_minus(*o),
    ;

    fn times(&self, o: &Self) -> (r: Self)
        ensures
            r == self.spec_times(*o),
    ;

    /// `self` divided by the count `n` (a batch size, never zero).
    fn div_count(&self, n: usize) -> (r: Self)
        ensures
            r == self.spec_div_count(n),
    ;

    /// The activation function applied element-wise after a transition.
    fn activation(&self) -> (r: Self)
        ensures
            r == self.spec_activation(),
    ;

    /// The derivative of `activation`, at `self`.
    fn activation_grad(&self) -> (r: Self)
        ensures
            r == self.spec_activation_grad(),
    ;
}

} // verus!
