use vstd::prelude::*;

verus! {

/// A one-dimensional multimodal benchmark function, `f(x) = -10x * sin(10x)`,
/// applied to a sample or element-wise to a series of samples.
pub trait Multimodal1D: Sized {
    /// Evaluates the benchmark function on `self`.
    fn multimodal1_d(&self) -> Self;
}

} // verus!
