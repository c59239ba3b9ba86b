use vstd::prelude::*;

verus! {

/// What a structural precondition of the network found wrong.
#[derive(Debug, Clone, Copy, PartialEq, Eq, Structural)]
pub enum NetError {
    /// The schema has fewer than two layers, or a layer with no neurons.
    InvalidSchema,
    /// The number of parameters the schema needs does not fit in `usize`.
    TooLarge,
    /// A parameter vector whose length differs from what the schema lays out.
    ParameterLength,
    /// A matrix whose shape differs from what the operation needs.
    ShapeMismatch,
}

} // verus!
