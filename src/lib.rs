//! A small multilayer perceptron library: the layer schema and the layout of
//! its flat parameter vector, dense matrices, forward and backward propagation
//! over a generic scalar, and gradient descent against an objective.
pub mod analytic;
pub mod error;
pub mod schema;
pub mod layout;
pub mod matrix;
pub mod network;
pub mod optim;
pub mod scalar;
