//! A scalar-valued reverse-mode automatic differentiation engine.
//!
//! The engine builds a directed acyclic graph of computations as each
//! arithmetic operation is applied, then computes exact gradients of an
//! output with respect to all of its inputs in a single backward pass.
//! On top of it sits a minimal feed-forward network (neuron, layer,
//! multilayer perceptron) that drives the engine for gradient descent.
//!
//! Scalars are exact rationals with an explicit undefined value that
//! propagates through every operation, so each gradient the engine
//! produces is an exact derivative, not an approximation.

pub mod backprop;
pub mod engine;
pub mod laws;
pub mod net;
pub mod snapshot;
pub mod scalar;
