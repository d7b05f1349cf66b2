//! State threading for an AdaGrad-style optimizer: the per-parameter
//! learning-rate decay state, the composition of the optional weight-decay
//! transform with the learning-rate-decay transform, and a registry that keeps
//! one composite state per parameter identity.
//!
//! Tensor values are a type parameter of the library: the element-wise
//! arithmetic on them is supplied by the caller as functions, and every
//! contract says which of those calls produced each value that comes back.
pub mod adagrad;
pub mod adaptor;
pub mod lr_decay;
pub mod registry;
