//! Kernel bookkeeping: field naming and composition of kernels, and the
//! field-free kernel types whose pointwise integrands are evaluated by the
//! numerical layer.

pub mod basic;
pub mod common;
pub mod edac;
pub mod sets;
