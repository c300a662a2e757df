//! Basic kernels whose configuration holds no numerical data.

use vstd::prelude::*;

verus! {

/// Scalar mass kernel: integral of `u * v`.
pub struct KernelMass {}

impl KernelMass {
    pub fn new() -> (kernel: Self)
        ensures
            kernel == (KernelMass {}),
    {
        Self {  }
    }
}

/// Generic Galerkin residual for `U_t + dF(U)/dx = 0`.
pub struct KernelConservationLaw1D<F> {
    pub flux: F,
}

impl<F> KernelConservationLaw1D<F> {
    pub fn new(flux: F) -> (kernel: Self)
        ensures
            kernel.flux == flux,
    {
        Self { flux }
    }
}

} // verus!
