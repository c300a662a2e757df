//! EDAC and drift-flux kernel field layouts, context checks, and the EDAC
//! boundary kernels whose configuration holds no numerical data.

use vstd::prelude::*;

use crate::kernels::common::{names_view, optional_names_view, owned_names};

verus! {

/// Index of the void fraction `alpha` in the 2D drift-flux state.
pub const ALPHA_2D: usize = 3;

/// Index of the void fraction `alpha` in the 1D drift-flux state.
pub const ALPHA_1D: usize = 2;

/// The EDAC fluid state `[u, v, p]`.
pub open spec fn fluid_names() -> Seq<Seq<char>> {
    seq!["u"@, "v"@, "p"@]
}

/// The 2D drift-flux state `[u, v, p, alpha]`.
pub open spec fn drift_names() -> Seq<Seq<char>> {
    seq!["u"@, "v"@, "p"@, "alpha"@]
}

/// The 1D drift-flux state `[u, p, alpha]`.
pub open spec fn drift_names_1d() -> Seq<Seq<char>> {
    seq!["u"@, "p"@, "alpha"@]
}

fn names_of(names: &[&str]) -> (owned: Option<Vec<String>>)
    ensures
        optional_names_view(owned) == Some(names@.map_values(|name: &str| name@)),
{
    let owned = owned_names(names);
    assert(names_view(owned@) =~= names@.map_values(|name: &str| name@));
    Some(owned)
}

/// Ordered field names of the EDAC fluid kernels.
pub fn field_names() -> (names: Option<Vec<String>>)
    ensures
        optional_names_view(names) == Some(fluid_names()),
{
    let names = names_of(&["u", "v", "p"]);
    assert(["u", "v", "p"]@.map_values(|name: &str| name@) =~= fluid_names());
    names
}

/// Ordered field names of the directional do-nothing outflow kernels.
pub fn directional_field_names() -> (names: Option<Vec<String>>)
    ensures
        optional_names_view(names) == Some(fluid_names()),
{
    let names = names_of(&["u", "v", "p"]);
    assert(["u", "v", "p"]@.map_values(|name: &str| name@) =~= fluid_names());
    names
}

/// Ordered field names of the 2D drift-flux kernels.
pub fn drift_field_names() -> (names: Option<Vec<String>>)
    ensures
        optional_names_view(names) == Some(drift_names()),
{
    let names = names_of(&["u", "v", "p", "alpha"]);
    assert(["u", "v", "p", "alpha"]@.map_values(|name: &str| name@) =~= drift_names());
    names
}

/// Ordered field names of the 1D drift-flux kernels.
pub fn drift_field_names_1d() -> (names: Option<Vec<String>>)
    ensures
        optional_names_view(names) == Some(drift_names_1d()),
{
    let names = names_of(&["u", "p", "alpha"]);
    assert(["u", "p", "alpha"]@.map_values(|name: &str| name@) =~= drift_names_1d());
    names
}

/// Whether an evaluation context suits the 2D EDAC fluid kernels: a 2D
/// geometry, scalar fields, and the three fields `[u, v, p]`.
pub fn check(gdim: usize, ncomp: usize, nfields: usize) -> (suits: bool)
    ensures
        suits == (gdim == 2 && ncomp == 1 && nfields == 3),
{
    gdim == 2 && ncomp == 1 && nfields == 3
}

/// Whether an evaluation context suits the 1D drift-flux outflow kernel: a 1D
/// geometry, scalar fields, and the three fields `[u, p, alpha]`.
pub fn check_drift_outflow_1d(gdim: usize, ncomp: usize, nfields: usize) -> (suits: bool)
    ensures
        suits == (gdim == 1 && ncomp == 1 && nfields == 3),
{
    gdim == 1 && ncomp == 1 && nfields == 3
}

/// Stationary no-slip wall closure for the conforming EDAC SEM formulation.
///
/// The velocity value is enforced strongly through the DOF reduction. This
/// kernel supplies the zero inviscid wall flux in place of the split advection
/// flux; the weak viscous term supplies the unconstrained wall traction.
pub struct KernelEdacNoSlipWall2D;

/// Tensor-product stationary no-slip wall closure for monolithic EDAC.
pub struct TensorKernelEdacNoSlipWall2D;

/// Stationary perfect-slip wall closure for the conforming EDAC SEM
/// formulation.
///
/// The zero normal velocity is enforced strongly through the DOF reduction;
/// the weak viscous term then supplies the natural zero tangential traction.
pub struct KernelEdacSlipWall2D;

/// Tensor-product stationary perfect-slip wall closure for monolithic EDAC.
pub struct TensorKernelEdacSlipWall2D;

impl KernelEdacNoSlipWall2D {
    pub fn new() -> (kernel: Self)
        ensures
            kernel == KernelEdacNoSlipWall2D,
    {
        Self
    }
}

impl TensorKernelEdacNoSlipWall2D {
    pub fn new() -> (kernel: Self)
        ensures
            kernel == TensorKernelEdacNoSlipWall2D,
    {
        Self
    }
}

impl KernelEdacSlipWall2D {
    pub fn new() -> (kernel: Self)
        ensures
            kernel == KernelEdacSlipWall2D,
    {
        Self
    }
}

impl TensorKernelEdacSlipWall2D {
    pub fn new() -> (kernel: Self)
        ensures
            kernel == TensorKernelEdacSlipWall2D,
    {
        Self
    }
}

/// Boundary consistency flux for the weak conservative halves of split EDAC
/// advection. Use this on non-Dong boundaries where the normal flux is not
/// already supplied by another boundary condition.
pub struct KernelEdacSplitBoundaryFlux2D;

/// Tensor-product boundary consistency flux for split EDAC advection.
pub struct TensorKernelEdacSplitBoundaryFlux2D;

/// Tensor boundary consistency flux for split drift-flux advection.
pub struct TensorDriftSplitBoundaryFlux2D;

/// The void fraction sits right after the EDAC fluid fields in the 2D
/// drift-flux state, and last in the 1D drift-flux state.
pub proof fn law_drift_layout()
    ensures
        drift_names().take(3) == fluid_names(),
        drift_names()[ALPHA_2D as int] == "alpha"@,
        ALPHA_2D == drift_names().len() - 1,
        drift_names_1d()[ALPHA_1D as int] == "alpha"@,
        ALPHA_1D == drift_names_1d().len() - 1,
{
    assert(drift_names().take(3) =~= fluid_names());
}

} // verus!
