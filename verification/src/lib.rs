//! Verified mesh metadata, field-name bookkeeping and DOF numbering for a
//! spectral-element discretisation.

pub mod mesh;
pub mod dofs;
pub mod kernels;
pub mod material;
pub mod op;
