//! Verified core of a geological radial-basis-function scalar-field library.
pub mod binary64;
pub mod binary64_sum;
pub mod dimension;
pub mod kernel;
pub mod kernel_calculus;
pub mod levels;
pub mod limbs;
pub mod linear_constraints;
pub mod local_trend;
pub mod model;
pub mod orientation;
pub mod orientation_tensor;
pub mod performance;
pub mod polynomial;
pub mod problem_ir;
pub mod project;
pub mod solver;

pub use dimension::{Dim, SupportedDimension};
pub use kernel::polyharmonic::{
    PolyharmonicSpline, PolyharmonicSplineConstructionError, SurfaceSpline,
    SurfaceSplineConstructionError,
};
pub use kernel::{
    CpdOrder, CpdOrderError, KernelDefiniteness, KernelDerivativeCapabilities,
    KernelDerivativeCapability, KernelDerivativeOrder, KernelDimensions, KernelMetadata,
    KernelParameterConstraint, KernelParameterDefinition, KernelParameterUnit, KernelSupport,
};
