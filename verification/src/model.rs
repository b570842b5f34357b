//! Fitted-field output vocabulary, capability classification, and the
//! decisions that evaluation takes for each center term before any kernel
//! is evaluated.
use vstd::prelude::*;

use crate::kernel::{
    spec_combined_order, combined_order, KernelDerivativeCapabilities, KernelDerivativeCapability,
    KernelDerivativeOrder,
};

verus! {

/// Fitted output whose availability is reported by model capabilities.
#[derive(Clone, Copy, Debug, PartialEq, Eq, Structural, Hash)]
pub enum FittedFieldOutput {
    /// Scalar value.
    Value,
    /// Cartesian gradient.
    Gradient,
    /// Cartesian Hessian.
    Hessian,
}

impl FittedFieldOutput {
    /// The query derivative order an output needs.
    pub open spec fn spec_derivative_order(self) -> KernelDerivativeOrder {
        match self {
            FittedFieldOutput::Value => KernelDerivativeOrder::Value,
            FittedFieldOutput::Gradient => KernelDerivativeOrder::First,
            FittedFieldOutput::Hessian => KernelDerivativeOrder::Second,
        }
    }

    /// Returns the query derivative order this output needs.
    pub fn derivative_order(self) -> (order: KernelDerivativeOrder)
        ensures
            order == self.spec_derivative_order(),
    {
        match self {
            FittedFieldOutput::Value => KernelDerivativeOrder::Value,
            FittedFieldOutput::Gradient => KernelDerivativeOrder::First,
            FittedFieldOutput::Hessian => KernelDerivativeOrder::Second,
        }
    }
}

/// Exact value, gradient, and Hessian capability classification.
#[derive(Clone, Copy, Debug, PartialEq, Eq, Structural, Hash)]
pub struct FittedFieldCapabilities {
    value: KernelDerivativeCapability,
    gradient: KernelDerivativeCapability,
    hessian: KernelDerivativeCapability,
}

impl FittedFieldCapabilities {
    /// Scalar-value availability.
    pub closed spec fn spec_value(self) -> KernelDerivativeCapability {
        self.value
    }

    /// Gradient availability.
    pub closed spec fn spec_gradient(self) -> KernelDerivativeCapability {
        self.gradient
    }

    /// Hessian availability.
    pub closed spec fn spec_hessian(self) -> KernelDerivativeCapability {
        self.hessian
    }

    /// Availability of one output.
    pub open spec fn spec_for_output(self, output: FittedFieldOutput) -> KernelDerivativeCapability {
        match output {
            FittedFieldOutput::Value => self.spec_value(),
            FittedFieldOutput::Gradient => self.spec_gradient(),
            FittedFieldOutput::Hessian => self.spec_hessian(),
        }
    }

    /// Classifies each output of a model fitted with a kernel of the given
    /// derivative capabilities and center functionals through
    /// `maximum_center_order`.
    pub fn for_kernel(
        derivatives: KernelDerivativeCapabilities,
        maximum_center_order: KernelDerivativeOrder,
    ) -> (capabilities: Self)
        ensures
            capabilities.spec_value() == derivatives.spec_query_capability(
                KernelDerivativeOrder::Value,
                maximum_center_order,
            ),
            capabilities.spec_gradient() == derivatives.spec_query_capability(
                KernelDerivativeOrder::First,
                maximum_center_order,
            ),
            capabilities.spec_hessian() == derivatives.spec_query_capability(
                KernelDerivativeOrder::Second,
                maximum_center_order,
            ),
    {
        FittedFieldCapabilities {
            value: derivatives.query_capability(KernelDerivativeOrder::Value, maximum_center_order),
            gradient: derivatives.query_capability(KernelDerivativeOrder::First, maximum_center_order),
            hessian: derivatives.query_capability(KernelDerivativeOrder::Second, maximum_center_order),
        }
    }

    /// Returns scalar-value availability.
    pub fn value(self) -> (capability: KernelDerivativeCapability)
        ensures
            capability == self.spec_value(),
    {
        self.value
    }

    /// Returns gradient availability.
    pub fn gradient(self) -> (capability: KernelDerivativeCapability)
        ensures
            capability == self.spec_gradient(),
    {
        self.gradient
    }

    /// Returns Hessian availability.
    pub fn hessian(self) -> (capability: KernelDerivativeCapability)
        ensures
            capability == self.spec_hessian(),
    {
        self.hessian
    }

    /// Returns availability for one requested output.
    pub fn for_output(self, output: FittedFieldOutput) -> (capability: KernelDerivativeCapability)
        ensures
            capability == self.spec_for_output(output),
    {
        match output {
            FittedFieldOutput::Value => self.value,
            FittedFieldOutput::Gradient => self.gradient,
            FittedFieldOutput::Hessian => self.hessian,
        }
    }
}

/// Evaluation component whose finite representation failed.
#[derive(Clone, Copy, Debug, PartialEq, Eq, Structural, Hash)]
pub enum FittedFieldComponent {
    /// Scalar value.
    Value,
    /// One gradient axis.
    Gradient {
        /// Cartesian axis.
        axis: usize,
    },
    /// One Hessian component.
    Hessian {
        /// Hessian row.
        row: usize,
        /// Hessian column.
        column: usize,
    },
}

/// Temporary storage whose checked allocation failed during evaluation.
#[derive(Clone, Copy, Debug, PartialEq, Eq, Structural, Hash)]
pub enum FittedFieldStorage {
    /// Reused compact-support center-index buffer.
    NeighborhoodCenters,
    /// Polynomial values.
    PolynomialValues,
    /// Polynomial gradients.
    PolynomialGradients,
    /// Polynomial Hessians.
    PolynomialHessians,
}

/// What evaluation does with one center term.
#[derive(Clone, Copy, Debug, PartialEq, Eq, Structural, Hash)]
pub enum CenterTermDemand {
    /// The kernel cannot supply the term for this output anywhere.
    Unsupported,
    /// The kernel supplies the term only away from centers and the query
    /// coincides with the term's point.
    UnavailableAtCenter,
    /// Evaluate the kernel jet through this order.
    Evaluate(KernelDerivativeOrder),
}

/// The decision for one center term: unsupported when the kernel cannot
/// supply the output applied to the term's functional, unavailable when it
/// can only away from centers and the query lies on the term's point, and
/// otherwise the combined order to evaluate.
pub open spec fn spec_center_term_demand(
    derivatives: KernelDerivativeCapabilities,
    output: FittedFieldOutput,
    center_order: KernelDerivativeOrder,
    at_center: bool,
) -> CenterTermDemand {
    let capability = derivatives.spec_query_capability(output.spec_derivative_order(), center_order);
    if capability == KernelDerivativeCapability::Unsupported {
        CenterTermDemand::Unsupported
    } else if capability == KernelDerivativeCapability::SupportedAwayFromCenters && at_center {
        CenterTermDemand::UnavailableAtCenter
    } else {
        match spec_combined_order(output.spec_derivative_order(), center_order) {
            Some(order) => CenterTermDemand::Evaluate(order),
            None => CenterTermDemand::Unsupported,
        }
    }
}

/// Decides how evaluation treats one center term whose functional has
/// derivative order `center_order`; `at_center` tells whether the query
/// equals the term's point.
pub fn center_term_demand(
    derivatives: KernelDerivativeCapabilities,
    output: FittedFieldOutput,
    center_order: KernelDerivativeOrder,
    at_center: bool,
) -> (demand: CenterTermDemand)
    ensures
        demand == spec_center_term_demand(derivatives, output, center_order, at_center),
{
    let capability = derivatives.query_capability(output.derivative_order(), center_order);
    if capability == KernelDerivativeCapability::Unsupported {
        return CenterTermDemand::Unsupported;
    }
    if capability == KernelDerivativeCapability::SupportedAwayFromCenters && at_center {
        return CenterTermDemand::UnavailableAtCenter;
    }
    match combined_order(output.derivative_order(), center_order) {
        Some(order) => CenterTermDemand::Evaluate(order),
        None => CenterTermDemand::Unsupported,
    }
}

/// A term evaluation demands never exceeds third order, and only a Hessian
/// output applied to a first-derivative functional demands third order.
pub proof fn lemma_center_term_demand_order(
    derivatives: KernelDerivativeCapabilities,
    output: FittedFieldOutput,
    center_order: KernelDerivativeOrder,
    at_center: bool,
)
    ensures
        spec_center_term_demand(derivatives, output, center_order, at_center) matches CenterTermDemand::Evaluate(
            order,
        ) ==> order.rank() == output.spec_derivative_order().rank() + center_order.rank() && (order
            == KernelDerivativeOrder::Third <==> (output == FittedFieldOutput::Hessian && center_order
            == KernelDerivativeOrder::First)),
{
}

} // verus!
