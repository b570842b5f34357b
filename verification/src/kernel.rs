//! Kernel metadata shared by the concrete radial kernel families.
use vstd::prelude::*;

pub mod polyharmonic;
pub mod smooth_global;
pub mod wendland;

verus! {

/// Positive order of a conditionally positive-definite kernel.
#[derive(Clone, Copy, Debug, PartialEq, Eq, Structural, Hash)]
pub struct CpdOrder(pub(crate) usize);

/// Error returned when a CPD order of zero is requested.
#[derive(Clone, Copy, Debug, PartialEq, Eq, Structural, Hash)]
pub enum CpdOrderError {
    /// Order zero has no polynomial side-space meaning.
    ZeroOrder,
}

impl CpdOrder {
    /// The order as an unbounded integer.
    pub closed spec fn spec_order(self) -> nat {
        self.0 as nat
    }

    /// An order always fits the platform index type.
    pub proof fn lemma_order_bounded(self)
        ensures
            self.spec_order() <= usize::MAX,
    {
    }

    /// Validates a positive CPD order.
    pub fn try_new(order: usize) -> (result: Result<Self, CpdOrderError>)
        ensures
            order == 0 ==> result == Err::<Self, CpdOrderError>(CpdOrderError::ZeroOrder),
            order > 0 ==> (result matches Ok(cpd) && cpd.spec_order() == order),
    {
        if order == 0 {
            Err(CpdOrderError::ZeroOrder)
        } else {
            Ok(CpdOrder(order))
        }
    }

    /// Returns the positive order `m`.
    pub fn get(self) -> (order: usize)
        ensures
            order == self.spec_order(),
    {
        self.0
    }

    /// Returns the maximum total degree `m - 1` of the required polynomial side space.
    pub fn maximum_polynomial_degree(self) -> (degree: usize)
        requires
            self.spec_order() > 0,
        ensures
            degree == self.spec_order() - 1,
    {
        self.0 - 1
    }
}

/// Spatial derivative order of a kernel, through third order.
#[derive(Clone, Copy, Debug, PartialEq, Eq, Structural, Hash)]
pub enum KernelDerivativeOrder {
    /// The kernel value.
    Value,
    /// First spatial derivatives.
    First,
    /// Second spatial derivatives.
    Second,
    /// Third spatial derivatives.
    Third,
}

impl KernelDerivativeOrder {
    /// Number of differentiations this order stands for.
    pub open spec fn rank(self) -> nat {
        match self {
            KernelDerivativeOrder::Value => 0,
            KernelDerivativeOrder::First => 1,
            KernelDerivativeOrder::Second => 2,
            KernelDerivativeOrder::Third => 3,
        }
    }

    /// The order with the given number of differentiations.
    pub open spec fn from_rank(rank: nat) -> Self
        recommends
            rank <= 3,
    {
        if rank == 0 {
            KernelDerivativeOrder::Value
        } else if rank == 1 {
            KernelDerivativeOrder::First
        } else if rank == 2 {
            KernelDerivativeOrder::Second
        } else {
            KernelDerivativeOrder::Third
        }
    }
}

/// Where a kernel derivative of some order is available.
#[derive(Clone, Copy, Debug, PartialEq, Eq, Structural, Hash)]
pub enum KernelDerivativeCapability {
    /// Not available anywhere.
    Unsupported,
    /// Available only where query and center differ.
    SupportedAwayFromCenters,
    /// Available everywhere, including at centers.
    SupportedEverywhere,
}

/// Highest derivative orders available away from and at kernel centers.
#[derive(Clone, Copy, Debug, PartialEq, Eq, Structural, Hash)]
pub struct KernelDerivativeCapabilities {
    /// Highest order available away from centers.
    pub away_through: KernelDerivativeOrder,
    /// Highest order available at centers, if any.
    pub center_through: Option<KernelDerivativeOrder>,
}

/// The order that a query derivative of order `output` and a center
/// functional of order `center` demand of the kernel together: their ranks
/// added, for outputs through the Hessian and center functionals through
/// first derivatives; `None` for any other pair.
pub open spec fn spec_combined_order(output: KernelDerivativeOrder, center: KernelDerivativeOrder) -> Option<
    KernelDerivativeOrder,
> {
    if output.rank() <= 2 && center.rank() <= 1 {
        Some(KernelDerivativeOrder::from_rank(output.rank() + center.rank()))
    } else {
        None
    }
}

/// The kernel order demanded by a query derivative applied to a center
/// functional.
pub fn combined_order(output: KernelDerivativeOrder, center: KernelDerivativeOrder) -> (combined: Option<
    KernelDerivativeOrder,
>)
    ensures
        combined == spec_combined_order(output, center),
{
    match (output, center) {
        (KernelDerivativeOrder::Value, KernelDerivativeOrder::Value) => Some(KernelDerivativeOrder::Value),
        (KernelDerivativeOrder::Value, KernelDerivativeOrder::First) | (
            KernelDerivativeOrder::First,
            KernelDerivativeOrder::Value,
        ) => Some(KernelDerivativeOrder::First),
        (KernelDerivativeOrder::First, KernelDerivativeOrder::First) | (
            KernelDerivativeOrder::Second,
            KernelDerivativeOrder::Value,
        ) => Some(KernelDerivativeOrder::Second),
        (KernelDerivativeOrder::Second, KernelDerivativeOrder::First) => Some(KernelDerivativeOrder::Third),
        _ => None,
    }
}

/// Rank comparison of derivative orders.
fn order_at_most(order: KernelDerivativeOrder, limit: KernelDerivativeOrder) -> (at_most: bool)
    ensures
        at_most == (order.rank() <= limit.rank()),
{
    let rank = match order {
        KernelDerivativeOrder::Value => 0u8,
        KernelDerivativeOrder::First => 1,
        KernelDerivativeOrder::Second => 2,
        KernelDerivativeOrder::Third => 3,
    };
    let limit_rank = match limit {
        KernelDerivativeOrder::Value => 0u8,
        KernelDerivativeOrder::First => 1,
        KernelDerivativeOrder::Second => 2,
        KernelDerivativeOrder::Third => 3,
    };
    rank <= limit_rank
}

impl KernelDerivativeCapabilities {
    /// Where a kernel derivative of `order` is available: everywhere through
    /// the center order, away from centers through the away order, nowhere
    /// beyond.
    pub open spec fn spec_capability(self, order: KernelDerivativeOrder) -> KernelDerivativeCapability {
        if self.center_through is Some && order.rank() <= self.center_through->Some_0.rank() {
            KernelDerivativeCapability::SupportedEverywhere
        } else if order.rank() <= self.away_through.rank() {
            KernelDerivativeCapability::SupportedAwayFromCenters
        } else {
            KernelDerivativeCapability::Unsupported
        }
    }

    /// Classifies availability of the kernel derivative of `order`.
    pub fn capability(self, order: KernelDerivativeOrder) -> (capability: KernelDerivativeCapability)
        ensures
            capability == self.spec_capability(order),
    {
        if let Some(center) = self.center_through {
            if order_at_most(order, center) {
                return KernelDerivativeCapability::SupportedEverywhere;
            }
        }
        if order_at_most(order, self.away_through) {
            KernelDerivativeCapability::SupportedAwayFromCenters
        } else {
            KernelDerivativeCapability::Unsupported
        }
    }

    /// Availability of a query derivative of order `output` applied to a
    /// center functional of order `center`: that of the combined kernel
    /// order, or unsupported where the pair combines to none.
    pub open spec fn spec_query_capability(
        self,
        output: KernelDerivativeOrder,
        center: KernelDerivativeOrder,
    ) -> KernelDerivativeCapability {
        match spec_combined_order(output, center) {
            Some(order) => self.spec_capability(order),
            None => KernelDerivativeCapability::Unsupported,
        }
    }

    /// Classifies a query derivative applied to a center functional.
    pub fn query_capability(self, output: KernelDerivativeOrder, center: KernelDerivativeOrder) -> (capability:
        KernelDerivativeCapability)
        ensures
            capability == self.spec_query_capability(output, center),
    {
        match combined_order(output, center) {
            Some(order) => self.capability(order),
            None => KernelDerivativeCapability::Unsupported,
        }
    }
}

/// Definiteness class of a kernel.
#[derive(Clone, Copy, Debug, PartialEq, Eq, Structural, Hash)]
pub enum KernelDefiniteness {
    /// Strictly positive definite.
    StrictlyPositiveDefinite,
    /// Conditionally positive definite of the given order.
    ConditionallyPositiveDefinite {
        /// Required CPD order.
        order: CpdOrder,
    },
}

/// Spatial dimensions, one through three, in which a kernel is valid.
#[derive(Clone, Copy, Debug, PartialEq, Eq, Hash)]
pub struct KernelDimensions {
    /// Validity in one, two and three dimensions.
    pub flags: [bool; 3],
}

/// Support of a kernel.
#[derive(Clone, Copy, Debug, PartialEq, Eq, Hash)]
pub enum KernelSupport {
    /// Nonzero everywhere.
    Global,
    /// Zero beyond a named radius parameter.
    Compact {
        /// Name of the support-radius parameter.
        radius_parameter: &'static str,
    },
}

/// Unit in which a kernel parameter is expressed.
#[derive(Clone, Copy, Debug, PartialEq, Eq, Structural, Hash)]
pub enum KernelParameterUnit {
    /// A length in the active coordinate length unit.
    CoordinateLength,
}

/// Constraint a kernel parameter value must meet.
#[derive(Clone, Copy, Debug, PartialEq, Eq, Structural, Hash)]
pub enum KernelParameterConstraint {
    /// Finite and strictly positive.
    Positive,
}

/// Static description of one kernel parameter.
#[derive(Clone, Copy, Debug)]
pub struct KernelParameterDefinition {
    /// Stable parameter name.
    pub name: &'static str,
    /// Unit of the parameter.
    pub unit: KernelParameterUnit,
    /// Constraint on its value.
    pub constraint: KernelParameterConstraint,
    /// Human-readable description.
    pub description: &'static str,
}

/// Static metadata describing one kernel family member.
#[derive(Clone, Copy, Debug)]
pub struct KernelMetadata {
    /// Stable family name.
    pub name: &'static str,
    /// Definiteness class.
    pub definiteness: KernelDefiniteness,
    /// Valid spatial dimensions.
    pub dimensions: KernelDimensions,
    /// Available derivative orders.
    pub derivatives: KernelDerivativeCapabilities,
    /// Support class.
    pub support: KernelSupport,
    /// Parameters the member is configured with.
    pub parameters: &'static [KernelParameterDefinition],
}

} // verus!
