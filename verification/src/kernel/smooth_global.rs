//! Discrete members of the smooth global-support kernel families.
use vstd::prelude::*;

use crate::kernel::{
    CpdOrder, KernelDefiniteness, KernelDerivativeCapabilities, KernelDerivativeOrder, KernelDimensions,
    KernelMetadata, KernelParameterConstraint, KernelParameterDefinition, KernelParameterUnit, KernelSupport,
};

verus! {

/// Discrete Matérn smoothness members.
#[derive(Clone, Copy, Debug, PartialEq, Eq, Structural, Hash)]
pub enum MaternSmoothness {
    /// Exponential Matérn kernel with `nu = 1/2`.
    OneHalf,
    /// Once mean-square differentiable Matérn kernel with `nu = 3/2`.
    ThreeHalves,
    /// Twice mean-square differentiable Matérn kernel with `nu = 5/2`.
    FiveHalves,
}

impl MaternSmoothness {
    /// The member's metadata name.
    pub open spec fn spec_metadata_name(self) -> Seq<char> {
        match self {
            MaternSmoothness::OneHalf => "matern_1_2"@,
            MaternSmoothness::ThreeHalves => "matern_3_2"@,
            MaternSmoothness::FiveHalves => "matern_5_2"@,
        }
    }

    /// The member's center order.
    pub open spec fn spec_center_order(self) -> KernelDerivativeOrder {
        match self {
            MaternSmoothness::OneHalf => KernelDerivativeOrder::Value,
            MaternSmoothness::ThreeHalves => KernelDerivativeOrder::Second,
            MaternSmoothness::FiveHalves => KernelDerivativeOrder::Third,
        }
    }

    /// Stable metadata name of the member.
    pub fn metadata_name(self) -> (name: &'static str)
        ensures
            self is OneHalf ==> name@ == "matern_1_2"@,
            self is ThreeHalves ==> name@ == "matern_3_2"@,
            self is FiveHalves ==> name@ == "matern_5_2"@,
    {
        proof {
            reveal_strlit("matern_1_2");
            reveal_strlit("matern_3_2");
            reveal_strlit("matern_5_2");
        }
        match self {
            MaternSmoothness::OneHalf => "matern_1_2",
            MaternSmoothness::ThreeHalves => "matern_3_2",
            MaternSmoothness::FiveHalves => "matern_5_2",
        }
    }

    /// Highest derivative order available at centers.
    pub fn center_order(self) -> (order: KernelDerivativeOrder)
        ensures
            self is OneHalf ==> order is Value,
            self is ThreeHalves ==> order is Second,
            self is FiveHalves ==> order is Third,
    {
        match self {
            MaternSmoothness::OneHalf => KernelDerivativeOrder::Value,
            MaternSmoothness::ThreeHalves => KernelDerivativeOrder::Second,
            MaternSmoothness::FiveHalves => KernelDerivativeOrder::Third,
        }
    }
}

/// Identifies a smooth global-support family in structured diagnostics.
#[derive(Clone, Copy, Debug, PartialEq, Eq, Structural, Hash)]
pub enum SmoothKernelFamily {
    /// Gaussian/squared-exponential family.
    Gaussian,
    /// Inverse multiquadric family.
    InverseMultiquadric,
    /// CPD-positive signed multiquadric family.
    Multiquadric,
    /// One of the supported Matérn members.
    Matern(MaternSmoothness),
}

/// Global-support metadata valid in dimensions one through three, with
/// away derivatives through third order, center derivatives through
/// `center_through` and the length-scale parameter.
pub fn global_metadata(
    name: &'static str,
    definiteness: KernelDefiniteness,
    center_through: KernelDerivativeOrder,
) -> (metadata: KernelMetadata)
    ensures
        metadata.name == name,
        metadata.definiteness == definiteness,
        metadata.dimensions.flags@ == seq![true, true, true],
        metadata.derivatives == (KernelDerivativeCapabilities {
            away_through: KernelDerivativeOrder::Third,
            center_through: Some(center_through),
        }),
        metadata.support == KernelSupport::Global,
        metadata.parameters@.len() == 1,
        metadata.parameters@[0].name@ == "length_scale"@,
        metadata.parameters@[0].unit == KernelParameterUnit::CoordinateLength,
        metadata.parameters@[0].constraint == KernelParameterConstraint::Positive,
{
    let flags = [true, true, true];
    assert(flags@ == seq![true, true, true]);
    proof {
        reveal_strlit("length_scale");
    }
    KernelMetadata {
        name,
        definiteness,
        dimensions: KernelDimensions { flags },
        derivatives: KernelDerivativeCapabilities {
            away_through: KernelDerivativeOrder::Third,
            center_through: Some(center_through),
        },
        support: KernelSupport::Global,
        parameters: &[
            KernelParameterDefinition {
                name: "length_scale",
                unit: KernelParameterUnit::CoordinateLength,
                constraint: KernelParameterConstraint::Positive,
                description: "Positive radial correlation length in the active coordinate length unit",
            },
        ],
    }
}

impl SmoothKernelFamily {
    /// The metadata of a family member: Gaussian and inverse multiquadric
    /// are strictly positive definite with center derivatives through third
    /// order; the signed multiquadric is conditionally positive definite of
    /// order one; a Matérn member is strictly positive definite with its own
    /// center order.
    pub fn metadata(self) -> (metadata: KernelMetadata)
        ensures
            metadata.dimensions.flags@ == seq![true, true, true],
            metadata.support == KernelSupport::Global,
            metadata.parameters@.len() == 1,
            metadata.parameters@[0].name@ == "length_scale"@,
            self is Gaussian ==> metadata.name@ == "gaussian"@,
            self is InverseMultiquadric ==> metadata.name@ == "inverse_multiquadric"@,
            self is Multiquadric ==> metadata.name@ == "multiquadric"@,
            self is Multiquadric ==> (metadata.definiteness matches KernelDefiniteness::ConditionallyPositiveDefinite {
                order,
            } && order.spec_order() == 1),
            !(self is Multiquadric) ==> metadata.definiteness == KernelDefiniteness::StrictlyPositiveDefinite,
            !(self is Matern) ==> metadata.derivatives.center_through == Some(KernelDerivativeOrder::Third),
            self is Matern ==> (metadata.derivatives.center_through == Some(
                self->Matern_0.spec_center_order(),
            ) && metadata.name@ == self->Matern_0.spec_metadata_name()),
            metadata.derivatives.away_through == KernelDerivativeOrder::Third,
    {
        proof {
            reveal_strlit("gaussian");
            reveal_strlit("inverse_multiquadric");
            reveal_strlit("multiquadric");
        }
        match self {
            SmoothKernelFamily::Gaussian => global_metadata(
                "gaussian",
                KernelDefiniteness::StrictlyPositiveDefinite,
                KernelDerivativeOrder::Third,
            ),
            SmoothKernelFamily::InverseMultiquadric => global_metadata(
                "inverse_multiquadric",
                KernelDefiniteness::StrictlyPositiveDefinite,
                KernelDerivativeOrder::Third,
            ),
            SmoothKernelFamily::Multiquadric => global_metadata(
                "multiquadric",
                KernelDefiniteness::ConditionallyPositiveDefinite { order: CpdOrder(1) },
                KernelDerivativeOrder::Third,
            ),
            SmoothKernelFamily::Matern(smoothness) => global_metadata(
                smoothness.metadata_name(),
                KernelDefiniteness::StrictlyPositiveDefinite,
                smoothness.center_order(),
            ),
        }
    }
}

} // verus!
