//! Smoothness members of the compact-support Wendland catalog.
use vstd::prelude::*;

use crate::kernel::{
    KernelDefiniteness, KernelDerivativeCapabilities, KernelDerivativeOrder, KernelDimensions, KernelMetadata,
    KernelParameterConstraint, KernelParameterDefinition, KernelParameterUnit, KernelSupport,
};

verus! {

/// Smoothness member of the dimension-three Wendland catalog.
#[derive(Clone, Copy, Debug, PartialEq, Eq, Structural, Hash)]
pub enum WendlandSmoothness {
    /// The `C2` member `(1-q)^4_+ (1+4q)`.
    C2,
    /// The normalized `C4` member.
    C4,
    /// The `C6` member.
    C6,
}

impl WendlandSmoothness {
    /// Stable metadata name of the member.
    pub fn metadata_name(self) -> (name: &'static str)
        ensures
            self is C2 ==> name@ == "wendland_c2"@,
            self is C4 ==> name@ == "wendland_c4"@,
            self is C6 ==> name@ == "wendland_c6"@,
    {
        proof {
            reveal_strlit("wendland_c2");
            reveal_strlit("wendland_c4");
            reveal_strlit("wendland_c6");
        }
        match self {
            WendlandSmoothness::C2 => "wendland_c2",
            WendlandSmoothness::C4 => "wendland_c4",
            WendlandSmoothness::C6 => "wendland_c6",
        }
    }

    /// Highest derivative order available at centers: second for `C2`, third otherwise.
    pub fn center_order(self) -> (order: KernelDerivativeOrder)
        ensures
            self is C2 ==> order is Second,
            !(self is C2) ==> order is Third,
    {
        match self {
            WendlandSmoothness::C2 => KernelDerivativeOrder::Second,
            WendlandSmoothness::C4 | WendlandSmoothness::C6 => KernelDerivativeOrder::Third,
        }
    }

    /// Compact-support, strictly positive-definite metadata of the member in
    /// dimensions one through three: away derivatives through third order,
    /// center derivatives through its center order, and the support-radius
    /// parameter.
    pub fn metadata(self) -> (metadata: KernelMetadata)
        ensures
            self is C2 ==> metadata.name@ == "wendland_c2"@,
            self is C4 ==> metadata.name@ == "wendland_c4"@,
            self is C6 ==> metadata.name@ == "wendland_c6"@,
            metadata.definiteness == KernelDefiniteness::StrictlyPositiveDefinite,
            metadata.dimensions.flags@ == seq![true, true, true],
            metadata.derivatives.away_through == KernelDerivativeOrder::Third,
            self is C2 ==> metadata.derivatives.center_through == Some(KernelDerivativeOrder::Second),
            !(self is C2) ==> metadata.derivatives.center_through == Some(KernelDerivativeOrder::Third),
            metadata.support matches KernelSupport::Compact { radius_parameter } && radius_parameter@ == "support_radius"@,
            metadata.parameters@.len() == 1,
            metadata.parameters@[0].name@ == "support_radius"@,
            metadata.parameters@[0].unit == KernelParameterUnit::CoordinateLength,
            metadata.parameters@[0].constraint == KernelParameterConstraint::Positive,
    {
        proof {
            reveal_strlit("support_radius");
        }
        let flags = [true, true, true];
        assert(flags@ == seq![true, true, true]);
        KernelMetadata {
            name: self.metadata_name(),
            definiteness: KernelDefiniteness::StrictlyPositiveDefinite,
            dimensions: KernelDimensions { flags },
            derivatives: KernelDerivativeCapabilities {
                away_through: KernelDerivativeOrder::Third,
                center_through: Some(self.center_order()),
            },
            support: KernelSupport::Compact { radius_parameter: "support_radius" },
            parameters: &[
                KernelParameterDefinition {
                    name: "support_radius",
                    unit: KernelParameterUnit::CoordinateLength,
                    constraint: KernelParameterConstraint::Positive,
                    description: "Positive compact-support radius in the active coordinate length unit",
                },
            ],
        }
    }
}

} // verus!
