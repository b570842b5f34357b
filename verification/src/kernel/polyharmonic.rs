//! Polyharmonic and dimension-specific surface-spline kernel families.
use vstd::prelude::*;

use crate::dimension::{Dim, SupportedDimension};
use crate::kernel::{
    CpdOrder, KernelDefiniteness, KernelDerivativeCapabilities, KernelDerivativeOrder,
    KernelDimensions, KernelMetadata, KernelSupport,
};

verus! {

/// Highest spatial derivative order that a polyharmonic spline of the given
/// positive power supports at its center: `min(power - 1, 3)`.
pub open spec fn spec_center_order(power: u16) -> KernelDerivativeOrder {
    if power <= 1 {
        KernelDerivativeOrder::Value
    } else if power == 2 {
        KernelDerivativeOrder::First
    } else if power == 3 {
        KernelDerivativeOrder::Second
    } else {
        KernelDerivativeOrder::Third
    }
}

/// Derivative capabilities of a polyharmonic spline: everything through third
/// order away from centers, and through `min(power - 1, 3)` at centers.
pub open spec fn spec_derivative_capabilities(power: u16) -> KernelDerivativeCapabilities {
    KernelDerivativeCapabilities {
        away_through: KernelDerivativeOrder::Third,
        center_through: Some(spec_center_order(power)),
    }
}

/// CPD order `floor(power / 2) + 1` of the polyharmonic spline of the given power.
pub open spec fn spec_polyharmonic_cpd_order(power: u16) -> nat {
    (power / 2 + 1) as nat
}

/// The CPD order of the polyharmonic spline of power `p` is the least
/// order `m` with `p < 2 m`: `2 (m - 1) <= p < 2 m`, that is
/// `floor(p / 2) + 1` (1, 2, 2, 3, 3 for p = 1..5).
pub proof fn lemma_polyharmonic_cpd_order_least(power: u16)
    ensures
        spec_polyharmonic_cpd_order(power) == power / 2 + 1,
        2 * (spec_polyharmonic_cpd_order(power) - 1) <= power,
        power < 2 * spec_polyharmonic_cpd_order(power),
        forall|m: nat| #![trigger (2 * m)] power < 2 * m ==> spec_polyharmonic_cpd_order(power) <= m,
{
}

/// Integer-power polyharmonic spline with CPD-positive sign normalization.
///
/// For power `p >= 1` the family member is conditionally positive definite of
/// order `floor(p / 2) + 1` and has no scalar or shape parameter.
#[derive(Clone, Copy, Debug, PartialEq, Eq, Structural, Hash)]
pub struct PolyharmonicSpline {
    power: u16,
}

impl PolyharmonicSpline {
    /// The positive integer radial power.
    pub closed spec fn spec_power(self) -> u16 {
        self.power
    }

    #[verifier::type_invariant]
    spec fn inv(self) -> bool {
        self.power > 0
    }

    /// Constructs the integer-power family member; power zero is rejected.
    pub fn try_new(power: u16) -> (result: Result<Self, PolyharmonicSplineConstructionError>)
        ensures
            power == 0 <==> result is Err,
            result matches Err(error) ==> error == PolyharmonicSplineConstructionError::ZeroPower,
            result matches Ok(spline) ==> spline.spec_power() == power,
    {
        if power == 0 {
            Err(PolyharmonicSplineConstructionError::ZeroPower)
        } else {
            Ok(Self { power })
        }
    }

    /// Returns the positive integer radial power.
    pub fn power(self) -> (power: u16)
        ensures
            power == self.spec_power(),
            power > 0,
    {
        proof {
            use_type_invariant(&self);
        }
        self.power
    }

    /// Returns CPD order `floor(power / 2) + 1`.
    pub fn cpd_order(self) -> (order: CpdOrder)
        ensures
            order.spec_order() == spec_polyharmonic_cpd_order(self.spec_power()),
            order.spec_order() == self.spec_power() / 2 + 1,
            2 * (order.spec_order() - 1) <= self.spec_power() < 2 * order.spec_order(),
    {
        CpdOrder((self.power / 2 + 1) as usize)
    }

    /// Returns static metadata: valid in all supported dimensions, global
    /// support, away derivatives through third order and center derivatives
    /// through `min(power - 1, 3)`.
    pub fn metadata(self) -> (metadata: KernelMetadata)
        ensures
            metadata.name@ == "polyharmonic_spline"@,
            metadata.definiteness matches KernelDefiniteness::ConditionallyPositiveDefinite {
                order,
            } && order.spec_order() == spec_polyharmonic_cpd_order(self.spec_power()),
            metadata.dimensions.flags@ == seq![true, true, true],
            metadata.derivatives == spec_derivative_capabilities(self.spec_power()),
            metadata.support == KernelSupport::Global,
            metadata.parameters@.len() == 0,
    {
        let name = "polyharmonic_spline";
        proof {
            reveal_strlit("polyharmonic_spline");
        }
        let flags = [true, true, true];
        assert(flags@ == seq![true, true, true]);
        KernelMetadata {
            name,
            definiteness: KernelDefiniteness::ConditionallyPositiveDefinite {
                order: self.cpd_order(),
            },
            dimensions: KernelDimensions { flags },
            derivatives: derivative_capabilities(self.power),
            support: KernelSupport::Global,
            parameters: &[],
        }
    }
}

/// Dimension-specific surface spline of Sobolev order `m`.
///
/// Construction requires `2m > D` and selects the polyharmonic power
/// `p = 2m - D`. Its metadata supports only the compile-time dimension `D`
/// and declares CPD order `m`.
#[derive(Clone, Copy, Debug)]
pub struct SurfaceSpline<const D: usize> where Dim<D>: SupportedDimension<D> {
    order: u16,
    polyharmonic: PolyharmonicSpline,
}

impl<const D: usize> SurfaceSpline<D> where Dim<D>: SupportedDimension<D> {
    /// The Sobolev order `m`.
    pub closed spec fn spec_order(self) -> u16 {
        self.order
    }

    /// The derived polyharmonic power.
    pub closed spec fn spec_power(self) -> u16 {
        self.polyharmonic.spec_power()
    }

    #[verifier::type_invariant]
    spec fn inv(self) -> bool {
        &&& 2 * self.order > D
        &&& self.polyharmonic.spec_power() == 2 * self.order - D
    }

    /// Constructs a dimension-valid surface spline.
    ///
    /// Fails with `OrderOverflow` when `2 * order` exceeds `u16`, and with
    /// `OrderTooLow` unless `2 * order > D`.
    pub fn try_new(order: u16) -> (result: Result<Self, SurfaceSplineConstructionError>)
        ensures
            2 * order > u16::MAX ==> result == Err::<Self, SurfaceSplineConstructionError>(
                SurfaceSplineConstructionError::OrderOverflow { order },
            ),
            2 * order <= u16::MAX && 2 * order <= D ==> result == Err::<
                Self,
                SurfaceSplineConstructionError,
            >(SurfaceSplineConstructionError::OrderTooLow { order, dimension: D }),
            2 * order <= u16::MAX && 2 * order > D ==> (result matches Ok(spline)
                && spline.spec_order() == order && spline.spec_power() == 2 * order - D),
    {
        proof {
            <Dim<D> as SupportedDimension<D>>::lemma_supported();
        }
        let twice_order = match order.checked_mul(2) {
            Some(value) => value,
            None => {
                return Err(SurfaceSplineConstructionError::OrderOverflow { order });
            },
        };
        if (twice_order as usize) <= D {
            return Err(SurfaceSplineConstructionError::OrderTooLow { order, dimension: D });
        }
        let dimension: u16 = if D == 1 {
            1
        } else if D == 2 {
            2
        } else {
            3
        };
        let power = twice_order - dimension;
        Ok(Self { order, polyharmonic: PolyharmonicSpline { power } })
    }

    /// Returns the positive Sobolev order `m`.
    pub fn order(self) -> (order: u16)
        ensures
            order == self.spec_order(),
    {
        self.order
    }

    /// Returns the derived positive power `2m - D`.
    pub fn power(self) -> (power: u16)
        ensures
            power == self.spec_power(),
            power == 2 * self.spec_order() - D,
            power > 0,
    {
        proof {
            use_type_invariant(&self);
        }
        self.polyharmonic.power
    }

    /// Returns metadata valid only in dimension `D`, with CPD order `m`.
    pub fn metadata(self) -> (metadata: KernelMetadata)
        ensures
            metadata.name@ == "surface_spline"@,
            metadata.definiteness matches KernelDefiniteness::ConditionallyPositiveDefinite {
                order,
            } && order.spec_order() == self.spec_order(),
            metadata.dimensions.flags@ == seq![D == 1, D == 2, D == 3],
            metadata.derivatives == spec_derivative_capabilities(self.spec_power()),
            metadata.support == KernelSupport::Global,
            metadata.parameters@.len() == 0,
    {
        let name = "surface_spline";
        proof {
            reveal_strlit("surface_spline");
        }
        let flags = [D == 1, D == 2, D == 3];
        assert(flags@ == seq![D == 1, D == 2, D == 3]);
        KernelMetadata {
            name,
            definiteness: KernelDefiniteness::ConditionallyPositiveDefinite {
                order: CpdOrder(self.order as usize),
            },
            dimensions: KernelDimensions { flags },
            derivatives: derivative_capabilities(self.polyharmonic.power),
            support: KernelSupport::Global,
            parameters: &[],
        }
    }
}

/// Error returned by [`PolyharmonicSpline`] construction.
#[derive(Clone, Copy, Debug, PartialEq, Eq, Structural, Hash)]
pub enum PolyharmonicSplineConstructionError {
    /// Integer power zero has no member in the implemented family.
    ZeroPower,
}

/// Error returned by [`SurfaceSpline`] construction.
#[derive(Clone, Copy, Debug, PartialEq, Eq, Structural, Hash)]
pub enum SurfaceSplineConstructionError {
    /// The supplied order does not satisfy `2m > D`.
    OrderTooLow {
        /// Rejected order.
        order: u16,
        /// Compile-time spatial dimension.
        dimension: usize,
    },
    /// Doubling the supplied order is not representable as `u16`.
    OrderOverflow {
        /// Rejected order.
        order: u16,
    },
}

/// Derivative capabilities of the polyharmonic spline of the given power.
pub fn derivative_capabilities(power: u16) -> (capabilities: KernelDerivativeCapabilities)
    ensures
        capabilities == spec_derivative_capabilities(power),
{
    KernelDerivativeCapabilities {
        away_through: KernelDerivativeOrder::Third,
        center_through: Some(center_order(power)),
    }
}

/// Highest center derivative order of the polyharmonic spline of the given power.
pub fn center_order(power: u16) -> (order: KernelDerivativeOrder)
    ensures
        order == spec_center_order(power),
{
    if power <= 1 {
        KernelDerivativeOrder::Value
    } else if power == 2 {
        KernelDerivativeOrder::First
    } else if power == 3 {
        KernelDerivativeOrder::Second
    } else {
        KernelDerivativeOrder::Third
    }
}

/// Whether the radial derivative of the given order exists at the center of
/// the polyharmonic spline of the given power: the value always, and a
/// derivative of rank `k > 0` exactly when `k < power`.
pub open spec fn spec_center_supports(power: u16, order: KernelDerivativeOrder) -> bool {
    order is Value || order.rank() < power
}

/// Executable form of [`spec_center_supports`].
pub fn center_supports(power: u16, order: KernelDerivativeOrder) -> (supported: bool)
    ensures
        supported == spec_center_supports(power, order),
{
    match order {
        KernelDerivativeOrder::Value => true,
        KernelDerivativeOrder::First => power >= 2,
        KernelDerivativeOrder::Second => power >= 3,
        KernelDerivativeOrder::Third => power >= 4,
    }
}

/// A polyharmonic spline supports a center derivative exactly when its
/// metadata lists that order among the center-available derivatives: the
/// center result is available for an order precisely up to `min(power - 1, 3)`.
pub proof fn lemma_center_support_matches_metadata(power: u16, order: KernelDerivativeOrder)
    requires
        power > 0,
    ensures
        spec_center_supports(power, order) <==> order.rank()
            <= spec_derivative_capabilities(power).center_through->0.rank(),
{
}

} // verus!
