//! Local positive-definite trend mixtures: the operational domain in which a
//! mixture is trusted, and the aggregate derivative availability that its
//! evaluation checks before any component kernel is evaluated.
//!
//! Coordinates are finite binary64 values carried as bit patterns.
use vstd::prelude::*;

use crate::binary64::{
    binary64_is_finite, binary64_is_zero, binary64_order_key, is_finite_bits, is_zero_bits, order_key,
};
use crate::binary64_sum::{quotient_overflows, quotient_overflows_bits};
use crate::kernel::{KernelDerivativeCapabilities, KernelDerivativeCapability, KernelDerivativeOrder};

verus! {

/// Output component whose represented arithmetic failed.
#[derive(Clone, Copy, Debug, PartialEq, Eq, Structural, Hash)]
pub enum LocalTrendQuantity {
    /// Mixture value.
    Value,
    /// Query-gradient component.
    Gradient {
        /// Axis.
        axis: usize,
    },
    /// Query-Hessian component.
    Hessian {
        /// Row.
        row: usize,
        /// Column.
        column: usize,
    },
}

/// Construction failure for a local positive-definite mixture.
#[derive(Clone, Copy, Debug, PartialEq, Eq, Structural, Hash)]
#[non_exhaustive]
pub enum LocalTrendConstructionError {
    /// An operational-domain axis is reversed.
    ReversedDomainAxis {
        /// Zero-based axis.
        axis: usize,
        /// Rejected minimum, as binary64 bits.
        minimum: u64,
        /// Rejected maximum, as binary64 bits.
        maximum: u64,
    },
    /// No component was supplied.
    EmptyMixture,
    /// The background index is out of bounds.
    BackgroundIndexOutOfBounds {
        /// Rejected index.
        index: usize,
        /// Number of components.
        component_count: usize,
    },
    /// The minimum background weight is not finite.
    NonFiniteBackgroundMinimum {
        /// Rejected minimum, as binary64 bits.
        minimum: u64,
    },
    /// The minimum background weight is zero or negative.
    NonPositiveBackgroundMinimum {
        /// Rejected minimum, as binary64 bits.
        minimum: u64,
    },
    /// A component kernel is only conditionally positive definite.
    ConditionallyPositiveDefiniteComponent {
        /// Component index.
        component: usize,
        /// Conditional positive-definiteness order.
        order: usize,
    },
    /// The background weight is not constant.
    NonConstantBackground {
        /// Background component index.
        component: usize,
    },
    /// The background weight is zero.
    ZeroBackgroundWeight {
        /// Background component index.
        component: usize,
    },
    /// The background weight magnitude is below the policy minimum.
    BackgroundBelowMinimum {
        /// Background component index.
        component: usize,
        /// Background weight magnitude, as binary64 bits.
        magnitude: u64,
        /// Policy minimum, as binary64 bits.
        minimum: u64,
    },
    /// The background-to-minimum ratio is not a finite binary64 value.
    NonRepresentableBackgroundPolicyRatio,
}

/// Evaluation failure for a local positive-definite mixture.
#[derive(Clone, Copy, Debug, PartialEq, Eq, Structural, Hash)]
#[non_exhaustive]
pub enum LocalTrendEvaluationError {
    /// Third query derivatives are outside the mixture's contract.
    UnsupportedDerivative {
        /// Demanded order.
        demanded: KernelDerivativeOrder,
    },
    /// A component kernel cannot supply the demanded order here.
    UnavailableDerivative {
        /// Demanded order.
        demanded: KernelDerivativeOrder,
        /// Whether the query coincides with the center.
        at_center: bool,
    },
    /// A weight or the accumulated coverage is not finitely representable.
    NonFiniteCoverage {
        /// Component index.
        component: usize,
    },
}

/// The minimum exceeds the maximum on `axis`.
pub open spec fn axis_reversed<const D: usize>(minimum: [u64; D], maximum: [u64; D], axis: int) -> bool {
    0 <= axis < D && binary64_order_key(minimum[axis]) > binary64_order_key(maximum[axis])
}

/// Whether coordinate `axis` of `point` lies between those of the corners.
pub open spec fn axis_inside<const D: usize>(minimum: [u64; D], maximum: [u64; D], point: [u64; D], axis: int) -> bool {
    binary64_order_key(minimum[axis]) <= binary64_order_key(point[axis]) && binary64_order_key(point[axis])
        <= binary64_order_key(maximum[axis])
}

/// Whether `point` lies in the closed box between `minimum` and `maximum`.
pub open spec fn box_contains<const D: usize>(minimum: [u64; D], maximum: [u64; D], point: [u64; D]) -> bool {
    forall|axis: int| 0 <= axis < D ==> #[trigger] axis_inside(minimum, maximum, point, axis)
}

/// A closed axis-aligned box in which a mixture is operationally trusted.
#[derive(Clone, Copy, Debug)]
pub struct OperationalDomain<const D: usize> {
    minimum: [u64; D],
    maximum: [u64; D],
}

impl<const D: usize> OperationalDomain<D> {
    /// The inclusive minimum corner.
    pub closed spec fn spec_minimum(self) -> [u64; D] {
        self.minimum
    }

    /// The inclusive maximum corner.
    pub closed spec fn spec_maximum(self) -> [u64; D] {
        self.maximum
    }

    /// Constructs a domain whose minimum does not exceed its maximum on any
    /// axis; otherwise reports the first reversed axis. Corners are points:
    /// their coordinates are finite, compared by numeric order.
    pub fn try_new(minimum: [u64; D], maximum: [u64; D]) -> (result: Result<Self, LocalTrendConstructionError>)
        requires
            forall|axis: int| 0 <= axis < D ==> binary64_is_finite(#[trigger] minimum[axis]),
            forall|axis: int| 0 <= axis < D ==> binary64_is_finite(#[trigger] maximum[axis]),
        ensures
            result is Ok <==> forall|axis: int| !#[trigger] axis_reversed(minimum, maximum, axis),
            result matches Ok(domain) ==> domain.spec_minimum() == minimum && domain.spec_maximum()
                == maximum,
            result is Err ==> (result matches Err(
                LocalTrendConstructionError::ReversedDomainAxis { axis, minimum: low, maximum: high },
            ) && axis_reversed(minimum, maximum, axis as int) && (forall|earlier: int|
                earlier < axis ==> !#[trigger] axis_reversed(minimum, maximum, earlier)) && low
                == minimum[axis as int] && high == maximum[axis as int]),
    {
        let mut axis: usize = 0;
        while axis < D
            invariant
                axis <= D,
                forall|earlier: int| earlier < axis ==> !#[trigger] axis_reversed(minimum, maximum, earlier),
            decreases D - axis,
        {
            if order_key(minimum[axis]) > order_key(maximum[axis]) {
                assert(axis_reversed(minimum, maximum, axis as int));
                return Err(
                    LocalTrendConstructionError::ReversedDomainAxis {
                        axis,
                        minimum: minimum[axis],
                        maximum: maximum[axis],
                    },
                );
            }
            axis += 1;
        }
        Ok(OperationalDomain { minimum, maximum })
    }

    /// Returns the inclusive minimum corner.
    pub fn minimum(self) -> (minimum: [u64; D])
        ensures
            minimum == self.spec_minimum(),
    {
        self.minimum
    }

    /// Returns the inclusive maximum corner.
    pub fn maximum(self) -> (maximum: [u64; D])
        ensures
            maximum == self.spec_maximum(),
    {
        self.maximum
    }

    /// Reports whether a finite point lies in the closed domain.
    pub fn contains(self, point: [u64; D]) -> (inside: bool)
        ensures
            inside == box_contains(self.spec_minimum(), self.spec_maximum(), point),
    {
        let mut axis: usize = 0;
        while axis < D
            invariant
                axis <= D,
                forall|earlier: int|
                    0 <= earlier < axis ==> #[trigger] axis_inside(self.minimum, self.maximum, point, earlier),
            decreases D - axis,
        {
            let value = order_key(point[axis]);
            if !(value >= order_key(self.minimum[axis]) && value <= order_key(self.maximum[axis])) {
                assert(!axis_inside(self.minimum, self.maximum, point, axis as int));
                return false;
            }
            assert(axis_inside(self.minimum, self.maximum, point, axis as int));
            axis += 1;
        }
        true
    }
}

/// The aggregate availability of the `order` query derivative over a
/// mixture's components: third order is never part of the contract; any
/// unsupported component makes it unsupported; any component available only
/// away from centers makes it so; otherwise it is available everywhere.
pub open spec fn spec_aggregate_capability(
    order: KernelDerivativeOrder,
    components: Seq<KernelDerivativeCapabilities>,
) -> KernelDerivativeCapability {
    if order == KernelDerivativeOrder::Third {
        KernelDerivativeCapability::Unsupported
    } else if exists|i: int|
        0 <= i < components.len() && (#[trigger] components[i]).spec_capability(order)
            == KernelDerivativeCapability::Unsupported {
        KernelDerivativeCapability::Unsupported
    } else if exists|i: int|
        0 <= i < components.len() && (#[trigger] components[i]).spec_capability(order)
            == KernelDerivativeCapability::SupportedAwayFromCenters {
        KernelDerivativeCapability::SupportedAwayFromCenters
    } else {
        KernelDerivativeCapability::SupportedEverywhere
    }
}

/// `capability` is the weakest availability among the components: third
/// order is unsupported; an unsupported component makes it unsupported; a
/// component available only away from centers keeps it from being available
/// everywhere; and it is no weaker than every component allows.
pub open spec fn aggregate_is_weakest(
    order: KernelDerivativeOrder,
    components: Seq<KernelDerivativeCapabilities>,
    capability: KernelDerivativeCapability,
) -> bool {
    &&& order == KernelDerivativeOrder::Third ==> capability == KernelDerivativeCapability::Unsupported
    &&& forall|i: int|
        0 <= i < components.len() && (#[trigger] components[i]).spec_capability(order)
            == KernelDerivativeCapability::Unsupported ==> capability == KernelDerivativeCapability::Unsupported
    &&& forall|i: int|
        0 <= i < components.len() && (#[trigger] components[i]).spec_capability(order)
            == KernelDerivativeCapability::SupportedAwayFromCenters ==> capability
            != KernelDerivativeCapability::SupportedEverywhere
    &&& capability == KernelDerivativeCapability::Unsupported ==> order == KernelDerivativeOrder::Third || exists|i: int|
        0 <= i < components.len() && (#[trigger] components[i]).spec_capability(order)
            == KernelDerivativeCapability::Unsupported
    &&& capability == KernelDerivativeCapability::SupportedAwayFromCenters ==> exists|i: int|
        0 <= i < components.len() && (#[trigger] components[i]).spec_capability(order)
            == KernelDerivativeCapability::SupportedAwayFromCenters
}

/// The aggregate availability is the weakest among the components, for
/// every order and every list of components.
pub proof fn lemma_aggregate_is_weakest(order: KernelDerivativeOrder, components: Seq<KernelDerivativeCapabilities>)
    ensures
        aggregate_is_weakest(order, components, spec_aggregate_capability(order, components)),
{
}

/// Classifies aggregate support for value, query gradient, or query Hessian
/// over the derivative capabilities of a mixture's component kernels.
pub fn derivative_capability(order: KernelDerivativeOrder, components: &[KernelDerivativeCapabilities]) -> (capability:
    KernelDerivativeCapability)
    ensures
        capability == spec_aggregate_capability(order, components@),
        aggregate_is_weakest(order, components@, capability),
{
    if order == KernelDerivativeOrder::Third {
        return KernelDerivativeCapability::Unsupported;
    }
    let mut aggregate = KernelDerivativeCapability::SupportedEverywhere;
    let mut index: usize = 0;
    while index < components.len()
        invariant
            index <= components@.len(),
            order != KernelDerivativeOrder::Third,
            forall|i: int|
                0 <= i < index ==> (#[trigger] components@[i]).spec_capability(order)
                    != KernelDerivativeCapability::Unsupported,
            aggregate == KernelDerivativeCapability::SupportedAwayFromCenters <==> exists|i: int|
                0 <= i < index && (#[trigger] components@[i]).spec_capability(order)
                    == KernelDerivativeCapability::SupportedAwayFromCenters,
            aggregate != KernelDerivativeCapability::Unsupported,
        decreases components@.len() - index,
    {
        match components[index].capability(order) {
            KernelDerivativeCapability::Unsupported => {
                return KernelDerivativeCapability::Unsupported;
            },
            KernelDerivativeCapability::SupportedAwayFromCenters => {
                aggregate = KernelDerivativeCapability::SupportedAwayFromCenters;
            },
            KernelDerivativeCapability::SupportedEverywhere => {},
        }
        index += 1;
    }
    aggregate
}

/// Checks that the mixture can supply the `demanded` query derivative at a
/// query that does or does not coincide with the center.
pub fn ensure_derivative_available(
    components: &[KernelDerivativeCapabilities],
    demanded: KernelDerivativeOrder,
    at_center: bool,
) -> (result: Result<(), LocalTrendEvaluationError>)
    ensures
        demanded == KernelDerivativeOrder::Third ==> result == Err::<(), LocalTrendEvaluationError>(
            LocalTrendEvaluationError::UnsupportedDerivative { demanded },
        ),
        demanded != KernelDerivativeOrder::Third ==> ({
            let capability = spec_aggregate_capability(demanded, components@);
            if capability == KernelDerivativeCapability::Unsupported || (at_center && capability
                == KernelDerivativeCapability::SupportedAwayFromCenters) {
                result == Err::<(), LocalTrendEvaluationError>(
                    LocalTrendEvaluationError::UnavailableDerivative { demanded, at_center },
                )
            } else {
                result is Ok
            }
        }),
{
    if demanded == KernelDerivativeOrder::Third {
        return Err(LocalTrendEvaluationError::UnsupportedDerivative { demanded });
    }
    let capability = derivative_capability(demanded, components);
    if capability == KernelDerivativeCapability::Unsupported || (at_center && capability
        == KernelDerivativeCapability::SupportedAwayFromCenters) {
        return Err(LocalTrendEvaluationError::UnavailableDerivative { demanded, at_center });
    }
    Ok(())
}

/// The index of the first component whose kernel is conditionally positive
/// definite (has an order); the number of components when there is none.
pub open spec fn first_conditional_component(orders: Seq<Option<usize>>) -> nat
    decreases orders.len(),
{
    if orders.len() == 0 {
        0
    } else if orders[0] is Some {
        0
    } else {
        1 + first_conditional_component(orders.skip(1))
    }
}

/// The pattern of the magnitude of a binary64 value: its sign bit cleared.
pub open spec fn magnitude_bits(bits: u64) -> u64 {
    (bits % 0x8000_0000_0000_0000) as u64
}

/// The outcome of validating a mixture's background policy, in order: some
/// component; an in-range background index; a finite, then positive,
/// minimum weight; no conditionally positive-definite component; a constant
/// background weight whose magnitude is nonzero, not below the minimum, and
/// whose ratio to the minimum is a finite binary64 value. Gives the
/// background weight magnitude.
pub open spec fn mixture_check(
    conditional_orders: Seq<Option<usize>>,
    constant_weights: Seq<Option<u64>>,
    background_index: usize,
    minimum: u64,
) -> Result<u64, LocalTrendConstructionError> {
    let first = first_conditional_component(conditional_orders);
    if conditional_orders.len() == 0 {
        Err(LocalTrendConstructionError::EmptyMixture)
    } else if background_index >= conditional_orders.len() {
        Err(
            LocalTrendConstructionError::BackgroundIndexOutOfBounds {
                index: background_index,
                component_count: conditional_orders.len() as usize,
            },
        )
    } else if !binary64_is_finite(minimum) {
        Err(LocalTrendConstructionError::NonFiniteBackgroundMinimum { minimum })
    } else if binary64_order_key(minimum) <= 0 {
        Err(LocalTrendConstructionError::NonPositiveBackgroundMinimum { minimum })
    } else if first < conditional_orders.len() {
        Err(
            LocalTrendConstructionError::ConditionallyPositiveDefiniteComponent {
                component: first as usize,
                order: conditional_orders[first as int]->Some_0,
            },
        )
    } else {
        match constant_weights[background_index as int] {
            None => Err(LocalTrendConstructionError::NonConstantBackground { component: background_index }),
            Some(weight) => {
                let magnitude = magnitude_bits(weight);
                if binary64_is_finite(magnitude) && binary64_is_zero(magnitude) {
                    Err(LocalTrendConstructionError::ZeroBackgroundWeight { component: background_index })
                } else if binary64_is_finite(magnitude) && binary64_order_key(magnitude) < binary64_order_key(
                    minimum,
                ) {
                    Err(
                        LocalTrendConstructionError::BackgroundBelowMinimum {
                            component: background_index,
                            magnitude,
                            minimum,
                        },
                    )
                } else if !binary64_is_finite(magnitude) || quotient_overflows(magnitude, minimum) {
                    Err(LocalTrendConstructionError::NonRepresentableBackgroundPolicyRatio)
                } else {
                    Ok(magnitude)
                }
            },
        }
    }
}

/// Validates the background policy of a mixture whose components have the
/// given conditional positive-definiteness orders (`None` for a positive
/// definite kernel) and constant weights (`None` for a varying weight).
pub fn validate_mixture_policy(
    conditional_orders: &Vec<Option<usize>>,
    constant_weights: &Vec<Option<u64>>,
    background_index: usize,
    minimum_background_weight: u64,
) -> (result: Result<u64, LocalTrendConstructionError>)
    requires
        constant_weights@.len() == conditional_orders@.len(),
    ensures
        result == mixture_check(conditional_orders@, constant_weights@, background_index, minimum_background_weight),
{
    let count = conditional_orders.len();
    if count == 0 {
        return Err(LocalTrendConstructionError::EmptyMixture);
    }
    if background_index >= count {
        return Err(LocalTrendConstructionError::BackgroundIndexOutOfBounds { index: background_index, component_count: count });
    }
    let minimum = minimum_background_weight;
    if !is_finite_bits(minimum) {
        return Err(LocalTrendConstructionError::NonFiniteBackgroundMinimum { minimum });
    }
    if order_key(minimum) <= 0 {
        return Err(LocalTrendConstructionError::NonPositiveBackgroundMinimum { minimum });
    }
    let mut component: usize = 0;
    while component < count
        invariant
            count == conditional_orders@.len(),
            background_index < count,
            minimum == minimum_background_weight,
            binary64_is_finite(minimum),
            binary64_order_key(minimum) > 0,
            component <= count,
            forall|earlier: int| 0 <= earlier < component ==> conditional_orders@[earlier] is None,
        decreases count - component,
    {
        if let Some(order) = conditional_orders[component] {
            proof {
                lemma_first_conditional(conditional_orders@, component as int);
            }
            return Err(LocalTrendConstructionError::ConditionallyPositiveDefiniteComponent { component, order });
        }
        component = component + 1;
    }
    proof {
        lemma_first_conditional(conditional_orders@, count as int);
    }
    let weight = match constant_weights[background_index] {
        Some(weight) => weight,
        None => {
            return Err(LocalTrendConstructionError::NonConstantBackground { component: background_index });
        },
    };
    let magnitude = weight & 0x7fff_ffff_ffff_ffff;
    proof {
        assert(weight & 0x7fff_ffff_ffff_ffff == weight % 0x8000_0000_0000_0000) by (bit_vector);
    }
    if is_finite_bits(magnitude) {
        if is_zero_bits(magnitude) {
            return Err(LocalTrendConstructionError::ZeroBackgroundWeight { component: background_index });
        }
        if order_key(magnitude) < order_key(minimum) {
            return Err(
                LocalTrendConstructionError::BackgroundBelowMinimum { component: background_index, magnitude, minimum },
            );
        }
        if quotient_overflows_bits(magnitude, minimum) {
            return Err(LocalTrendConstructionError::NonRepresentableBackgroundPolicyRatio);
        }
        Ok(magnitude)
    } else {
        Err(LocalTrendConstructionError::NonRepresentableBackgroundPolicyRatio)
    }
}

/// The first conditional component is the one a scan from the start stops
/// at.
proof fn lemma_first_conditional(orders: Seq<Option<usize>>, index: int)
    requires
        0 <= index <= orders.len(),
        forall|earlier: int| 0 <= earlier < index ==> orders[earlier] is None,
        index < orders.len() ==> orders[index] is Some,
    ensures
        first_conditional_component(orders) == index,
    decreases orders.len(),
{
    if orders.len() > 0 && index > 0 {
        let rest = orders.skip(1);
        assert forall|earlier: int| 0 <= earlier < index - 1 implies rest[earlier] is None by {
            assert(rest[earlier] == orders[earlier + 1]);
        }
        if index < orders.len() {
            assert(rest[index - 1] == orders[index]);
        }
        lemma_first_conditional(rest, index - 1);
    }
}

} // verus!
