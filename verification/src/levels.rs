//! Explicit geological level variables and deterministic order-graph
//! validation.
//!
//! A level problem owns level definitions, field-membership observations and
//! minimum-gap order edges. Validation closes equality transitively across
//! memberships that evaluate the field at one point, rejects a positive order
//! path or distinct fixed values between levels of one equality component,
//! requires the order edges to form a directed acyclic graph, a gauge anchor
//! in every connected component, and some nonzero contrast.
//!
//! Scalars enter as the bit patterns of IEEE-754 double precision values:
//! validation only needs to know whether a value is finite, whether a gap is
//! positive, and whether two values are equal, and all three are exact
//! properties of the bit pattern.
use vstd::prelude::*;

pub mod anchoring;
pub mod compile;
pub mod conflicts;
pub mod forest;
pub mod membership;
pub mod order_graph;
pub mod problem;
pub mod records;
pub mod union_find;

use crate::binary64::{
    binary64_is_finite, binary64_nonnegative_finite, binary64_positive_finite, is_finite_bits,
    is_nonnegative_finite_bits, is_positive_finite_bits,
};
use crate::dimension::{Dim, SupportedDimension};
use crate::problem_ir::{ObservationId, SemanticProvenance, SoftLoss};

verus! {

/// Stable identifier of one geological level.
#[derive(Clone, Copy, Debug, PartialEq, Eq, Structural, Hash, PartialOrd, Ord)]
pub struct LevelId(u64);

impl LevelId {
    /// The caller-controlled value.
    pub closed spec fn spec_identifier(self) -> u64 {
        self.0
    }

    /// Constructs an identifier from a caller-controlled stable value.
    pub fn new(identifier: u64) -> (id: Self)
        ensures
            id.spec_identifier() == identifier,
    {
        LevelId(identifier)
    }

    /// Returns the caller-controlled value.
    pub fn identifier(self) -> (identifier: u64)
        ensures
            identifier == self.spec_identifier(),
    {
        self.0
    }
}

/// The sign bit of an IEEE-754 double.
pub const SIGN_BIT: u64 = 0x8000_0000_0000_0000;

/// A key that is equal for two finite doubles exactly when they are equal:
/// negative zero is keyed as positive zero.
pub open spec fn value_key(bits: u64) -> u64 {
    if bits == SIGN_BIT {
        0
    } else {
        bits
    }
}

/// The equality key of a double's bit pattern.
pub fn key_of(bits: u64) -> (key: u64)
    ensures
        key == value_key(bits),
{
    if bits == SIGN_BIT {
        0
    } else {
        bits
    }
}

/// An explicit soft prior for one unknown level variable: a finite mean, a
/// positive finite residual scale and a valid loss, as binary64 bits.
#[derive(Debug, PartialEq, Eq, Structural, Hash)]
pub struct LevelPrior {
    mean: u64,
    scale: u64,
    loss: SoftLoss,
}

/// Whether prior metadata is valid: a finite mean, a positive finite scale,
/// and a positive finite Huber delta where the loss has one.
pub open spec fn prior_valid(mean: u64, scale: u64, loss: SoftLoss) -> bool {
    &&& binary64_is_finite(mean)
    &&& binary64_positive_finite(scale)
    &&& (loss matches SoftLoss::Huber { delta } ==> binary64_positive_finite(delta))
}

impl LevelPrior {
    #[verifier::type_invariant]
    spec fn inv(self) -> bool {
        prior_valid(self.mean, self.scale, self.loss)
    }

    /// The prior mean, as binary64 bits.
    pub closed spec fn spec_mean(self) -> u64 {
        self.mean
    }

    /// The residual scale, as binary64 bits.
    pub closed spec fn spec_scale(self) -> u64 {
        self.scale
    }

    /// The loss family.
    pub closed spec fn spec_loss(self) -> SoftLoss {
        self.loss
    }

    /// Validates a finite mean, then a positive finite scale, then the loss.
    pub fn try_new(mean: u64, scale: u64, loss: SoftLoss) -> (result: Result<Self, LevelProblemError>)
        ensures
            !binary64_is_finite(mean) ==> result == Err::<Self, LevelProblemError>(
                LevelProblemError::NonFinitePriorMean { value: mean },
            ),
            binary64_is_finite(mean) && !binary64_positive_finite(scale) ==> result == Err::<
                Self,
                LevelProblemError,
            >(LevelProblemError::InvalidPriorScale { value: scale }),
            binary64_is_finite(mean) && binary64_positive_finite(scale) && !prior_valid(mean, scale, loss)
                ==> result == Err::<Self, LevelProblemError>(
                LevelProblemError::InvalidHuberDelta { value: loss->Huber_delta },
            ),
            prior_valid(mean, scale, loss) ==> (result matches Ok(prior) && prior.spec_mean() == mean
                && prior.spec_scale() == scale && prior.spec_loss() == loss),
    {
        if !is_finite_bits(mean) {
            return Err(LevelProblemError::NonFinitePriorMean { value: mean });
        }
        if !is_positive_finite_bits(scale) {
            return Err(LevelProblemError::InvalidPriorScale { value: scale });
        }
        if let SoftLoss::Huber { delta } = loss {
            if !is_positive_finite_bits(delta) {
                return Err(LevelProblemError::InvalidHuberDelta { value: delta });
            }
        }
        Ok(LevelPrior { mean, scale, loss })
    }

    /// Returns the prior mean in scalar-field units.
    pub fn mean(self) -> (mean: u64)
        ensures
            mean == self.spec_mean(),
            binary64_is_finite(mean),
    {
        proof {
            use_type_invariant(&self);
        }
        self.mean
    }

    /// Returns the positive residual scale.
    pub fn scale(self) -> (scale: u64)
        ensures
            scale == self.spec_scale(),
            binary64_positive_finite(scale),
    {
        proof {
            use_type_invariant(&self);
        }
        self.scale
    }

    /// Returns the declared loss family.
    pub fn loss(self) -> (loss: SoftLoss)
        ensures
            loss == self.spec_loss(),
    {
        self.loss
    }
}

impl Clone for LevelPrior {
    fn clone(&self) -> (copy: Self)
        ensures
            copy == *self,
    {
        *self
    }
}

impl Copy for LevelPrior {

}

/// Explicit value policy for one level variable; scalars are given as the
/// bit patterns of doubles.
#[derive(Clone, Copy, Debug, PartialEq, Eq, Structural, Hash)]
pub enum LevelValue {
    /// A hard fixed scalar value.
    Fixed(u64),
    /// An unconstrained scalar value whose gauge must be supplied elsewhere.
    Unknown,
    /// An unknown scalar value carrying an explicit soft prior.
    Prior(LevelPrior),
}

impl LevelValue {
    /// Whether the value anchors the gauge of its component.
    pub open spec fn anchors_gauge(self) -> bool {
        !(self is Unknown)
    }

    /// The equality key of the fixed value or prior mean, if any.
    pub open spec fn anchor_key(self) -> Option<u64> {
        match self {
            LevelValue::Fixed(bits) => Some(value_key(bits)),
            LevelValue::Prior(prior) => Some(value_key(prior.spec_mean())),
            LevelValue::Unknown => None,
        }
    }

    /// Validates and constructs a fixed level value.
    pub fn try_fixed(value: u64) -> (result: Result<Self, LevelProblemError>)
        ensures
            binary64_is_finite(value) ==> result == Ok::<Self, LevelProblemError>(LevelValue::Fixed(value)),
            !binary64_is_finite(value) ==> result == Err::<Self, LevelProblemError>(
                LevelProblemError::NonFiniteFixedValue { value },
            ),
    {
        if !is_finite_bits(value) {
            return Err(LevelProblemError::NonFiniteFixedValue { value });
        }
        Ok(LevelValue::Fixed(value))
    }

    /// Constructs an unknown level value.
    pub fn unknown() -> (value: Self)
        ensures
            value == LevelValue::Unknown,
    {
        LevelValue::Unknown
    }

    /// Returns the hard fixed value, when present.
    pub fn fixed(self) -> (fixed: Option<u64>)
        ensures
            fixed == match self {
                LevelValue::Fixed(bits) => Some(bits),
                _ => None::<u64>,
            },
    {
        match self {
            LevelValue::Fixed(bits) => Some(bits),
            _ => None,
        }
    }

    /// Returns the soft prior, when present.
    pub fn prior(self) -> (prior: Option<LevelPrior>)
        ensures
            prior == match self {
                LevelValue::Prior(prior) => Some(prior),
                _ => None::<LevelPrior>,
            },
    {
        match self {
            LevelValue::Prior(prior) => Some(prior),
            _ => None,
        }
    }

    /// Returns whether the value anchors the gauge of its component.
    pub fn is_anchor(self) -> (anchors: bool)
        ensures
            anchors == self.anchors_gauge(),
    {
        match self {
            LevelValue::Unknown => false,
            _ => true,
        }
    }

    /// Returns the equality key of the fixed value or prior mean, if any.
    pub fn anchor(self) -> (key: Option<u64>)
        ensures
            key == self.anchor_key(),
    {
        match self {
            LevelValue::Fixed(bits) => Some(key_of(bits)),
            LevelValue::Prior(prior) => Some(key_of(prior.mean)),
            LevelValue::Unknown => None,
        }
    }
}

/// One stable level definition and its source provenance.
#[derive(Clone, Debug)]
pub struct LevelDefinition {
    /// Stable level identifier.
    pub level_id: LevelId,
    /// Explicit value policy.
    pub value: LevelValue,
    /// Definition provenance.
    pub provenance: SemanticProvenance,
}

impl LevelDefinition {
    /// Constructs a level definition; validation happens when a problem is
    /// assembled.
    pub fn new(level_id: LevelId, value: LevelValue, provenance: SemanticProvenance) -> (definition: Self)
        ensures
            definition.level_id == level_id,
            definition.value == value,
            definition.provenance == provenance,
    {
        LevelDefinition { level_id, value, provenance }
    }

    /// Returns the stable level identifier.
    pub fn level_id(&self) -> (id: LevelId)
        ensures
            id == self.level_id,
    {
        self.level_id
    }

    /// Returns the explicit value policy.
    pub fn value(&self) -> (value: LevelValue)
        ensures
            value == self.value,
    {
        self.value
    }

    /// Borrows the definition provenance.
    pub fn provenance(&self) -> (provenance: &SemanticProvenance)
        ensures
            *provenance == self.provenance,
    {
        &self.provenance
    }
}

/// The field functional of a membership, as far as validation reads it:
/// whether it is exactly one unit-coefficient scalar-field value, and the
/// coordinates (double bit patterns, negative zero written as zero) of the
/// point where it evaluates the field.
#[derive(Clone, Copy, Debug)]
pub struct MembershipFunctional<const D: usize> {
    /// Whether the functional is one value term with coefficient exactly one.
    pub unit_value: bool,
    /// Coordinates of the evaluation point.
    pub point: [u64; D],
}

impl<const D: usize> MembershipFunctional<D> {
    /// Records a functional; coordinates are keyed so that equal doubles
    /// give equal coordinates.
    pub fn new(unit_value: bool, point: [u64; D]) -> (functional: Self)
        ensures
            functional.unit_value == unit_value,
            functional.point@.len() == D,
            forall|axis: int| 0 <= axis < D ==> #[trigger] functional.point@[axis] == value_key(point@[axis]),
    {
        let mut keyed = point;
        let mut axis: usize = 0;
        while axis < D
            invariant
                axis <= D,
                keyed@.len() == D,
                point@.len() == D,
                forall|i: int| 0 <= i < axis ==> #[trigger] keyed@[i] == value_key(point@[i]),
                forall|i: int| axis <= i < D ==> #[trigger] keyed@[i] == point@[i],
            decreases D - axis,
        {
            let key = key_of(keyed[axis]);
            keyed[axis] = key;
            axis = axis + 1;
        }
        MembershipFunctional { unit_value, point: keyed }
    }
}

/// One hard field-to-level membership `f(x) - h_k = 0`.
#[derive(Clone, Debug)]
pub struct LevelMembership<const D: usize> where Dim<D>: SupportedDimension<D> {
    level_id: LevelId,
    functional: MembershipFunctional<D>,
    provenance: SemanticProvenance,
}

impl<const D: usize> LevelMembership<D> where Dim<D>: SupportedDimension<D> {
    /// The referenced level.
    pub closed spec fn spec_level_id(self) -> LevelId {
        self.level_id
    }

    /// The field functional.
    pub closed spec fn spec_functional(self) -> MembershipFunctional<D> {
        self.functional
    }

    /// The membership provenance.
    pub closed spec fn spec_provenance(self) -> SemanticProvenance {
        self.provenance
    }

    /// Constructs a membership from a field functional; only one
    /// unit-coefficient value term is accepted when a problem is assembled.
    pub fn new(level_id: LevelId, functional: MembershipFunctional<D>, provenance: SemanticProvenance) -> (membership: Self)
        ensures
            membership.spec_level_id() == level_id,
            membership.spec_functional() == functional,
            membership.spec_provenance() == provenance,
    {
        LevelMembership { level_id, functional, provenance }
    }

    /// Returns the referenced level.
    pub fn level_id(&self) -> (id: LevelId)
        ensures
            id == self.spec_level_id(),
    {
        self.level_id
    }

    /// Borrows the field functional.
    pub fn functional(&self) -> (functional: &MembershipFunctional<D>)
        ensures
            *functional == self.spec_functional(),
    {
        &self.functional
    }

    /// Borrows complete membership provenance.
    pub fn provenance(&self) -> (provenance: &SemanticProvenance)
        ensures
            *provenance == self.spec_provenance(),
    {
        &self.provenance
    }
}

/// One directed minimum-gap edge `h_upper - h_lower >= minimum_gap`.
#[derive(Clone, Debug)]
pub struct LevelOrder {
    lower: LevelId,
    upper: LevelId,
    minimum_gap: u64,
    provenance: SemanticProvenance,
}

impl LevelOrder {
    /// The lower level.
    pub closed spec fn spec_lower(self) -> LevelId {
        self.lower
    }

    /// The upper level.
    pub closed spec fn spec_upper(self) -> LevelId {
        self.upper
    }

    /// The bit pattern of the minimum gap.
    pub closed spec fn spec_minimum_gap(self) -> u64 {
        self.minimum_gap
    }

    /// The edge provenance.
    pub closed spec fn spec_provenance(self) -> SemanticProvenance {
        self.provenance
    }

    /// Validates and constructs an order edge: a self edge is rejected with
    /// `SelfOrderEdge`, then a gap that is not finite and nonnegative with
    /// `InvalidMinimumGap`.
    pub fn try_new(lower: LevelId, upper: LevelId, minimum_gap: u64, provenance: SemanticProvenance) -> (result: Result<
        Self,
        LevelProblemError,
    >)
        ensures
            lower == upper ==> result == Err::<Self, LevelProblemError>(
                LevelProblemError::SelfOrderEdge { level_id: lower },
            ),
            lower != upper && !binary64_nonnegative_finite(minimum_gap) ==> result == Err::<
                Self,
                LevelProblemError,
            >(LevelProblemError::InvalidMinimumGap { minimum_gap }),
            lower != upper && binary64_nonnegative_finite(minimum_gap) ==> (result matches Ok(order)
                && order.spec_lower() == lower && order.spec_upper() == upper
                && order.spec_minimum_gap() == minimum_gap && order.spec_provenance() == provenance),
    {
        if lower == upper {
            return Err(LevelProblemError::SelfOrderEdge { level_id: lower });
        }
        if !is_nonnegative_finite_bits(minimum_gap) {
            return Err(LevelProblemError::InvalidMinimumGap { minimum_gap });
        }
        Ok(LevelOrder { lower, upper, minimum_gap, provenance })
    }

    /// Returns the lower level identifier.
    pub fn lower(&self) -> (lower: LevelId)
        ensures
            lower == self.spec_lower(),
    {
        self.lower
    }

    /// Returns the upper level identifier.
    pub fn upper(&self) -> (upper: LevelId)
        ensures
            upper == self.spec_upper(),
    {
        self.upper
    }

    /// Returns the bit pattern of the finite nonnegative minimum gap.
    pub fn minimum_gap(&self) -> (gap: u64)
        ensures
            gap == self.spec_minimum_gap(),
    {
        self.minimum_gap
    }

    /// Returns whether the minimum gap is greater than zero.
    pub fn has_positive_gap(&self) -> (positive: bool)
        ensures
            positive == binary64_positive_finite(self.spec_minimum_gap()),
    {
        is_positive_finite_bits(self.minimum_gap)
    }

    /// Borrows complete order-edge provenance.
    pub fn provenance(&self) -> (provenance: &SemanticProvenance)
        ensures
            *provenance == self.spec_provenance(),
    {
        &self.provenance
    }
}

/// Deterministic validation evidence retained by a level problem.
#[derive(Clone, Debug)]
pub struct LevelProblemDiagnostics {
    topological_order: Vec<LevelId>,
    gauge_anchor_count: usize,
}

impl LevelProblemDiagnostics {
    /// The deterministic topological level order.
    pub closed spec fn spec_topological_order(self) -> Seq<LevelId> {
        self.topological_order@
    }

    /// The number of fixed or prior gauge anchors.
    pub closed spec fn spec_gauge_anchor_count(self) -> nat {
        self.gauge_anchor_count as nat
    }

    /// Borrows the deterministic topological level order.
    pub fn topological_order(&self) -> (order: &[LevelId])
        ensures
            order@ == self.spec_topological_order(),
    {
        self.topological_order.as_slice()
    }

    /// Returns the number of fixed or prior gauge anchors.
    pub fn gauge_anchor_count(&self) -> (count: usize)
        ensures
            count == self.spec_gauge_anchor_count(),
    {
        self.gauge_anchor_count
    }
}

/// Allocation category for level semantic and canonical storage.
#[derive(Clone, Copy, Debug, PartialEq, Eq, Structural, Hash)]
pub enum LevelStorage {
    /// Level definitions.
    Definitions,
    /// Membership observations.
    Memberships,
    /// Order edges.
    Orders,
    /// Temporary membership-to-level indices.
    MembershipIndices,
    /// Temporary order endpoint indices.
    OrderIndices,
    /// Deterministic topological order.
    TopologicalOrder,
    /// Graph work vectors.
    GraphWork,
    /// Source paths for a structured conflict.
    ConflictSources,
    /// Caller field blocks plus the level block.
    VariableBlocks,
    /// Canonical equality rows.
    CanonicalEqualities,
    /// Canonical linear-bound rows.
    CanonicalLinearBounds,
    /// Sparse affine terms.
    AffineTerms,
    /// Explicit canonical prior metadata.
    CanonicalPriors,
    /// Stable compiled level identifiers.
    CompiledLevelIds,
}

/// The outcome of the fixed-order path check, which sums order gaps as
/// binary64 magnitudes: two fixed levels joined by an order path whose
/// longest accumulated minimum gap exceeds their fixed difference.
#[derive(Clone, Debug, PartialEq, Eq)]
pub struct FixedOrderConflict {
    /// Fixed lower level.
    pub lower: LevelId,
    /// Fixed upper level.
    pub upper: LevelId,
    /// Longest required path gap, as binary64 bits.
    pub required_gap: u64,
    /// Actual fixed endpoint gap, as binary64 bits.
    pub fixed_gap: u64,
    /// The lower level's definition, every path edge, the upper level's definition.
    pub sources: Vec<ObservationId>,
}

/// Error returned while validating level semantics. Evidence lists the
/// observation identifiers of the records involved, in order.
#[derive(Clone, Debug, PartialEq, Eq)]
#[non_exhaustive]
pub enum LevelProblemError {
    /// Fewer than two distinct levels were supplied.
    InsufficientLevels {
        /// Supplied definition count.
        count: usize,
    },
    /// No field membership was supplied.
    EmptyMemberships,
    /// Two definitions used one stable level identifier.
    DuplicateLevelId {
        /// Duplicated identifier.
        level_id: LevelId,
    },
    /// Two semantic records used one observation identifier.
    DuplicateObservationId {
        /// Duplicated identifier.
        observation_id: ObservationId,
    },
    /// A membership or order referenced an undefined level.
    UndefinedLevel {
        /// Missing identifier.
        level_id: LevelId,
        /// Source record identifier.
        observation_id: ObservationId,
    },
    /// A fixed scalar was not finite.
    NonFiniteFixedValue {
        /// Bit pattern of the rejected value.
        value: u64,
    },
    /// A prior mean was not finite.
    NonFinitePriorMean {
        /// Bit pattern of the rejected value.
        value: u64,
    },
    /// A prior scale was not finite and positive.
    InvalidPriorScale {
        /// Bit pattern of the rejected value.
        value: u64,
    },
    /// A prior Huber transition was not finite and positive.
    InvalidHuberDelta {
        /// Bit pattern of the rejected value.
        value: u64,
    },
    /// An order edge referenced the same endpoint twice.
    SelfOrderEdge {
        /// Repeated level identifier.
        level_id: LevelId,
    },
    /// An order gap was negative or non-finite.
    InvalidMinimumGap {
        /// Bit pattern of the rejected gap.
        minimum_gap: u64,
    },
    /// A membership was not exactly one unit-weight scalar-field value.
    InvalidMembershipFunctional {
        /// Source membership identifier.
        observation_id: ObservationId,
    },
    /// An unknown level had neither membership nor order edge.
    IsolatedUnknownLevel {
        /// Isolated identifier.
        level_id: LevelId,
    },
    /// Order edges contained a directed cycle.
    OrderCycle {
        /// Order edges on the unresolved cyclic subgraph.
        sources: Vec<ObservationId>,
    },
    /// Two membership-equality-coupled levels required different fixed values.
    FixedMembershipConflict {
        /// First fixed level.
        first_level: LevelId,
        /// Second fixed level.
        second_level: LevelId,
        /// First level, the chain of memberships, second level, last membership.
        sources: Vec<ObservationId>,
    },
    /// Membership-equality-coupled levels contradicted a positive order path.
    MembershipOrderConflict {
        /// Lower level on the conflicting order path.
        lower: LevelId,
        /// Upper level on the conflicting order path.
        upper: LevelId,
        /// The equality-chain memberships, every path edge, the last membership.
        sources: Vec<ObservationId>,
    },
    /// A transitive minimum-gap path contradicted fixed endpoints.
    FixedOrderConflict {
        /// Fixed lower level.
        lower: LevelId,
        /// Fixed upper level.
        upper: LevelId,
        /// Longest required path gap, as binary64 bits.
        required_gap: u64,
        /// Actual fixed endpoint gap, as binary64 bits.
        fixed_gap: u64,
        /// The lower level's definition, every path edge, the upper level's definition.
        sources: Vec<ObservationId>,
    },
    /// One or more connected components lacked a fixed value or prior.
    MissingGauge {
        /// Number of connected components without an anchor.
        ungauged_components: usize,
    },
    /// The level system imposed no nonzero contrast.
    MissingContrast {
        /// The level of the first membership.
        first_level: LevelId,
        /// Another level tied to the field, if any.
        second_level: Option<LevelId>,
    },
    /// Storage could not be reserved.
    AllocationFailed {
        /// Storage category.
        storage: LevelStorage,
        /// Requested entry count.
        requested: usize,
    },
    /// A checked graph or record count overflowed `usize`.
    CountOverflow,
}

} // verus!
