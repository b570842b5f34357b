//! Provenance-bearing linear constraints on observation functionals: their
//! construction rules and the one-sided or two-sided bounds they lower to.
//!
//! A constraint is generic over the functional it constrains; thresholds are
//! binary64 values carried as bit patterns.
use vstd::prelude::*;

use crate::binary64::{
    binary64_is_finite, binary64_negated, binary64_nonnegative_finite, binary64_order_key,
    is_finite_bits, is_nonnegative_finite_bits, negated_bits, order_key,
};
use crate::problem_ir::semantic::linear_bound_check;
use crate::problem_ir::{
    Enforcement, ProblemIrError, SemanticConstraint, SemanticExpression, SemanticProvenance, SemanticRelation,
};

verus! {

/// Which closed side of an explicitly oriented scalar boundary is observed.
#[derive(Clone, Copy, Debug, PartialEq, Eq, Structural, Hash)]
pub enum RegionSide {
    /// The observation lies on the declared inside side or on the boundary.
    Inside,
    /// The observation lies on the declared outside side or on the boundary.
    Outside,
}

/// Explicit scalar-field orientation used to interpret inside and outside.
#[derive(Clone, Copy, Debug, PartialEq, Eq, Structural, Hash)]
pub enum InsideOrientation {
    /// Inside values are less than or equal to the boundary value.
    InsideAtOrBelow,
    /// Inside values are greater than or equal to the boundary value.
    InsideAtOrAbove,
}

/// Directional monotonicity sense along a functional's unit direction.
#[derive(Clone, Copy, Debug, PartialEq, Eq, Structural, Hash)]
pub enum MonotonicitySense {
    /// Require `u^T grad f` to be at least the nonnegative minimum rate.
    Increasing,
    /// Require `u^T grad f` to be at most the negative minimum rate.
    Decreasing,
}

/// What monotonicity validation reads of a derivative functional: its term
/// count, the coefficient of its first term (binary64 bits) and whether that
/// term's atom is a directional derivative.
#[derive(Clone, Copy, Debug, PartialEq, Eq, Structural, Hash)]
pub struct FunctionalShape {
    /// Number of terms.
    pub term_count: usize,
    /// Coefficient of the first term, as binary64 bits.
    pub first_coefficient: u64,
    /// Whether the first term's atom is a directional derivative.
    pub first_is_directional_derivative: bool,
}

/// The bit pattern of the binary64 value one.
pub const ONE_BITS: u64 = 0x3ff0_0000_0000_0000;

/// The kind of relation a linear constraint states, with its functionals
/// and thresholds.
#[derive(Clone, Debug, PartialEq, Eq)]
pub enum LinearConstraintKind<F> {
    /// `functional >= minimum`.
    Lower { functional: F, minimum: u64 },
    /// `functional <= maximum`.
    Upper { functional: F, maximum: u64 },
    /// `lower <= functional <= upper`.
    Interval { functional: F, lower: u64, upper: u64 },
    /// A closed side of an oriented boundary.
    Region { functional: F, boundary: u64, side: RegionSide, orientation: InsideOrientation },
    /// `upper - lower >= minimum_gap`.
    ScalarGap { lower: F, upper: F, minimum_gap: u64 },
    /// Directional monotonicity with a minimum rate.
    Monotonicity { derivative: F, sense: MonotonicitySense, minimum_rate: u64 },
}

/// Error returned while validating or lowering linear semantics.
#[derive(Clone, Debug, PartialEq, Eq)]
#[non_exhaustive]
pub enum LinearConstraintError {
    /// A threshold or interval endpoint was NaN or infinite.
    NonFiniteThreshold {
        /// Rejected scalar, as binary64 bits.
        value: u64,
    },
    /// A closed interval had `lower > upper`.
    ReversedInterval {
        /// Lower endpoint, as binary64 bits.
        lower: u64,
        /// Upper endpoint, as binary64 bits.
        upper: u64,
    },
    /// A scalar minimum gap was negative or non-finite.
    InvalidMinimumGap {
        /// Rejected gap, as binary64 bits.
        minimum_gap: u64,
    },
    /// A directional minimum rate was negative or non-finite.
    InvalidMinimumRate {
        /// Rejected rate, as binary64 bits.
        minimum_rate: u64,
    },
    /// Monotonicity used something other than one functional term.
    InvalidMonotonicityTermCount {
        /// Supplied term count.
        count: usize,
    },
    /// Monotonicity's sole functional coefficient was not exactly one.
    InvalidMonotonicityCoefficient {
        /// Rejected coefficient, as binary64 bits.
        coefficient: u64,
    },
    /// Monotonicity used a value atom instead of a directional derivative.
    MonotonicityRequiresDirectionalDerivative,
    /// Combining two functional term counts overflowed `usize`.
    TermCountOverflow,
    /// Scalar-gap term storage could not be reserved.
    AllocationFailed {
        /// Exact requested term count.
        requested: usize,
    },
    /// Shared semantic IR validation failed.
    Ir(ProblemIrError),
}

/// One validated provenance-bearing semantic linear constraint.
#[derive(Clone, Debug)]
pub struct LinearConstraint<F> {
    provenance: SemanticProvenance,
    enforcement: Enforcement,
    kind: LinearConstraintKind<F>,
}

/// A threshold is accepted when it is finite.
fn validate_threshold(value: u64) -> (result: Result<(), LinearConstraintError>)
    ensures
        binary64_is_finite(value) ==> result is Ok,
        !binary64_is_finite(value) ==> result == Err::<(), LinearConstraintError>(
            LinearConstraintError::NonFiniteThreshold { value },
        ),
{
    if is_finite_bits(value) {
        Ok(())
    } else {
        Err(LinearConstraintError::NonFiniteThreshold { value })
    }
}

/// Enforcement metadata errors, wrapped.
fn validate_enforcement(enforcement: Enforcement) -> (result: Result<(), LinearConstraintError>)
    ensures
        enforcement.spec_valid() ==> result is Ok,
        !enforcement.spec_valid() ==> (result matches Err(LinearConstraintError::Ir(source)) && Err::<
            (),
            ProblemIrError,
        >(source) == enforcement.spec_validate()),
{
    match enforcement.validate() {
        Ok(()) => Ok(()),
        Err(source) => Err(LinearConstraintError::Ir(source)),
    }
}

/// Whether a functional's shape is the one monotonicity needs.
pub open spec fn monotonicity_shape_error(shape: FunctionalShape) -> Option<LinearConstraintError> {
    if shape.term_count != 1 {
        Some(LinearConstraintError::InvalidMonotonicityTermCount { count: shape.term_count })
    } else if shape.first_coefficient != ONE_BITS {
        Some(
            LinearConstraintError::InvalidMonotonicityCoefficient {
                coefficient: shape.first_coefficient,
            },
        )
    } else if !shape.first_is_directional_derivative {
        Some(LinearConstraintError::MonotonicityRequiresDirectionalDerivative)
    } else {
        None
    }
}

/// Checks that a derivative functional is exactly one coefficient-one
/// directional-derivative term.
pub fn validate_monotonicity_functional(shape: FunctionalShape) -> (result: Result<(), LinearConstraintError>)
    ensures
        match monotonicity_shape_error(shape) {
            None => result is Ok,
            Some(error) => result == Err::<(), LinearConstraintError>(error),
        },
{
    if shape.term_count != 1 {
        return Err(LinearConstraintError::InvalidMonotonicityTermCount { count: shape.term_count });
    }
    if shape.first_coefficient != ONE_BITS {
        return Err(
            LinearConstraintError::InvalidMonotonicityCoefficient {
                coefficient: shape.first_coefficient,
            },
        );
    }
    if !shape.first_is_directional_derivative {
        return Err(LinearConstraintError::MonotonicityRequiresDirectionalDerivative);
    }
    Ok(())
}

/// The term count of a scalar-gap functional, `upper - lower`: the two
/// counts added, or `TermCountOverflow`.
pub fn gap_term_count(lower_terms: usize, upper_terms: usize) -> (result: Result<usize, LinearConstraintError>)
    ensures
        lower_terms + upper_terms <= usize::MAX ==> result == Ok::<usize, LinearConstraintError>(
            (lower_terms + upper_terms) as usize,
        ),
        lower_terms + upper_terms > usize::MAX ==> result == Err::<usize, LinearConstraintError>(
            LinearConstraintError::TermCountOverflow,
        ),
{
    match lower_terms.checked_add(upper_terms) {
        Some(count) => Ok(count),
        None => Err(LinearConstraintError::TermCountOverflow),
    }
}

/// Whether a region constraint bounds its functional from above: the inside
/// side of an at-or-below orientation, or the outside side of an at-or-above
/// one.
pub open spec fn spec_region_uses_upper_bound(side: RegionSide, orientation: InsideOrientation) -> bool {
    (side == RegionSide::Inside) == (orientation == InsideOrientation::InsideAtOrBelow)
}

/// Decides which side of a region constraint's functional the boundary bounds.
pub fn region_uses_upper_bound(side: RegionSide, orientation: InsideOrientation) -> (upper: bool)
    ensures
        upper == spec_region_uses_upper_bound(side, orientation),
{
    let inside_is_lower = orientation == InsideOrientation::InsideAtOrBelow;
    (side == RegionSide::Inside) == inside_is_lower
}

/// Observing the other side of the same boundary, or reversing the
/// orientation, moves the bound to the other side of the functional; doing
/// both keeps it.
pub proof fn lemma_region_side_and_orientation_flip(side: RegionSide, orientation: InsideOrientation)
    ensures
        spec_region_uses_upper_bound(side, orientation) != spec_region_uses_upper_bound(
            if side == RegionSide::Inside {
                RegionSide::Outside
            } else {
                RegionSide::Inside
            },
            orientation,
        ),
        spec_region_uses_upper_bound(side, orientation) != spec_region_uses_upper_bound(
            side,
            if orientation == InsideOrientation::InsideAtOrBelow {
                InsideOrientation::InsideAtOrAbove
            } else {
                InsideOrientation::InsideAtOrBelow
            },
        ),
{
}

/// The lower and upper bounds a constraint kind lowers to.
pub open spec fn kind_bounds<F>(kind: LinearConstraintKind<F>) -> (Option<u64>, Option<u64>) {
    match kind {
        LinearConstraintKind::Lower { minimum, .. } => (Some(minimum), None),
        LinearConstraintKind::Upper { maximum, .. } => (None, Some(maximum)),
        LinearConstraintKind::Interval { lower, upper, .. } => (Some(lower), Some(upper)),
        LinearConstraintKind::Region { boundary, side, orientation, .. } => if spec_region_uses_upper_bound(
            side,
            orientation,
        ) {
            (None, Some(boundary))
        } else {
            (Some(boundary), None)
        },
        LinearConstraintKind::ScalarGap { minimum_gap, .. } => (Some(minimum_gap), None),
        LinearConstraintKind::Monotonicity { sense, minimum_rate, .. } => match sense {
            MonotonicitySense::Increasing => (Some(minimum_rate), None),
            MonotonicitySense::Decreasing => (None, Some(binary64_negated(minimum_rate))),
        },
    }
}

/// Every constraint kind lowers to at least one bound.
pub proof fn lemma_kind_bounds_present<F>(kind: LinearConstraintKind<F>)
    ensures
        kind_bounds(kind).0 is Some || kind_bounds(kind).1 is Some,
{
}

impl<F> LinearConstraint<F> {
    /// The relation this constraint states.
    pub closed spec fn spec_kind(&self) -> LinearConstraintKind<F> {
        self.kind
    }

    /// The constraint's provenance.
    pub closed spec fn spec_provenance(&self) -> SemanticProvenance {
        self.provenance
    }

    /// The constraint's enforcement.
    pub closed spec fn spec_enforcement(&self) -> Enforcement {
        self.enforcement
    }

    /// Constructs `functional >= minimum`; rejects a non-finite minimum, then
    /// invalid enforcement metadata.
    pub fn try_lower(
        provenance: SemanticProvenance,
        functional: F,
        minimum: u64,
        enforcement: Enforcement,
    ) -> (result: Result<Self, LinearConstraintError>)
        ensures
            !binary64_is_finite(minimum) ==> (result matches Err(
                LinearConstraintError::NonFiniteThreshold { value },
            ) && value == minimum),
            binary64_is_finite(minimum) && !enforcement.spec_valid() ==> (result matches Err(
                LinearConstraintError::Ir(source),
            ) && Err::<(), ProblemIrError>(source) == enforcement.spec_validate()),
            binary64_is_finite(minimum) && enforcement.spec_valid() ==> (result matches Ok(c) && c.spec_kind()
                == LinearConstraintKind::Lower { functional, minimum } && c.spec_provenance()
                == provenance && c.spec_enforcement() == enforcement),
    {
        validate_threshold(minimum)?;
        validate_enforcement(enforcement)?;
        Ok(LinearConstraint { provenance, enforcement, kind: LinearConstraintKind::Lower { functional, minimum } })
    }

    /// Constructs `functional <= maximum`; rejects a non-finite maximum, then
    /// invalid enforcement metadata.
    pub fn try_upper(
        provenance: SemanticProvenance,
        functional: F,
        maximum: u64,
        enforcement: Enforcement,
    ) -> (result: Result<Self, LinearConstraintError>)
        ensures
            !binary64_is_finite(maximum) ==> (result matches Err(
                LinearConstraintError::NonFiniteThreshold { value },
            ) && value == maximum),
            binary64_is_finite(maximum) && !enforcement.spec_valid() ==> (result matches Err(
                LinearConstraintError::Ir(source),
            ) && Err::<(), ProblemIrError>(source) == enforcement.spec_validate()),
            binary64_is_finite(maximum) && enforcement.spec_valid() ==> (result matches Ok(c) && c.spec_kind()
                == LinearConstraintKind::Upper { functional, maximum } && c.spec_provenance()
                == provenance && c.spec_enforcement() == enforcement),
    {
        validate_threshold(maximum)?;
        validate_enforcement(enforcement)?;
        Ok(LinearConstraint { provenance, enforcement, kind: LinearConstraintKind::Upper { functional, maximum } })
    }

    /// Constructs `lower <= functional <= upper`; rejects a non-finite lower
    /// endpoint, a non-finite upper endpoint, a reversed interval, then
    /// invalid enforcement metadata.
    pub fn try_interval(
        provenance: SemanticProvenance,
        functional: F,
        lower: u64,
        upper: u64,
        enforcement: Enforcement,
    ) -> (result: Result<Self, LinearConstraintError>)
        ensures
            !binary64_is_finite(lower) ==> (result matches Err(
                LinearConstraintError::NonFiniteThreshold { value },
            ) && value == lower),
            binary64_is_finite(lower) && !binary64_is_finite(upper) ==> (result matches Err(
                LinearConstraintError::NonFiniteThreshold { value },
            ) && value == upper),
            binary64_is_finite(lower) && binary64_is_finite(upper) && binary64_order_key(lower)
                > binary64_order_key(upper) ==> result matches Err(
                LinearConstraintError::ReversedInterval { .. },
            ),
            (result matches Err(LinearConstraintError::ReversedInterval { lower: l, upper: u }) ==> l
                == lower && u == upper),
            binary64_is_finite(lower) && binary64_is_finite(upper) && binary64_order_key(lower)
                <= binary64_order_key(upper) && !enforcement.spec_valid() ==> (result matches Err(
                LinearConstraintError::Ir(source),
            ) && Err::<(), ProblemIrError>(source) == enforcement.spec_validate()),
            binary64_is_finite(lower) && binary64_is_finite(upper) && binary64_order_key(lower)
                <= binary64_order_key(upper) && enforcement.spec_valid() ==> (result matches Ok(c)
                && c.spec_kind() == LinearConstraintKind::Interval { functional, lower, upper }
                && c.spec_provenance() == provenance && c.spec_enforcement() == enforcement),
    {
        validate_threshold(lower)?;
        validate_threshold(upper)?;
        if order_key(lower) > order_key(upper) {
            return Err(LinearConstraintError::ReversedInterval { lower, upper });
        }
        validate_enforcement(enforcement)?;
        Ok(
            LinearConstraint {
                provenance,
                enforcement,
                kind: LinearConstraintKind::Interval { functional, lower, upper },
            },
        )
    }

    /// Constructs a closed inside/outside constraint relative to an explicit
    /// scalar orientation and boundary value; rejects a non-finite boundary,
    /// then invalid enforcement metadata.
    pub fn try_region(
        provenance: SemanticProvenance,
        functional: F,
        boundary: u64,
        side: RegionSide,
        orientation: InsideOrientation,
        enforcement: Enforcement,
    ) -> (result: Result<Self, LinearConstraintError>)
        ensures
            !binary64_is_finite(boundary) ==> (result matches Err(
                LinearConstraintError::NonFiniteThreshold { value },
            ) && value == boundary),
            binary64_is_finite(boundary) && !enforcement.spec_valid() ==> (result matches Err(
                LinearConstraintError::Ir(source),
            ) && Err::<(), ProblemIrError>(source) == enforcement.spec_validate()),
            binary64_is_finite(boundary) && enforcement.spec_valid() ==> (result matches Ok(c)
                && c.spec_kind() == LinearConstraintKind::Region {
                functional,
                boundary,
                side,
                orientation,
            } && c.spec_provenance() == provenance && c.spec_enforcement() == enforcement),
    {
        validate_threshold(boundary)?;
        validate_enforcement(enforcement)?;
        Ok(
            LinearConstraint {
                provenance,
                enforcement,
                kind: LinearConstraintKind::Region { functional, boundary, side, orientation },
            },
        )
    }

    /// Constructs `upper - lower >= minimum_gap`; rejects a negative or
    /// non-finite gap, then invalid enforcement metadata.
    pub fn try_scalar_gap(
        provenance: SemanticProvenance,
        lower: F,
        upper: F,
        minimum_gap: u64,
        enforcement: Enforcement,
    ) -> (result: Result<Self, LinearConstraintError>)
        ensures
            !binary64_nonnegative_finite(minimum_gap) ==> (result matches Err(
                LinearConstraintError::InvalidMinimumGap { minimum_gap: gap },
            ) && gap == minimum_gap),
            binary64_nonnegative_finite(minimum_gap) && !enforcement.spec_valid() ==> (result matches Err(
                LinearConstraintError::Ir(source),
            ) && Err::<(), ProblemIrError>(source) == enforcement.spec_validate()),
            binary64_nonnegative_finite(minimum_gap) && enforcement.spec_valid() ==> (result matches Ok(c)
                && c.spec_kind() == LinearConstraintKind::ScalarGap { lower, upper, minimum_gap }
                && c.spec_provenance() == provenance && c.spec_enforcement() == enforcement),
    {
        if !is_nonnegative_finite_bits(minimum_gap) {
            return Err(LinearConstraintError::InvalidMinimumGap { minimum_gap });
        }
        validate_enforcement(enforcement)?;
        Ok(
            LinearConstraint {
                provenance,
                enforcement,
                kind: LinearConstraintKind::ScalarGap { lower, upper, minimum_gap },
            },
        )
    }

    /// Constructs directional monotonicity from exactly one coefficient-one
    /// directional-derivative atom, described by `shape`; rejects a negative
    /// or non-finite minimum rate, then any other functional shape, then
    /// invalid enforcement metadata.
    pub fn try_monotonicity(
        provenance: SemanticProvenance,
        derivative: F,
        shape: FunctionalShape,
        sense: MonotonicitySense,
        minimum_rate: u64,
        enforcement: Enforcement,
    ) -> (result: Result<Self, LinearConstraintError>)
        ensures
            !binary64_nonnegative_finite(minimum_rate) ==> (result matches Err(
                LinearConstraintError::InvalidMinimumRate { minimum_rate: rate },
            ) && rate == minimum_rate),
            binary64_nonnegative_finite(minimum_rate) && monotonicity_shape_error(shape) is Some ==> result
                == Err::<Self, LinearConstraintError>(monotonicity_shape_error(shape)->Some_0),
            binary64_nonnegative_finite(minimum_rate) && monotonicity_shape_error(shape) is None
                && !enforcement.spec_valid() ==> (result matches Err(LinearConstraintError::Ir(source))
                && Err::<(), ProblemIrError>(source) == enforcement.spec_validate()),
            binary64_nonnegative_finite(minimum_rate) && monotonicity_shape_error(shape) is None
                && enforcement.spec_valid() ==> (result matches Ok(c) && c.spec_kind()
                == LinearConstraintKind::Monotonicity { derivative, sense, minimum_rate }
                && c.spec_provenance() == provenance && c.spec_enforcement() == enforcement),
    {
        if !is_nonnegative_finite_bits(minimum_rate) {
            return Err(LinearConstraintError::InvalidMinimumRate { minimum_rate });
        }
        validate_monotonicity_functional(shape)?;
        validate_enforcement(enforcement)?;
        Ok(
            LinearConstraint {
                provenance,
                enforcement,
                kind: LinearConstraintKind::Monotonicity { derivative, sense, minimum_rate },
            },
        )
    }

    /// Borrows complete semantic provenance.
    pub fn provenance(&self) -> (provenance: &SemanticProvenance)
        ensures
            *provenance == self.spec_provenance(),
    {
        &self.provenance
    }

    /// Returns explicit hard or soft enforcement metadata.
    pub fn enforcement(&self) -> (enforcement: Enforcement)
        ensures
            enforcement == self.spec_enforcement(),
    {
        self.enforcement
    }

    /// Borrows the relation this constraint states.
    pub fn kind(&self) -> (kind: &LinearConstraintKind<F>)
        ensures
            *kind == self.spec_kind(),
    {
        &self.kind
    }

    /// The lower and upper bounds of the linear-bound relation this
    /// constraint lowers to: a decreasing monotonicity bounds its derivative
    /// above by the negated rate, a region by the side its orientation picks.
    pub fn lowered_bounds(&self) -> (bounds: (Option<u64>, Option<u64>))
        ensures
            bounds == kind_bounds(self.spec_kind()),
    {
        match &self.kind {
            LinearConstraintKind::Lower { minimum, .. } => (Some(*minimum), None),
            LinearConstraintKind::Upper { maximum, .. } => (None, Some(*maximum)),
            LinearConstraintKind::Interval { lower, upper, .. } => (Some(*lower), Some(*upper)),
            LinearConstraintKind::Region { boundary, side, orientation, .. } => {
                if region_uses_upper_bound(*side, *orientation) {
                    (None, Some(*boundary))
                } else {
                    (Some(*boundary), None)
                }
            },
            LinearConstraintKind::ScalarGap { minimum_gap, .. } => (Some(*minimum_gap), None),
            LinearConstraintKind::Monotonicity { sense, minimum_rate, .. } => match sense {
                MonotonicitySense::Increasing => (Some(*minimum_rate), None),
                MonotonicitySense::Decreasing => (None, Some(negated_bits(*minimum_rate))),
            },
        }
    }
}

/// The functional a constraint kind bounds; a scalar gap bounds the
/// difference of its two functionals, which is formed outside the kind.
pub open spec fn kind_functional<F>(kind: LinearConstraintKind<F>) -> Option<F> {
    match kind {
        LinearConstraintKind::Lower { functional, .. } => Some(functional),
        LinearConstraintKind::Upper { functional, .. } => Some(functional),
        LinearConstraintKind::Interval { functional, .. } => Some(functional),
        LinearConstraintKind::Region { functional, .. } => Some(functional),
        LinearConstraintKind::ScalarGap { .. } => None,
        LinearConstraintKind::Monotonicity { derivative, .. } => Some(derivative),
    }
}

/// What lowering gives: the bounds' validation error, then the
/// enforcement's; else a semantic linear bound on `functional` with a zero
/// constant and the kind's bounds, keeping provenance and enforcement.
pub open spec fn lowered_to<F>(
    result: Result<SemanticConstraint<F>, LinearConstraintError>,
    provenance: SemanticProvenance,
    enforcement: Enforcement,
    kind: LinearConstraintKind<F>,
    functional: F,
) -> bool {
    let (lower, upper) = kind_bounds(kind);
    if linear_bound_check(lower, upper) is Err {
        result == Err::<SemanticConstraint<F>, LinearConstraintError>(
            LinearConstraintError::Ir(linear_bound_check(lower, upper)->Err_0),
        )
    } else if enforcement.spec_validate() is Err {
        result == Err::<SemanticConstraint<F>, LinearConstraintError>(
            LinearConstraintError::Ir(enforcement.spec_validate()->Err_0),
        )
    } else {
        result matches Ok(constraint) && constraint.spec_provenance() == provenance
            && constraint.spec_enforcement() == enforcement && constraint.spec_relation() is LinearBound
            && constraint.spec_relation()->LinearBound_expression.spec_functional() == functional
            && constraint.spec_relation()->LinearBound_expression.spec_constant() == 0
            && constraint.spec_relation()->LinearBound_lower == lower
            && constraint.spec_relation()->LinearBound_upper == upper
    }
}

/// Builds the semantic linear bound `lower <= functional <= upper`.
fn semantic_linear_bound<F>(
    provenance: SemanticProvenance,
    enforcement: Enforcement,
    functional: F,
    lower: Option<u64>,
    upper: Option<u64>,
) -> (result: Result<SemanticConstraint<F>, LinearConstraintError>)
    ensures
        linear_bound_check(lower, upper) is Err ==> result == Err::<SemanticConstraint<F>, LinearConstraintError>(
            LinearConstraintError::Ir(linear_bound_check(lower, upper)->Err_0),
        ),
        linear_bound_check(lower, upper) is Ok && enforcement.spec_validate() is Err ==> result == Err::<
            SemanticConstraint<F>,
            LinearConstraintError,
        >(LinearConstraintError::Ir(enforcement.spec_validate()->Err_0)),
        linear_bound_check(lower, upper) is Ok && enforcement.spec_validate() is Ok ==> (result matches Ok(
            constraint,
        ) && constraint.spec_provenance() == provenance && constraint.spec_enforcement() == enforcement
            && constraint.spec_relation() is LinearBound
            && constraint.spec_relation()->LinearBound_expression.spec_functional() == functional
            && constraint.spec_relation()->LinearBound_expression.spec_constant() == 0
            && constraint.spec_relation()->LinearBound_lower == lower
            && constraint.spec_relation()->LinearBound_upper == upper),
{
    let expression = match SemanticExpression::try_new(functional, 0) {
        Ok(expression) => expression,
        Err(error) => {
            return Err(LinearConstraintError::Ir(error));
        },
    };
    match SemanticConstraint::try_new(
        provenance,
        SemanticRelation::LinearBound { expression, lower, upper },
        enforcement,
    ) {
        Ok(constraint) => Ok(constraint),
        Err(error) => Err(LinearConstraintError::Ir(error)),
    }
}

impl<F> LinearConstraint<F> {
    /// Lowers this constraint to the semantic linear bound its kind states
    /// on its functional (see `lowered_bounds`), with a zero constant. A
    /// scalar gap bounds a combined functional: use
    /// `try_gap_into_semantic_constraint`.
    pub fn try_into_semantic_constraint(self) -> (result: Result<SemanticConstraint<F>, LinearConstraintError>)
        requires
            kind_functional(self.spec_kind()) is Some,
        ensures
            lowered_to(
                result,
                self.spec_provenance(),
                self.spec_enforcement(),
                self.spec_kind(),
                kind_functional(self.spec_kind())->Some_0,
            ),
    {
        let ghost kind = self.spec_kind();
        let (lower, upper) = self.lowered_bounds();
        let LinearConstraint { provenance, enforcement, kind } = self;
        let functional = match kind {
            LinearConstraintKind::Lower { functional, .. } => functional,
            LinearConstraintKind::Upper { functional, .. } => functional,
            LinearConstraintKind::Interval { functional, .. } => functional,
            LinearConstraintKind::Region { functional, .. } => functional,
            LinearConstraintKind::Monotonicity { derivative, .. } => derivative,
            LinearConstraintKind::ScalarGap { upper, .. } => upper,
        };
        semantic_linear_bound(provenance, enforcement, functional, lower, upper)
    }

    /// Lowers a scalar gap `upper - lower >= minimum_gap` to a semantic
    /// lower bound by `minimum_gap` on `difference`, the caller's combination
    /// of the upper functional minus the lower one, with a zero constant.
    pub fn try_gap_into_semantic_constraint(self, difference: F) -> (result: Result<
        SemanticConstraint<F>,
        LinearConstraintError,
    >)
        requires
            self.spec_kind() is ScalarGap,
        ensures
            lowered_to(result, self.spec_provenance(), self.spec_enforcement(), self.spec_kind(), difference),
    {
        let (lower, upper) = self.lowered_bounds();
        let LinearConstraint { provenance, enforcement, .. } = self;
        semantic_linear_bound(provenance, enforcement, difference, lower, upper)
    }
}

} // verus!
