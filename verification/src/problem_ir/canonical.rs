//! The solver-neutral canonical problem: zero-constant equality and
//! linear-bound rows, second-order cones, identity scaling, the constraint
//! families present and a checked storage estimate.
use vstd::prelude::*;

use crate::binary64_sum::ONE_BITS;
use crate::problem_ir::affine::{AffineExpression, AffineTerm};
use crate::problem_ir::{
    shape_estimate, shape_estimate_fits, CanonicalCapabilities, CanonicalMemoryEstimate, CanonicalShape,
    ObservationId, ProblemIrError, SemanticProvenance, VariableSpace,
};

verus! {

/// One canonical equality row `row = rhs`.
#[derive(Debug)]
pub struct CanonicalEquality {
    row: AffineExpression,
    rhs: u64,
    provenance: SemanticProvenance,
}

impl CanonicalEquality {
    /// The zero-constant sparse row.
    pub closed spec fn spec_row(self) -> AffineExpression {
        self.row
    }

    /// The finite right-hand side, as binary64 bits.
    pub closed spec fn spec_rhs(self) -> u64 {
        self.rhs
    }

    /// The originating provenance.
    pub closed spec fn spec_provenance(self) -> SemanticProvenance {
        self.provenance
    }

    /// Assembles a row from its parts.
    pub(crate) fn from_parts(row: AffineExpression, rhs: u64, provenance: SemanticProvenance) -> (equality: Self)
        ensures
            equality.spec_row() == row,
            equality.spec_rhs() == rhs,
            equality.spec_provenance() == provenance,
    {
        CanonicalEquality { row, rhs, provenance }
    }

    /// Borrows the zero-constant sparse row.
    pub fn row(&self) -> (row: &AffineExpression)
        ensures
            *row == self.spec_row(),
    {
        &self.row
    }

    /// Returns the finite right-hand side.
    pub fn rhs(&self) -> (rhs: u64)
        ensures
            rhs == self.spec_rhs(),
    {
        self.rhs
    }

    /// Borrows the originating provenance.
    pub fn provenance(&self) -> (provenance: &SemanticProvenance)
        ensures
            *provenance == self.spec_provenance(),
    {
        &self.provenance
    }
}

/// One canonical two-sided linear row `lower <= row <= upper`.
#[derive(Debug)]
pub struct CanonicalLinearBound {
    row: AffineExpression,
    lower: Option<u64>,
    upper: Option<u64>,
    provenance: SemanticProvenance,
}

impl CanonicalLinearBound {
    /// The zero-constant sparse row.
    pub closed spec fn spec_row(self) -> AffineExpression {
        self.row
    }

    /// The optional finite lower bound, as binary64 bits.
    pub closed spec fn spec_lower(self) -> Option<u64> {
        self.lower
    }

    /// The optional finite upper bound, as binary64 bits.
    pub closed spec fn spec_upper(self) -> Option<u64> {
        self.upper
    }

    /// The originating provenance.
    pub closed spec fn spec_provenance(self) -> SemanticProvenance {
        self.provenance
    }

    /// Assembles a row from its parts.
    pub(crate) fn from_parts(
        row: AffineExpression,
        lower: Option<u64>,
        upper: Option<u64>,
        provenance: SemanticProvenance,
    ) -> (bound: Self)
        ensures
            bound.spec_row() == row,
            bound.spec_lower() == lower,
            bound.spec_upper() == upper,
            bound.spec_provenance() == provenance,
    {
        CanonicalLinearBound { row, lower, upper, provenance }
    }

    /// Borrows the zero-constant sparse row.
    pub fn row(&self) -> (row: &AffineExpression)
        ensures
            *row == self.spec_row(),
    {
        &self.row
    }

    /// Returns the optional finite lower bound.
    pub fn lower(&self) -> (lower: Option<u64>)
        ensures
            lower == self.spec_lower(),
    {
        self.lower
    }

    /// Returns the optional finite upper bound.
    pub fn upper(&self) -> (upper: Option<u64>)
        ensures
            upper == self.spec_upper(),
    {
        self.upper
    }

    /// Borrows the originating provenance.
    pub fn provenance(&self) -> (provenance: &SemanticProvenance)
        ensures
            *provenance == self.spec_provenance(),
    {
        &self.provenance
    }
}

/// One canonical second-order cone `||lhs||_2 <= rhs`.
#[derive(Debug)]
pub struct CanonicalSecondOrderCone {
    lhs: Vec<AffineExpression>,
    rhs: AffineExpression,
    provenance: SemanticProvenance,
}

impl CanonicalSecondOrderCone {
    /// The vector-valued affine left-hand expressions.
    pub closed spec fn spec_lhs(self) -> Seq<AffineExpression> {
        self.lhs@
    }

    /// The affine right-hand expression.
    pub closed spec fn spec_rhs(self) -> AffineExpression {
        self.rhs
    }

    /// The originating provenance.
    pub closed spec fn spec_provenance(self) -> SemanticProvenance {
        self.provenance
    }

    /// Assembles a cone from its parts.
    pub(crate) fn from_parts(lhs: Vec<AffineExpression>, rhs: AffineExpression, provenance: SemanticProvenance) -> (cone:
        Self)
        ensures
            cone.spec_lhs() == lhs@,
            cone.spec_rhs() == rhs,
            cone.spec_provenance() == provenance,
    {
        CanonicalSecondOrderCone { lhs, rhs, provenance }
    }

    /// Borrows the vector-valued affine left-hand expressions.
    pub fn lhs(&self) -> (lhs: &[AffineExpression])
        ensures
            lhs@ == self.spec_lhs(),
    {
        self.lhs.as_slice()
    }

    /// Borrows the affine right-hand expression.
    pub fn rhs(&self) -> (rhs: &AffineExpression)
        ensures
            *rhs == self.spec_rhs(),
    {
        &self.rhs
    }

    /// Borrows the originating provenance.
    pub fn provenance(&self) -> (provenance: &SemanticProvenance)
        ensures
            *provenance == self.spec_provenance(),
    {
        &self.provenance
    }
}

/// `count` unit scales, each the bit pattern of `1.0`.
pub open spec fn unit_scales(count: nat) -> Seq<u64> {
    Seq::new(count, |index: int| ONE_BITS)
}

/// Explicit identity scaling metadata; no automatic scaling is applied.
#[derive(Clone, Debug, PartialEq, Eq)]
pub struct CanonicalScaling {
    variable: Vec<u64>,
    equality: Vec<u64>,
    linear_bound: Vec<u64>,
    cone: Vec<u64>,
}

impl CanonicalScaling {
    /// Variable scales, as binary64 bits.
    pub closed spec fn spec_variable(self) -> Seq<u64> {
        self.variable@
    }

    /// Equality-row scales, as binary64 bits.
    pub closed spec fn spec_equality(self) -> Seq<u64> {
        self.equality@
    }

    /// Linear-bound-row scales, as binary64 bits.
    pub closed spec fn spec_linear_bound(self) -> Seq<u64> {
        self.linear_bound@
    }

    /// Cone scales, as binary64 bits.
    pub closed spec fn spec_cone(self) -> Seq<u64> {
        self.cone@
    }

    /// Borrows the unit variable scales.
    pub fn variable(&self) -> (scales: &[u64])
        ensures
            scales@ == self.spec_variable(),
    {
        self.variable.as_slice()
    }

    /// Borrows the unit equality-row scales.
    pub fn equality(&self) -> (scales: &[u64])
        ensures
            scales@ == self.spec_equality(),
    {
        self.equality.as_slice()
    }

    /// Borrows the unit linear-bound-row scales.
    pub fn linear_bound(&self) -> (scales: &[u64])
        ensures
            scales@ == self.spec_linear_bound(),
    {
        self.linear_bound.as_slice()
    }

    /// Borrows the unit cone scales.
    pub fn cone(&self) -> (scales: &[u64])
        ensures
            scales@ == self.spec_cone(),
    {
        self.cone.as_slice()
    }
}

/// `count` unit scales.
fn unit_vec(count: usize) -> (scales: Vec<u64>)
    ensures
        scales@ == unit_scales(count as nat),
{
    let mut scales: Vec<u64> = Vec::new();
    let mut index: usize = 0;
    while index < count
        invariant
            index <= count,
            scales@ == unit_scales(index as nat),
        decreases count - index,
    {
        scales.push(ONE_BITS);
        index = index + 1;
        assert(scales@ =~= unit_scales(index as nat));
    }
    scales
}

/// The term count of an affine expression.
pub open spec fn term_count(expression: AffineExpression) -> usize {
    expression.spec_terms().len() as usize
}

/// The term count of each equality row.
pub open spec fn equality_term_counts(rows: Seq<CanonicalEquality>) -> Seq<usize> {
    rows.map_values(|row: CanonicalEquality| term_count(row.spec_row()))
}

/// The term count of each linear-bound row.
pub open spec fn bound_term_counts(rows: Seq<CanonicalLinearBound>) -> Seq<usize> {
    rows.map_values(|row: CanonicalLinearBound| term_count(row.spec_row()))
}

/// The term counts of one cone's expressions: its left-hand expressions,
/// then its right-hand one.
pub open spec fn cone_expression_term_counts(cone: CanonicalSecondOrderCone) -> Seq<usize> {
    cone.spec_lhs().map_values(|expression: AffineExpression| term_count(expression)).push(
        term_count(cone.spec_rhs()),
    )
}

/// The term counts of every cone's expressions.
pub open spec fn cone_term_counts(cones: Seq<CanonicalSecondOrderCone>) -> Seq<Seq<usize>> {
    cones.map_values(|cone: CanonicalSecondOrderCone| cone_expression_term_counts(cone))
}

/// Bytes per stored coefficient: one sparse term.
pub open spec fn term_bytes() -> nat {
    vstd::layout::size_of::<AffineTerm>()
}

/// Bytes per stored finite scalar.
pub open spec fn scalar_bytes() -> nat {
    vstd::layout::size_of::<u64>()
}

/// Solver-neutral canonical problem containing no geological semantics.
#[derive(Debug)]
pub struct CanonicalProblem {
    variable_space: VariableSpace,
    equalities: Vec<CanonicalEquality>,
    linear_bounds: Vec<CanonicalLinearBound>,
    cones: Vec<CanonicalSecondOrderCone>,
    scaling: CanonicalScaling,
    capabilities: CanonicalCapabilities,
    memory_estimate: CanonicalMemoryEstimate,
}

impl CanonicalProblem {
    /// The variable blocks and their layout.
    pub closed spec fn spec_variable_space(self) -> VariableSpace {
        self.variable_space
    }

    /// The equality rows, in order.
    pub closed spec fn spec_equalities(self) -> Seq<CanonicalEquality> {
        self.equalities@
    }

    /// The linear-bound rows, in order.
    pub closed spec fn spec_linear_bounds(self) -> Seq<CanonicalLinearBound> {
        self.linear_bounds@
    }

    /// The second-order cones, in order.
    pub closed spec fn spec_second_order_cones(self) -> Seq<CanonicalSecondOrderCone> {
        self.cones@
    }

    /// The scaling metadata.
    pub closed spec fn spec_scaling(self) -> CanonicalScaling {
        self.scaling
    }

    /// The constraint families present.
    pub closed spec fn spec_capabilities(self) -> CanonicalCapabilities {
        self.capabilities
    }

    /// The storage estimate.
    pub closed spec fn spec_memory_estimate(self) -> CanonicalMemoryEstimate {
        self.memory_estimate
    }

    /// Whether the storage estimate of these rows fits in `usize`.
    pub open spec fn rows_fit(
        variable_space: VariableSpace,
        equalities: Seq<CanonicalEquality>,
        linear_bounds: Seq<CanonicalLinearBound>,
        cones: Seq<CanonicalSecondOrderCone>,
    ) -> bool {
        shape_estimate_fits(
            variable_space.spec_variable_count(),
            equality_term_counts(equalities),
            bound_term_counts(linear_bounds),
            cone_term_counts(cones),
            term_bytes(),
            scalar_bytes(),
        )
    }

    /// Whether the problem holds exactly these rows, with unit scaling, the
    /// families present and the storage estimate of the rows.
    pub open spec fn assembled_from(
        self,
        variable_space: VariableSpace,
        equalities: Seq<CanonicalEquality>,
        linear_bounds: Seq<CanonicalLinearBound>,
        cones: Seq<CanonicalSecondOrderCone>,
    ) -> bool {
        &&& self.spec_variable_space() == variable_space
        &&& self.spec_equalities() == equalities
        &&& self.spec_linear_bounds() == linear_bounds
        &&& self.spec_second_order_cones() == cones
        &&& self.spec_scaling().spec_variable() == unit_scales(variable_space.spec_variable_count())
        &&& self.spec_scaling().spec_equality() == unit_scales(equalities.len())
        &&& self.spec_scaling().spec_linear_bound() == unit_scales(linear_bounds.len())
        &&& self.spec_scaling().spec_cone() == unit_scales(cones.len())
        &&& self.spec_capabilities() == CanonicalCapabilities {
            has_equalities: equalities.len() > 0,
            has_linear_bounds: linear_bounds.len() > 0,
            has_second_order_cones: cones.len() > 0,
        }
        &&& self.spec_memory_estimate() == shape_estimate(
            variable_space.spec_variable_count(),
            equality_term_counts(equalities),
            bound_term_counts(linear_bounds),
            cone_term_counts(cones),
            term_bytes(),
            scalar_bytes(),
        )
    }

    /// Assembles a problem from its rows; fails with
    /// `MemoryEstimateOverflow` exactly when the storage estimate does not fit.
    pub(crate) fn try_new(
        variable_space: VariableSpace,
        equalities: Vec<CanonicalEquality>,
        linear_bounds: Vec<CanonicalLinearBound>,
        cones: Vec<CanonicalSecondOrderCone>,
    ) -> (result: Result<Self, ProblemIrError>)
        ensures
            result is Ok <==> Self::rows_fit(variable_space, equalities@, linear_bounds@, cones@),
            result is Err ==> result == Err::<Self, ProblemIrError>(ProblemIrError::MemoryEstimateOverflow),
            result matches Ok(problem) ==> problem.assembled_from(
                variable_space,
                equalities@,
                linear_bounds@,
                cones@,
            ),
    {
        let mut equality_terms: Vec<usize> = Vec::new();
        let mut index: usize = 0;
        while index < equalities.len()
            invariant
                index <= equalities@.len(),
                equality_terms@ == equality_term_counts(equalities@.take(index as int)),
            decreases equalities@.len() - index,
        {
            equality_terms.push(equalities[index].row.terms().len());
            index = index + 1;
            assert(equality_terms@ =~= equality_term_counts(equalities@.take(index as int)));
        }
        assert(equalities@.take(index as int) =~= equalities@);
        let mut bound_terms: Vec<usize> = Vec::new();
        let mut index: usize = 0;
        while index < linear_bounds.len()
            invariant
                index <= linear_bounds@.len(),
                bound_terms@ == bound_term_counts(linear_bounds@.take(index as int)),
            decreases linear_bounds@.len() - index,
        {
            bound_terms.push(linear_bounds[index].row.terms().len());
            index = index + 1;
            assert(bound_terms@ =~= bound_term_counts(linear_bounds@.take(index as int)));
        }
        assert(linear_bounds@.take(index as int) =~= linear_bounds@);
        let mut cone_terms: Vec<Vec<usize>> = Vec::new();
        let mut index: usize = 0;
        while index < cones.len()
            invariant
                index <= cones@.len(),
                cone_terms@.len() == index,
                forall|c: int|
                    0 <= c < index ==> (#[trigger] cone_terms@[c])@ == cone_expression_term_counts(cones@[c]),
            decreases cones@.len() - index,
        {
            let cone = &cones[index];
            let mut counts: Vec<usize> = Vec::new();
            let mut expression: usize = 0;
            while expression < cone.lhs.len()
                invariant
                    expression <= cone.lhs@.len(),
                    counts@ == cone.lhs@.take(expression as int).map_values(
                        |e: AffineExpression| term_count(e),
                    ),
                decreases cone.lhs@.len() - expression,
            {
                counts.push(cone.lhs[expression].terms().len());
                expression = expression + 1;
                assert(counts@ =~= cone.lhs@.take(expression as int).map_values(
                    |e: AffineExpression| term_count(e),
                ));
            }
            assert(cone.lhs@.take(expression as int) =~= cone.lhs@);
            counts.push(cone.rhs.terms().len());
            assert(counts@ =~= cone_expression_term_counts(*cone));
            cone_terms.push(counts);
            index = index + 1;
        }
        let variable_count = variable_space.variable_count();
        let shape = CanonicalShape {
            variable_count,
            equality_terms,
            linear_bound_terms: bound_terms,
            cone_terms,
        };
        proof {
            assert(shape.spec_cone_terms() =~= cone_term_counts(cones@));
        }
        let memory_estimate = match shape.try_memory_estimate(
            core::mem::size_of::<AffineTerm>(),
            core::mem::size_of::<u64>(),
        ) {
            Ok(estimate) => estimate,
            Err(error) => {
                return Err(error);
            },
        };
        let scaling = CanonicalScaling {
            variable: unit_vec(variable_count),
            equality: unit_vec(equalities.len()),
            linear_bound: unit_vec(linear_bounds.len()),
            cone: unit_vec(cones.len()),
        };
        let capabilities = CanonicalCapabilities::from_row_counts(
            equalities.len(),
            linear_bounds.len(),
            cones.len(),
        );
        Ok(CanonicalProblem {
            variable_space,
            equalities,
            linear_bounds,
            cones,
            scaling,
            capabilities,
            memory_estimate,
        })
    }

    /// Returns the total canonical variable count.
    pub fn variable_count(&self) -> (count: usize)
        ensures
            count == self.spec_variable_space().spec_variable_count(),
    {
        self.variable_space.variable_count()
    }

    /// Borrows the variable layout: the blocks in insertion order with the
    /// first variable index of each.
    pub fn variable_blocks(&self) -> (space: &VariableSpace)
        ensures
            *space == self.spec_variable_space(),
    {
        &self.variable_space
    }

    /// Borrows the canonical equality rows.
    pub fn equalities(&self) -> (rows: &[CanonicalEquality])
        ensures
            rows@ == self.spec_equalities(),
    {
        self.equalities.as_slice()
    }

    /// Borrows the canonical linear-bound rows.
    pub fn linear_bounds(&self) -> (rows: &[CanonicalLinearBound])
        ensures
            rows@ == self.spec_linear_bounds(),
    {
        self.linear_bounds.as_slice()
    }

    /// Borrows the canonical second-order cones.
    pub fn second_order_cones(&self) -> (cones: &[CanonicalSecondOrderCone])
        ensures
            cones@ == self.spec_second_order_cones(),
    {
        self.cones.as_slice()
    }

    /// Borrows the explicit identity scaling metadata.
    pub fn scaling(&self) -> (scaling: &CanonicalScaling)
        ensures
            *scaling == self.spec_scaling(),
    {
        &self.scaling
    }

    /// Returns the constraint families present.
    pub fn capabilities(&self) -> (capabilities: CanonicalCapabilities)
        ensures
            capabilities == self.spec_capabilities(),
    {
        self.capabilities
    }

    /// Returns the checked storage estimate.
    pub fn memory_estimate(&self) -> (estimate: CanonicalMemoryEstimate)
        ensures
            estimate == self.spec_memory_estimate(),
    {
        self.memory_estimate
    }
}

/// Why a semantic problem could not be compiled to canonical form.
#[derive(Debug)]
pub enum CanonicalizationError<E> {
    /// Semantic or canonical IR validation failed.
    Ir(ProblemIrError),
    /// Soft enforcement is left to an objective compiler.
    UnsupportedSoftEnforcement {
        /// Semantic constraint index.
        constraint_index: usize,
        /// Stable observation identifier.
        observation_id: ObservationId,
    },
    /// The caller's linearizer failed.
    Linearization {
        /// Semantic constraint index.
        constraint_index: usize,
        /// Expression index within the relation.
        expression_index: usize,
        /// Stable observation identifier.
        observation_id: ObservationId,
        /// Caller diagnostic.
        source: E,
    },
    /// The linearizer returned an expression outside the variable space.
    InvalidLinearization {
        /// Semantic constraint index.
        constraint_index: usize,
        /// Expression index within the relation.
        expression_index: usize,
        /// Stable observation identifier.
        observation_id: ObservationId,
        /// Affine validation diagnostic.
        source: ProblemIrError,
    },
    /// Shifting by an affine constant gave a non-finite canonical scalar.
    NonFiniteShiftedScalar {
        /// Semantic constraint index.
        constraint_index: usize,
        /// Stable observation identifier.
        observation_id: ObservationId,
        /// The non-finite shifted value, as binary64 bits.
        value: u64,
    },
}

} // verus!
