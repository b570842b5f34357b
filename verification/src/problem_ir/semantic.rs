//! Provenance-preserving semantic constraints and problems, generic over the
//! observation functional they constrain; scalars are binary64 bit patterns.
use vstd::prelude::*;

use crate::binary64::{binary64_is_finite, binary64_order_key, is_finite_bits, order_key};
use crate::binary64_sum::{binary64_add, binary64_difference, binary64_subtract};
use crate::levels::records::{all_distinct, first_repeat};
use crate::problem_ir::affine::AffineExpression;
use crate::problem_ir::canonical::{
    bound_term_counts, cone_expression_term_counts, cone_term_counts, equality_term_counts, term_count,
    CanonicalEquality, CanonicalLinearBound, CanonicalProblem, CanonicalSecondOrderCone, CanonicalizationError,
};
use crate::problem_ir::canonicalization::{
    compile_result, compiled_bound_terms, compiled_cone_terms, compiled_equality_terms, constraint_compiled,
    constraint_items, constraint_expression_outcome, relation_scalar_failure, expressions_before, lemma_expressions_before_monotone, rows_compiled, bound_row, compile_failure, cone_row, constraint_failure, constraint_id, equality_row, expression_outcome, expressions_failure,
    lemma_first_out_of_range, relation_expression, relation_expression_count, shifted_expression,
};
use crate::problem_ir::{
    Enforcement, ExecutionOptions, ObservationId, ProblemIrError, SemanticProvenance, VariableSpace,
};

verus! {

/// A scalar of a relation is accepted when it is finite.
pub open spec fn scalar_check(value: u64) -> Result<(), ProblemIrError> {
    if binary64_is_finite(value) {
        Ok(())
    } else {
        Err(ProblemIrError::NonFiniteSemanticScalar { value })
    }
}

/// Checks that a relation scalar is finite.
pub fn validate_relation_scalar(value: u64) -> (result: Result<(), ProblemIrError>)
    ensures
        result == scalar_check(value),
{
    if is_finite_bits(value) {
        Ok(())
    } else {
        Err(ProblemIrError::NonFiniteSemanticScalar { value })
    }
}

/// One observation functional plus a finite constant.
#[derive(Debug, PartialEq, Eq)]
pub struct SemanticExpression<F> {
    functional: F,
    constant: u64,
}

impl<F: Clone> Clone for SemanticExpression<F> {
    fn clone(&self) -> (copy: Self) {
        proof {
            use_type_invariant(self);
        }
        SemanticExpression { functional: self.functional.clone(), constant: self.constant }
    }
}

impl<F> SemanticExpression<F> {
    #[verifier::type_invariant]
    spec fn inv(self) -> bool {
        binary64_is_finite(self.constant)
    }

    /// The observation functional.
    pub closed spec fn spec_functional(self) -> F {
        self.functional
    }

    /// The constant, as binary64 bits.
    pub closed spec fn spec_constant(self) -> u64 {
        self.constant
    }

    /// Constructs `functional + constant`; rejects a non-finite constant.
    pub fn try_new(functional: F, constant: u64) -> (result: Result<Self, ProblemIrError>)
        ensures
            !binary64_is_finite(constant) ==> result == Err::<Self, ProblemIrError>(
                ProblemIrError::NonFiniteSemanticScalar { value: constant },
            ),
            binary64_is_finite(constant) ==> (result matches Ok(expression) && expression.spec_functional()
                == functional && expression.spec_constant() == constant),
    {
        if !is_finite_bits(constant) {
            return Err(ProblemIrError::NonFiniteSemanticScalar { value: constant });
        }
        Ok(SemanticExpression { functional, constant })
    }

    /// Borrows the observation functional.
    pub fn functional(&self) -> (functional: &F)
        ensures
            *functional == self.spec_functional(),
    {
        &self.functional
    }

    /// Returns the finite constant.
    pub fn constant(&self) -> (constant: u64)
        ensures
            constant == self.spec_constant(),
            binary64_is_finite(constant),
    {
        proof {
            use_type_invariant(self);
        }
        self.constant
    }
}

/// A semantic relation on expressions.
#[derive(Clone, Debug, PartialEq, Eq)]
pub enum SemanticRelation<F> {
    /// One affine expression equal to a finite target.
    Equality {
        /// Left-hand expression.
        expression: SemanticExpression<F>,
        /// Right-hand target, as binary64 bits.
        target: u64,
    },
    /// One affine expression with a lower bound, upper bound, or both.
    LinearBound {
        /// Bounded expression.
        expression: SemanticExpression<F>,
        /// Optional finite lower bound, as binary64 bits.
        lower: Option<u64>,
        /// Optional finite upper bound, as binary64 bits.
        upper: Option<u64>,
    },
    /// A second-order cone relation `||lhs||_2 <= rhs`.
    SecondOrderCone {
        /// Nonempty vector-valued left-hand expression.
        lhs: Vec<SemanticExpression<F>>,
        /// Scalar right-hand expression.
        rhs: SemanticExpression<F>,
    },
}

/// The outcome of validating the bounds of a linear bound: at least one
/// bound, finite bounds (lower checked first) and, with both, `lower <= upper`.
pub open spec fn linear_bound_check(lower: Option<u64>, upper: Option<u64>) -> Result<(), ProblemIrError> {
    if lower is None && upper is None {
        Err(ProblemIrError::MissingLinearBound)
    } else if lower is Some && scalar_check(lower->Some_0) is Err {
        scalar_check(lower->Some_0)
    } else if upper is Some && scalar_check(upper->Some_0) is Err {
        scalar_check(upper->Some_0)
    } else if lower is Some && upper is Some && binary64_order_key(lower->Some_0) > binary64_order_key(
        upper->Some_0,
    ) {
        Err(ProblemIrError::ReversedLinearBounds { lower: lower->Some_0, upper: upper->Some_0 })
    } else {
        Ok(())
    }
}

/// Finite bounds are accepted exactly when the lower one does not exceed the
/// upper one as a number, and are otherwise reported as reversed.
pub proof fn lemma_linear_bounds_numeric_order(low: u64, high: u64)
    requires
        binary64_is_finite(low),
        binary64_is_finite(high),
    ensures
        linear_bound_check(Some(low), Some(high)) is Ok <==> binary64_order_key(low) <= binary64_order_key(high),
        binary64_order_key(low) > binary64_order_key(high) ==> linear_bound_check(Some(low), Some(high)) == Err::<
            (),
            ProblemIrError,
        >(ProblemIrError::ReversedLinearBounds { lower: low, upper: high }),
        linear_bound_check(Some(low), None) is Ok,
        linear_bound_check(None, Some(high)) is Ok,
{
}

/// The outcome of validating a relation: an equality needs a finite target;
/// a linear bound needs at least one bound, finite bounds (lower checked
/// first) and, with both, `lower <= upper`; a cone needs a left-hand side.
pub open spec fn relation_check<F>(relation: SemanticRelation<F>) -> Result<(), ProblemIrError> {
    match relation {
        SemanticRelation::Equality { target, .. } => scalar_check(target),
        SemanticRelation::LinearBound { lower, upper, .. } => linear_bound_check(lower, upper),
        SemanticRelation::SecondOrderCone { lhs, .. } => if lhs@.len() == 0 {
            Err(ProblemIrError::EmptyConeLeftHandSide)
        } else {
            Ok(())
        },
    }
}

impl<F> SemanticRelation<F> {
    /// Validates the relation's scalars and shape.
    pub fn validate(&self) -> (result: Result<(), ProblemIrError>)
        ensures
            result == relation_check(*self),
            *self matches SemanticRelation::LinearBound { lower: Some(low), upper: Some(high), .. } ==> (
            binary64_is_finite(low) && binary64_is_finite(high) ==> (result is Ok <==> binary64_order_key(low)
                <= binary64_order_key(high)) && (binary64_order_key(low) > binary64_order_key(high) ==> result
                == Err::<(), ProblemIrError>(ProblemIrError::ReversedLinearBounds { lower: low, upper: high }))),
    {
        match self {
            SemanticRelation::Equality { target, .. } => validate_relation_scalar(*target),
            SemanticRelation::LinearBound { lower, upper, .. } => {
                if lower.is_none() && upper.is_none() {
                    return Err(ProblemIrError::MissingLinearBound);
                }
                if let Some(value) = lower {
                    validate_relation_scalar(*value)?;
                }
                if let Some(value) = upper {
                    validate_relation_scalar(*value)?;
                }
                if let (Some(low), Some(high)) = (lower, upper) {
                    if order_key(*low) > order_key(*high) {
                        return Err(ProblemIrError::ReversedLinearBounds { lower: *low, upper: *high });
                    }
                }
                Ok(())
            },
            SemanticRelation::SecondOrderCone { lhs, .. } => {
                if lhs.len() == 0 {
                    Err(ProblemIrError::EmptyConeLeftHandSide)
                } else {
                    Ok(())
                }
            },
        }
    }
}

/// One provenance-bearing semantic constraint.
#[derive(Debug)]
pub struct SemanticConstraint<F> {
    provenance: SemanticProvenance,
    relation: SemanticRelation<F>,
    enforcement: Enforcement,
}

impl<F: Clone> SemanticRelation<F> {
    /// A copy with the same target, bounds and number of left-hand
    /// expressions.
    pub fn duplicate(&self) -> (copy: Self)
        ensures
            relation_check(copy) == relation_check(*self),
    {
        match self {
            SemanticRelation::Equality { expression, target } => SemanticRelation::Equality {
                expression: expression.clone(),
                target: *target,
            },
            SemanticRelation::LinearBound { expression, lower, upper } => SemanticRelation::LinearBound {
                expression: expression.clone(),
                lower: *lower,
                upper: *upper,
            },
            SemanticRelation::SecondOrderCone { lhs, rhs } => SemanticRelation::SecondOrderCone {
                lhs: lhs.clone(),
                rhs: rhs.clone(),
            },
        }
    }
}

impl<F: Clone> Clone for SemanticConstraint<F> {
    fn clone(&self) -> (copy: Self) {
        proof {
            use_type_invariant(self);
        }
        SemanticConstraint {
            provenance: self.provenance.clone_for_canonical(),
            relation: self.relation.duplicate(),
            enforcement: self.enforcement,
        }
    }
}

impl<F> SemanticConstraint<F> {
    #[verifier::type_invariant]
    spec fn inv(self) -> bool {
        relation_check(self.relation) is Ok
    }

    /// The constraint's provenance.
    pub closed spec fn spec_provenance(self) -> SemanticProvenance {
        self.provenance
    }

    /// The constraint's relation.
    pub closed spec fn spec_relation(self) -> SemanticRelation<F> {
        self.relation
    }

    /// The constraint's enforcement.
    pub closed spec fn spec_enforcement(self) -> Enforcement {
        self.enforcement
    }

    /// Validates and constructs a semantic constraint: the relation first,
    /// then the enforcement.
    pub fn try_new(provenance: SemanticProvenance, relation: SemanticRelation<F>, enforcement: Enforcement) -> (result:
        Result<Self, ProblemIrError>)
        ensures
            relation_check(relation) is Err ==> result == Err::<Self, ProblemIrError>(
                relation_check(relation)->Err_0,
            ),
            relation_check(relation) is Ok && enforcement.spec_validate() is Err ==> result == Err::<
                Self,
                ProblemIrError,
            >(enforcement.spec_validate()->Err_0),
            relation_check(relation) is Ok && enforcement.spec_validate() is Ok ==> (result matches Ok(
                constraint,
            ) && constraint.spec_provenance() == provenance && constraint.spec_relation() == relation
                && constraint.spec_enforcement() == enforcement),
    {
        relation.validate()?;
        enforcement.validate()?;
        Ok(SemanticConstraint { provenance, relation, enforcement })
    }

    /// Borrows complete semantic provenance.
    pub fn provenance(&self) -> (provenance: &SemanticProvenance)
        ensures
            *provenance == self.spec_provenance(),
    {
        &self.provenance
    }

    /// Borrows the semantic relation.
    pub fn relation(&self) -> (relation: &SemanticRelation<F>)
        ensures
            *relation == self.spec_relation(),
    {
        &self.relation
    }

    /// Returns explicit enforcement metadata.
    pub fn enforcement(&self) -> (enforcement: Enforcement)
        ensures
            enforcement == self.spec_enforcement(),
    {
        self.enforcement
    }
}

/// The observation identifiers of the constraints, in order.
pub open spec fn constraint_ids<F>(constraints: Seq<SemanticConstraint<F>>) -> Seq<ObservationId> {
    constraints.map_values(|constraint: SemanticConstraint<F>| constraint.spec_provenance().spec_observation_id())
}

/// An immutable provenance-preserving semantic problem: a nonempty list of
/// constraints with distinct observation identifiers.
#[derive(Clone, Debug)]
pub struct SemanticProblemIr<F> {
    constraints: Vec<SemanticConstraint<F>>,
    execution: ExecutionOptions,
}

impl<F> SemanticProblemIr<F> {
    /// The constraints, in insertion order.
    pub closed spec fn spec_constraints(self) -> Seq<SemanticConstraint<F>> {
        self.constraints@
    }

    /// The execution metadata.
    pub closed spec fn spec_execution(self) -> ExecutionOptions {
        self.execution
    }

    /// Constructs a nonempty problem in the given order; rejects an empty
    /// list, then the first constraint whose observation identifier repeats
    /// an earlier one.
    pub fn try_new(constraints: Vec<SemanticConstraint<F>>, execution: ExecutionOptions) -> (result: Result<
        Self,
        ProblemIrError,
    >)
        ensures
            constraints@.len() == 0 ==> result == Err::<Self, ProblemIrError>(
                ProblemIrError::EmptySemanticProblem,
            ),
            constraints@.len() > 0 ==> (result is Ok <==> all_distinct(constraint_ids(constraints@))),
            constraints@.len() > 0 && !all_distinct(constraint_ids(constraints@)) ==> (result matches Err(
                ProblemIrError::DuplicateObservationId { .. },
            )),
            (result matches Err(ProblemIrError::DuplicateObservationId { identifier }) ==> exists|index: int|
                #[trigger] first_repeat(constraint_ids(constraints@), index) && identifier == constraint_ids(
                    constraints@,
                )[index]),
            result matches Ok(problem) ==> problem.spec_constraints() == constraints@
                && problem.spec_execution() == execution,
    {
        if constraints.len() == 0 {
            return Err(ProblemIrError::EmptySemanticProblem);
        }
        let ghost ids = constraint_ids(constraints@);
        let mut index: usize = 0;
        while index < constraints.len()
            invariant
                index <= constraints@.len(),
                ids == constraint_ids(constraints@),
                all_distinct(ids.take(index as int)),
            decreases constraints@.len() - index,
        {
            let identifier = constraints[index].provenance.observation_id();
            let mut earlier: usize = 0;
            while earlier < index
                invariant
                    earlier <= index < constraints@.len(),
                    ids == constraint_ids(constraints@),
                    identifier == ids[index as int],
                    all_distinct(ids.take(index as int)),
                    forall|j: int| 0 <= j < earlier ==> ids[j] != identifier,
                decreases index - earlier,
            {
                if constraints[earlier].provenance.observation_id() == identifier {
                    proof {
                        assert(ids[earlier as int] == ids[index as int]);
                        assert(first_repeat(ids, index as int));
                    }
                    return Err(ProblemIrError::DuplicateObservationId { identifier });
                }
                earlier += 1;
            }
            proof {
                let next = ids.take(index as int + 1);
                assert forall|j: int, k: int| 0 <= j < k < next.len() implies #[trigger] next[j] != #[trigger] next[k] by {
                    if k < index {
                        assert(ids.take(index as int)[j] == next[j]);
                        assert(ids.take(index as int)[k] == next[k]);
                    }
                }
            }
            index += 1;
        }
        proof {
            assert(ids.take(index as int) =~= ids);
        }
        Ok(SemanticProblemIr { constraints, execution })
    }

    /// Borrows constraints in deterministic insertion order.
    pub fn constraints(&self) -> (constraints: &[SemanticConstraint<F>])
        ensures
            constraints@ == self.spec_constraints(),
    {
        self.constraints.as_slice()
    }

    /// Returns explicit execution metadata.
    pub fn execution_options(&self) -> (execution: ExecutionOptions)
        ensures
            execution == self.spec_execution(),
    {
        self.execution
    }
}

/// A canonical row compiled from one constraint.
enum CompiledRow {
    Equality(CanonicalEquality),
    LinearBound(CanonicalLinearBound),
    Cone(CanonicalSecondOrderCone),
}

/// The row is of the constraint's kind and compiled from its linearizations.
spec fn row_compiled_from<F, E>(
    row: CompiledRow,
    constraint: SemanticConstraint<F>,
    items: Seq<Result<AffineExpression, E>>,
) -> bool {
    match row {
        CompiledRow::Equality(equality) => constraint.spec_relation() is Equality && equality_row(
            equality,
            constraint,
            items[0],
        ),
        CompiledRow::LinearBound(bound) => constraint.spec_relation() is LinearBound && bound_row(
            bound,
            constraint,
            items[0],
        ),
        CompiledRow::Cone(cone) => constraint.spec_relation() is SecondOrderCone && cone_row(
            cone,
            constraint,
            items,
        ),
    }
}

/// Checks one linearization and shifts its constant by the semantic
/// expression's `constant`; hands the linearization back with the shifted
/// constant.
fn shift_expression<E>(
    constraint_index: usize,
    expression_index: usize,
    observation_id: ObservationId,
    constant: u64,
    linearized: Result<AffineExpression, E>,
    variable_count: usize,
) -> (result: Result<(AffineExpression, u64), CanonicalizationError<E>>)
    requires
        binary64_is_finite(constant),
    ensures
        match expression_outcome(
            constraint_index as int,
            expression_index as int,
            observation_id,
            constant,
            linearized,
            variable_count as nat,
        ) {
            Err(error) => result == Err::<(AffineExpression, u64), CanonicalizationError<E>>(error),
            Ok(shifted) => result matches Ok(pair) && pair.0 == linearized->Ok_0 && pair.1 == shifted,
        },
{
    let affine = match linearized {
        Ok(affine) => affine,
        Err(source) => {
            return Err(
                CanonicalizationError::Linearization { constraint_index, expression_index, observation_id, source },
            );
        },
    };
    let checked = affine.validate_variable_count(variable_count);
    if let Err(source) = checked {
        proof {
            let terms = affine.spec_terms();
            let index = choose|index: int|
                0 <= index < terms.len() && (#[trigger] terms[index]).spec_variable() >= variable_count && (
                forall|earlier: int| 0 <= earlier < index ==> terms[earlier].spec_variable() < variable_count)
                    && source == ProblemIrError::AffineVariableOutOfRange {
                    variable: terms[index].spec_variable(),
                    variable_count,
                };
            lemma_first_out_of_range(terms, variable_count as nat, index);
        }
        return Err(
            CanonicalizationError::InvalidLinearization { constraint_index, expression_index, observation_id, source },
        );
    }
    proof {
        lemma_first_out_of_range(affine.spec_terms(), variable_count as nat, affine.spec_terms().len() as int);
    }
    let shifted = binary64_add(affine.constant(), constant);
    if !is_finite_bits(shifted) {
        return Err(CanonicalizationError::NonFiniteShiftedScalar { constraint_index, observation_id, value: shifted });
    }
    Ok((affine, shifted))
}

/// Moves a finite relation scalar across by the shifted constant; the
/// result must be finite.
fn shift_scalar<E>(constraint_index: usize, observation_id: ObservationId, value: u64, shifted: u64) -> (result: Result<
    u64,
    CanonicalizationError<E>,
>)
    requires
        binary64_is_finite(value),
        binary64_is_finite(shifted),
    ensures
        binary64_is_finite(binary64_difference(value, shifted)) ==> result == Ok::<u64, CanonicalizationError<E>>(
            binary64_difference(value, shifted),
        ),
        !binary64_is_finite(binary64_difference(value, shifted)) ==> result == Err::<u64, CanonicalizationError<E>>(
            CanonicalizationError::NonFiniteShiftedScalar {
                constraint_index,
                observation_id,
                value: binary64_difference(value, shifted),
            },
        ),
{
    let moved = binary64_subtract(value, shifted);
    if is_finite_bits(moved) {
        Ok(moved)
    } else {
        Err(CanonicalizationError::NonFiniteShiftedScalar { constraint_index, observation_id, value: moved })
    }
}

/// Once the failure of a prefix of expressions is found, longer prefixes
/// report the same failure.
proof fn lemma_expressions_failure_sticks<F, E>(
    constraint_index: int,
    constraint: SemanticConstraint<F>,
    items: Seq<Result<AffineExpression, E>>,
    variable_count: nat,
    found: int,
    count: int,
)
    requires
        0 <= found <= count,
        expressions_failure(constraint_index, constraint, items, variable_count, found) is Some,
    ensures
        expressions_failure(constraint_index, constraint, items, variable_count, count) == expressions_failure(
            constraint_index,
            constraint,
            items,
            variable_count,
            found,
        ),
    decreases count - found,
{
    if found < count {
        lemma_expressions_failure_sticks(constraint_index, constraint, items, variable_count, found, count - 1);
    }
}

/// Once the failure of a prefix of constraints is found, longer prefixes
/// report the same failure.
proof fn lemma_compile_failure_sticks<F, E>(
    constraints: Seq<SemanticConstraint<F>>,
    linearized: Seq<Result<AffineExpression, E>>,
    variable_count: nat,
    found: int,
    count: int,
)
    requires
        0 <= found <= count,
        compile_failure(constraints, linearized, variable_count, found) is Some,
    ensures
        compile_failure(constraints, linearized, variable_count, count) == compile_failure(
            constraints,
            linearized,
            variable_count,
            found,
        ),
    decreases count - found,
{
    if found < count {
        lemma_compile_failure_sticks(constraints, linearized, variable_count, found, count - 1);
    }
}

/// Compiles one hard or soft constraint, taking its linearizations `items`
/// from the end of `pending`, where they stand in reverse order.
fn compile_constraint<F, E>(
    constraint_index: usize,
    constraint: &SemanticConstraint<F>,
    pending: &mut Vec<Result<AffineExpression, E>>,
    variable_count: usize,
    Ghost(items): Ghost<Seq<Result<AffineExpression, E>>>,
) -> (result: Result<CompiledRow, CanonicalizationError<E>>)
    requires
        items.len() == relation_expression_count(constraint.spec_relation()),
        old(pending)@.len() >= items.len(),
        forall|j: int| 0 <= j < items.len() ==> old(pending)@[old(pending)@.len() - 1 - j] == items[j],
    ensures
        match constraint_failure(constraint_index as int, *constraint, items, variable_count as nat) {
            Some(error) => result == Err::<CompiledRow, CanonicalizationError<E>>(error),
            None => result matches Ok(row) && row_compiled_from(row, *constraint, items),
        },
        result is Ok ==> final(pending)@ == old(pending)@.take(old(pending)@.len() - items.len()),
{
    proof {
        use_type_invariant(constraint);
    }
    let ghost pending_before = pending@;
    let observation_id = constraint.provenance.observation_id();
    if let Enforcement::Soft { .. } = constraint.enforcement {
        return Err(CanonicalizationError::UnsupportedSoftEnforcement { constraint_index, observation_id });
    }
    let ghost relation = constraint.spec_relation();
    match &constraint.relation {
        SemanticRelation::Equality { expression, target } => {
            let item = pending.pop().unwrap();
            assert(item == items[0]);
            let (affine, shifted) = match shift_expression(
                constraint_index,
                0,
                observation_id,
                expression.constant(),
                item,
                variable_count,
            ) {
                Ok(pair) => pair,
                Err(error) => {
                    proof {
                        assert(relation_expression(relation, 0) == *expression);
                        assert(expressions_failure(constraint_index as int, *constraint, items, variable_count as nat, 0) is None);
                        assert(expressions_failure(constraint_index as int, *constraint, items, variable_count as nat, 1)
                            == Some(error));
                    }
                    return Err(error);
                },
            };
            assert(relation_expression(relation, 0) == *expression);
            assert(expressions_failure(constraint_index as int, *constraint, items, variable_count as nat, 0) is None);
            assert(expressions_failure(constraint_index as int, *constraint, items, variable_count as nat, 1) is None);
            let rhs = match shift_scalar(constraint_index, observation_id, *target, shifted) {
                Ok(value) => value,
                Err(error) => {
                    return Err(error);
                },
            };
            let provenance = constraint.provenance.clone_for_canonical();
            proof {
                assert(pending@ =~= pending_before.take(pending_before.len() - items.len()));
            }
            Ok(CompiledRow::Equality(CanonicalEquality::from_parts(affine.without_constant(), rhs, provenance)))
        },
        SemanticRelation::LinearBound { expression, lower, upper } => {
            let item = pending.pop().unwrap();
            assert(item == items[0]);
            let (affine, shifted) = match shift_expression(
                constraint_index,
                0,
                observation_id,
                expression.constant(),
                item,
                variable_count,
            ) {
                Ok(pair) => pair,
                Err(error) => {
                    proof {
                        assert(relation_expression(relation, 0) == *expression);
                        assert(expressions_failure(constraint_index as int, *constraint, items, variable_count as nat, 0) is None);
                        assert(expressions_failure(constraint_index as int, *constraint, items, variable_count as nat, 1)
                            == Some(error));
                    }
                    return Err(error);
                },
            };
            assert(relation_expression(relation, 0) == *expression);
            assert(expressions_failure(constraint_index as int, *constraint, items, variable_count as nat, 0) is None);
            assert(expressions_failure(constraint_index as int, *constraint, items, variable_count as nat, 1) is None);
            let shifted_lower = match lower {
                Some(value) => match shift_scalar(constraint_index, observation_id, *value, shifted) {
                    Ok(moved) => Some(moved),
                    Err(error) => {
                        return Err(error);
                    },
                },
                None => None,
            };
            let shifted_upper = match upper {
                Some(value) => match shift_scalar(constraint_index, observation_id, *value, shifted) {
                    Ok(moved) => Some(moved),
                    Err(error) => {
                        return Err(error);
                    },
                },
                None => None,
            };
            let provenance = constraint.provenance.clone_for_canonical();
            proof {
                assert(pending@ =~= pending_before.take(pending_before.len() - items.len()));
            }
            Ok(
                CompiledRow::LinearBound(
                    CanonicalLinearBound::from_parts(affine.without_constant(), shifted_lower, shifted_upper, provenance),
                ),
            )
        },
        SemanticRelation::SecondOrderCone { lhs, rhs } => {
            let mut canonical_lhs: Vec<AffineExpression> = Vec::new();
            let mut index: usize = 0;
            while index < lhs.len()
                invariant
                    relation == constraint.spec_relation(),
                    relation == (SemanticRelation::SecondOrderCone { lhs: *lhs, rhs: *rhs }),
                    constraint.spec_enforcement() is Hard,
                    observation_id == constraint_id(*constraint),
                    items.len() == lhs@.len() + 1,
                    index <= lhs@.len(),
                    pending_before.len() >= items.len(),
                    forall|j: int| 0 <= j < items.len() ==> pending_before[pending_before.len() - 1 - j] == items[j],
                    pending@ == pending_before.take(pending_before.len() - index),
                    canonical_lhs@.len() == index,
                    forall|j: int|
                        0 <= j < index ==> #[trigger] shifted_expression(
                            canonical_lhs@[j],
                            *constraint,
                            j,
                            items[j],
                        ),
                    expressions_failure(constraint_index as int, *constraint, items, variable_count as nat, index as int)
                        is None,
                decreases lhs@.len() - index,
            {
                let item = pending.pop().unwrap();
                assert(item == items[index as int]);
                let (affine, shifted) = match shift_expression(
                    constraint_index,
                    index,
                    observation_id,
                    lhs[index].constant(),
                    item,
                    variable_count,
                ) {
                    Ok(pair) => pair,
                    Err(error) => {
                        proof {
                            assert(relation_expression(relation, index as int) == lhs@[index as int]);
                            assert(expressions_failure(
                                constraint_index as int,
                                *constraint,
                                items,
                                variable_count as nat,
                                index + 1,
                            ) == Some(error));
                            lemma_expressions_failure_sticks(
                                constraint_index as int,
                                *constraint,
                                items,
                                variable_count as nat,
                                index + 1,
                                items.len() as int,
                            );
                        }
                        return Err(error);
                    },
                };
                proof {
                    assert(relation_expression(relation, index as int) == lhs@[index as int]);
                    assert(expressions_failure(
                        constraint_index as int,
                        *constraint,
                        items,
                        variable_count as nat,
                        index + 1,
                    ) is None);
                }
                let ghost previous = canonical_lhs@;
                let shifted_affine = affine.with_constant(shifted);
                assert(shifted_expression(shifted_affine, *constraint, index as int, items[index as int]));
                canonical_lhs.push(shifted_affine);
                proof {
                    assert forall|j: int| 0 <= j < index + 1 implies #[trigger] shifted_expression(
                        canonical_lhs@[j],
                        *constraint,
                        j,
                        items[j],
                    ) by {
                        if j < index {
                            assert(canonical_lhs@[j] == previous[j]);
                        }
                    }
                    assert(pending@ =~= pending_before.take(pending_before.len() - (index + 1)));
                }
                index = index + 1;
            }
            let item = pending.pop().unwrap();
            assert(item == items[index as int]);
            let (affine, shifted) = match shift_expression(
                constraint_index,
                index,
                observation_id,
                rhs.constant(),
                item,
                variable_count,
            ) {
                Ok(pair) => pair,
                Err(error) => {
                    proof {
                        assert(relation_expression(relation, index as int) == *rhs);
                        assert(expressions_failure(constraint_index as int, *constraint, items, variable_count as nat, index + 1)
                            == Some(error));
                    }
                    return Err(error);
                },
            };
            proof {
                assert(relation_expression(relation, index as int) == *rhs);
                assert(expressions_failure(constraint_index as int, *constraint, items, variable_count as nat, index + 1)
                    is None);
            }
            let provenance = constraint.provenance.clone_for_canonical();
            proof {
                assert(pending@ =~= pending_before.take(pending_before.len() - items.len()));
            }
            Ok(CompiledRow::Cone(CanonicalSecondOrderCone::from_parts(canonical_lhs, affine.with_constant(shifted), provenance)))
        },
    }
}

/// A constraint compiled among some rows stays compiled among rows that
/// extend them.
proof fn lemma_compiled_extends<F, E>(
    equalities: Seq<CanonicalEquality>,
    bounds: Seq<CanonicalLinearBound>,
    cones: Seq<CanonicalSecondOrderCone>,
    longer_equalities: Seq<CanonicalEquality>,
    longer_bounds: Seq<CanonicalLinearBound>,
    longer_cones: Seq<CanonicalSecondOrderCone>,
    constraints: Seq<SemanticConstraint<F>>,
    linearized: Seq<Result<AffineExpression, E>>,
    index: int,
)
    requires
        constraint_compiled(equalities, bounds, cones, constraints, linearized, index),
        equalities.len() <= longer_equalities.len(),
        bounds.len() <= longer_bounds.len(),
        cones.len() <= longer_cones.len(),
        forall|p: int| 0 <= p < equalities.len() ==> longer_equalities[p] == equalities[p],
        forall|p: int| 0 <= p < bounds.len() ==> longer_bounds[p] == bounds[p],
        forall|p: int| 0 <= p < cones.len() ==> longer_cones[p] == cones[p],
    ensures
        constraint_compiled(longer_equalities, longer_bounds, longer_cones, constraints, linearized, index),
{
}

/// Appends a constraint's compiled row to the rows of its kind.
fn push_row<F, E>(
    row: CompiledRow,
    equalities: &mut Vec<CanonicalEquality>,
    bounds: &mut Vec<CanonicalLinearBound>,
    cones: &mut Vec<CanonicalSecondOrderCone>,
    Ghost(constraints): Ghost<Seq<SemanticConstraint<F>>>,
    Ghost(items): Ghost<Seq<Result<AffineExpression, E>>>,
    Ghost(index): Ghost<int>,
)
    requires
        0 <= index < constraints.len(),
        expressions_before(constraints, index + 1) <= items.len(),
        row_compiled_from(row, constraints[index], constraint_items(constraints, items, index)),
        rows_compiled(old(equalities)@, old(bounds)@, old(cones)@, constraints, items, index),
        equality_term_counts(old(equalities)@) == compiled_equality_terms(constraints, items, index),
        bound_term_counts(old(bounds)@) == compiled_bound_terms(constraints, items, index),
        cone_term_counts(old(cones)@) == compiled_cone_terms(constraints, items, index),
    ensures
        rows_compiled(final(equalities)@, final(bounds)@, final(cones)@, constraints, items, index + 1),
        equality_term_counts(final(equalities)@) == compiled_equality_terms(constraints, items, index + 1),
        bound_term_counts(final(bounds)@) == compiled_bound_terms(constraints, items, index + 1),
        cone_term_counts(final(cones)@) == compiled_cone_terms(constraints, items, index + 1),
{
    let ghost own = constraint_items(constraints, items, index);
    let ghost start = expressions_before(constraints, index) as int;
    let ghost old_equalities = equalities@;
    let ghost old_bounds = bounds@;
    let ghost old_cones = cones@;
    proof {
        lemma_expressions_before_monotone(constraints, index, index + 1);
        assert(own[0] == items[start]);
    }
    match row {
        CompiledRow::Equality(equality) => {
            proof {
                assert(equality_term_counts(old_equalities.push(equality)) =~= equality_term_counts(
                    old_equalities,
                ).push(term_count(equality.spec_row())));
            }
            equalities.push(equality);
        },
        CompiledRow::LinearBound(bound) => {
            proof {
                assert(bound_term_counts(old_bounds.push(bound)) =~= bound_term_counts(old_bounds).push(
                    term_count(bound.spec_row()),
                ));
            }
            bounds.push(bound);
        },
        CompiledRow::Cone(cone) => {
            proof {
                let left = constraints[index].spec_relation()->SecondOrderCone_lhs@.len() as int;
                let counted = own.map_values(|item: Result<AffineExpression, E>| term_count(item->Ok_0));
                assert forall|j: int| 0 <= j < left implies #[trigger] cone_expression_term_counts(cone)[j]
                    == counted[j] by {
                    assert(shifted_expression(cone.spec_lhs()[j], constraints[index], j, own[j]));
                }
                assert(cone_expression_term_counts(cone) =~= counted);
                assert(cone_term_counts(old_cones.push(cone)) =~= cone_term_counts(old_cones).push(
                    cone_expression_term_counts(cone),
                ));
            }
            cones.push(cone);
        },
    }
    proof {
        assert forall|k: int| 0 <= k < index + 1 implies #[trigger] constraint_compiled(
            equalities@,
            bounds@,
            cones@,
            constraints,
            items,
            k,
        ) by {
            if k < index {
                lemma_compiled_extends(
                    old_equalities,
                    old_bounds,
                    old_cones,
                    equalities@,
                    bounds@,
                    cones@,
                    constraints,
                    items,
                    k,
                );
            }
        }
    }
}

/// Compiles constraint `index`, whose linearizations stand at the end of
/// `pending` in reverse order, when no earlier constraint failed.
fn compile_next<F, E>(
    constraints: &Vec<SemanticConstraint<F>>,
    index: usize,
    pending: &mut Vec<Result<AffineExpression, E>>,
    variable_count: usize,
    Ghost(items): Ghost<Seq<Result<AffineExpression, E>>>,
) -> (result: Result<CompiledRow, CanonicalizationError<E>>)
    requires
        index < constraints@.len(),
        items.len() == expressions_before(constraints@, constraints@.len() as int),
        old(pending)@.len() == items.len() - expressions_before(constraints@, index as int),
        forall|j: int| 0 <= j < old(pending)@.len() ==> old(pending)@[j] == items[items.len() - 1 - j],
        compile_failure(constraints@, items, variable_count as nat, index as int) is None,
    ensures
        result matches Err(error) ==> compile_failure(constraints@, items, variable_count as nat, index + 1) == Some(
            error,
        ),
        result matches Ok(row) ==> row_compiled_from(
            row,
            constraints@[index as int],
            constraint_items(constraints@, items, index as int),
        ) && compile_failure(constraints@, items, variable_count as nat, index + 1) is None,
        result is Ok ==> final(pending)@.len() == items.len() - expressions_before(constraints@, index + 1),
        result is Ok ==> forall|j: int|
            0 <= j < final(pending)@.len() ==> final(pending)@[j] == items[items.len() - 1 - j],
{
    let ghost total = items.len() as int;
    proof {
        lemma_expressions_before_monotone(constraints@, index + 1, constraints@.len() as int);
    }
    let ghost start = expressions_before(constraints@, index as int) as int;
    let ghost own = constraint_items(constraints@, items, index as int);
    proof {
        assert forall|j: int| 0 <= j < own.len() implies pending@[pending@.len() - 1 - j] == own[j] by {
            assert(own[j] == items[start + j]);
        }
    }
    let ghost pending_before = pending@;
    let result = compile_constraint(index, &constraints[index], pending, variable_count, Ghost(own));
    proof {
        if result is Ok {
            assert forall|j: int| 0 <= j < pending@.len() implies pending@[j] == items[total - 1 - j] by {
                assert(pending@[j] == pending_before[j]);
            }
        }
    }
    result
}

/// A failure of a prefix of the constraints is what compiling them all
/// gives.
proof fn lemma_failure_reported<F, E>(
    constraints: Seq<SemanticConstraint<F>>,
    linearized: Seq<Result<AffineExpression, E>>,
    variable_space: VariableSpace,
    found: int,
    error: CanonicalizationError<E>,
)
    requires
        0 <= found <= constraints.len(),
        compile_failure(constraints, linearized, variable_space.spec_variable_count(), found) == Some(error),
    ensures
        compile_result(
            Err::<CanonicalProblem, CanonicalizationError<E>>(error),
            constraints,
            linearized,
            variable_space,
        ),
{
    lemma_compile_failure_sticks(
        constraints,
        linearized,
        variable_space.spec_variable_count(),
        found,
        constraints.len() as int,
    );
}

impl<F> SemanticProblemIr<F> {
    /// Compiles the problem to canonical form, given in `linearized` the
    /// caller's linearization of every expression in semantic order (for a
    /// cone its left-hand expressions, then its right-hand one), or the
    /// caller's failure.
    ///
    /// Constraints are compiled in order; the first failure is returned: a
    /// soft constraint, a failed linearization, a linearization naming a
    /// variable outside `variable_space`, or a non-finite shifted scalar (the
    /// affine constant plus the expression's constant, then the target or
    /// the lower and upper bound minus it, each correctly rounded). Equality
    /// and linear-bound rows keep the linearized terms with a zero constant;
    /// cone expressions keep their shifted constants. Fails with
    /// `MemoryEstimateOverflow` when the storage estimate does not fit.
    pub fn try_compile<E>(&self, variable_space: VariableSpace, linearized: Vec<Result<AffineExpression, E>>) -> (result:
        Result<CanonicalProblem, CanonicalizationError<E>>)
        requires
            linearized@.len() == expressions_before(self.spec_constraints(), self.spec_constraints().len() as int),
        ensures
            compile_result(result, self.spec_constraints(), linearized@, variable_space),
    {
        let ghost constraints = self.constraints@;
        let ghost items = linearized@;
        let ghost total = items.len() as int;
        let ghost count = constraints.len() as int;
        let variable_count = variable_space.variable_count();
        let mut source = linearized;
        let mut pending: Vec<Result<AffineExpression, E>> = Vec::new();
        while source.len() > 0
            invariant
                source@.len() + pending@.len() == total,
                forall|j: int| 0 <= j < source@.len() ==> source@[j] == items[j],
                forall|j: int| 0 <= j < pending@.len() ==> pending@[j] == items[total - 1 - j],
            decreases source@.len(),
        {
            let item = source.pop().unwrap();
            pending.push(item);
        }
        let mut equalities: Vec<CanonicalEquality> = Vec::new();
        let mut bounds: Vec<CanonicalLinearBound> = Vec::new();
        let mut cones: Vec<CanonicalSecondOrderCone> = Vec::new();
        proof {
            assert(equality_term_counts(equalities@) =~= compiled_equality_terms(constraints, items, 0));
            assert(bound_term_counts(bounds@) =~= compiled_bound_terms(constraints, items, 0));
            assert(cone_term_counts(cones@) =~= compiled_cone_terms(constraints, items, 0));
        }
        let mut index: usize = 0;
        while index < self.constraints.len()
            invariant
                constraints == self.constraints@,
                items == linearized@,
                count == constraints.len(),
                items.len() == total,
                total == expressions_before(constraints, count),
                index <= count,
                variable_count == variable_space.spec_variable_count(),
                pending@.len() == total - expressions_before(constraints, index as int),
                forall|j: int| 0 <= j < pending@.len() ==> pending@[j] == items[total - 1 - j],
                compile_failure(constraints, items, variable_count as nat, index as int) is None,
                rows_compiled(equalities@, bounds@, cones@, constraints, items, index as int),
                equality_term_counts(equalities@) == compiled_equality_terms(constraints, items, index as int),
                bound_term_counts(bounds@) == compiled_bound_terms(constraints, items, index as int),
                cone_term_counts(cones@) == compiled_cone_terms(constraints, items, index as int),
            decreases count - index,
        {
            let row = match compile_next::<F, E>(&self.constraints, index, &mut pending, variable_count, Ghost(items)) {
                Ok(row) => row,
                Err(error) => {
                    proof {
                        lemma_failure_reported(constraints, items, variable_space, index + 1, error);
                    }
                    return Err(error);
                },
            };
            proof {
                lemma_expressions_before_monotone(constraints, index + 1, count);
            }
            push_row::<F, E>(row, &mut equalities, &mut bounds, &mut cones, Ghost(constraints), Ghost(items), Ghost(index as int));
            index = index + 1;
        }
        match CanonicalProblem::try_new(variable_space, equalities, bounds, cones) {
            Ok(problem) => Ok(problem),
            Err(error) => Err(CanonicalizationError::Ir(error)),
        }
    }
}

impl<F> SemanticProblemIr<F> {
    /// The check compilation makes before linearizing constraint
    /// `constraint_index`: soft enforcement is not compiled.
    pub fn check_enforcement<E>(&self, constraint_index: usize) -> (result: Result<(), CanonicalizationError<E>>)
        requires
            constraint_index < self.spec_constraints().len(),
        ensures
            ({
                let constraint = self.spec_constraints()[constraint_index as int];
                if constraint.spec_enforcement() is Soft {
                    result == Err::<(), CanonicalizationError<E>>(
                        CanonicalizationError::UnsupportedSoftEnforcement {
                            constraint_index,
                            observation_id: constraint_id(constraint),
                        },
                    )
                } else {
                    result is Ok
                }
            }),
    {
        let constraint = &self.constraints[constraint_index];
        if let Enforcement::Soft { .. } = constraint.enforcement {
            return Err(
                CanonicalizationError::UnsupportedSoftEnforcement {
                    constraint_index,
                    observation_id: constraint.provenance.observation_id(),
                },
            );
        }
        Ok(())
    }

    /// Expression `expression_index` of constraint `constraint_index` in
    /// linearization order, or `None` past its last expression.
    pub fn linearized_expression(&self, constraint_index: usize, expression_index: usize) -> (expression: Option<
        &SemanticExpression<F>,
    >)
        requires
            constraint_index < self.spec_constraints().len(),
        ensures
            ({
                let relation = self.spec_constraints()[constraint_index as int].spec_relation();
                if expression_index < relation_expression_count(relation) {
                    expression matches Some(found) && *found == relation_expression(relation, expression_index as int)
                } else {
                    expression is None
                }
            }),
    {
        match &self.constraints[constraint_index].relation {
            SemanticRelation::Equality { expression, .. } => if expression_index == 0 {
                Some(expression)
            } else {
                None
            },
            SemanticRelation::LinearBound { expression, .. } => if expression_index == 0 {
                Some(expression)
            } else {
                None
            },
            SemanticRelation::SecondOrderCone { lhs, rhs } => if expression_index < lhs.len() {
                Some(&lhs[expression_index])
            } else if expression_index == lhs.len() {
                Some(rhs)
            } else {
                None
            },
        }
    }

    /// The checks compilation makes on the linearization of expression
    /// `expression_index` of constraint `constraint_index`, over a space of
    /// `variable_count` variables: the caller's failure, a variable out of
    /// range, a non-finite shifted constant and, for an equality or a linear
    /// bound, a non-finite shifted target or bound. Hands an accepted
    /// linearization back.
    pub fn check_linearization<E>(
        &self,
        constraint_index: usize,
        expression_index: usize,
        linearized: Result<AffineExpression, E>,
        variable_count: usize,
    ) -> (result: Result<AffineExpression, CanonicalizationError<E>>)
        requires
            constraint_index < self.spec_constraints().len(),
            expression_index < relation_expression_count(
                self.spec_constraints()[constraint_index as int].spec_relation(),
            ),
        ensures
            ({
                let constraint = self.spec_constraints()[constraint_index as int];
                match constraint_expression_outcome(
                    constraint_index as int,
                    constraint,
                    expression_index as int,
                    linearized,
                    variable_count as nat,
                ) {
                    Err(error) => result == Err::<AffineExpression, CanonicalizationError<E>>(error),
                    Ok(shifted) => match relation_scalar_failure::<F, E>(constraint_index as int, constraint, shifted) {
                        Some(error) => result == Err::<AffineExpression, CanonicalizationError<E>>(error),
                        None => result == Ok::<AffineExpression, CanonicalizationError<E>>(linearized->Ok_0),
                    },
                }
            }),
    {
        let constraint = &self.constraints[constraint_index];
        proof {
            use_type_invariant(constraint);
        }
        let observation_id = constraint.provenance.observation_id();
        let expression = self.linearized_expression(constraint_index, expression_index).unwrap();
        let (affine, shifted) = match shift_expression(
            constraint_index,
            expression_index,
            observation_id,
            expression.constant(),
            linearized,
            variable_count,
        ) {
            Ok(pair) => pair,
            Err(error) => {
                return Err(error);
            },
        };
        match &constraint.relation {
            SemanticRelation::Equality { target, .. } => {
                if let Err(error) = shift_scalar::<E>(constraint_index, observation_id, *target, shifted) {
                    return Err(error);
                }
            },
            SemanticRelation::LinearBound { lower, upper, .. } => {
                if let Some(value) = lower {
                    if let Err(error) = shift_scalar::<E>(constraint_index, observation_id, *value, shifted) {
                        return Err(error);
                    }
                }
                if let Some(value) = upper {
                    if let Err(error) = shift_scalar::<E>(constraint_index, observation_id, *value, shifted) {
                        return Err(error);
                    }
                }
            },
            SemanticRelation::SecondOrderCone { .. } => {},
        }
        Ok(affine)
    }
}

} // verus!
