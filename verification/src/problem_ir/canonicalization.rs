//! What compiling a semantic problem to canonical form gives: the order in
//! which expressions are linearized, the first failure, and the canonical
//! row that each constraint becomes.
use vstd::prelude::*;

use crate::binary64::binary64_is_finite;
use crate::binary64_sum::{binary64_difference, binary64_sum};
use crate::problem_ir::affine::{AffineExpression, AffineTerm};
use crate::problem_ir::canonical::{
    scalar_bytes, term_bytes, term_count, CanonicalEquality, CanonicalLinearBound, CanonicalProblem,
    CanonicalSecondOrderCone, CanonicalizationError,
};
use crate::problem_ir::semantic::{SemanticConstraint, SemanticExpression, SemanticRelation};
use crate::problem_ir::{shape_estimate_fits, ObservationId, ProblemIrError, VariableSpace};

verus! {

/// How many expressions of a relation are linearized: one for an equality
/// or a linear bound; for a cone its left-hand expressions, then its
/// right-hand one.
pub open spec fn relation_expression_count<F>(relation: SemanticRelation<F>) -> nat {
    match relation {
        SemanticRelation::SecondOrderCone { lhs, .. } => lhs@.len() + 1,
        _ => 1,
    }
}

/// Expression `index` of a relation, in linearization order.
pub open spec fn relation_expression<F>(relation: SemanticRelation<F>, index: int) -> SemanticExpression<F> {
    match relation {
        SemanticRelation::Equality { expression, .. } => expression,
        SemanticRelation::LinearBound { expression, .. } => expression,
        SemanticRelation::SecondOrderCone { lhs, rhs } => if index < lhs@.len() {
            lhs@[index]
        } else {
            rhs
        },
    }
}

/// How many expressions the first `count` constraints hand to the
/// linearizer.
pub open spec fn expressions_before<F>(constraints: Seq<SemanticConstraint<F>>, count: int) -> nat
    decreases count,
{
    if count <= 0 {
        0
    } else {
        expressions_before(constraints, count - 1) + relation_expression_count(
            constraints[count - 1].spec_relation(),
        )
    }
}

/// The linearizations of the expressions of constraint `index`.
pub open spec fn constraint_items<F, E>(
    constraints: Seq<SemanticConstraint<F>>,
    linearized: Seq<Result<AffineExpression, E>>,
    index: int,
) -> Seq<Result<AffineExpression, E>> {
    linearized.subrange(
        expressions_before(constraints, index) as int,
        expressions_before(constraints, index + 1) as int,
    )
}

/// The index of the first term that names a variable at or beyond `count`;
/// the number of terms when there is none.
pub open spec fn first_out_of_range(terms: Seq<AffineTerm>, count: nat) -> nat
    decreases terms.len(),
{
    if terms.len() == 0 {
        0
    } else if terms[0].spec_variable() >= count {
        0
    } else {
        1 + first_out_of_range(terms.skip(1), count)
    }
}

/// What the linearization of one expression gives: the caller's failure;
/// else the first term outside the `variable_count` variables; else the
/// affine constant plus the expression's constant, correctly rounded, which
/// must be finite.
pub open spec fn expression_outcome<E>(
    constraint_index: int,
    expression_index: int,
    observation_id: ObservationId,
    constant: u64,
    linearized: Result<AffineExpression, E>,
    variable_count: nat,
) -> Result<u64, CanonicalizationError<E>> {
    match linearized {
        Err(source) => Err(
            CanonicalizationError::Linearization {
                constraint_index: constraint_index as usize,
                expression_index: expression_index as usize,
                observation_id,
                source,
            },
        ),
        Ok(affine) => {
            let bad = first_out_of_range(affine.spec_terms(), variable_count);
            if bad < affine.spec_terms().len() {
                Err(
                    CanonicalizationError::InvalidLinearization {
                        constraint_index: constraint_index as usize,
                        expression_index: expression_index as usize,
                        observation_id,
                        source: ProblemIrError::AffineVariableOutOfRange {
                            variable: affine.spec_terms()[bad as int].spec_variable(),
                            variable_count: variable_count as usize,
                        },
                    },
                )
            } else {
                let shifted = binary64_sum(affine.spec_constant(), constant);
                if binary64_is_finite(shifted) {
                    Ok(shifted)
                } else {
                    Err(
                        CanonicalizationError::NonFiniteShiftedScalar {
                            constraint_index: constraint_index as usize,
                            observation_id,
                            value: shifted,
                        },
                    )
                }
            }
        },
    }
}

/// The observation identifier of a constraint.
pub open spec fn constraint_id<F>(constraint: SemanticConstraint<F>) -> ObservationId {
    constraint.spec_provenance().spec_observation_id()
}

/// The outcome of expression `index` of a constraint.
pub open spec fn constraint_expression_outcome<F, E>(
    constraint_index: int,
    constraint: SemanticConstraint<F>,
    index: int,
    linearized: Result<AffineExpression, E>,
    variable_count: nat,
) -> Result<u64, CanonicalizationError<E>> {
    expression_outcome(
        constraint_index,
        index,
        constraint_id(constraint),
        relation_expression(constraint.spec_relation(), index).spec_constant(),
        linearized,
        variable_count,
    )
}

/// The first failure among the first `count` expressions of a constraint.
pub open spec fn expressions_failure<F, E>(
    constraint_index: int,
    constraint: SemanticConstraint<F>,
    items: Seq<Result<AffineExpression, E>>,
    variable_count: nat,
    count: int,
) -> Option<CanonicalizationError<E>>
    decreases count,
{
    if count <= 0 {
        None
    } else {
        match expressions_failure(constraint_index, constraint, items, variable_count, count - 1) {
            Some(error) => Some(error),
            None => match constraint_expression_outcome(
                constraint_index,
                constraint,
                count - 1,
                items[count - 1],
                variable_count,
            ) {
                Err(error) => Some(error),
                Ok(_) => None,
            },
        }
    }
}

/// The shifted constant of an accepted linearization of expression `index`.
pub open spec fn shifted_constant<F, E>(
    constraint: SemanticConstraint<F>,
    index: int,
    linearized: Result<AffineExpression, E>,
) -> u64 {
    binary64_sum(
        linearized->Ok_0.spec_constant(),
        relation_expression(constraint.spec_relation(), index).spec_constant(),
    )
}

/// The relation scalars moved across by the shifted constant `shifted`:
/// an equality's target, a linear bound's lower then upper bound. The first
/// that is not finite is the failure.
pub open spec fn relation_scalar_failure<F, E>(
    constraint_index: int,
    constraint: SemanticConstraint<F>,
    shifted: u64,
) -> Option<CanonicalizationError<E>> {
    let failure = |value: u64|
        CanonicalizationError::<E>::NonFiniteShiftedScalar {
            constraint_index: constraint_index as usize,
            observation_id: constraint_id(constraint),
            value,
        };
    match constraint.spec_relation() {
        SemanticRelation::Equality { target, .. } => if !binary64_is_finite(
            binary64_difference(target, shifted),
        ) {
            Some(failure(binary64_difference(target, shifted)))
        } else {
            None
        },
        SemanticRelation::LinearBound { lower, upper, .. } => if lower is Some && !binary64_is_finite(
            binary64_difference(lower->Some_0, shifted),
        ) {
            Some(failure(binary64_difference(lower->Some_0, shifted)))
        } else if upper is Some && !binary64_is_finite(binary64_difference(upper->Some_0, shifted)) {
            Some(failure(binary64_difference(upper->Some_0, shifted)))
        } else {
            None
        },
        SemanticRelation::SecondOrderCone { .. } => None,
    }
}

/// The failure of constraint `constraint_index`, if any: soft enforcement,
/// else the first failing expression, else a non-finite shifted scalar.
pub open spec fn constraint_failure<F, E>(
    constraint_index: int,
    constraint: SemanticConstraint<F>,
    items: Seq<Result<AffineExpression, E>>,
    variable_count: nat,
) -> Option<CanonicalizationError<E>> {
    if constraint.spec_enforcement() is Soft {
        Some(
            CanonicalizationError::UnsupportedSoftEnforcement {
                constraint_index: constraint_index as usize,
                observation_id: constraint_id(constraint),
            },
        )
    } else {
        match expressions_failure(
            constraint_index,
            constraint,
            items,
            variable_count,
            relation_expression_count(constraint.spec_relation()) as int,
        ) {
            Some(error) => Some(error),
            None => relation_scalar_failure(
                constraint_index,
                constraint,
                shifted_constant(constraint, 0, items[0]),
            ),
        }
    }
}

/// The first failure among the first `count` constraints, in order.
pub open spec fn compile_failure<F, E>(
    constraints: Seq<SemanticConstraint<F>>,
    linearized: Seq<Result<AffineExpression, E>>,
    variable_count: nat,
    count: int,
) -> Option<CanonicalizationError<E>>
    decreases count,
{
    if count <= 0 {
        None
    } else {
        match compile_failure(constraints, linearized, variable_count, count - 1) {
            Some(error) => Some(error),
            None => constraint_failure(
                count - 1,
                constraints[count - 1],
                constraint_items(constraints, linearized, count - 1),
                variable_count,
            ),
        }
    }
}

/// How many of the first `count` constraints are equalities.
pub open spec fn equalities_before<F>(constraints: Seq<SemanticConstraint<F>>, count: int) -> nat
    decreases count,
{
    if count <= 0 {
        0
    } else {
        equalities_before(constraints, count - 1) + if constraints[count - 1].spec_relation() is Equality {
            1nat
        } else {
            0nat
        }
    }
}

/// How many of the first `count` constraints are linear bounds.
pub open spec fn bounds_before<F>(constraints: Seq<SemanticConstraint<F>>, count: int) -> nat
    decreases count,
{
    if count <= 0 {
        0
    } else {
        bounds_before(constraints, count - 1) + if constraints[count - 1].spec_relation() is LinearBound {
            1nat
        } else {
            0nat
        }
    }
}

/// How many of the first `count` constraints are cones.
pub open spec fn cones_before<F>(constraints: Seq<SemanticConstraint<F>>, count: int) -> nat
    decreases count,
{
    if count <= 0 {
        0
    } else {
        cones_before(constraints, count - 1) + if constraints[count - 1].spec_relation() is SecondOrderCone {
            1nat
        } else {
            0nat
        }
    }
}

/// The term counts of the equality rows of the first `count` constraints.
pub open spec fn compiled_equality_terms<F, E>(
    constraints: Seq<SemanticConstraint<F>>,
    linearized: Seq<Result<AffineExpression, E>>,
    count: int,
) -> Seq<usize>
    decreases count,
{
    if count <= 0 {
        seq![]
    } else {
        let before = compiled_equality_terms(constraints, linearized, count - 1);
        if constraints[count - 1].spec_relation() is Equality {
            before.push(term_count(linearized[expressions_before(constraints, count - 1) as int]->Ok_0))
        } else {
            before
        }
    }
}

/// The term counts of the linear-bound rows of the first `count`
/// constraints.
pub open spec fn compiled_bound_terms<F, E>(
    constraints: Seq<SemanticConstraint<F>>,
    linearized: Seq<Result<AffineExpression, E>>,
    count: int,
) -> Seq<usize>
    decreases count,
{
    if count <= 0 {
        seq![]
    } else {
        let before = compiled_bound_terms(constraints, linearized, count - 1);
        if constraints[count - 1].spec_relation() is LinearBound {
            before.push(term_count(linearized[expressions_before(constraints, count - 1) as int]->Ok_0))
        } else {
            before
        }
    }
}

/// The term counts of the cone expressions of the first `count`
/// constraints.
pub open spec fn compiled_cone_terms<F, E>(
    constraints: Seq<SemanticConstraint<F>>,
    linearized: Seq<Result<AffineExpression, E>>,
    count: int,
) -> Seq<Seq<usize>>
    decreases count,
{
    if count <= 0 {
        seq![]
    } else {
        let before = compiled_cone_terms(constraints, linearized, count - 1);
        if constraints[count - 1].spec_relation() is SecondOrderCone {
            before.push(
                constraint_items(constraints, linearized, count - 1).map_values(
                    |item: Result<AffineExpression, E>| term_count(item->Ok_0),
                ),
            )
        } else {
            before
        }
    }
}

/// An equality row compiled from an equality constraint: the linearized
/// terms with a zero constant, the target moved across by the shifted
/// constant, and the constraint's provenance.
pub open spec fn equality_row<F, E>(
    row: CanonicalEquality,
    constraint: SemanticConstraint<F>,
    linearized: Result<AffineExpression, E>,
) -> bool {
    &&& row.spec_row().spec_terms() == linearized->Ok_0.spec_terms()
    &&& row.spec_row().spec_constant() == 0
    &&& row.spec_rhs() == binary64_difference(
        constraint.spec_relation()->Equality_target,
        shifted_constant(constraint, 0, linearized),
    )
    &&& row.spec_provenance() == constraint.spec_provenance()
}

/// A bound moved across by the shifted constant.
pub open spec fn shifted_bound(bound: Option<u64>, shifted: u64) -> Option<u64> {
    match bound {
        Some(value) => Some(binary64_difference(value, shifted)),
        None => None,
    }
}

/// A linear-bound row compiled from a linear-bound constraint: the
/// linearized terms with a zero constant, each present bound moved across
/// by the shifted constant, and the constraint's provenance.
pub open spec fn bound_row<F, E>(
    row: CanonicalLinearBound,
    constraint: SemanticConstraint<F>,
    linearized: Result<AffineExpression, E>,
) -> bool {
    &&& row.spec_row().spec_terms() == linearized->Ok_0.spec_terms()
    &&& row.spec_row().spec_constant() == 0
    &&& row.spec_lower() == shifted_bound(
        constraint.spec_relation()->LinearBound_lower,
        shifted_constant(constraint, 0, linearized),
    )
    &&& row.spec_upper() == shifted_bound(
        constraint.spec_relation()->LinearBound_upper,
        shifted_constant(constraint, 0, linearized),
    )
    &&& row.spec_provenance() == constraint.spec_provenance()
}

/// A linearized expression kept with its shifted constant.
pub open spec fn shifted_expression<F, E>(
    expression: AffineExpression,
    constraint: SemanticConstraint<F>,
    index: int,
    linearized: Result<AffineExpression, E>,
) -> bool {
    &&& expression.spec_terms() == linearized->Ok_0.spec_terms()
    &&& expression.spec_constant() == shifted_constant(constraint, index, linearized)
}

/// A cone compiled from a cone constraint: each left-hand expression and
/// then the right-hand one linearized with its shifted constant, and the
/// constraint's provenance.
pub open spec fn cone_row<F, E>(
    cone: CanonicalSecondOrderCone,
    constraint: SemanticConstraint<F>,
    items: Seq<Result<AffineExpression, E>>,
) -> bool {
    let left = constraint.spec_relation()->SecondOrderCone_lhs@.len();
    &&& cone.spec_lhs().len() == left
    &&& forall|j: int|
        0 <= j < left ==> #[trigger] shifted_expression(cone.spec_lhs()[j], constraint, j, items[j])
    &&& shifted_expression(cone.spec_rhs(), constraint, left as int, items[left as int])
    &&& cone.spec_provenance() == constraint.spec_provenance()
}

/// Constraint `index` appears as its row among the compiled rows: an
/// equality at its place among the equalities, a linear bound among the
/// bounds, a cone among the cones.
pub open spec fn constraint_compiled<F, E>(
    equalities: Seq<CanonicalEquality>,
    bounds: Seq<CanonicalLinearBound>,
    cones: Seq<CanonicalSecondOrderCone>,
    constraints: Seq<SemanticConstraint<F>>,
    linearized: Seq<Result<AffineExpression, E>>,
    index: int,
) -> bool {
    let items = constraint_items(constraints, linearized, index);
    match constraints[index].spec_relation() {
        SemanticRelation::Equality { .. } => {
            let place = equalities_before(constraints, index) as int;
            place < equalities.len() && equality_row(equalities[place], constraints[index], items[0])
        },
        SemanticRelation::LinearBound { .. } => {
            let place = bounds_before(constraints, index) as int;
            place < bounds.len() && bound_row(bounds[place], constraints[index], items[0])
        },
        SemanticRelation::SecondOrderCone { .. } => {
            let place = cones_before(constraints, index) as int;
            place < cones.len() && cone_row(cones[place], constraints[index], items)
        },
    }
}

/// The rows compiled from the first `count` constraints: as many rows of
/// each kind as constraints of that kind, each at its place.
pub open spec fn rows_compiled<F, E>(
    equalities: Seq<CanonicalEquality>,
    bounds: Seq<CanonicalLinearBound>,
    cones: Seq<CanonicalSecondOrderCone>,
    constraints: Seq<SemanticConstraint<F>>,
    linearized: Seq<Result<AffineExpression, E>>,
    count: int,
) -> bool {
    &&& equalities.len() == equalities_before(constraints, count)
    &&& bounds.len() == bounds_before(constraints, count)
    &&& cones.len() == cones_before(constraints, count)
    &&& forall|index: int|
        0 <= index < count ==> #[trigger] constraint_compiled(
            equalities,
            bounds,
            cones,
            constraints,
            linearized,
            index,
        )
}

/// What compiling gives: the first failure; else, when the storage estimate
/// of the compiled rows fits, the canonical problem of exactly those rows;
/// else `MemoryEstimateOverflow`.
pub open spec fn compile_result<F, E>(
    result: Result<CanonicalProblem, CanonicalizationError<E>>,
    constraints: Seq<SemanticConstraint<F>>,
    linearized: Seq<Result<AffineExpression, E>>,
    variable_space: VariableSpace,
) -> bool {
    let count = constraints.len() as int;
    let variables = variable_space.spec_variable_count();
    match compile_failure(constraints, linearized, variables, count) {
        Some(error) => result == Err::<CanonicalProblem, CanonicalizationError<E>>(error),
        None => if shape_estimate_fits(
            variables,
            compiled_equality_terms(constraints, linearized, count),
            compiled_bound_terms(constraints, linearized, count),
            compiled_cone_terms(constraints, linearized, count),
            term_bytes(),
            scalar_bytes(),
        ) {
            result matches Ok(problem) && rows_compiled(
                problem.spec_equalities(),
                problem.spec_linear_bounds(),
                problem.spec_second_order_cones(),
                constraints,
                linearized,
                count,
            ) && problem.assembled_from(
                variable_space,
                problem.spec_equalities(),
                problem.spec_linear_bounds(),
                problem.spec_second_order_cones(),
            )
        } else {
            result == Err::<CanonicalProblem, CanonicalizationError<E>>(
                CanonicalizationError::Ir(ProblemIrError::MemoryEstimateOverflow),
            )
        },
    }
}

/// More constraints never hand fewer expressions to the linearizer.
pub proof fn lemma_expressions_before_monotone<F>(constraints: Seq<SemanticConstraint<F>>, shorter: int, longer: int)
    requires
        0 <= shorter <= longer,
    ensures
        expressions_before(constraints, shorter) <= expressions_before(constraints, longer),
    decreases longer - shorter,
{
    if shorter < longer {
        lemma_expressions_before_monotone(constraints, shorter, longer - 1);
    }
}

/// The first out-of-range term is the one that a scan from the start stops
/// at.
pub proof fn lemma_first_out_of_range(terms: Seq<AffineTerm>, count: nat, index: int)
    requires
        0 <= index <= terms.len(),
        forall|earlier: int| 0 <= earlier < index ==> terms[earlier].spec_variable() < count,
        index < terms.len() ==> terms[index].spec_variable() >= count,
    ensures
        first_out_of_range(terms, count) == index,
    decreases terms.len(),
{
    if terms.len() > 0 && index > 0 {
        let rest = terms.skip(1);
        assert forall|earlier: int| 0 <= earlier < index - 1 implies rest[earlier].spec_variable() < count by {
            assert(rest[earlier] == terms[earlier + 1]);
        }
        if index < terms.len() {
            assert(rest[index - 1] == terms[index]);
        }
        lemma_first_out_of_range(rest, count, index - 1);
    }
}

} // verus!
