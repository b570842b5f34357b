use lib::binary64_sum::{binary64_add, binary64_subtract};
use lib::problem_ir::{
    AffineExpression, AffineTerm, CanonicalizationError, Enforcement, ExecutionOptions, NonZeroCount,
    ObservationId, ProblemIrError, SemanticConstraint, SemanticExpression, SemanticProblemIr,
    SemanticProvenance, SemanticRelation, SoftLoss, SourceLocation, VariableBlock, VariableSpace,
};

fn bits(value: f64) -> u64 {
    value.to_bits()
}

fn provenance(identifier: u64) -> SemanticProvenance {
    let source =
        SourceLocation::try_new("model.csv".to_string(), NonZeroCount::new(2).unwrap()).unwrap();
    SemanticProvenance::try_new(
        ObservationId::new(identifier),
        source,
        "m".to_string(),
        "field/contacts".to_string(),
        Some("group".to_string()),
    )
    .unwrap()
}

fn expression(functional: u32, constant: f64) -> SemanticExpression<u32> {
    SemanticExpression::try_new(functional, bits(constant)).unwrap()
}

fn affine(terms: &[(usize, f64)], constant: f64) -> AffineExpression {
    let terms = terms
        .iter()
        .map(|(variable, coefficient)| AffineTerm::try_new(*variable, bits(*coefficient)).unwrap())
        .collect();
    AffineExpression::try_new(terms, bits(constant)).unwrap()
}

fn hard(identifier: u64, relation: SemanticRelation<u32>) -> SemanticConstraint<u32> {
    SemanticConstraint::try_new(provenance(identifier), relation, Enforcement::Hard).unwrap()
}

fn space() -> VariableSpace {
    VariableSpace::try_new(vec![
        VariableBlock::try_new("field".to_string(), NonZeroCount::new(3).unwrap()).unwrap(),
    ])
    .unwrap()
}

fn mixed_problem() -> SemanticProblemIr<u32> {
    SemanticProblemIr::try_new(
        vec![
            hard(1, SemanticRelation::Equality { expression: expression(10, 0.5), target: bits(2.0) }),
            hard(
                2,
                SemanticRelation::LinearBound {
                    expression: expression(11, 0.0),
                    lower: Some(bits(-1.0)),
                    upper: Some(bits(3.0)),
                },
            ),
            hard(
                3,
                SemanticRelation::SecondOrderCone {
                    lhs: vec![expression(12, 0.0), expression(13, 1.0)],
                    rhs: expression(14, 0.25),
                },
            ),
        ],
        ExecutionOptions::default(),
    )
    .unwrap()
}

fn mixed_linearizations() -> Vec<Result<AffineExpression, &'static str>> {
    vec![
        Ok(affine(&[(0, 1.0)], 1.0)),
        Ok(affine(&[(1, 2.0)], 0.25)),
        Ok(affine(&[(0, 1.0)], 0.0)),
        Ok(affine(&[(1, 1.0)], 0.5)),
        Ok(affine(&[(2, 1.0)], 0.0)),
    ]
}

fn term_pairs(row: &AffineExpression) -> Vec<(usize, u64)> {
    row.terms().iter().map(|term| (term.variable(), term.coefficient())).collect()
}

#[test]
fn rounded_sums_match_binary64_arithmetic() {
    let cases = [
        (0.1, 0.2),
        (1.5, 2.25),
        (1e308, 1e308),
        (-1e308, -1e308),
        (9007199254740992.0, 1.0),
        (9007199254740992.0, 3.0),
        (5e-324, 5e-324),
        (2.2250738585072014e-308, -2.225073858507201e-308),
        (1.0, -1.0),
        (-0.0, -0.0),
        (0.0, -0.0),
        (-3.0, 1e-20),
        (f64::MAX, -f64::MAX),
    ];
    for (first, second) in cases {
        assert_eq!(binary64_add(bits(first), bits(second)), bits(first + second), "{first} + {second}");
        assert_eq!(binary64_subtract(bits(first), bits(second)), bits(first - second), "{first} - {second}");
    }
}

#[test]
fn semantic_problems_compile_to_canonical_rows() {
    let problem = mixed_problem();
    let canonical = problem.try_compile(space(), mixed_linearizations()).unwrap();
    assert_eq!(canonical.variable_count(), 3);
    assert_eq!(canonical.variable_blocks().blocks()[0].name(), "field");
    assert_eq!(canonical.variable_blocks().offsets(), &[0]);

    let equalities = canonical.equalities();
    assert_eq!(equalities.len(), 1);
    assert_eq!(term_pairs(equalities[0].row()), vec![(0, bits(1.0))]);
    assert_eq!(equalities[0].row().constant(), bits(0.0));
    assert_eq!(equalities[0].rhs(), bits(0.5));
    assert_eq!(equalities[0].provenance(), &provenance(1));

    let bounds = canonical.linear_bounds();
    assert_eq!(bounds.len(), 1);
    assert_eq!(term_pairs(bounds[0].row()), vec![(1, bits(2.0))]);
    assert_eq!(bounds[0].row().constant(), bits(0.0));
    assert_eq!(bounds[0].lower(), Some(bits(-1.25)));
    assert_eq!(bounds[0].upper(), Some(bits(2.75)));
    assert_eq!(bounds[0].provenance().observation_id(), ObservationId::new(2));

    let cones = canonical.second_order_cones();
    assert_eq!(cones.len(), 1);
    assert_eq!(cones[0].lhs().len(), 2);
    assert_eq!(term_pairs(&cones[0].lhs()[0]), vec![(0, bits(1.0))]);
    assert_eq!(cones[0].lhs()[0].constant(), bits(0.0));
    assert_eq!(cones[0].lhs()[1].constant(), bits(1.5));
    assert_eq!(term_pairs(cones[0].rhs()), vec![(2, bits(1.0))]);
    assert_eq!(cones[0].rhs().constant(), bits(0.25));

    let scaling = canonical.scaling();
    assert_eq!(scaling.variable(), &[bits(1.0); 3]);
    assert_eq!(scaling.equality(), &[bits(1.0)]);
    assert_eq!(scaling.linear_bound(), &[bits(1.0)]);
    assert_eq!(scaling.cone(), &[bits(1.0)]);
    let capabilities = canonical.capabilities();
    assert!(capabilities.has_equalities && capabilities.has_linear_bounds && capabilities.has_second_order_cones);
    let estimate = canonical.memory_estimate();
    assert_eq!(estimate.coefficient_count, 5);
    assert_eq!(estimate.numeric_bytes, 14 * 8 + 5 * core::mem::size_of::<AffineTerm>());
}

#[test]
fn soft_constraints_are_not_compiled() {
    let soft = SemanticConstraint::try_new(
        provenance(9),
        SemanticRelation::Equality { expression: expression(1, 0.0), target: bits(1.0) },
        Enforcement::Soft { scale: bits(1.0), loss: SoftLoss::SquaredL2 },
    )
    .unwrap();
    let problem = SemanticProblemIr::try_new(
        vec![hard(1, SemanticRelation::Equality { expression: expression(0, 0.0), target: bits(0.0) }), soft],
        ExecutionOptions::default(),
    )
    .unwrap();
    let linearized = vec![Ok::<AffineExpression, &str>(affine(&[(0, 1.0)], 0.0)), Ok(affine(&[(1, 1.0)], 0.0))];
    assert!(matches!(
        problem.try_compile(space(), linearized),
        Err(CanonicalizationError::UnsupportedSoftEnforcement { constraint_index: 1, observation_id })
            if observation_id == ObservationId::new(9)
    ));
    assert!(matches!(
        problem.check_enforcement::<&str>(1),
        Err(CanonicalizationError::UnsupportedSoftEnforcement { constraint_index: 1, .. })
    ));
    assert!(problem.check_enforcement::<&str>(0).is_ok());
}

#[test]
fn the_first_failing_linearization_is_reported() {
    let problem = mixed_problem();
    let mut failed = mixed_linearizations();
    failed[3] = Err("no gradient");
    assert!(matches!(
        problem.try_compile(space(), failed),
        Err(CanonicalizationError::Linearization {
            constraint_index: 2,
            expression_index: 1,
            observation_id,
            source: "no gradient",
        }) if observation_id == ObservationId::new(3)
    ));
    let mut outside = mixed_linearizations();
    outside[1] = Ok(affine(&[(1, 1.0), (4, 1.0), (7, 1.0)], 0.0));
    outside[4] = Err("later");
    assert!(matches!(
        problem.try_compile(space(), outside),
        Err(CanonicalizationError::InvalidLinearization {
            constraint_index: 1,
            expression_index: 0,
            source: ProblemIrError::AffineVariableOutOfRange { variable: 4, variable_count: 3 },
            ..
        })
    ));
    let mut right_hand = mixed_linearizations();
    right_hand[4] = Err("rhs");
    assert!(matches!(
        problem.try_compile(space(), right_hand),
        Err(CanonicalizationError::Linearization { constraint_index: 2, expression_index: 2, .. })
    ));
}

#[test]
fn non_finite_shifts_are_rejected() {
    let problem = SemanticProblemIr::try_new(
        vec![hard(5, SemanticRelation::Equality { expression: expression(0, 1e308), target: bits(-1e308) })],
        ExecutionOptions::default(),
    )
    .unwrap();
    let overflowing_constant = vec![Ok::<AffineExpression, &str>(affine(&[(0, 1.0)], 1e308))];
    assert!(matches!(
        problem.try_compile(space(), overflowing_constant),
        Err(CanonicalizationError::NonFiniteShiftedScalar { constraint_index: 0, value, .. })
            if value == bits(f64::INFINITY)
    ));
    let overflowing_target = vec![Ok::<AffineExpression, &str>(affine(&[(0, 1.0)], -2e307))];
    assert!(matches!(
        problem.try_compile(space(), overflowing_target),
        Err(CanonicalizationError::NonFiniteShiftedScalar { constraint_index: 0, value, .. })
            if value == bits(f64::NEG_INFINITY)
    ));
    assert!(matches!(
        problem.check_linearization(0, 0, Ok::<AffineExpression, &str>(affine(&[(0, 1.0)], -2e307)), 3),
        Err(CanonicalizationError::NonFiniteShiftedScalar { value, .. }) if value == bits(f64::NEG_INFINITY)
    ));
    let bounded = SemanticProblemIr::try_new(
        vec![hard(
            6,
            SemanticRelation::LinearBound {
                expression: expression(0, 0.0),
                lower: Some(bits(-1e308)),
                upper: Some(bits(1e308)),
            },
        )],
        ExecutionOptions::default(),
    )
    .unwrap();
    let shifted = vec![Ok::<AffineExpression, &str>(affine(&[(0, 1.0)], -1e308))];
    let canonical = bounded.try_compile(space(), vec![Ok::<AffineExpression, &str>(affine(&[(0, 1.0)], 1.0))]).unwrap();
    assert_eq!(canonical.linear_bounds()[0].lower(), Some(bits(-1e308 - 1.0)));
    assert!(matches!(
        bounded.try_compile(space(), shifted),
        Err(CanonicalizationError::NonFiniteShiftedScalar { value, .. }) if value == bits(f64::INFINITY)
    ));
}

#[test]
fn linearizations_are_checked_one_at_a_time() {
    let problem = mixed_problem();
    assert!(problem.linearized_expression(0, 0).is_some());
    assert!(problem.linearized_expression(0, 1).is_none());
    assert_eq!(problem.linearized_expression(2, 1).unwrap().constant(), bits(1.0));
    assert_eq!(problem.linearized_expression(2, 2).unwrap().constant(), bits(0.25));
    assert!(problem.linearized_expression(2, 3).is_none());
    let accepted = problem.check_linearization::<&str>(1, 0, Ok(affine(&[(2, 1.0)], 0.75)), 3).unwrap();
    assert_eq!(accepted.constant(), bits(0.75));
    assert!(matches!(
        problem.check_linearization::<&str>(2, 2, Ok(affine(&[(3, 1.0)], 0.0)), 3),
        Err(CanonicalizationError::InvalidLinearization { expression_index: 2, .. })
    ));
}
