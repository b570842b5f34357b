use lib::linear_constraints::{
    gap_term_count, region_uses_upper_bound, validate_monotonicity_functional, FunctionalShape,
    InsideOrientation, LinearConstraint, LinearConstraintError, LinearConstraintKind,
    MonotonicitySense, RegionSide, ONE_BITS,
};
use lib::problem_ir::semantic::validate_relation_scalar;
use lib::problem_ir::{
    AffineExpression, AffineTerm, Enforcement, ExecutionOptions, NonZeroCount, ObservationId,
    ProblemIrError, SemanticConstraint, SemanticExpression, SemanticProblemIr, SemanticProvenance,
    SemanticRelation, SoftLoss, SourceLocation,
};

fn bits(value: f64) -> u64 {
    value.to_bits()
}

fn provenance(identifier: u64) -> SemanticProvenance {
    let source =
        SourceLocation::try_new("survey.csv".to_string(), NonZeroCount::new(3).unwrap()).unwrap();
    SemanticProvenance::try_new(
        ObservationId::new(identifier),
        source,
        "m".to_string(),
        "contacts/top".to_string(),
        None,
    )
    .unwrap()
}

fn unit_shape() -> FunctionalShape {
    FunctionalShape { term_count: 1, first_coefficient: ONE_BITS, first_is_directional_derivative: true }
}

#[test]
fn region_side_and_orientation_pick_the_bound() {
    assert!(region_uses_upper_bound(RegionSide::Inside, InsideOrientation::InsideAtOrBelow));
    assert!(!region_uses_upper_bound(RegionSide::Outside, InsideOrientation::InsideAtOrBelow));
    assert!(!region_uses_upper_bound(RegionSide::Inside, InsideOrientation::InsideAtOrAbove));
    assert!(region_uses_upper_bound(RegionSide::Outside, InsideOrientation::InsideAtOrAbove));
}

#[test]
fn constraints_lower_to_their_bounds() {
    let lower = LinearConstraint::try_lower(provenance(1), 'f', bits(1.0), Enforcement::Hard).unwrap();
    assert_eq!(lower.lowered_bounds(), (Some(bits(1.0)), None));
    let upper = LinearConstraint::try_upper(provenance(2), 'f', bits(2.0), Enforcement::Hard).unwrap();
    assert_eq!(upper.lowered_bounds(), (None, Some(bits(2.0))));
    let interval =
        LinearConstraint::try_interval(provenance(3), 'f', bits(-1.0), bits(1.0), Enforcement::Hard)
            .unwrap();
    assert_eq!(interval.lowered_bounds(), (Some(bits(-1.0)), Some(bits(1.0))));
    let region = LinearConstraint::try_region(
        provenance(4),
        'f',
        bits(5.0),
        RegionSide::Outside,
        InsideOrientation::InsideAtOrBelow,
        Enforcement::Hard,
    )
    .unwrap();
    assert_eq!(region.lowered_bounds(), (Some(bits(5.0)), None));
    let gap =
        LinearConstraint::try_scalar_gap(provenance(5), 'a', 'b', bits(0.0), Enforcement::Hard).unwrap();
    assert_eq!(gap.lowered_bounds(), (Some(bits(0.0)), None));
    let decreasing = LinearConstraint::try_monotonicity(
        provenance(6),
        'd',
        unit_shape(),
        MonotonicitySense::Decreasing,
        bits(0.25),
        Enforcement::Hard,
    )
    .unwrap();
    assert_eq!(decreasing.lowered_bounds(), (None, Some(bits(-0.25))));
    assert_eq!(
        *decreasing.kind(),
        LinearConstraintKind::Monotonicity {
            derivative: 'd',
            sense: MonotonicitySense::Decreasing,
            minimum_rate: bits(0.25)
        }
    );
    assert_eq!(decreasing.provenance().observation_id(), ObservationId::new(6));
    assert_eq!(decreasing.enforcement(), Enforcement::Hard);
}

#[test]
fn constraint_construction_errors() {
    assert_eq!(
        LinearConstraint::try_lower(provenance(1), 'f', bits(f64::NAN), Enforcement::Hard).err(),
        Some(LinearConstraintError::NonFiniteThreshold { value: bits(f64::NAN) })
    );
    assert_eq!(
        LinearConstraint::try_interval(provenance(1), 'f', bits(2.0), bits(1.0), Enforcement::Hard)
            .err(),
        Some(LinearConstraintError::ReversedInterval { lower: bits(2.0), upper: bits(1.0) })
    );
    assert!(
        LinearConstraint::try_interval(provenance(1), 'f', bits(0.0), bits(-0.0), Enforcement::Hard)
            .is_ok()
    );
    assert_eq!(
        LinearConstraint::try_scalar_gap(provenance(1), 'a', 'b', bits(-1.0), Enforcement::Hard).err(),
        Some(LinearConstraintError::InvalidMinimumGap { minimum_gap: bits(-1.0) })
    );
    assert!(
        LinearConstraint::try_scalar_gap(provenance(1), 'a', 'b', bits(-0.0), Enforcement::Hard).is_ok()
    );
    assert_eq!(
        LinearConstraint::try_monotonicity(
            provenance(1),
            'd',
            unit_shape(),
            MonotonicitySense::Increasing,
            bits(f64::INFINITY),
            Enforcement::Hard
        )
        .err(),
        Some(LinearConstraintError::InvalidMinimumRate { minimum_rate: bits(f64::INFINITY) })
    );
    let soft = Enforcement::Soft { scale: bits(0.0), loss: SoftLoss::SquaredL2 };
    assert_eq!(
        LinearConstraint::try_upper(provenance(1), 'f', bits(1.0), soft).err(),
        Some(LinearConstraintError::Ir(ProblemIrError::InvalidSoftScale { value: bits(0.0) }))
    );
}

#[test]
fn monotonicity_needs_one_unit_directional_term() {
    let mut shape = unit_shape();
    assert_eq!(validate_monotonicity_functional(shape), Ok(()));
    shape.term_count = 2;
    assert_eq!(
        validate_monotonicity_functional(shape),
        Err(LinearConstraintError::InvalidMonotonicityTermCount { count: 2 })
    );
    shape.term_count = 1;
    shape.first_coefficient = bits(2.0);
    assert_eq!(
        validate_monotonicity_functional(shape),
        Err(LinearConstraintError::InvalidMonotonicityCoefficient { coefficient: bits(2.0) })
    );
    shape.first_coefficient = bits(1.0);
    shape.first_is_directional_derivative = false;
    assert_eq!(
        validate_monotonicity_functional(shape),
        Err(LinearConstraintError::MonotonicityRequiresDirectionalDerivative)
    );
    assert_eq!(gap_term_count(2, 3), Ok(5));
    assert_eq!(gap_term_count(usize::MAX, 1), Err(LinearConstraintError::TermCountOverflow));
}

#[test]
fn enforcement_validation_checks_scale_then_delta() {
    assert_eq!(Enforcement::Hard.validate(), Ok(()));
    let huber = |scale: f64, delta: f64| Enforcement::Soft {
        scale: bits(scale),
        loss: SoftLoss::Huber { delta: bits(delta) },
    };
    assert_eq!(huber(1.0, 0.5).validate(), Ok(()));
    assert_eq!(
        huber(f64::NAN, -1.0).validate(),
        Err(ProblemIrError::InvalidSoftScale { value: bits(f64::NAN) })
    );
    assert_eq!(
        huber(1.0, -1.0).validate(),
        Err(ProblemIrError::InvalidHuberDelta { value: bits(-1.0) })
    );
}

#[test]
fn affine_terms_and_expressions() {
    assert_eq!(
        AffineTerm::try_new(4, bits(f64::NAN)).err(),
        Some(ProblemIrError::NonFiniteAffineCoefficient { variable: 4, value: bits(f64::NAN) })
    );
    assert_eq!(
        AffineTerm::try_new(4, bits(-0.0)).err(),
        Some(ProblemIrError::ZeroAffineCoefficient { variable: 4 })
    );
    let first = AffineTerm::try_new(1, bits(2.0)).unwrap();
    let second = AffineTerm::try_new(3, bits(-1.0)).unwrap();
    assert_eq!((first.variable(), first.coefficient()), (1, bits(2.0)));
    assert_eq!(
        AffineExpression::try_new(vec![first, second], bits(f64::INFINITY)).err(),
        Some(ProblemIrError::NonFiniteAffineConstant { value: bits(f64::INFINITY) })
    );
    assert_eq!(
        AffineExpression::try_new(vec![first, second, second], bits(0.0)).err(),
        Some(ProblemIrError::NonIncreasingAffineIndices { previous: 3, current: 3 })
    );
    let expression = AffineExpression::try_new(vec![first, second], bits(7.0)).unwrap();
    assert_eq!(expression.terms(), &[first, second]);
    assert_eq!(expression.constant(), bits(7.0));
    assert_eq!(expression.validate_variable_count(4), Ok(()));
    assert_eq!(
        expression.validate_variable_count(3),
        Err(ProblemIrError::AffineVariableOutOfRange { variable: 3, variable_count: 3 })
    );
    let bare = expression.without_constant();
    assert_eq!(bare.constant(), 0);
    assert_eq!(bare.terms().len(), 2);
    assert!(AffineExpression::try_new(vec![], bits(1.0)).is_ok());
}

#[test]
fn semantic_relations_validate_their_scalars() {
    let expression = || SemanticExpression::try_new('f', bits(0.0)).unwrap();
    assert_eq!(
        SemanticExpression::try_new('f', bits(f64::NAN)).err(),
        Some(ProblemIrError::NonFiniteSemanticScalar { value: bits(f64::NAN) })
    );
    assert_eq!(validate_relation_scalar(bits(1.0)), Ok(()));
    let missing = SemanticRelation::LinearBound { expression: expression(), lower: None, upper: None };
    assert_eq!(missing.validate(), Err(ProblemIrError::MissingLinearBound));
    let reversed = SemanticRelation::LinearBound {
        expression: expression(),
        lower: Some(bits(2.0)),
        upper: Some(bits(1.0)),
    };
    assert_eq!(
        reversed.validate(),
        Err(ProblemIrError::ReversedLinearBounds { lower: bits(2.0), upper: bits(1.0) })
    );
    let non_finite = SemanticRelation::LinearBound {
        expression: expression(),
        lower: Some(bits(f64::NAN)),
        upper: Some(bits(f64::INFINITY)),
    };
    assert_eq!(
        non_finite.validate(),
        Err(ProblemIrError::NonFiniteSemanticScalar { value: bits(f64::NAN) })
    );
    let cone = SemanticRelation::SecondOrderCone { lhs: vec![], rhs: expression() };
    assert_eq!(cone.validate(), Err(ProblemIrError::EmptyConeLeftHandSide));
    let equality = SemanticRelation::Equality { expression: expression(), target: bits(3.0) };
    assert_eq!(equality.validate(), Ok(()));
}

#[test]
fn semantic_problems_need_distinct_observations() {
    let constraint = |identifier: u64| {
        SemanticConstraint::try_new(
            provenance(identifier),
            SemanticRelation::Equality {
                expression: SemanticExpression::try_new('f', bits(0.0)).unwrap(),
                target: bits(1.0),
            },
            Enforcement::Hard,
        )
        .unwrap()
    };
    assert_eq!(
        SemanticProblemIr::<char>::try_new(vec![], ExecutionOptions::default()).err(),
        Some(ProblemIrError::EmptySemanticProblem)
    );
    assert_eq!(
        SemanticProblemIr::try_new(
            vec![constraint(1), constraint(2), constraint(2), constraint(1)],
            ExecutionOptions::default()
        )
        .err(),
        Some(ProblemIrError::DuplicateObservationId { identifier: ObservationId::new(2) })
    );
    assert_eq!(
        SemanticProblemIr::try_new(vec![constraint(7), constraint(7)], ExecutionOptions::default()).err(),
        Some(ProblemIrError::DuplicateObservationId { identifier: ObservationId::new(7) })
    );
    let problem =
        SemanticProblemIr::try_new(vec![constraint(1), constraint(2)], ExecutionOptions::default())
            .unwrap();
    assert_eq!(problem.constraints().len(), 2);
    assert_eq!(problem.execution_options(), ExecutionOptions::default());
}

#[test]
fn constraints_lower_to_semantic_linear_bounds() {
    let interval =
        LinearConstraint::try_interval(provenance(3), 'f', bits(-1.0), bits(1.0), Enforcement::Hard)
            .unwrap();
    let semantic = interval.try_into_semantic_constraint().unwrap();
    assert_eq!(semantic.provenance().observation_id(), ObservationId::new(3));
    assert_eq!(semantic.enforcement(), Enforcement::Hard);
    match semantic.relation() {
        SemanticRelation::LinearBound { expression, lower, upper } => {
            assert_eq!(*expression.functional(), 'f');
            assert_eq!(expression.constant(), bits(0.0));
            assert_eq!((*lower, *upper), (Some(bits(-1.0)), Some(bits(1.0))));
        },
        _ => panic!("expected a linear bound"),
    }
    let decreasing = LinearConstraint::try_monotonicity(
        provenance(6),
        'd',
        unit_shape(),
        MonotonicitySense::Decreasing,
        bits(0.25),
        Enforcement::Hard,
    )
    .unwrap();
    match decreasing.try_into_semantic_constraint().unwrap().relation() {
        SemanticRelation::LinearBound { expression, lower, upper } => {
            assert_eq!(*expression.functional(), 'd');
            assert_eq!((*lower, *upper), (None, Some(bits(-0.25))));
        },
        _ => panic!("expected a linear bound"),
    }
    let gap =
        LinearConstraint::try_scalar_gap(provenance(5), 'a', 'b', bits(0.5), Enforcement::Hard).unwrap();
    match gap.try_gap_into_semantic_constraint('g').unwrap().relation() {
        SemanticRelation::LinearBound { expression, lower, upper } => {
            assert_eq!(*expression.functional(), 'g');
            assert_eq!((*lower, *upper), (Some(bits(0.5)), None));
        },
        _ => panic!("expected a linear bound"),
    }
}
