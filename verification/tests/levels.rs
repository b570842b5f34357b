use lib::levels::problem::{LevelGraph, LevelProblem};
use lib::levels::{
    FixedOrderConflict, LevelDefinition, LevelId, LevelMembership, LevelOrder, LevelPrior, LevelProblemError,
    LevelValue, MembershipFunctional,
};
use lib::levels::compile::LevelCanonicalizationError;
use lib::problem_ir::{
    AffineExpression, AffineTerm, NonZeroCount, ObservationId, ProblemIrError, SemanticProvenance,
    SoftLoss, SourceLocation, VariableBlock,
};

fn bits(value: f64) -> u64 {
    value.to_bits()
}

fn provenance(identifier: u64) -> SemanticProvenance {
    let source =
        SourceLocation::try_new("levels.csv".to_string(), NonZeroCount::new(1).unwrap()).unwrap();
    SemanticProvenance::try_new(
        ObservationId::new(identifier),
        source,
        "m".to_string(),
        "levels".to_string(),
        None,
    )
    .unwrap()
}

fn level(id: u64, value: LevelValue, observation: u64) -> LevelDefinition {
    LevelDefinition::new(LevelId::new(id), value, provenance(observation))
}

fn member(id: u64, x: f64, observation: u64) -> LevelMembership<1> {
    LevelMembership::new(
        LevelId::new(id),
        MembershipFunctional::new(true, [bits(x)]),
        provenance(observation),
    )
}

fn order(lower: u64, upper: u64, gap: f64, observation: u64) -> LevelOrder {
    LevelOrder::try_new(LevelId::new(lower), LevelId::new(upper), bits(gap), provenance(observation))
        .unwrap()
}

fn graph(
    levels: Vec<LevelDefinition>,
    memberships: Vec<LevelMembership<1>>,
    orders: Vec<LevelOrder>,
) -> Result<LevelGraph<1>, LevelProblemError> {
    LevelGraph::try_new(levels, memberships, orders)
}

fn problem(
    levels: Vec<LevelDefinition>,
    memberships: Vec<LevelMembership<1>>,
    orders: Vec<LevelOrder>,
) -> Result<LevelProblem<1>, LevelProblemError> {
    graph(levels, memberships, orders)?.try_into_problem(None)
}

fn two_levels() -> Vec<LevelDefinition> {
    vec![level(1, LevelValue::Fixed(bits(0.0)), 10), level(2, LevelValue::unknown(), 11)]
}

#[test]
fn ordered_levels_with_a_fixed_anchor_form_a_problem() {
    let result = problem(
        two_levels(),
        vec![member(1, 0.0, 20), member(2, 1.0, 21)],
        vec![order(1, 2, 1.0, 30)],
    );
    let problem = result.unwrap();
    assert_eq!(problem.levels().len(), 2);
    assert_eq!(problem.memberships().len(), 2);
    assert_eq!(problem.orders().len(), 1);
    assert_eq!(
        problem.diagnostics().topological_order(),
        &[LevelId::new(1), LevelId::new(2)]
    );
    assert_eq!(problem.diagnostics().gauge_anchor_count(), 1);
}

#[test]
fn topological_order_follows_the_edges() {
    let levels = vec![
        level(5, LevelValue::unknown(), 10),
        level(6, LevelValue::Fixed(bits(0.0)), 11),
        level(7, LevelValue::unknown(), 12),
    ];
    let problem = problem(
        levels,
        vec![member(5, 0.0, 20), member(6, 1.0, 21), member(7, 2.0, 22)],
        vec![order(7, 5, 1.0, 30), order(6, 7, 1.0, 31)],
    )
    .unwrap();
    assert_eq!(
        problem.diagnostics().topological_order(),
        &[LevelId::new(6), LevelId::new(7), LevelId::new(5)]
    );
}

#[test]
fn record_shape_errors_come_first() {
    assert!(matches!(
        graph(vec![level(1, LevelValue::unknown(), 10)], vec![member(1, 0.0, 20)], vec![]),
        Err(LevelProblemError::InsufficientLevels { count: 1 })
    ));
    assert!(matches!(
        graph(two_levels(), vec![], vec![]),
        Err(LevelProblemError::EmptyMemberships)
    ));
    assert!(matches!(
        graph(
            vec![level(1, LevelValue::unknown(), 10), level(1, LevelValue::unknown(), 11)],
            vec![member(1, 0.0, 20)],
            vec![]
        ),
        Err(LevelProblemError::DuplicateLevelId { level_id }) if level_id == LevelId::new(1)
    ));
    assert!(matches!(
        graph(
            vec![level(1, LevelValue::Fixed(bits(f64::NAN)), 10), level(2, LevelValue::unknown(), 11)],
            vec![member(1, 0.0, 20)],
            vec![]
        ),
        Err(LevelProblemError::NonFiniteFixedValue { value }) if value == bits(f64::NAN)
    ));
    assert!(matches!(
        graph(two_levels(), vec![member(1, 0.0, 10), member(2, 1.0, 21)], vec![]),
        Err(LevelProblemError::DuplicateObservationId { observation_id })
            if observation_id == ObservationId::new(10)
    ));
    assert!(matches!(
        graph(two_levels(), vec![member(3, 0.0, 20)], vec![]),
        Err(LevelProblemError::UndefinedLevel { level_id, observation_id })
            if level_id == LevelId::new(3) && observation_id == ObservationId::new(20)
    ));
    let scaled = LevelMembership::new(
        LevelId::new(1),
        MembershipFunctional::new(false, [bits(0.0)]),
        provenance(20),
    );
    assert!(matches!(
        graph(two_levels(), vec![scaled], vec![]),
        Err(LevelProblemError::InvalidMembershipFunctional { observation_id })
            if observation_id == ObservationId::new(20)
    ));
}

#[test]
fn order_edges_are_checked() {
    assert!(matches!(
        LevelOrder::try_new(LevelId::new(1), LevelId::new(1), bits(1.0), provenance(30)),
        Err(LevelProblemError::SelfOrderEdge { level_id }) if level_id == LevelId::new(1)
    ));
    assert!(matches!(
        LevelOrder::try_new(LevelId::new(1), LevelId::new(2), bits(-1.0), provenance(30)),
        Err(LevelProblemError::InvalidMinimumGap { minimum_gap }) if minimum_gap == bits(-1.0)
    ));
    assert!(LevelOrder::try_new(LevelId::new(1), LevelId::new(2), bits(-0.0), provenance(30)).is_ok());
    let result = graph(
        two_levels(),
        vec![member(1, 0.0, 20), member(2, 1.0, 21)],
        vec![order(1, 2, 1.0, 30), order(2, 1, 0.0, 31)],
    );
    match result {
        Err(LevelProblemError::OrderCycle { sources }) => {
            assert_eq!(sources, vec![ObservationId::new(30), ObservationId::new(31)]);
        }
        other => panic!("expected an order cycle, got {:?}", other.err()),
    }
}

#[test]
fn isolated_unknown_level_is_rejected() {
    let mut levels = two_levels();
    levels.push(level(3, LevelValue::unknown(), 12));
    assert!(matches!(
        graph(levels, vec![member(1, 0.0, 20), member(2, 1.0, 21)], vec![]),
        Err(LevelProblemError::IsolatedUnknownLevel { level_id }) if level_id == LevelId::new(3)
    ));
}

#[test]
fn coupled_fixed_levels_must_agree() {
    let levels = vec![
        level(1, LevelValue::Fixed(bits(0.0)), 10),
        level(2, LevelValue::Fixed(bits(1.0)), 11),
    ];
    let result = graph(levels, vec![member(1, 0.5, 20), member(2, 0.5, 21)], vec![]);
    match result {
        Err(LevelProblemError::FixedMembershipConflict { first_level, second_level, sources }) => {
            assert_eq!((first_level, second_level), (LevelId::new(1), LevelId::new(2)));
            assert!(!sources.is_empty());
        }
        other => panic!("expected a fixed conflict, got {:?}", other.err()),
    }
    let same = vec![
        level(1, LevelValue::Fixed(bits(0.0)), 10),
        level(2, LevelValue::Fixed(bits(-0.0)), 11),
    ];
    assert!(graph(same, vec![member(1, 0.5, 20), member(2, 0.5, 21)], vec![]).is_ok());
}

#[test]
fn coupled_levels_cannot_be_strictly_ordered() {
    let result = graph(
        two_levels(),
        vec![member(1, 0.5, 20), member(2, 0.5, 21)],
        vec![order(1, 2, 1.0, 30)],
    );
    match result {
        Err(LevelProblemError::MembershipOrderConflict { lower, upper, sources }) => {
            assert_eq!((lower, upper), (LevelId::new(1), LevelId::new(2)));
            assert_eq!(
                sources,
                vec![ObservationId::new(20), ObservationId::new(30), ObservationId::new(21)]
            );
        }
        other => panic!("expected a membership-order conflict, got {:?}", other.err()),
    }
}

#[test]
fn conflict_evidence_follows_the_equality_chain() {
    let levels = vec![
        level(1, LevelValue::Fixed(bits(0.0)), 10),
        level(2, LevelValue::unknown(), 11),
        level(3, LevelValue::unknown(), 12),
    ];
    let memberships = vec![
        member(1, 0.5, 20),
        member(2, 0.5, 21),
        member(2, 2.0, 22),
        member(3, 2.0, 23),
    ];
    let result = graph(levels, memberships, vec![order(1, 3, 0.5, 30)]);
    match result {
        Err(LevelProblemError::MembershipOrderConflict { lower, upper, sources }) => {
            assert_eq!((lower, upper), (LevelId::new(1), LevelId::new(3)));
            assert_eq!(
                sources,
                vec![
                    ObservationId::new(20),
                    ObservationId::new(21),
                    ObservationId::new(22),
                    ObservationId::new(30),
                    ObservationId::new(23)
                ]
            );
        }
        other => panic!("expected a membership-order conflict, got {:?}", other.err()),
    }
}

#[test]
fn a_fixed_order_conflict_is_reported_before_gauge_and_contrast() {
    let graph = graph(
        two_levels(),
        vec![member(1, 0.0, 20), member(2, 1.0, 21)],
        vec![order(1, 2, 1.0, 30)],
    )
    .unwrap();
    let conflict = FixedOrderConflict {
        lower: LevelId::new(1),
        upper: LevelId::new(2),
        required_gap: bits(1.0),
        fixed_gap: bits(0.5),
        sources: vec![ObservationId::new(10), ObservationId::new(30), ObservationId::new(11)],
    };
    assert_eq!(
        graph.try_into_problem(Some(conflict)).err(),
        Some(LevelProblemError::FixedOrderConflict {
            lower: LevelId::new(1),
            upper: LevelId::new(2),
            required_gap: bits(1.0),
            fixed_gap: bits(0.5),
            sources: vec![ObservationId::new(10), ObservationId::new(30), ObservationId::new(11)],
        })
    );
}

#[test]
fn every_component_needs_an_anchor() {
    let levels = vec![level(1, LevelValue::unknown(), 10), level(2, LevelValue::unknown(), 11)];
    assert!(matches!(
        problem(levels, vec![member(1, 0.0, 20), member(2, 1.0, 21)], vec![order(1, 2, 1.0, 30)]),
        Err(LevelProblemError::MissingGauge { ungauged_components: 1 })
    ));
    let prior = vec![
        level(
            1,
            LevelValue::Prior(LevelPrior::try_new(bits(3.0), bits(1.0), SoftLoss::SquaredL2).unwrap()),
            10,
        ),
        level(2, LevelValue::unknown(), 11),
    ];
    assert!(
        problem(prior, vec![member(1, 0.0, 20), member(2, 1.0, 21)], vec![order(1, 2, 1.0, 30)])
            .is_ok()
    );
}

#[test]
fn a_zero_contrast_system_is_rejected() {
    let result = problem(
        two_levels(),
        vec![member(1, 0.0, 20), member(2, 1.0, 21)],
        vec![order(1, 2, 0.0, 30)],
    );
    assert!(matches!(
        result,
        Err(LevelProblemError::MissingContrast { first_level, .. }) if first_level == LevelId::new(1)
    ));
    let anchored = vec![
        level(1, LevelValue::Fixed(bits(0.0)), 10),
        level(2, LevelValue::Fixed(bits(2.0)), 11),
    ];
    assert!(problem(anchored, vec![member(1, 0.0, 20), member(2, 1.0, 21)], vec![]).is_ok());
}

#[test]
fn level_values_and_priors_are_validated() {
    assert_eq!(LevelValue::try_fixed(bits(2.0)), Ok(LevelValue::Fixed(bits(2.0))));
    assert_eq!(
        LevelValue::try_fixed(bits(f64::NAN)),
        Err(LevelProblemError::NonFiniteFixedValue { value: bits(f64::NAN) })
    );
    assert_eq!(
        LevelPrior::try_new(bits(f64::INFINITY), bits(0.0), SoftLoss::SquaredL2),
        Err(LevelProblemError::NonFinitePriorMean { value: bits(f64::INFINITY) })
    );
    assert_eq!(
        LevelPrior::try_new(bits(1.0), bits(0.0), SoftLoss::SquaredL2),
        Err(LevelProblemError::InvalidPriorScale { value: bits(0.0) })
    );
    assert_eq!(
        LevelPrior::try_new(bits(1.0), bits(2.0), SoftLoss::Huber { delta: bits(-1.0) }),
        Err(LevelProblemError::InvalidHuberDelta { value: bits(-1.0) })
    );
    let prior = LevelPrior::try_new(bits(1.0), bits(2.0), SoftLoss::AbsoluteL1).unwrap();
    assert_eq!((prior.mean(), prior.scale(), prior.loss()), (bits(1.0), bits(2.0), SoftLoss::AbsoluteL1));
    assert_eq!(LevelValue::Prior(prior).prior(), Some(prior));
    assert_eq!(LevelValue::Prior(prior).fixed(), None);
}

fn affine(terms: &[(usize, f64)], constant: f64) -> AffineExpression {
    let terms = terms
        .iter()
        .map(|(variable, coefficient)| AffineTerm::try_new(*variable, bits(*coefficient)).unwrap())
        .collect();
    AffineExpression::try_new(terms, bits(constant)).unwrap()
}

fn compiled_problem() -> LevelProblem<1> {
    problem(two_levels(), vec![member(1, 0.0, 20), member(2, 1.0, 21)], vec![order(1, 2, 1.0, 30)])
        .unwrap()
}

fn field_blocks() -> Vec<VariableBlock> {
    vec![VariableBlock::try_new("coefficients".to_string(), NonZeroCount::new(3).unwrap()).unwrap()]
}

fn term_pairs(row: &AffineExpression) -> Vec<(usize, u64)> {
    row.terms().iter().map(|term| (term.variable(), term.coefficient())).collect()
}

#[test]
fn compilation_appends_level_variables_after_the_field() {
    let problem = compiled_problem();
    let linearized: Vec<Result<AffineExpression, &str>> =
        vec![Ok(affine(&[(0, 1.0), (2, 2.0)], 0.5)), Ok(affine(&[(1, -1.0)], 0.0))];
    let compiled = problem.try_compile(field_blocks(), linearized).unwrap();
    assert_eq!(compiled.variable_blocks().len(), 2);
    assert_eq!(compiled.variable_blocks()[1].name(), "levels");
    assert_eq!(compiled.variable_blocks()[1].len().get(), 2);
    let equalities = compiled.equalities();
    assert_eq!(equalities.len(), 3);
    assert_eq!(
        term_pairs(&equalities[0].row),
        vec![(0, bits(1.0)), (2, bits(2.0)), (3, bits(-1.0))]
    );
    assert_eq!(equalities[0].rhs, bits(-0.5));
    assert_eq!(term_pairs(&equalities[1].row), vec![(1, bits(-1.0)), (4, bits(-1.0))]);
    assert_eq!(equalities[1].rhs, bits(-0.0));
    assert_eq!(term_pairs(&equalities[2].row), vec![(3, bits(1.0))]);
    assert_eq!(equalities[2].rhs, bits(0.0));
    assert_eq!(equalities[2].provenance.observation_id(), ObservationId::new(10));
    let bounds = compiled.linear_bounds();
    assert_eq!(bounds.len(), 1);
    assert_eq!(term_pairs(&bounds[0].row), vec![(3, bits(-1.0)), (4, bits(1.0))]);
    assert_eq!(bounds[0].lower, bits(1.0));
    assert!(compiled.priors().is_empty());
    assert!(compiled.soft_objectives().is_empty());
    assert_eq!(compiled.level_variable(LevelId::new(2)), Some(4));
    assert_eq!(compiled.level_variable(LevelId::new(9)), None);
}

#[test]
fn priors_compile_to_soft_objectives() {
    let prior = LevelPrior::try_new(bits(3.0), bits(0.5), SoftLoss::Huber { delta: bits(1.0) }).unwrap();
    let levels = vec![level(1, LevelValue::Prior(prior), 10), level(2, LevelValue::unknown(), 11)];
    let problem = problem(levels, vec![member(1, 0.0, 20), member(2, 1.0, 21)], vec![order(1, 2, 1.0, 30)])
        .unwrap();
    let linearized: Vec<Result<AffineExpression, &str>> =
        vec![Ok(affine(&[(0, 1.0)], 0.0)), Ok(affine(&[(0, 1.0)], 0.0))];
    let compiled = problem.try_compile(field_blocks(), linearized).unwrap();
    assert_eq!(compiled.equalities().len(), 2);
    assert_eq!(compiled.priors().len(), 1);
    assert_eq!(compiled.priors()[0].level_id(), LevelId::new(1));
    assert_eq!(compiled.priors()[0].variable(), 3);
    assert_eq!(compiled.priors()[0].prior(), prior);
    let objective = &compiled.soft_objectives()[0];
    assert_eq!(term_pairs(&objective.relation.row), vec![(3, bits(1.0))]);
    assert_eq!(objective.relation.rhs, bits(3.0));
    assert_eq!((objective.scale, objective.loss), (bits(0.5), SoftLoss::Huber { delta: bits(1.0) }));
}

#[test]
fn compilation_reports_the_first_bad_linearization() {
    let problem = compiled_problem();
    let failed: Vec<Result<AffineExpression, &str>> = vec![Ok(affine(&[(0, 1.0)], 0.0)), Err("boom")];
    assert!(matches!(
        problem.try_compile(field_blocks(), failed),
        Err(LevelCanonicalizationError::Linearization { membership_index: 1, source: "boom", .. })
    ));
    let outside: Vec<Result<AffineExpression, &str>> =
        vec![Ok(affine(&[(3, 1.0)], 0.0)), Err("later")];
    assert!(matches!(
        problem.try_compile(field_blocks(), outside),
        Err(LevelCanonicalizationError::InvalidLinearization {
            membership_index: 0,
            source: ProblemIrError::AffineVariableOutOfRange { variable: 3, variable_count: 3 },
            ..
        })
    ));
    let linearized: Vec<Result<AffineExpression, &str>> =
        vec![Ok(affine(&[], 0.0)), Ok(affine(&[], 0.0))];
    assert!(matches!(
        problem.try_compile(vec![], linearized),
        Err(LevelCanonicalizationError::EmptyFieldVariableSpace)
    ));
}

#[test]
fn compilation_checks_come_one_membership_at_a_time() {
    let problem = compiled_problem();
    assert!(matches!(
        problem.try_prepare_compile::<&str>(&vec![]),
        Err(LevelCanonicalizationError::EmptyFieldVariableSpace)
    ));
    let huge = vec![
        VariableBlock::try_new("a".to_string(), NonZeroCount::new(usize::MAX).unwrap()).unwrap(),
        VariableBlock::try_new("b".to_string(), NonZeroCount::new(1).unwrap()).unwrap(),
    ];
    assert!(matches!(
        problem.try_prepare_compile::<&str>(&huge),
        Err(LevelCanonicalizationError::Ir(ProblemIrError::VariableCountOverflow))
    ));
    assert_eq!(problem.try_prepare_compile::<&str>(&field_blocks()).unwrap(), 3);
    assert!(matches!(
        problem.check_linearization(1, Err::<AffineExpression, &str>("boom"), 3),
        Err(LevelCanonicalizationError::Linearization { membership_index: 1, source: "boom", .. })
    ));
    assert!(matches!(
        problem.check_linearization::<&str>(0, Ok(affine(&[(5, 1.0)], 0.0)), 3),
        Err(LevelCanonicalizationError::InvalidLinearization { membership_index: 0, .. })
    ));
    assert!(matches!(
        problem.check_linearization::<&str>(1, Ok(affine(&[(0, 1.0)], 0.0)), usize::MAX),
        Err(LevelCanonicalizationError::Ir(ProblemIrError::VariableCountOverflow))
    ));
    let accepted = problem.check_linearization::<&str>(0, Ok(affine(&[(2, 1.0)], 0.25)), 3).unwrap();
    assert_eq!(accepted.constant(), bits(0.25));
}

#[test]
fn level_variables_need_a_block_name_of_their_own() {
    let problem = compiled_problem();
    let named_levels = vec![VariableBlock::try_new("levels".to_string(), NonZeroCount::new(3).unwrap()).unwrap()];
    let linearized = vec![Ok::<AffineExpression, &str>(affine(&[(0, 1.0)], 0.0)), Ok(affine(&[(1, 1.0)], 0.0))];
    match problem.try_compile(named_levels, linearized) {
        Err(LevelCanonicalizationError::Ir(ProblemIrError::DuplicateVariableBlockName { name })) => {
            assert_eq!(name, "levels")
        },
        other => panic!("unexpected {:?}", other.is_ok()),
    }
    let repeated = vec![
        VariableBlock::try_new("a".to_string(), NonZeroCount::new(2).unwrap()).unwrap(),
        VariableBlock::try_new("a".to_string(), NonZeroCount::new(1).unwrap()).unwrap(),
    ];
    let linearized = vec![Ok::<AffineExpression, &str>(affine(&[(0, 1.0)], 0.0)), Ok(affine(&[(1, 1.0)], 0.0))];
    match problem.try_compile(repeated, linearized) {
        Err(LevelCanonicalizationError::Ir(ProblemIrError::DuplicateVariableBlockName { name })) => {
            assert_eq!(name, "a")
        },
        other => panic!("unexpected {:?}", other.is_ok()),
    }
}
