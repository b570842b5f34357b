use lib::problem_ir::NonZeroCount;
use lib::solver::{
    classify_rank, enforce_memory_limit, estimate_peak_memory_bytes, ConditionPolicy,
    DenseEqualitySystem, DenseEqualitySystemError, DenseFactorization, DenseRankDecision,
    DenseSolveError, DenseSolveOptions, DenseSolverConfigurationError, Regularization,
    SolveMemoryContext, SolveRecordSizes, DEFAULT_CONDITION_WARNING_BITS, MAX_REFINEMENT_STEPS,
};

fn bits(value: f64) -> u64 {
    value.to_bits()
}

fn records() -> SolveRecordSizes {
    SolveRecordSizes { rank_diagnostics: 100, solve_diagnostics: 50, accumulator: 536 }
}

#[test]
fn peak_memory_estimate_counts_every_buffer() {
    let pair = core::mem::size_of::<(usize, usize)>();
    let fixed = 100 * 2 + 50 + 536;
    let owned = 32 * 6 + 16 * 32 + 2 * pair * 2 + fixed;
    assert_eq!(estimate_peak_memory_bytes(2, SolveMemoryContext::OwnedSystem, records()), Ok(owned));
    assert_eq!(
        estimate_peak_memory_bytes(2, SolveMemoryContext::FieldSystem, records()),
        Ok(owned + 32 + 16)
    );
    assert_eq!(
        estimate_peak_memory_bytes(0, SolveMemoryContext::OwnedSystem, records()),
        Ok(fixed)
    );
}

#[test]
fn peak_memory_estimate_overflow_is_structured() {
    assert_eq!(
        estimate_peak_memory_bytes(usize::MAX, SolveMemoryContext::OwnedSystem, records()),
        Err(DenseSolveError::MemoryEstimateOverflow { dimension: usize::MAX })
    );
    assert_eq!(
        estimate_peak_memory_bytes(1usize << 31, SolveMemoryContext::FieldSystem, records()),
        Err(DenseSolveError::MemoryEstimateOverflow { dimension: 1usize << 31 })
    );
    let huge = SolveRecordSizes { rank_diagnostics: usize::MAX, solve_diagnostics: 0, accumulator: 0 };
    assert_eq!(
        estimate_peak_memory_bytes(1, SolveMemoryContext::OwnedSystem, huge),
        Err(DenseSolveError::MemoryEstimateOverflow { dimension: 1 })
    );
}

#[test]
fn memory_limit_is_enforced() {
    let limit = NonZeroCount::new(50).unwrap();
    assert_eq!(enforce_memory_limit(50, limit), Ok(()));
    assert_eq!(
        enforce_memory_limit(51, limit),
        Err(DenseSolveError::MemoryLimitExceeded { estimated_peak_bytes: 51, limit_bytes: 50 })
    );
}

#[test]
fn rank_classification_needs_agreement_away_from_the_threshold() {
    assert_eq!(classify_rank(3, 3, 3, false), DenseRankDecision::FullRank);
    assert_eq!(classify_rank(3, 2, 2, false), DenseRankDecision::Deficient);
    assert_eq!(classify_rank(3, 3, 2, false), DenseRankDecision::Ambiguous);
    assert_eq!(classify_rank(3, 3, 3, true), DenseRankDecision::Ambiguous);
}

#[test]
fn equality_system_shape_errors() {
    assert_eq!(
        DenseEqualitySystem::try_from_row_major(0, vec![], vec![]).err(),
        Some(DenseEqualitySystemError::Empty)
    );
    assert_eq!(
        DenseEqualitySystem::try_from_row_major(usize::MAX, vec![], vec![]).err(),
        Some(DenseEqualitySystemError::ShapeOverflow { dimension: usize::MAX })
    );
    assert_eq!(
        DenseEqualitySystem::try_from_row_major(2, vec![bits(1.0); 3], vec![bits(1.0); 2]).err(),
        Some(DenseEqualitySystemError::ShapeMismatch {
            dimension: 2,
            matrix_entries: 3,
            rhs_entries: 2
        })
    );
}

#[test]
fn equality_system_rejects_the_first_non_finite_entry() {
    let matrix = vec![bits(1.0), bits(0.0), bits(f64::NAN), bits(f64::INFINITY)];
    assert_eq!(
        DenseEqualitySystem::try_from_row_major(2, matrix, vec![bits(f64::NAN); 2]).err(),
        Some(DenseEqualitySystemError::NonFiniteMatrix { index: 2, value: bits(f64::NAN) })
    );
    let matrix = vec![bits(1.0), bits(0.0), bits(0.0), bits(1.0)];
    assert_eq!(
        DenseEqualitySystem::try_from_row_major(2, matrix, vec![bits(1.0), bits(f64::NEG_INFINITY)])
            .err(),
        Some(DenseEqualitySystemError::NonFiniteRightHandSide {
            index: 1,
            value: bits(f64::NEG_INFINITY)
        })
    );
}

#[test]
fn equality_system_reports_the_first_asymmetry() {
    let matrix = vec![
        bits(1.0),
        bits(2.0),
        bits(3.0),
        bits(2.0),
        bits(1.0),
        bits(4.0),
        bits(3.0),
        bits(5.0),
        bits(1.0),
    ];
    assert_eq!(
        DenseEqualitySystem::try_from_row_major(3, matrix, vec![bits(0.0); 3]).err(),
        Some(DenseEqualitySystemError::NotSymmetric {
            row: 1,
            column: 2,
            upper: bits(4.0),
            lower: bits(5.0)
        })
    );
}

#[test]
fn signed_zeros_are_symmetric() {
    let matrix = vec![bits(1.0), bits(-0.0), bits(0.0), bits(1.0)];
    let system =
        DenseEqualitySystem::try_from_row_major(2, matrix.clone(), vec![bits(1.0), bits(2.0)])
            .unwrap();
    assert_eq!(system.dimension(), 2);
    assert_eq!(system.matrix(), matrix.as_slice());
    assert_eq!(system.rhs(), &[bits(1.0), bits(2.0)]);
    assert_eq!(
        system.try_estimated_peak_memory_bytes(records()),
        estimate_peak_memory_bytes(2, SolveMemoryContext::OwnedSystem, records())
    );
}

#[test]
fn condition_policy_thresholds() {
    assert_eq!(DEFAULT_CONDITION_WARNING_BITS, bits(1.0 / f64::EPSILON.sqrt()));
    let default = ConditionPolicy::default();
    assert_eq!(default.warning_threshold(), bits(1.0 / f64::EPSILON.sqrt()));
    assert_eq!(default.error_threshold(), None);
    assert_eq!(
        ConditionPolicy::try_new(bits(0.5), None).err(),
        Some(DenseSolverConfigurationError::InvalidConditionWarning { value: bits(0.5) })
    );
    assert_eq!(
        ConditionPolicy::try_new(bits(f64::INFINITY), None).err(),
        Some(DenseSolverConfigurationError::InvalidConditionWarning { value: bits(f64::INFINITY) })
    );
    assert_eq!(
        ConditionPolicy::try_new(bits(10.0), Some(bits(10.0))).err(),
        Some(DenseSolverConfigurationError::InvalidConditionError {
            warning: bits(10.0),
            value: bits(10.0)
        })
    );
    let policy = ConditionPolicy::try_new(bits(1.0), Some(bits(1e12))).unwrap();
    assert_eq!(policy.warning_threshold(), bits(1.0));
    assert_eq!(policy.error_threshold(), Some(bits(1e12)));
}

#[test]
fn solve_options_validation() {
    let limit = NonZeroCount::new(1 << 20).unwrap();
    assert_eq!(
        DenseSolveOptions::try_new(
            DenseFactorization::Cholesky,
            Regularization::Explicit(bits(-1e-9)),
            ConditionPolicy::default(),
            2,
            limit
        )
        .err(),
        Some(DenseSolverConfigurationError::InvalidRegularization { value: bits(-1e-9) })
    );
    assert_eq!(
        DenseSolveOptions::try_new(
            DenseFactorization::PivotedLblt,
            Regularization::Disabled,
            ConditionPolicy::default(),
            MAX_REFINEMENT_STEPS + 1,
            limit
        )
        .err(),
        Some(DenseSolverConfigurationError::TooManyRefinementSteps { requested: 9, maximum: 8 })
    );
    let options = DenseSolveOptions::try_new(
        DenseFactorization::Cholesky,
        Regularization::Explicit(bits(1e-9)),
        ConditionPolicy::default(),
        MAX_REFINEMENT_STEPS,
        limit,
    )
    .unwrap();
    assert_eq!(options.regularization().amount(), bits(1e-9));
    assert_eq!(Regularization::Disabled.amount(), bits(0.0));
    assert_eq!(options.maximum_refinement_steps(), 8);
    assert_eq!(options.factorization(), DenseFactorization::Cholesky);
    let smaller = options.with_memory_limit_bytes(NonZeroCount::new(7).unwrap());
    assert_eq!(smaller.memory_limit_bytes().get(), 7);
    assert_eq!(smaller.condition_policy(), options.condition_policy());
}
