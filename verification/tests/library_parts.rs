use lib::kernel::smooth_global::{MaternSmoothness, SmoothKernelFamily};
use lib::kernel::wendland::WendlandSmoothness;
use lib::{KernelDefiniteness, KernelSupport};
use lib::kernel::polyharmonic::{center_order, center_supports, derivative_capabilities};
use lib::kernel::{combined_order, CpdOrder, CpdOrderError};
use lib::local_trend::{
    derivative_capability, ensure_derivative_available, LocalTrendConstructionError,
    LocalTrendEvaluationError, OperationalDomain,
};
use lib::model::{center_term_demand, CenterTermDemand, FittedFieldCapabilities, FittedFieldOutput};
use lib::orientation::{
    signed_components, LinearOrientation, OrientationPolarity, PlanarOrientation,
};
use lib::performance::{
    check_workspace_shape, enforce_memory_limit, try_batch_memory_diagnostics, worker_query_counts,
    workspace_bytes, BatchEvaluationError, BatchEvaluationOptions,
};
use lib::polynomial::combinatorics::{checked_binomial, greatest_common_divisor};
use lib::polynomial::{PolynomialOutput, PolynomialSpace, PolynomialSpaceError};
use lib::problem_ir::NonZeroCount;
use lib::project::{FieldId, GeoProject, GeoProjectError, ProjectField};
use lib::{
    KernelDerivativeCapabilities, KernelDerivativeCapability, KernelDerivativeOrder,
    PolyharmonicSpline, PolyharmonicSplineConstructionError,
};

fn bits(value: f64) -> u64 {
    value.to_bits()
}

#[test]
fn complete_quadratic_space_in_two_dimensions() {
    let space = PolynomialSpace::<2>::try_new(3).unwrap();
    assert_eq!(space.term_count(), 6);
    assert_eq!(space.maximum_degree(), 2);
    let exponents: Vec<[usize; 2]> = space.terms().iter().map(|term| *term.exponents()).collect();
    assert_eq!(exponents, vec![[0, 0], [1, 0], [0, 1], [2, 0], [1, 1], [0, 2]]);
    assert_eq!(space.validate_output_length(PolynomialOutput::Values, 6), Ok(()));
    assert_eq!(
        space.validate_output_length(PolynomialOutput::Gradients, 5),
        Err(PolynomialSpaceError::OutputLengthMismatch {
            output: PolynomialOutput::Gradients,
            expected: 6,
            actual: 5
        })
    );
    assert_eq!(PolynomialSpace::<3>::try_new(0).err(), Some(PolynomialSpaceError::ZeroOrder));
    assert_eq!(PolynomialSpace::<3>::try_new(3).unwrap().term_count(), 10);
}

#[test]
fn binomials_and_divisors() {
    assert_eq!(checked_binomial(5, 2), Some(10));
    assert_eq!(checked_binomial(4, 0), Some(1));
    assert_eq!(checked_binomial(10, 5), Some(252));
    assert_eq!(checked_binomial(60, 30), Some(118264581564861424));
    assert_eq!(checked_binomial(67, 33), Some(14226520737620288370));
    assert_eq!(checked_binomial(68, 34), None);
    assert_eq!(checked_binomial(100, 50), None);
    assert_eq!(greatest_common_divisor(12, 18), 6);
    assert_eq!(greatest_common_divisor(0, 7), 7);
}

#[test]
fn polyharmonic_orders_and_center_support() {
    assert_eq!(
        PolyharmonicSpline::try_new(0).err(),
        Some(PolyharmonicSplineConstructionError::ZeroPower)
    );
    let cubic = PolyharmonicSpline::try_new(3).unwrap();
    assert_eq!(cubic.power(), 3);
    assert_eq!(cubic.cpd_order().get(), 2);
    assert_eq!(center_order(1), KernelDerivativeOrder::Value);
    assert_eq!(center_order(3), KernelDerivativeOrder::Second);
    assert!(center_supports(3, KernelDerivativeOrder::Second));
    assert!(!center_supports(3, KernelDerivativeOrder::Third));
    assert_eq!(CpdOrder::try_new(0).err(), Some(CpdOrderError::ZeroOrder));
    assert_eq!(CpdOrder::try_new(2).unwrap().maximum_polynomial_degree(), 1);
}

#[test]
fn capabilities_follow_combined_orders() {
    assert_eq!(
        combined_order(KernelDerivativeOrder::Second, KernelDerivativeOrder::First),
        Some(KernelDerivativeOrder::Third)
    );
    assert_eq!(combined_order(KernelDerivativeOrder::Value, KernelDerivativeOrder::Second), None);
    let cubic = derivative_capabilities(3);
    assert_eq!(
        cubic.capability(KernelDerivativeOrder::Second),
        KernelDerivativeCapability::SupportedEverywhere
    );
    assert_eq!(
        cubic.capability(KernelDerivativeOrder::Third),
        KernelDerivativeCapability::SupportedAwayFromCenters
    );
    let capabilities = FittedFieldCapabilities::for_kernel(cubic, KernelDerivativeOrder::First);
    assert_eq!(capabilities.value(), KernelDerivativeCapability::SupportedEverywhere);
    assert_eq!(capabilities.gradient(), KernelDerivativeCapability::SupportedEverywhere);
    assert_eq!(capabilities.hessian(), KernelDerivativeCapability::SupportedAwayFromCenters);
    assert_eq!(
        capabilities.for_output(FittedFieldOutput::Hessian),
        capabilities.hessian()
    );
    assert_eq!(
        center_term_demand(cubic, FittedFieldOutput::Hessian, KernelDerivativeOrder::First, true),
        CenterTermDemand::UnavailableAtCenter
    );
    assert_eq!(
        center_term_demand(cubic, FittedFieldOutput::Hessian, KernelDerivativeOrder::First, false),
        CenterTermDemand::Evaluate(KernelDerivativeOrder::Third)
    );
    assert_eq!(
        center_term_demand(cubic, FittedFieldOutput::Value, KernelDerivativeOrder::Second, false),
        CenterTermDemand::Unsupported
    );
}

#[test]
fn mixture_derivative_availability_is_the_weakest_component() {
    let everywhere = KernelDerivativeCapabilities {
        away_through: KernelDerivativeOrder::Third,
        center_through: Some(KernelDerivativeOrder::Third),
    };
    let away = KernelDerivativeCapabilities {
        away_through: KernelDerivativeOrder::Third,
        center_through: Some(KernelDerivativeOrder::Value),
    };
    let limited =
        KernelDerivativeCapabilities { away_through: KernelDerivativeOrder::Value, center_through: None };
    assert_eq!(
        derivative_capability(KernelDerivativeOrder::First, &[everywhere, away]),
        KernelDerivativeCapability::SupportedAwayFromCenters
    );
    assert_eq!(
        derivative_capability(KernelDerivativeOrder::First, &[away, limited]),
        KernelDerivativeCapability::Unsupported
    );
    assert_eq!(
        derivative_capability(KernelDerivativeOrder::Third, &[everywhere]),
        KernelDerivativeCapability::Unsupported
    );
    assert_eq!(
        ensure_derivative_available(&[everywhere, away], KernelDerivativeOrder::First, true),
        Err(LocalTrendEvaluationError::UnavailableDerivative {
            demanded: KernelDerivativeOrder::First,
            at_center: true
        })
    );
    assert_eq!(
        ensure_derivative_available(&[everywhere, away], KernelDerivativeOrder::First, false),
        Ok(())
    );
    assert_eq!(
        ensure_derivative_available(&[everywhere], KernelDerivativeOrder::Third, false),
        Err(LocalTrendEvaluationError::UnsupportedDerivative { demanded: KernelDerivativeOrder::Third })
    );
}

#[test]
fn operational_domain_is_a_closed_box() {
    assert_eq!(
        OperationalDomain::try_new([bits(0.0), bits(2.0)], [bits(1.0), bits(-1.0)]).err(),
        Some(LocalTrendConstructionError::ReversedDomainAxis {
            axis: 1,
            minimum: bits(2.0),
            maximum: bits(-1.0)
        })
    );
    let domain = OperationalDomain::try_new([bits(-1.0), bits(0.0)], [bits(1.0), bits(0.0)]).unwrap();
    assert_eq!(domain.minimum(), [bits(-1.0), bits(0.0)]);
    assert_eq!(domain.maximum(), [bits(1.0), bits(0.0)]);
    assert!(domain.contains([bits(1.0), bits(-0.0)]));
    assert!(domain.contains([bits(-1.0), bits(0.0)]));
    assert!(!domain.contains([bits(1.5), bits(0.0)]));
    assert!(!domain.contains([bits(0.0), bits(1e-300)]));
}

#[test]
fn polarity_negates_exactly_and_twice_restores() {
    let reported = [bits(1.0), bits(-0.5), bits(0.0)];
    let negative = signed_components(reported, OrientationPolarity::Negative);
    assert_eq!(negative, [bits(-1.0), bits(0.5), bits(-0.0)]);
    assert_eq!(signed_components(negative, OrientationPolarity::Negative), reported);
    assert_eq!(signed_components(reported, OrientationPolarity::Unknown), reported);
    let plane = PlanarOrientation::from_signed_unit_normal(negative, OrientationPolarity::Negative);
    assert!(!plane.is_axial());
    assert_eq!(plane.into_normal(), negative);
    let line = LinearOrientation::from_signed_unit_direction([bits(0.0), bits(1.0)], OrientationPolarity::Unknown);
    assert!(line.is_axial());
    assert_eq!(line.polarity(), OrientationPolarity::Unknown);
    assert_eq!(*line.direction(), [bits(0.0), bits(1.0)]);
}

#[test]
fn batch_memory_plan_and_worker_split() {
    let options =
        BatchEvaluationOptions::new(NonZeroCount::new(4).unwrap(), NonZeroCount::new(1000).unwrap());
    let plan = try_batch_memory_diagnostics(10, options, 16, 32).unwrap();
    assert_eq!(plan.worker_count, 4);
    assert_eq!(plan.output_bytes, 160);
    assert_eq!(plan.workspace_bytes, 128);
    assert_eq!(plan.estimated_peak_bytes, 288);
    assert_eq!(enforce_memory_limit(plan), Ok(()));
    let small = BatchEvaluationOptions::new(NonZeroCount::new(4).unwrap(), NonZeroCount::new(100).unwrap());
    let over = try_batch_memory_diagnostics(10, small, 16, 32).unwrap();
    assert_eq!(
        enforce_memory_limit(over),
        Err(BatchEvaluationError::MemoryLimitExceeded { estimated_peak_bytes: 288, limit_bytes: 100 })
    );
    assert_eq!(
        try_batch_memory_diagnostics(usize::MAX, options, 2, 0).err(),
        Some(BatchEvaluationError::MemoryEstimateOverflow)
    );
    assert_eq!(worker_query_counts(10, 3), vec![4, 3, 3]);
    assert_eq!(worker_query_counts(2, 3), vec![1, 1, 0]);
    let index = core::mem::size_of::<usize>();
    assert_eq!(workspace_bytes(3, 5, 4), Some(index * 5 + 8 * 4 + 8 * 3 * 4));
    assert_eq!(check_workspace_shape(5, 4, 5, 4), Ok(()));
    assert_eq!(
        check_workspace_shape(5, 4, 6, 4),
        Err(BatchEvaluationError::IncompatibleWorkspace {
            expected_sparse_center_capacity: 5,
            actual_sparse_center_capacity: 6,
            expected_polynomial_count: 4,
            actual_polynomial_count: 4
        })
    );
}

#[test]
fn projects_own_distinct_fields() {
    assert_eq!(GeoProject::<u8>::try_new(vec![]).err(), Some(GeoProjectError::EmptyFields));
    let entry = |id: u64, field: u8| ProjectField::new(FieldId::new(id), field);
    assert_eq!(
        GeoProject::try_new(vec![entry(1, 10), entry(2, 20), entry(1, 30)]).err(),
        Some(GeoProjectError::DuplicateFieldId {
            field_id: FieldId::new(1),
            first_index: 0,
            duplicate_index: 2
        })
    );
    let project = GeoProject::try_new(vec![entry(1, 10), entry(2, 20)]).unwrap();
    assert_eq!(project.len(), 2);
    assert!(!project.is_empty());
    assert_eq!(project.field(FieldId::new(2)), Some(&20));
    assert_eq!(project.field(FieldId::new(3)), None);
    assert_eq!(
        project.try_reference_input(FieldId::new(3)).err(),
        Some(GeoProjectError::UnknownReferenceField { field_id: FieldId::new(3) })
    );
    let input = project.try_reference_input(FieldId::new(1)).unwrap();
    assert_eq!((input.field_id(), *input.field()), (FieldId::new(1), 10));
}

#[test]
fn smooth_and_compact_kernel_metadata() {
    let gaussian = SmoothKernelFamily::Gaussian.metadata();
    assert_eq!(gaussian.name, "gaussian");
    assert_eq!(gaussian.definiteness, KernelDefiniteness::StrictlyPositiveDefinite);
    assert_eq!(gaussian.support, KernelSupport::Global);
    assert_eq!(gaussian.parameters.len(), 1);
    assert_eq!(gaussian.parameters[0].name, "length_scale");
    let multiquadric = SmoothKernelFamily::Multiquadric.metadata();
    assert_eq!(
        multiquadric.definiteness,
        KernelDefiniteness::ConditionallyPositiveDefinite { order: CpdOrder::try_new(1).unwrap() }
    );
    let matern = SmoothKernelFamily::Matern(MaternSmoothness::ThreeHalves).metadata();
    assert_eq!(matern.name, "matern_3_2");
    assert_eq!(matern.derivatives.center_through, Some(KernelDerivativeOrder::Second));
    let wendland = WendlandSmoothness::C2.metadata();
    assert_eq!(wendland.name, "wendland_c2");
    assert_eq!(wendland.support, KernelSupport::Compact { radius_parameter: "support_radius" });
    assert_eq!(wendland.derivatives.center_through, Some(KernelDerivativeOrder::Second));
    assert_eq!(wendland.parameters[0].name, "support_radius");
    assert_eq!(PolyharmonicSpline::try_new(3).unwrap().metadata().parameters.len(), 0);
}

#[test]
fn polynomial_terms_are_distinct_and_reach_the_maximum_degree() {
    let space = PolynomialSpace::<3>::try_new(4).unwrap();
    let terms: Vec<[usize; 3]> = space.terms().iter().map(|term| *term.exponents()).collect();
    for (index, term) in terms.iter().enumerate() {
        assert!(!terms[..index].contains(term));
        assert!(term.iter().sum::<usize>() <= space.maximum_degree());
    }
    assert!(space.terms().iter().any(|term| term.total_degree() == space.maximum_degree()));
    assert_eq!(space.maximum_degree(), 3);
}

#[test]
fn cubic_space_terms_come_in_graded_order() {
    let space = PolynomialSpace::<3>::try_new(3).unwrap();
    let exponents: Vec<[usize; 3]> = space.terms().iter().map(|term| *term.exponents()).collect();
    assert_eq!(
        exponents,
        vec![
            [0, 0, 0],
            [1, 0, 0],
            [0, 1, 0],
            [0, 0, 1],
            [2, 0, 0],
            [1, 1, 0],
            [1, 0, 1],
            [0, 2, 0],
            [0, 1, 1],
            [0, 0, 2]
        ]
    );
    let degrees: Vec<usize> = space.terms().iter().map(|term| term.total_degree()).collect();
    assert_eq!(degrees, vec![0, 1, 1, 1, 2, 2, 2, 2, 2, 2]);
}
