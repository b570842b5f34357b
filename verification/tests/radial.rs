use lib::kernel_calculus::radial::{
    apply_first_sign, apply_second_sign, apply_third_sign, validate_radial_derivatives,
    KernelCalculusError, RadialExpansionCoefficients, RadialJet,
};
use lib::kernel_calculus::{
    arguments_have_negative_sign, KernelArgument, RadialDerivativeOrder,
    RadialExpansionCoefficient, RadialJetLocation,
};

fn bits(value: f64) -> u64 {
    value.to_bits()
}

#[test]
fn away_jets_report_the_first_non_finite_derivative() {
    assert_eq!(
        RadialJet::try_away(bits(1.0), bits(f64::NAN), bits(f64::INFINITY), bits(2.0)).err(),
        Some(KernelCalculusError::NonFiniteRadialDerivative {
            order: RadialDerivativeOrder::First,
            value: bits(f64::NAN)
        })
    );
    assert_eq!(
        validate_radial_derivatives(&[bits(0.0), bits(1.0), bits(2.0), bits(f64::NEG_INFINITY)]),
        Err(KernelCalculusError::NonFiniteRadialDerivative {
            order: RadialDerivativeOrder::Third,
            value: bits(f64::NEG_INFINITY)
        })
    );
    let jet = RadialJet::try_away(bits(1.0), bits(-1.0), bits(0.5), bits(0.25)).unwrap();
    assert_eq!(jet.location(), RadialJetLocation::AwayFromCenter);
    assert_eq!(
        (jet.value(), jet.first_derivative(), jet.second_derivative(), jet.third_derivative()),
        (bits(1.0), bits(-1.0), bits(0.5), bits(0.25))
    );
    assert!(jet.expansion_coefficients().is_none());
}

#[test]
fn expansion_coefficients_and_center_jets() {
    assert_eq!(
        RadialExpansionCoefficients::try_new(bits(1.0), bits(f64::INFINITY)).err(),
        Some(KernelCalculusError::NonFiniteRadialExpansionCoefficient {
            coefficient: RadialExpansionCoefficient::SecondRemainderOverRadius,
            value: bits(f64::INFINITY)
        })
    );
    let coefficients = RadialExpansionCoefficients::try_new(bits(3.0), bits(-4.0)).unwrap();
    assert_eq!(coefficients.first_over_radius(), bits(3.0));
    assert_eq!(coefficients.second_remainder_over_radius(), bits(-4.0));
    let jet = RadialJet::try_away_with_expansion(bits(1.0), bits(2.0), bits(3.0), bits(4.0), coefficients)
        .unwrap();
    assert_eq!(jet.expansion_coefficients(), Some(&coefficients));
    assert_eq!(
        RadialJet::try_center(bits(f64::NAN), bits(f64::INFINITY)).err(),
        Some(KernelCalculusError::NonFiniteRadialDerivative {
            order: RadialDerivativeOrder::Value,
            value: bits(f64::NAN)
        })
    );
    let center = RadialJet::try_center(bits(1.0), bits(-2.0)).unwrap();
    assert_eq!(center.location(), RadialJetLocation::Center);
    assert_eq!((center.first_derivative(), center.third_derivative()), (0, 0));
    assert_eq!(center.second_derivative(), bits(-2.0));
}

#[test]
fn center_derivatives_flip_signs_exactly() {
    let gradient = [bits(1.0), bits(-2.0), bits(0.0)];
    assert_eq!(apply_first_sign(gradient, KernelArgument::Query), gradient);
    assert_eq!(
        apply_first_sign(gradient, KernelArgument::Center),
        [bits(-1.0), bits(2.0), bits(-0.0)]
    );
    let hessian = [[bits(1.0), bits(2.0)], [bits(2.0), bits(-3.0)]];
    assert_eq!(apply_second_sign(hessian, false), hessian);
    assert_eq!(
        apply_second_sign(hessian, true),
        [[bits(-1.0), bits(-2.0)], [bits(-2.0), bits(3.0)]]
    );
    let third = [[[bits(1.0)]]];
    assert_eq!(apply_third_sign(third, true), [[[bits(-1.0)]]]);
    assert!(arguments_have_negative_sign(&[
        KernelArgument::Center,
        KernelArgument::Query,
        KernelArgument::Center,
        KernelArgument::Center
    ]));
    assert!(!arguments_have_negative_sign(&[KernelArgument::Center, KernelArgument::Center]));
}
