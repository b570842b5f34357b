use lib::binary64_sum::quotient_overflows_bits;
use lib::local_trend::{validate_mixture_policy, LocalTrendConstructionError};

fn bits(value: f64) -> u64 {
    value.to_bits()
}

#[test]
fn quotient_overflow_matches_binary64_division() {
    let cases = [
        (f64::MAX, 1.0),
        (f64::MAX, 0.5),
        (1e300, 1e-10),
        (1.0, 1.0),
        (1e308, 0.1),
        (1e307, 0.1),
        (0.0, 1e-300),
        (5e-324, 5e-324),
    ];
    for (numerator, denominator) in cases {
        assert_eq!(
            quotient_overflows_bits(bits(numerator), bits(denominator)),
            (numerator / denominator).is_infinite(),
            "{numerator} / {denominator}"
        );
    }
}

#[test]
fn mixture_policy_checks_come_in_order() {
    let pd = vec![None, None];
    let constant = vec![Some(bits(-2.0)), None];
    assert_eq!(
        validate_mixture_policy(&vec![], &vec![], 0, bits(1.0)),
        Err(LocalTrendConstructionError::EmptyMixture)
    );
    assert_eq!(
        validate_mixture_policy(&pd, &constant, 2, bits(1.0)),
        Err(LocalTrendConstructionError::BackgroundIndexOutOfBounds { index: 2, component_count: 2 })
    );
    assert_eq!(
        validate_mixture_policy(&pd, &constant, 0, bits(f64::NAN)),
        Err(LocalTrendConstructionError::NonFiniteBackgroundMinimum { minimum: bits(f64::NAN) })
    );
    assert_eq!(
        validate_mixture_policy(&pd, &constant, 0, bits(-0.0)),
        Err(LocalTrendConstructionError::NonPositiveBackgroundMinimum { minimum: bits(-0.0) })
    );
    assert_eq!(
        validate_mixture_policy(&vec![None, Some(2)], &constant, 0, bits(0.5)),
        Err(LocalTrendConstructionError::ConditionallyPositiveDefiniteComponent { component: 1, order: 2 })
    );
    assert_eq!(
        validate_mixture_policy(&pd, &constant, 1, bits(0.5)),
        Err(LocalTrendConstructionError::NonConstantBackground { component: 1 })
    );
    assert_eq!(
        validate_mixture_policy(&pd, &vec![Some(bits(-0.0)), None], 0, bits(0.5)),
        Err(LocalTrendConstructionError::ZeroBackgroundWeight { component: 0 })
    );
    assert_eq!(
        validate_mixture_policy(&pd, &vec![Some(bits(0.25)), None], 0, bits(0.5)),
        Err(LocalTrendConstructionError::BackgroundBelowMinimum {
            component: 0,
            magnitude: bits(0.25),
            minimum: bits(0.5)
        })
    );
    assert_eq!(
        validate_mixture_policy(&pd, &vec![Some(bits(1e300)), None], 0, bits(1e-10)),
        Err(LocalTrendConstructionError::NonRepresentableBackgroundPolicyRatio)
    );
    assert_eq!(
        validate_mixture_policy(&pd, &vec![Some(bits(f64::INFINITY)), None], 0, bits(0.5)),
        Err(LocalTrendConstructionError::NonRepresentableBackgroundPolicyRatio)
    );
    assert_eq!(validate_mixture_policy(&pd, &constant, 0, bits(0.5)), Ok(bits(2.0)));
}
