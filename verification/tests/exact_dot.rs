use lib::binary64::{
    is_finite_bits, is_nonnegative_finite_bits, is_positive_finite_bits, is_zero_bits, negated_bits,
    order_key,
};
use lib::solver::exact_dot::{
    add_shifted_signed_product, any_bits_below, bit_is_set, exact_factor, highest_set_bit,
    shifted_low_u64, twos_complement_in_place, ExactDotAccumulator, EXACT_DOT_LIMBS,
};

fn bits(value: f64) -> u64 {
    value.to_bits()
}

#[test]
fn product_of_simple_values_is_exact() {
    let mut accumulator = ExactDotAccumulator::new();
    assert_eq!(accumulator.try_add_product(bits(1.5), bits(2.0)), Some(()));
    assert_eq!(accumulator.try_abs_bits(), Some(bits(3.0)));
}

#[test]
fn cancellation_keeps_the_small_term() {
    let mut accumulator = ExactDotAccumulator::new();
    assert_eq!(accumulator.try_add_product(bits(1e16), bits(1.0)), Some(()));
    assert_eq!(accumulator.try_add_product(bits(1.0), bits(1.0)), Some(()));
    assert_eq!(accumulator.try_add_product(bits(-1e16), bits(1.0)), Some(()));
    assert_eq!(accumulator.try_abs_bits(), Some(bits(1.0)));
}

#[test]
fn negative_sum_reports_its_magnitude() {
    let mut accumulator = ExactDotAccumulator::new();
    assert_eq!(accumulator.try_add_product(bits(-2.0), bits(3.0)), Some(()));
    assert_eq!(accumulator.try_abs_bits(), Some(bits(6.0)));
    assert_eq!(accumulator.try_add_product(bits(-4.0), bits(-4.0)), Some(()));
    assert_eq!(accumulator.try_abs_bits(), Some(bits(10.0)));
}

#[test]
fn non_finite_factor_is_refused_unless_the_other_is_zero() {
    let mut accumulator = ExactDotAccumulator::new();
    assert_eq!(accumulator.try_add_product(bits(f64::NAN), bits(1.0)), None);
    assert_eq!(accumulator.try_add_product(bits(1.0), bits(f64::INFINITY)), None);
    assert_eq!(accumulator.try_add_product(bits(0.0), bits(f64::NAN)), Some(()));
    assert_eq!(accumulator.try_add_product(bits(f64::NEG_INFINITY), bits(-0.0)), Some(()));
    assert_eq!(accumulator.try_abs_bits(), Some(0));
}

#[test]
fn empty_accumulator_is_zero() {
    let accumulator = ExactDotAccumulator::new();
    assert_eq!(accumulator.try_abs_bits(), Some(0));
}

#[test]
fn subnormal_result_is_exact() {
    let mut accumulator = ExactDotAccumulator::new();
    assert_eq!(accumulator.try_add_product(bits(f64::MIN_POSITIVE), bits(0.5)), Some(()));
    assert_eq!(accumulator.try_abs_bits(), Some(bits(f64::MIN_POSITIVE * 0.5)));
}

#[test]
fn half_of_the_smallest_subnormal_rounds_to_nothing() {
    let smallest = f64::from_bits(1);
    let mut accumulator = ExactDotAccumulator::new();
    assert_eq!(accumulator.try_add_product(bits(smallest), bits(0.5)), Some(()));
    assert_eq!(accumulator.try_abs_bits(), None);
    assert_eq!(accumulator.try_add_product(bits(smallest), bits(0.25)), Some(()));
    assert_eq!(accumulator.try_abs_bits(), Some(1));
}

#[test]
fn overflowing_sum_is_refused() {
    let mut accumulator = ExactDotAccumulator::new();
    assert_eq!(accumulator.try_add_product(bits(f64::MAX), bits(2.0)), Some(()));
    assert_eq!(accumulator.try_abs_bits(), None);
}

#[test]
fn ties_round_to_even_and_sticky_bits_round_up() {
    let half_ulp = 2f64.powi(-53);
    let mut tie = ExactDotAccumulator::new();
    tie.try_add_product(bits(1.0), bits(1.0)).unwrap();
    tie.try_add_product(bits(half_ulp), bits(1.0)).unwrap();
    assert_eq!(tie.try_abs_bits(), Some(bits(1.0)));

    let mut above = tie.clone();
    above.try_add_product(bits(2f64.powi(-80)), bits(1.0)).unwrap();
    assert_eq!(above.try_abs_bits(), Some(bits(1.0 + 2f64.powi(-52))));

    let mut odd_tie = ExactDotAccumulator::new();
    odd_tie.try_add_product(bits(1.0 + 2f64.powi(-52)), bits(1.0)).unwrap();
    odd_tie.try_add_product(bits(half_ulp), bits(1.0)).unwrap();
    assert_eq!(odd_tie.try_abs_bits(), Some(bits(1.0 + 2.0 * 2f64.powi(-52))));
}

#[test]
fn rounding_carry_moves_to_the_next_binade() {
    let below_two = 2.0 - 2f64.powi(-52);
    let mut accumulator = ExactDotAccumulator::new();
    accumulator.try_add_product(bits(below_two), bits(1.0)).unwrap();
    accumulator.try_add_product(bits(2f64.powi(-53)), bits(1.0)).unwrap();
    assert_eq!(accumulator.try_abs_bits(), Some(bits(2.0)));
}

#[test]
fn exact_factor_splits_patterns() {
    assert_eq!(exact_factor(bits(1.0)), Some((false, 1u64 << 52, -52)));
    assert_eq!(exact_factor(bits(-0.5)), Some((true, 1u64 << 52, -53)));
    assert_eq!(exact_factor(1), Some((false, 1, -1074)));
    assert_eq!(exact_factor(bits(0.0)), None);
    assert_eq!(exact_factor(bits(-0.0)), None);
    assert_eq!(exact_factor(bits(f64::NAN)), None);
    assert_eq!(exact_factor(bits(f64::INFINITY)), None);
}

#[test]
fn twos_complement_negates_modulo_the_width() {
    let mut words = [0u64; EXACT_DOT_LIMBS];
    words[0] = 1;
    twos_complement_in_place(&mut words);
    assert!(words.iter().all(|word| *word == u64::MAX));
    twos_complement_in_place(&mut words);
    assert_eq!(words[0], 1);
    assert!(words[1..].iter().all(|word| *word == 0));

    let mut zero = [0u64; EXACT_DOT_LIMBS];
    twos_complement_in_place(&mut zero);
    assert!(zero.iter().all(|word| *word == 0));
}

#[test]
fn bit_queries_read_across_limbs() {
    let mut words = [0u64; EXACT_DOT_LIMBS];
    assert_eq!(highest_set_bit(&words), None);
    words[0] = 1u64 << 63;
    words[1] = 1;
    assert_eq!(highest_set_bit(&words), Some(64));
    assert_eq!(shifted_low_u64(&words, 63), 3);
    assert_eq!(shifted_low_u64(&words, 64), 1);
    assert_eq!(shifted_low_u64(&words, 64 * EXACT_DOT_LIMBS + 5), 0);
    assert!(bit_is_set(&words, 63));
    assert!(bit_is_set(&words, 64));
    assert!(!bit_is_set(&words, 65));
    assert!(!bit_is_set(&words, 64 * EXACT_DOT_LIMBS));
    assert!(!any_bits_below(&words, 63));
    assert!(any_bits_below(&words, 64));
    assert!(any_bits_below(&words, 64 * EXACT_DOT_LIMBS));
}

#[test]
fn shifted_product_outside_the_limbs_is_refused() {
    let mut words = [0u64; EXACT_DOT_LIMBS];
    assert_eq!(add_shifted_signed_product(&mut words, 5, 65 * 64, false), None);
    assert!(words.iter().all(|word| *word == 0));
    assert_eq!(add_shifted_signed_product(&mut words, 5, 64 * 64 + 62, false), Some(()));
    assert_eq!(words[64], 5u64 << 62);
    assert_eq!(words[65], 1);
    assert_eq!(add_shifted_signed_product(&mut words, 5, 64 * 64 + 62, true), Some(()));
    assert!(words.iter().all(|word| *word == 0));
}

#[test]
fn binary64_patterns_order_and_negate() {
    assert!(is_finite_bits(bits(-3.5)));
    assert!(!is_finite_bits(bits(f64::NAN)));
    assert!(is_zero_bits(bits(-0.0)));
    assert!(!is_zero_bits(1));
    assert!(is_positive_finite_bits(bits(2.0)));
    assert!(!is_positive_finite_bits(bits(0.0)));
    assert!(is_nonnegative_finite_bits(bits(-0.0)));
    assert!(!is_nonnegative_finite_bits(bits(-1e-300)));
    assert!(order_key(bits(-2.0)) < order_key(bits(-1.0)));
    assert!(order_key(bits(-1.0)) < order_key(bits(0.0)));
    assert_eq!(order_key(bits(-0.0)), order_key(bits(0.0)));
    assert!(order_key(bits(1.0)) < order_key(bits(1.5)));
    assert_eq!(negated_bits(bits(2.5)), bits(-2.5));
    assert_eq!(negated_bits(negated_bits(bits(7.0))), bits(7.0));
}

#[test]
fn accumulation_order_does_not_matter() {
    let products = [(1e300, 1e-10), (-3.0, 7.0), (2f64.powi(-1000), 3.0), (-1e300, 1e-10)];
    let mut forward = ExactDotAccumulator::new();
    for (first, second) in products {
        forward.try_add_product(bits(first), bits(second)).unwrap();
    }
    let mut backward = ExactDotAccumulator::new();
    for (first, second) in products.iter().rev() {
        backward.try_add_product(bits(*first), bits(*second)).unwrap();
    }
    assert_eq!(forward.try_abs_bits(), backward.try_abs_bits());
    assert_eq!(forward.try_abs_bits(), Some(bits(21.0 - 3.0 * 2f64.powi(-1000))));
}

#[test]
fn negated_factor_cancels_its_product() {
    let mut accumulator = ExactDotAccumulator::new();
    accumulator.try_add_product(bits(3.0), bits(5.0)).unwrap();
    accumulator.try_add_product(negated_bits(bits(3.0)), bits(5.0)).unwrap();
    assert_eq!(accumulator.try_abs_bits(), Some(0));
}
