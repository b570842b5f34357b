use core::cmp::Ordering;

use lib::orientation_tensor::{
    add_shifted, dyadic_parts, multiply_significand, next_toward_zero, next_up_nonnegative,
    AxisRatioSelectionKind, ExactDyadicSum, OrientationTensorError, OrientationTensorSpectralBackend,
    EXACT_SUM_LIMBS,
};

fn bits(value: f64) -> u64 {
    value.to_bits()
}

#[test]
fn equal_products_cancel_exactly() {
    let mut sum = ExactDyadicSum::zero();
    sum.add_product(bits(2.0), bits(3.0), bits(1.0));
    sum.add_product(bits(3.0), bits(2.0), bits(-1.0));
    assert_eq!(sum.exact_sign(), Ok(Ordering::Equal));
}

#[test]
fn sign_follows_the_larger_side() {
    let mut sum = ExactDyadicSum::zero();
    sum.add_product(bits(1.0), bits(1.0), bits(1.0));
    sum.add_triple_product(bits(1.0), bits(1.0), bits(1.0 + 2f64.powi(-52)), bits(-1.0));
    assert_eq!(sum.exact_sign(), Ok(Ordering::Less));
    sum.add_triple_product(bits(2.0), bits(2f64.powi(-53)), bits(1.0), bits(1.0));
    assert_eq!(sum.exact_sign(), Ok(Ordering::Equal));
    sum.add_product(bits(2f64.powi(-51)), bits(1.0), bits(2.0));
    assert_eq!(sum.exact_sign(), Ok(Ordering::Greater));
}

#[test]
fn underflowed_products_still_count() {
    let tiny = f64::from_bits(1);
    let mut sum = ExactDyadicSum::zero();
    sum.add_triple_product(bits(tiny), bits(tiny), bits(tiny), bits(1.0));
    assert_eq!(sum.exact_sign(), Ok(Ordering::Greater));
    sum.add_triple_product(bits(tiny), bits(tiny), bits(-tiny), bits(1.0));
    assert_eq!(sum.exact_sign(), Ok(Ordering::Equal));
}

#[test]
fn zero_factor_leaves_the_sum_alone() {
    let mut sum = ExactDyadicSum::zero();
    sum.add_product(bits(0.0), bits(f64::NAN), bits(1.0));
    assert_eq!(sum.exact_sign(), Ok(Ordering::Equal));
}

#[test]
fn non_finite_factor_poisons_the_sum() {
    let mut sum = ExactDyadicSum::zero();
    sum.add_product(bits(f64::INFINITY), bits(1.0), bits(1.0));
    assert!(matches!(
        sum.exact_sign(),
        Err(OrientationTensorError::NonFiniteNumericalResult { .. })
    ));
    sum.add_product(bits(1.0), bits(1.0), bits(1.0));
    assert!(sum.exact_sign().is_err());
}

#[test]
fn dyadic_parts_of_patterns() {
    assert_eq!(dyadic_parts(bits(-3.0)), Some((3u64 << 51, -51, true)));
    assert_eq!(dyadic_parts(bits(0.0)), None);
    assert_eq!(dyadic_parts(bits(f64::NAN)), None);
}

#[test]
fn significand_products_report_overflow() {
    let mut product = [1u64, 0, 0];
    assert!(multiply_significand(&mut product, u64::MAX));
    assert_eq!(product, [u64::MAX, 0, 0]);
    assert!(multiply_significand(&mut product, u64::MAX));
    assert_eq!(product, [1, u64::MAX - 1, 0]);
    let mut large = [0u64, 0, 1u64 << 63];
    assert!(!multiply_significand(&mut large, 2));
    assert_eq!(large, [0, 0, 0]);
}

#[test]
fn shifted_additions_carry_and_refuse_the_top() {
    let mut target = [0u64; EXACT_SUM_LIMBS];
    target[0] = u64::MAX;
    assert!(add_shifted(&mut target, &[1, 0, 0], 0));
    assert_eq!(target[0], 0);
    assert_eq!(target[1], 1);
    assert!(add_shifted(&mut target, &[3, 0, 0], 127));
    assert_eq!(target[1], 1 | (1u64 << 63));
    assert_eq!(target[2], 1);
    let mut full = [u64::MAX; EXACT_SUM_LIMBS];
    assert!(!add_shifted(&mut full, &[1, 0, 0], 0));
    let mut late = [0u64; EXACT_SUM_LIMBS];
    assert!(!add_shifted(&mut late, &[1, 0, 0], 97 * 64));
    assert!(add_shifted(&mut late, &[1, 0, 0], 96 * 64));
    assert_eq!(late[96], 1);
}

#[test]
fn tensor_vocabulary_is_distinct() {
    assert_ne!(AxisRatioSelectionKind::Fixed, AxisRatioSelectionKind::LeaveOneOut);
    assert_ne!(
        OrientationTensorSpectralBackend::SymmetricEigen,
        OrientationTensorSpectralBackend::PositiveSemidefiniteSvd
    );
}

#[test]
fn exact_dyadic_sum_retains_underflowed_products_and_triples() {
    let minimum_subnormal = f64::from_bits(1);
    let mut product = ExactDyadicSum::zero();
    product.add_product(bits(minimum_subnormal), bits(minimum_subnormal), bits(-1.0));
    assert_eq!(product.exact_sign().unwrap(), Ordering::Less);

    product.add_product(bits(minimum_subnormal), bits(minimum_subnormal), bits(1.0));
    assert_eq!(product.exact_sign().unwrap(), Ordering::Equal);

    let mut triple = ExactDyadicSum::zero();
    triple.add_triple_product(
        bits(minimum_subnormal),
        bits(minimum_subnormal),
        bits(minimum_subnormal),
        bits(1.0),
    );
    assert_eq!(triple.exact_sign().unwrap(), Ordering::Greater);
}

#[test]
fn neighbouring_values_step_one_unit() {
    assert_eq!(next_toward_zero(bits(1.0)), bits(1.0 - 2f64.powi(-53)));
    assert_eq!(next_toward_zero(bits(-2.0)), bits(-(2.0 - 2f64.powi(-52))));
    assert_eq!(next_toward_zero(bits(-0.0)), 0);
    assert_eq!(next_toward_zero(1), 0);
    assert_eq!(next_up_nonnegative(bits(0.0)), 1);
    assert_eq!(next_up_nonnegative(bits(1.0)), bits(1.0 + 2f64.powi(-52)));
}
