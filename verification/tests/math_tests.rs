use rx_dex::decimal::{is_well_formed, less_than, square_root, Decimal};
use rx_dex::math::{
    adjusted_fee, calculate_dynamic_fee, calculate_impermanent_loss, cpmm_out_given_in,
    cpmm_out_given_in_decimal, impermanent_loss_from_root, price_ratio, ExactAmount, MathError,
};
use rx_dex::wide::{integer_sqrt, mul_div, wide_product, wide_times, Wide};

#[test]
fn non_negative_output_basic() {
    let out = cpmm_out_given_in_decimal(
        Decimal::from_int(1_000_000),
        Decimal::from_int(800_000),
        Decimal::from_int(10_000),
        30,
    )
    .unwrap();
    assert!(less_than(Decimal::from_int(0), out));
    let exact = cpmm_out_given_in(1_000_000, 800_000, 10_000, 30).unwrap();
    assert!(exact.is_positive());
}

#[test]
fn more_input_more_output_monotonic() {
    let small = cpmm_out_given_in_decimal(
        Decimal::from_int(1_000_000),
        Decimal::from_int(800_000),
        Decimal::from_int(1_000),
        30,
    )
    .unwrap();
    let big = cpmm_out_given_in_decimal(
        Decimal::from_int(1_000_000),
        Decimal::from_int(800_000),
        Decimal::from_int(10_000),
        30,
    )
    .unwrap();
    assert!(less_than(small, big));
}

#[test]
fn more_input_more_output_exactly() {
    let small = cpmm_out_given_in(1_000_000, 800_000, 1_000, 30).unwrap();
    let big = cpmm_out_given_in(1_000_000, 800_000, 10_000, 30).unwrap();
    assert!(small.less_than(&big));
    assert!(big.truncated() > small.truncated());
}

#[test]
fn cpmm_output_grows_strictly_even_within_one_whole_unit() {
    // both outputs truncate to 9; the fractions still differ
    let small = cpmm_out_given_in(1_000_000_000, 10, 10_000_000_000, 0).unwrap();
    let big = cpmm_out_given_in(1_000_000_000, 10, 10_000_000_001, 0).unwrap();
    assert_eq!(small.truncated(), 9);
    assert_eq!(big.truncated(), 9);
    assert!(small.less_than(&big));
    assert!(!big.less_than(&small));
    assert!(!big.less_than(&big));
    assert!(small.is_well_formed() && big.is_well_formed());
}

#[test]
fn exact_amounts_compare_as_fractions() {
    let third = ExactAmount { whole: 5, remainder: Wide::from_u128(1), divisor: Wide::from_u128(3) };
    let half = ExactAmount { whole: 5, remainder: Wide::from_u128(2), divisor: Wide::from_u128(4) };
    let same = ExactAmount { whole: 5, remainder: Wide::from_u128(1), divisor: Wide::from_u128(2) };
    let more = ExactAmount { whole: 6, remainder: Wide::zero(), divisor: Wide::from_u128(1) };
    assert!(third.less_than(&half));
    assert!(!half.less_than(&third));
    assert!(!half.less_than(&same) && !same.less_than(&half));
    assert!(half.less_than(&more));
    // fractions over the largest divisors
    let top = Wide { hi: u128::MAX, lo: u128::MAX };
    let under = Wide { hi: u128::MAX, lo: u128::MAX - 1 };
    let a = ExactAmount { whole: 0, remainder: under, divisor: top };
    let b = ExactAmount { whole: 0, remainder: Wide { hi: u128::MAX, lo: u128::MAX - 2 }, divisor: under };
    // (top - 1) / top against (top - 2) / (top - 1): the first is larger
    assert!(b.less_than(&a));
    assert!(!a.less_than(&b));
    let broken = ExactAmount { whole: 0, remainder: top, divisor: top };
    assert!(!broken.is_well_formed());
    assert!(!ExactAmount { whole: 0, remainder: Wide::zero(), divisor: Wide::zero() }.is_well_formed());
}

#[test]
fn wide_times_is_the_full_product() {
    let top = Wide { hi: u128::MAX, lo: u128::MAX };
    // (2^256 - 1)^2 = (2^256 - 2) * 2^256 + 1
    assert_eq!(wide_times(&top, &top), (Wide { hi: u128::MAX, lo: u128::MAX - 1 }, Wide::from_u128(1)));
    assert_eq!(wide_times(&Wide::from_u128(3), &Wide::from_u128(5)), (Wide::zero(), Wide::from_u128(15)));
    assert_eq!(wide_times(&top, &Wide::zero()), (Wide::zero(), Wide::zero()));
    // 2^128 * 2^128 = 2^256
    let p = Wide { hi: 1, lo: 0 };
    assert_eq!(wide_times(&p, &p), (Wide::from_u128(1), Wide::zero()));
    // (2^255) * 2 = 2^256
    assert_eq!(wide_times(&Wide { hi: 1u128 << 127, lo: 0 }, &Wide::from_u128(2)), (Wide::from_u128(1), Wide::zero()));
}

#[test]
fn cpmm_output_is_the_exact_fraction() {
    let out = cpmm_out_given_in(1_000_000, 800_000, 10_000, 30).unwrap();
    assert_eq!(out.whole, 7897);
    assert_eq!(out.remainder, Wide { hi: 0, lo: 2_669_100_000 });
    assert_eq!(out.divisor, Wide { hi: 0, lo: 10_099_700_000 });
    let small = cpmm_out_given_in(1_000_000, 800_000, 1_000, 30).unwrap();
    assert_eq!(small.truncated(), 796);
    let quote = cpmm_out_given_in(1_000_000, 500_000, 10_000, 30).unwrap();
    assert_eq!(quote.truncated(), 4935);
}

#[test]
fn cpmm_rejects_zero_reserves_and_input() {
    assert_eq!(cpmm_out_given_in(0, 800_000, 10_000, 30), Err(MathError::InvalidInput));
    assert_eq!(cpmm_out_given_in(1_000_000, 0, 10_000, 30), Err(MathError::InvalidInput));
    assert_eq!(cpmm_out_given_in(1_000_000, 800_000, 0, 30), Err(MathError::InvalidInput));
    // an invalid input comes before a fee that leaves nothing
    assert_eq!(cpmm_out_given_in(0, 0, 0, 10_000), Err(MathError::InvalidInput));
}

#[test]
fn cpmm_with_a_fee_of_everything_has_no_output() {
    assert_eq!(
        cpmm_out_given_in(1_000_000, 800_000, 10_000, 10_000),
        Err(MathError::InsufficientLiquidity)
    );
    assert_eq!(
        cpmm_out_given_in(1_000_000, 800_000, 10_000, 65_535),
        Err(MathError::InsufficientLiquidity)
    );
    assert_eq!(
        cpmm_out_given_in(1_000_000, 800_000, 10_000, i64::MAX),
        Err(MathError::InsufficientLiquidity)
    );
}

#[test]
fn cpmm_tiny_trade_is_positive_but_truncates_to_zero() {
    let out = cpmm_out_given_in(1_000_000, 10, 1, 30).unwrap();
    assert!(out.is_positive());
    assert_eq!(out.truncated(), 0);
}

#[test]
fn cpmm_holds_the_largest_inputs() {
    let max = u128::MAX;
    let out = cpmm_out_given_in(max, max, max, 0).unwrap();
    // half of the reserve, rounded down
    assert_eq!(out.truncated(), 170141183460469231731687303715884105727);
    let other = cpmm_out_given_in(1u128 << 127, max, 1u128 << 126, 9999).unwrap();
    assert_eq!(other.truncated(), 17013267682662790033667047019237448);
}

#[test]
fn cpmm_prices_a_negative_fee_as_a_rebate() {
    let out = cpmm_out_given_in(1000, 1000, 100, -10_000).unwrap();
    assert_eq!(out.truncated(), 166);
    assert!(cpmm_out_given_in(1000, 1000, 100, i64::MIN).unwrap().is_positive());
}

#[test]
fn cpmm_output_stays_below_the_reserve() {
    let out = cpmm_out_given_in(1, 1000, u128::MAX, 0).unwrap();
    assert!(out.truncated() < 1000);
    assert_eq!(out.truncated(), 999);
}

#[test]
fn math_error_messages() {
    assert_eq!(MathError::InsufficientLiquidity.message(), "insufficient liquidity");
    assert_eq!(MathError::InvalidInput.message(), "invalid input");
    assert_eq!(MathError::Overflow.message(), "overflow");
}

#[test]
fn wide_product_is_the_full_product() {
    assert_eq!(wide_product(0, u128::MAX), Wide { hi: 0, lo: 0 });
    assert_eq!(wide_product(3, 5), Wide { hi: 0, lo: 15 });
    assert_eq!(
        wide_product(u128::MAX, u128::MAX),
        Wide { hi: 0xffff_ffff_ffff_ffff_ffff_ffff_ffff_fffe, lo: 1 }
    );
    assert_eq!(wide_product(1u128 << 64, 1u128 << 64), Wide { hi: 1, lo: 0 });
    assert_eq!(wide_product(1u128 << 127, 2), Wide { hi: 1, lo: 0 });
}

#[test]
fn wide_sum_difference_and_order() {
    let a = Wide { hi: 1, lo: u128::MAX };
    let b = Wide { hi: 0, lo: 1 };
    assert_eq!(a.checked_plus(&b), Some(Wide { hi: 2, lo: 0 }));
    assert_eq!(Wide { hi: 2, lo: 0 }.minus(&b), a);
    assert!(b.less_than(&a));
    assert!(a.at_least(&b));
    assert!(a.at_least(&a));
    let top = Wide { hi: u128::MAX, lo: u128::MAX };
    assert_eq!(top.checked_plus(&b), None);
    assert_eq!(top.to_u128(), None);
    assert_eq!(b.to_u128(), Some(1));
    assert!(Wide::zero().is_zero());
    assert_eq!(Wide::from_u128(7), Wide { hi: 0, lo: 7 });
}

#[test]
fn mul_div_is_exact() {
    let (q, r) = mul_div(10, &Wide::from_u128(3), &Wide::from_u128(7));
    assert_eq!((q, r), (4, Wide::from_u128(2)));
    let (q, r) = mul_div(0, &Wide::from_u128(3), &Wide::from_u128(7));
    assert_eq!((q, r), (0, Wide::zero()));
    let (q, r) = mul_div(u128::MAX, &Wide::from_u128(7), &Wide::from_u128(7));
    assert_eq!((q, r), (u128::MAX, Wide::zero()));
    // y = 2^128 - 1, a = 2^200 + 12345, d = 2^200 + 99999
    let a = Wide { hi: 1u128 << 72, lo: 12345 };
    let d = Wide { hi: 1u128 << 72, lo: 99999 };
    let (q, r) = mul_div(u128::MAX, &a, &d);
    assert_eq!(q, 340282366920938463463374607431768211454);
    assert_eq!(r, Wide { hi: 4722366482869645126042, lo: 187653 });
}

fn dec(mantissa: i128, scale: u32) -> Decimal {
    Decimal::new(mantissa, scale).unwrap()
}

/// Whether the two decimals are the same number, whatever their scales.
fn same_number(a: Decimal, b: Decimal) -> bool {
    a.mantissa * 10i128.pow(b.scale) == b.mantissa * 10i128.pow(a.scale)
}

#[test]
fn volatility_fee_adds_the_capped_adjustment() {
    // 0.05 * 1000 + (1000 / 10000) * 50 = 55, capped at 50
    assert_eq!(calculate_dynamic_fee(30, dec(5, 2), dec(1000, 0), dec(10000, 0)), Ok(80));
    // 0.002 * 1000 + 0.1 * 50 = 7
    assert_eq!(calculate_dynamic_fee(30, dec(2, 3), dec(1000, 0), dec(10000, 0)), Ok(37));
    // nothing to add
    assert_eq!(calculate_dynamic_fee(30, dec(0, 0), dec(0, 0), dec(1, 0)), Ok(30));
}

#[test]
fn volatility_fee_rounds_ties_to_even() {
    // 2.5 rounds to 2, 3.5 rounds to 4
    assert_eq!(calculate_dynamic_fee(30, dec(25, 4), dec(0, 0), dec(1, 0)), Ok(32));
    assert_eq!(calculate_dynamic_fee(30, dec(35, 4), dec(0, 0), dec(1, 0)), Ok(34));
    // 2.51 rounds to 3, 2.49 rounds to 2
    assert_eq!(calculate_dynamic_fee(30, dec(251, 5), dec(0, 0), dec(1, 0)), Ok(33));
    assert_eq!(calculate_dynamic_fee(30, dec(249, 5), dec(0, 0), dec(1, 0)), Ok(32));
}

#[test]
fn volatility_fee_stays_between_1_and_100() {
    assert_eq!(calculate_dynamic_fee(0, dec(0, 0), dec(0, 0), dec(1, 0)), Ok(1));
    assert_eq!(calculate_dynamic_fee(90, dec(1, 0), dec(0, 0), dec(1, 0)), Ok(100));
    assert_eq!(calculate_dynamic_fee(u16::MAX, dec(1, 0), dec(0, 0), dec(1, 0)), Ok(100));
    // a score above 65535 still counts as 50
    assert_eq!(calculate_dynamic_fee(10, dec(100, 0), dec(0, 0), dec(1, 0)), Ok(60));
}

#[test]
fn volatility_fee_rejects_invalid_input() {
    let one = dec(1, 0);
    assert_eq!(calculate_dynamic_fee(30, dec(-1, 2), one, one), Err(MathError::InvalidInput));
    assert_eq!(calculate_dynamic_fee(30, one, dec(-1, 0), one), Err(MathError::InvalidInput));
    assert_eq!(calculate_dynamic_fee(30, one, one, dec(0, 0)), Err(MathError::InvalidInput));
    assert_eq!(calculate_dynamic_fee(30, one, one, dec(-5, 0)), Err(MathError::InvalidInput));
}

#[test]
fn volatility_fee_overflows_to_an_error() {
    let largest = dec(0xffff_ffff_ffff_ffff_ffff_ffff, 0);
    assert_eq!(
        calculate_dynamic_fee(30, largest, dec(0, 0), dec(1, 0)),
        Err(MathError::Overflow)
    );
    assert_eq!(
        calculate_dynamic_fee(30, dec(0, 0), largest, dec(1, 28)),
        Err(MathError::Overflow)
    );
}

#[test]
fn adjusted_fee_counts_the_adjustment_between_0_and_50() {
    assert_eq!(adjusted_fee(30, 7), 37);
    assert_eq!(adjusted_fee(30, -7), 30);
    assert_eq!(adjusted_fee(30, 51), 80);
    assert_eq!(adjusted_fee(30, i128::MAX), 80);
    assert_eq!(adjusted_fee(0, 0), 1);
    assert_eq!(adjusted_fee(100, 50), 100);
}

#[test]
fn decimal_is_built_within_its_range() {
    assert_eq!(Decimal::new(5, 29), None);
    assert_eq!(Decimal::new(1i128 << 96, 0), None);
    assert_eq!(Decimal::new(-(1i128 << 96), 0), None);
    assert_eq!(Decimal::new(5, 28), Some(Decimal { mantissa: 5, scale: 28 }));
    assert_eq!(Decimal::from_int(-3), Decimal { mantissa: -3, scale: 0 });
    assert!(Decimal::from_int(-3).is_negative());
    assert!(Decimal::from_int(0).is_zero());
    assert!(Decimal::from_int(3).is_positive());
}

#[test]
fn price_ratio_is_current_over_initial() {
    assert!(same_number(price_ratio(dec(100, 0), dec(400, 0)).unwrap(), dec(4, 0)));
    assert!(same_number(price_ratio(dec(4, 0), dec(1, 0)).unwrap(), dec(25, 2)));
    assert!(!same_number(price_ratio(dec(4, 0), dec(1, 0)).unwrap(), dec(4, 0)));
}

#[test]
fn price_ratio_rejects_prices_that_are_not_positive() {
    assert_eq!(price_ratio(dec(0, 0), dec(1, 0)), Err(MathError::InvalidInput));
    assert_eq!(price_ratio(dec(1, 0), dec(0, 0)), Err(MathError::InvalidInput));
    assert_eq!(price_ratio(dec(-1, 0), dec(1, 0)), Err(MathError::InvalidInput));
    assert_eq!(price_ratio(dec(1, 0), dec(-1, 0)), Err(MathError::InvalidInput));
}

#[test]
fn price_ratio_overflows_to_an_error() {
    let largest = dec(0xffff_ffff_ffff_ffff_ffff_ffff, 0);
    assert_eq!(price_ratio(dec(1, 28), largest), Err(MathError::Overflow));
}

#[test]
fn impermanent_loss_for_a_fourfold_price() {
    // 2 * 2 / (1 + 4) - 1 = -0.2
    let loss = impermanent_loss_from_root(dec(4, 0), dec(2, 0)).unwrap();
    assert!(same_number(loss, dec(-2, 1)));
    assert!(loss.is_negative());
    // no change in price, no loss
    let none = impermanent_loss_from_root(dec(1, 0), dec(1, 0)).unwrap();
    assert!(none.is_zero());
}

#[test]
fn impermanent_loss_rejects_a_ratio_of_minus_one() {
    assert_eq!(
        impermanent_loss_from_root(dec(-1, 0), dec(1, 0)),
        Err(MathError::InvalidInput)
    );
}

#[test]
fn impermanent_loss_overflows_to_an_error() {
    let largest = dec(0xffff_ffff_ffff_ffff_ffff_ffff, 0);
    assert_eq!(impermanent_loss_from_root(dec(1, 0), largest), Err(MathError::Overflow));
    assert_eq!(impermanent_loss_from_root(largest, dec(1, 0)), Err(MathError::Overflow));
}

#[test]
fn integer_sqrt_rounds_down() {
    assert_eq!(integer_sqrt(&Wide::zero()), 0);
    assert_eq!(integer_sqrt(&Wide::from_u128(1)), 1);
    assert_eq!(integer_sqrt(&Wide::from_u128(15)), 3);
    assert_eq!(integer_sqrt(&Wide::from_u128(16)), 4);
    assert_eq!(integer_sqrt(&Wide::from_u128(17)), 4);
    assert_eq!(integer_sqrt(&Wide::from_u128(u128::MAX)), u64::MAX as u128);
    assert_eq!(integer_sqrt(&Wide { hi: 1, lo: 0 }), 1u128 << 64);
    assert_eq!(integer_sqrt(&Wide { hi: u128::MAX, lo: u128::MAX }), u128::MAX);
    // (2^128 - 1)^2 and one less
    assert_eq!(
        integer_sqrt(&Wide { hi: 0xffff_ffff_ffff_ffff_ffff_ffff_ffff_fffe, lo: 1 }),
        u128::MAX
    );
    assert_eq!(
        integer_sqrt(&Wide { hi: 0xffff_ffff_ffff_ffff_ffff_ffff_ffff_fffe, lo: 0 }),
        u128::MAX - 1
    );
}

#[test]
fn square_root_has_14_decimal_places() {
    assert_eq!(square_root(dec(2, 0)), Some(dec(141421356237309, 14)));
    assert_eq!(square_root(dec(4, 0)), Some(dec(200000000000000, 14)));
    assert_eq!(square_root(dec(25, 2)), Some(dec(50000000000000, 14)));
    assert_eq!(square_root(dec(0, 5)), Some(dec(0, 14)));
    assert_eq!(square_root(dec(1, 28)), Some(dec(1, 14)));
    assert_eq!(square_root(dec(3, 28)), Some(dec(1, 14)));
    assert_eq!(square_root(dec(4, 28)), Some(dec(2, 14)));
    // the largest decimal: 2^96 - 1
    assert_eq!(
        square_root(dec(0xffff_ffff_ffff_ffff_ffff_ffff, 0)),
        Some(dec(28147497671065599999999999999, 14))
    );
}

#[test]
fn square_root_of_a_negative_number_is_none() {
    assert_eq!(square_root(dec(-1, 0)), None);
    assert_eq!(square_root(dec(-1, 28)), None);
    assert_eq!(square_root(Decimal { mantissa: 1, scale: 29 }), None);
    assert_eq!(square_root(Decimal { mantissa: 1i128 << 96, scale: 0 }), None);
}

#[test]
fn impermanent_loss_follows_the_formula() {
    // a fourfold price: 2 * 2 / 5 - 1 = -0.2
    let loss = calculate_impermanent_loss(dec(100, 0), dec(400, 0)).unwrap();
    assert!(same_number(loss, dec(-2, 1)));
    // a doubled price: 2 * 1.41421356237309 / 3 - 1
    let loss = calculate_impermanent_loss(dec(1, 0), dec(2, 0)).unwrap();
    assert!(same_number(loss, dec(-5719095841794, 14)));
    // the same the other way round: P = 0.5
    let loss = calculate_impermanent_loss(dec(2, 0), dec(1, 0)).unwrap();
    assert!(loss.is_negative());
    // no change in price, no loss
    let loss = calculate_impermanent_loss(dec(15, 1), dec(150, 2)).unwrap();
    assert!(loss.is_zero());
}

#[test]
fn impermanent_loss_rejects_prices_that_are_not_positive() {
    for (a, b) in [(0, 1), (1, 0), (-1, 1), (1, -1), (0, 0)] {
        assert_eq!(
            calculate_impermanent_loss(dec(a, 0), dec(b, 0)),
            Err(MathError::InvalidInput)
        );
    }
}

#[test]
fn impermanent_loss_overflow_is_an_error() {
    let largest = dec(0xffff_ffff_ffff_ffff_ffff_ffff, 0);
    assert_eq!(calculate_impermanent_loss(dec(1, 28), largest), Err(MathError::Overflow));
}

#[test]
fn decimal_price_agrees_with_the_exact_one() {
    let out = cpmm_out_given_in_decimal(dec(1_000_000, 0), dec(800_000, 0), dec(10_000, 0), 30)
        .unwrap();
    // 7897.26...
    assert!(less_than(dec(7897, 0), out));
    assert!(less_than(out, dec(7898, 0)));
    assert!(less_than(dec(78972642, 4), out));
    assert!(less_than(out, dec(78972643, 4)));
}

#[test]
fn decimal_price_takes_reserves_that_are_not_whole() {
    // 2.5 - 1.5 * 2.5 / (1.5 + 0.5) = 0.625
    let out = cpmm_out_given_in_decimal(dec(15, 1), dec(25, 1), dec(5, 1), 0).unwrap();
    assert!(same_number(out, dec(625, 3)));
    // with a fee of a half: 2.5 - 3.75 / 1.75
    let out = cpmm_out_given_in_decimal(dec(15, 1), dec(25, 1), dec(5, 1), 5_000).unwrap();
    assert!(less_than(dec(357142857, 9), out));
    assert!(less_than(out, dec(357142858, 9)));
}

#[test]
fn decimal_price_rejects_what_is_not_positive() {
    let one = dec(1, 0);
    for bad in [dec(0, 0), dec(-1, 0), dec(0, 7), dec(-1, 28)] {
        assert_eq!(cpmm_out_given_in_decimal(bad, one, one, 30), Err(MathError::InvalidInput));
        assert_eq!(cpmm_out_given_in_decimal(one, bad, one, 30), Err(MathError::InvalidInput));
        assert_eq!(cpmm_out_given_in_decimal(one, one, bad, 30), Err(MathError::InvalidInput));
    }
}

#[test]
fn decimal_price_with_a_fee_of_everything_has_no_output() {
    let one = dec(1, 0);
    for fee in [10_000, 10_001, 65_535, i64::MAX] {
        assert_eq!(
            cpmm_out_given_in_decimal(one, one, one, fee),
            Err(MathError::InsufficientLiquidity)
        );
    }
}

#[test]
fn decimal_price_leaves_its_range_with_an_error() {
    let largest = dec(0xffff_ffff_ffff_ffff_ffff_ffff, 0);
    assert_eq!(
        cpmm_out_given_in_decimal(largest, largest, dec(1, 0), 30),
        Err(MathError::Overflow)
    );
}

#[test]
fn decimal_price_too_small_for_a_decimal_is_no_liquidity() {
    // the output is below what 28 decimal places hold
    let r = cpmm_out_given_in_decimal(dec(0xffff_ffff_ffff_ffff_ffff_fff, 0), dec(1, 28), dec(1, 28), 0);
    assert_eq!(r, Err(MathError::InsufficientLiquidity));
}

#[test]
fn decimals_compare_as_numbers() {
    assert!(less_than(dec(1, 0), dec(2, 0)));
    assert!(!less_than(dec(2, 0), dec(1, 0)));
    assert!(!less_than(dec(1, 0), dec(1, 0)));
    assert!(!less_than(dec(10, 1), dec(1, 0)) && !less_than(dec(1, 0), dec(10, 1)));
    assert!(less_than(dec(99, 2), dec(1, 0)));
    assert!(less_than(dec(-1, 0), dec(0, 0)));
    assert!(less_than(dec(-2, 0), dec(-1, 0)));
    assert!(!less_than(dec(-1, 0), dec(-2, 0)));
    assert!(less_than(dec(-1, 28), dec(1, 28)));
    assert!(!less_than(dec(0, 0), dec(0, 28)));
    let largest = dec(0xffff_ffff_ffff_ffff_ffff_ffff, 0);
    assert!(less_than(dec(0xffff_ffff_ffff_ffff_ffff_ffff, 28), largest));
    assert!(less_than(dec(-0xffff_ffff_ffff_ffff_ffff_ffff, 0), largest));
    assert!(is_well_formed(largest));
    assert!(!is_well_formed(Decimal { mantissa: 1, scale: 29 }));
    assert!(!is_well_formed(Decimal { mantissa: 1i128 << 96, scale: 0 }));
}
