use near_helper::{as_scientific_notation, near_to_yoctonear, yoctonear_to_near};

const ONE_NEAR: u128 = 1_000_000_000_000_000_000_000_000;

#[test]
fn test_yoctonear_to_near_conversion_correct_below_decimals() {
    assert_eq!(yoctonear_to_near(ONE_NEAR / 500), "0.002".to_owned());
}

#[test]
fn test_yoctonear_conversion_correct_above_decimals() {
    assert_eq!(yoctonear_to_near(ONE_NEAR * 12), "12".to_owned());
}

#[test]
fn test_yoctonear_zero_conversion_success() {
    assert_eq!(yoctonear_to_near(0), "0".to_owned());
}

#[test]
fn test_near_zero_conversion_success() {
    assert_eq!(near_to_yoctonear("0".to_owned()), 0);
}

#[test]
fn test_near_to_yoctonear_correct_less_than_one_near() {
    assert_eq!(near_to_yoctonear("0.0021489".to_owned()), 2_148_900_000_000_000_000_000);
}

#[test]
fn test_near_to_yoctonear_correct_more_than_one_near() {
    assert_eq!(near_to_yoctonear("127.864".to_owned()), 127_864_000_000_000_000_000_000_000);
}

#[test]
fn display_keeps_five_fractional_digits_above_one_unit() {
    assert_eq!(yoctonear_to_near(3_193_264_587_249_763_651_824_729), "3.19326".to_owned());
}

#[test]
fn display_keeps_five_significant_digits_below_one_unit() {
    assert_eq!(yoctonear_to_near(21_409_258_000_000_000_000_000), "0.021409".to_owned());
}

#[test]
fn display_of_tiny_amounts_is_exact() {
    assert_eq!(yoctonear_to_near(1), "0.000000000000000000000001".to_owned());
    assert_eq!(yoctonear_to_near(10_000), "0.00000000000000000001".to_owned());
}

#[test]
fn display_of_whole_amount_ending_in_zero() {
    assert_eq!(yoctonear_to_near(ONE_NEAR * 120), "120".to_owned());
}

#[test]
fn display_of_largest_amount() {
    assert_eq!(yoctonear_to_near(u128::MAX), "340282366920938.46346".to_owned());
}

#[test]
fn parse_whole_number_without_point() {
    assert_eq!(near_to_yoctonear("5".to_owned()), 5 * ONE_NEAR);
    assert_eq!(near_to_yoctonear("5.".to_owned()), 5 * ONE_NEAR);
}

#[test]
fn parse_fraction_without_leading_zero() {
    assert_eq!(near_to_yoctonear(".5".to_owned()), ONE_NEAR / 2);
    assert_eq!(near_to_yoctonear("3.214".to_owned()), 3_214_000_000_000_000_000_000_000);
}

#[test]
fn parse_full_precision() {
    assert_eq!(near_to_yoctonear("0.000000000000000000000001".to_owned()), 1);
}

#[test]
fn round_trip_truncates_to_kept_digits() {
    let x: u128 = 3_193_264_587_249_763_651_824_729;
    assert_eq!(near_to_yoctonear(yoctonear_to_near(x)), 3_193_260_000_000_000_000_000_000);
    let y: u128 = 21_409_258_000_000_000_000_000;
    assert_eq!(near_to_yoctonear(yoctonear_to_near(y)), 21_409_000_000_000_000_000_000);
}

#[test]
fn scientific_notation_keeps_leading_digits() {
    assert_eq!(as_scientific_notation(2_913_464_000_000_000_000, 3), (291u32, 16u8));
    assert_eq!(as_scientific_notation(7, 1), (7u32, 0u8));
    assert_eq!(as_scientific_notation(12_345, 5), (12_345u32, 0u8));
}

#[test]
fn scientific_notation_of_largest_amount() {
    assert_eq!(as_scientific_notation(u128::MAX, 9), (340_282_366u32, 30u8));
}
