//! Tests of the price/tick codec.

use clmm::error::CLMMError;
use clmm::tick_math::{price_to_sqrt_price_x64, sqrt_price_x64_to_tick, tick_to_sqrt_price_x64};

const Q64: u128 = 1u128 << 64;

#[test]
fn tick_zero_maps_to_unit_price() {
    assert_eq!(tick_to_sqrt_price_x64(0), Ok(Q64));
}

#[test]
fn tick_one_is_one_ratio_step() {
    assert_eq!(tick_to_sqrt_price_x64(1), Ok(18447666387855959851));
}

#[test]
fn tick_minus_one_is_the_reciprocal() {
    assert_eq!(tick_to_sqrt_price_x64(-1), Ok(18445821805675392311));
}

#[test]
fn tick_hundred_both_sides() {
    assert_eq!(tick_to_sqrt_price_x64(100), Ok(18539204128674405772));
    assert_eq!(tick_to_sqrt_price_x64(-100), Ok(18354745142194483603));
}

#[test]
fn codec_is_monotonic_on_samples() {
    let ticks = [-1000, -100, -11, -1, 0, 1, 7, 100, 1000];
    let mut prev: Option<u128> = None;
    for t in ticks {
        let p = tick_to_sqrt_price_x64(t).unwrap();
        if let Some(q) = prev {
            assert!(q < p);
        }
        prev = Some(p);
    }
}

#[test]
fn codec_round_trips_on_samples() {
    for t in [-100000, -1000, -100, -10, -1, 0, 1, 10, 100, 1000, 100000] {
        let p = tick_to_sqrt_price_x64(t).unwrap();
        assert_eq!(sqrt_price_x64_to_tick(p), Ok(t));
    }
}

#[test]
fn inverse_rounds_down_between_ticks() {
    let p = tick_to_sqrt_price_x64(7).unwrap();
    assert_eq!(sqrt_price_x64_to_tick(p + 1), Ok(7));
    assert_eq!(sqrt_price_x64_to_tick(p - 1), Ok(6));
}

#[test]
fn out_of_band_tick_overflows() {
    assert_eq!(tick_to_sqrt_price_x64(i32::MAX), Err(CLMMError::ArithmeticOverflow));
    assert_eq!(tick_to_sqrt_price_x64(i32::MIN), Err(CLMMError::ArithmeticOverflow));
    assert_eq!(tick_to_sqrt_price_x64(1_000_000), Err(CLMMError::ArithmeticOverflow));
}

#[test]
fn out_of_band_price_overflows() {
    assert_eq!(sqrt_price_x64_to_tick(0), Err(CLMMError::ArithmeticOverflow));
    assert_eq!(sqrt_price_x64_to_tick(1), Err(CLMMError::ArithmeticOverflow));
    assert_eq!(sqrt_price_x64_to_tick(u128::MAX), Err(CLMMError::ArithmeticOverflow));
}

#[test]
fn integer_price_to_sqrt_price() {
    assert_eq!(price_to_sqrt_price_x64(1), Ok(Q64));
    assert_eq!(price_to_sqrt_price_x64(4), Ok(2 * Q64));
    assert_eq!(price_to_sqrt_price_x64(0), Err(CLMMError::ZeroAmount));
    // sqrt(2) in Q64.64, rounded down.
    assert_eq!(price_to_sqrt_price_x64(2), Ok(26087635650665564424));
}
