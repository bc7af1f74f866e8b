//! Tests of the range-liquidity math and the swap stepper.

use clmm::error::CLMMError;
use clmm::liquidity_math::{calculate_liquidity_amounts, liquidity_for_amounts};
use clmm::swap_math::compute_swap_step;

const Q64: u128 = 1u128 << 64;

#[test]
fn amounts_below_range_are_asset_a_only() {
    // a = L * (u - l) * 2^64 / (u * l) with l = 2^64, u = 2^65.
    let r = calculate_liquidity_amounts(Q64, Q64, 2 * Q64, 1000);
    assert_eq!(r, Ok((500, 0)));
}

#[test]
fn amounts_above_range_are_asset_b_only() {
    // b = L * (u - l) / 2^64.
    let r = calculate_liquidity_amounts(2 * Q64, Q64, 2 * Q64, 1000);
    assert_eq!(r, Ok((0, 1000)));
}

#[test]
fn amounts_inside_range_split_at_current_price() {
    // c = 1.5 in Q64.64.
    let c = 3 * (Q64 / 2);
    let r = calculate_liquidity_amounts(c, Q64, 2 * Q64, 1000);
    assert_eq!(r, Ok((166, 500)));
}

#[test]
fn amounts_overflow_is_reported() {
    let r = calculate_liquidity_amounts(1, 1, u128::MAX, u128::MAX);
    assert_eq!(r, Err(CLMMError::ArithmeticOverflow));
}

#[test]
fn liquidity_from_asset_a_below_range() {
    // L = a * u * l / ((u - l) * 2^64).
    let r = liquidity_for_amounts(Q64, Q64, 2 * Q64, 1000, 0);
    assert_eq!(r, Ok(2000));
}

#[test]
fn liquidity_from_asset_b_above_range() {
    // L = b * 2^64 / (u - l).
    let r = liquidity_for_amounts(2 * Q64, Q64, 2 * Q64, 0, 1000);
    assert_eq!(r, Ok(1000));
}

#[test]
fn liquidity_inside_range_takes_the_minimum() {
    let c = 3 * (Q64 / 2);
    // Implied by A over [c, u]: 1000 * u * c / ((u - c) * 2^64) = 6000.
    // Implied by B over [l, c]: 1000 * 2^64 / (c - l) = 2000.
    let r = liquidity_for_amounts(c, Q64, 2 * Q64, 1000, 1000);
    assert_eq!(r, Ok(2000));
}

#[test]
fn swap_step_full_fill_a_to_b() {
    // Moving price from 2.0 down to 1.0 at L = 1000 takes 500 of A and
    // yields 1000 of B.
    let r = compute_swap_step(2 * Q64, Q64, 1000, 100000, true);
    assert_eq!(r, Ok((Q64, 500, 1000)));
}

#[test]
fn swap_step_partial_fill_a_to_b() {
    let r = compute_swap_step(2 * Q64, Q64, 1000, 100, true);
    assert_eq!(r, Ok((30744573456182586026, 100, 333)));
}

#[test]
fn swap_step_full_fill_b_to_a() {
    let r = compute_swap_step(Q64, 2 * Q64, 1000, 1000, false);
    assert_eq!(r, Ok((2 * Q64, 1000, 500)));
}

#[test]
fn swap_step_partial_fill_b_to_a() {
    let r = compute_swap_step(Q64, 2 * Q64, 1000, 100, false);
    assert_eq!(r, Ok((20291418481080506777, 100, 90)));
}

#[test]
fn swap_step_zero_distance_moves_nothing() {
    let r = compute_swap_step(Q64, Q64, 1000, 500, true);
    assert_eq!(r, Ok((Q64, 0, 0)));
}
