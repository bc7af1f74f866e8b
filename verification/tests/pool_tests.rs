//! End-to-end scenarios on a pool: creation, ranges, swaps, withdrawal.

use clmm::error::CLMMError;
use clmm::pool_ops::{add_liquidity, initialize_pool, withdraw_liquidity};
use clmm::state::{Pool, TickRegistry};
use clmm::swap::swap;

const Q64: u128 = 1u128 << 64;

/// A pool at tick 0 (price ratio 1:1) with spacing 10, and its registry
/// with ticks -100 and 100 initialized.
fn pool_at_unit_price() -> (Pool, TickRegistry) {
    let pool = initialize_pool(1, 2, 11, 12, 13, 14, 1, 10).unwrap();
    assert_eq!(pool.sqrt_price_x64, Q64);
    assert_eq!(pool.current_tick, 0);
    let mut reg = TickRegistry::new();
    reg.touch_tick(-100, 10).unwrap();
    reg.touch_tick(100, 10).unwrap();
    (pool, reg)
}

#[test]
fn initialize_rejects_equal_mints() {
    assert_eq!(
        initialize_pool(7, 7, 11, 12, 13, 14, 1, 10).err(),
        Some(CLMMError::SameTokenMint)
    );
}

#[test]
fn initialize_rejects_zero_price() {
    assert_eq!(initialize_pool(1, 2, 11, 12, 13, 14, 0, 10).err(), Some(CLMMError::ZeroAmount));
}

#[test]
fn touch_tick_checks_alignment_and_band() {
    let mut reg = TickRegistry::new();
    assert_eq!(reg.touch_tick(-95, 10), Err(CLMMError::UnalignedTick));
    assert_eq!(reg.touch_tick(1_073_741_820, 10), Err(CLMMError::ArithmeticOverflow));
    assert_eq!(reg.touch_tick(-100, 10), Ok(()));
    // Idempotent: a second touch keeps the record.
    assert_eq!(reg.touch_tick(-100, 10), Ok(()));
    assert_eq!(reg.get_tick(-100).unwrap().liquidity_net, 0);
}

#[test]
fn range_delta_balances_the_boundaries() {
    let mut reg = TickRegistry::new();
    reg.touch_tick(-100, 10).unwrap();
    reg.touch_tick(100, 10).unwrap();
    reg.apply_range_delta(-100, 100, 500).unwrap();
    assert_eq!(reg.get_tick(-100).unwrap().liquidity_net, 500);
    assert_eq!(reg.get_tick(100).unwrap().liquidity_net, -500);
    // The nets always cancel; closing restores both to zero.
    reg.apply_range_delta(-100, 100, -500).unwrap();
    assert_eq!(reg.get_tick(-100).unwrap().liquidity_net, 0);
    assert_eq!(reg.get_tick(100).unwrap().liquidity_net, 0);
}

#[test]
fn range_delta_needs_initialized_ticks() {
    let mut reg = TickRegistry::new();
    reg.touch_tick(-100, 10).unwrap();
    assert_eq!(reg.apply_range_delta(-100, 100, 500), Err(CLMMError::InvalidTickIndex));
}

#[test]
fn scenario_first_deposit() {
    let (mut pool, mut reg) = pool_at_unit_price();
    let (liq, a, b, minted) =
        add_liquidity(&mut pool, &mut reg, -100, 100, 1000, 1000, None, None, 0, 0).unwrap();
    assert_eq!(liq, 200510);
    assert!(minted > 0);
    assert!(a <= 1000 && b <= 1000);
    assert_eq!((a, b, minted), (999, 999, 999));
    assert_eq!(pool.total_lp_issued, 999);
    assert_eq!(pool.active_liquidity, 200510);
    assert_eq!(reg.get_tick(-100).unwrap().liquidity_net, 200510);
    assert_eq!(reg.get_tick(100).unwrap().liquidity_net, -200510);
}

#[test]
fn scenario_swap_a_to_b_partial() {
    let (mut pool, mut reg) = pool_at_unit_price();
    add_liquidity(&mut pool, &mut reg, -100, 100, 1000, 1000, None, None, 0, 0).unwrap();
    let boundaries = vec![-100];
    let (ain, aout) = swap(&mut pool, &reg, 500, true, None, None, &boundaries).unwrap();
    assert_eq!(ain, 500);
    assert!(aout > 0);
    assert_eq!(aout, 498);
    // The price fell but stayed inside the range: the tick strictly
    // decreased and the active liquidity is unchanged.
    assert!(pool.current_tick < 0);
    assert_eq!(pool.current_tick, -50);
    assert_eq!(pool.active_liquidity, 200510);
    assert!(pool.sqrt_price_x64 < Q64);
}

#[test]
fn scenario_swap_crosses_the_upper_boundary() {
    let (mut pool, mut reg) = pool_at_unit_price();
    add_liquidity(&mut pool, &mut reg, -100, 100, 1000, 1000, None, None, 0, 0).unwrap();
    let boundaries = vec![-100, 100];
    let (ain, aout) = swap(&mut pool, &reg, 2000, false, None, None, &boundaries).unwrap();
    // The walk skips the already-passed lower boundary, fully crosses the
    // upper one, and stops with input left over.
    assert_eq!(ain, 1005);
    assert_eq!(aout, 999);
    assert_eq!(pool.current_tick, 100);
    // Crossing upward applies the boundary's liquidity_net of -200510.
    assert_eq!(pool.active_liquidity, 0);
}

#[test]
fn scenario_swap_crosses_the_lower_boundary() {
    let (mut pool, mut reg) = pool_at_unit_price();
    add_liquidity(&mut pool, &mut reg, -100, 100, 1000, 1000, None, None, 0, 0).unwrap();
    let boundaries = vec![-100];
    let (ain, aout) = swap(&mut pool, &reg, 2000, true, None, None, &boundaries).unwrap();
    assert_eq!(ain, 1005);
    assert_eq!(aout, 999);
    assert_eq!(pool.current_tick, -100);
    // Crossing downward removes the boundary's liquidity_net of 200510.
    assert_eq!(pool.active_liquidity, 0);
}

#[test]
fn add_liquidity_needs_initialized_boundaries() {
    let (mut pool, mut reg) = pool_at_unit_price();
    let r = add_liquidity(&mut pool, &mut reg, -200, 100, 1000, 1000, None, None, 0, 0);
    assert_eq!(r.err(), Some(CLMMError::InvalidTickIndex));
}

#[test]
fn scenario_withdraw_checks_share_balance() {
    let (mut pool, mut reg) = pool_at_unit_price();
    let (liq, _a, _b, minted) =
        add_liquidity(&mut pool, &mut reg, -100, 100, 1000, 1000, None, None, 0, 0).unwrap();
    // More shares than held: refused, nothing changes.
    let r = withdraw_liquidity(&mut pool, &mut reg, -100, 100, liq, 999, 999, minted - 1);
    assert_eq!(r, Err(CLMMError::InsufficientLPTokens));
    assert_eq!(pool.total_lp_issued, minted);
    // Exactly the full balance: succeeds and zeroes the position.
    let (a, b, burned) =
        withdraw_liquidity(&mut pool, &mut reg, -100, 100, liq, 999, 999, minted).unwrap();
    assert_eq!((a, b), (999, 999));
    assert_eq!(burned, minted);
    assert_eq!(pool.total_lp_issued, 0);
    assert_eq!(pool.active_liquidity, 0);
    assert_eq!(reg.get_tick(-100).unwrap().liquidity_net, 0);
    assert_eq!(reg.get_tick(100).unwrap().liquidity_net, 0);
}

#[test]
fn scenario_range_validation() {
    let (mut pool, mut reg) = pool_at_unit_price();
    // Inverted bounds are a tick mismatch.
    let r = add_liquidity(&mut pool, &mut reg, 100, -100, 1000, 1000, None, None, 0, 0);
    assert_eq!(r.err(), Some(CLMMError::TickMismatch));
    let r = add_liquidity(&mut pool, &mut reg, 100, 100, 1000, 1000, None, None, 0, 0);
    assert_eq!(r.err(), Some(CLMMError::TickMismatch));
    // Bounds off the spacing grid are unaligned.
    let r = add_liquidity(&mut pool, &mut reg, -95, 100, 1000, 1000, None, None, 0, 0);
    assert_eq!(r.err(), Some(CLMMError::UnalignedTick));
}

#[test]
fn add_liquidity_respects_minimums() {
    let (mut pool, mut reg) = pool_at_unit_price();
    let r = add_liquidity(&mut pool, &mut reg, -100, 100, 1000, 1000, Some(1000), None, 0, 0);
    assert_eq!(r.err(), Some(CLMMError::SlippageExceeded));
}

#[test]
fn add_liquidity_rejects_zero_contribution() {
    let (mut pool, mut reg) = pool_at_unit_price();
    let r = add_liquidity(&mut pool, &mut reg, -100, 100, 0, 0, None, None, 0, 0);
    assert_eq!(r.err(), Some(CLMMError::ZeroAmount));
}

#[test]
fn withdraw_from_empty_pool_is_refused() {
    let (mut pool, mut reg) = pool_at_unit_price();
    let r = withdraw_liquidity(&mut pool, &mut reg, -100, 100, 5, 0, 0, 0);
    assert_eq!(r.err(), Some(CLMMError::PoolEmpty));
}

#[test]
fn swap_validates_its_inputs() {
    let (mut pool, mut reg) = pool_at_unit_price();
    let boundaries = vec![-100];
    let none: Vec<i32> = Vec::new();
    assert_eq!(
        swap(&mut pool, &reg, 0, true, None, None, &boundaries).err(),
        Some(CLMMError::ZeroAmount)
    );
    assert_eq!(
        swap(&mut pool, &reg, 500, true, None, None, &none).err(),
        Some(CLMMError::MissingTickAccounts)
    );
    let missing = vec![-200];
    assert_eq!(
        swap(&mut pool, &reg, 500, true, None, None, &missing).err(),
        Some(CLMMError::MissingTickAccounts)
    );
    // No liquidity yet: nothing to trade against.
    assert_eq!(
        swap(&mut pool, &reg, 500, true, None, None, &boundaries).err(),
        Some(CLMMError::InsufficientFundsInPool)
    );
    add_liquidity(&mut pool, &mut reg, -100, 100, 1000, 1000, None, None, 0, 0).unwrap();
    // A minimum output above what the pool can give is slippage.
    assert_eq!(
        swap(&mut pool, &reg, 500, true, None, Some(10_000), &boundaries).err(),
        Some(CLMMError::SlippageExceeded)
    );
    // A boundary on the wrong side of travel is skipped; with nothing to
    // step against, no output is produced.
    let wrong_side = vec![100];
    assert_eq!(
        swap(&mut pool, &reg, 500, true, None, None, &wrong_side).err(),
        Some(CLMMError::ZeroSwapOutput)
    );
}

#[test]
fn swap_stops_at_the_price_limit() {
    let (mut pool, mut reg) = pool_at_unit_price();
    add_liquidity(&mut pool, &mut reg, -100, 100, 1000, 1000, None, None, 0, 0).unwrap();
    let boundaries = vec![-100];
    // A limit above the lower boundary's price halts the walk before it,
    // so nothing fills.
    let limit = pool.sqrt_price_x64 - 1;
    assert_eq!(
        swap(&mut pool, &reg, 500, true, Some(limit), None, &boundaries).err(),
        Some(CLMMError::ZeroSwapOutput)
    );
    // A limit below the boundary lets the whole fill through.
    let low = clmm::tick_math::tick_to_sqrt_price_x64(-100).unwrap();
    let (ain, aout) = swap(&mut pool, &reg, 500, true, Some(low), None, &boundaries).unwrap();
    assert_eq!((ain, aout), (500, 498));
    assert!(pool.sqrt_price_x64 >= low);
}
