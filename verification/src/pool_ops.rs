//! Range operations on a pool: creation, opening and closing liquidity
//! ranges.
//!
//! Every operation validates all of its inputs and arithmetic before it
//! mutates anything: a failure returns the pool and the registry exactly
//! as they were.  Liquidity shares are valued against pool-wide vault
//! balances, while liquidity deltas are tracked per range boundary in the
//! tick registry; the two deliberately follow the share-accounting model
//! of a single fungible share mint.

use vstd::prelude::*;
use crate::error::CLMMError;
use crate::liquidity_math::{
    amounts_for_liquidity_spec, calculate_liquidity_amounts, liquidity_for_amounts,
    liquidity_for_amounts_fits, liquidity_for_amounts_spec,
};
use crate::state::{tick_aligned, Pool, TickRegistry};
use crate::tick_math::{
    lemma_bracket_exists_upward, lemma_tick_sqrt_price_mono, lemma_tick_sqrt_price_pos,
    price_to_sqrt_price_x64, sqrt_price_x64_to_tick, tick_in_range, tick_sqrt_price,
    tick_to_sqrt_price_x64,
};
use crate::wide::{isqrt_u256, mul_wide, pow2_128, pow2_64, U256};

verus! {

/// The lesser of two values.
pub open spec fn min2(a: int, b: int) -> int {
    if a <= b {
        a
    } else {
        b
    }
}

/// The greater of two values.
pub open spec fn max2(a: int, b: int) -> int {
    if a >= b {
        a
    } else {
        b
    }
}

/// The integer square root.
pub open spec fn spec_isqrt(n: int) -> int {
    choose|r: int| 0 <= r && #[trigger] (r * r) <= n && n < (r + 1) * (r + 1)
}

/// A witness pins the integer square root down.
pub proof fn lemma_isqrt_is(n: int, r: int)
    requires
        0 <= r,
        r * r <= n,
        n < (r + 1) * (r + 1),
    ensures
        spec_isqrt(n) == r,
{
    assert(exists|x: int| 0 <= x && #[trigger] (x * x) <= n && n < (x + 1) * (x + 1)) by {
        assert(0 <= r && r * r <= n && n < (r + 1) * (r + 1));
    }
    let c: int = spec_isqrt(n);
    assert(0 <= c && c * c <= n && n < (c + 1) * (c + 1));
    if c < r {
        assert((c + 1) * (c + 1) <= r * r) by (nonlinear_arith)
            requires
                0 <= c,
                c + 1 <= r,
        ;
    }
    if c > r {
        assert((r + 1) * (r + 1) <= c * c) by (nonlinear_arith)
            requires
                0 <= r,
                r + 1 <= c,
        ;
    }
}

/// The share count a quantity is worth against a vault balance:
/// `amount * total / balance`, or zero against an empty vault.
pub open spec fn share_from(amount: int, total: int, balance: int) -> int {
    if balance > 0 {
        amount * total / balance
    } else {
        0
    }
}

/// The liquidity shares minted for a contribution: the geometric mean on
/// the first-ever deposit, else the lesser of the two assets'
/// proportional claims on the vault balances.
pub open spec fn lp_mint_spec(total: int, bal_a: int, bal_b: int, a: int, b: int) -> int {
    if total == 0 {
        if a > 0 && b > 0 {
            spec_isqrt(a * b)
        } else {
            max2(a, b)
        }
    } else {
        min2(share_from(a, total, bal_a), share_from(b, total, bal_b))
    }
}

/// Everything `add_liquidity` returns and changes on success.
pub struct AddOutcome {
    pub liquidity: int,
    pub amount_a: int,
    pub amount_b: int,
    pub lp_minted: int,
    pub total_after: int,
    pub active_after: int,
    pub net_lower_after: int,
    pub net_upper_after: int,
}

/// The exact outcome of `add_liquidity`, validation order included.
pub open spec fn add_liquidity_spec(
    pool: Pool,
    reg: TickRegistry,
    tick_lower: int,
    tick_upper: int,
    max_a: int,
    max_b: int,
    min_a: Option<u64>,
    min_b: Option<u64>,
    vault_a_balance: int,
    vault_b_balance: int,
) -> Result<AddOutcome, CLMMError> {
    if tick_lower >= tick_upper {
        Err(CLMMError::TickMismatch)
    } else if !tick_aligned(tick_lower, pool.tick_spacing as int) || !tick_aligned(
        tick_upper,
        pool.tick_spacing as int,
    ) {
        Err(CLMMError::UnalignedTick)
    } else if !tick_in_range(tick_lower) || !tick_in_range(tick_upper) {
        Err(CLMMError::ArithmeticOverflow)
    } else {
        let c = pool.sqrt_price_x64 as int;
        let pl = tick_sqrt_price(tick_lower);
        let pu = tick_sqrt_price(tick_upper);
        if !liquidity_for_amounts_fits(c, pl, pu, max_a) {
            Err(CLMMError::ArithmeticOverflow)
        } else {
            let liq = liquidity_for_amounts_spec(c, pl, pu, max_a, max_b);
            if liq == 0 {
                Err(CLMMError::ZeroAmount)
            } else {
                let (a, b) = amounts_for_liquidity_spec(c, pl, pu, liq);
                if a > u64::MAX || b > u64::MAX {
                    Err(CLMMError::ArithmeticOverflow)
                } else if (min_a is Some && a < min_a->0) || (min_b is Some && b < min_b->0) {
                    Err(CLMMError::SlippageExceeded)
                } else if pool.total_lp_issued > 0 && vault_a_balance == 0 && vault_b_balance
                    == 0 {
                    Err(CLMMError::PoolEmpty)
                } else {
                    let total = pool.total_lp_issued as int;
                    let mint = lp_mint_spec(total, vault_a_balance, vault_b_balance, a, b);
                    if mint > u64::MAX || total + mint > u64::MAX || liq > i128::MAX {
                        Err(CLMMError::ArithmeticOverflow)
                    } else {
                        match (reg.spec_find(tick_lower), reg.spec_find(tick_upper)) {
                            (Some(lt), Some(ut)) => {
                                if lt.liquidity_net + liq > i128::MAX || ut.liquidity_net - liq
                                    < i128::MIN {
                                    Err(CLMMError::ArithmeticOverflow)
                                } else {
                                    let in_range_now = tick_lower <= pool.current_tick as int
                                        <= tick_upper;
                                    let active = pool.active_liquidity as int;
                                    if in_range_now && active + liq >= pow2_128() {
                                        Err(CLMMError::ArithmeticOverflow)
                                    } else {
                                        Ok(
                                            AddOutcome {
                                                liquidity: liq,
                                                amount_a: a,
                                                amount_b: b,
                                                lp_minted: mint,
                                                total_after: total + mint,
                                                active_after: if in_range_now {
                                                    active + liq
                                                } else {
                                                    active
                                                },
                                                net_lower_after: lt.liquidity_net + liq,
                                                net_upper_after: ut.liquidity_net - liq,
                                            },
                                        )
                                    }
                                }
                            },
                            _ => Err(CLMMError::InvalidTickIndex),
                        }
                    }
                }
            }
        }
    }
}

/// Creates a pool for an ordered asset pair at an initial integer price
/// ratio of A in units of B.
///
/// Fails with `SameTokenMint` when the mints coincide and `ZeroAmount`
/// when the initial price is zero.
pub fn initialize_pool(
    mint_a: u64,
    mint_b: u64,
    vault_a: u64,
    vault_b: u64,
    lp_mint: u64,
    pool_authority: u64,
    current_price: u64,
    tick_spacing: i32,
) -> (r: Result<Pool, CLMMError>)
    requires
        tick_spacing >= 1,
    ensures
        r is Ok <==> mint_a != mint_b && current_price > 0,
        r is Err ==> r->Err_0 == (if mint_a == mint_b {
            CLMMError::SameTokenMint
        } else {
            CLMMError::ZeroAmount
        }),
        r is Ok ==> {
            let p = r->Ok_0;
            &&& p.wf()
            &&& p.mint_a == mint_a
            &&& p.mint_b == mint_b
            &&& p.vault_a == vault_a
            &&& p.vault_b == vault_b
            &&& p.lp_mint == lp_mint
            &&& p.pool_authority == pool_authority
            &&& p.tick_spacing == tick_spacing
            &&& p.total_lp_issued == 0
            &&& p.active_liquidity == 0
            &&& p.sqrt_price_x64 * p.sqrt_price_x64 <= current_price * pow2_128()
            &&& current_price * pow2_128() < (p.sqrt_price_x64 + 1) * (p.sqrt_price_x64 + 1)
        },
{
    if mint_a == mint_b {
        return Err(CLMMError::SameTokenMint);
    }
    let s: u128 = match price_to_sqrt_price_x64(current_price) {
        Ok(v) => v,
        Err(e) => {
            return Err(e);
        },
    };
    proof {
        let ss: int = s as int;
        let cp: int = current_price as int;
        assert(pow2_64() <= ss && ss <= crate::tick_math::price_cap()) by (nonlinear_arith)
            requires
                ss * ss <= cp * pow2_128(),
                cp * pow2_128() < (ss + 1) * (ss + 1),
                1 <= cp < pow2_64(),
                ss >= 0,
                pow2_128() == pow2_64() * pow2_64(),
                crate::tick_math::price_cap() == pow2_64() * 0x1000_0000_0000,
        ;
        lemma_bracket_exists_upward(0, s as int);
    }
    let tick: i32 = match sqrt_price_x64_to_tick(s) {
        Ok(t) => t,
        Err(_) => {
            return Err(CLMMError::ZeroAmount);
        },
    };
    Ok(
        Pool {
            mint_a,
            mint_b,
            vault_a,
            vault_b,
            lp_mint,
            pool_authority,
            sqrt_price_x64: s,
            active_liquidity: 0,
            total_lp_issued: 0,
            current_tick: tick,
            tick_spacing,
        },
    )
}

/// Opens a liquidity range: computes the liquidity the offered amounts
/// buy, the exact asset quantities owed, records the boundary deltas, and
/// mints liquidity shares.  The caller transfers `amount_a`/`amount_b` in
/// and mints `lp_minted` shares only after this returns `Ok`.
///
/// Both boundary tick records must already exist (see
/// `TickRegistry::touch_tick`).  On any failure the pool and the registry
/// are left exactly as they were.
pub fn add_liquidity(
    pool: &mut Pool,
    reg: &mut TickRegistry,
    tick_lower: i32,
    tick_upper: i32,
    max_a: u64,
    max_b: u64,
    min_a: Option<u64>,
    min_b: Option<u64>,
    vault_a_balance: u64,
    vault_b_balance: u64,
) -> (r: Result<(u128, u64, u64, u64), CLMMError>)
    requires
        old(pool).wf(),
        old(reg).wf(),
    ensures
        final(pool).wf(),
        final(reg).wf(),
        ({
            let spec_r = add_liquidity_spec(
                *old(pool),
                *old(reg),
                tick_lower as int,
                tick_upper as int,
                max_a as int,
                max_b as int,
                min_a,
                min_b,
                vault_a_balance as int,
                vault_b_balance as int,
            );
            &&& r is Ok <==> spec_r is Ok
            &&& (r is Err ==> r->Err_0 == spec_r->Err_0 && *final(pool) == *old(pool)
                && *final(reg) == *old(reg))
            &&& (r is Ok ==> {
                let o = spec_r->Ok_0;
                &&& r->Ok_0.0 == o.liquidity
                &&& r->Ok_0.1 == o.amount_a
                &&& r->Ok_0.2 == o.amount_b
                &&& r->Ok_0.3 == o.lp_minted
                &&& final(pool).total_lp_issued == o.total_after
                &&& final(pool).active_liquidity == o.active_after
                &&& final(pool).sqrt_price_x64 == old(pool).sqrt_price_x64
                &&& final(pool).current_tick == old(pool).current_tick
                &&& final(pool).mint_a == old(pool).mint_a
                &&& final(pool).mint_b == old(pool).mint_b
                &&& final(pool).tick_spacing == old(pool).tick_spacing
                &&& (final(reg).spec_find(tick_lower as int) matches Some(lt)
                    && lt.liquidity_net == o.net_lower_after)
                &&& (final(reg).spec_find(tick_upper as int) matches Some(ut)
                    && ut.liquidity_net == o.net_upper_after)
                &&& (forall|idx: int|
                    idx != tick_lower as int && idx != tick_upper as int
                        ==> final(reg).spec_find(idx) == old(reg).spec_find(idx))
            })
        }),
{
    if tick_lower >= tick_upper {
        return Err(CLMMError::TickMismatch);
    }
    let spacing: i32 = pool.tick_spacing;
    if !aligned_exec(tick_lower, spacing) || !aligned_exec(tick_upper, spacing) {
        return Err(CLMMError::UnalignedTick);
    }
    let pl: u128 = match tick_to_sqrt_price_x64(tick_lower) {
        Ok(v) => v,
        Err(_) => {
            return Err(CLMMError::ArithmeticOverflow);
        },
    };
    let pu: u128 = match tick_to_sqrt_price_x64(tick_upper) {
        Ok(v) => v,
        Err(_) => {
            return Err(CLMMError::ArithmeticOverflow);
        },
    };
    proof {
        lemma_tick_sqrt_price_pos(tick_lower as int);
        lemma_tick_sqrt_price_mono(tick_lower as int, tick_upper as int);
    }
    let liq: u128 = match liquidity_for_amounts(pool.sqrt_price_x64, pl, pu, max_a, max_b) {
        Ok(v) => v,
        Err(e) => {
            return Err(e);
        },
    };
    if liq == 0 {
        return Err(CLMMError::ZeroAmount);
    }
    let (a, b) = match calculate_liquidity_amounts(pool.sqrt_price_x64, pl, pu, liq) {
        Ok(v) => v,
        Err(e) => {
            return Err(e);
        },
    };
    match min_a {
        Some(m) => {
            if a < m {
                return Err(CLMMError::SlippageExceeded);
            }
        },
        None => {},
    }
    match min_b {
        Some(m) => {
            if b < m {
                return Err(CLMMError::SlippageExceeded);
            }
        },
        None => {},
    }
    if pool.total_lp_issued > 0 && vault_a_balance == 0 && vault_b_balance == 0 {
        return Err(CLMMError::PoolEmpty);
    }
    let mint: u64 = match lp_mint_exec(pool.total_lp_issued, vault_a_balance, vault_b_balance, a, b)
    {
        Some(v) => v,
        None => {
            return Err(CLMMError::ArithmeticOverflow);
        },
    };
    if pool.total_lp_issued > u64::MAX - mint {
        return Err(CLMMError::ArithmeticOverflow);
    }
    if liq > i128::MAX as u128 {
        return Err(CLMMError::ArithmeticOverflow);
    }
    let lt = match reg.get_tick(tick_lower) {
        Some(t) => t,
        None => {
            return Err(CLMMError::InvalidTickIndex);
        },
    };
    let ut = match reg.get_tick(tick_upper) {
        Some(t) => t,
        None => {
            return Err(CLMMError::InvalidTickIndex);
        },
    };
    if lt.liquidity_net > i128::MAX - (liq as i128) || ut.liquidity_net < i128::MIN + (
    liq as i128) {
        return Err(CLMMError::ArithmeticOverflow);
    }
    let in_range_now: bool = tick_lower <= pool.current_tick && pool.current_tick <= tick_upper;
    if in_range_now && pool.active_liquidity > u128::MAX - liq {
        return Err(CLMMError::ArithmeticOverflow);
    }
    match reg.apply_range_delta(tick_lower, tick_upper, liq as i128) {
        Ok(()) => {},
        Err(e) => {
            return Err(e);
        },
    }
    pool.total_lp_issued = pool.total_lp_issued + mint;
    if in_range_now {
        pool.active_liquidity = pool.active_liquidity + liq;
    }
    Ok((liq, a, b, mint))
}

/// Everything `withdraw_liquidity` returns and changes on success.
pub struct WithdrawOutcome {
    pub amount_a: int,
    pub amount_b: int,
    pub lp_burned: int,
    pub total_after: int,
    pub active_after: int,
    pub net_lower_after: int,
    pub net_upper_after: int,
}

/// The shares burned for a withdrawal: the greater of the two assets'
/// proportional claims on the vault balances, or the single nonempty
/// side's claim.
pub open spec fn lp_burn_spec(total: int, bal_a: int, bal_b: int, a: int, b: int) -> int {
    if bal_a > 0 && bal_b > 0 {
        max2(share_from(a, total, bal_a), share_from(b, total, bal_b))
    } else if bal_a > 0 {
        share_from(a, total, bal_a)
    } else {
        share_from(b, total, bal_b)
    }
}

/// The exact outcome of `withdraw_liquidity`, validation order included.
pub open spec fn withdraw_liquidity_spec(
    pool: Pool,
    reg: TickRegistry,
    tick_lower: int,
    tick_upper: int,
    liquidity_to_remove: int,
    vault_a_balance: int,
    vault_b_balance: int,
    caller_lp_balance: int,
) -> Result<WithdrawOutcome, CLMMError> {
    if tick_lower >= tick_upper {
        Err(CLMMError::TickMismatch)
    } else if liquidity_to_remove == 0 {
        Err(CLMMError::ZeroAmount)
    } else if pool.total_lp_issued == 0 {
        Err(CLMMError::PoolEmpty)
    } else if !tick_aligned(tick_lower, pool.tick_spacing as int) || !tick_aligned(
        tick_upper,
        pool.tick_spacing as int,
    ) {
        Err(CLMMError::UnalignedTick)
    } else if !tick_in_range(tick_lower) || !tick_in_range(tick_upper) {
        Err(CLMMError::ArithmeticOverflow)
    } else {
        let c = pool.sqrt_price_x64 as int;
        let pl = tick_sqrt_price(tick_lower);
        let pu = tick_sqrt_price(tick_upper);
        let (a, b) = amounts_for_liquidity_spec(c, pl, pu, liquidity_to_remove);
        if a > u64::MAX || b > u64::MAX {
            Err(CLMMError::ArithmeticOverflow)
        } else if vault_a_balance == 0 && vault_b_balance == 0 {
            Err(CLMMError::PoolEmpty)
        } else {
            let total = pool.total_lp_issued as int;
            let burn = lp_burn_spec(total, vault_a_balance, vault_b_balance, a, b);
            if burn > u64::MAX {
                Err(CLMMError::ArithmeticOverflow)
            } else if caller_lp_balance < burn {
                Err(CLMMError::InsufficientLPTokens)
            } else if liquidity_to_remove > i128::MAX {
                Err(CLMMError::ArithmeticOverflow)
            } else {
                match (reg.spec_find(tick_lower), reg.spec_find(tick_upper)) {
                    (Some(lt), Some(ut)) => {
                        if lt.liquidity_net - liquidity_to_remove < i128::MIN || ut.liquidity_net
                            + liquidity_to_remove > i128::MAX {
                            Err(CLMMError::ArithmeticOverflow)
                        } else {
                            let in_range_now = tick_lower <= pool.current_tick as int
                                <= tick_upper;
                            let active = pool.active_liquidity as int;
                            if in_range_now && active < liquidity_to_remove {
                                Err(CLMMError::ArithmeticOverflow)
                            } else if total < burn {
                                Err(CLMMError::ArithmeticOverflow)
                            } else {
                                Ok(
                                    WithdrawOutcome {
                                        amount_a: a,
                                        amount_b: b,
                                        lp_burned: burn,
                                        total_after: total - burn,
                                        active_after: if in_range_now {
                                            active - liquidity_to_remove
                                        } else {
                                            active
                                        },
                                        net_lower_after: lt.liquidity_net - liquidity_to_remove,
                                        net_upper_after: ut.liquidity_net + liquidity_to_remove,
                                    },
                                )
                            }
                        }
                    },
                    _ => Err(CLMMError::InvalidTickIndex),
                }
            }
        }
    }
}

/// Closes (part of) a liquidity range: computes the asset quantities the
/// removed liquidity is worth, reverses the boundary deltas, and burns
/// the corresponding liquidity shares.  The caller pays `amount_a` and
/// `amount_b` out and burns `lp_burned` shares only after this returns
/// `Ok`.
///
/// On any failure the pool and the registry are left exactly as they
/// were.
pub fn withdraw_liquidity(
    pool: &mut Pool,
    reg: &mut TickRegistry,
    tick_lower: i32,
    tick_upper: i32,
    liquidity_to_remove: u128,
    vault_a_balance: u64,
    vault_b_balance: u64,
    caller_lp_balance: u64,
) -> (r: Result<(u64, u64, u64), CLMMError>)
    requires
        old(pool).wf(),
        old(reg).wf(),
    ensures
        final(pool).wf(),
        final(reg).wf(),
        ({
            let spec_r = withdraw_liquidity_spec(
                *old(pool),
                *old(reg),
                tick_lower as int,
                tick_upper as int,
                liquidity_to_remove as int,
                vault_a_balance as int,
                vault_b_balance as int,
                caller_lp_balance as int,
            );
            &&& r is Ok <==> spec_r is Ok
            &&& (r is Err ==> r->Err_0 == spec_r->Err_0 && *final(pool) == *old(pool)
                && *final(reg) == *old(reg))
            &&& (r is Ok ==> {
                let o = spec_r->Ok_0;
                &&& r->Ok_0.0 == o.amount_a
                &&& r->Ok_0.1 == o.amount_b
                &&& r->Ok_0.2 == o.lp_burned
                &&& final(pool).total_lp_issued == o.total_after
                &&& final(pool).active_liquidity == o.active_after
                &&& final(pool).sqrt_price_x64 == old(pool).sqrt_price_x64
                &&& final(pool).current_tick == old(pool).current_tick
                &&& final(pool).mint_a == old(pool).mint_a
                &&& final(pool).mint_b == old(pool).mint_b
                &&& final(pool).tick_spacing == old(pool).tick_spacing
                &&& (final(reg).spec_find(tick_lower as int) matches Some(lt)
                    && lt.liquidity_net == o.net_lower_after)
                &&& (final(reg).spec_find(tick_upper as int) matches Some(ut)
                    && ut.liquidity_net == o.net_upper_after)
                &&& (forall|idx: int|
                    idx != tick_lower as int && idx != tick_upper as int
                        ==> final(reg).spec_find(idx) == old(reg).spec_find(idx))
            })
        }),
{
    if tick_lower >= tick_upper {
        return Err(CLMMError::TickMismatch);
    }
    if liquidity_to_remove == 0 {
        return Err(CLMMError::ZeroAmount);
    }
    if pool.total_lp_issued == 0 {
        return Err(CLMMError::PoolEmpty);
    }
    let spacing: i32 = pool.tick_spacing;
    if !aligned_exec(tick_lower, spacing) || !aligned_exec(tick_upper, spacing) {
        return Err(CLMMError::UnalignedTick);
    }
    let pl: u128 = match tick_to_sqrt_price_x64(tick_lower) {
        Ok(v) => v,
        Err(_) => {
            return Err(CLMMError::ArithmeticOverflow);
        },
    };
    let pu: u128 = match tick_to_sqrt_price_x64(tick_upper) {
        Ok(v) => v,
        Err(_) => {
            return Err(CLMMError::ArithmeticOverflow);
        },
    };
    proof {
        lemma_tick_sqrt_price_pos(tick_lower as int);
        lemma_tick_sqrt_price_mono(tick_lower as int, tick_upper as int);
    }
    let (a, b) = match calculate_liquidity_amounts(
        pool.sqrt_price_x64,
        pl,
        pu,
        liquidity_to_remove,
    ) {
        Ok(v) => v,
        Err(e) => {
            return Err(e);
        },
    };
    if vault_a_balance == 0 && vault_b_balance == 0 {
        return Err(CLMMError::PoolEmpty);
    }
    let burn: u64 = match lp_burn_exec(
        pool.total_lp_issued,
        vault_a_balance,
        vault_b_balance,
        a,
        b,
    ) {
        Some(v) => v,
        None => {
            return Err(CLMMError::ArithmeticOverflow);
        },
    };
    if caller_lp_balance < burn {
        return Err(CLMMError::InsufficientLPTokens);
    }
    if liquidity_to_remove > i128::MAX as u128 {
        return Err(CLMMError::ArithmeticOverflow);
    }
    let lt = match reg.get_tick(tick_lower) {
        Some(t) => t,
        None => {
            return Err(CLMMError::InvalidTickIndex);
        },
    };
    let ut = match reg.get_tick(tick_upper) {
        Some(t) => t,
        None => {
            return Err(CLMMError::InvalidTickIndex);
        },
    };
    if lt.liquidity_net < i128::MIN + (liquidity_to_remove as i128) || ut.liquidity_net
        > i128::MAX - (liquidity_to_remove as i128) {
        return Err(CLMMError::ArithmeticOverflow);
    }
    let in_range_now: bool = tick_lower <= pool.current_tick && pool.current_tick <= tick_upper;
    if in_range_now && pool.active_liquidity < liquidity_to_remove {
        return Err(CLMMError::ArithmeticOverflow);
    }
    if pool.total_lp_issued < burn {
        return Err(CLMMError::ArithmeticOverflow);
    }
    match reg.apply_range_delta(tick_lower, tick_upper, -(liquidity_to_remove as i128)) {
        Ok(()) => {},
        Err(e) => {
            return Err(e);
        },
    }
    pool.total_lp_issued = pool.total_lp_issued - burn;
    if in_range_now {
        pool.active_liquidity = pool.active_liquidity - liquidity_to_remove;
    }
    Ok((a, b, burn))
}

/// The share count burned for a withdrawal, or `None` when it exceeds
/// the 64-bit share unit.
fn lp_burn_exec(total: u64, bal_a: u64, bal_b: u64, a: u64, b: u64) -> (r: Option<u64>)
    requires
        bal_a > 0 || bal_b > 0,
    ensures
        r is Some <==> lp_burn_spec(total as int, bal_a as int, bal_b as int, a as int, b as int)
            <= u64::MAX,
        r is Some ==> r->0 == lp_burn_spec(
            total as int,
            bal_a as int,
            bal_b as int,
            a as int,
            b as int,
        ),
{
    proof {
        assert((a as int) * (total as int) < pow2_128() && (b as int) * (total as int)
            < pow2_128()) by (nonlinear_arith)
            requires
                a < pow2_64(),
                b < pow2_64(),
                total < pow2_64(),
                a >= 0,
                b >= 0,
                total >= 0,
                pow2_128() == pow2_64() * pow2_64(),
        ;
    }
    let burn: u128 = if bal_a > 0 && bal_b > 0 {
        let share_a: u128 = ((a as u128) * (total as u128)) / (bal_a as u128);
        let share_b: u128 = ((b as u128) * (total as u128)) / (bal_b as u128);
        if share_a >= share_b {
            share_a
        } else {
            share_b
        }
    } else if bal_a > 0 {
        ((a as u128) * (total as u128)) / (bal_a as u128)
    } else {
        ((b as u128) * (total as u128)) / (bal_b as u128)
    };
    if burn > u64::MAX as u128 {
        None
    } else {
        Some(burn as u64)
    }
}

/// Whether a tick index sits on the spacing grid.
fn aligned_exec(index: i32, spacing: i32) -> (r: bool)
    requires
        spacing >= 1,
    ensures
        r == tick_aligned(index as int, spacing as int),
{
    let mag: u32 = if index >= 0 {
        index as u32
    } else {
        (-(index as i64)) as u32
    };
    mag % (spacing as u32) == 0
}

/// The share count minted for a contribution, or `None` when it exceeds
/// the 64-bit share unit.
fn lp_mint_exec(total: u64, bal_a: u64, bal_b: u64, a: u64, b: u64) -> (r: Option<u64>)
    ensures
        r is Some <==> lp_mint_spec(total as int, bal_a as int, bal_b as int, a as int, b as int)
            <= u64::MAX,
        r is Some ==> r->0 == lp_mint_spec(
            total as int,
            bal_a as int,
            bal_b as int,
            a as int,
            b as int,
        ),
{
    if total == 0 {
        if a > 0 && b > 0 {
            proof {
                assert((a as int) * (b as int) < pow2_128()) by (nonlinear_arith)
                    requires
                        a < pow2_64(),
                        b < pow2_64(),
                        a >= 0,
                        b >= 0,
                        pow2_128() == pow2_64() * pow2_64(),
                ;
            }
            let prod: U256 = mul_wide(a as u128, b as u128);
            let root: u128 = isqrt_u256(&prod);
            proof {
                lemma_isqrt_is((a as int) * (b as int), root as int);
                assert(root < pow2_64()) by (nonlinear_arith)
                    requires
                        root * root <= (a as int) * (b as int),
                        (a as int) * (b as int) < pow2_64() * pow2_64(),
                        root >= 0,
                ;
            }
            Some(root as u64)
        } else {
            if a >= b {
                Some(a)
            } else {
                Some(b)
            }
        }
    } else {
        proof {
            assert((a as int) * (total as int) < pow2_128() && (b as int) * (total as int)
                < pow2_128()) by (nonlinear_arith)
                requires
                    a < pow2_64(),
                    b < pow2_64(),
                    total < pow2_64(),
                    a >= 0,
                    b >= 0,
                    total >= 0,
                    pow2_128() == pow2_64() * pow2_64(),
            ;
        }
        let share_a: u128 = if bal_a > 0 {
            ((a as u128) * (total as u128)) / (bal_a as u128)
        } else {
            0
        };
        let share_b: u128 = if bal_b > 0 {
            ((b as u128) * (total as u128)) / (bal_b as u128)
        } else {
            0
        };
        let m: u128 = if share_a <= share_b {
            share_a
        } else {
            share_b
        };
        if m > u64::MAX as u128 {
            None
        } else {
            Some(m as u64)
        }
    }
}

} // verus!
