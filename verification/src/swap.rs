//! The swap orchestrator.
//!
//! A swap walks the price curve across the caller-supplied, pre-sorted
//! boundary ticks, calling the stepper once per uncrossed segment,
//! adjusting active liquidity by each crossed boundary's `liquidity_net`,
//! and stopping when the input is exhausted, the boundary list ends, or a
//! boundary lies beyond the caller's price limit.  The pool is committed
//! only after the whole walk and every check has succeeded.

use vstd::prelude::*;
use crate::error::CLMMError;
use crate::pool_ops::{max2, min2};
use crate::state::{find_tick, tick_wf, Pool, Tick, TickRegistry};
use crate::swap_math::{
    compute_swap_step, step_amount_in, step_amount_out, step_fits, step_next_price,
};
use crate::tick_math::{
    lemma_bracket_exists_range, lemma_in_range_between, lemma_reciprocal_gap,
    lemma_sqrt_price_up_mono, lemma_sqrt_price_up_step, lemma_tick_sqrt_price_mono,
    lemma_tick_sqrt_price_pos, sqrt_price_x64_to_tick, tick_in_range, tick_sqrt_price,
};
use crate::wide::{pow2_128, pow2_64};

verus! {

/// The cumulative result of walking the boundary list.
pub struct SwapOutcome {
    /// Whether every quantity stayed within its width.
    pub ok: bool,
    /// The price after the walk.
    pub sqrt_price: int,
    /// The active liquidity after the walk.
    pub liquidity: int,
    /// The input consumed.
    pub amount_in: int,
    /// The output owed.
    pub amount_out: int,
}

/// The price limit a direction defaults to when the caller gives none.
pub open spec fn effective_limit(limit: Option<u128>, a_to_b: bool) -> int {
    match limit {
        Some(l) => l as int,
        None => if a_to_b {
            1
        } else {
            u128::MAX as int
        },
    }
}

/// One representable tick's price strictly grows into the next tick's.
pub proof fn lemma_tick_price_step(t: int)
    requires
        tick_in_range(t),
    ensures
        tick_sqrt_price(t) < tick_sqrt_price(t + 1),
{
    if t >= 0 {
        lemma_sqrt_price_up_step(t as nat);
    } else {
        let n: nat = (-t) as nat;
        lemma_sqrt_price_up_mono((n - 1) as nat, n);
        lemma_reciprocal_gap((n - 1) as nat);
        if t + 1 == 0 {
            vstd::arithmetic::div_mod::lemma_div_multiples_vanish(pow2_64(), pow2_64());
        }
    }
}

/// The exact multi-segment walk: segment by segment from the front of the
/// boundary list, mirroring the orchestrator's loop.
pub open spec fn swap_walk(
    price: int,
    liq: int,
    rem: int,
    in_acc: int,
    out_acc: int,
    bounds: Seq<Tick>,
    a_to_b: bool,
    limit: int,
) -> SwapOutcome
    decreases bounds.len(),
{
    if bounds.len() == 0 || rem == 0 {
        SwapOutcome { ok: true, sqrt_price: price, liquidity: liq, amount_in: in_acc, amount_out: out_acc }
    } else {
        let bd = bounds[0];
        let bp = bd.sqrt_price_x64 as int;
        if (a_to_b && bp < limit) || (!a_to_b && bp > limit) {
            SwapOutcome {
                ok: true,
                sqrt_price: price,
                liquidity: liq,
                amount_in: in_acc,
                amount_out: out_acc,
            }
        } else if (a_to_b && bp >= price) || (!a_to_b && bp <= price) {
            swap_walk(price, liq, rem, in_acc, out_acc, bounds.drop_first(), a_to_b, limit)
        } else if !step_fits(price, bp, liq, rem, a_to_b) {
            SwapOutcome { ok: false, sqrt_price: 0, liquidity: 0, amount_in: 0, amount_out: 0 }
        } else {
            let np = step_next_price(price, bp, liq, rem, a_to_b);
            let ain = step_amount_in(price, bp, liq, rem, a_to_b);
            let aout = step_amount_out(price, bp, liq, rem, a_to_b);
            if out_acc + aout >= pow2_128() {
                SwapOutcome { ok: false, sqrt_price: 0, liquidity: 0, amount_in: 0, amount_out: 0 }
            } else if np == bp {
                let lq = if a_to_b {
                    liq - bd.liquidity_net
                } else {
                    liq + bd.liquidity_net
                };
                if lq < 0 || lq >= pow2_128() {
                    SwapOutcome {
                        ok: false,
                        sqrt_price: 0,
                        liquidity: 0,
                        amount_in: 0,
                        amount_out: 0,
                    }
                } else {
                    swap_walk(
                        np,
                        lq,
                        rem - ain,
                        in_acc + ain,
                        out_acc + aout,
                        bounds.drop_first(),
                        a_to_b,
                        limit,
                    )
                }
            } else {
                swap_walk(
                    np,
                    liq,
                    rem - ain,
                    in_acc + ain,
                    out_acc + aout,
                    bounds.drop_first(),
                    a_to_b,
                    limit,
                )
            }
        }
    }
}

/// The boundary records the index list names, in order; `None` when any
/// is uninitialized.
pub open spec fn resolve_ticks(s: Seq<Tick>, idxs: Seq<i32>) -> Option<Seq<Tick>>
    decreases idxs.len(),
{
    if idxs.len() == 0 {
        Some(Seq::empty())
    } else {
        match resolve_ticks(s, idxs.drop_last()) {
            None => None,
            Some(rest) => match find_tick(s, idxs.last() as int) {
                None => None,
                Some(t) => Some(rest.push(t)),
            },
        }
    }
}

/// An unresolvable prefix leaves the whole list unresolvable.
proof fn lemma_resolve_prefix_none(s: Seq<Tick>, idxs: Seq<i32>, i: int)
    requires
        0 <= i <= idxs.len(),
        resolve_ticks(s, idxs.take(i)) is None,
    ensures
        resolve_ticks(s, idxs) is None,
    decreases idxs.len() - i,
{
    if i == idxs.len() {
        assert(idxs.take(i) =~= idxs);
    } else {
        assert(idxs.take(i + 1).drop_last() =~= idxs.take(i));
        lemma_resolve_prefix_none(s, idxs, i + 1);
    }
}

/// The exact outcome of `swap`, validation order included.
pub open spec fn swap_spec(
    pool: Pool,
    reg: TickRegistry,
    amount_in: int,
    a_to_b: bool,
    sqrt_price_limit_x64: Option<u128>,
    min_amount_out: Option<u64>,
    idxs: Seq<i32>,
) -> Result<SwapOutcome, CLMMError> {
    if amount_in == 0 {
        Err(CLMMError::ZeroAmount)
    } else if idxs.len() == 0 {
        Err(CLMMError::MissingTickAccounts)
    } else {
        match resolve_ticks(reg.ticks@, idxs) {
            None => Err(CLMMError::MissingTickAccounts),
            Some(bounds) => {
                if pool.active_liquidity == 0 {
                    Err(CLMMError::InsufficientFundsInPool)
                } else {
                    let oc = swap_walk(
                        pool.sqrt_price_x64 as int,
                        pool.active_liquidity as int,
                        amount_in,
                        0,
                        0,
                        bounds,
                        a_to_b,
                        effective_limit(sqrt_price_limit_x64, a_to_b),
                    );
                    if !oc.ok {
                        Err(CLMMError::ArithmeticOverflow)
                    } else if oc.amount_out > u64::MAX {
                        Err(CLMMError::AmountTooLarge)
                    } else if min_amount_out is Some && oc.amount_out < min_amount_out->0 {
                        Err(CLMMError::SlippageExceeded)
                    } else if oc.amount_out == 0 {
                        Err(CLMMError::ZeroSwapOutput)
                    } else {
                        Ok(oc)
                    }
                }
            },
        }
    }
}

/// Executes a swap against the pool.
///
/// The boundary tick indices must be supplied pre-sorted in the direction
/// of travel: descending for A-to-B (price falls), ascending for B-to-A
/// (price rises); boundaries already passed are skipped.  The pool's
/// price, tick and active liquidity are committed only when every
/// segment and every check has succeeded; any failure leaves the pool
/// exactly as it was.  The caller moves `amount_in` of the input asset in
/// and `amount_out` of the output asset out only after `Ok`.
#[verifier::loop_isolation(false)]
pub fn swap(
    pool: &mut Pool,
    reg: &TickRegistry,
    amount_in: u64,
    a_to_b: bool,
    sqrt_price_limit_x64: Option<u128>,
    min_amount_out: Option<u64>,
    boundary_ticks: &Vec<i32>,
) -> (r: Result<(u64, u64), CLMMError>)
    requires
        old(pool).wf(),
        reg.wf(),
    ensures
        final(pool).wf(),
        ({
            let spec_r = swap_spec(
                *old(pool),
                *reg,
                amount_in as int,
                a_to_b,
                sqrt_price_limit_x64,
                min_amount_out,
                boundary_ticks@,
            );
            &&& r is Ok <==> spec_r is Ok
            &&& (r is Err ==> r->Err_0 == spec_r->Err_0 && *final(pool) == *old(pool))
            &&& (r is Ok ==> {
                let oc = spec_r->Ok_0;
                &&& r->Ok_0.0 == oc.amount_in
                &&& r->Ok_0.1 == oc.amount_out
                &&& final(pool).sqrt_price_x64 == oc.sqrt_price
                &&& final(pool).active_liquidity == oc.liquidity
                &&& final(pool).total_lp_issued == old(pool).total_lp_issued
                &&& final(pool).mint_a == old(pool).mint_a
                &&& final(pool).mint_b == old(pool).mint_b
                &&& final(pool).tick_spacing == old(pool).tick_spacing
                &&& r->Ok_0.0 <= amount_in
            })
        }),
        r is Ok && a_to_b ==> final(pool).sqrt_price_x64 <= old(pool).sqrt_price_x64
            && final(pool).sqrt_price_x64 >= min2(
            effective_limit(sqrt_price_limit_x64, a_to_b),
            old(pool).sqrt_price_x64 as int,
        ),
        r is Ok && !a_to_b ==> final(pool).sqrt_price_x64 >= old(pool).sqrt_price_x64
            && final(pool).sqrt_price_x64 <= max2(
            effective_limit(sqrt_price_limit_x64, a_to_b),
            old(pool).sqrt_price_x64 as int,
        ),
{
    if amount_in == 0 {
        return Err(CLMMError::ZeroAmount);
    }
    let n: usize = boundary_ticks.len();
    if n == 0 {
        return Err(CLMMError::MissingTickAccounts);
    }
    // Resolve every boundary record up front, as the walk will read them.
    let mut bounds: Vec<Tick> = Vec::new();
    let mut i: usize = 0;
    while i < n
        invariant
            0 <= i <= n,
            n == boundary_ticks@.len(),
            reg.wf(),
            resolve_ticks(reg.ticks@, boundary_ticks@.take(i as int)) == Some(bounds@),
            bounds@.len() == i,
            forall|j: int| 0 <= j < i ==> tick_wf(#[trigger] bounds@[j]),
        decreases n - i,
    {
        proof {
            assert(boundary_ticks@.take(i + 1).drop_last() =~= boundary_ticks@.take(i as int));
            assert(boundary_ticks@.take(i + 1).last() == boundary_ticks@[i as int]);
        }
        match reg.get_tick(boundary_ticks[i]) {
            Some(t) => {
                proof {
                    reg.lemma_found_tick_wf(boundary_ticks@[i as int] as int);
                }
                bounds.push(t);
            },
            None => {
                proof {
                    lemma_resolve_prefix_none(reg.ticks@, boundary_ticks@, i + 1);
                }
                return Err(CLMMError::MissingTickAccounts);
            },
        }
        i = i + 1;
    }
    proof {
        assert(boundary_ticks@.take(n as int) =~= boundary_ticks@);
    }
    if pool.active_liquidity == 0 {
        return Err(CLMMError::InsufficientFundsInPool);
    }
    let limit: u128 = match sqrt_price_limit_x64 {
        Some(l) => l,
        None => if a_to_b {
            1
        } else {
            u128::MAX
        },
    };
    let ghost p0: int = pool.sqrt_price_x64 as int;
    let ghost l0: int = pool.active_liquidity as int;
    let mut price: u128 = pool.sqrt_price_x64;
    let mut liq: u128 = pool.active_liquidity;
    let mut rem: u128 = amount_in as u128;
    let mut tin: u128 = 0;
    let mut tout: u128 = 0;
    let ghost mut lo_t: int = pool.current_tick as int;
    let ghost mut hi_t: int = pool.current_tick as int;
    let mut i: usize = 0;
    let mut stopped: bool = false;
    proof {
        assert(bounds@.skip(0) =~= bounds@);
    }
    while i < n && !stopped && rem > 0
        invariant
            0 <= i <= n,
            n == bounds@.len(),
            forall|j: int| 0 <= j < n ==> tick_wf(#[trigger] bounds@[j]),
            swap_walk(p0, l0, amount_in as int, 0, 0, bounds@, a_to_b, limit as int) == swap_walk(
                price as int,
                liq as int,
                rem as int,
                tin as int,
                tout as int,
                bounds@.skip(i as int),
                a_to_b,
                limit as int,
            ),
            tin + rem == amount_in,
            1 <= price <= crate::tick_math::MAX_SQRT_PRICE_X64,
            tick_in_range(lo_t),
            tick_in_range(hi_t),
            lo_t <= hi_t,
            tick_sqrt_price(lo_t) <= price,
            price < tick_sqrt_price(hi_t + 1),
            a_to_b ==> price <= p0 && price >= min2(limit as int, p0),
            !a_to_b ==> price >= p0 && price <= max2(limit as int, p0),
            stopped ==> swap_walk(
                price as int,
                liq as int,
                rem as int,
                tin as int,
                tout as int,
                bounds@.skip(i as int),
                a_to_b,
                limit as int,
            ) == (SwapOutcome {
                ok: true,
                sqrt_price: price as int,
                liquidity: liq as int,
                amount_in: tin as int,
                amount_out: tout as int,
            }),
        decreases n - i + (if stopped { 0int } else { 1int }),
    {
        let bd: Tick = bounds[i];
        let bp: u128 = bd.sqrt_price_x64;
        proof {
            assert(bounds@.skip(i as int)[0] == bounds@[i as int]);
            assert(bounds@.skip(i as int).drop_first() =~= bounds@.skip(i as int + 1));
        }
        if (a_to_b && bp < limit) || (!a_to_b && bp > limit) {
            stopped = true;
        } else if (a_to_b && bp >= price) || (!a_to_b && bp <= price) {
            i = i + 1;
        } else {
            let (np, ain, aout) = match compute_swap_step(price, bp, liq, rem, a_to_b) {
                Ok(v) => v,
                Err(_) => {
                    return Err(CLMMError::ArithmeticOverflow);
                },
            };
            if tout > u128::MAX - aout {
                return Err(CLMMError::ArithmeticOverflow);
            }
            tin = tin + ain;
            tout = tout + aout;
            rem = rem - ain;
            proof {
                lemma_tick_price_step(bd.index as int);
                lemma_tick_sqrt_price_pos(bd.index as int);
                if a_to_b {
                    if bd.index > hi_t {
                        lemma_in_range_between(hi_t, bd.index as int, hi_t + 1);
                        if hi_t + 1 < bd.index {
                            lemma_tick_sqrt_price_mono(hi_t + 1, bd.index as int);
                        }
                        assert(false);
                    }
                } else {
                    if bd.index < lo_t {
                        lemma_tick_sqrt_price_mono(bd.index as int, lo_t);
                        assert(false);
                    }
                }
            }
            if np == bp {
                // The boundary was reached exactly: cross it, applying its
                // signed net liquidity in the direction of travel.
                let net: i128 = bd.liquidity_net;
                let mag: u128 = if net >= 0 {
                    net as u128
                } else {
                    ((-(net + 1)) as u128) + 1
                };
                let newliq: u128;
                if (a_to_b && net >= 0) || (!a_to_b && net < 0) {
                    if liq < mag {
                        return Err(CLMMError::ArithmeticOverflow);
                    }
                    newliq = liq - mag;
                } else {
                    if liq > u128::MAX - mag {
                        return Err(CLMMError::ArithmeticOverflow);
                    }
                    newliq = liq + mag;
                }
                liq = newliq;
                proof {
                    if a_to_b {
                        lo_t = bd.index as int;
                    } else {
                        hi_t = bd.index as int;
                    }
                }
            } else {
                proof {
                    if a_to_b {
                        lo_t = bd.index as int;
                    } else {
                        hi_t = bd.index as int;
                    }
                }
            }
            price = np;
            i = i + 1;
        }
    }
    // The walk is complete; the outcome equals the loop's final state.
    proof {
        if !stopped {
            assert(bounds@.skip(i as int).len() == 0 || rem == 0);
        }
    }
    if tout > u64::MAX as u128 {
        return Err(CLMMError::AmountTooLarge);
    }
    match min_amount_out {
        Some(m) => {
            if tout < m as u128 {
                return Err(CLMMError::SlippageExceeded);
            }
        },
        None => {},
    }
    if tout == 0 {
        return Err(CLMMError::ZeroSwapOutput);
    }
    proof {
        lemma_bracket_exists_range(lo_t, hi_t, price as int);
    }
    let new_tick: i32 = match sqrt_price_x64_to_tick(price) {
        Ok(t) => t,
        Err(_) => {
            return Err(CLMMError::ArithmeticOverflow);
        },
    };
    pool.sqrt_price_x64 = price;
    pool.current_tick = new_tick;
    pool.active_liquidity = liq;
    Ok((tin as u64, tout as u64))
}

} // verus!
