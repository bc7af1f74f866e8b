//! The swap stepper.
//!
//! For one uncrossed segment of the price curve it computes the exact
//! input needed to reach the target price, the intermediate price when
//! the remaining input falls short, and the output owed for the price
//! distance actually traversed.  It knows nothing of multi-segment
//! iteration.

use vstd::prelude::*;
use vstd::arithmetic::div_mod::*;
use crate::error::CLMMError;
use crate::liquidity_math::{amount_a_exec, amount_a_spec, amount_b_exec, amount_b_spec,
    amounts_for_liquidity_spec};
use crate::wide::{
    div_384_by_256, mul_shr64, mul_wide, pow2_128, pow2_64, u256_add, u256_shl64_u128,
    u384_shl64_u256, u384_val, Q64, U256, U384,
};

verus! {

/// The exact input that moves the price all the way from `cur` to `tgt`.
pub open spec fn step_full_in(cur: int, tgt: int, liq: int, a_to_b: bool) -> int {
    if a_to_b {
        amount_a_spec(tgt, cur, liq)
    } else {
        amount_b_spec(cur, tgt, liq)
    }
}

/// The price the segment ends at: the target on a full fill, else the
/// exact price reachable with the remaining input.
pub open spec fn step_next_price(cur: int, tgt: int, liq: int, rem: int, a_to_b: bool) -> int {
    if rem >= step_full_in(cur, tgt, liq, a_to_b) {
        tgt
    } else if a_to_b {
        liq * cur * pow2_64() / (liq * pow2_64() + rem * cur)
    } else {
        cur + rem * pow2_64() / liq
    }
}

/// The input actually consumed by the segment.
pub open spec fn step_amount_in(cur: int, tgt: int, liq: int, rem: int, a_to_b: bool) -> int {
    let full = step_full_in(cur, tgt, liq, a_to_b);
    if rem >= full {
        full
    } else {
        rem
    }
}

/// The output owed for the price distance actually traversed.
pub open spec fn step_amount_out(cur: int, tgt: int, liq: int, rem: int, a_to_b: bool) -> int {
    let np = step_next_price(cur, tgt, liq, rem, a_to_b);
    if a_to_b {
        amount_b_spec(np, cur, liq)
    } else {
        amount_a_spec(cur, np, liq)
    }
}

/// Whether every quantity of the step stays within 128 bits.
pub open spec fn step_fits(cur: int, tgt: int, liq: int, rem: int, a_to_b: bool) -> bool {
    step_full_in(cur, tgt, liq, a_to_b) < pow2_128() && step_amount_out(cur, tgt, liq, rem, a_to_b)
        < pow2_128()
}

/// Computes one swap segment: the price reached, the input consumed and
/// the output owed, exactly as the spec functions state them.
///
/// Fails with `ArithmeticOverflow` exactly when a quantity of the step
/// exceeds 128 bits.
pub fn compute_swap_step(
    sqrt_price_current_x64: u128,
    sqrt_price_target_x64: u128,
    liquidity: u128,
    amount_remaining: u128,
    a_to_b: bool,
) -> (r: Result<(u128, u128, u128), CLMMError>)
    requires
        1 <= sqrt_price_current_x64,
        1 <= sqrt_price_target_x64,
        amount_remaining < pow2_64(),
        a_to_b ==> sqrt_price_target_x64 <= sqrt_price_current_x64,
        !a_to_b ==> sqrt_price_current_x64 <= sqrt_price_target_x64,
    ensures
        r is Ok <==> step_fits(
            sqrt_price_current_x64 as int,
            sqrt_price_target_x64 as int,
            liquidity as int,
            amount_remaining as int,
            a_to_b,
        ),
        r is Ok ==> {
            let cur = sqrt_price_current_x64 as int;
            let tgt = sqrt_price_target_x64 as int;
            let liq = liquidity as int;
            let rem = amount_remaining as int;
            r->Ok_0.0 == step_next_price(cur, tgt, liq, rem, a_to_b) && r->Ok_0.1
                == step_amount_in(cur, tgt, liq, rem, a_to_b) && r->Ok_0.2 == step_amount_out(
                cur,
                tgt,
                liq,
                rem,
                a_to_b,
            )
        },
        r is Ok && a_to_b ==> sqrt_price_target_x64 <= r->Ok_0.0 <= sqrt_price_current_x64,
        r is Ok && !a_to_b ==> sqrt_price_current_x64 <= r->Ok_0.0 <= sqrt_price_target_x64,
        r is Err ==> r->Err_0 == CLMMError::ArithmeticOverflow,
{
    let c: u128 = sqrt_price_current_x64;
    let t: u128 = sqrt_price_target_x64;
    let liq: u128 = liquidity;
    let rem: u128 = amount_remaining;
    if a_to_b {
        let required = match amount_a_exec(t, c, liq) {
            Some(v) => v,
            None => {
                return Err(CLMMError::ArithmeticOverflow);
            },
        };
        let next: u128;
        let ain: u128;
        if rem >= required {
            next = t;
            ain = required;
        } else {
            proof {
                // A short fill needs a positive requirement, hence
                // positive liquidity.
                if liq == 0 {
                    assert(liq * (c - t) * pow2_64() == 0) by (nonlinear_arith)
                        requires
                            liq == 0,
                    ;
                    assert(c * t >= 1) by (nonlinear_arith)
                        requires
                            c >= 1,
                            t >= 1,
                    ;
                    lemma_div_of0(c * t);
                    assert(false);
                }
            }
            let num: U384 = u384_shl64_u256(mul_wide(liq, c));
            let s1: U256 = u256_shl64_u128(liq);
            let s2: U256 = mul_wide(rem, c);
            proof {
                assert(liq * pow2_64() + rem * c < pow2_128() * pow2_128()) by (nonlinear_arith)
                    requires
                        0 <= liq < pow2_128(),
                        0 <= rem < pow2_64(),
                        0 <= c < pow2_128(),
                        pow2_128() == pow2_64() * pow2_64(),
                ;
            }
            let den: U256 = u256_add(&s1, &s2).unwrap();
            let ghost dv: int = liq * pow2_64() + rem * c;
            proof {
                let cc: int = c as int;
                let ll: int = liq as int;
                let rr: int = rem as int;
                let qq: int = pow2_64();
                assert(u384_val(num) == (ll * qq) * cc && dv >= ll * qq && dv >= 1)
                    by (nonlinear_arith)
                    requires
                        u384_val(num) == (ll * cc) * qq,
                        dv == ll * qq + rr * cc,
                        ll >= 1,
                        qq >= 1,
                        rr >= 0,
                        cc >= 1,
                ;
                assert(u384_val(num) <= cc * dv) by (nonlinear_arith)
                    requires
                        u384_val(num) == (ll * qq) * cc,
                        dv >= ll * qq,
                        cc >= 1,
                        ll * qq >= 1,
                ;
                lemma_div_multiples_vanish(cc, dv);
                lemma_div_is_ordered(u384_val(num), cc * dv, dv);
                // The remaining input is short of a full crossing, so the
                // reachable price still sits at or above the target.
                assert(cc * t >= 1) by (nonlinear_arith)
                    requires
                        cc >= 1,
                        t >= 1,
                ;
                lemma_fundamental_div_mod(ll * (cc - t) * qq, cc * t);
                lemma_mod_bound(ll * (cc - t) * qq, cc * t);
                assert(rr * (cc * t) < ll * (cc - t) * qq) by (nonlinear_arith)
                    requires
                        ll * (cc - t) * qq == (cc * t) * required + (ll * (cc - t) * qq) % (cc * t),
                        0 <= (ll * (cc - t) * qq) % (cc * t) < cc * t,
                        rr < required,
                        rr >= 0,
                        cc * t >= 1,
                ;
                assert(u384_val(num) >= t * dv) by (nonlinear_arith)
                    requires
                        u384_val(num) == (ll * qq) * cc,
                        dv == ll * qq + rr * cc,
                        rr * (cc * t) < ll * (cc - t) * qq,
                        t >= 1,
                        cc >= t,
                        ll >= 1,
                        qq >= 1,
                ;
                lemma_div_ge(u384_val(num), t as int, dv);
            }
            next = div_384_by_256(&num, &den).unwrap();
            ain = rem;
        }
        let out = match mul_shr64(liq, c - next) {
            Some(v) => v,
            None => {
                return Err(CLMMError::ArithmeticOverflow);
            },
        };
        Ok((next, ain, out))
    } else {
        let required = match amount_b_exec(c, t, liq) {
            Some(v) => v,
            None => {
                return Err(CLMMError::ArithmeticOverflow);
            },
        };
        let next: u128;
        let ain: u128;
        if rem >= required {
            next = t;
            ain = required;
        } else {
            proof {
                if liq == 0 {
                    assert(liq * (t - c) == 0) by (nonlinear_arith)
                        requires
                            liq == 0,
                    ;
                    lemma_div_of0(pow2_64());
                    assert(false);
                }
                let qq: int = pow2_64();
                assert(rem * qq < pow2_128()) by (nonlinear_arith)
                    requires
                        0 <= rem < qq,
                        pow2_128() == qq * qq,
                ;
                lemma_fundamental_div_mod(liq * (t - c), qq);
                assert((rem + 1) * qq <= liq * (t - c)) by (nonlinear_arith)
                    requires
                        liq * (t - c) == qq * required + (liq * (t - c)) % qq,
                        0 <= (liq * (t - c)) % qq,
                        rem < required,
                        rem >= 0,
                        qq >= 1,
                ;
                lemma_div_lt(rem * qq, t - c, liq as int);
            }
            let q: u128 = (rem * Q64) / liq;
            next = c + q;
            ain = rem;
        }
        let out = match amount_a_exec(c, next, liq) {
            Some(v) => v,
            None => {
                return Err(CLMMError::ArithmeticOverflow);
            },
        };
        Ok((next, ain, out))
    }
}

/// `floor(x / q) < c` follows from `x < c * q`.
proof fn lemma_div_lt(x: int, c: int, q: int)
    requires
        q > 0,
        0 <= x,
        x < c * q,
    ensures
        x / q < c,
{
    lemma_fundamental_div_mod(x, q);
    assert(x / q < c) by (nonlinear_arith)
        requires
            q > 0,
            q * (x / q) <= x,
            x < c * q,
    ;
}

/// `floor(x / q) >= c` follows from `x >= c * q`.
proof fn lemma_div_ge(x: int, c: int, q: int)
    requires
        q > 0,
        x >= c * q,
    ensures
        x / q >= c,
{
    lemma_div_multiples_vanish(c, q);
    lemma_div_is_ordered(c * q, x, q);
}

/// Conservation of value at a step boundary: for a fully crossed segment
/// the stepper's consumed input equals the range's asset requirement
/// evaluated at the price it reached, and its paid output equals the
/// complementary asset the range releases, both exactly.
pub proof fn lemma_step_conserves_range_amounts(
    cur: int,
    tgt: int,
    liq: int,
    rem: int,
    a_to_b: bool,
)
    requires
        a_to_b ==> tgt <= cur,
        !a_to_b ==> cur <= tgt,
        rem >= step_full_in(cur, tgt, liq, a_to_b),
    ensures
        a_to_b ==> step_amount_in(cur, tgt, liq, rem, true) == amounts_for_liquidity_spec(
            tgt,
            tgt,
            cur,
            liq,
        ).0 && step_amount_out(cur, tgt, liq, rem, true) == amounts_for_liquidity_spec(
            cur,
            tgt,
            cur,
            liq,
        ).1,
        !a_to_b ==> step_amount_in(cur, tgt, liq, rem, false) == amounts_for_liquidity_spec(
            tgt,
            cur,
            tgt,
            liq,
        ).1 && step_amount_out(cur, tgt, liq, rem, false) == amounts_for_liquidity_spec(
            cur,
            cur,
            tgt,
            liq,
        ).0,
{
    if cur == tgt {
        assert(liq * (cur - tgt) == 0) by (nonlinear_arith)
            requires
                cur == tgt,
        ;
        assert(liq * (cur - tgt) * pow2_64() == 0) by (nonlinear_arith)
            requires
                liq * (cur - tgt) == 0,
        ;
        lemma_div_of0(pow2_64());
        if cur * tgt != 0 {
            lemma_div_of0(cur * tgt);
        }
    }
}

} // verus!
