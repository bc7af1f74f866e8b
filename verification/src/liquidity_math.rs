//! Range liquidity math.
//!
//! Given a liquidity magnitude and a price range, these functions compute
//! the asset quantities needed or returned, and inversely the liquidity
//! magnitude obtainable from given maximum asset quantities.  All
//! formulas are evaluated exactly over full-width intermediates and fail
//! with `ArithmeticOverflow` instead of wrapping.

use vstd::prelude::*;
use vstd::arithmetic::div_mod::*;
use crate::error::CLMMError;
use crate::wide::{
    div_384_by_256, lemma_u256_hi_bound, mul_shr64, mul_wide, pow2_128, pow2_64, u256_shl64_u128,
    u256_val, u384_shl64_u256, u384_mul_u256_u128, u384_val, Q64, U256, U384,
};

verus! {

/// Asset A owed for liquidity `liq` across the price range `[lo, hi]`:
/// `liq * (hi - lo) * 2^64 / (hi * lo)`, rounded down.
pub open spec fn amount_a_spec(lo: int, hi: int, liq: int) -> int {
    liq * (hi - lo) * pow2_64() / (hi * lo)
}

/// Asset B owed for liquidity `liq` across the price range `[lo, hi]`:
/// `liq * (hi - lo) / 2^64`, rounded down.
pub open spec fn amount_b_spec(lo: int, hi: int, liq: int) -> int {
    liq * (hi - lo) / pow2_64()
}

/// The two asset quantities behind a liquidity magnitude, split at the
/// current price: entirely asset A above the range, entirely asset B
/// below it, both inside it.
pub open spec fn amounts_for_liquidity_spec(cur: int, lo: int, hi: int, liq: int) -> (int, int) {
    if cur <= lo {
        (amount_a_spec(lo, hi, liq), 0)
    } else if cur >= hi {
        (0, amount_b_spec(lo, hi, liq))
    } else {
        (amount_a_spec(cur, hi, liq), amount_b_spec(lo, cur, liq))
    }
}

/// The liquidity magnitude purchasable with `a` units of asset A over
/// `[lo, hi]`: `a * hi * lo / ((hi - lo) * 2^64)`, rounded down.
pub open spec fn liquidity_from_a_spec(a: int, lo: int, hi: int) -> int {
    a * hi * lo / ((hi - lo) * pow2_64())
}

/// The liquidity magnitude purchasable with `b` units of asset B over
/// `[lo, hi]`: `b * 2^64 / (hi - lo)`, rounded down.
pub open spec fn liquidity_from_b_spec(b: int, lo: int, hi: int) -> int {
    b * pow2_64() / (hi - lo)
}

/// The liquidity obtainable from at most `a` of asset A and `b` of asset
/// B, taking the lesser implied magnitude when both assets are needed.
pub open spec fn liquidity_for_amounts_spec(cur: int, lo: int, hi: int, a: int, b: int) -> int {
    if cur <= lo {
        liquidity_from_a_spec(a, lo, hi)
    } else if cur >= hi {
        liquidity_from_b_spec(b, lo, hi)
    } else {
        let la = liquidity_from_a_spec(a, cur, hi);
        let lb = liquidity_from_b_spec(b, lo, cur);
        if la <= lb {
            la
        } else {
            lb
        }
    }
}

/// Asset A owed never exceeds the quantity the liquidity was bought with.
proof fn lemma_amount_a_le(a: int, lo: int, hi: int, liq: int)
    requires
        1 <= lo < hi,
        0 <= a,
        0 <= liq <= liquidity_from_a_spec(a, lo, hi),
    ensures
        amount_a_spec(lo, hi, liq) <= a,
{
    let q: int = pow2_64();
    let d: int = (hi - lo) * q;
    let n: int = a * hi * lo;
    assert(d >= 1 && hi * lo >= 1 && n >= 0) by (nonlinear_arith)
        requires
            1 <= lo < hi,
            0 <= a,
            q >= 1,
            d == (hi - lo) * q,
            n == a * hi * lo,
    ;
    lemma_fundamental_div_mod(n, d);
    assert((n / d) * d <= n) by (nonlinear_arith)
        requires
            n == d * (n / d) + n % d,
            n % d >= 0,
    ;
    assert(liq * ((hi - lo) * q) <= (n / d) * d) by (nonlinear_arith)
        requires
            liq <= n / d,
            d >= 1,
            d == (hi - lo) * q,
    ;
    assert(liq * (hi - lo) * q <= a * (hi * lo)) by (nonlinear_arith)
        requires
            liq * ((hi - lo) * q) <= n,
            n == a * hi * lo,
    ;
    lemma_div_is_ordered(liq * (hi - lo) * q, a * (hi * lo), hi * lo);
    lemma_div_multiples_vanish(a, hi * lo);
}

/// Asset B owed never exceeds the quantity the liquidity was bought with.
proof fn lemma_amount_b_le(b: int, lo: int, hi: int, liq: int)
    requires
        lo < hi,
        0 <= b,
        0 <= liq <= liquidity_from_b_spec(b, lo, hi),
    ensures
        amount_b_spec(lo, hi, liq) <= b,
{
    let q: int = pow2_64();
    let d: int = hi - lo;
    let n: int = b * q;
    lemma_fundamental_div_mod(n, d);
    assert((n / d) * d <= n) by (nonlinear_arith)
        requires
            n == d * (n / d) + n % d,
            n % d >= 0,
    ;
    assert(liq * (hi - lo) <= b * q) by (nonlinear_arith)
        requires
            liq <= n / d,
            d >= 1,
            d == hi - lo,
            (n / d) * d <= n,
            n == b * q,
    ;
    lemma_div_is_ordered(liq * (hi - lo), b * q, q);
    lemma_div_multiples_vanish(b, q);
}

/// Neither asset is over-spent: the quantities owed for the liquidity
/// obtainable from given maximum amounts never exceed those maximums.
pub proof fn lemma_liquidity_never_overspends(cur: int, lo: int, hi: int, a: int, b: int)
    requires
        1 <= lo < hi,
        0 <= a,
        0 <= b,
    ensures
        amounts_for_liquidity_spec(
            cur,
            lo,
            hi,
            liquidity_for_amounts_spec(cur, lo, hi, a, b),
        ).0 <= a,
        amounts_for_liquidity_spec(
            cur,
            lo,
            hi,
            liquidity_for_amounts_spec(cur, lo, hi, a, b),
        ).1 <= b,
{
    let liq: int = liquidity_for_amounts_spec(cur, lo, hi, a, b);
    if cur <= lo {
        lemma_div_pos_is_pos(a * hi * lo, (hi - lo) * pow2_64());
        assert(a * hi * lo >= 0 && (hi - lo) * pow2_64() > 0) by (nonlinear_arith)
            requires
                0 <= a,
                1 <= lo < hi,
                pow2_64() >= 1,
        ;
        lemma_amount_a_le(a, lo, hi, liq);
    } else if cur >= hi {
        lemma_div_pos_is_pos(b * pow2_64(), hi - lo);
        assert(b * pow2_64() >= 0) by (nonlinear_arith)
            requires
                0 <= b,
                pow2_64() >= 1,
        ;
        lemma_amount_b_le(b, lo, hi, liq);
    } else {
        let la: int = liquidity_from_a_spec(a, cur, hi);
        let lb: int = liquidity_from_b_spec(b, lo, cur);
        lemma_div_pos_is_pos(a * hi * cur, (hi - cur) * pow2_64());
        lemma_div_pos_is_pos(b * pow2_64(), cur - lo);
        assert(a * hi * cur >= 0 && (hi - cur) * pow2_64() > 0 && b * pow2_64() >= 0)
            by (nonlinear_arith)
            requires
                0 <= a,
                0 <= b,
                1 <= lo < cur < hi,
                pow2_64() >= 1,
        ;
        lemma_amount_a_le(a, cur, hi, liq);
        lemma_amount_b_le(b, lo, cur, liq);
    }
}

/// `floor(liq * (hi - lo) * 2^64 / (hi * lo))`, or `None` past 128 bits.
pub(crate) fn amount_a_exec(lo: u128, hi: u128, liq: u128) -> (r: Option<u128>)
    requires
        1 <= lo <= hi,
    ensures
        r is Some <==> amount_a_spec(lo as int, hi as int, liq as int) < pow2_128(),
        r is Some ==> r->0 == amount_a_spec(lo as int, hi as int, liq as int),
{
    let m: U256 = mul_wide(liq, hi - lo);
    let n: U384 = u384_shl64_u256(m);
    let den: U256 = mul_wide(hi, lo);
    proof {
        assert(hi * lo >= 1) by (nonlinear_arith)
            requires
                hi >= 1,
                lo >= 1,
        ;
        assert(u384_val(n) == liq * (hi - lo) * pow2_64()) by (nonlinear_arith)
            requires
                u384_val(n) == (liq * (hi - lo)) * pow2_64(),
        ;
    }
    div_384_by_256(&n, &den)
}

/// `floor(liq * (hi - lo) / 2^64)`, or `None` past 128 bits.
pub(crate) fn amount_b_exec(lo: u128, hi: u128, liq: u128) -> (r: Option<u128>)
    requires
        lo <= hi,
    ensures
        r is Some <==> amount_b_spec(lo as int, hi as int, liq as int) < pow2_128(),
        r is Some ==> r->0 == amount_b_spec(lo as int, hi as int, liq as int),
{
    mul_shr64(liq, hi - lo)
}

/// Computes the asset quantities a liquidity magnitude stands for at the
/// current price, in the asset's 64-bit unit.
///
/// Fails with `ArithmeticOverflow` exactly when either quantity exceeds
/// the 64-bit asset unit.
pub fn calculate_liquidity_amounts(
    sqrt_price_current_x64: u128,
    sqrt_price_lower_x64: u128,
    sqrt_price_upper_x64: u128,
    liquidity: u128,
) -> (r: Result<(u64, u64), CLMMError>)
    requires
        1 <= sqrt_price_lower_x64 <= sqrt_price_upper_x64,
    ensures
        r is Ok <==> {
            let (a, b) = amounts_for_liquidity_spec(
                sqrt_price_current_x64 as int,
                sqrt_price_lower_x64 as int,
                sqrt_price_upper_x64 as int,
                liquidity as int,
            );
            a <= u64::MAX && b <= u64::MAX
        },
        r is Ok ==> {
            let (a, b) = amounts_for_liquidity_spec(
                sqrt_price_current_x64 as int,
                sqrt_price_lower_x64 as int,
                sqrt_price_upper_x64 as int,
                liquidity as int,
            );
            r->Ok_0.0 == a && r->Ok_0.1 == b
        },
        r is Err ==> r->Err_0 == CLMMError::ArithmeticOverflow,
{
    let cur: u128 = sqrt_price_current_x64;
    let lo: u128 = sqrt_price_lower_x64;
    let hi: u128 = sqrt_price_upper_x64;
    if cur <= lo {
        let a = match amount_a_exec(lo, hi, liquidity) {
            Some(v) => v,
            None => {
                return Err(CLMMError::ArithmeticOverflow);
            },
        };
        if a > u64::MAX as u128 {
            return Err(CLMMError::ArithmeticOverflow);
        }
        Ok((a as u64, 0))
    } else if cur >= hi {
        let b = match amount_b_exec(lo, hi, liquidity) {
            Some(v) => v,
            None => {
                return Err(CLMMError::ArithmeticOverflow);
            },
        };
        if b > u64::MAX as u128 {
            return Err(CLMMError::ArithmeticOverflow);
        }
        Ok((0, b as u64))
    } else {
        let a = match amount_a_exec(cur, hi, liquidity) {
            Some(v) => v,
            None => {
                return Err(CLMMError::ArithmeticOverflow);
            },
        };
        let b = match amount_b_exec(lo, cur, liquidity) {
            Some(v) => v,
            None => {
                return Err(CLMMError::ArithmeticOverflow);
            },
        };
        if a > u64::MAX as u128 || b > u64::MAX as u128 {
            return Err(CLMMError::ArithmeticOverflow);
        }
        Ok((a as u64, b as u64))
    }
}

/// `floor(a * hi * lo / ((hi - lo) * 2^64))`, or `None` past 128 bits.
fn liquidity_from_a_exec(a: u64, lo: u128, hi: u128) -> (r: Option<u128>)
    requires
        1 <= lo < hi,
    ensures
        r is Some <==> liquidity_from_a_spec(a as int, lo as int, hi as int) < pow2_128(),
        r is Some ==> r->0 == liquidity_from_a_spec(a as int, lo as int, hi as int),
{
    let m: U256 = mul_wide(a as u128, hi);
    proof {
        assert(u256_val(m) < pow2_64() * pow2_128()) by (nonlinear_arith)
            requires
                u256_val(m) == a * hi,
                a < pow2_64(),
                hi < pow2_128(),
                0 <= a,
                0 <= hi,
        ;
        lemma_u256_hi_bound(m, pow2_64());
    }
    let n: U384 = u384_mul_u256_u128(m, lo);
    let den: U256 = u256_shl64_u128(hi - lo);
    proof {
        assert(u384_val(n) == a * hi * lo) by (nonlinear_arith)
            requires
                u384_val(n) == (a * hi) * lo,
        ;
        assert(u256_val(den) >= 1) by (nonlinear_arith)
            requires
                u256_val(den) == (hi - lo) * pow2_64(),
                hi - lo >= 1,
                pow2_64() >= 1,
        ;
    }
    div_384_by_256(&n, &den)
}

/// `floor(b * 2^64 / (hi - lo))`; always fits in 128 bits.
fn liquidity_from_b_exec(b: u64, lo: u128, hi: u128) -> (r: u128)
    requires
        lo < hi,
    ensures
        r == liquidity_from_b_spec(b as int, lo as int, hi as int),
{
    proof {
        assert(b * pow2_64() < pow2_128()) by (nonlinear_arith)
            requires
                0 <= b < pow2_64(),
                pow2_128() == pow2_64() * pow2_64(),
        ;
    }
    let num: u128 = (b as u128) * Q64;
    num / (hi - lo)
}

/// Whether the asset-A-implied magnitude stays within 128 bits; the
/// asset-B-implied magnitude always does.
pub open spec fn liquidity_for_amounts_fits(cur: int, lo: int, hi: int, a: int) -> bool {
    if cur <= lo {
        liquidity_from_a_spec(a, lo, hi) < pow2_128()
    } else if cur >= hi {
        true
    } else {
        liquidity_from_a_spec(a, cur, hi) < pow2_128()
    }
}

/// Computes the liquidity magnitude obtainable from at most `max_a` of
/// asset A and `max_b` of asset B over a price range, never over-spending
/// either asset.
pub fn liquidity_for_amounts(
    sqrt_price_current_x64: u128,
    sqrt_price_lower_x64: u128,
    sqrt_price_upper_x64: u128,
    max_a: u64,
    max_b: u64,
) -> (r: Result<u128, CLMMError>)
    requires
        1 <= sqrt_price_lower_x64 < sqrt_price_upper_x64,
    ensures
        r is Ok <==> liquidity_for_amounts_fits(
            sqrt_price_current_x64 as int,
            sqrt_price_lower_x64 as int,
            sqrt_price_upper_x64 as int,
            max_a as int,
        ),
        r is Ok ==> r->Ok_0 == liquidity_for_amounts_spec(
            sqrt_price_current_x64 as int,
            sqrt_price_lower_x64 as int,
            sqrt_price_upper_x64 as int,
            max_a as int,
            max_b as int,
        ),
        r is Err ==> r->Err_0 == CLMMError::ArithmeticOverflow,
{
    let cur: u128 = sqrt_price_current_x64;
    let lo: u128 = sqrt_price_lower_x64;
    let hi: u128 = sqrt_price_upper_x64;
    if cur <= lo {
        match liquidity_from_a_exec(max_a, lo, hi) {
            Some(v) => Ok(v),
            None => Err(CLMMError::ArithmeticOverflow),
        }
    } else if cur >= hi {
        Ok(liquidity_from_b_exec(max_b, lo, hi))
    } else {
        let la = match liquidity_from_a_exec(max_a, cur, hi) {
            Some(v) => v,
            None => {
                return Err(CLMMError::ArithmeticOverflow);
            },
        };
        let lb: u128 = liquidity_from_b_exec(max_b, lo, cur);
        if la <= lb {
            Ok(la)
        } else {
            Ok(lb)
        }
    }
}

} // verus!
