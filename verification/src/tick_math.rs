//! The price/tick codec.
//!
//! A tick index `t` names the square-root price `sqrt(1.0001^t)` in
//! Q64.64 fixed point.  The codec evaluates that exponential purely with
//! integer arithmetic: one fixed-point multiplication by `sqrt(1.0001)`
//! per tick above zero, and the exact reciprocal `2^128 / p` for ticks
//! below zero.  Tick zero maps to `2^64` exactly.  Ticks whose price
//! would exceed the representable band fail with `ArithmeticOverflow`.

use vstd::prelude::*;
use vstd::arithmetic::div_mod::*;
use crate::error::CLMMError;
use crate::wide::{
    div_384_by_256, isqrt_u256, mul_shr64, mul_wide, pow2_128, pow2_256, pow2_64, u256_val,
    u384_val, Q64, U256, U384,
};

verus! {

/// `sqrt(1.0001)` in Q64.64, rounded to nearest.
pub const SQRT_RATIO_X64: u128 = 18447666387855959851;

/// The largest magnitude-side square-root price the codec represents
/// (`2^108`); one tick step above it would leave the verified band.
pub const MAX_SQRT_PRICE_X64: u128 = 0x1000_0000_0000_0000_0000_0000_0000;

pub open spec fn ratio() -> int {
    SQRT_RATIO_X64 as int
}

pub open spec fn price_cap() -> int {
    MAX_SQRT_PRICE_X64 as int
}

/// The Q64.64 square-root price `n` ticks above zero: `n` successive
/// floored fixed-point multiplications by `sqrt(1.0001)`.
pub open spec fn sqrt_price_up(n: nat) -> int
    decreases n,
{
    if n == 0 {
        pow2_64()
    } else {
        sqrt_price_up((n - 1) as nat) * ratio() / pow2_64()
    }
}

/// The Q64.64 square-root price of a tick: positive ticks walk upward,
/// negative ticks take the exact reciprocal of the magnitude's price.
pub open spec fn tick_sqrt_price(t: int) -> int {
    if t >= 0 {
        sqrt_price_up(t as nat)
    } else {
        pow2_128() / sqrt_price_up((-t) as nat)
    }
}

/// A tick is representable while its magnitude-side price is at most the
/// cap.
pub open spec fn tick_in_range(t: int) -> bool {
    sqrt_price_up(
        (if t >= 0 {
            t
        } else {
            -t
        }) as nat,
    ) <= price_cap()
}

/// `floor(x / q) >= c` follows from `x >= c * q`.
proof fn lemma_div_ge(x: int, c: int, q: int)
    requires
        q > 0,
        x >= c * q,
    ensures
        x / q >= c,
{
    lemma_div_multiples_vanish(c, q);
    lemma_div_is_ordered(c * q, x, q);
}

/// `floor(x / q) < c` follows from `x < c * q`.
proof fn lemma_div_lt(x: int, c: int, q: int)
    requires
        q > 0,
        0 <= x,
        x < c * q,
    ensures
        x / q < c,
{
    lemma_fundamental_div_mod(x, q);
    assert(x / q < c) by (nonlinear_arith)
        requires
            q > 0,
            q * (x / q) <= x,
            x < c * q,
    ;
}

/// Every price on the upward walk is at least `2^64`.
pub proof fn lemma_sqrt_price_up_lb(n: nat)
    ensures
        sqrt_price_up(n) >= pow2_64(),
    decreases n,
{
    if n > 0 {
        lemma_sqrt_price_up_lb((n - 1) as nat);
        let p: int = sqrt_price_up((n - 1) as nat);
        assert(p * ratio() >= pow2_64() * pow2_64()) by (nonlinear_arith)
            requires
                p >= pow2_64(),
                ratio() >= pow2_64(),
                pow2_64() > 0,
        ;
        lemma_div_ge(p * ratio(), pow2_64(), pow2_64());
    }
}

/// One upward step strictly increases the price, gains at least
/// `p*(ratio-2^64) - 2^64` in the 2^64-scaled view, and never exceeds the
/// unfloored product.
pub proof fn lemma_sqrt_price_up_step(n: nat)
    ensures
        sqrt_price_up(n + 1) > sqrt_price_up(n),
        sqrt_price_up(n + 1) * pow2_64() <= sqrt_price_up(n) * ratio(),
        (sqrt_price_up(n + 1) - sqrt_price_up(n)) * pow2_64() > sqrt_price_up(n) * (ratio()
            - pow2_64()) - pow2_64(),
{
    lemma_sqrt_price_up_lb(n);
    let p: int = sqrt_price_up(n);
    let p2: int = sqrt_price_up(n + 1);
    let q: int = pow2_64();
    let r: int = ratio();
    assert(p2 == p * r / q);
    assert(p * r >= (p + 1) * q) by (nonlinear_arith)
        requires
            p >= q,
            q >= 1,
            r >= q + 1,
    ;
    lemma_div_ge(p * r, p + 1, q);
    lemma_fundamental_div_mod(p * r, q);
    assert(p2 * q <= p * r && (p2 - p) * q > p * (r - q) - q) by (nonlinear_arith)
        requires
            p * r == q * p2 + (p * r) % q,
            0 <= (p * r) % q < q,
            q > 0,
    ;
}

/// The upward walk is strictly monotonic.
pub proof fn lemma_sqrt_price_up_mono(m: nat, n: nat)
    requires
        m <= n,
    ensures
        sqrt_price_up(m) <= sqrt_price_up(n),
        m < n ==> sqrt_price_up(m) < sqrt_price_up(n),
    decreases n,
{
    if m < n {
        lemma_sqrt_price_up_mono(m, (n - 1) as nat);
        lemma_sqrt_price_up_step((n - 1) as nat);
    }
}

/// The arithmetic heart of the reciprocal gap: under the band cap, one
/// upward step shrinks the reciprocal by at least one whole unit.
proof fn lemma_gap_core(p: int, p2: int, q2: int, rem2: int, q: int, r: int, a: int, cap: int)
    requires
        q == 0x1_0000_0000_0000_0000,
        r == 18447666387855959851,
        cap == q * 0x1000_0000_0000,
        a == q * q,
        q <= p <= cap,
        p < p2,
        p2 * q <= p * r,
        (p2 - p) * q >= p * (r - q) - q + 1,
        a == q2 * p2 + rem2,
        0 <= rem2 < p2,
        0 <= q2,
    ensures
        (q2 + 1) * p <= a,
{
    let d: int = r - q;
    assert(p * d - q >= 0) by (nonlinear_arith)
        requires
            p >= q,
            d >= 1,
            q >= 1,
    ;
    assert((a * q - p * r) * (p * d - q) >= p * p * q * r) by (nonlinear_arith)
        requires
            q == 0x1_0000_0000_0000_0000,
            r == 18447666387855959851,
            cap == q * 0x1000_0000_0000,
            a == q * q,
            d == r - q,
            q <= p <= cap,
    ;
    assert((a - p2) * q >= a * q - p * r) by (nonlinear_arith)
        requires
            p2 * q <= p * r,
    ;
    assert(((a - p2) * q) * (p * d - q) >= (a * q - p * r) * (p * d - q)) by (nonlinear_arith)
        requires
            (a - p2) * q >= a * q - p * r,
            p * d - q >= 0,
    ;
    assert((p * q) * (p2 * q) <= p * p * q * r) by (nonlinear_arith)
        requires
            p2 * q <= p * r,
            p >= 0,
            q >= 0,
    ;
    assert((a - p2) * (p * d - q) >= (p * q) * p2) by (nonlinear_arith)
        requires
            ((a - p2) * q) * (p * d - q) >= (a * q - p * r) * (p * d - q),
            (a * q - p * r) * (p * d - q) >= p * p * q * r,
            (p * q) * (p2 * q) <= p * p * q * r,
            q >= 1,
    ;
    assert(q2 * p2 >= a - p2);
    assert(q2 * (p * d - q) >= p * q) by (nonlinear_arith)
        requires
            q2 * p2 >= a - p2,
            (a - p2) * (p * d - q) >= (p * q) * p2,
            p * d - q >= 0,
            q2 >= 0,
            p2 >= 1,
            p >= 1,
            q >= 1,
    ;
    assert(q2 * (p2 - p) >= p) by (nonlinear_arith)
        requires
            q2 * (p * d - q) >= p * q,
            (p2 - p) * q >= p * d - q,
            q2 >= 0,
            q >= 1,
    ;
    assert((q2 + 1) * p <= a) by (nonlinear_arith)
        requires
            q2 * (p2 - p) >= p,
            a == q2 * p2 + rem2,
            rem2 >= 0,
    ;
}

/// Under the cap, the reciprocal prices of consecutive upward ticks are
/// strictly ordered: stepping the magnitude up moves the negative-side
/// price strictly down.
pub proof fn lemma_reciprocal_gap(n: nat)
    requires
        sqrt_price_up(n) <= price_cap(),
    ensures
        pow2_128() / sqrt_price_up(n + 1) < pow2_128() / sqrt_price_up(n),
{
    lemma_sqrt_price_up_lb(n);
    lemma_sqrt_price_up_step(n);
    let p: int = sqrt_price_up(n);
    let p2: int = sqrt_price_up(n + 1);
    let a: int = pow2_128();
    let q: int = pow2_64();
    let r: int = ratio();
    let cap: int = price_cap();
    let q2: int = a / p2;
    lemma_fundamental_div_mod(a, p2);
    lemma_div_pos_is_pos(a, p2);
    lemma_gap_core(p, p2, q2, a % p2, q, r, a, cap);
    lemma_div_ge(a, q2 + 1, p);
}

/// Reciprocal prices are strictly ordered across any distance while the
/// larger magnitude stays under the cap.
pub proof fn lemma_reciprocal_mono(m: nat, n: nat)
    requires
        m < n,
        sqrt_price_up(n) <= price_cap(),
    ensures
        pow2_128() / sqrt_price_up(n) < pow2_128() / sqrt_price_up(m),
    decreases n - m,
{
    lemma_sqrt_price_up_mono((n - 1) as nat, n);
    lemma_reciprocal_gap((n - 1) as nat);
    if m < n - 1 {
        lemma_reciprocal_mono(m, (n - 1) as nat);
    }
}

/// Monotonicity of the codec: a lower tick always has the strictly lower
/// square-root price, over the whole representable band.
pub proof fn lemma_tick_sqrt_price_mono(t1: int, t2: int)
    requires
        tick_in_range(t1),
        tick_in_range(t2),
        t1 < t2,
    ensures
        tick_sqrt_price(t1) < tick_sqrt_price(t2),
{
    if 0 <= t1 {
        lemma_sqrt_price_up_mono(t1 as nat, t2 as nat);
    } else if t2 <= 0 {
        lemma_reciprocal_mono((-t2) as nat, (-t1) as nat);
        if t2 == 0 {
            lemma_div_multiples_vanish(pow2_64(), pow2_64());
        }
    } else {
        let n1: nat = (-t1) as nat;
        lemma_sqrt_price_up_mono(0, n1);
        let p1: int = sqrt_price_up(n1);
        let q: int = pow2_64();
        let a: int = pow2_128();
        assert(q * p1 > a) by (nonlinear_arith)
            requires
                p1 >= q + 1,
                q >= 1,
                a == q * q,
        ;
        lemma_div_lt(a, q, p1);
        lemma_sqrt_price_up_lb(t2 as nat);
    }
}

/// Accumulated growth of the upward walk: over `j` steps the scaled gain
/// is at least `j` times the single-step floor gain at the start.
proof fn lemma_up_accum(t: nat, j: nat)
    ensures
        (sqrt_price_up(t + j) - sqrt_price_up(t)) * pow2_64() >= j * (sqrt_price_up(t) * (ratio()
            - pow2_64()) - pow2_64() + 1),
    decreases j,
{
    let p: int = sqrt_price_up(t);
    let dd: int = p * (ratio() - pow2_64()) - pow2_64() + 1;
    if j == 0 {
        assert(0 * dd == 0) by (nonlinear_arith);
    } else {
        lemma_up_accum(t, (j - 1) as nat);
        lemma_sqrt_price_up_step((t + j - 1) as nat);
        lemma_sqrt_price_up_mono(t, (t + j - 1) as nat);
        lemma_sqrt_price_up_lb(t);
        let pj1: int = sqrt_price_up((t + j - 1) as nat);
        let pj: int = sqrt_price_up((t + j) as nat);
        assert((pj - p) * pow2_64() >= j * dd) by (nonlinear_arith)
            requires
                (pj1 - p) * pow2_64() >= (j - 1) * dd,
                (pj - pj1) * pow2_64() > pj1 * (ratio() - pow2_64()) - pow2_64(),
                pj1 >= p,
                ratio() - pow2_64() >= 1,
                dd == p * (ratio() - pow2_64()) - pow2_64() + 1,
                j >= 1,
        ;
    }
}

/// Walking 20002 ticks upward at least doubles the price.
proof fn lemma_up_doubles(t: nat)
    ensures
        sqrt_price_up((t + 20002) as nat) >= 2 * sqrt_price_up(t),
{
    lemma_up_accum(t, 20002);
    lemma_sqrt_price_up_lb(t);
    let p: int = sqrt_price_up(t);
    let px: int = sqrt_price_up((t + 20002) as nat);
    assert(px >= 2 * p) by (nonlinear_arith)
        requires
            (px - p) * pow2_64() >= 20002 * (p * (ratio() - pow2_64()) - pow2_64() + 1),
            p >= pow2_64(),
            20002 * (ratio() - pow2_64()) - pow2_64() > 0,
            pow2_64() * (20002 * (ratio() - pow2_64()) - pow2_64()) >= 20002 * pow2_64() - 20002,
            pow2_64() >= 1,
    ;
}

/// After `k` doubling windows the price is at least `2^k * 2^64`.
proof fn lemma_up_pow_lb(k: nat)
    ensures
        sqrt_price_up((k * 20002) as nat) >= vstd::arithmetic::power2::pow2(k) * pow2_64(),
    decreases k,
{
    vstd::arithmetic::power2::lemma2_to64();
    if k == 0 {
        assert(k * 20002 == 0) by (nonlinear_arith)
            requires
                k == 0,
        ;
    } else {
        lemma_up_pow_lb((k - 1) as nat);
        lemma_up_doubles(((k - 1) * 20002) as nat);
        vstd::arithmetic::power2::lemma_pow2_unfold(k);
        vstd::arithmetic::power2::lemma_pow2_pos((k - 1) as nat);
        assert((k - 1) * 20002 + 20002 == k * 20002) by (nonlinear_arith);
        let pk1: int = vstd::arithmetic::power2::pow2((k - 1) as nat) as int;
        assert(sqrt_price_up((k * 20002) as nat) >= (2 * pk1) * pow2_64()) by (nonlinear_arith)
            requires
                sqrt_price_up((k * 20002) as nat) >= 2 * sqrt_price_up(((k - 1) * 20002) as nat),
                sqrt_price_up(((k - 1) * 20002) as nat) >= pk1 * pow2_64(),
        ;
    }
}

/// Every representable magnitude is below 900090 ticks.
pub proof fn lemma_in_range_tick_bound(n: nat)
    requires
        sqrt_price_up(n) <= price_cap(),
    ensures
        n < 900090,
{
    if n >= 900090 {
        lemma_up_pow_lb(45);
        vstd::arithmetic::power2::lemma2_to64();
        vstd::arithmetic::power2::lemma2_to64_rest();
        assert(45 * 20002 == 900090) by (nonlinear_arith);
        assert(0x2000_0000_0000 * 0x1_0000_0000_0000_0000 > 0x1000_0000_0000_0000_0000_0000_0000int)
            by (nonlinear_arith);
        lemma_sqrt_price_up_mono(900090, n);
        assert(false);
    }
}

/// Converts a tick index to its Q64.64 square-root price.
///
/// Returns `Ok` exactly on the representable ticks; a tick whose
/// magnitude-side price would pass the cap reports `ArithmeticOverflow`.
pub fn tick_to_sqrt_price_x64(tick: i32) -> (r: Result<u128, CLMMError>)
    ensures
        r is Ok <==> tick_in_range(tick as int),
        r is Ok ==> r->Ok_0 == tick_sqrt_price(tick as int),
        r is Err ==> r->Err_0 == CLMMError::ArithmeticOverflow,
{
    let mag: u64 = if tick >= 0 {
        tick as u64
    } else {
        (-(tick as i64)) as u64
    };
    let mut p: u128 = Q64;
    let mut i: u64 = 0;
    while i < mag
        invariant
            0 <= i <= mag,
            mag == (if tick >= 0 {
                tick as int
            } else {
                -(tick as int)
            }),
            p == sqrt_price_up(i as nat),
            p <= MAX_SQRT_PRICE_X64,
        decreases mag - i,
    {
        proof {
            assert(p * ratio() < pow2_64() * pow2_128()) by (nonlinear_arith)
                requires
                    0 <= p <= price_cap(),
                    0 < ratio() <= 2 * pow2_64(),
                    price_cap() * (2 * pow2_64()) < pow2_64() * pow2_128(),
            ;
            lemma_div_lt(p * ratio(), pow2_128(), pow2_64());
        }
        let next: u128 = mul_shr64(p, SQRT_RATIO_X64).unwrap();
        if next > MAX_SQRT_PRICE_X64 {
            proof {
                lemma_sqrt_price_up_mono((i + 1) as nat, mag as nat);
            }
            return Err(CLMMError::ArithmeticOverflow);
        }
        p = next;
        i = i + 1;
    }
    if tick >= 0 {
        Ok(p)
    } else {
        proof {
            lemma_sqrt_price_up_lb(mag as nat);
            lemma_div_is_ordered_by_denominator(pow2_128(), pow2_64(), p as int);
            lemma_div_multiples_vanish(pow2_64(), pow2_64());
        }
        let num = U384 { t0: 0, t1: 1, t2: 0 };
        let den = U256 { lo: p, hi: 0 };
        let inv: u128 = div_384_by_256(&num, &den).unwrap();
        Ok(inv)
    }
}

/// `floor(a / x) <= c` exactly when `a < x * (c + 1)`.
proof fn lemma_div_le_iff(a: int, x: int, c: int)
    requires
        x >= 1,
        c >= 0,
        a >= 0,
    ensures
        a / x <= c <==> a < x * (c + 1),
{
    if a < x * (c + 1) {
        lemma_div_lt(a, c + 1, x);
    }
    if a / x <= c {
        lemma_fundamental_div_mod(a, x);
        assert(a < x * (c + 1)) by (nonlinear_arith)
            requires
                a == x * (a / x) + a % x,
                a % x < x,
                a / x <= c,
                x >= 1,
        ;
    }
}

/// The price of any tick at or below zero is at most `2^64`.
proof fn lemma_nonpos_tick_price_le(t: int)
    requires
        t <= 0,
    ensures
        tick_sqrt_price(t) <= pow2_64(),
{
    if t < 0 {
        lemma_sqrt_price_up_lb((-t) as nat);
        lemma_div_is_ordered_by_denominator(pow2_128(), pow2_64(), sqrt_price_up((-t) as nat));
        lemma_div_multiples_vanish(pow2_64(), pow2_64());
    }
}

/// Whether some representable tick's price bracket contains `q`.
pub open spec fn has_tick_bracket(q: int) -> bool {
    exists|t: int|
        #[trigger] tick_in_range(t) && tick_sqrt_price(t) <= q && q < tick_sqrt_price(t + 1)
}

/// Every tick between two representable ticks is representable.
pub proof fn lemma_in_range_between(lo: int, hi: int, mid: int)
    requires
        tick_in_range(lo),
        tick_in_range(hi),
        lo <= mid <= hi,
    ensures
        tick_in_range(mid),
{
    let mm: nat = (if mid >= 0 {
        mid
    } else {
        -mid
    }) as nat;
    if mid >= 0 {
        lemma_sqrt_price_up_mono(mm, hi as nat);
    } else {
        lemma_sqrt_price_up_mono(mm, (-lo) as nat);
    }
}

/// Inverts the codec: the representable tick whose price bracket holds the
/// given square-root price, rounding down.
///
/// Returns `Ok` exactly when some representable tick's bracket contains
/// the price; a price outside the representable band reports
/// `ArithmeticOverflow`.
pub fn sqrt_price_x64_to_tick(sqrt_price_x64: u128) -> (r: Result<i32, CLMMError>)
    ensures
        r is Ok <==> has_tick_bracket(sqrt_price_x64 as int),
        r is Ok ==> tick_in_range(r->Ok_0 as int) && tick_sqrt_price(r->Ok_0 as int)
            <= sqrt_price_x64 && sqrt_price_x64 < tick_sqrt_price(r->Ok_0 as int + 1),
        r is Err ==> r->Err_0 == CLMMError::ArithmeticOverflow,
{
    let q: u128 = sqrt_price_x64;
    if q >= Q64 {
        let mut t: i32 = 0;
        let mut p: u128 = Q64;
        loop
            invariant
                0 <= t,
                p == sqrt_price_up(t as nat),
                p <= MAX_SQRT_PRICE_X64,
                p <= q,
                q >= Q64,
                q == sqrt_price_x64,
            decreases q - p,
        {
            proof {
                lemma_in_range_tick_bound(t as nat);
                assert(p * ratio() < pow2_64() * pow2_128()) by (nonlinear_arith)
                    requires
                        0 <= p <= price_cap(),
                        0 < ratio() <= 2 * pow2_64(),
                        price_cap() * (2 * pow2_64()) < pow2_64() * pow2_128(),
                ;
                lemma_div_lt(p * ratio(), pow2_128(), pow2_64());
                lemma_sqrt_price_up_step(t as nat);
            }
            let next: u128 = mul_shr64(p, SQRT_RATIO_X64).unwrap();
            if q < next {
                proof {
                    assert(tick_in_range(t as int) && tick_sqrt_price(t as int) <= q && q
                        < tick_sqrt_price(t as int + 1));
                }
                return Ok(t);
            }
            if next > MAX_SQRT_PRICE_X64 {
                proof {
                    assert forall|tt: int| #[trigger]
                        tick_in_range(tt) implies !(tick_sqrt_price(tt) <= q && q
                        < tick_sqrt_price(tt + 1)) by {
                        if tt > t {
                            lemma_sqrt_price_up_mono((t + 1) as nat, tt as nat);
                        } else if tt + 1 >= 0 {
                            lemma_sqrt_price_up_mono((tt + 1) as nat, (t + 1) as nat);
                        } else {
                            lemma_nonpos_tick_price_le(tt + 1);
                        }
                    }
                }
                return Err(CLMMError::ArithmeticOverflow);
            }
            p = next;
            t = t + 1;
        }
    } else {
        let mut m: i32 = 0;
        let mut p: u128 = Q64;
        proof {
            lemma_div_multiples_vanish(pow2_64(), pow2_64());
        }
        loop
            invariant
                0 <= m,
                p == sqrt_price_up(m as nat),
                p <= MAX_SQRT_PRICE_X64,
                q < pow2_128() / (p as int),
                q < Q64,
                q == sqrt_price_x64,
            decreases MAX_SQRT_PRICE_X64 - p,
        {
            proof {
                lemma_in_range_tick_bound(m as nat);
                assert(p * ratio() < pow2_64() * pow2_128()) by (nonlinear_arith)
                    requires
                        0 <= p <= price_cap(),
                        0 < ratio() <= 2 * pow2_64(),
                        price_cap() * (2 * pow2_64()) < pow2_64() * pow2_128(),
                ;
                lemma_div_lt(p * ratio(), pow2_128(), pow2_64());
                lemma_sqrt_price_up_step(m as nat);
                lemma_sqrt_price_up_lb(m as nat);
            }
            let next: u128 = mul_shr64(p, SQRT_RATIO_X64).unwrap();
            if next > MAX_SQRT_PRICE_X64 {
                proof {
                    assert forall|tt: int| #[trigger]
                        tick_in_range(tt) implies !(tick_sqrt_price(tt) <= q && q
                        < tick_sqrt_price(tt + 1)) by {
                        lemma_div_multiples_vanish(pow2_64(), pow2_64());
                        if tt >= -(m as int) {
                            if tt > -(m as int) {
                                lemma_tick_sqrt_price_mono(-(m as int), tt);
                            }
                        } else {
                            lemma_sqrt_price_up_mono((m + 1) as nat, (-tt) as nat);
                        }
                    }
                }
                return Err(CLMMError::ArithmeticOverflow);
            }
            proof {
                lemma_sqrt_price_up_lb((m + 1) as nat);
                lemma_div_le_iff(pow2_128(), next as int, q as int);
            }
            let prod: U256 = mul_wide(next, q + 1);
            if prod.hi > 1 || (prod.hi == 1 && prod.lo > 0) {
                proof {
                    assert(next * (q + 1) > pow2_128()) by (nonlinear_arith)
                        requires
                            u256_val(prod) == next * (q + 1),
                            u256_val(prod) == prod.lo + prod.hi * pow2_128(),
                            prod.hi > 1 || (prod.hi == 1 && prod.lo > 0),
                            prod.lo >= 0,
                    ;
                    assert(tick_in_range(-(m as int) - 1) && tick_sqrt_price(-(m as int) - 1) <= q
                        && q < tick_sqrt_price(-(m as int)));
                }
                return Ok(-m - 1);
            }
            proof {
                assert(next * (q + 1) <= pow2_128()) by (nonlinear_arith)
                    requires
                        u256_val(prod) == next * (q + 1),
                        u256_val(prod) == prod.lo + prod.hi * pow2_128(),
                        !(prod.hi > 1 || (prod.hi == 1 && prod.lo > 0)),
                        prod.lo < pow2_128(),
                        prod.hi >= 0,
                ;
                lemma_div_ge(pow2_128(), q as int + 1, next as int);
            }
            p = next;
            m = m + 1;
        }
    }
}

/// Every representable tick's price is positive and within the band.
pub proof fn lemma_tick_sqrt_price_pos(t: int)
    requires
        tick_in_range(t),
    ensures
        1 <= tick_sqrt_price(t),
        tick_sqrt_price(t) <= MAX_SQRT_PRICE_X64,
{
    if t >= 0 {
        lemma_sqrt_price_up_lb(t as nat);
    } else {
        let p: int = sqrt_price_up((-t) as nat);
        lemma_sqrt_price_up_lb((-t) as nat);
        lemma_div_ge(pow2_128(), 1, p);
        lemma_nonpos_tick_price_le(t);
    }
}

/// Some representable tick brackets every price from a representable
/// tick's price up to the band cap.
pub proof fn lemma_bracket_exists_upward(t: nat, q: int)
    requires
        sqrt_price_up(t) <= q,
        q <= price_cap(),
    ensures
        has_tick_bracket(q),
    decreases price_cap() - sqrt_price_up(t),
{
    lemma_sqrt_price_up_step(t);
    if q < sqrt_price_up(t + 1) {
        assert(tick_in_range(t as int) && tick_sqrt_price(t as int) <= q && q < tick_sqrt_price(
            t as int + 1,
        ));
    } else {
        lemma_bracket_exists_upward(t + 1, q);
    }
}

/// Some representable tick brackets every price sandwiched between two
/// representable ticks' prices.
pub proof fn lemma_bracket_exists_range(lo: int, hi: int, q: int)
    requires
        tick_in_range(lo),
        tick_in_range(hi),
        lo <= hi,
        tick_sqrt_price(lo) <= q,
        q < tick_sqrt_price(hi + 1),
    ensures
        has_tick_bracket(q),
    decreases hi - lo,
{
    if q < tick_sqrt_price(lo + 1) {
        assert(tick_in_range(lo) && tick_sqrt_price(lo) <= q && q < tick_sqrt_price(lo + 1));
    } else {
        if lo == hi {
            assert(false);
        }
        lemma_in_range_between(lo, hi, lo + 1);
        lemma_bracket_exists_range(lo + 1, hi, q);
    }
}

/// Converts an integer price ratio (asset A in units of B) to the Q64.64
/// square-root price: the greatest `s` with `s^2 <= price * 2^128`.
pub fn price_to_sqrt_price_x64(price: u64) -> (r: Result<u128, CLMMError>)
    ensures
        r is Ok <==> price > 0,
        r is Ok ==> r->Ok_0 * r->Ok_0 <= price * pow2_128() && price * pow2_128() < (r->Ok_0 + 1) * (
        r->Ok_0 + 1),
        r is Err ==> r->Err_0 == CLMMError::ZeroAmount,
{
    if price == 0 {
        return Err(CLMMError::ZeroAmount);
    }
    let n = U256 { lo: 0, hi: price as u128 };
    let s: u128 = isqrt_u256(&n);
    Ok(s)
}

/// Round trip of the codec: the bracket of a representable tick's own
/// price is that tick itself, so decoding an encoded tick returns it
/// exactly.
pub proof fn lemma_codec_round_trip(t: int, t_found: int)
    requires
        tick_in_range(t),
        tick_in_range(t_found),
        tick_sqrt_price(t_found) <= tick_sqrt_price(t),
        tick_sqrt_price(t) < tick_sqrt_price(t_found + 1),
    ensures
        t_found == t,
        has_tick_bracket(tick_sqrt_price(t)),
{
    if t < t_found {
        lemma_tick_sqrt_price_mono(t, t_found);
    }
    if t > t_found {
        if t > t_found + 1 {
            lemma_in_range_between(t_found, t, t_found + 1);
            lemma_tick_sqrt_price_mono(t_found + 1, t);
        }
        assert(false);
    }
}

} // verus!
