//! Full-width integer arithmetic for Q64.64 price math.
//!
//! Every product or quotient the engine evaluates is carried in 256- or
//! 384-bit intermediates, so a result is either exact or reported as an
//! overflow; nothing wraps silently.

use vstd::prelude::*;
use vstd::arithmetic::div_mod::*;
use vstd::arithmetic::mul::*;
use vstd::arithmetic::power2::*;

verus! {

/// One unit in the fractional position of a Q64.64 fixed-point value.
pub const Q64: u128 = 0x1_0000_0000_0000_0000;

pub open spec fn pow2_64() -> int {
    0x1_0000_0000_0000_0000
}

pub open spec fn pow2_128() -> int {
    pow2_64() * pow2_64()
}

pub open spec fn pow2_256() -> int {
    pow2_128() * pow2_128()
}

/// A 256-bit unsigned value, low half first.
pub struct U256 {
    pub lo: u128,
    pub hi: u128,
}

/// A 384-bit unsigned value in three 128-bit limbs, low limb first.
pub struct U384 {
    pub t0: u128,
    pub t1: u128,
    pub t2: u128,
}

pub open spec fn u256_val(x: U256) -> int {
    x.lo + x.hi * pow2_128()
}

pub open spec fn u384_val(x: U384) -> int {
    x.t0 + x.t1 * pow2_128() + x.t2 * pow2_256()
}

/// Adds two 128-bit values, reporting the carry separately.
pub fn add128_carry(a: u128, b: u128) -> (r: (u128, bool))
    ensures
        a + b == r.0 + if r.1 {
            pow2_128()
        } else {
            0
        },
{
    if a <= u128::MAX - b {
        (a + b, false)
    } else {
        ((a - (u128::MAX - b)) - 1, true)
    }
}

/// The exact 256-bit product of two 128-bit values.
#[verifier::rlimit(60)]
pub fn mul_wide(a: u128, b: u128) -> (r: U256)
    ensures
        u256_val(r) == a * b,
{
    let a0: u128 = a % Q64;
    let a1: u128 = a / Q64;
    let b0: u128 = b % Q64;
    let b1: u128 = b / Q64;
    proof {
        let top: int = pow2_128() - 2 * pow2_64() + 1;
        assert(a0 * b0 <= top && a0 * b1 <= top && a1 * b0 <= top && a1 * b1 <= top)
            by (nonlinear_arith)
            requires
                a0 < pow2_64() && a1 < pow2_64() && b0 < pow2_64() && b1 < pow2_64(),
                top == pow2_128() - 2 * pow2_64() + 1,
        ;
    }
    let p00: u128 = a0 * b0;
    let p01: u128 = a0 * b1;
    let p10: u128 = a1 * b0;
    let p11: u128 = a1 * b1;
    // Fold the cross terms into the halves, tracking carries exactly.
    let mid: u128 = p01 + p00 / Q64;
    let mid2: u128 = p10 + mid % Q64;
    proof {
        lemma_mul_upper_bound(mid2 as int % pow2_64(), pow2_64() - 1, pow2_64(), pow2_64());
    }
    let lo: u128 = p00 % Q64 + (mid2 % Q64) * Q64;
    let hi: u128 = p11 + mid / Q64 + mid2 / Q64;
    proof {
        let q: int = pow2_64();
        lemma_fundamental_div_mod(a as int, q);
        lemma_fundamental_div_mod(b as int, q);
        lemma_fundamental_div_mod(p00 as int, q);
        lemma_fundamental_div_mod(mid as int, q);
        lemma_fundamental_div_mod(mid2 as int, q);
        assert((a1 * q + a0) * (b1 * q + b0) == (a1 * b1) * (q * q) + (a0 * b1) * q + (a1 * b0)
            * q + a0 * b0) by (nonlinear_arith);
        assert(u256_val(U256 { lo, hi }) == a * b) by (nonlinear_arith)
            requires
                a == a1 * q + a0,
                b == b1 * q + b0,
                (a1 * q + a0) * (b1 * q + b0) == (a1 * b1) * (q * q) + (a0 * b1) * q + (a1 * b0)
                    * q + a0 * b0,
                p00 == a0 * b0,
                p01 == a0 * b1,
                p10 == a1 * b0,
                p11 == a1 * b1,
                p00 == q * (p00 as int / q) + p00 as int % q,
                mid == p01 + p00 as int / q,
                mid == q * (mid as int / q) + mid as int % q,
                mid2 == p10 + mid as int % q,
                mid2 == q * (mid2 as int / q) + mid2 as int % q,
                lo == p00 as int % q + (mid2 as int % q) * q,
                hi == p11 + mid as int / q + mid2 as int / q,
                q == pow2_64(),
                u256_val(U256 { lo, hi }) == lo + hi * (q * q),
        ;
    }
    U256 { lo, hi }
}

/// `floor(a * b / 2^64)`, or `None` when the quotient exceeds 128 bits.
pub fn mul_shr64(a: u128, b: u128) -> (r: Option<u128>)
    ensures
        r is Some <==> a * b / pow2_64() < pow2_128(),
        r is Some ==> r->0 == a * b / pow2_64(),
{
    let m: U256 = mul_wide(a, b);
    proof {
        let q: int = pow2_64();
        lemma_fundamental_div_mod(m.lo as int, q);
        assert(m.lo + m.hi * pow2_128() == (m.hi * q + m.lo as int / q) * q + m.lo as int % q)
            by (nonlinear_arith)
            requires
                m.lo == q * (m.lo as int / q) + m.lo as int % q,
                pow2_128() == q * q,
        ;
        lemma_fundamental_div_mod_converse(
            u256_val(m),
            q,
            m.hi * q + m.lo as int / q,
            m.lo as int % q,
        );
        assert(a * b / q == m.hi * q + m.lo as int / q);
    }
    if m.hi >= Q64 {
        proof {
            assert(m.hi * pow2_64() >= pow2_64() * pow2_64()) by (nonlinear_arith)
                requires
                    m.hi >= pow2_64(),
            ;
        }
        None
    } else {
        proof {
            lemma_mul_upper_bound(m.hi as int, pow2_64() - 1, pow2_64(), pow2_64());
        }
        Some(m.hi * Q64 + m.lo / Q64)
    }
}

impl Clone for U384 {
    fn clone(&self) -> (r: Self)
        ensures
            r == *self,
    {
        U384 { t0: self.t0, t1: self.t1, t2: self.t2 }
    }
}

pub fn u384_from_u256(x: U256) -> (r: U384)
    ensures
        u384_val(r) == u256_val(x),
{
    U384 { t0: x.lo, t1: x.hi, t2: 0 }
}

/// The 384-bit value `x * 2^64`.
pub fn u384_shl64_u256(x: U256) -> (r: U384)
    ensures
        u384_val(r) == u256_val(x) * pow2_64(),
{
    proof {
        lemma_mul_upper_bound(x.lo as int % pow2_64(), pow2_64() - 1, pow2_64(), pow2_64());
        lemma_mul_upper_bound(x.hi as int % pow2_64(), pow2_64() - 1, pow2_64(), pow2_64());
    }
    let r = U384 {
        t0: (x.lo % Q64) * Q64,
        t1: x.lo / Q64 + (x.hi % Q64) * Q64,
        t2: x.hi / Q64,
    };
    proof {
        let q: int = pow2_64();
        lemma_fundamental_div_mod(x.lo as int, q);
        lemma_fundamental_div_mod(x.hi as int, q);
        assert(u384_val(r) == u256_val(x) * q) by (nonlinear_arith)
            requires
                x.lo == q * (x.lo as int / q) + x.lo as int % q,
                x.hi == q * (x.hi as int / q) + x.hi as int % q,
                r.t0 == (x.lo as int % q) * q,
                r.t1 == x.lo as int / q + (x.hi as int % q) * q,
                r.t2 == x.hi as int / q,
                q == pow2_64(),
                pow2_128() == q * q,
                pow2_256() == pow2_128() * pow2_128(),
                u384_val(r) == r.t0 + r.t1 * pow2_128() + r.t2 * pow2_256(),
                u256_val(x) == x.lo + x.hi * pow2_128(),
        ;
    }
    r
}

/// The exact 384-bit product of a value below `2^192` and a 128-bit value.
pub fn u384_mul_u256_u128(x: U256, y: u128) -> (r: U384)
    requires
        x.hi < Q64,
    ensures
        u384_val(r) == u256_val(x) * y,
{
    let low: U256 = mul_wide(x.lo, y);
    let mid: U256 = mul_wide(x.hi, y);
    proof {
        assert(mid.hi < pow2_64()) by (nonlinear_arith)
            requires
                mid.lo + mid.hi * pow2_128() == x.hi * y,
                x.hi < pow2_64(),
                y < pow2_128(),
                mid.lo >= 0,
                mid.hi >= 0,
                pow2_256() == pow2_128() * pow2_128(),
                pow2_128() == pow2_64() * pow2_64(),
        ;
    }
    let (t1, carry) = add128_carry(low.hi, mid.lo);
    let t2: u128 = if carry {
        mid.hi + 1
    } else {
        mid.hi
    };
    let r = U384 { t0: low.lo, t1, t2 };
    proof {
        assert(u384_val(r) == u256_val(x) * y) by (nonlinear_arith)
            requires
                low.lo + low.hi * pow2_128() == x.lo * y,
                mid.lo + mid.hi * pow2_128() == x.hi * y,
                low.hi + mid.lo == t1 + (if carry {
                    pow2_128()
                } else {
                    0
                }),
                t2 == mid.hi + (if carry {
                    1int
                } else {
                    0
                }),
                pow2_256() == pow2_128() * pow2_128(),
                u384_val(r) == low.lo + t1 * pow2_128() + t2 * pow2_256(),
                u256_val(x) == x.lo + x.hi * pow2_128(),
        ;
    }
    r
}

/// Whether `a >= b`, decided limb by limb.
pub fn u384_ge(a: &U384, b: &U384) -> (r: bool)
    ensures
        r <==> u384_val(*a) >= u384_val(*b),
{
    let r = if a.t2 != b.t2 {
        a.t2 > b.t2
    } else if a.t1 != b.t1 {
        a.t1 > b.t1
    } else {
        a.t0 >= b.t0
    };
    proof {
        assert(r <==> u384_val(*a) >= u384_val(*b)) by (nonlinear_arith)
            requires
                r == (if a.t2 != b.t2 {
                    a.t2 > b.t2
                } else if a.t1 != b.t1 {
                    a.t1 > b.t1
                } else {
                    a.t0 >= b.t0
                }),
                u384_val(*a) == a.t0 + a.t1 * pow2_128() + a.t2 * pow2_256(),
                u384_val(*b) == b.t0 + b.t1 * pow2_128() + b.t2 * pow2_256(),
                a.t0 < pow2_128() && a.t1 < pow2_128() && a.t2 < pow2_128(),
                b.t0 < pow2_128() && b.t1 < pow2_128() && b.t2 < pow2_128(),
                pow2_256() == pow2_128() * pow2_128(),
                pow2_128() > 0,
        ;
    }
    r
}

/// Whether `a >= b`, decided limb by limb.
pub fn u256_ge(a: &U256, b: &U256) -> (r: bool)
    ensures
        r <==> u256_val(*a) >= u256_val(*b),
{
    let r = if a.hi != b.hi {
        a.hi > b.hi
    } else {
        a.lo >= b.lo
    };
    proof {
        assert(r <==> u256_val(*a) >= u256_val(*b)) by (nonlinear_arith)
            requires
                r == (if a.hi != b.hi {
                    a.hi > b.hi
                } else {
                    a.lo >= b.lo
                }),
                u256_val(*a) == a.lo + a.hi * pow2_128(),
                u256_val(*b) == b.lo + b.hi * pow2_128(),
                a.lo < pow2_128() && b.lo < pow2_128(),
                pow2_128() > 0,
        ;
    }
    r
}

/// The 256-bit sum, or `None` when it would carry past 256 bits.
pub fn u256_add(a: &U256, b: &U256) -> (r: Option<U256>)
    ensures
        r is Some <==> u256_val(*a) + u256_val(*b) < pow2_256(),
        r is Some ==> u256_val(r->0) == u256_val(*a) + u256_val(*b),
{
    let (lo, carry) = add128_carry(a.lo, b.lo);
    let c: u128 = if carry {
        1
    } else {
        0
    };
    proof {
        assert(u256_val(*a) + u256_val(*b) == lo + (a.hi + b.hi + c) * pow2_128())
            by (nonlinear_arith)
            requires
                u256_val(*a) == a.lo + a.hi * pow2_128(),
                u256_val(*b) == b.lo + b.hi * pow2_128(),
                a.lo + b.lo == lo + c * pow2_128(),
        ;
    }
    if a.hi <= u128::MAX - b.hi && a.hi + b.hi <= u128::MAX - c {
        let hi: u128 = a.hi + b.hi + c;
        proof {
            assert(lo + hi * pow2_128() < pow2_256()) by (nonlinear_arith)
                requires
                    lo < pow2_128(),
                    hi < pow2_128(),
                    pow2_256() == pow2_128() * pow2_128(),
            ;
        }
        Some(U256 { lo, hi })
    } else {
        proof {
            assert(lo + (a.hi + b.hi + c) * pow2_128() >= pow2_256()) by (nonlinear_arith)
                requires
                    lo >= 0,
                    a.hi + b.hi + c >= pow2_128(),
                    pow2_256() == pow2_128() * pow2_128(),
            ;
        }
        None
    }
}

/// The 256-bit value `x * 2^64`.
pub fn u256_shl64_u128(x: u128) -> (r: U256)
    ensures
        u256_val(r) == x * pow2_64(),
{
    proof {
        lemma_mul_upper_bound(x as int % pow2_64(), pow2_64() - 1, pow2_64(), pow2_64());
    }
    let r = U256 { lo: (x % Q64) * Q64, hi: x / Q64 };
    proof {
        lemma_fundamental_div_mod(x as int, pow2_64());
        assert(u256_val(r) == x * pow2_64()) by (nonlinear_arith)
            requires
                x == pow2_64() * (x as int / pow2_64()) + x as int % pow2_64(),
                r.lo == (x as int % pow2_64()) * pow2_64(),
                r.hi == x as int / pow2_64(),
                pow2_128() == pow2_64() * pow2_64(),
                u256_val(r) == r.lo + r.hi * pow2_128(),
        ;
    }
    r
}

/// The integer square root of a 256-bit value: the greatest `r` with
/// `r * r <= n`.
pub fn isqrt_u256(n: &U256) -> (r: u128)
    ensures
        r * r <= u256_val(*n),
        u256_val(*n) < (r + 1) * (r + 1),
{
    let mut r: u128 = 0;
    let mut bit: u128 = HALF;
    let ghost mut k: nat = 127;
    proof {
        assert(u256_val(*n) < pow2_256() && pow2_256() == (0 + 2 * HALF) * (0 + 2 * HALF))
            by (nonlinear_arith)
            requires
                u256_val(*n) == n.lo + n.hi * pow2_128(),
                n.lo < pow2_128() && n.hi < pow2_128(),
                pow2_256() == pow2_128() * pow2_128(),
                pow2_128() == 2 * HALF,
        ;
        lemma_pow2_adds(63, 64);
        lemma2_to64();
        lemma2_to64_rest();
        assert(0x8000_0000_0000_0000 * 0x1_0000_0000_0000_0000
            == 0x8000_0000_0000_0000_0000_0000_0000_0000int) by (nonlinear_arith);
        assert(HALF == pow2(127));
    }
    while bit > 0
        invariant
            r * r <= u256_val(*n),
            bit > 0 ==> bit == pow2(k),
            if bit > 0 {
                u256_val(*n) < (r + 2 * bit) * (r + 2 * bit) && r as int % (2 * bit) == 0 && r + 2
                    * bit <= pow2_128()
            } else {
                u256_val(*n) < (r + 1) * (r + 1)
            },
        decreases bit,
    {
        let ghost rv: int = r as int;
        let ghost bv: int = bit as int;
        proof {
            assert(rv + bv < pow2_128()) by (nonlinear_arith)
                requires
                    rv + 2 * bv <= pow2_128(),
                    bv >= 1,
            ;
        }
        let cand: u128 = r + bit;
        let sq: U256 = mul_wide(cand, cand);
        if u256_ge(n, &sq) {
            r = cand;
        }
        bit = bit / 2;
        proof {
            lemma2_to64();
            if k > 0 {
                lemma_pow2_unfold(k);
                lemma_pow2_pos((k - 1) as nat);
                k = (k - 1) as nat;
            } else {
                assert(bv == 1);
            }
            let rn: int = r as int;
            if bv == 1 {
                assert(u256_val(*n) < (rn + 1) * (rn + 1)) by (nonlinear_arith)
                    requires
                        (rn == rv + 1 && u256_val(*n) < (rv + 2) * (rv + 2)) || (rn == rv
                            && u256_val(*n) < (rv + 1) * (rv + 1)),
                ;
            } else {
                let bh: int = bv / 2;
                assert(u256_val(*n) < (rn + 2 * bh) * (rn + 2 * bh)) by (nonlinear_arith)
                    requires
                        bh >= 1,
                        bv == 2 * bh,
                        (rn == rv + bv && u256_val(*n) < (rv + 2 * bv) * (rv + 2 * bv)) || (rn
                            == rv && u256_val(*n) < (rv + bv) * (rv + bv)),
                ;
                let m: int = rv / (2 * bv);
                lemma_fundamental_div_mod(rv, 2 * bv);
                assert(rv == (2 * m) * (2 * bh)) by (nonlinear_arith)
                    requires
                        bv == 2 * bh,
                        rv == (2 * bv) * m + 0,
                ;
                lemma_mod_multiples_basic(2 * m, 2 * bh);
                if rn == rv + bv {
                    lemma_mod_add_multiples_vanish(rv, 2 * bh);
                }
                assert(rn % (2 * bh) == 0);
                assert(rn + 2 * bh <= pow2_128());
            }
        }
    }
    r
}

/// A bound on a 256-bit value bounds its high half.
pub proof fn lemma_u256_hi_bound(x: U256, bound: int)
    requires
        u256_val(x) < bound * pow2_128(),
        bound >= 0,
    ensures
        x.hi < bound,
{
    assert(x.hi < bound) by (nonlinear_arith)
        requires
            x.lo + x.hi * pow2_128() < bound * pow2_128(),
            x.lo >= 0,
            x.hi >= 0,
            pow2_128() > 0,
    ;
}

/// One limb of a borrowing subtraction.
fn sub128_borrow(a: u128, b: u128, borrow_in: bool) -> (r: (u128, bool))
    ensures
        a - b - (if borrow_in {
            1int
        } else {
            0
        }) == r.0 - (if r.1 {
            pow2_128()
        } else {
            0
        }),
{
    if borrow_in {
        if a > b {
            (a - b - 1, false)
        } else {
            ((u128::MAX - b) + a, true)
        }
    } else {
        if a >= b {
            (a - b, false)
        } else {
            ((u128::MAX - b) + a + 1, true)
        }
    }
}

/// The exact difference of two 384-bit values.
pub fn u384_sub(a: &U384, b: &U384) -> (r: U384)
    requires
        u384_val(*a) >= u384_val(*b),
    ensures
        u384_val(r) == u384_val(*a) - u384_val(*b),
{
    let (t0, borrow0) = sub128_borrow(a.t0, b.t0, false);
    let (t1, borrow1) = sub128_borrow(a.t1, b.t1, borrow0);
    let (t2, borrow2) = sub128_borrow(a.t2, b.t2, borrow1);
    let r = U384 { t0, t1, t2 };
    proof {
        let bor: int = if borrow2 {
            1int
        } else {
            0
        };
        assert(u384_val(r) == u384_val(*a) - u384_val(*b) + bor * (pow2_128() * pow2_256()))
            by (nonlinear_arith)
            requires
                a.t0 - b.t0 == t0 - (if borrow0 {
                    pow2_128()
                } else {
                    0
                }),
                a.t1 - b.t1 - (if borrow0 {
                    1int
                } else {
                    0
                }) == t1 - (if borrow1 {
                    pow2_128()
                } else {
                    0
                }),
                a.t2 - b.t2 - (if borrow1 {
                    1int
                } else {
                    0
                }) == t2 - (if borrow2 {
                    pow2_128()
                } else {
                    0
                }),
                bor == if borrow2 {
                    1int
                } else {
                    0
                },
                pow2_256() == pow2_128() * pow2_128(),
                u384_val(r) == t0 + t1 * pow2_128() + t2 * pow2_256(),
                u384_val(*a) == a.t0 + a.t1 * pow2_128() + a.t2 * pow2_256(),
                u384_val(*b) == b.t0 + b.t1 * pow2_128() + b.t2 * pow2_256(),
        ;
        if borrow2 {
            assert(u384_val(r) < pow2_128() * pow2_256()) by (nonlinear_arith)
                requires
                    u384_val(r) == t0 + t1 * pow2_128() + t2 * pow2_256(),
                    t0 < pow2_128() && t1 < pow2_128() && t2 < pow2_128(),
                    pow2_256() == pow2_128() * pow2_128(),
                    pow2_128() > 0,
            ;
            assert(false);
        }
    }
    r
}

/// `2^127`, the top bit of a 128-bit limb.
const HALF: u128 = 0x8000_0000_0000_0000_0000_0000_0000_0000;

/// Halves a 384-bit value, rounding down.
pub fn u384_shr1(a: &U384) -> (r: U384)
    ensures
        u384_val(r) == u384_val(*a) / 2,
{
    let r = U384 {
        t0: a.t0 / 2 + (a.t1 % 2) * HALF,
        t1: a.t1 / 2 + (a.t2 % 2) * HALF,
        t2: a.t2 / 2,
    };
    proof {
        lemma_fundamental_div_mod(a.t0 as int, 2);
        lemma_fundamental_div_mod(a.t1 as int, 2);
        lemma_fundamental_div_mod(a.t2 as int, 2);
        assert(u384_val(*a) == 2 * u384_val(r) + a.t0 as int % 2) by (nonlinear_arith)
            requires
                a.t0 == 2 * (a.t0 as int / 2) + a.t0 as int % 2,
                a.t1 == 2 * (a.t1 as int / 2) + a.t1 as int % 2,
                a.t2 == 2 * (a.t2 as int / 2) + a.t2 as int % 2,
                r.t0 == a.t0 as int / 2 + (a.t1 as int % 2) * (pow2_128() / 2),
                r.t1 == a.t1 as int / 2 + (a.t2 as int % 2) * (pow2_128() / 2),
                r.t2 == a.t2 as int / 2,
                pow2_128() == 0x8000_0000_0000_0000_0000_0000_0000_0000 * 2,
                pow2_256() == pow2_128() * pow2_128(),
                u384_val(r) == r.t0 + r.t1 * pow2_128() + r.t2 * pow2_256(),
                u384_val(*a) == a.t0 + a.t1 * pow2_128() + a.t2 * pow2_256(),
        ;
        lemma_fundamental_div_mod_converse(
            u384_val(*a),
            2,
            u384_val(r),
            a.t0 as int % 2,
        );
    }
    r
}

/// `floor(n / d)` for a 384-bit dividend and a 256-bit divisor, or `None`
/// when the quotient does not fit in 128 bits.
pub fn div_384_by_256(n: &U384, d: &U256) -> (r: Option<u128>)
    requires
        u256_val(*d) > 0,
    ensures
        r is Some <==> u384_val(*n) / u256_val(*d) < pow2_128(),
        r is Some ==> r->0 == u384_val(*n) / u256_val(*d),
{
    let ghost nv: int = u384_val(*n);
    let ghost dv: int = u256_val(*d);
    let mut dd = U384 { t0: 0, t1: d.lo, t2: d.hi };
    proof {
        assert(u384_val(dd) == dv * pow2_128()) by (nonlinear_arith)
            requires
                u384_val(dd) == 0 + d.lo * pow2_128() + d.hi * pow2_256(),
                dv == d.lo + d.hi * pow2_128(),
                pow2_256() == pow2_128() * pow2_128(),
        ;
    }
    if u384_ge(n, &dd) {
        proof {
            lemma_div_multiples_vanish(pow2_128(), dv);
            lemma_div_is_ordered(dv * pow2_128(), nv, dv);
            assert(dv * pow2_128() == pow2_128() * dv);
        }
        return None;
    }
    let mut rem = n.clone();
    let mut q: u128 = 0;
    let mut i: usize = 0;
    proof {
        lemma_pow2_adds(64, 64);
        lemma2_to64();
    }
    while i < 128
        invariant
            0 <= i <= 128,
            u256_val(*d) == dv,
            dv > 0,
            pow2(128) == pow2_128(),
            u384_val(dd) == dv * pow2((128 - i) as nat),
            nv == q * (dv * pow2((128 - i) as nat)) + u384_val(rem),
            u384_val(rem) < dv * pow2((128 - i) as nat),
            q < pow2(i as nat),
        decreases 128 - i,
    {
        let ghost pk: int = pow2((128 - i) as nat) as int;
        let ghost pk1: int = pow2((127 - i) as nat) as int;
        proof {
            lemma_pow2_pos((127 - i) as nat);
            lemma_pow2_unfold((128 - i) as nat);
            assert((dv * pk) / 2 == dv * pk1) by (nonlinear_arith)
                requires
                    pk == 2 * pk1,
                    dv > 0,
                    pk1 > 0,
            ;
        }
        dd = u384_shr1(&dd);
        let ghost qold: int = q as int;
        proof {
            lemma_pow2_pos(i as nat);
            lemma_pow2_unfold((i + 1) as nat);
            if i + 1 < 128 {
                lemma_pow2_strictly_increases((i + 1) as nat, 128);
            }
            assert(2 * qold + 1 < pow2_128());
        }
        if u384_ge(&rem, &dd) {
            rem = u384_sub(&rem, &dd);
            q = q * 2 + 1;
            proof {
                assert(nv == q * (dv * pk1) + u384_val(rem) && u384_val(rem) < dv * pk1)
                    by (nonlinear_arith)
                    requires
                        nv == qold * (dv * pk) + u384_val(rem) + dv * pk1,
                        u384_val(rem) + dv * pk1 < dv * pk,
                        q == 2 * qold + 1,
                        pk == 2 * pk1,
                ;
            }
        } else {
            q = q * 2;
            proof {
                assert(nv == q * (dv * pk1) + u384_val(rem)) by (nonlinear_arith)
                    requires
                        nv == qold * (dv * pk) + u384_val(rem),
                        q == 2 * qold,
                        pk == 2 * pk1,
                ;
            }
        }
        i = i + 1;
    }
    proof {
        assert(dv * pow2(0) == dv) by (nonlinear_arith)
            requires
                pow2(0) == 1,
        ;
        lemma_fundamental_div_mod_converse(nv, dv, q as int, u384_val(rem));
    }
    Some(q)
}

} // verus!
