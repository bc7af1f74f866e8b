//! The closed set of domain error conditions.

use vstd::prelude::*;

verus! {

/// Every failure an engine operation can report.  All failures are
/// detected before any state is mutated, so an error always leaves the
/// pool and its tick records exactly as they were.
#[derive(Clone, Copy, Debug, PartialEq, Eq, Structural)]
pub enum CLMMError {
    /// The two asset mints of a pool must differ.
    SameTokenMint,
    /// A supplied mint does not match the pool's record.
    InvalidTokenMint,
    /// A checked multiplication, division or width cast failed.
    ArithmeticOverflow,
    /// The pool holds no redeemable value.
    PoolEmpty,
    /// The caller holds fewer liquidity shares than it tries to redeem.
    InsufficientLPTokens,
    /// A quantity that must be positive was zero.
    ZeroAmount,
    /// The pool has no active liquidity to trade against.
    InsufficientFundsInPool,
    /// A result fell below the caller's stated minimum.
    SlippageExceeded,
    /// A vault account does not match the pool's record.
    InvalidVault,
    /// A maximum bound was below the paired minimum bound.
    QuantityMismatch,
    /// A range's upper tick must lie strictly above its lower tick.
    TickMismatch,
    /// A tick index must be a multiple of the pool's tick spacing.
    UnalignedTick,
    /// A tick record does not carry the index the caller named.
    InvalidTickIndex,
    /// A swap needs the boundary tick records it will walk.
    MissingTickAccounts,
    /// A total no longer fits the asset's 64-bit unit.
    AmountTooLarge,
    /// A swap that produces no output is refused.
    ZeroSwapOutput,
}

} // verus!
