//! A concentrated-liquidity market-maker pricing and exchange engine.
//!
//! The engine keeps a pool's price as a position on a discretized
//! exponential price grid ("ticks"), lets liquidity providers commit
//! capital to bounded price ranges, and executes trades by walking the
//! price curve across tick boundaries, updating active liquidity and
//! issued liquidity shares as it goes.
//!
//! All prices are unsigned Q64.64 fixed-point square-root prices; all
//! products and quotients are evaluated with full-width intermediates so
//! that no multiplication or division ever wraps silently.

pub mod error;
pub mod liquidity_math;
pub mod pool_ops;
pub mod state;
pub mod swap;
pub mod swap_math;
pub mod tick_math;
pub mod wide;
