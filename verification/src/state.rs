//! Pool state and the per-pool tick registry.
//!
//! A `Pool` holds the current square-root price, the tick consistent with
//! it, the liquidity active at that tick, and the outstanding liquidity
//! shares.  A `TickRegistry` holds one record per initialized tick; the
//! signed `liquidity_net` entries of a registry always sum to zero, since
//! every range contributes `+liquidity` at its lower boundary and
//! `-liquidity` at its upper boundary.

use vstd::prelude::*;
use crate::error::CLMMError;
use crate::tick_math::{
    tick_in_range, tick_sqrt_price, tick_to_sqrt_price_x64, MAX_SQRT_PRICE_X64,
};

verus! {

/// One initialized tick: its index, its cached codec price, and the net
/// liquidity applied when the price crosses it moving upward.
#[derive(Clone, Copy, PartialEq, Eq, Structural, Debug)]
pub struct Tick {
    pub index: i32,
    pub sqrt_price_x64: u128,
    pub liquidity_net: i128,
}

/// Whether a tick index sits on the pool's spacing grid.
pub open spec fn tick_aligned(index: int, spacing: int) -> bool {
    (if index >= 0 {
        index
    } else {
        -index
    }) % spacing == 0
}

/// A well-formed tick record: representable index, the codec's price for
/// that index cached exactly.
pub open spec fn tick_wf(t: Tick) -> bool {
    &&& tick_in_range(t.index as int)
    &&& t.sqrt_price_x64 == tick_sqrt_price(t.index as int)
    &&& 1 <= t.sqrt_price_x64
}

/// The record with the given index, if one exists (searching from the
/// back; a well-formed registry has at most one).
pub open spec fn find_tick(s: Seq<Tick>, index: int) -> Option<Tick>
    decreases s.len(),
{
    if s.len() == 0 {
        None
    } else if s.last().index == index {
        Some(s.last())
    } else {
        find_tick(s.drop_last(), index)
    }
}

/// The sum of all `liquidity_net` entries.
pub open spec fn sum_nets(s: Seq<Tick>) -> int
    decreases s.len(),
{
    if s.len() == 0 {
        0
    } else {
        sum_nets(s.drop_last()) + s.last().liquidity_net
    }
}

/// A found record sits in the sequence.
proof fn lemma_find_tick_some(s: Seq<Tick>, index: int)
    requires
        find_tick(s, index) is Some,
    ensures
        exists|i: int| 0 <= i < s.len() && s[i] == find_tick(s, index)->0 && s[i].index == index,
    decreases s.len(),
{
    if s.last().index != index {
        lemma_find_tick_some(s.drop_last(), index);
        let i = choose|i: int|
            0 <= i < s.drop_last().len() && s.drop_last()[i] == find_tick(s.drop_last(), index)->0
                && s.drop_last()[i].index == index;
        assert(s[i] == s.drop_last()[i]);
    }
}

/// If no record is found, no record carries the index.
proof fn lemma_find_tick_none(s: Seq<Tick>, index: int)
    requires
        find_tick(s, index) is None,
    ensures
        forall|i: int| 0 <= i < s.len() ==> s[i].index != index,
    decreases s.len(),
{
    if s.len() > 0 {
        lemma_find_tick_none(s.drop_last(), index);
        assert forall|i: int| 0 <= i < s.len() implies s[i].index != index by {
            if i < s.len() - 1 {
                assert(s.drop_last()[i].index != index);
            }
        }
    }
}

/// Under uniqueness of indices, any record with the index is the found
/// one.
proof fn lemma_find_tick_at(s: Seq<Tick>, i: int)
    requires
        forall|x: int, y: int| 0 <= x < y < s.len() ==> s[x].index != s[y].index,
        0 <= i < s.len(),
    ensures
        find_tick(s, s[i].index as int) == Some(s[i]),
    decreases s.len(),
{
    if i == s.len() - 1 {
        assert(s.last() == s[i]);
    } else {
        assert(s.last().index != s[i].index);
        assert(s.drop_last()[i] == s[i]);
        lemma_find_tick_at(s.drop_last(), i);
    }
}

/// Updating one position changes only that index's record.
proof fn lemma_find_tick_update(s: Seq<Tick>, i: int, t: Tick, index: int)
    requires
        0 <= i < s.len(),
        t.index == s[i].index,
        forall|x: int, y: int| 0 <= x < y < s.len() ==> s[x].index != s[y].index,
    ensures
        find_tick(s.update(i, t), index) == if s[i].index == index {
            Some(t)
        } else {
            find_tick(s, index)
        },
    decreases s.len(),
{
    let su = s.update(i, t);
    if i == s.len() - 1 {
        assert(su.last() == t);
        assert(su.drop_last() =~= s.drop_last());
    } else {
        assert(su.last() == s.last());
        assert(su.drop_last() =~= s.drop_last().update(i, t));
        lemma_find_tick_update(s.drop_last(), i, t, index);
    }
}

/// Updating one position shifts the net sum by exactly the difference.
proof fn lemma_sum_nets_update(s: Seq<Tick>, i: int, t: Tick)
    requires
        0 <= i < s.len(),
    ensures
        sum_nets(s.update(i, t)) == sum_nets(s) - s[i].liquidity_net + t.liquidity_net,
    decreases s.len(),
{
    let su = s.update(i, t);
    if i == s.len() - 1 {
        assert(su.last() == t);
        assert(su.drop_last() =~= s.drop_last());
    } else {
        assert(su.last() == s.last());
        assert(su.drop_last() =~= s.drop_last().update(i, t));
        lemma_sum_nets_update(s.drop_last(), i, t);
    }
}

/// Appending a record adds its net to the sum.
proof fn lemma_sum_nets_push(s: Seq<Tick>, t: Tick)
    ensures
        sum_nets(s.push(t)) == sum_nets(s) + t.liquidity_net,
{
    assert(s.push(t).drop_last() =~= s);
}

/// Liquidity-net conservation: however ranges have been opened and
/// closed, a well-formed registry's `liquidity_net` entries sum to zero,
/// since every operation moves equal and opposite deltas through
/// `apply_range_delta`.
pub proof fn lemma_liquidity_net_conservation(reg: TickRegistry)
    requires
        reg.wf(),
    ensures
        sum_nets(reg.ticks@) == 0,
{
}

/// The per-pool registry of initialized ticks.
pub struct TickRegistry {
    pub ticks: Vec<Tick>,
}

impl TickRegistry {
    /// Well-formedness: unique indices, every record cached correctly,
    /// and the liquidity-net entries summing to zero — the conservation
    /// invariant every range operation preserves.
    pub open spec fn wf(self) -> bool {
        &&& forall|x: int, y: int|
            0 <= x < y < self.ticks@.len() ==> self.ticks@[x].index != self.ticks@[y].index
        &&& forall|i: int| 0 <= i < self.ticks@.len() ==> tick_wf(#[trigger] self.ticks@[i])
        &&& sum_nets(self.ticks@) == 0
    }

    /// The record at a tick index, if initialized.
    pub open spec fn spec_find(self, index: int) -> Option<Tick> {
        find_tick(self.ticks@, index)
    }

    /// Every record a well-formed registry hands out is itself
    /// well-formed and carries the index it was found under.
    pub proof fn lemma_found_tick_wf(self, index: int)
        requires
            self.wf(),
            self.spec_find(index) is Some,
        ensures
            tick_wf(self.spec_find(index)->0),
            self.spec_find(index)->0.index == index,
    {
        lemma_find_tick_some(self.ticks@, index);
    }

    /// An empty registry.
    pub fn new() -> (r: Self)
        ensures
            r.wf(),
            r.ticks@.len() == 0,
            forall|idx: int| r.spec_find(idx) is None,
    {
        TickRegistry { ticks: Vec::new() }
    }

    /// The position of the record with the given index.
    fn find_index(&self, index: i32) -> (r: Option<usize>)
        requires
            self.wf(),
        ensures
            r is Some ==> r->0 < self.ticks@.len() && self.ticks@[r->0 as int].index == index
                && self.spec_find(index as int) == Some(self.ticks@[r->0 as int]),
            r is None ==> self.spec_find(index as int) is None,
    {
        let n = self.ticks.len();
        let mut i: usize = 0;
        while i < n
            invariant
                0 <= i <= n,
                n == self.ticks@.len(),
                self.wf(),
                forall|j: int| 0 <= j < i ==> self.ticks@[j].index != index,
            decreases n - i,
        {
            if self.ticks[i].index == index {
                proof {
                    lemma_find_tick_at(self.ticks@, i as int);
                }
                return Some(i);
            }
            i = i + 1;
        }
        proof {
            if self.spec_find(index as int) is Some {
                lemma_find_tick_some(self.ticks@, index as int);
            }
        }
        None
    }

    /// Reads a tick record by index.
    pub fn get_tick(&self, index: i32) -> (r: Option<Tick>)
        requires
            self.wf(),
        ensures
            r == self.spec_find(index as int),
    {
        match self.find_index(index) {
            Some(i) => Some(self.ticks[i]),
            None => None,
        }
    }

    /// Idempotently ensures a record exists at `index`, caching its codec
    /// price on first creation.
    ///
    /// Fails with `UnalignedTick` when the index is not a multiple of the
    /// tick spacing, and with `ArithmeticOverflow` when the index is
    /// outside the representable band.  Failure leaves the registry
    /// untouched.
    pub fn touch_tick(&mut self, index: i32, tick_spacing: i32) -> (r: Result<(), CLMMError>)
        requires
            old(self).wf(),
            tick_spacing >= 1,
        ensures
            final(self).wf(),
            r is Ok <==> tick_aligned(index as int, tick_spacing as int) && tick_in_range(
                index as int,
            ),
            r is Ok ==> (final(self).spec_find(index as int) matches Some(t) && t.index == index
                && t.liquidity_net == (match old(self).spec_find(index as int) {
                Some(o) => o.liquidity_net as int,
                None => 0,
            })),
            r is Ok ==> forall|idx: int|
                idx != index as int ==> final(self).spec_find(idx) == old(self).spec_find(idx),
            r is Err ==> *final(self) == *old(self),
            r is Err ==> (r->Err_0 == CLMMError::UnalignedTick <==> !tick_aligned(
                index as int,
                tick_spacing as int,
            )),
            r is Err ==> r->Err_0 == CLMMError::UnalignedTick || r->Err_0
                == CLMMError::ArithmeticOverflow,
    {
        let mag: u32 = if index >= 0 {
            index as u32
        } else {
            (-(index as i64)) as u32
        };
        if mag % (tick_spacing as u32) != 0 {
            return Err(CLMMError::UnalignedTick);
        }
        let price = match tick_to_sqrt_price_x64(index) {
            Ok(p) => p,
            Err(_) => {
                return Err(CLMMError::ArithmeticOverflow);
            },
        };
        proof {
            crate::tick_math::lemma_tick_sqrt_price_pos(index as int);
        }
        match self.find_index(index) {
            Some(_) => Ok(()),
            None => {
                proof {
                    lemma_find_tick_none(self.ticks@, index as int);
                    lemma_sum_nets_push(self.ticks@, Tick { index, sqrt_price_x64: price, liquidity_net: 0 });
                }
                let t = Tick { index, sqrt_price_x64: price, liquidity_net: 0 };
                self.ticks.push(t);
                proof {
                    assert(self.ticks@.last() == t);
                    assert(self.ticks@.drop_last() =~= old(self).ticks@);
                    assert forall|idx: int|
                        idx != index as int implies self.spec_find(idx) == old(self).spec_find(
                        idx,
                    ) by {
                        assert(self.ticks@.drop_last() =~= old(self).ticks@);
                    }
                }
                Ok(())
            },
        }
    }

    /// Applies a range's liquidity delta: `+delta` at the lower boundary
    /// and `-delta` at the upper one, keeping the registry's net sum at
    /// zero.  Both records must already exist.
    ///
    /// Fails with `InvalidTickIndex` when a boundary record is missing
    /// and with `ArithmeticOverflow` when a net would leave the signed
    /// 128-bit range.  Failure leaves the registry untouched.
    pub fn apply_range_delta(
        &mut self,
        tick_lower: i32,
        tick_upper: i32,
        liquidity_delta: i128,
    ) -> (r: Result<(), CLMMError>)
        requires
            old(self).wf(),
            tick_lower != tick_upper,
        ensures
            final(self).wf(),
            r is Ok <==> old(self).spec_find(tick_lower as int) is Some && old(self).spec_find(
                tick_upper as int,
            ) is Some && i128::MIN <= old(self).spec_find(tick_lower as int)->0.liquidity_net
                + liquidity_delta <= i128::MAX && i128::MIN <= old(self).spec_find(
                tick_upper as int,
            )->0.liquidity_net - liquidity_delta <= i128::MAX,
            r is Ok ==> (final(self).spec_find(tick_lower as int) matches Some(lt) && lt.index
                == tick_lower && lt.sqrt_price_x64 == old(self).spec_find(
                tick_lower as int,
            )->0.sqrt_price_x64 && lt.liquidity_net == old(self).spec_find(
                tick_lower as int,
            )->0.liquidity_net + liquidity_delta),
            r is Ok ==> (final(self).spec_find(tick_upper as int) matches Some(ut) && ut.index
                == tick_upper && ut.sqrt_price_x64 == old(self).spec_find(
                tick_upper as int,
            )->0.sqrt_price_x64 && ut.liquidity_net == old(self).spec_find(
                tick_upper as int,
            )->0.liquidity_net - liquidity_delta),
            r is Ok ==> forall|idx: int|
                idx != tick_lower as int && idx != tick_upper as int ==> final(self).spec_find(idx)
                    == old(self).spec_find(idx),
            r is Err ==> *final(self) == *old(self),
            r is Err ==> (r->Err_0 == CLMMError::InvalidTickIndex <==> old(self).spec_find(
                tick_lower as int,
            ) is None || old(self).spec_find(tick_upper as int) is None),
            r is Err ==> r->Err_0 == CLMMError::InvalidTickIndex || r->Err_0
                == CLMMError::ArithmeticOverflow,
    {
        let li = match self.find_index(tick_lower) {
            Some(i) => i,
            None => {
                return Err(CLMMError::InvalidTickIndex);
            },
        };
        let ui = match self.find_index(tick_upper) {
            Some(i) => i,
            None => {
                return Err(CLMMError::InvalidTickIndex);
            },
        };
        let lt = self.ticks[li];
        let ut = self.ticks[ui];
        let new_lower_net = match add_i128_checked(lt.liquidity_net, liquidity_delta) {
            Some(v) => v,
            None => {
                return Err(CLMMError::ArithmeticOverflow);
            },
        };
        let new_upper_net = match sub_i128_checked(ut.liquidity_net, liquidity_delta) {
            Some(v) => v,
            None => {
                return Err(CLMMError::ArithmeticOverflow);
            },
        };
        let new_lt = Tick { index: lt.index, sqrt_price_x64: lt.sqrt_price_x64, liquidity_net: new_lower_net };
        let new_ut = Tick { index: ut.index, sqrt_price_x64: ut.sqrt_price_x64, liquidity_net: new_upper_net };
        proof {
            assert(li != ui);
            lemma_sum_nets_update(self.ticks@, li as int, new_lt);
            lemma_find_tick_update(self.ticks@, li as int, new_lt, tick_lower as int);
            lemma_find_tick_update(self.ticks@, li as int, new_lt, tick_upper as int);
            assert forall|idx: int| true implies find_tick(
                self.ticks@.update(li as int, new_lt),
                idx,
            ) == (if idx == tick_lower as int {
                Some(new_lt)
            } else {
                find_tick(self.ticks@, idx)
            }) by {
                lemma_find_tick_update(self.ticks@, li as int, new_lt, idx);
            }
        }
        self.ticks[li] = new_lt;
        proof {
            let s1 = self.ticks@;
            lemma_sum_nets_update(s1, ui as int, new_ut);
            assert forall|idx: int| true implies find_tick(s1.update(ui as int, new_ut), idx) == (
            if idx == tick_upper as int {
                Some(new_ut)
            } else {
                find_tick(s1, idx)
            }) by {
                lemma_find_tick_update(s1, ui as int, new_ut, idx);
            }
        }
        self.ticks[ui] = new_ut;
        Ok(())
    }
}

/// `a + b` within the signed 128-bit range, else `None`.
fn add_i128_checked(a: i128, b: i128) -> (r: Option<i128>)
    ensures
        r is Some <==> i128::MIN <= a + b <= i128::MAX,
        r is Some ==> r->0 == a + b,
{
    if b >= 0 {
        if a <= i128::MAX - b {
            Some(a + b)
        } else {
            None
        }
    } else {
        if a >= i128::MIN - b {
            Some(a + b)
        } else {
            None
        }
    }
}

/// `a - b` within the signed 128-bit range, else `None`.
fn sub_i128_checked(a: i128, b: i128) -> (r: Option<i128>)
    ensures
        r is Some <==> i128::MIN <= a - b <= i128::MAX,
        r is Some ==> r->0 == a - b,
{
    if b <= 0 {
        if a <= i128::MAX + b {
            Some(a - b)
        } else {
            None
        }
    } else {
        if a >= i128::MIN + b {
            Some(a - b)
        } else {
            None
        }
    }
}

/// One pool of an ordered asset pair.
pub struct Pool {
    pub mint_a: u64,
    pub mint_b: u64,
    pub vault_a: u64,
    pub vault_b: u64,
    pub lp_mint: u64,
    pub pool_authority: u64,
    pub sqrt_price_x64: u128,
    pub active_liquidity: u128,
    pub total_lp_issued: u64,
    pub current_tick: i32,
    pub tick_spacing: i32,
}

impl Pool {
    /// Well-formedness: distinct mints, positive spacing, a price inside
    /// the representable band, and `current_tick` the codec floor of the
    /// price — the two are always mutually consistent.
    pub open spec fn wf(self) -> bool {
        &&& self.mint_a != self.mint_b
        &&& self.tick_spacing >= 1
        &&& 1 <= self.sqrt_price_x64 <= MAX_SQRT_PRICE_X64
        &&& tick_in_range(self.current_tick as int)
        &&& tick_sqrt_price(self.current_tick as int) <= self.sqrt_price_x64
        &&& self.sqrt_price_x64 < tick_sqrt_price(self.current_tick as int + 1)
    }
}

} // verus!
