use vstd::prelude::*;
use crate::arith::{lemma_multiple_of_mod, multiple_of, word_modulus};

verus! {

/// Synchronizes room ticks across the fleet.
///
/// Each room has a tick counter. The clock tracks global time and emits a
/// synchronization pulse every `sync_interval` ticks.
#[derive(Debug, Clone)]
pub struct TideClock {
    /// Current global tick.
    pub tick: u64,
    /// Tick interval between synchronization pulses.
    pub sync_interval: u64,
}

/// A tick is a synchronization tick when it is positive and a multiple of
/// the interval.
pub open spec fn sync_at(tick: int, interval: int) -> bool {
    tick > 0 && tick % interval == 0
}

impl TideClock {
    pub open spec fn spec_is_sync_tick(self) -> bool {
        sync_at(self.tick as int, self.sync_interval as int)
    }

    /// Ticks until the next synchronization pulse; a full interval when the
    /// clock stands on one, and zero for a clock without interval.
    pub open spec fn spec_ticks_to_sync(self) -> int {
        if self.sync_interval == 0 {
            0
        } else if self.tick % self.sync_interval == 0 {
            self.sync_interval as int
        } else {
            self.sync_interval - self.tick % self.sync_interval
        }
    }

    pub fn new(sync_interval: u64) -> (c: Self)
        ensures
            c.tick == 0,
            c.sync_interval == sync_interval,
    {
        Self { tick: 0, sync_interval }
    }

    /// Advance by one tick.
    pub fn advance(&mut self)
        requires
            old(self).tick < u64::MAX,
        ensures
            final(self).tick == old(self).tick + 1,
            final(self).sync_interval == old(self).sync_interval,
    {
        self.tick += 1;
    }

    /// Advance by n ticks.
    pub fn advance_by(&mut self, n: u64)
        requires
            old(self).tick + n <= u64::MAX,
        ensures
            final(self).tick == old(self).tick + n,
            final(self).sync_interval == old(self).sync_interval,
    {
        self.tick += n;
    }

    /// Is this a synchronization tick?
    pub fn is_sync_tick(&self) -> (b: bool)
        requires
            self.tick > 0 ==> self.sync_interval > 0,
        ensures
            b == self.spec_is_sync_tick(),
    {
        self.tick > 0 && self.tick % self.sync_interval == 0
    }

    /// Ticks until next sync.
    pub fn ticks_to_sync(&self) -> (r: u64)
        ensures
            r == self.spec_ticks_to_sync(),
    {
        if self.sync_interval == 0 {
            return 0;
        }
        let remainder = self.tick % self.sync_interval;
        if remainder == 0 {
            self.sync_interval
        } else {
            self.sync_interval - remainder
        }
    }

    /// The local tick of a room that runs `room_offset` ticks ahead of the
    /// global clock, wrapping around at the end of the `u64` range.
    pub fn room_tick(&self, room_offset: u64) -> (r: u64)
        ensures
            r == (self.tick + room_offset) % word_modulus(),
    {
        let r = self.tick.wrapping_add(room_offset);
        assert(r == (self.tick + room_offset) % word_modulus()) by {
            let s: int = self.tick + room_offset;
            if s > u64::MAX {
                assert(s - word_modulus() < word_modulus());
                vstd::arithmetic::div_mod::lemma_fundamental_div_mod_converse(
                    s,
                    word_modulus(),
                    1,
                    s - word_modulus(),
                );
            } else {
                vstd::arithmetic::div_mod::lemma_small_mod(s as nat, word_modulus() as nat);
            }
        }
        r
    }

    /// Reset the clock.
    pub fn reset(&mut self)
        ensures
            final(self).tick == 0,
            final(self).sync_interval == old(self).sync_interval,
    {
        self.tick = 0;
    }
}

/// Counting down: for a clock with a positive interval, the countdown lies
/// between one tick and a full interval, the clock advanced by it stands on a
/// synchronization tick, and no tick in between is one.
pub proof fn lemma_ticks_to_sync_reaches_sync(c: TideClock)
    requires
        c.sync_interval > 0,
    ensures
        1 <= c.spec_ticks_to_sync() <= c.sync_interval,
        sync_at(c.tick + c.spec_ticks_to_sync(), c.sync_interval as int),
        forall|d: int|
            0 < d < c.spec_ticks_to_sync() ==> !#[trigger] sync_at(c.tick + d, c.sync_interval as int),
{
    let n = c.sync_interval as int;
    let t = c.tick as int;
    let k = c.spec_ticks_to_sync();
    vstd::arithmetic::div_mod::lemma_fundamental_div_mod(t, n);
    let q = t / n;
    let r = t % n;
    assert(t == q * n + r) by (nonlinear_arith)
        requires
            t == n * q + r,
    ;
    assert(t + k == (q + 1) * n) by (nonlinear_arith)
        requires
            t == q * n + r,
            k == (if r == 0 { n } else { n - r }),
            r == 0 ==> q * n == t,
    ;
    vstd::arithmetic::div_mod::lemma_fundamental_div_mod_converse(t + k, n, q + 1, 0);
    assert forall|d: int| 0 < d < k implies !#[trigger] sync_at(t + d, n) by {
        vstd::arithmetic::div_mod::lemma_fundamental_div_mod_converse(t + d, n, q, r + d);
    }
}

/// A synchronization tick is exactly a positive whole multiple of the
/// interval.
pub proof fn lemma_sync_tick_is_positive_multiple(c: TideClock)
    requires
        c.sync_interval > 0,
    ensures
        c.spec_is_sync_tick() <==> (c.tick > 0 && multiple_of(c.tick as int, c.sync_interval as int)),
{
    lemma_multiple_of_mod(c.tick as int, c.sync_interval as int);
}

} // verus!
