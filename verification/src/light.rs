use vstd::prelude::*;
use crate::ternary::Ternary;
use crate::arith::{count_below, lemma_count_interval, lemma_count_outside};

verus! {

/// Day/night resource management for the fleet.
///
/// Resources follow a cycle: active (day) and reduced (night) phases.
/// Ternary states map to resource levels: Positive = full, Zero = reduced,
/// Negative = minimal.
#[derive(Debug, Clone)]
pub struct LightCycle {
    /// Length of a full day/night cycle in ticks.
    pub cycle_length: u64,
    /// Ticks at which day starts (within the cycle).
    pub day_start: u64,
    /// Ticks at which day ends (within the cycle).
    pub day_end: u64,
}

/// Distance between two naturals.
pub open spec fn distance(a: int, b: int) -> int {
    if a >= b {
        a - b
    } else {
        b - a
    }
}

/// Distance between two places of a cycle of length `n`, going round the
/// cycle whichever way is shorter.
pub open spec fn cyclic_distance(a: int, b: int, n: int) -> int {
    let d = distance(a, b) % n;
    if d <= n - d {
        d
    } else {
        n - d
    }
}

/// Distance from a place of a cycle of length `n` to a boundary: round the
/// cycle for a boundary that lies in the cycle (up to `last`), in a straight
/// line for one beyond it.
pub open spec fn boundary_distance(phase: int, b: int, n: int, last: int) -> int {
    if b <= last {
        cyclic_distance(phase, b, n)
    } else {
        distance(phase, b)
    }
}

impl LightCycle {
    /// A cycle as `new` makes it: positive length, day starting inside the
    /// cycle and ending no later than its end.
    pub open spec fn is_regular(self) -> bool {
        &&& self.cycle_length >= 1
        &&& self.day_start < self.cycle_length
        &&& self.day_end <= self.cycle_length
    }

    /// Day at a place in the cycle: from the start up to, not including, the
    /// end; a start after the end wraps round the end of the cycle.
    pub open spec fn day_at_phase(self, phase: int) -> bool {
        if self.day_start <= self.day_end {
            self.day_start <= phase < self.day_end
        } else {
            phase >= self.day_start || phase < self.day_end
        }
    }

    /// The place of a tick in the cycle.
    pub open spec fn phase_at(self, t: int) -> int {
        t % (self.cycle_length as int)
    }

    pub open spec fn phase_of(self, tick: u64) -> int {
        self.phase_at(tick as int)
    }

    /// Day at a tick.
    pub open spec fn day_at(self, t: int) -> bool {
        self.day_at_phase(self.phase_at(t))
    }

    /// Full resources by day; reduced in the night ticks within one tick of
    /// the day's start or end (twilight), measured round the cycle for a
    /// bound up to the cycle's length; minimal otherwise.
    pub open spec fn level_at(self, t: int) -> Ternary {
        let phase = self.phase_at(t);
        let n = self.cycle_length as int;
        if self.day_at_phase(phase) {
            Ternary::Positive
        } else if boundary_distance(phase, self.day_start as int, n, n) <= 1 || boundary_distance(
            phase,
            self.day_end as int,
            n,
            n,
        ) <= 1 {
            Ternary::Zero
        } else {
            Ternary::Negative
        }
    }

    pub open spec fn spec_is_day(self, tick: u64) -> bool {
        self.day_at_phase(self.phase_of(tick))
    }

    pub open spec fn spec_resource_level(self, tick: u64) -> Ternary {
        self.level_at(tick as int)
    }

    /// Ticks until the day next starts; a full cycle when it starts now.
    pub open spec fn spec_ticks_to_day(self, tick: u64) -> int {
        if self.phase_of(tick) < self.day_start {
            self.day_start - self.phase_of(tick)
        } else {
            self.cycle_length - self.phase_of(tick) + self.day_start
        }
    }

    /// Ticks of day in one cycle, as the day's bounds give it.
    pub open spec fn spec_day_length(self) -> int {
        if self.day_start <= self.day_end {
            self.day_end - self.day_start
        } else {
            self.cycle_length - self.day_start + self.day_end
        }
    }

    /// The length of the cycle must be positive: the start of the day is
    /// bounded by the last tick of the cycle.
    pub fn new(cycle_length: u64, day_start: u64, day_end: u64) -> (c: Self)
        requires
            cycle_length >= 1,
        ensures
            c.cycle_length == cycle_length,
            c.day_start == (if day_start < cycle_length - 1 { day_start as int } else { cycle_length - 1 }),
            c.day_end == (if day_end < cycle_length { day_end } else { cycle_length }),
            c.is_regular(),
    {
        Self {
            cycle_length: cycle_length.max(1),
            day_start: day_start.min(cycle_length - 1),
            day_end: day_end.min(cycle_length),
        }
    }

    /// Is it day at the given tick?
    pub fn is_day(&self, tick: u64) -> (b: bool)
        requires
            self.cycle_length > 0,
        ensures
            b == self.spec_is_day(tick),
    {
        let phase = tick % self.cycle_length;
        if self.day_start <= self.day_end {
            phase >= self.day_start && phase < self.day_end
        } else {
            // Wraps around (e.g., day_start=18, day_end=6 → night spans midnight)
            phase >= self.day_start || phase < self.day_end
        }
    }

    /// Resource level at the given tick as a ternary value.
    pub fn resource_level(&self, tick: u64) -> (r: Ternary)
        requires
            self.cycle_length > 0,
        ensures
            r == self.spec_resource_level(tick),
    {
        if self.is_day(tick) {
            Ternary::Positive
        } else {
            let phase = tick % self.cycle_length;
            // Twilight zones near transitions
            let near_day_start = boundary_diff(
                phase,
                self.day_start,
                self.cycle_length,
                self.cycle_length,
            ) <= 1;
            let near_day_end = boundary_diff(phase, self.day_end, self.cycle_length, self.cycle_length)
                <= 1;
            if near_day_start || near_day_end {
                Ternary::Zero
            } else {
                Ternary::Negative
            }
        }
    }

    /// Ticks until next day start.
    pub fn ticks_to_day(&self, tick: u64) -> (r: u64)
        requires
            self.cycle_length > 0,
            self.phase_of(tick) >= self.day_start ==> self.cycle_length - self.phase_of(tick)
                + self.day_start <= u64::MAX,
        ensures
            r == self.spec_ticks_to_day(tick),
    {
        let phase = tick % self.cycle_length;
        if phase < self.day_start {
            self.day_start - phase
        } else {
            self.cycle_length - phase + self.day_start
        }
    }

    /// Ticks of day in one cycle; the fraction of the cycle that is day is
    /// this over the cycle's length.
    pub fn day_length(&self) -> (r: u64)
        requires
            self.day_start > self.day_end ==> self.day_start <= self.cycle_length,
        ensures
            r == self.spec_day_length(),
    {
        if self.day_start <= self.day_end {
            self.day_end - self.day_start
        } else {
            self.cycle_length - self.day_start + self.day_end
        }
    }
}

/// Distance from a place of a cycle to a boundary, as `boundary_distance`
/// measures it.
pub(crate) fn boundary_diff(phase: u64, b: u64, n: u64, last: u64) -> (r: u64)
    requires
        n > 0,
    ensures
        r == boundary_distance(phase as int, b as int, n as int, last as int),
{
    if b <= last {
        cyclic_diff(phase, b, n)
    } else if phase >= b {
        phase - b
    } else {
        b - phase
    }
}

/// Distance between two places of a cycle of length `n`, round the cycle.
fn cyclic_diff(a: u64, b: u64, n: u64) -> (r: u64)
    requires
        n > 0,
    ensures
        r == cyclic_distance(a as int, b as int, n as int),
{
    let d = if a >= b {
        a - b
    } else {
        b - a
    } % n;
    if d <= n - d {
        d
    } else {
        n - d
    }
}

/// Counting down to daybreak: for a regular cycle, the countdown lies
/// between one tick and a full cycle, the tick it leads to is where day
/// starts, and no tick in between is.
pub proof fn lemma_ticks_to_day_reaches_day_start(c: LightCycle, tick: u64)
    requires
        c.is_regular(),
    ensures
        1 <= c.spec_ticks_to_day(tick) <= c.cycle_length,
        c.phase_at(tick + c.spec_ticks_to_day(tick)) == c.day_start,
        forall|d: int|
            0 < d < c.spec_ticks_to_day(tick) ==> #[trigger] c.phase_at(tick + d) != c.day_start,
{
    let n = c.cycle_length as int;
    let t = tick as int;
    let k = c.spec_ticks_to_day(tick);
    let ph = t % n;
    let s = c.day_start as int;
    vstd::arithmetic::div_mod::lemma_fundamental_div_mod(t, n);
    let q = t / n;
    assert(t == q * n + ph) by (nonlinear_arith)
        requires
            t == n * q + ph,
    ;
    if ph < s {
        vstd::arithmetic::div_mod::lemma_fundamental_div_mod_converse(t + k, n, q, s);
        assert forall|d: int| 0 < d < k implies #[trigger] c.phase_at(tick + d) != s by {
            vstd::arithmetic::div_mod::lemma_fundamental_div_mod_converse(t + d, n, q, ph + d);
        }
    } else {
        assert(t + k == (q + 1) * n + s) by (nonlinear_arith)
            requires
                t == q * n + ph,
                k == n - ph + s,
        ;
        vstd::arithmetic::div_mod::lemma_fundamental_div_mod_converse(t + k, n, q + 1, s);
        assert forall|d: int| 0 < d < k implies #[trigger] c.phase_at(tick + d) != s by {
            if ph + d < n {
                vstd::arithmetic::div_mod::lemma_fundamental_div_mod_converse(t + d, n, q, ph + d);
            } else {
                assert(t + d == (q + 1) * n + (ph + d - n)) by (nonlinear_arith)
                    requires
                        t == q * n + ph,
                ;
                vstd::arithmetic::div_mod::lemma_fundamental_div_mod_converse(
                    t + d,
                    n,
                    q + 1,
                    ph + d - n,
                );
            }
        }
    }
}

/// The place in the cycle of the next tick.
pub proof fn lemma_next_phase(t: int, n: int)
    requires
        n > 0,
    ensures
        (t + 1) % n == (if t % n + 1 == n { 0 } else { t % n + 1 }),
        0 <= t % n < n,
{
    vstd::arithmetic::div_mod::lemma_fundamental_div_mod(t, n);
    let q = t / n;
    let r = t % n;
    assert(t == q * n + r) by (nonlinear_arith)
        requires
            t == n * q + r,
    ;
    if r + 1 == n {
        assert(t + 1 == (q + 1) * n + 0) by (nonlinear_arith)
            requires
                t == q * n + r,
                r + 1 == n,
        ;
        vstd::arithmetic::div_mod::lemma_fundamental_div_mod_converse(t + 1, n, q + 1, 0);
    } else {
        vstd::arithmetic::div_mod::lemma_fundamental_div_mod_converse(t + 1, n, q, r + 1);
    }
}

/// Small distances within a cycle are what they are; a whole cycle is no
/// distance at all.
pub(crate) proof fn lemma_cyclic_distance_facts(n: int)
    requires
        n > 0,
    ensures
        forall|a: int, b: int|
            0 <= a < n && 0 <= b < n ==> #[trigger] cyclic_distance(a, b, n) == (if distance(a, b)
                <= n - distance(a, b) {
                distance(a, b)
            } else {
                n - distance(a, b)
            }),
        forall|a: int| 0 <= a < n ==> #[trigger] cyclic_distance(a, n, n) == (if n - a <= a {
            n - a
        } else {
            a
        }),
{
    assert forall|a: int, b: int| 0 <= a < n && 0 <= b < n implies #[trigger] cyclic_distance(
        a,
        b,
        n,
    ) == (if distance(a, b) <= n - distance(a, b) {
        distance(a, b)
    } else {
        n - distance(a, b)
    }) by {
        vstd::arithmetic::div_mod::lemma_small_mod(distance(a, b) as nat, n as nat);
    }
    assert forall|a: int| 0 <= a < n implies #[trigger] cyclic_distance(a, n, n) == (if n - a <= a {
        n - a
    } else {
        a
    }) by {
        if a == 0 {
            vstd::arithmetic::div_mod::lemma_mod_self_0(n);
        } else {
            vstd::arithmetic::div_mod::lemma_small_mod((n - a) as nat, n as nat);
        }
    }
}

/// Day and night change through twilight: in a regular cycle, a tick of
/// full resources is never followed by one of minimal resources, nor the
/// other way round.
pub proof fn lemma_day_night_pass_through_twilight(c: LightCycle, t: int)
    requires
        c.is_regular(),
    ensures
        !(c.level_at(t) == Ternary::Positive && c.level_at(t + 1) == Ternary::Negative),
        !(c.level_at(t) == Ternary::Negative && c.level_at(t + 1) == Ternary::Positive),
{
    let n = c.cycle_length as int;
    lemma_next_phase(t, n);
    lemma_cyclic_distance_facts(n);
    let p = c.phase_at(t);
    let q = c.phase_at(t + 1);
    let s = c.day_start as int;
    let e = c.day_end as int;
    if c.day_at_phase(p) && !c.day_at_phase(q) {
        // the day ends at q
        assert(q == e || (q == 0 && e == n));
        if q == e && e < n {
            assert(cyclic_distance(q, e, n) == 0);
        } else {
            assert(cyclic_distance(0, n, n) == 0);
        }
    }
    if !c.day_at_phase(p) && c.day_at_phase(q) {
        // the day starts at q, one tick after p
        assert(q == s);
        assert(cyclic_distance(p, s, n) <= 1);
    }
}

/// Day is the stretch of the day's length that begins where day starts:
/// in a regular cycle, a tick is day exactly when it lies fewer than
/// `day_length` places past the day's start, counting round the cycle; and
/// it is at full resources exactly then.
pub proof fn lemma_day_is_stretch_from_start(c: LightCycle, tick: u64)
    requires
        c.is_regular(),
    ensures
        c.spec_is_day(tick) <==> (c.phase_of(tick) - c.day_start) % (c.cycle_length as int)
            < c.spec_day_length(),
        (c.spec_resource_level(tick) == Ternary::Positive) <==> (c.phase_of(tick) - c.day_start)
            % (c.cycle_length as int) < c.spec_day_length(),
{
    let n = c.cycle_length as int;
    let p = c.phase_of(tick);
    let s = c.day_start as int;
    lemma_next_phase(tick as int, n);
    if p >= s {
        vstd::arithmetic::div_mod::lemma_small_mod((p - s) as nat, n as nat);
    } else {
        vstd::arithmetic::div_mod::lemma_fundamental_div_mod_converse(p - s, n, -1, p - s + n);
    }
}

/// Twilight is the night next to the day: in a regular cycle with some
/// day, a night tick is at reduced resources exactly when the tick after
/// it, the tick before it or the tick two before it is day, and at minimal
/// resources exactly when none of them is.
pub proof fn lemma_twilight_follows_neighbours(c: LightCycle, t: int)
    requires
        c.is_regular(),
        c.spec_day_length() > 0,
    ensures
        (c.level_at(t) == Ternary::Zero) <==> (!c.day_at(t) && (c.day_at(t + 1) || c.day_at(t - 1)
            || c.day_at(t - 2))),
        (c.level_at(t) == Ternary::Negative) <==> (!c.day_at(t) && !c.day_at(t + 1) && !c.day_at(
            t - 1,
        ) && !c.day_at(t - 2)),
{
    let n = c.cycle_length as int;
    lemma_next_phase(t, n);
    lemma_next_phase(t - 1, n);
    lemma_next_phase(t - 2, n);
    lemma_cyclic_distance_facts(n);
}

/// Twilight borders the day: the tick where day ends and the tick just
/// before day starts are at reduced resources, never minimal ones.
pub proof fn lemma_twilight_borders_day(c: LightCycle, tick: u64)
    requires
        c.cycle_length > 0,
        c.phase_of(tick) == c.day_end || c.phase_of(tick) + 1 == c.day_start,
    ensures
        c.spec_resource_level(tick) == Ternary::Zero,
{
    lemma_cyclic_distance_facts(c.cycle_length as int);
    lemma_next_phase(tick as int, c.cycle_length as int);
}

/// Full resources exactly by day.
pub proof fn lemma_full_resources_by_day(c: LightCycle, tick: u64)
    ensures
        (c.spec_resource_level(tick) == Ternary::Positive) == c.spec_is_day(tick),
{
}

/// For a regular cycle, the day's length is the number of ticks of one
/// cycle that are day.
pub proof fn lemma_day_length_counts_day_ticks(c: LightCycle)
    requires
        c.is_regular(),
    ensures
        count_below(|ph: int| c.day_at_phase(ph), c.cycle_length as nat) == c.spec_day_length(),
{
    let pred = |ph: int| c.day_at_phase(ph);
    if c.day_start <= c.day_end {
        lemma_count_interval(pred, c.day_start as int, c.day_end as int, c.cycle_length as nat);
    } else {
        lemma_count_outside(pred, c.day_end as int, c.day_start as int, c.cycle_length as nat);
    }
}

} // verus!
