use vstd::prelude::*;
use crate::ternary::Ternary;
use crate::arith::{count_below, lemma_count_interval, lemma_count_outside};
use crate::light::{boundary_diff, boundary_distance, cyclic_distance, lemma_next_phase};
use crate::phase::at_least_one;

verus! {

/// Represents quiet periods for maintenance.
///
/// Slack tides occur when room activity is minimal, allowing for safe
/// maintenance operations.
#[derive(Debug, Clone)]
pub struct SlackTide {
    /// Start tick of the slack period (within a cycle).
    pub start: u64,
    /// End tick of the slack period (within a cycle).
    pub end: u64,
    /// Cycle length for periodic slack tides.
    pub cycle: u64,
}

impl SlackTide {
    /// A slack tide whose window starts and ends inside its positive cycle.
    pub open spec fn is_regular(self) -> bool {
        &&& self.cycle >= 1
        &&& self.start < self.cycle
        &&& self.end < self.cycle
    }

    /// Slack at a place in the cycle: from the start to the end, both
    /// included; a start after the end wraps round the end of the cycle.
    pub open spec fn slack_at_phase(self, phase: int) -> bool {
        if self.start <= self.end {
            self.start <= phase <= self.end
        } else {
            phase >= self.start || phase <= self.end
        }
    }

    /// The place of a tick in the cycle.
    pub open spec fn phase_at(self, t: int) -> int {
        t % (self.cycle as int)
    }

    pub open spec fn phase_of(self, tick: u64) -> int {
        self.phase_at(tick as int)
    }

    /// Slack at a tick.
    pub open spec fn slack_at(self, t: int) -> bool {
        self.slack_at_phase(self.phase_at(t))
    }

    pub open spec fn spec_is_slack(self, tick: u64) -> bool {
        self.slack_at(tick as int)
    }

    /// Ticks until the slack period; none during it.
    pub open spec fn spec_ticks_to_slack(self, tick: u64) -> int {
        if self.spec_is_slack(tick) {
            0
        } else if self.phase_of(tick) < self.start {
            self.start - self.phase_of(tick)
        } else {
            self.cycle - self.phase_of(tick) + self.start
        }
    }

    /// Ticks in the slack period, both ends included.
    pub open spec fn spec_duration(self) -> int {
        if self.start <= self.end {
            self.end - self.start + 1
        } else {
            self.cycle - self.start + self.end + 1
        }
    }

    /// Slack is Negative; active ticks within one tick of the window's
    /// start or end are Zero (transitioning), measured round the cycle for a
    /// bound inside the cycle; other active ticks are Positive.
    pub open spec fn level_at(self, t: int) -> Ternary {
        let phase = self.phase_at(t);
        let n = self.cycle as int;
        if self.slack_at(t) {
            Ternary::Negative
        } else if boundary_distance(phase, self.start as int, n, n - 1) <= 1 || boundary_distance(
            phase,
            self.end as int,
            n,
            n - 1,
        ) <= 1 {
            Ternary::Zero
        } else {
            Ternary::Positive
        }
    }

    pub open spec fn spec_activity_level(self, tick: u64) -> Ternary {
        self.level_at(tick as int)
    }

    pub fn new(start: u64, end: u64, cycle: u64) -> (s: Self)
        ensures
            s.start == start,
            s.end == end,
            s.cycle == at_least_one(cycle as nat),
    {
        Self { start, end, cycle: cycle.max(1) }
    }

    /// Is this a slack period at the given tick?
    pub fn is_slack(&self, tick: u64) -> (b: bool)
        requires
            self.cycle > 0,
        ensures
            b == self.spec_is_slack(tick),
    {
        let phase = tick % self.cycle;
        if self.start <= self.end {
            phase >= self.start && phase <= self.end
        } else {
            phase >= self.start || phase <= self.end
        }
    }

    /// Ticks until next slack period.
    pub fn ticks_to_slack(&self, tick: u64) -> (r: u64)
        requires
            self.cycle > 0,
            !self.spec_is_slack(tick) && self.phase_of(tick) >= self.start ==> self.cycle
                - self.phase_of(tick) + self.start <= u64::MAX,
        ensures
            r == self.spec_ticks_to_slack(tick),
    {
        let phase = tick % self.cycle;
        if self.is_slack(tick) {
            return 0;
        }
        if phase < self.start {
            self.start - phase
        } else {
            self.cycle - phase + self.start
        }
    }

    /// Duration of the slack period in ticks.
    pub fn duration(&self) -> (r: u64)
        requires
            self.start <= self.end ==> self.end - self.start + 1 <= u64::MAX,
            self.start > self.end ==> self.start <= self.cycle && self.cycle - self.start
                + self.end + 1 <= u64::MAX,
        ensures
            r == self.spec_duration(),
    {
        if self.start <= self.end {
            self.end - self.start + 1
        } else {
            self.cycle - self.start + self.end + 1
        }
    }

    /// Compute a ternary activity level: Positive = active, Zero =
    /// transitioning, Negative = slack.
    pub fn activity_level(&self, tick: u64) -> (r: Ternary)
        requires
            self.cycle > 0,
        ensures
            r == self.spec_activity_level(tick),
    {
        if self.is_slack(tick) {
            Ternary::Negative
        } else {
            let phase = tick % self.cycle;
            let near_start = boundary_diff(phase, self.start, self.cycle, self.cycle - 1) <= 1;
            let near_end = boundary_diff(phase, self.end, self.cycle, self.cycle - 1) <= 1;
            if near_start || near_end {
                Ternary::Zero
            } else {
                Ternary::Positive
            }
        }
    }
}

/// Counting down to maintenance: for a regular slack tide, the countdown is
/// zero exactly during slack, otherwise at most a cycle; the tick it leads
/// to is slack, and no tick in between is.
pub proof fn lemma_ticks_to_slack_reaches_slack(s: SlackTide, tick: u64)
    requires
        s.is_regular(),
    ensures
        (s.spec_ticks_to_slack(tick) == 0) == s.spec_is_slack(tick),
        0 <= s.spec_ticks_to_slack(tick) <= s.cycle,
        s.slack_at(tick + s.spec_ticks_to_slack(tick)),
        forall|d: int| 0 < d < s.spec_ticks_to_slack(tick) ==> !#[trigger] s.slack_at(tick + d),
{
    let n = s.cycle as int;
    let t = tick as int;
    let k = s.spec_ticks_to_slack(tick);
    let ph = t % n;
    let st = s.start as int;
    vstd::arithmetic::div_mod::lemma_fundamental_div_mod(t, n);
    let q = t / n;
    assert(t == q * n + ph) by (nonlinear_arith)
        requires
            t == n * q + ph,
    ;
    if s.spec_is_slack(tick) {
    } else if ph < st {
        vstd::arithmetic::div_mod::lemma_fundamental_div_mod_converse(t + k, n, q, st);
        assert forall|d: int| 0 < d < k implies !#[trigger] s.slack_at(tick + d) by {
            vstd::arithmetic::div_mod::lemma_fundamental_div_mod_converse(t + d, n, q, ph + d);
        }
    } else {
        assert(t + k == (q + 1) * n + st) by (nonlinear_arith)
            requires
                t == q * n + ph,
                k == n - ph + st,
        ;
        vstd::arithmetic::div_mod::lemma_fundamental_div_mod_converse(t + k, n, q + 1, st);
        assert forall|d: int| 0 < d < k implies !#[trigger] s.slack_at(tick + d) by {
            if ph + d < n {
                vstd::arithmetic::div_mod::lemma_fundamental_div_mod_converse(t + d, n, q, ph + d);
            } else {
                assert(t + d == (q + 1) * n + (ph + d - n)) by (nonlinear_arith)
                    requires
                        t == q * n + ph,
                ;
                vstd::arithmetic::div_mod::lemma_fundamental_div_mod_converse(
                    t + d,
                    n,
                    q + 1,
                    ph + d - n,
                );
            }
        }
    }
}

/// Zero marks entering and leaving slack: for a regular slack tide, the
/// tick just before a slack period and the tick just after one are
/// transitioning.
pub proof fn lemma_slack_transitions_through_zero(s: SlackTide, t: int)
    requires
        s.is_regular(),
    ensures
        !s.slack_at(t) && s.slack_at(t + 1) ==> s.level_at(t) == Ternary::Zero,
        s.slack_at(t) && !s.slack_at(t + 1) ==> s.level_at(t + 1) == Ternary::Zero,
{
    let n = s.cycle as int;
    lemma_next_phase(t, n);
    crate::light::lemma_cyclic_distance_facts(n);
    let p = s.phase_at(t);
    let q = s.phase_at(t + 1);
    if !s.slack_at(t) && s.slack_at(t + 1) {
        assert(q == s.start);
        assert(cyclic_distance(p, s.start as int, n) <= 1);
    }
    if s.slack_at(t) && !s.slack_at(t + 1) {
        assert(p == s.end);
        assert(cyclic_distance(q, s.end as int, n) <= 1);
    }
}

/// Transitioning means next to slack: for a regular slack tide, an active
/// tick is Zero exactly when the tick before or the tick after it is slack,
/// and Positive exactly when neither is.
pub proof fn lemma_activity_follows_neighbours(s: SlackTide, t: int)
    requires
        s.is_regular(),
    ensures
        (s.level_at(t) == Ternary::Zero) <==> (!s.slack_at(t) && (s.slack_at(t - 1) || s.slack_at(
            t + 1,
        ))),
        (s.level_at(t) == Ternary::Positive) <==> (!s.slack_at(t) && !s.slack_at(t - 1)
            && !s.slack_at(t + 1)),
{
    let n = s.cycle as int;
    lemma_next_phase(t, n);
    lemma_next_phase(t - 1, n);
    crate::light::lemma_cyclic_distance_facts(n);
}

/// Maintenance exactly during slack.
pub proof fn lemma_slack_is_minimal_activity(s: SlackTide, tick: u64)
    ensures
        (s.spec_activity_level(tick) == Ternary::Negative) == s.spec_is_slack(tick),
{
}

/// For a regular slack tide, the duration is the number of ticks of one
/// cycle that are slack.
pub proof fn lemma_duration_counts_slack_ticks(s: SlackTide)
    requires
        s.is_regular(),
    ensures
        count_below(|ph: int| s.slack_at_phase(ph), s.cycle as nat) == s.spec_duration(),
{
    let pred = |ph: int| s.slack_at_phase(ph);
    if s.start <= s.end {
        lemma_count_interval(pred, s.start as int, s.end + 1, s.cycle as nat);
    } else {
        lemma_count_outside(pred, s.end + 1, s.start as int, s.cycle as nat);
    }
}

} // verus!
