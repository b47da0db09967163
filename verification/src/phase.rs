use vstd::prelude::*;
use crate::arith::{
    lemma_multiple_of_mod, multiple_of,
    word_modulus, is_lcm, lcm, lemma_lcm_associative, lemma_lcm_commutative, lemma_spec_lcm_is_lcm, spec_lcm,
};

verus! {

/// A `u64` read as an `i64` (two's complement, as `as` reads it).
pub open spec fn u64_as_i64(x: u64) -> int {
    if x <= i64::MAX {
        x as int
    } else {
        x - word_modulus()
    }
}

/// An `i64` read as a `u64` (two's complement, as `as` reads it).
pub open spec fn i64_as_u64(x: int) -> int {
    if x >= 0 {
        x
    } else {
        x + word_modulus()
    }
}

/// The remainder that Rust's `%` gives on signed integers: it takes the sign
/// of the dividend and is smaller in magnitude than the divisor.
pub open spec fn trunc_rem(a: int, b: int) -> int {
    if a >= 0 {
        a % b
    } else {
        -((-a) % b)
    }
}

/// The smallest period a phase can carry.
pub open spec fn at_least_one(p: nat) -> nat {
    if p < 1 {
        1
    } else {
        p
    }
}

/// `x as i64`.
fn u64_to_i64(x: u64) -> (r: i64)
    ensures
        r == u64_as_i64(x),
{
    let r = #[verifier::truncate] (x as i64);
    assert(r == u64_as_i64(x)) by (bit_vector)
        requires
            r == x as i64,
    ;
    r
}

/// `x as u64`.
fn i64_to_u64(x: i64) -> (r: u64)
    ensures
        r == i64_as_u64(x as int),
{
    let r = #[verifier::truncate] (x as u64);
    assert(r == i64_as_u64(x as int)) by (bit_vector)
        requires
            r == x as u64,
    ;
    r
}

/// Represents a phase offset between two rooms.
///
/// Phase is measured in ticks and determines how rooms' rhythms relate.
#[derive(Debug, Clone, Copy, PartialEq, Eq, Structural)]
pub struct Phase {
    /// Offset in ticks.
    pub offset: i64,
    /// Period in ticks (how often the phase repeats).
    pub period: u64,
}

impl Phase {
    /// A phase whose period is positive and fits in an `i64`: on it the
    /// effective offset is a plain remainder modulo the period.
    pub open spec fn is_regular(self) -> bool {
        1 <= self.period <= i64::MAX
    }

    /// The tick as an `i64`, plus the offset.
    pub open spec fn shifted(self, tick: u64) -> int {
        u64_as_i64(tick) + self.offset
    }

    /// The period as an `i64`.
    pub open spec fn signed_period(self) -> int {
        u64_as_i64(self.period)
    }

    /// The remainder of the shifted tick by the period, moved up by one
    /// period when negative.
    pub open spec fn spec_effective_offset(self, tick: u64) -> int {
        let w = trunc_rem(self.shifted(tick), self.signed_period());
        if w < 0 {
            w + self.signed_period()
        } else {
            w
        }
    }

    /// The inputs on which `effective_offset` computes without overflow or
    /// division by zero.
    pub open spec fn offset_defined(self, tick: u64) -> bool {
        &&& i64::MIN <= self.shifted(tick) <= i64::MAX
        &&& self.period != 0
        &&& !(self.signed_period() == -1 && self.shifted(tick) == i64::MIN)
        &&& i64::MIN <= self.spec_effective_offset(tick)
    }

    /// The rooms are aligned: the effective offset is zero.
    pub open spec fn spec_in_phase(self, tick: u64) -> bool {
        self.spec_effective_offset(tick) == 0
    }

    /// None when aligned; else the period less the effective offset, read
    /// back as a `u64`.
    pub open spec fn spec_ticks_to_in_phase(self, tick: u64) -> int {
        let e = self.spec_effective_offset(tick);
        if e == 0 {
            0
        } else {
            i64_as_u64(self.signed_period() - e)
        }
    }

    /// The phase that `add` returns.
    pub open spec fn spec_add(self, other: Phase) -> Phase {
        Phase {
            offset: (self.offset + other.offset) as i64,
            period: at_least_one(spec_lcm(self.period as nat, other.period as nat)) as u64,
        }
    }

    /// The inputs on which `add` computes without overflow or division by
    /// zero.
    pub open spec fn add_defined(self, other: Phase) -> bool {
        &&& i64::MIN <= self.offset + other.offset <= i64::MAX
        &&& self.period > 0 || other.period > 0
        &&& spec_lcm(self.period as nat, other.period as nat) <= u64::MAX
    }

    pub fn new(offset: i64, period: u64) -> (p: Self)
        ensures
            p.offset == offset,
            p.period == at_least_one(period as nat),
    {
        Self { offset, period: period.max(1) }
    }

    /// Compute the effective offset at a given tick (wrapping around period).
    pub fn effective_offset(&self, tick: u64) -> (r: i64)
        requires
            self.offset_defined(tick),
        ensures
            r == self.spec_effective_offset(tick),
    {
        let t = u64_to_i64(tick);
        let p = u64_to_i64(self.period);
        let wrapped = (t + self.offset) % p;
        if wrapped < 0 {
            wrapped + p
        } else {
            wrapped
        }
    }

    /// Are two rooms in phase at this tick?
    pub fn in_phase(&self, tick: u64) -> (b: bool)
        requires
            self.offset_defined(tick),
        ensures
            b == self.spec_in_phase(tick),
    {
        self.effective_offset(tick) == 0
    }

    /// Ticks until next in-phase moment.
    pub fn ticks_to_in_phase(&self, tick: u64) -> (r: u64)
        requires
            self.offset_defined(tick),
            self.spec_effective_offset(tick) != 0 ==> i64::MIN <= self.signed_period()
                - self.spec_effective_offset(tick) <= i64::MAX,
        ensures
            r == self.spec_ticks_to_in_phase(tick),
    {
        let eff = self.effective_offset(tick);
        if eff == 0 {
            0
        } else {
            i64_to_u64(u64_to_i64(self.period) - eff)
        }
    }

    /// Add two phases: the offsets add up and the periods combine into
    /// their least common multiple.
    pub fn add(&self, other: &Phase) -> (r: Phase)
        requires
            self.add_defined(*other),
        ensures
            r == self.spec_add(*other),
    {
        Phase::new(self.offset + other.offset, lcm(self.period, other.period))
    }
}

/// For a regular phase, the effective offset is the shifted tick reduced
/// modulo the period, so it lies in `[0, period)`; the computation is defined
/// wherever the shifted tick fits in an `i64`.
pub proof fn lemma_effective_offset_is_modulo(p: Phase, tick: u64)
    requires
        p.is_regular(),
    ensures
        p.spec_effective_offset(tick) == p.shifted(tick) % (p.period as int),
        0 <= p.spec_effective_offset(tick) < p.period,
        i64::MIN <= p.shifted(tick) <= i64::MAX ==> p.offset_defined(tick),
{
    let s = p.shifted(tick);
    let n = p.period as int;
    assert(p.signed_period() == n);
    if s < 0 {
        let m = (-s) % n;
        let q = (-s) / n;
        vstd::arithmetic::div_mod::lemma_fundamental_div_mod(-s, n);
        if m == 0 {
            assert(s == (-q) * n + 0) by (nonlinear_arith)
                requires
                    -s == n * q + m,
                    m == 0,
            ;
            vstd::arithmetic::div_mod::lemma_fundamental_div_mod_converse(s, n, -q, 0);
        } else {
            assert(s == (-q - 1) * n + (n - m)) by (nonlinear_arith)
                requires
                    -s == n * q + m,
            ;
            vstd::arithmetic::div_mod::lemma_fundamental_div_mod_converse(s, n, -q - 1, n - m);
        }
    }
}

/// Adding `d` ticks to `tick` stays within the `u64` range and does not
/// carry it across the point where its reading as an `i64` turns negative.
pub open spec fn same_sign_after(tick: u64, d: int) -> bool {
    &&& tick + d <= u64::MAX
    &&& tick <= i64::MAX ==> tick + d <= i64::MAX
}

/// Counting down to alignment: for a regular phase, the countdown is
/// shorter than the period and the shifted tick plus the countdown is a
/// multiple of the period, which no smaller step reaches; so, as long as the
/// ticks counted through keep the sign of their `i64` reading, the phase is
/// aligned once the countdown has elapsed, and at no tick before.
pub proof fn lemma_ticks_to_in_phase_reaches_alignment(p: Phase, tick: u64)
    requires
        p.is_regular(),
    ensures
        p.spec_effective_offset(tick) != 0 ==> i64::MIN <= p.signed_period()
            - p.spec_effective_offset(tick) <= i64::MAX,
        0 <= p.spec_ticks_to_in_phase(tick) < p.period,
        (p.shifted(tick) + p.spec_ticks_to_in_phase(tick)) % (p.period as int) == 0,
        forall|d: int|
            0 < d < p.spec_ticks_to_in_phase(tick) ==> #[trigger] ((p.shifted(tick) + d) % (
            p.period as int)) != 0,
        same_sign_after(tick, p.spec_ticks_to_in_phase(tick)) ==> {
            &&& p.spec_in_phase((tick + p.spec_ticks_to_in_phase(tick)) as u64)
            &&& forall|d: int|
                0 < d < p.spec_ticks_to_in_phase(tick) ==> !#[trigger] p.spec_in_phase(
                    (tick + d) as u64,
                )
        },
{
    let n = p.period as int;
    let s = p.shifted(tick);
    let k = p.spec_ticks_to_in_phase(tick);
    lemma_effective_offset_is_modulo(p, tick);
    let e = p.spec_effective_offset(tick);
    assert(k == (if e == 0 { 0 } else { n - e }));
    vstd::arithmetic::div_mod::lemma_fundamental_div_mod(s, n);
    let q = s / n;
    assert(s == q * n + e) by (nonlinear_arith)
        requires
            s == n * q + s % n,
            e == s % n,
    ;
    if e != 0 {
        assert(s + k == (q + 1) * n + 0) by (nonlinear_arith)
            requires
                s == q * n + e,
                k == n - e,
        ;
        vstd::arithmetic::div_mod::lemma_fundamental_div_mod_converse(s + k, n, q + 1, 0);
        assert forall|d: int| 0 < d < k implies #[trigger] ((s + d) % n) != 0 by {
            vstd::arithmetic::div_mod::lemma_fundamental_div_mod_converse(s + d, n, q, e + d);
        }
    }
    if same_sign_after(tick, k) {
        assert forall|d: int| 0 <= d <= k implies #[trigger] p.spec_effective_offset(
            (tick + d) as u64,
        ) == (s + d) % n by {
            assert(p.shifted((tick + d) as u64) == s + d);
            lemma_effective_offset_is_modulo(p, (tick + d) as u64);
        }
        assert forall|d: int| 0 < d < k implies !#[trigger] p.spec_in_phase((tick + d) as u64) by {
            assert(p.spec_effective_offset((tick + d) as u64) == (s + d) % n);
        }
        assert(p.spec_effective_offset((tick + k) as u64) == (s + k) % n);
    }
}

/// A regular phase repeats itself every period, as long as the later tick
/// keeps the sign of its `i64` reading.
pub proof fn lemma_effective_offset_periodic(p: Phase, tick: u64)
    requires
        p.is_regular(),
        same_sign_after(tick, p.period as int),
    ensures
        p.spec_effective_offset((tick + p.period) as u64) == p.spec_effective_offset(tick),
{
    let n = p.period as int;
    let s = p.shifted(tick);
    let later = (tick + p.period) as u64;
    assert(p.shifted(later) == s + n);
    lemma_effective_offset_is_modulo(p, tick);
    lemma_effective_offset_is_modulo(p, later);
    vstd::arithmetic::div_mod::lemma_mod_add_multiples_vanish(s, n);
}

/// Adding phases does not depend on their order.
pub proof fn lemma_add_commutative(a: Phase, b: Phase)
    requires
        a.add_defined(b),
    ensures
        b.add_defined(a),
        a.spec_add(b) == b.spec_add(a),
{
    lemma_lcm_commutative(a.period as nat, b.period as nat);
}

/// Adding phases does not depend on how they are grouped, as long as every
/// sum involved stays in range.
pub proof fn lemma_add_associative(a: Phase, b: Phase, c: Phase)
    requires
        a.period > 0,
        b.period > 0,
        c.period > 0,
        a.add_defined(b),
        a.spec_add(b).add_defined(c),
        b.add_defined(c),
        a.add_defined(b.spec_add(c)),
    ensures
        a.spec_add(b).spec_add(c) == a.spec_add(b.spec_add(c)),
{
    lemma_spec_lcm_is_lcm(a.period as nat, b.period as nat);
    lemma_spec_lcm_is_lcm(b.period as nat, c.period as nat);
    lemma_lcm_associative(a.period as nat, b.period as nat, c.period as nat);
}

/// The period of a sum of two phases with positive periods is the least
/// common multiple of their periods.
pub proof fn lemma_add_period_is_lcm(a: Phase, b: Phase)
    requires
        a.period > 0,
        b.period > 0,
        a.add_defined(b),
    ensures
        is_lcm(a.period as nat, b.period as nat, a.spec_add(b).period as nat),
{
    lemma_spec_lcm_is_lcm(a.period as nat, b.period as nat);
}

/// For a regular phase, the rooms are in phase at a tick exactly when the
/// tick, read as an `i64`, plus the offset is a whole multiple of the
/// period.
pub proof fn lemma_in_phase_iff_multiple(p: Phase, tick: u64)
    requires
        p.is_regular(),
    ensures
        p.spec_in_phase(tick) <==> multiple_of(u64_as_i64(tick) + p.offset, p.period as int),
{
    lemma_effective_offset_is_modulo(p, tick);
    lemma_multiple_of_mod(p.shifted(tick), p.period as int);
}

} // verus!
