use vstd::prelude::*;
use crate::ternary::Ternary;

verus! {

/// What is recorded of a room: (tick, state) observations, in the order in
/// which they were made.
pub type History = Seq<(u64, Ternary)>;

/// Observation `j` lies at or after the first observation's tick.
pub open spec fn after_base(h: History, j: int) -> bool {
    h[j].0 >= h[0].0
}

/// The position of observation `j`, counted in ticks from the first
/// observation.
pub open spec fn position(h: History, j: int) -> int {
    h[j].0 - h[0].0
}

/// Observation `j` disagrees with the observation stored `p` places before
/// its position, where there is one.
pub open spec fn mismatch_at(h: History, p: int, j: int) -> bool {
    &&& after_base(h, j)
    &&& position(h, j) >= p
    &&& position(h, j) - p < h.len()
    &&& h[j].1 != h[position(h, j) - p].1
}

/// Every observation lies at or after the first one and agrees with the
/// observation stored `p` places before its position.
pub open spec fn repeats_with(h: History, p: int) -> bool {
    forall|j: int| 0 <= j < h.len() ==> after_base(h, j) && !#[trigger] mismatch_at(h, p, j)
}

/// The largest candidate period: half the history, and at least one.
pub open spec fn max_candidate(h: History) -> int {
    if h.len() / 2 < 1 {
        1
    } else {
        (h.len() / 2) as int
    }
}

/// `p` is the first candidate period that the history repeats with.
pub open spec fn first_repeat(h: History, p: int) -> bool {
    &&& 1 <= p <= max_candidate(h)
    &&& repeats_with(h, p)
    &&& forall|q: int| 1 <= q < p ==> !#[trigger] repeats_with(h, q)
}

/// The detected period: the first candidate period, from one to half the
/// history, that the history repeats with; zero (no pattern) for fewer than
/// two observations or when no candidate repeats.
pub open spec fn spec_detect_period(h: History) -> int {
    if h.len() >= 2 && exists|p: int| first_repeat(h, p) {
        choose|p: int| first_repeat(h, p)
    } else {
        0
    }
}

/// Scanning the history for candidate `p` meets a disagreement before any
/// observation that lies before the first one.
pub open spec fn scan_completes(h: History, p: int) -> bool {
    forall|j: int|
        0 <= j < h.len() && !after_base(h, j) ==> exists|i: int|
            0 <= i < j && #[trigger] mismatch_at(h, p, i)
}

/// The histories on which period detection computes without underflow:
/// every candidate that is tried is scanned to the end or to a
/// disagreement.
pub open spec fn detect_defined(h: History) -> bool {
    h.len() >= 2 ==> forall|p: int|
        1 <= p <= max_candidate(h) && (forall|q: int| 1 <= q < p ==> !#[trigger] repeats_with(h, q))
            ==> #[trigger] scan_completes(h, p)
}

/// Observation `j` is the first one whose position is `off`.
pub open spec fn first_at(h: History, off: int, j: int) -> bool {
    &&& 0 <= j < h.len()
    &&& after_base(h, j)
    &&& position(h, j) == off
    &&& forall|i: int| 0 <= i < j ==> !(after_base(h, i) && #[trigger] position(h, i) == off)
}

/// Where a forecast for `tick` looks in the cycle of period `p`.
pub open spec fn cycle_offset(h: History, tick: u64, p: int) -> int {
    (tick - h[0].0) % p
}

/// The forecast for `tick`: none without observations; the last observed
/// state when no period is detected; the first observed state for a tick
/// before the first observation; else the state first observed at the same
/// place in the cycle, or the last observed state when none was.
pub open spec fn spec_predict(h: History, tick: u64) -> Option<Ternary> {
    if h.len() == 0 {
        None
    } else {
        let p = spec_detect_period(h);
        if p == 0 {
            Some(h.last().1)
        } else if tick < h[0].0 {
            Some(h[0].1)
        } else if exists|j: int| first_at(h, cycle_offset(h, tick, p), j) {
            Some(h[choose|j: int| first_at(h, cycle_offset(h, tick, p), j)].1)
        } else {
            Some(h.last().1)
        }
    }
}

/// The histories and ticks on which a forecast computes without underflow:
/// period detection is defined, and when the cycle is searched, a match is
/// met before any observation that lies before the first one.
pub open spec fn predict_defined(h: History, tick: u64) -> bool {
    &&& detect_defined(h)
    &&& (h.len() > 0 && spec_detect_period(h) != 0 && tick >= h[0].0) ==> forall|j: int|
        0 <= j < h.len() && !after_base(h, j) ==> exists|i: int|
            0 <= i < j && after_base(h, i) && #[trigger] position(h, i) == cycle_offset(
                h,
                tick,
                spec_detect_period(h),
            )
}

/// Predicts future room states from tidal patterns.
///
/// Uses simple periodic extrapolation to predict when rooms will be in
/// specific ternary states.
#[derive(Debug)]
pub struct TidePredictor {
    /// Room state histories: room ID and its (tick, state) observations; no
    /// room ID occurs twice.
    histories: Vec<(String, Vec<(u64, Ternary)>)>,
}

impl TidePredictor {
    /// No room ID occurs twice.
    #[verifier::type_invariant]
    pub closed spec fn wf(self) -> bool {
        forall|i: int, j: int|
            0 <= i < j < self.histories.len() ==> #[trigger] self.histories[i].0@
                != #[trigger] self.histories[j].0@
    }

    /// The history recorded for each room.
    pub closed spec fn as_map(self) -> Map<Seq<char>, History> {
        Map::new(
            |k: Seq<char>| exists|i: int| 0 <= i < self.histories.len() && #[trigger] self.histories[i].0@ == k,
            |k: Seq<char>|
                self.histories[choose|i: int|
                    0 <= i < self.histories.len() && #[trigger] self.histories[i].0@ == k].1@,
        )
    }

    /// The history of a room; empty for a room never observed.
    pub open spec fn history(self, room: Seq<char>) -> History {
        if self@.contains_key(room) {
            self@[room]
        } else {
            Seq::empty()
        }
    }
}

impl Clone for TidePredictor {
    /// A copy of the predictor: the same histories.
    fn clone(&self) -> (r: Self)
        ensures
            r@ == self@,
    {
        proof {
            use_type_invariant(self);
        }
        let mut histories: Vec<(String, Vec<(u64, Ternary)>)> = Vec::new();
        let n = self.histories.len();
        let mut j: usize = 0;
        while j < n
            invariant
                n == self.histories.len(),
                j <= n,
                histories.len() == j,
                forall|a: int|
                    0 <= a < j ==> #[trigger] histories[a].0 == self.histories[a].0
                        && histories[a].1@ == self.histories[a].1@,
            decreases n - j,
        {
            let name = self.histories[j].0.clone();
            let h = copy_history(&self.histories[j].1);
            histories.push((name, h));
            j += 1;
        }
        let r = TidePredictor { histories };
        proof {
            assert forall|k: Seq<char>| #![auto] r@.contains_key(k) <==> self@.contains_key(k) by {
                if r@.contains_key(k) {
                    let a = choose|a: int| 0 <= a < r.histories.len() && #[trigger] r.histories[a].0@ == k;
                    assert(self.histories[a].0@ == k);
                }
                if self@.contains_key(k) {
                    let a = choose|a: int| 0 <= a < self.histories.len() && #[trigger] self.histories[a].0@ == k;
                    assert(r.histories[a].0@ == k);
                }
            }
            assert forall|k: Seq<char>| #![auto] r@.contains_key(k) implies r@[k] == self@[k] by {
                let a = choose|a: int| 0 <= a < r.histories.len() && #[trigger] r.histories[a].0@ == k;
                r.lemma_entry(a);
                self.lemma_entry(a);
            }
            assert(r@ =~= self@);
        }
        r
    }
}

/// A copy of a history.
fn copy_history(h: &Vec<(u64, Ternary)>) -> (r: Vec<(u64, Ternary)>)
    ensures
        r@ == h@,
{
    let mut r: Vec<(u64, Ternary)> = Vec::new();
    let n = h.len();
    let mut j: usize = 0;
    while j < n
        invariant
            n == h.len(),
            j <= n,
            r@ == h@.take(j as int),
        decreases n - j,
    {
        r.push(h[j]);
        proof {
            assert(h@.take(j + 1) =~= h@.take(j as int).push(h@[j as int]));
        }
        j += 1;
    }
    proof {
        assert(r@ =~= h@);
    }
    r
}

impl View for TidePredictor {
    type V = Map<Seq<char>, History>;

    open spec fn view(&self) -> Map<Seq<char>, History> {
        self.as_map()
    }
}

impl TidePredictor {
    /// The entry at `i` is what the map holds for its room.
    proof fn lemma_entry(self, i: int)
        requires
            self.wf(),
            0 <= i < self.histories.len(),
        ensures
            self@.contains_key(self.histories[i].0@),
            self@[self.histories[i].0@] == self.histories[i].1@,
    {
        let k = self.histories[i].0@;
        assert(self.histories[i].0@ == k);
        let j = choose|j: int| 0 <= j < self.histories.len() && #[trigger] self.histories[j].0@ == k;
        if j != i {
            if j < i {
                assert(self.histories[j].0@ != self.histories[i].0@);
            } else {
                assert(self.histories[i].0@ != self.histories[j].0@);
            }
        }
    }

    /// The index of a room's entry, if it has one.
    fn find(&self, room_id: &str) -> (r: Option<usize>)
        requires
            self.wf(),
        ensures
            r matches Some(i) ==> i < self.histories.len() && self.histories[i as int].0@ == room_id@,
            r is None ==> !self@.contains_key(room_id@),
    {
        let key = room_id.to_owned();
        let n = self.histories.len();
        let mut i: usize = 0;
        while i < n
            invariant
                n == self.histories.len(),
                i <= n,
                key@ == room_id@,
                forall|j: int| 0 <= j < i ==> #[trigger] self.histories[j].0@ != room_id@,
            decreases n - i,
        {
            if self.histories[i].0 == key {
                return Some(i);
            }
            i += 1;
        }
        None
    }

    pub fn new() -> (r: Self)
        ensures
            r@ == Map::<Seq<char>, History>::empty(),
    {
        let r = Self { histories: Vec::new() };
        assert(r@ =~= Map::<Seq<char>, History>::empty());
        r
    }

    /// Record an observation.
    pub fn observe(&mut self, room_id: &str, tick: u64, value: Ternary)
        ensures
            final(self)@ == old(self)@.insert(
                room_id@,
                old(self).history(room_id@).push((tick, value)),
            ),
    {
        proof {
            use_type_invariant(&*self);
        }
        let ghost before = *self;
        let found = self.find(room_id);
        let mut histories: Vec<(String, Vec<(u64, Ternary)>)> = Vec::new();
        std::mem::swap(&mut histories, &mut self.histories);
        match found {
            Some(i) => {
                proof {
                    before.lemma_entry(i as int);
                }
                histories[i].1.push((tick, value));
                let ghost next = TidePredictor { histories: histories };
                proof {
                    assert forall|j: int| 0 <= j < next.histories.len() implies #[trigger] next.histories[j].0@ == before.histories[j].0@ by {}
                    assert(next.wf());
                    assert forall|j: int| 0 <= j < next.histories.len() && j != i implies #[trigger] next.histories[j].1@ == before.histories[j].1@ by {}
                    assert forall|k: Seq<char>| #![auto] next@.contains_key(k) <==> before@.contains_key(k) by {
                        if next@.contains_key(k) {
                            let j = choose|j: int| 0 <= j < next.histories.len() && #[trigger] next.histories[j].0@ == k;
                            assert(before.histories[j].0@ == k);
                        }
                        if before@.contains_key(k) {
                            let j = choose|j: int| 0 <= j < before.histories.len() && #[trigger] before.histories[j].0@ == k;
                            assert(next.histories[j].0@ == k);
                        }
                    }
                    assert forall|k: Seq<char>| #![auto] next@.contains_key(k) implies next@[k] == before@.insert(room_id@, before.history(room_id@).push((tick, value)))[k] by {
                        let j = choose|j: int| 0 <= j < next.histories.len() && #[trigger] next.histories[j].0@ == k;
                        next.lemma_entry(j);
                        before.lemma_entry(j);
                    }
                    assert(next@ =~= before@.insert(room_id@, before.history(room_id@).push((tick, value))));
                }
                self.histories = histories;
            },
            None => {
                let mut h: Vec<(u64, Ternary)> = Vec::new();
                h.push((tick, value));
                histories.push((room_id.to_owned(), h));
                let ghost next = TidePredictor { histories: histories };
                proof {
                    let n = before.histories.len() as int;
                    assert(next.histories[n].0@ == room_id@);
                    assert forall|j: int| 0 <= j < n implies #[trigger] next.histories[j] == before.histories[j] by {}
                    assert forall|j: int| 0 <= j < n implies #[trigger] before.histories[j].0@ != room_id@ by {
                        if before.histories[j].0@ == room_id@ {
                            assert(before@.contains_key(room_id@));
                        }
                    }
                    assert(next.wf());
                    assert forall|k: Seq<char>| #![auto] next@.contains_key(k) <==> before@.insert(room_id@, h@).contains_key(k) by {
                        if next@.contains_key(k) && k != room_id@ {
                            let j = choose|j: int| 0 <= j < next.histories.len() && #[trigger] next.histories[j].0@ == k;
                            assert(before.histories[j].0@ == k);
                        }
                        if before@.contains_key(k) {
                            let j = choose|j: int| 0 <= j < before.histories.len() && #[trigger] before.histories[j].0@ == k;
                            assert(next.histories[j].0@ == k);
                        }
                    }
                    assert forall|k: Seq<char>| #![auto] next@.contains_key(k) implies next@[k] == before@.insert(room_id@, h@)[k] by {
                        let j = choose|j: int| 0 <= j < next.histories.len() && #[trigger] next.histories[j].0@ == k;
                        next.lemma_entry(j);
                        if j < n {
                            before.lemma_entry(j);
                        }
                    }
                    assert(next@ =~= before@.insert(room_id@, h@));
                    assert(h@ =~= before.history(room_id@).push((tick, value)));
                }
                self.histories = histories;
            },
        }
    }
}

impl TidePredictor {
    /// Number of observations for a room.
    pub fn observation_count(&self, room_id: &str) -> (r: usize)
        ensures
            r == self.history(room_id@).len(),
    {
        proof {
            use_type_invariant(self);
        }
        match self.find(room_id) {
            Some(i) => {
                proof {
                    self.lemma_entry(i as int);
                }
                self.histories[i].1.len()
            },
            None => 0,
        }
    }

    /// Predict the state at a future tick: the state observed at the same
    /// place in the room's detected cycle.
    pub fn predict(&self, room_id: &str, tick: u64) -> (r: Option<Ternary>)
        requires
            predict_defined(self.history(room_id@), tick),
        ensures
            r == spec_predict(self.history(room_id@), tick),
    {
        proof {
            use_type_invariant(self);
        }
        let i = match self.find(room_id) {
            Some(i) => i,
            None => return None,
        };
        proof {
            self.lemma_entry(i as int);
        }
        let history = &self.histories[i].1;
        let ghost h = history@;
        let n = history.len();
        if n == 0 {
            return None;
        }
        let period = self.detect_period(room_id);
        if period == 0 {
            return Some(history[n - 1].1);
        }
        let base_tick = history[0].0;
        if tick < base_tick {
            return Some(history[0].1);
        }
        let offset = (tick - base_tick) % period;
        assert(offset == cycle_offset(h, tick, period as int));
        let mut j: usize = 0;
        while j < n
            invariant
                h == history@,
                h == self.history(room_id@),
                n == h.len(),
                n > 0,
                base_tick == h[0].0,
                period == spec_detect_period(h),
                period != 0,
                tick >= base_tick,
                offset == cycle_offset(h, tick, period as int),
                predict_defined(h, tick),
                j <= n,
                forall|i: int| 0 <= i < j ==> !(after_base(h, i) && #[trigger] position(h, i) == offset),
            decreases n - j,
        {
            let t = history[j].0;
            let v = history[j].1;
            if t < base_tick {
                proof {
                    assert(!after_base(h, j as int));
                    let i = choose|i: int|
                        0 <= i < j && after_base(h, i) && #[trigger] position(h, i) == offset;
                    assert(false);
                }
            }
            if t - base_tick == offset {
                proof {
                    assert(first_at(h, offset as int, j as int));
                    assert forall|j2: int| first_at(h, offset as int, j2) implies j2 == j by {
                        if j2 < j {
                            assert(!(after_base(h, j2) && position(h, j2) == offset));
                        } else if j2 > j {
                            assert(!(after_base(h, j as int) && position(h, j as int) == offset));
                        }
                    }
                }
                return Some(v);
            }
            j += 1;
        }
        proof {
            assert forall|j2: int| !first_at(h, offset as int, j2) by {
                if 0 <= j2 < n {
                    assert(!(after_base(h, j2) && position(h, j2) == offset));
                }
            }
        }
        Some(history[n - 1].1)
    }

    /// Detect the period of a room's history. Returns 0 if no pattern found.
    fn detect_period(&self, room_id: &str) -> (r: u64)
        requires
            self.wf(),
            detect_defined(self.history(room_id@)),
        ensures
            r == spec_detect_period(self.history(room_id@)),
    {
        match self.find(room_id) {
            Some(i) => {
                proof {
                    self.lemma_entry(i as int);
                }
                period_of(&self.histories[i].1)
            },
            None => 0,
        }
    }
}

/// Period detection on one history: candidate periods from one to half the
/// history are tried, and the first that the history repeats with is taken;
/// failing that, zero.
fn period_of(history: &Vec<(u64, Ternary)>) -> (r: u64)
    requires
        detect_defined(history@),
    ensures
        r == spec_detect_period(history@),
{
    let ghost h = history@;
    let n = history.len();
    if n < 2 {
        return 0;
    }
    let max_period = n / 2;
    let last_period = if max_period < 1 {
        1
    } else {
        max_period
    };
    let base_tick = history[0].0;
    let mut period: usize = 1;
    while period <= last_period
        invariant
            h == history@,
            n == h.len(),
            n >= 2,
            last_period == max_candidate(h),
            base_tick == h[0].0,
            1 <= period <= last_period + 1,
            detect_defined(h),
            forall|q: int| 1 <= q < period ==> !#[trigger] repeats_with(h, q),
        decreases last_period + 1 - period,
    {
        let p = period as u64;
        let mut matches = true;
        let mut j: usize = 0;
        assert(scan_completes(h, period as int));
        while j < n
            invariant_except_break
                matches,
            invariant
                h == history@,
                n == h.len(),
                base_tick == h[0].0,
                p == period,
                j <= n,
                scan_completes(h, period as int),
                forall|i: int|
                    0 <= i < j ==> after_base(h, i) && !#[trigger] mismatch_at(h, p as int, i),
                !matches ==> !repeats_with(h, p as int),
            ensures
                matches ==> forall|i: int|
                    0 <= i < n ==> after_base(h, i) && !#[trigger] mismatch_at(h, p as int, i),
                !matches ==> !repeats_with(h, p as int),
            decreases n - j,
        {
            let t = history[j].0;
            let v = history[j].1;
            if t < base_tick {
                proof {
                    assert(!after_base(h, j as int));
                    let i = choose|i: int| 0 <= i < j && #[trigger] mismatch_at(h, p as int, i);
                    assert(false);
                }
            }
            let idx = t - base_tick;
            if idx >= p {
                let compare_idx = idx - p;
                if compare_idx < n as u64 {
                    let compare_v = history[compare_idx as usize].1;
                    if v != compare_v {
                        matches = false;
                        proof {
                            assert(mismatch_at(h, p as int, j as int));
                        }
                        break;
                    }
                }
            }
            j += 1;
        }
        if matches {
            proof {
                assert(repeats_with(h, p as int));
                assert(first_repeat(h, p as int));
                assert forall|p2: int| first_repeat(h, p2) implies p2 == p by {
                    if p2 < p {
                        assert(!repeats_with(h, p2));
                    } else if p2 > p {
                        assert(!repeats_with(h, p as int));
                    }
                }
            }
            return p;
        }
        period += 1;
    }
    proof {
        assert(!exists|p2: int| first_repeat(h, p2));
    }
    0
}

/// Observations at consecutive ticks that repeat with a period `p`
/// repeat every multiple of `p` places.
proof fn lemma_repeat_reduces(h: History, p: int, m: int)
    requires
        p >= 1,
        repeats_with(h, p),
        forall|j: int| 0 <= j < h.len() ==> #[trigger] h[j].0 == h[0].0 + j,
        0 <= m < h.len(),
    ensures
        h[m].1 == h[m % p].1,
    decreases m,
{
    if m < p {
        vstd::arithmetic::div_mod::lemma_small_mod(m as nat, p as nat);
    } else {
        assert(h[m].0 == h[0].0 + m);
        assert(!mismatch_at(h, p, m));
        lemma_repeat_reduces(h, p, m - p);
        vstd::arithmetic::div_mod::lemma_mod_sub_multiples_vanish(m, p);
    }
}

/// Forecasting a periodic pattern: when a room was observed at consecutive
/// ticks and a period was detected, the forecast for any later tick is the
/// state observed at the same place in the first cycle; in particular, the
/// forecast for an observed tick is the state observed there.
pub proof fn lemma_predict_follows_cycle(h: History, m: nat)
    requires
        h.len() >= 2,
        forall|j: int| 0 <= j < h.len() ==> #[trigger] h[j].0 == h[0].0 + j,
        exists|p: int| first_repeat(h, p),
        h[0].0 + m <= u64::MAX,
    ensures
        predict_defined(h, (h[0].0 + m) as u64),
        1 <= spec_detect_period(h) <= h.len() / 2,
        spec_predict(h, (h[0].0 + m) as u64) == Some(h[(m as int) % spec_detect_period(h)].1),
        m < h.len() ==> spec_predict(h, (h[0].0 + m) as u64) == Some(h[m as int].1),
{
    let p = spec_detect_period(h);
    let t = (h[0].0 + m) as u64;
    assert(first_repeat(h, p));
    assert(forall|j: int| 0 <= j < h.len() ==> #[trigger] after_base(h, j)) by {
        assert forall|j: int| 0 <= j < h.len() implies #[trigger] after_base(h, j) by {
            assert(h[j].0 == h[0].0 + j);
        }
    }
    assert(h.last().0 == h[0].0 + (h.len() - 1));
    assert(detect_defined(h));
    let off = cycle_offset(h, t, p);
    assert(off == (m as int) % p);
    assert(0 <= off < p);
    assert(first_at(h, off, off)) by {
        assert(h[off].0 == h[0].0 + off);
        assert forall|i: int| 0 <= i < off implies !(after_base(h, i) && #[trigger] position(h, i) == off) by {
            assert(h[i].0 == h[0].0 + i);
        }
    }
    assert forall|j: int| first_at(h, off, j) implies j == off by {
        assert(h[j].0 == h[0].0 + j);
        if j > off {
            assert(!(after_base(h, off) && position(h, off) == off));
        }
    }
    assert(predict_defined(h, t));
    if m < h.len() {
        lemma_repeat_reduces(h, p, m as int);
    }
}

/// Without a pattern, the last observed state: when no candidate period
/// from one to half the history repeats, none is detected and every
/// forecast is the last observed state.
pub proof fn lemma_predict_without_pattern(h: History, tick: u64)
    requires
        h.len() >= 1,
        forall|p: int| 1 <= p <= max_candidate(h) ==> !#[trigger] repeats_with(h, p),
    ensures
        spec_detect_period(h) == 0,
        spec_predict(h, tick) == Some(h.last().1),
{
    assert(!exists|p: int| first_repeat(h, p));
}

/// Before the first observation, the first observed state: when a period
/// is detected, a forecast for a tick earlier than every observation's
/// first tick is the state observed first.
pub proof fn lemma_predict_before_first_observation(h: History, tick: u64)
    requires
        h.len() > 0,
        spec_detect_period(h) != 0,
        tick < h[0].0,
    ensures
        spec_predict(h, tick) == Some(h[0].1),
{
}

/// The forecast at a place of the cycle: once a period `p` is detected, a
/// forecast for a tick at or after the first observation is the state of the
/// first observation lying `(tick - first tick) % p` ticks after the first
/// one, or the last observed state when no observation lies there.
pub proof fn lemma_predict_at_cycle_place(h: History, tick: u64)
    requires
        h.len() > 0,
        spec_detect_period(h) != 0,
        tick >= h[0].0,
    ensures
        forall|j: int|
            #![trigger h[j]]
            0 <= j < h.len() && h[j].0 >= h[0].0 && h[j].0 - h[0].0 == (tick - h[0].0)
                % spec_detect_period(h) && (forall|i: int|
                #![trigger h[i]]
                0 <= i < j ==> !(h[i].0 >= h[0].0 && h[i].0 - h[0].0 == (tick - h[0].0)
                    % spec_detect_period(h))) ==> spec_predict(h, tick) == Some(h[j].1),
        (forall|j: int|
            #![trigger h[j]]
            0 <= j < h.len() ==> !(h[j].0 >= h[0].0 && h[j].0 - h[0].0 == (tick - h[0].0)
                % spec_detect_period(h))) ==> spec_predict(h, tick) == Some(h.last().1),
{
    let off = cycle_offset(h, tick, spec_detect_period(h));
    assert forall|j: int|
        #![trigger h[j]]
        0 <= j < h.len() && h[j].0 >= h[0].0 && h[j].0 - h[0].0 == off && (forall|i: int|
            #![trigger h[i]]
            0 <= i < j ==> !(h[i].0 >= h[0].0 && h[i].0 - h[0].0 == off)) implies spec_predict(
        h,
        tick,
    ) == Some(h[j].1) by {
        assert(first_at(h, off, j));
        assert forall|j2: int| first_at(h, off, j2) implies j2 == j by {
            if j2 < j {
                assert(!(h[j2].0 >= h[0].0 && h[j2].0 - h[0].0 == off));
            } else if j2 > j {
                assert(!(after_base(h, j) && position(h, j) == off));
            }
        }
    }
    if forall|j: int|
        #![trigger h[j]]
        0 <= j < h.len() ==> !(h[j].0 >= h[0].0 && h[j].0 - h[0].0 == off) {
        assert forall|j: int| !first_at(h, off, j) by {
            if 0 <= j < h.len() {
                assert(!(h[j].0 >= h[0].0 && h[j].0 - h[0].0 == off));
            }
        }
    }
}

/// Some observation lies before the first one, or disagrees with the
/// observation stored `q` places before its position.
pub open spec fn candidate_fails(h: History, q: int) -> bool {
    exists|j: int|
        #![trigger h[j]]
        0 <= j < h.len() && (h[j].0 < h[0].0 || (h[j].0 - h[0].0 >= q && h[j].0 - h[0].0 - q
            < h.len() && h[j].1 != h[h[j].0 - h[0].0 - q].1))
}

/// The detected period is the first candidate the history repeats with: a
/// detected period lies between one and half the history (at least one),
/// every observation lies at or after the first and agrees with the
/// observation stored that many places before its position, and every
/// smaller candidate fails; when none is detected in a history of two or
/// more observations, every candidate fails.
pub proof fn lemma_detected_period_is_first_repeat(h: History)
    ensures
        spec_detect_period(h) != 0 ==> h.len() >= 2,
        spec_detect_period(h) != 0 ==> 1 <= spec_detect_period(h),
        spec_detect_period(h) != 0 ==> (spec_detect_period(h) <= h.len() / 2
            || spec_detect_period(h) == 1),
        spec_detect_period(h) != 0 ==> forall|j: int|
            #![trigger h[j]]
            0 <= j < h.len() ==> h[j].0 >= h[0].0 && (h[j].0 - h[0].0 >= spec_detect_period(h)
                && h[j].0 - h[0].0 - spec_detect_period(h) < h.len() ==> h[j].1 == h[h[j].0
                - h[0].0 - spec_detect_period(h)].1),
        spec_detect_period(h) != 0 ==> forall|q: int|
            1 <= q < spec_detect_period(h) ==> #[trigger] candidate_fails(h, q),
        (spec_detect_period(h) == 0 && h.len() >= 2) ==> forall|q: int|
            1 <= q <= (if h.len() / 2 < 1 { 1 } else { h.len() / 2 }) ==> #[trigger] candidate_fails(
                h,
                q,
            ),
{
    let p = spec_detect_period(h);
    if p != 0 {
        assert(first_repeat(h, p));
        assert forall|j: int| #![trigger h[j]] 0 <= j < h.len() implies h[j].0 >= h[0].0 && (h[j].0 - h[0].0
            >= p && h[j].0 - h[0].0 - p < h.len() ==> h[j].1 == h[h[j].0 - h[0].0 - p].1) by {
            assert(!mismatch_at(h, p, j));
        }
        assert forall|q: int| 1 <= q < p implies #[trigger] candidate_fails(h, q) by {
            assert(!repeats_with(h, q));
            let j = choose|j: int| 0 <= j < h.len() && !(after_base(h, j) && !mismatch_at(h, q, j));
            assert(after_base(h, j));
            assert(mismatch_at(h, q, j));
        }
    }
    if p == 0 && h.len() >= 2 {
        assert(!exists|p2: int| first_repeat(h, p2));
        assert forall|q: int|
            1 <= q <= (if h.len() / 2 < 1 { 1 } else { h.len() / 2 }) implies #[trigger] candidate_fails(
                h,
                q,
            ) by {
            lemma_no_candidate_repeats(h, q);
            let j = choose|j: int| 0 <= j < h.len() && !(after_base(h, j) && !mismatch_at(h, q, j));
            if after_base(h, j) {
                assert(mismatch_at(h, q, j));
            }
        }
    }
}

/// With no first repeating candidate, no candidate repeats.
proof fn lemma_no_candidate_repeats(h: History, q: int)
    requires
        !exists|p: int| first_repeat(h, p),
        1 <= q <= max_candidate(h),
    ensures
        !repeats_with(h, q),
    decreases q,
{
    if repeats_with(h, q) {
        assert forall|r: int| 1 <= r < q implies !#[trigger] repeats_with(h, r) by {
            lemma_no_candidate_repeats(h, r);
        }
        assert(first_repeat(h, q));
    }
}

/// Observing a room adds one observation to its history and leaves every
/// other room's history as it was.
pub proof fn lemma_observe_counts(
    before: TidePredictor,
    after: TidePredictor,
    room: Seq<char>,
    tick: u64,
    value: Ternary,
    other: Seq<char>,
)
    requires
        after@ == before@.insert(room, before.history(room).push((tick, value))),
    ensures
        after.history(room).len() == before.history(room).len() + 1,
        after.history(room).last() == (tick, value),
        other != room ==> after.history(other) == before.history(other),
{
}

} // verus!
