use vstd::prelude::*;
use crate::phase::at_least_one;
use crate::arith::{lemma_multiple_of_mod, multiple_of};

verus! {

/// A group of phase-locked rooms.
///
/// All rooms in a pool share a synchronization rhythm but may have
/// individual phase offsets.
#[derive(Debug)]
pub struct TidePool {
    id: String,
    /// Room ID and its phase offset in ticks; no room ID occurs twice.
    rooms: Vec<(String, u64)>,
    /// Sync period for the pool.
    period: u64,
}

impl TidePool {
    /// The room IDs, in the order in which the rooms were added.
    pub closed spec fn keys(self) -> Seq<Seq<char>> {
        self.rooms@.map_values(|e: (String, u64)| e.0@)
    }

    /// No room ID occurs twice, the period is positive and every offset
    /// lies below it.
    #[verifier::type_invariant]
    pub closed spec fn wf(self) -> bool {
        &&& self.keys().no_duplicates()
        &&& self.period >= 1
        &&& forall|i: int| 0 <= i < self.rooms.len() ==> #[trigger] self.rooms[i].1 < self.period
    }

    /// The offset of each room in the pool.
    pub closed spec fn as_map(self) -> Map<Seq<char>, u64> {
        Map::new(
            |k: Seq<char>| self.keys().contains(k),
            |k: Seq<char>| self.rooms[self.keys().index_of(k)].1,
        )
    }

    pub closed spec fn spec_id(self) -> Seq<char> {
        self.id@
    }

    pub closed spec fn spec_period(self) -> u64 {
        self.period
    }

    /// A room with this offset is in phase at this tick.
    pub open spec fn aligned(self, offset: u64, tick: u64) -> bool {
        (tick + offset) % (self.spec_period() as int) == 0
    }
}

impl Clone for TidePool {
    /// A copy of the pool: the same identifier, period and rooms.
    fn clone(&self) -> (r: Self)
        ensures
            r@ == self@,
            r.spec_id() == self.spec_id(),
            r.spec_period() == self.spec_period(),
    {
        proof {
            use_type_invariant(self);
        }
        let mut rooms: Vec<(String, u64)> = Vec::new();
        let n = self.rooms.len();
        let mut j: usize = 0;
        while j < n
            invariant
                n == self.rooms.len(),
                j <= n,
                rooms@ == self.rooms@.take(j as int),
            decreases n - j,
        {
            let name = self.rooms[j].0.clone();
            rooms.push((name, self.rooms[j].1));
            proof {
                assert(self.rooms@.take(j + 1) =~= self.rooms@.take(j as int).push(self.rooms@[j as int]));
            }
            j += 1;
        }
        proof {
            assert(rooms@ =~= self.rooms@);
        }
        TidePool { id: self.id.clone(), rooms, period: self.period }
    }
}

impl View for TidePool {
    type V = Map<Seq<char>, u64>;

    open spec fn view(&self) -> Map<Seq<char>, u64> {
        self.as_map()
    }
}

impl TidePool {
    /// The entry at `i` is what the map holds for its room.
    proof fn lemma_entry(self, i: int)
        requires
            self.wf(),
            0 <= i < self.rooms.len(),
        ensures
            self.keys()[i] == self.rooms[i].0@,
            self@.contains_key(self.rooms[i].0@),
            self@[self.rooms[i].0@] == self.rooms[i].1,
    {
        let k = self.rooms[i].0@;
        assert(self.keys()[i] == k);
        assert(self.keys().contains(k));
        let j = self.keys().index_of(k);
        assert(self.keys()[j] == k);
        if j != i {
            assert(self.keys()[j] == self.keys()[i]);
        }
    }

    /// The index of a room's entry, if it has one.
    fn find(&self, room_id: &str) -> (r: Option<usize>)
        requires
            self.wf(),
        ensures
            r matches Some(i) ==> i < self.rooms.len() && self.rooms[i as int].0@ == room_id@,
            r is None ==> !self@.contains_key(room_id@),
    {
        let key = room_id.to_owned();
        let n = self.rooms.len();
        let mut i: usize = 0;
        while i < n
            invariant
                n == self.rooms.len(),
                i <= n,
                key@ == room_id@,
                forall|j: int| 0 <= j < i ==> #[trigger] self.rooms[j].0@ != room_id@,
            decreases n - i,
        {
            if self.rooms[i].0 == key {
                return Some(i);
            }
            i += 1;
        }
        proof {
            if self.keys().contains(room_id@) {
                let j = self.keys().index_of(room_id@);
                assert(self.keys()[j] == self.rooms[j].0@);
            }
        }
        None
    }

    pub fn new(id: &str, period: u64) -> (r: Self)
        ensures
            r@ == Map::<Seq<char>, u64>::empty(),
            r.spec_id() == id@,
            r.spec_period() == at_least_one(period as nat),
            r.spec_period() >= 1,
    {
        let r = Self { id: id.to_owned(), rooms: Vec::new(), period: period.max(1) };
        assert(r@ =~= Map::<Seq<char>, u64>::empty());
        r
    }

    /// Add a room with a phase offset, reduced modulo the period; a room
    /// already in the pool takes the new offset.
    pub fn add_room(&mut self, room_id: &str, offset: u64)
        ensures
            final(self)@ == old(self)@.insert(room_id@, offset % old(self).spec_period()),
            final(self).spec_id() == old(self).spec_id(),
            final(self).spec_period() == old(self).spec_period(),
            final(self).spec_period() >= 1,
    {
        proof {
            use_type_invariant(&*self);
        }
        let reduced = offset % self.period;
        let ghost before = *self;
        let found = self.find(room_id);
        let mut rooms: Vec<(String, u64)> = Vec::new();
        std::mem::swap(&mut rooms, &mut self.rooms);
        match found {
            Some(i) => {
                proof {
                    before.lemma_entry(i as int);
                }
                let name = room_id.to_owned();
                rooms.set(i, (name, reduced));
                let ghost next = TidePool { id: before.id, rooms: rooms, period: before.period };
                proof {
                    assert(next.keys() =~= before.keys());
                    assert forall|k: Seq<char>| #![auto] next@.contains_key(k) implies next@[k] == before@.insert(room_id@, reduced)[k] by {
                        let j = next.keys().index_of(k);
                        next.lemma_entry(j);
                        if j != i {
                            before.lemma_entry(j);
                        }
                    }
                    assert(next@ =~= before@.insert(room_id@, reduced));
                }
                self.rooms = rooms;
            },
            None => {
                rooms.push((room_id.to_owned(), reduced));
                let ghost next = TidePool { id: before.id, rooms: rooms, period: before.period };
                proof {
                    let n = before.rooms.len() as int;
                    assert(next.keys() =~= before.keys().push(room_id@));
                    assert(!before.keys().contains(room_id@));
                    assert(next.keys().no_duplicates()) by {
                        assert forall|a: int, b: int| 0 <= a < next.keys().len() && 0 <= b < next.keys().len() && a != b implies next.keys()[a] != next.keys()[b] by {
                            if a < n && b < n {
                                assert(before.keys()[a] != before.keys()[b]);
                            } else if a == n {
                                assert(before.keys()[b] == next.keys()[b]);
                            } else {
                                assert(before.keys()[a] == next.keys()[a]);
                            }
                        }
                    }
                    assert forall|k: Seq<char>| #![auto] next@.contains_key(k) <==> before@.insert(room_id@, reduced).contains_key(k) by {
                        if next.keys().contains(k) && k != room_id@ {
                            let j = next.keys().index_of(k);
                            assert(before.keys()[j] == k);
                        }
                        if before.keys().contains(k) {
                            let j = before.keys().index_of(k);
                            assert(next.keys()[j] == k);
                        }
                        if k == room_id@ {
                            assert(next.keys()[n] == k);
                        }
                    }
                    assert forall|k: Seq<char>| #![auto] next@.contains_key(k) implies next@[k] == before@.insert(room_id@, reduced)[k] by {
                        let j = next.keys().index_of(k);
                        next.lemma_entry(j);
                        if j < n {
                            before.lemma_entry(j);
                        }
                    }
                    assert(next@ =~= before@.insert(room_id@, reduced));
                }
                self.rooms = rooms;
            },
        }
    }

    /// Remove a room; says whether it was in the pool.
    pub fn remove_room(&mut self, room_id: &str) -> (removed: bool)
        ensures
            removed == old(self)@.contains_key(room_id@),
            final(self)@ == old(self)@.remove(room_id@),
            final(self).spec_id() == old(self).spec_id(),
            final(self).spec_period() == old(self).spec_period(),
            final(self).spec_period() >= 1,
    {
        proof {
            use_type_invariant(&*self);
        }
        let ghost before = *self;
        let found = self.find(room_id);
        let mut rooms: Vec<(String, u64)> = Vec::new();
        std::mem::swap(&mut rooms, &mut self.rooms);
        match found {
            Some(i) => {
                proof {
                    before.lemma_entry(i as int);
                }
                rooms.remove(i);
                let ghost next = TidePool { id: before.id, rooms: rooms, period: before.period };
                proof {
                    assert(next.keys() =~= before.keys().remove(i as int));
                    assert(next.keys().no_duplicates()) by {
                        assert forall|a: int, b: int| 0 <= a < next.keys().len() && 0 <= b < next.keys().len() && a != b implies next.keys()[a] != next.keys()[b] by {
                            let a2 = if a < i { a } else { a + 1 };
                            let b2 = if b < i { b } else { b + 1 };
                            assert(before.keys()[a2] != before.keys()[b2]);
                        }
                    }
                    assert forall|k: Seq<char>| #![auto] next@.contains_key(k) <==> before@.remove(room_id@).contains_key(k) by {
                        if next@.contains_key(k) {
                            let j = next.keys().index_of(k);
                            let j2 = if j < i { j } else { j + 1 };
                            assert(before.keys()[j2] == k);
                            assert(before.keys()[i as int] == room_id@);
                        }
                        if before@.remove(room_id@).contains_key(k) {
                            let j = before.keys().index_of(k);
                            assert(j != i);
                            let j2 = if j < i { j } else { j - 1 };
                            assert(next.keys()[j2] == k);
                        }
                    }
                    assert forall|k: Seq<char>| #![auto] next@.contains_key(k) implies next@[k] == before@.remove(room_id@)[k] by {
                        let j = next.keys().index_of(k);
                        next.lemma_entry(j);
                        let j2 = if j < i { j } else { j + 1 };
                        before.lemma_entry(j2);
                    }
                    assert(next@ =~= before@.remove(room_id@));
                }
                self.rooms = rooms;
                true
            },
            None => {
                self.rooms = rooms;
                assert(before@ =~= before@.remove(room_id@));
                false
            },
        }
    }

    /// Number of rooms in the pool.
    pub fn room_count(&self) -> (n: usize)
        ensures
            n == self@.len(),
    {
        proof {
            use_type_invariant(self);
        }
        proof {
            self.keys().unique_seq_to_set();
            assert(self@.dom() =~= self.keys().to_set());
        }
        self.rooms.len()
    }
}

impl TidePool {
    /// Which rooms are in phase at the given tick? Each such room is listed
    /// once.
    pub fn in_phase_rooms(&self, tick: u64) -> (r: Vec<&str>)
        requires
            forall|k: Seq<char>| #[trigger] self@.contains_key(k) ==> tick + self@[k] <= u64::MAX,
        ensures
            forall|i: int|
                0 <= i < r.len() ==> self@.contains_key(#[trigger] r[i]@) && self.aligned(
                    self@[r[i]@],
                    tick,
                ),
            forall|k: Seq<char>|
                #[trigger] self@.contains_key(k) && self.aligned(self@[k], tick) ==> exists|i: int|
                    0 <= i < r.len() && #[trigger] r[i]@ == k,
            forall|i: int, j: int| 0 <= i < j < r.len() ==> #[trigger] r[i]@ != #[trigger] r[j]@,
    {
        proof {
            use_type_invariant(self);
        }
        let mut r: Vec<&str> = Vec::new();
        let ghost mut src: Seq<int> = Seq::empty();
        let n = self.rooms.len();
        let mut j: usize = 0;
        while j < n
            invariant
                n == self.rooms.len(),
                j <= n,
                self.wf(),
                forall|k: Seq<char>| #[trigger] self@.contains_key(k) ==> tick + self@[k] <= u64::MAX,
                src.len() == r.len(),
                forall|a: int| 0 <= a < src.len() ==> 0 <= #[trigger] src[a] < j,
                forall|a: int, b: int| 0 <= a < b < src.len() ==> #[trigger] src[a] < #[trigger] src[b],
                forall|a: int|
                    0 <= a < src.len() ==> #[trigger] r[a]@ == self.rooms[src[a]].0@ && self.aligned(
                        self.rooms[src[a]].1,
                        tick,
                    ),
                forall|b: int|
                    0 <= b < j && self.aligned(#[trigger] self.rooms[b].1, tick) ==> exists|a: int|
                        0 <= a < src.len() && src[a] == b,
            decreases n - j,
        {
            proof {
                self.lemma_entry(j as int);
            }
            let offset = self.rooms[j].1;
            let ghost old_r = r@;
            let ghost old_src = src;
            if (tick + offset) % self.period == 0 {
                r.push(self.rooms[j].0.as_str());
                proof {
                    src = src.push(j as int);
                    assert(self.aligned(self.rooms[j as int].1, tick));
                    assert forall|a: int| 0 <= a < src.len() implies #[trigger] r[a]@
                        == self.rooms[src[a]].0@ && self.aligned(self.rooms[src[a]].1, tick) by {
                        if a < old_src.len() {
                            assert(r[a] == old_r[a]);
                            assert(src[a] == old_src[a]);
                        }
                    }
                    assert forall|b: int|
                        0 <= b < j + 1 && self.aligned(#[trigger] self.rooms[b].1, tick) implies exists|a: int|
                            0 <= a < src.len() && src[a] == b by {
                        if b < j {
                            let a = choose|a: int| 0 <= a < old_src.len() && old_src[a] == b;
                            assert(src[a] == b);
                        } else {
                            assert(src[old_src.len() as int] == b);
                        }
                    }
                }
            } else {
                proof {
                    assert(!self.aligned(self.rooms[j as int].1, tick));
                }
            }
            j += 1;
        }
        proof {
            assert forall|i: int| 0 <= i < r.len() implies self@.contains_key(#[trigger] r[i]@)
                && self.aligned(self@[r[i]@], tick) by {
                self.lemma_entry(src[i]);
            }
            assert forall|k: Seq<char>|
                #[trigger] self@.contains_key(k) && self.aligned(self@[k], tick) implies exists|i: int|
                    0 <= i < r.len() && #[trigger] r[i]@ == k by {
                let b = self.keys().index_of(k);
                self.lemma_entry(b);
                assert(self.aligned(self.rooms[b].1, tick));
                let a = choose|a: int| 0 <= a < src.len() && src[a] == b;
                assert(r[a]@ == k);
            }
            assert forall|i: int, j: int| 0 <= i < j < r.len() implies #[trigger] r[i]@ != #[trigger] r[j]@ by {
                self.lemma_entry(src[i]);
                self.lemma_entry(src[j]);
                assert(self.keys()[src[i]] != self.keys()[src[j]]);
            }
        }
        r
    }

    /// The largest phase offset in the pool, or zero for an empty pool;
    /// `in_phase_rooms(tick)` is defined exactly when `tick` plus it fits in
    /// a `u64`.
    pub fn max_offset(&self) -> (r: u64)
        ensures
            forall|k: Seq<char>| #[trigger] self@.contains_key(k) ==> self@[k] <= r,
            self@.dom().is_empty() ==> r == 0,
            !self@.dom().is_empty() ==> exists|k: Seq<char>| #[trigger] self@.contains_key(k) && self@[k] == r,
    {
        proof {
            use_type_invariant(self);
        }
        let mut best: u64 = 0;
        let n = self.rooms.len();
        let mut j: usize = 0;
        while j < n
            invariant
                n == self.rooms.len(),
                j <= n,
                self.wf(),
                forall|b: int| 0 <= b < j ==> #[trigger] self.rooms[b].1 <= best,
                j == 0 ==> best == 0,
                j > 0 ==> exists|b: int| 0 <= b < j && #[trigger] self.rooms[b].1 == best,
            decreases n - j,
        {
            if self.rooms[j].1 >= best {
                best = self.rooms[j].1;
            }
            j += 1;
        }
        proof {
            assert forall|k: Seq<char>| #[trigger] self@.contains_key(k) implies self@[k] <= best by {
                let b = self.keys().index_of(k);
                self.lemma_entry(b);
            }
            if n == 0 {
                assert forall|k: Seq<char>| !#[trigger] self@.contains_key(k) by {}
                assert(self@.dom() =~= Set::empty());
            } else {
                let b = choose|b: int| 0 <= b < n && #[trigger] self.rooms[b].1 == best;
                self.lemma_entry(b);
                assert(self@.dom().contains(self.rooms[b].0@));
            }
        }
        best
    }

    /// The phase offset of a room, if it is in the pool.
    pub fn offset_of(&self, room_id: &str) -> (r: Option<u64>)
        ensures
            r == (if self@.contains_key(room_id@) {
                Some(self@[room_id@])
            } else {
                None
            }),
    {
        proof {
            use_type_invariant(self);
        }
        match self.find(room_id) {
            Some(i) => {
                proof {
                    self.lemma_entry(i as int);
                }
                Some(self.rooms[i].1)
            },
            None => None,
        }
    }

    pub fn id(&self) -> (r: &str)
        ensures
            r@ == self.spec_id(),
    {
        self.id.as_str()
    }

    pub fn period(&self) -> (r: u64)
        ensures
            r == self.spec_period(),
    {
        self.period
    }
}

impl TidePool {
    /// A well-formed pool has a positive period, and every offset in it lies
    /// below the period.
    pub proof fn lemma_wf_period(self)
        requires
            self.wf(),
        ensures
            self.spec_period() >= 1,
            forall|k: Seq<char>| #[trigger] self@.contains_key(k) ==> self@[k] < self.spec_period(),
    {
        assert forall|k: Seq<char>| #[trigger] self@.contains_key(k) implies self@[k] < self.spec_period() by {
            let b = self.keys().index_of(k);
            self.lemma_entry(b);
        }
    }

    /// A well-formed pool holds finitely many rooms.
    pub proof fn lemma_finite(self)
        requires
            self.wf(),
        ensures
            self@.dom().finite(),
    {
        assert(self@.dom() =~= self.keys().to_set());
    }
}

/// Adding a room counts one room more, unless it was in the pool already.
pub proof fn lemma_add_room_count(before: TidePool, after: TidePool, room: Seq<char>, offset: u64)
    requires
        before.wf(),
        after@ == before@.insert(room, offset),
    ensures
        after@.len() == before@.len() + (if before@.contains_key(room) { 0int } else { 1int }),
{
    before.lemma_finite();
}

/// Removing a room counts one room less, if it was in the pool.
pub proof fn lemma_remove_room_count(before: TidePool, after: TidePool, room: Seq<char>)
    requires
        before.wf(),
        after@ == before@.remove(room),
    ensures
        after@.len() == before@.len() - (if before@.contains_key(room) { 1int } else { 0int }),
{
    before.lemma_finite();
}

/// Adding a room that was not in the pool and removing it again leaves the
/// pool's rooms as they were.
pub proof fn lemma_add_then_remove(
    before: TidePool,
    added: TidePool,
    after: TidePool,
    room: Seq<char>,
    offset: u64,
)
    requires
        !before@.contains_key(room),
        added@ == before@.insert(room, offset),
        after@ == added@.remove(room),
    ensures
        added@.contains_key(room),
        after@ == before@,
{
    assert(after@ =~= before@);
}

/// A room added with an offset is in phase at a tick exactly when the tick
/// plus the offset, reduced modulo the period, is a multiple of the period.
pub proof fn lemma_added_room_phase(pool: TidePool, room: Seq<char>, offset: u64, tick: u64)
    requires
        pool.wf(),
        pool@.contains_key(room),
        pool@[room] == offset % pool.spec_period(),
    ensures
        pool.aligned(pool@[room], tick) == ((tick + offset) % (pool.spec_period() as int) == 0),
{
    let n = pool.spec_period() as int;
    vstd::arithmetic::div_mod::lemma_add_mod_noop(tick as int, offset as int, n);
    vstd::arithmetic::div_mod::lemma_add_mod_noop(tick as int, (offset % pool.spec_period()) as int, n);
    vstd::arithmetic::div_mod::lemma_mod_twice(offset as int, n);
}

/// A room of a pool is in phase at a tick exactly when the tick plus its
/// offset is a whole multiple of the pool's period.
pub proof fn lemma_aligned_iff_multiple(pool: TidePool, offset: u64, tick: u64)
    requires
        pool.wf(),
    ensures
        pool.aligned(offset, tick) <==> multiple_of(tick + offset, pool.spec_period() as int),
{
    pool.lemma_wf_period();
    lemma_multiple_of_mod(tick + offset, pool.spec_period() as int);
}

} // verus!
