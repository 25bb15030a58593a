//! Slot-based arena with generation-checked handles.
//!
//! A handle is an (index, generation) pair. A slot stores the generation it
//! was last issued under; a handle is valid only while its generation still
//! matches the slot's, so a handle that outlives its object is detected
//! instead of silently reading whatever reused the slot.

use vstd::prelude::*;

verus! {

/// A generation-checked reference into a [`Pool`].
#[derive(Clone, Copy, PartialEq, Eq, Structural, Debug, Hash)]
pub struct Handle {
    pub index: usize,
    pub generation: u64,
}

/// One arena slot: the generation it was last issued under, and the stored
/// object while the slot is occupied.
pub struct Slot<T> {
    pub generation: u64,
    pub payload: Option<T>,
}

/// A slot arena. Freed slots are recycled; each reuse bumps the slot's
/// generation so that stale handles never alias a newer object.
pub struct Pool<T> {
    pub slots: Vec<Slot<T>>,
    pub free: Vec<usize>,
    pub occupied: usize,
}

/// How many of the first `n` slots are occupied.
pub open spec fn count_occupied<T>(s: Seq<Slot<T>>, n: int) -> int
    decreases n,
{
    if n <= 0 {
        0
    } else {
        count_occupied(s, n - 1) + if s[n - 1].payload is Some {
            1int
        } else {
            0int
        }
    }
}

/// Counting occupied slots depends only on which slots are occupied.
proof fn lemma_count_agree<T>(s1: Seq<Slot<T>>, s2: Seq<Slot<T>>, n: int)
    requires
        n <= s1.len(),
        n <= s2.len(),
        forall|j: int| 0 <= j < n ==> ((s1[j].payload is Some) <==> (s2[j].payload is Some)),
    ensures
        count_occupied(s1, n) == count_occupied(s2, n),
    decreases n,
{
    if n > 0 {
        lemma_count_agree(s1, s2, n - 1);
    }
}

/// Toggling one slot changes the occupied count by exactly one.
proof fn lemma_count_update<T>(s: Seq<Slot<T>>, i: int, slot: Slot<T>, n: int)
    requires
        0 <= i < n <= s.len(),
    ensures
        count_occupied(s.update(i, slot), n) == count_occupied(s, n) + (if slot.payload is Some {
            1int
        } else {
            0int
        }) - (if s[i].payload is Some {
            1int
        } else {
            0int
        }),
    decreases n,
{
    if i == n - 1 {
        lemma_count_agree(s.update(i, slot), s, n - 1);
    } else {
        lemma_count_update(s, i, slot, n - 1);
    }
}

/// The occupied count never exceeds the slot count.
proof fn lemma_count_bounds<T>(s: Seq<Slot<T>>, n: int)
    requires
        0 <= n <= s.len(),
    ensures
        count_occupied(s, n) <= n,
        0 <= count_occupied(s, n),
    decreases n,
{
    if n > 0 {
        lemma_count_bounds(s, n - 1);
    }
}

/// An occupied slot contributes to the occupied count.
proof fn lemma_count_pos<T>(s: Seq<Slot<T>>, i: int, n: int)
    requires
        0 <= i < n <= s.len(),
        s[i].payload is Some,
    ensures
        count_occupied(s, n) >= 1,
    decreases n,
{
    lemma_count_bounds(s, n - 1);
    if i < n - 1 {
        lemma_count_pos(s, i, n - 1);
    }
}

impl<T> Pool<T> {
    /// How many slots the arena has ever allocated.
    pub open spec fn slot_count(self) -> int {
        self.slots@.len() as int
    }

    /// Whether slot `i` currently holds an object.
    pub open spec fn occ(self, i: int) -> bool {
        0 <= i < self.slot_count() && self.slots@[i].payload is Some
    }

    /// The generation slot `i` was last issued under.
    pub open spec fn gen_at(self, i: int) -> u64 {
        self.slots@[i].generation
    }

    /// Whether `h` still refers to a live object.
    pub open spec fn spec_valid(self, h: Handle) -> bool {
        self.occ(h.index as int) && self.gen_at(h.index as int) == h.generation
    }

    /// The object a valid handle refers to.
    pub open spec fn at(self, h: Handle) -> T
        recommends
            self.spec_valid(h),
    {
        self.slots@[h.index as int].payload->0
    }

    /// The valid handle addressing slot `i`, while `i` is occupied.
    pub open spec fn handle_at(self, i: int) -> Handle {
        Handle { index: i as usize, generation: self.gen_at(i) }
    }

    /// How many objects the pool holds.
    pub open spec fn count(self) -> int {
        self.occupied as int
    }

    /// Internal consistency: the occupancy counter matches the slots, and
    /// the free list holds exactly reusable vacant slots, each at most once.
    pub open spec fn wf(self) -> bool {
        &&& self.occupied == count_occupied(self.slots@, self.slot_count())
        &&& forall|k: int|
            0 <= k < self.free@.len() ==> (#[trigger] self.free@[k] < self.slots@.len()
                && self.slots@[self.free@[k] as int].payload is None
                && self.slots@[self.free@[k] as int].generation < u64::MAX)
        &&& forall|k1: int, k2: int|
            0 <= k1 < k2 < self.free@.len() ==> self.free@[k1] != self.free@[k2]
        &&& forall|i: int| #[trigger] self.occ(i) ==> self.gen_at(i) < u64::MAX
    }

    /// Generations never move backwards from one pool state to a later one,
    /// and slots are never deallocated.
    pub open spec fn evolves_from(self, prev: Pool<T>) -> bool {
        &&& prev.slot_count() <= self.slot_count()
        &&& forall|i: int| 0 <= i < prev.slot_count() ==> prev.gen_at(i) <= self.gen_at(i)
    }

    /// An empty pool.
    pub fn new() -> (p: Pool<T>)
        ensures
            p.wf(),
            p.count() == 0,
            p.slot_count() == 0,
            forall|h: Handle| !p.spec_valid(h),
    {
        Pool { slots: Vec::new(), free: Vec::new(), occupied: 0 }
    }

    /// How many objects the pool currently holds.
    pub fn alive_count(&self) -> (n: usize)
        ensures
            n == self.count(),
    {
        self.occupied
    }

    /// Whether `h` still refers to a live object.
    pub fn is_valid(&self, h: Handle) -> (r: bool)
        ensures
            r == self.spec_valid(h),
    {
        h.index < self.slots.len() && {
            let slot = &self.slots[h.index];
            slot.payload.is_some() && slot.generation == h.generation
        }
    }

    /// Borrows the object behind `h`, or nothing if the handle is stale.
    pub fn get(&self, h: Handle) -> (r: Option<&T>)
        ensures
            (r is Some) == self.spec_valid(h),
            self.spec_valid(h) ==> r == Some(&self.at(h)),
    {
        if h.index < self.slots.len() {
            let slot = &self.slots[h.index];
            if slot.generation == h.generation {
                slot.payload.as_ref()
            } else {
                None
            }
        } else {
            None
        }
    }

    /// Stores `value` in a recycled or fresh slot and returns its handle.
    pub fn add(&mut self, value: T) -> (h: Handle)
        requires
            old(self).wf(),
            old(self).slot_count() < usize::MAX,
        ensures
            final(self).wf(),
            final(self).spec_valid(h),
            final(self).at(h) == value,
            !old(self).spec_valid(h),
            final(self).count() == old(self).count() + 1,
            final(self).evolves_from(*old(self)),
            forall|i: int|
                0 <= i < old(self).slot_count() ==> final(self).gen_at(i) == old(self).gen_at(i),
            forall|h2: Handle|
                old(self).spec_valid(h2) ==> final(self).spec_valid(h2) && final(self).at(h2)
                    == old(self).at(h2),
            forall|h2: Handle| final(self).spec_valid(h2) ==> old(self).spec_valid(h2) || h2 == h,
            forall|i: int|
                0 <= i < final(self).slot_count() && i != h.index ==> (final(self).occ(i) == old(
                    self,
                ).occ(i) && (old(self).occ(i) ==> final(self).slots@[i].payload == old(
                    self,
                ).slots@[i].payload)),
    {
        proof {
            lemma_count_bounds(self.slots@, self.slot_count());
        }
        let ghost prev = *self;
        match self.free.pop() {
            Some(i) => {
                let generation = self.slots[i].generation;
                self.slots[i] = Slot { generation, payload: Some(value) };
                self.occupied = self.occupied + 1;
                proof {
                    lemma_count_update(
                        prev.slots@,
                        i as int,
                        Slot { generation, payload: Some(value) },
                        prev.slot_count(),
                    );
                    assert(prev.free@[prev.free@.len() - 1] == i);
                    assert forall|k: int| 0 <= k < self.free@.len() implies (
                        #[trigger] self.free@[k] < self.slots@.len()
                        && self.slots@[self.free@[k] as int].payload is None
                        && self.slots@[self.free@[k] as int].generation < u64::MAX) by {
                        assert(prev.free@[k] == self.free@[k]);
                        assert(self.free@[k] != i);
                    }
                    assert forall|j: int| #[trigger] self.occ(j) implies self.gen_at(j)
                        < u64::MAX by {
                        if j != i {
                            assert(prev.occ(j));
                        } else {
                            assert(prev.slots@[i as int].generation < u64::MAX);
                        }
                    }
                }
                Handle { index: i, generation }
            },
            None => {
                let index = self.slots.len();
                self.slots.push(Slot { generation: 0, payload: Some(value) });
                self.occupied = self.occupied + 1;
                proof {
                    lemma_count_agree(self.slots@, prev.slots@, prev.slot_count());
                    assert forall|k: int| 0 <= k < self.free@.len() implies (
                        #[trigger] self.free@[k] < self.slots@.len()
                        && self.slots@[self.free@[k] as int].payload is None
                        && self.slots@[self.free@[k] as int].generation < u64::MAX) by {
                        assert(prev.free@[k] == self.free@[k]);
                        assert(self.free@[k] < prev.slots@.len());
                    }
                    assert forall|j: int| #[trigger] self.occ(j) implies self.gen_at(j)
                        < u64::MAX by {
                        if j != index {
                            assert(prev.occ(j));
                        }
                    }
                }
                Handle { index, generation: 0 }
            },
        }
    }

    /// Removes the object behind `h`. The slot's generation is bumped, so
    /// `h` and every other handle issued for this lifetime of the slot go
    /// stale; a slot whose generation space is exhausted is retired rather
    /// than recycled.
    pub fn remove(&mut self, h: Handle) -> (r: Option<T>)
        requires
            old(self).wf(),
        ensures
            final(self).wf(),
            (r is Some) == old(self).spec_valid(h),
            final(self).evolves_from(*old(self)),
            !old(self).spec_valid(h) ==> *final(self) == *old(self),
            old(self).spec_valid(h) ==> {
                &&& r == Some(old(self).at(h))
                &&& !final(self).spec_valid(h)
                &&& h.generation < final(self).gen_at(h.index as int)
                &&& final(self).count() == old(self).count() - 1
                &&& final(self).slot_count() == old(self).slot_count()
                &&& forall|h2: Handle|
                    h2 != h ==> (final(self).spec_valid(h2) == old(self).spec_valid(h2) && (old(
                        self,
                    ).spec_valid(h2) ==> final(self).at(h2) == old(self).at(h2)))
                &&& forall|i: int|
                    0 <= i < final(self).slot_count() && i != h.index ==> final(self).slots@[i]
                        == old(self).slots@[i]
                &&& !final(self).occ(h.index as int)
            },
    {
        if !self.is_valid(h) {
            return None;
        }
        let ghost prev = *self;
        let i = h.index;
        proof {
            assert(prev.occ(i as int));
            lemma_count_pos(prev.slots@, i as int, prev.slot_count());
        }
        let generation = self.slots[i].generation;
        let mut slot = Slot { generation: generation + 1, payload: None };
        core::mem::swap(&mut self.slots[i], &mut slot);
        self.occupied = self.occupied - 1;
        proof {
            lemma_count_update(
                prev.slots@,
                i as int,
                self.slots@[i as int],
                prev.slot_count(),
            );
            lemma_count_bounds(prev.slots@, prev.slot_count());
        }
        if generation + 1 < u64::MAX {
            self.free.push(i);
        }
        proof {
            assert forall|k1: int, k2: int| 0 <= k1 < k2 < self.free@.len() implies self.free@[k1]
                != self.free@[k2] by {
                if k2 == self.free@.len() - 1 && generation + 1 < u64::MAX {
                    assert(prev.free@[k1] == self.free@[k1]);
                    assert(prev.slots@[self.free@[k1] as int].payload is None);
                    assert(prev.slots@[i as int].payload is Some);
                }
            }
            assert forall|k: int| 0 <= k < self.free@.len() implies (
                #[trigger] self.free@[k] < self.slots@.len()
                && self.slots@[self.free@[k] as int].payload is None
                && self.slots@[self.free@[k] as int].generation < u64::MAX) by {
                if k < prev.free@.len() {
                    assert(prev.free@[k] == self.free@[k]);
                    assert(prev.slots@[self.free@[k] as int].payload is None);
                    assert(self.free@[k] != i);
                }
            }
            assert forall|j: int| #[trigger] self.occ(j) implies self.gen_at(j) < u64::MAX by {
                assert(j != i);
                assert(prev.occ(j));
            }
        }
        slot.payload
    }

    /// Replaces the object behind a valid handle.
    pub fn set(&mut self, h: Handle, value: T) -> (r: bool)
        requires
            old(self).wf(),
        ensures
            final(self).wf(),
            r == old(self).spec_valid(h),
            !old(self).spec_valid(h) ==> *final(self) == *old(self),
            old(self).spec_valid(h) ==> {
                &&& final(self).spec_valid(h)
                &&& final(self).at(h) == value
                &&& final(self).slot_count() == old(self).slot_count()
                &&& final(self).count() == old(self).count()
                &&& final(self).free == old(self).free
                &&& forall|i: int|
                    0 <= i < final(self).slot_count() ==> final(self).gen_at(i) == old(
                        self,
                    ).gen_at(i)
                &&& forall|i: int|
                    0 <= i < final(self).slot_count() && i != h.index ==> final(self).slots@[i]
                        == old(self).slots@[i]
                &&& forall|h2: Handle| final(self).spec_valid(h2) == old(self).spec_valid(h2)
                &&& forall|h2: Handle|
                    h2.index != h.index && old(self).spec_valid(h2) ==> final(self).at(h2) == old(
                        self,
                    ).at(h2)
            },
    {
        if !self.is_valid(h) {
            return false;
        }
        let ghost prev = *self;
        let generation = self.slots[h.index].generation;
        self.slots[h.index] = Slot { generation, payload: Some(value) };
        proof {
            lemma_count_update(
                prev.slots@,
                h.index as int,
                self.slots@[h.index as int],
                prev.slot_count(),
            );
            assert forall|k: int| 0 <= k < self.free@.len() implies (
                #[trigger] self.free@[k] < self.slots@.len()
                && self.slots@[self.free@[k] as int].payload is None
                && self.slots@[self.free@[k] as int].generation < u64::MAX) by {
                assert(prev.free@[k] == self.free@[k]);
                assert(prev.slots@[self.free@[k] as int].payload is None);
            }
            assert forall|j: int| #[trigger] self.occ(j) implies self.gen_at(j) < u64::MAX by {
                if j != h.index {
                    assert(prev.occ(j));
                } else {
                    assert(prev.occ(j));
                    assert(self.gen_at(j) == prev.gen_at(j));
                }
            }
        }
        true
    }

    /// The handle addressing slot `i`, while `i` is occupied.
    pub fn handle_of(&self, i: usize) -> (r: Option<Handle>)
        ensures
            (r is Some) == self.occ(i as int),
            self.occ(i as int) ==> r == Some(self.handle_at(i as int)) && self.spec_valid(
                self.handle_at(i as int),
            ),
    {
        if i < self.slots.len() && self.slots[i].payload.is_some() {
            Some(Handle { index: i, generation: self.slots[i].generation })
        } else {
            None
        }
    }

    /// The number of slots, for walking the pool in index order.
    pub fn slot_len(&self) -> (n: usize)
        ensures
            n == self.slot_count(),
    {
        self.slots.len()
    }
}

/// A list of distinct handles valid in the same pool, restricted to slots
/// below `n`, never outnumbers the occupied slots below `n`.
proof fn lemma_distinct_valid_le_count_upto<T>(p: Pool<T>, s: Seq<Handle>, n: int)
    requires
        0 <= n <= p.slot_count(),
        forall|j: int| 0 <= j < s.len() ==> p.spec_valid(#[trigger] s[j]) && s[j].index < n,
        forall|j1: int, j2: int| 0 <= j1 < j2 < s.len() ==> s[j1] != s[j2],
    ensures
        s.len() <= count_occupied(p.slots@, n),
    decreases n,
{
    if n == 0 {
        if s.len() > 0 {
            assert(s[0].index < 0);
        }
    } else {
        if exists|j: int| 0 <= j < s.len() && s[j].index == n - 1 {
            let j = choose|j: int| 0 <= j < s.len() && s[j].index == n - 1;
            let s2 = s.remove(j);
            assert forall|i: int| 0 <= i < s2.len() implies p.spec_valid(#[trigger] s2[i])
                && s2[i].index < n - 1 by {
                if i < j {
                    assert(s2[i] == s[i]);
                    if s[i].index == n - 1 {
                        assert(s[i].generation == p.gen_at(n - 1));
                        assert(s[j].generation == p.gen_at(n - 1));
                        assert(s[i] == s[j]);
                    }
                } else {
                    assert(s2[i] == s[i + 1]);
                    if s[i + 1].index == n - 1 {
                        assert(s[i + 1].generation == p.gen_at(n - 1));
                        assert(s[j].generation == p.gen_at(n - 1));
                        assert(s[i + 1] == s[j]);
                    }
                }
            }
            assert forall|j1: int, j2: int| 0 <= j1 < j2 < s2.len() implies s2[j1] != s2[j2] by {
                assert(s2[j1] == if j1 < j { s[j1] } else { s[j1 + 1] });
                assert(s2[j2] == if j2 < j { s[j2] } else { s[j2 + 1] });
            }
            lemma_distinct_valid_le_count_upto(p, s2, n - 1);
            assert(p.slots@[n - 1].payload is Some);
        } else {
            assert forall|j: int| 0 <= j < s.len() implies p.spec_valid(#[trigger] s[j])
                && s[j].index < n - 1 by {
                assert(s[j].index != n - 1);
            }
            lemma_distinct_valid_le_count_upto(p, s, n - 1);
        }
    }
}

/// A list of distinct handles all valid in one pool never outnumbers the
/// pool's live objects.
pub proof fn lemma_distinct_valid_le_count<T>(p: Pool<T>, s: Seq<Handle>)
    requires
        p.wf(),
        forall|j: int| 0 <= j < s.len() ==> p.spec_valid(#[trigger] s[j]),
        forall|j1: int, j2: int| 0 <= j1 < j2 < s.len() ==> s[j1] != s[j2],
    ensures
        s.len() <= p.count(),
{
    lemma_distinct_valid_le_count_upto(p, s, p.slot_count());
}

/// A handle whose generation has fallen behind its slot can never become
/// valid again, no matter how the pool evolves: generations only grow.
pub proof fn lemma_stale_handle_stays_invalid<T>(earlier: Pool<T>, later: Pool<T>, h: Handle)
    requires
        later.evolves_from(earlier),
        0 <= h.index < earlier.slot_count(),
        h.generation < earlier.gen_at(h.index as int),
    ensures
        !later.spec_valid(h),
{
}

/// Pool evolution is transitive, so stale handles stay invalid across any
/// chain of operations.
pub proof fn lemma_evolves_transitive<T>(first: Pool<T>, second: Pool<T>, third: Pool<T>)
    requires
        second.evolves_from(first),
        third.evolves_from(second),
    ensures
        third.evolves_from(first),
{
}

} // verus!
