//! Open-addressed `PageId -> ReadFrameIdx` map with linear probing, a fixed
//! capacity of `2 * frame_count` rounded up to a power of two, backward-shift
//! deletion without tombstones, and no rehash or growth ever.

use crate::num::{least_power_at_least, next_power_of_two, power_of_two};
use crate::pool::frames::ReadFrameIdx;
use crate::pool::PageId;
use vstd::prelude::*;
use vstd::set_lib::lemma_len_subset;

verus! {

/// One mapped extent.
pub type Mapping = (PageId, ReadFrameIdx);

/// One round of the page hash: two xor-shift multiplies and a final xor-shift.
pub open spec fn mixed(word: u64) -> u64 {
    let first = (word ^ (word >> 30)).wrapping_mul(0xbf58_476d_1ce4_e5b9);
    let second = (first ^ (first >> 27)).wrapping_mul(0x94d0_49bb_1331_11eb);
    second ^ (second >> 31)
}

/// The four-round hash of a page identity.
pub open spec fn hashed(page: PageId) -> u64 {
    let driver = mixed(0u64 ^ page.file.driver);
    let slot = mixed(driver ^ (page.file.slot as u64));
    let generation = mixed(slot ^ (page.file.generation as u64));
    mixed(generation ^ (page.granule_idx as u64))
}

fn mix(word: u64) -> (out: u64)
    ensures
        out == mixed(word),
{
    let first: u64 = (word ^ (word >> 30)).wrapping_mul(0xbf58_476d_1ce4_e5b9);
    let second: u64 = (first ^ (first >> 27)).wrapping_mul(0x94d0_49bb_1331_11eb);
    second ^ (second >> 31)
}

/// Hashes a page identity: driver, file slot, file generation, then granule.
pub fn page_hash(page: PageId) -> (hash: u64)
    ensures
        hash == hashed(page),
{
    let file = page.file();
    let mut hash: u64 = 0;
    hash = mix(hash ^ file.driver());
    hash = mix(hash ^ (file.slot() as u64));
    hash = mix(hash ^ (file.generation() as u64));
    mix(hash ^ (page.granule_idx() as u64))
}

/// The cyclic distance from slot `from` to slot `to` in a ring of `cap` slots.
pub open spec fn distance(from: int, to: int, cap: int) -> int {
    if from <= to {
        to - from
    } else {
        to - from + cap
    }
}

/// The slot `steps` after `from` in a ring of `cap` slots.
pub open spec fn step_from(from: int, steps: int, cap: int) -> int {
    if from + steps < cap {
        from + steps
    } else {
        from + steps - cap
    }
}

/// Slot `mid` lies on the probe path from `home` up to but excluding `end`.
pub open spec fn on_path(home: int, mid: int, end: int, cap: int) -> bool {
    distance(home, mid, cap) < distance(home, end, cap)
}

/// Whether an entry homed at `home`, currently at `scan`, may move back to fill
/// `gap`: exactly when `gap` lies on that entry's probe path.
fn fills_gap(home: u32, gap: u32, scan: u32, capacity: u32) -> (fills: bool)
    requires
        home < capacity,
        gap < capacity,
        scan < capacity,
        gap != scan,
    ensures
        fills == on_path(home as int, gap as int, scan as int, capacity as int),
{
    let scan_from_gap: u32 = if gap <= scan {
        scan - gap
    } else {
        capacity - (gap - scan)
    };
    let home_from_gap: u32 = if gap <= home {
        home - gap
    } else {
        capacity - (gap - home)
    };
    home_from_gap == 0 || home_from_gap > scan_from_gap
}

pub struct PageTable {
    slots: Vec<Option<Mapping>>,
    capacity: u32,
    len: u32,
    entries: Ghost<Map<PageId, ReadFrameIdx>>,
    /// When the entry in each slot was inserted, counted in insertions.
    ages: Ghost<Seq<nat>>,
    insertions: Ghost<nat>,
}

impl PageTable {
    pub closed spec fn view(&self) -> Map<PageId, ReadFrameIdx> {
        self.entries@
    }

    /// The fixed number of slots.
    pub closed spec fn slot_count(self) -> nat {
        self.capacity as nat
    }

    /// The first slot of `page`'s probe chain.
    pub open spec fn home(self, page: PageId) -> int {
        hashed(page) as int % (self.slot_count() as int)
    }

    spec fn key(self, slot: int) -> PageId {
        self.slots@[slot].unwrap().0
    }

    spec fn taken(self, slot: int) -> bool {
        self.slots@[slot] is Some
    }

    spec fn keyed_home(self, slot: int) -> int {
        self.home(self.key(slot))
    }

    spec fn in_ring(self, slot: int) -> bool {
        0 <= slot < self.capacity
    }

    /// The slots hold exactly the mapped entries, each once.
    spec fn holds_entries(self) -> bool {
        &&& self.capacity >= 2
        &&& power_of_two(self.capacity as int)
        &&& self.slots@.len() == self.capacity
        &&& self.ages@.len() == self.capacity
        &&& self.entries@.dom().finite()
        &&& self.len == self.entries@.dom().len()
        &&& self.len <= self.capacity
        &&& forall|i: int|
            self.in_ring(i) && #[trigger] self.taken(i) ==> self.entries@.contains_key(self.key(i))
                && self.entries@[self.key(i)] == self.slots@[i].unwrap().1 && self.ages@[i]
                < self.insertions@
        &&& forall|i: int, j: int|
            self.in_ring(i) && self.in_ring(j) && i != j && #[trigger] self.taken(i)
                && #[trigger] self.taken(j) ==> self.key(i) != self.key(j)
        &&& forall|page: PageId| #[trigger]
            self.entries@.contains_key(page) ==> exists|i: int|
                self.in_ring(i) && #[trigger] self.taken(i) && self.key(i) == page
    }

    /// Every slot on an entry's probe path holds an older entry.
    spec fn chained(self) -> bool {
        forall|i: int, j: int|
            self.in_ring(i) && self.in_ring(j) && #[trigger] self.taken(i) && #[trigger] on_path(
                self.keyed_home(i),
                j,
                i,
                self.capacity as int,
            ) ==> self.taken(j) && self.ages@[j] < self.ages@[i]
    }

    pub closed spec fn wf(self) -> bool {
        self.holds_entries() && self.chained()
    }

    /// `frame_count` frames have a table: doubled and rounded up, its slots
    /// still fit a `u32`.
    pub open spec fn fits(frame_count: u32) -> bool {
        0 < frame_count <= 0x4000_0000
    }

    /// Builds a table sized `2 * frame_count` rounded up to a power of two.
    #[must_use]
    pub fn with_frame_count(frame_count: u32) -> (table: Self)
        requires
            Self::fits(frame_count),
        ensures
            table.wf(),
            least_power_at_least(2 * frame_count as int, table.slot_count() as int),
            table@ == Map::<PageId, ReadFrameIdx>::empty(),
    {
        let doubled: u32 = frame_count * 2;
        let capacity: u32 = next_power_of_two(doubled) as u32;
        let mut slots: Vec<Option<Mapping>> = Vec::new();
        let mut i: u32 = 0;
        while i < capacity
            invariant
                i <= capacity,
                slots@.len() == i,
                forall|j: int| 0 <= j < i ==> #[trigger] slots@[j] is None,
            decreases capacity - i,
        {
            slots.push(None);
            i = i + 1;
        }
        PageTable {
            slots,
            capacity,
            len: 0,
            entries: Ghost(Map::empty()),
            ages: Ghost(Seq::new(capacity as nat, |i: int| 0nat)),
            insertions: Ghost(0nat),
        }
    }

    /// Builds the table, or `None` when `frame_count` is too large for one.
    pub fn try_with_frame_count(frame_count: u32) -> (table: Option<Self>)
        requires
            frame_count > 0,
        ensures
            table is Some <==> Self::fits(frame_count),
            table matches Some(t) ==> t.wf() && least_power_at_least(
                2 * frame_count as int,
                t.slot_count() as int,
            ) && t@ == Map::<PageId, ReadFrameIdx>::empty(),
    {
        if frame_count > 0x4000_0000 {
            None
        } else {
            Some(Self::with_frame_count(frame_count))
        }
    }

    #[must_use]
    pub fn capacity(&self) -> (capacity: u32)
        ensures
            capacity == self.slot_count(),
    {
        self.capacity
    }

    #[must_use]
    pub fn len(&self) -> (len: u32)
        requires
            self.wf(),
        ensures
            self@.dom().finite(),
            len == self@.dom().len(),
            len <= self.slot_count(),
    {
        self.len
    }

    #[must_use]
    pub fn is_empty(&self) -> (empty: bool)
        requires
            self.wf(),
        ensures
            empty == (self@ == Map::<PageId, ReadFrameIdx>::empty()),
    {
        proof {
            if self.len == 0 {
                assert(self@.dom() =~= Set::empty());
                assert(self@ =~= Map::empty());
            }
        }
        self.len() == 0
    }

    /// The linear-probe home slot of `page`, the start of its probe chain.
    #[must_use]
    pub fn home_slot(&self, page: PageId) -> (slot: u32)
        requires
            self.wf(),
        ensures
            slot == self.home(page),
            slot < self.slot_count(),
    {
        self.home_index(page)
    }

    fn home_index(&self, page: PageId) -> (slot: u32)
        requires
            self.capacity > 0,
        ensures
            slot == self.home(page),
            slot < self.capacity,
    {
        (page_hash(page) % (self.capacity as u64)) as u32
    }

    fn next_slot(&self, slot: u32) -> (next: u32)
        requires
            slot < self.capacity,
        ensures
            next == step_from(slot as int, 1, self.capacity as int),
            next < self.capacity,
    {
        if slot + 1 == self.capacity {
            0
        } else {
            slot + 1
        }
    }

    /// Walks `page`'s probe chain to its slot, or to the vacancy that ends the
    /// chain, or around the whole ring.
    fn probe(&self, page: PageId) -> (found: (u32, bool))
        requires
            self.wf(),
        ensures
            found.0 < self.capacity,
            found.1 ==> self.taken(found.0 as int) && self.key(found.0 as int) == page,
            !found.1 ==> !self@.contains_key(page),
            !found.1 && self.taken(found.0 as int) ==> forall|i: int|
                self.in_ring(i) ==> #[trigger] self.taken(i),
            !found.1 && !self.taken(found.0 as int) ==> forall|j: int|
                self.in_ring(j) && on_path(
                    self.home(page),
                    j,
                    found.0 as int,
                    self.capacity as int,
                ) ==> #[trigger] self.taken(j),
    {
        let home: u32 = self.home_index(page);
        let mut slot: u32 = home;
        let mut steps: u32 = 0;
        while steps < self.capacity
            invariant
                self.wf(),
                home == self.home(page),
                home < self.capacity,
                steps <= self.capacity,
                slot < self.capacity,
                steps < self.capacity ==> slot == step_from(
                    home as int,
                    steps as int,
                    self.capacity as int,
                ),
                steps == self.capacity ==> slot == home,
                self.passed(page, steps as int),
            decreases self.capacity - steps,
        {
            match self.slots[slot as usize] {
                Some(entry) => {
                    if entry.0 == page {
                        return (slot, true);
                    }
                },
                None => {
                    proof {
                        self.lemma_vacancy(page, slot as int, steps as int);
                    }
                    return (slot, false);
                },
            }
            proof {
                assert(self.taken(slot as int) && self.key(slot as int) != page);
                assert forall|j: int|
                    self.in_ring(j) && distance(self.home(page), j, self.capacity as int) < steps
                        + 1 implies (#[trigger] self.taken(j)) && self.key(j) != page by {
                    if distance(self.home(page), j, self.capacity as int) == steps {
                        assert(j == slot);
                    }
                }
            }
            slot = self.next_slot(slot);
            steps = steps + 1;
        }
        proof {
            self.lemma_went_around(page);
            assert(self.taken(slot as int));
        }
        (slot, false)
    }

    /// The first `steps` slots of `page`'s chain are taken by other keys.
    spec fn passed(self, page: PageId, steps: int) -> bool {
        forall|j: int|
            self.in_ring(j) && distance(self.home(page), j, self.capacity as int) < steps ==> (
            #[trigger] self.taken(j)) && self.key(j) != page
    }

    proof fn lemma_vacancy(self, page: PageId, slot: int, steps: int)
        requires
            self.wf(),
            self.in_ring(slot),
            0 <= self.home(page) < self.capacity,
            0 <= steps < self.capacity,
            slot == step_from(self.home(page), steps, self.capacity as int),
            self.passed(page, steps),
            !self.taken(slot),
        ensures
            !self@.contains_key(page),
            forall|j: int|
                self.in_ring(j) && on_path(self.home(page), j, slot, self.capacity as int)
                    ==> #[trigger] self.taken(j),
    {
        if self@.contains_key(page) {
            let i = choose|i: int|
                self.in_ring(i) && #[trigger] self.taken(i) && self.key(i) == page;
            assert(on_path(self.keyed_home(i), slot, i, self.capacity as int));
        }
    }

    proof fn lemma_went_around(self, page: PageId)
        requires
            self.wf(),
            0 <= self.home(page) < self.capacity,
            self.passed(page, self.capacity as int),
        ensures
            !self@.contains_key(page),
            forall|j: int| self.in_ring(j) ==> #[trigger] self.taken(j),
    {
        if self@.contains_key(page) {
            let i = choose|i: int|
                self.in_ring(i) && #[trigger] self.taken(i) && self.key(i) == page;
            assert(false);
        }
    }

    #[must_use]
    pub fn lookup(&self, page: PageId) -> (frame: Option<ReadFrameIdx>)
        requires
            self.wf(),
        ensures
            frame == (if self@.contains_key(page) {
                Some(self@[page])
            } else {
                None
            }),
    {
        let found = self.probe(page);
        if found.1 {
            match self.slots[found.0 as usize] {
                Some(entry) => Some(entry.1),
                None => None,
            }
        } else {
            None
        }
    }

    /// A ring with every slot taken holds as many entries as it has slots.
    proof fn lemma_full(self)
        requires
            self.wf(),
            forall|i: int| self.in_ring(i) ==> #[trigger] self.taken(i),
        ensures
            self@.dom().len() >= self.capacity,
    {
        let keys = self.first_keys(self.capacity as nat);
        self.lemma_first_keys(self.capacity as nat);
        assert(keys.subset_of(self@.dom()));
        lemma_len_subset(keys, self@.dom());
    }

    spec fn first_keys(self, n: nat) -> Set<PageId>
        decreases n,
    {
        if n == 0 {
            Set::empty()
        } else {
            self.first_keys((n - 1) as nat).insert(self.key(n - 1))
        }
    }

    proof fn lemma_first_keys(self, n: nat)
        requires
            self.wf(),
            n <= self.capacity,
            forall|i: int| self.in_ring(i) ==> #[trigger] self.taken(i),
        ensures
            self.first_keys(n).finite(),
            self.first_keys(n).len() == n,
            self.first_keys(n).subset_of(self@.dom()),
            forall|page: PageId|
                self.first_keys(n).contains(page) ==> exists|i: int|
                    0 <= i < n && #[trigger] self.taken(i) && self.key(i) == page,
        decreases n,
    {
        if n > 0 {
            self.lemma_first_keys((n - 1) as nat);
            assert(self.taken(n - 1));
            if self.first_keys((n - 1) as nat).contains(self.key(n - 1)) {
                let i = choose|i: int|
                    0 <= i < n - 1 && #[trigger] self.taken(i) && self.key(i) == self.key(n - 1);
                assert(false);
            }
            assert forall|page: PageId| self.first_keys(n).contains(page) implies exists|i: int|
                0 <= i < n && #[trigger] self.taken(i) && self.key(i) == page by {
                if page != self.key(n - 1) {
                    let i = choose|i: int|
                        0 <= i < n - 1 && #[trigger] self.taken(i) && self.key(i) == page;
                    assert(self.taken(i));
                }
            }
        }
    }

    /// Inserts or updates `page -> frame`. Updating an existing key never grows
    /// the table.
    pub fn insert(&mut self, page: PageId, frame: ReadFrameIdx)
        requires
            old(self).wf(),
            old(self)@.contains_key(page) || old(self)@.dom().len() < old(self).slot_count(),
        ensures
            final(self).wf(),
            final(self).slot_count() == old(self).slot_count(),
            final(self)@ == old(self)@.insert(page, frame),
    {
        let found = self.probe(page);
        let slot: u32 = found.0;
        let ghost at = slot as int;
        if found.1 {
            self.slots[slot as usize] = Some((page, frame));
            proof {
                self.entries@ = self.entries@.insert(page, frame);
                assert(self.entries@.dom() =~= old(self).entries@.dom());
                self.lemma_rewritten(*old(self), at, page, frame);
            }
        } else {
            proof {
                if self.taken(at) {
                    self.lemma_full();
                }
            }
            self.slots[slot as usize] = Some((page, frame));
            self.len = self.len + 1;
            proof {
                self.entries@ = self.entries@.insert(page, frame);
                self.ages@ = self.ages@.update(at, self.insertions@);
                self.insertions@ = self.insertions@ + 1;
                self.lemma_added(*old(self), at, page, frame);
            }
        }
    }

    proof fn lemma_rewritten(self, before: Self, at: int, page: PageId, frame: ReadFrameIdx)
        requires
            before.wf(),
            before.in_ring(at),
            before.taken(at),
            before.key(at) == page,
            self.slots@ == before.slots@.update(at, Some((page, frame))),
            self.capacity == before.capacity,
            self.len == before.len,
            self.entries@ == before.entries@.insert(page, frame),
            self.ages@ == before.ages@,
            self.insertions@ == before.insertions@,
        ensures
            self.wf(),
    {
        assert(self.entries@.dom() =~= before.entries@.dom());
        assert forall|i: int| self.in_ring(i) && #[trigger] self.taken(i) implies before.taken(i)
            && self.key(i) == before.key(i) by {
            if i != at {
                assert(self.slots@[i] == before.slots@[i]);
            }
        }
        assert forall|i: int, j: int|
            self.in_ring(i) && self.in_ring(j) && #[trigger] self.taken(i) && #[trigger] on_path(
                self.keyed_home(i),
                j,
                i,
                self.capacity as int,
            ) implies self.taken(j) && self.ages@[j] < self.ages@[i] by {
            assert(before.taken(i));
            assert(before.keyed_home(i) == self.keyed_home(i));
            assert(before.taken(j));
        }
        assert forall|p: PageId| #[trigger] self.entries@.contains_key(p) implies exists|i: int|
            self.in_ring(i) && #[trigger] self.taken(i) && self.key(i) == p by {
            let i = choose|i: int|
                before.in_ring(i) && #[trigger] before.taken(i) && before.key(i) == p;
            assert(self.taken(i));
        }
        assert forall|i: int| self.in_ring(i) && #[trigger] self.taken(i) implies
            self.entries@.contains_key(self.key(i)) && self.entries@[self.key(i)]
            == self.slots@[i].unwrap().1 && self.ages@[i] < self.insertions@ by {
            assert(before.taken(i));
            if i != at {
                assert(before.key(i) != before.key(at));
            }
        }
        assert forall|i: int, j: int|
            self.in_ring(i) && self.in_ring(j) && i != j && #[trigger] self.taken(i)
                && #[trigger] self.taken(j) implies self.key(i) != self.key(j) by {
            assert(before.taken(i) && before.taken(j));
        }
    }

    proof fn lemma_added(self, before: Self, at: int, page: PageId, frame: ReadFrameIdx)
        requires
            before.wf(),
            before.in_ring(at),
            !before.taken(at),
            !before@.contains_key(page),
            forall|j: int|
                before.in_ring(j) && on_path(before.home(page), j, at, before.capacity as int)
                    ==> #[trigger] before.taken(j),
            self.slots@ == before.slots@.update(at, Some((page, frame))),
            self.capacity == before.capacity,
            self.len == before.len + 1,
            self.len <= self.capacity,
            self.entries@ == before.entries@.insert(page, frame),
            self.ages@ == before.ages@.update(at, before.insertions@),
            self.insertions@ == before.insertions@ + 1,
        ensures
            self.wf(),
    {
        assert(self.entries@.dom() =~= before.entries@.dom().insert(page));
        assert forall|i: int| self.in_ring(i) && #[trigger] self.taken(i) && i != at implies
            before.taken(i) && self.key(i) == before.key(i) by {
            assert(self.slots@[i] == before.slots@[i]);
        }
        assert forall|i: int, j: int|
            self.in_ring(i) && self.in_ring(j) && #[trigger] self.taken(i) && #[trigger] on_path(
                self.keyed_home(i),
                j,
                i,
                self.capacity as int,
            ) implies self.taken(j) && self.ages@[j] < self.ages@[i] by {
            if i == at {
                assert(before.taken(j));
                assert(self.slots@[j] == before.slots@[j]);
            } else {
                assert(before.taken(i));
                assert(before.keyed_home(i) == self.keyed_home(i));
                assert(before.taken(j));
                assert(j != at);
                assert(self.slots@[j] == before.slots@[j]);
            }
        }
        assert forall|p: PageId| #[trigger] self.entries@.contains_key(p) implies exists|i: int|
            self.in_ring(i) && #[trigger] self.taken(i) && self.key(i) == p by {
            if p == page {
                assert(self.taken(at));
            } else {
                let i = choose|i: int|
                    before.in_ring(i) && #[trigger] before.taken(i) && before.key(i) == p;
                assert(self.slots@[i] == before.slots@[i]);
                assert(self.taken(i));
            }
        }
        assert forall|i: int| self.in_ring(i) && #[trigger] self.taken(i) implies
            self.entries@.contains_key(self.key(i)) && self.entries@[self.key(i)]
            == self.slots@[i].unwrap().1 && self.ages@[i] < self.insertions@ by {
            if i != at {
                assert(before.taken(i));
            }
        }
        assert forall|i: int, j: int|
            self.in_ring(i) && self.in_ring(j) && i != j && #[trigger] self.taken(i)
                && #[trigger] self.taken(j) implies self.key(i) != self.key(j) by {
            if i == at {
                assert(before.taken(j));
            } else if j == at {
                assert(before.taken(i));
            } else {
                assert(before.taken(i) && before.taken(j));
            }
        }
    }

    /// Removes `page`, returning its frame if present, and shifts the tail of
    /// its probe chain back so no lookup stops early.
    pub fn remove(&mut self, page: PageId) -> (frame: Option<ReadFrameIdx>)
        requires
            old(self).wf(),
        ensures
            final(self).wf(),
            final(self).slot_count() == old(self).slot_count(),
            final(self)@ == old(self)@.remove(page),
            frame == (if old(self)@.contains_key(page) {
                Some(old(self)@[page])
            } else {
                None
            }),
    {
        let found = self.probe(page);
        if !found.1 {
            assert(self@.remove(page) =~= self@);
            return None;
        }
        let gap: u32 = found.0;
        let removed: Option<ReadFrameIdx> = match self.slots[gap as usize] {
            Some(entry) => Some(entry.1),
            None => None,
        };
        let ghost age = self.ages@[gap as int];
        self.slots[gap as usize] = None;
        self.len = self.len - 1;
        proof {
            self.entries@ = self.entries@.remove(page);
            self.lemma_hole(*old(self), gap as int, page);
        }
        self.backward_shift(gap, Ghost(age));
        removed
    }

    /// The state while a hole at `gap` travels forward: the holes' last tenant
    /// had age `age`, `start` is where the hole was first, and every slot from
    /// `gap` to the one `scanned` steps after `start` has been examined.
    spec fn shifting(self, gap: int, age: nat, start: int, scanned: int) -> bool {
        let cap = self.capacity as int;
        &&& self.holds_entries()
        &&& self.in_ring(gap)
        &&& self.in_ring(start)
        &&& 0 <= scanned <= cap
        &&& distance(start, gap, cap) <= scanned
        &&& !self.taken(gap)
        &&& forall|i: int, j: int|
            self.in_ring(i) && self.in_ring(j) && #[trigger] self.taken(i) && #[trigger] on_path(
                self.keyed_home(i),
                j,
                i,
                cap,
            ) && j != gap ==> self.taken(j) && self.ages@[j] < self.ages@[i]
        &&& forall|i: int|
            self.in_ring(i) && #[trigger] self.taken(i) && on_path(
                self.keyed_home(i),
                gap,
                i,
                cap,
            ) ==> age < self.ages@[i]
        &&& forall|i: int|
            self.in_ring(i) && #[trigger] self.taken(i) && distance(start, gap, cap) < distance(
                start,
                i,
                cap,
            ) <= scanned ==> !on_path(self.keyed_home(i), gap, i, cap)
        &&& forall|i: int|
            self.in_ring(i) && #[trigger] self.taken(i) && distance(start, i, cap) < distance(
                start,
                gap,
                cap,
            ) ==> distance(start, self.keyed_home(i), cap) <= distance(start, i, cap)
                || self.ages@[i] <= age
    }

    proof fn lemma_hole(self, before: Self, gap: int, page: PageId)
        requires
            before.wf(),
            before.in_ring(gap),
            before.taken(gap),
            before.key(gap) == page,
            self.slots@ == before.slots@.update(gap, None),
            self.capacity == before.capacity,
            self.len == before.len - 1,
            self.entries@ == before.entries@.remove(page),
            self.ages@ == before.ages@,
            self.insertions@ == before.insertions@,
        ensures
            self.shifting(gap, before.ages@[gap], gap, 0),
    {
        assert(self.entries@.dom() =~= before.entries@.dom().remove(page));
        assert forall|i: int| self.in_ring(i) && #[trigger] self.taken(i) implies before.taken(i)
            && self.key(i) == before.key(i) && i != gap by {
            assert(self.slots@[i] == before.slots@[i]);
        }
        assert forall|i: int, j: int|
            self.in_ring(i) && self.in_ring(j) && #[trigger] self.taken(i) && #[trigger] on_path(
                self.keyed_home(i),
                j,
                i,
                self.capacity as int,
            ) && j != gap implies self.taken(j) && self.ages@[j] < self.ages@[i] by {
            assert(before.taken(i));
            assert(before.keyed_home(i) == self.keyed_home(i));
            assert(before.taken(j));
            assert(self.slots@[j] == before.slots@[j]);
        }
        assert forall|i: int|
            self.in_ring(i) && #[trigger] self.taken(i) && on_path(
                self.keyed_home(i),
                gap,
                i,
                self.capacity as int,
            ) implies before.ages@[gap] < self.ages@[i] by {
            assert(before.taken(i));
            assert(before.keyed_home(i) == self.keyed_home(i));
        }
        assert forall|p: PageId| #[trigger] self.entries@.contains_key(p) implies exists|i: int|
            self.in_ring(i) && #[trigger] self.taken(i) && self.key(i) == p by {
            let i = choose|i: int|
                before.in_ring(i) && #[trigger] before.taken(i) && before.key(i) == p;
            assert(i != gap);
            assert(self.slots@[i] == before.slots@[i]);
            assert(self.taken(i));
        }
        assert forall|i: int| self.in_ring(i) && #[trigger] self.taken(i) implies
            self.entries@.contains_key(self.key(i)) && self.entries@[self.key(i)]
            == self.slots@[i].unwrap().1 && self.ages@[i] < self.insertions@ by {
            assert(before.taken(i));
            assert(before.key(i) != before.key(gap));
        }
        assert forall|i: int, j: int|
            self.in_ring(i) && self.in_ring(j) && i != j && #[trigger] self.taken(i)
                && #[trigger] self.taken(j) implies self.key(i) != self.key(j) by {
            assert(before.taken(i) && before.taken(j));
        }
    }

    /// When the scan has met a vacancy or gone around, no chain crosses the gap.
    proof fn lemma_settled(self, gap: int, age: nat, start: int, scanned: int)
        requires
            self.shifting(gap, age, start, scanned),
            scanned == self.capacity || !self.taken(
                step_from(start, scanned + 1, self.capacity as int),
            ) && scanned + 1 <= self.capacity,
        ensures
            self.wf(),
    {
        let cap = self.capacity as int;
        assert forall|i: int|
            self.in_ring(i) && #[trigger] self.taken(i) implies !on_path(
            self.keyed_home(i),
            gap,
            i,
            cap,
        ) by {
            if on_path(self.keyed_home(i), gap, i, cap) {
                if distance(start, i, cap) < distance(start, gap, cap) {
                } else if distance(start, i, cap) <= scanned {
                } else {
                    let vacant = step_from(start, scanned + 1, cap);
                    assert(on_path(self.keyed_home(i), vacant, i, cap));
                }
            }
        }
        assert forall|i: int, j: int|
            self.in_ring(i) && self.in_ring(j) && #[trigger] self.taken(i) && #[trigger] on_path(
                self.keyed_home(i),
                j,
                i,
                cap,
            ) implies self.taken(j) && self.ages@[j] < self.ages@[i] by {
            assert(j != gap);
        }
    }

    /// Moving the scanned entry into the gap moves the hole to its slot.
    proof fn lemma_moved(
        self,
        before: Self,
        gap: int,
        scan: int,
        age: nat,
        start: int,
        scanned: int,
    )
        requires
            before.shifting(gap, age, start, scanned),
            scanned < before.capacity,
            scan == step_from(start, scanned + 1, before.capacity as int),
            before.taken(scan),
            on_path(before.keyed_home(scan), gap, scan, before.capacity as int),
            self.slots@ == before.slots@.update(gap, before.slots@[scan]).update(scan, None),
            self.capacity == before.capacity,
            self.len == before.len,
            self.entries@ == before.entries@,
            self.ages@ == before.ages@.update(gap, before.ages@[scan]),
            self.insertions@ == before.insertions@,
        ensures
            self.shifting(scan, before.ages@[scan], start, scanned + 1),
    {
        let cap = self.capacity as int;
        let older = before.ages@[scan];
        assert(gap != scan);
        assert(distance(start, scan, cap) == scanned + 1) by {
            if scanned + 1 == cap {
                // The scan is back at the start, whose tenant is too young to move.
                assert(scan == start);
                assert(distance(start, gap, cap) > 0);
                assert(before.ages@[scan] <= age);
                assert(false);
            }
        }
        assert forall|i: int| self.in_ring(i) && #[trigger] self.taken(i) implies i != scan && (i
            == gap || before.taken(i)) by {}
        assert forall|i: int|
            self.in_ring(i) && i != gap && i != scan implies #[trigger] self.slots@[i]
            == before.slots@[i] && self.ages@[i] == before.ages@[i] by {}
        assert(self.taken(gap) && self.key(gap) == before.key(scan));
        // Chains that crossed the old gap also cross the scanned slot.
        assert forall|i: int, j: int|
            self.in_ring(i) && self.in_ring(j) && #[trigger] self.taken(i) && #[trigger] on_path(
                self.keyed_home(i),
                j,
                i,
                cap,
            ) && j != scan implies self.taken(j) && self.ages@[j] < self.ages@[i] by {
            if i == gap {
                assert(on_path(before.keyed_home(scan), j, scan, cap));
                assert(j != gap);
                assert(before.taken(j));
            } else {
                assert(before.taken(i));
                assert(before.keyed_home(i) == self.keyed_home(i));
                if j == gap {
                    assert(age < before.ages@[i]);
                    assert(on_path(before.keyed_home(i), scan, i, cap)) by {
                        if distance(start, i, cap) < distance(start, gap, cap) {
                        } else {
                            assert(distance(start, i, cap) > scanned);
                        }
                    }
                    assert(before.ages@[scan] < before.ages@[i]);
                } else {
                    assert(before.taken(j));
                }
            }
        }
        assert forall|i: int|
            self.in_ring(i) && #[trigger] self.taken(i) && on_path(
                self.keyed_home(i),
                scan,
                i,
                cap,
            ) implies older < self.ages@[i] by {
            if i == gap {
                assert(on_path(before.keyed_home(scan), scan, gap, cap));
                assert(false);
            } else {
                assert(before.taken(i));
                assert(before.keyed_home(i) == self.keyed_home(i));
            }
        }
        assert forall|i: int|
            self.in_ring(i) && #[trigger] self.taken(i) && distance(start, i, cap) < distance(
                start,
                scan,
                cap,
            ) implies distance(start, self.keyed_home(i), cap) <= distance(start, i, cap)
            || self.ages@[i] <= older by {
            if i == gap {
            } else {
                assert(before.taken(i));
                assert(before.keyed_home(i) == self.keyed_home(i));
                assert(age < older);
                if distance(start, i, cap) > distance(start, gap, cap) {
                    assert(!on_path(before.keyed_home(i), gap, i, cap));
                }
            }
        }
        assert forall|p: PageId| #[trigger] self.entries@.contains_key(p) implies exists|i: int|
            self.in_ring(i) && #[trigger] self.taken(i) && self.key(i) == p by {
            let i = choose|i: int|
                before.in_ring(i) && #[trigger] before.taken(i) && before.key(i) == p;
            if i == scan {
                assert(self.taken(gap));
            } else {
                assert(self.slots@[i] == before.slots@[i]);
                assert(self.taken(i));
            }
        }
        assert forall|i: int| self.in_ring(i) && #[trigger] self.taken(i) implies
            self.entries@.contains_key(self.key(i)) && self.entries@[self.key(i)]
            == self.slots@[i].unwrap().1 && self.ages@[i] < self.insertions@ by {
            if i != gap {
                assert(before.taken(i));
            }
        }
        assert forall|i: int, j: int|
            self.in_ring(i) && self.in_ring(j) && i != j && #[trigger] self.taken(i)
                && #[trigger] self.taken(j) implies self.key(i) != self.key(j) by {
            if i == gap {
                assert(before.taken(j) && before.taken(scan));
            } else if j == gap {
                assert(before.taken(i) && before.taken(scan));
            } else {
                assert(before.taken(i) && before.taken(j));
            }
        }
    }

    fn backward_shift(&mut self, first_gap: u32, Ghost(first_age): Ghost<nat>)
        requires
            old(self).shifting(first_gap as int, first_age, first_gap as int, 0),
        ensures
            final(self).wf(),
            final(self).slot_count() == old(self).slot_count(),
            final(self)@ == old(self)@,
    {
        let capacity: u32 = self.capacity;
        let mut gap: u32 = first_gap;
        let ghost mut age = first_age;
        let mut scan: u32 = self.next_slot(gap);
        let mut scanned: u32 = 0;
        while scanned < capacity
            invariant
                capacity == self.capacity,
                self.slot_count() == old(self).slot_count(),
                self@ == old(self)@,
                first_gap < capacity,
                scanned <= capacity,
                self.shifting(gap as int, age, first_gap as int, scanned as int),
                scan == (if scanned < capacity {
                    step_from(first_gap as int, scanned + 1, capacity as int)
                } else {
                    step_from(first_gap as int, 1, capacity as int)
                }),
            decreases capacity - scanned,
        {
            let entry = match self.slots[scan as usize] {
                Some(entry) => entry,
                None => {
                    proof {
                        self.lemma_settled(gap as int, age, first_gap as int, scanned as int);
                    }
                    return;
                },
            };
            let home: u32 = self.home_index(entry.0);
            assert(self.taken(scan as int) && home == self.keyed_home(scan as int));
            let ghost before = *self;
            if fills_gap(home, gap, scan, capacity) {
                self.slots[gap as usize] = Some(entry);
                self.slots[scan as usize] = None;
                proof {
                    self.ages@ = self.ages@.update(gap as int, before.ages@[scan as int]);
                    self.lemma_moved(
                        before,
                        gap as int,
                        scan as int,
                        age,
                        first_gap as int,
                        scanned as int,
                    );
                    age = before.ages@[scan as int];
                }
                gap = scan;
            }
            scan = self.next_slot(scan);
            scanned = scanned + 1;
        }
        proof {
            self.lemma_settled(gap as int, age, first_gap as int, scanned as int);
        }
    }
}

} // verus!
