//! Per-page singleflight: every `get` of one missing page joins a single
//! in-flight read, and a terminal outcome stays until its last waiter leaves.

use crate::driver::{FileId, OpToken};
use crate::pool::frames::ReadFrameIdx;
use crate::pool::PageId;
use vstd::prelude::*;

verus! {

/// One fixed miss-record index carried by every waiter capability.
#[derive(Debug, Clone, Copy, PartialEq, Eq, Structural)]
pub struct MissSlot(pub u32);

impl MissSlot {
    pub fn new(index: usize) -> (slot: Self)
        requires
            index <= u32::MAX,
        ensures
            slot.0 == index,
    {
        MissSlot(index as u32)
    }

    pub fn index(self) -> (index: usize)
        ensures
            index == self.0,
    {
        self.0 as usize
    }
}

/// The generation of one miss slot and how many waiters it has.
#[derive(Debug, Clone, Copy, PartialEq, Eq, Structural)]
pub struct MissInterest {
    pub generation: u64,
    pub waiters: u32,
}

/// Waiter accounting of every miss slot.
#[derive(Debug)]
pub struct MissInterests {
    slots: Vec<MissInterest>,
}

impl MissInterests {
    pub closed spec fn view(&self) -> Seq<MissInterest> {
        self.slots@
    }

    pub fn with_capacity(capacity: u32) -> (interests: Self)
        ensures
            interests@ == Seq::new(
                capacity as nat,
                |i: int| MissInterest { generation: 0, waiters: 0 },
            ),
    {
        let mut slots: Vec<MissInterest> = Vec::new();
        let mut i: u32 = 0;
        while i < capacity
            invariant
                i <= capacity,
                slots@ == Seq::new(i as nat, |k: int| MissInterest { generation: 0, waiters: 0 }),
            decreases capacity - i,
        {
            slots.push(MissInterest { generation: 0, waiters: 0 });
            i = i + 1;
            assert(slots@ =~= Seq::new(
                i as nat,
                |k: int| MissInterest { generation: 0, waiters: 0 },
            ));
        }
        MissInterests { slots }
    }

    pub fn try_with_capacity(capacity: u32) -> (interests: Option<Self>)
        ensures
            interests matches Some(i) && i@ == Seq::new(
                capacity as nat,
                |i: int| MissInterest { generation: 0, waiters: 0 },
            ),
    {
        Some(Self::with_capacity(capacity))
    }

    /// Opens the next generation of a slot without waiters, for `waiters` of
    /// them.
    fn open(&mut self, slot: MissSlot, waiters: u32) -> (generation: u64)
        requires
            slot.0 < old(self)@.len(),
            old(self)@[slot.0 as int].waiters == 0,
            old(self)@[slot.0 as int].generation < u64::MAX,
        ensures
            generation == old(self)@[slot.0 as int].generation + 1,
            final(self)@ == old(self)@.update(
                slot.0 as int,
                MissInterest { generation, waiters },
            ),
    {
        let generation: u64 = self.slots[slot.index()].generation + 1;
        self.slots.set(slot.index(), MissInterest { generation, waiters });
        generation
    }

    /// Opens the next generation of a slot with its first waiter.
    pub fn begin(&mut self, slot: MissSlot) -> (generation: u64)
        requires
            slot.0 < old(self)@.len(),
            old(self)@[slot.0 as int].waiters == 0,
            old(self)@[slot.0 as int].generation < u64::MAX,
        ensures
            generation == old(self)@[slot.0 as int].generation + 1,
            final(self)@ == old(self)@.update(
                slot.0 as int,
                MissInterest { generation, waiters: 1 },
            ),
    {
        self.open(slot, 1)
    }

    /// Adds a waiter to the current generation.
    pub fn join(&mut self, slot: MissSlot, generation: u64)
        requires
            slot.0 < old(self)@.len(),
            old(self)@[slot.0 as int].generation == generation,
            old(self)@[slot.0 as int].waiters < u32::MAX,
        ensures
            final(self)@ == old(self)@.update(
                slot.0 as int,
                MissInterest {
                    generation,
                    waiters: (old(self)@[slot.0 as int].waiters + 1) as u32,
                },
            ),
    {
        let waiters: u32 = self.slots[slot.index()].waiters;
        self.slots.set(slot.index(), MissInterest { generation, waiters: waiters + 1 });
    }

    /// Removes a waiter of the current generation and returns how many stay.
    pub fn release(&mut self, slot: MissSlot, generation: u64) -> (left: u32)
        requires
            slot.0 < old(self)@.len(),
            old(self)@[slot.0 as int].generation == generation,
            old(self)@[slot.0 as int].waiters > 0,
        ensures
            left == old(self)@[slot.0 as int].waiters - 1,
            final(self)@ == old(self)@.update(
                slot.0 as int,
                MissInterest { generation, waiters: left },
            ),
    {
        let left: u32 = self.slots[slot.index()].waiters - 1;
        self.slots.set(slot.index(), MissInterest { generation, waiters: left });
        left
    }

    /// The waiters of `generation`, if it is the slot's current one.
    pub fn waiters(&self, slot: MissSlot, generation: u64) -> (waiters: Option<u32>)
        requires
            slot.0 < self@.len(),
        ensures
            waiters == self.waiting(slot, generation),
    {
        let interest: MissInterest = self.slots[slot.index()];
        if interest.generation == generation {
            Some(interest.waiters)
        } else {
            None
        }
    }

    pub open spec fn waiting(self, slot: MissSlot, generation: u64) -> Option<u32> {
        if self@[slot.0 as int].generation == generation {
            Some(self@[slot.0 as int].waiters)
        } else {
            None
        }
    }
}

/// A submitted miss's current or terminal disposition.
#[derive(Debug, Clone, Copy, PartialEq, Eq, Structural)]
pub enum MissOutcome {
    /// A read is in flight: the granule read or a resubmitted remainder.
    Pending,
    /// The read failed with an errno. The frame is already freed.
    Failed(i32),
    /// The frame is resident, and not evictable while the generation has
    /// waiters.
    Succeeded,
}

#[derive(Debug, Clone, Copy, PartialEq, Eq, Structural)]
pub struct MissEntry {
    pub page: PageId,
    pub frame: ReadFrameIdx,
    pub token: OpToken,
    pub generation: u64,
    pub filled: u32,
    pub outcome: MissOutcome,
}

#[derive(Debug, Clone, Copy, PartialEq, Eq, Structural)]
struct PendingMiss {
    page: PageId,
    token: OpToken,
    slot: MissSlot,
}

/// The successful generation that protects a frame.
#[derive(Debug, Clone, Copy, PartialEq, Eq, Structural)]
pub struct Protection {
    pub slot: MissSlot,
    pub generation: u64,
}

/// Fixed-capacity singleflight registry: at most one pending entry per page,
/// and the terminal generations that still have waiters. The pending index
/// beside it is bounded by the reads in flight.
#[derive(Debug)]
pub struct MissTable {
    slots: Vec<Option<MissEntry>>,
    success_frames: Vec<Option<Protection>>,
    pending: Vec<PendingMiss>,
    pending_capacity: u32,
}

impl MissTable {
    pub closed spec fn capacity(self) -> nat {
        self.slots@.len()
    }

    pub closed spec fn pending_room(self) -> nat {
        self.pending_capacity as nat
    }

    /// The entry in slot `i`.
    pub closed spec fn entry_at(self, i: int) -> Option<MissEntry> {
        self.slots@[i]
    }

    /// The successful generation that protects `frame`.
    pub closed spec fn protection(self, frame: ReadFrameIdx) -> Option<Protection> {
        self.success_frames@[frame.0 as int]
    }

    /// The reads in flight.
    pub closed spec fn pending_count(self) -> nat {
        self.pending@.len()
    }

    /// Slot `i` holds a pending miss.
    pub open spec fn is_pending(self, i: int) -> bool {
        &&& 0 <= i < self.capacity()
        &&& self.entry_at(i) matches Some(e) && e.outcome == MissOutcome::Pending
    }

    spec fn indexed(self, i: int) -> bool {
        exists|k: int| 0 <= k < self.pending@.len() && (#[trigger] self.pending@[k]).slot.0 == i
    }

    pub closed spec fn wf(self) -> bool {
        &&& 0 < self.capacity() <= u32::MAX
        &&& self.success_frames@.len() == self.capacity()
        &&& self.pending@.len() <= self.pending_capacity <= self.capacity()
        &&& forall|k: int|
            0 <= k < self.pending@.len() ==> {
                let p = #[trigger] self.pending@[k];
                &&& self.is_pending(p.slot.0 as int)
                &&& self.entry_at(p.slot.0 as int)->0.page == p.page
                &&& self.entry_at(p.slot.0 as int)->0.token == p.token
            }
        &&& forall|k: int, j: int|
            0 <= k < j < self.pending@.len() ==> (#[trigger] self.pending@[k]).slot != (
            #[trigger] self.pending@[j]).slot
        &&& forall|i: int| #[trigger] self.is_pending(i) ==> self.indexed(i)
        &&& forall|i: int, j: int|
            self.is_pending(i) && self.is_pending(j) && i != j ==> (#[trigger] self.entry_at(i))->0.page != (#[trigger] self.entry_at(j))->0.page
        &&& forall|i: int|
            0 <= i < self.capacity() && #[trigger] self.entry_at(i) is Some ==> {
                &&& self.entry_at(i)->0.frame.0 < self.capacity()
                &&& self.entry_at(i)->0.generation > 0
                &&& self.entry_at(i)->0.outcome == MissOutcome::Succeeded ==> self.protection(
                    self.entry_at(i)->0.frame,
                ) == Some(
                    Protection { slot: MissSlot(i as u32), generation: self.entry_at(i)->0.generation },
                )
            }
        &&& forall|f: ReadFrameIdx|
            f.0 < self.capacity() && #[trigger] self.protection(f) is Some ==> {
                let p = self.protection(f)->0;
                &&& p.slot.0 < self.capacity()
                &&& self.entry_at(p.slot.0 as int) is Some
                &&& self.entry_at(p.slot.0 as int)->0.outcome == MissOutcome::Succeeded
                &&& self.entry_at(p.slot.0 as int)->0.frame == f
                &&& self.entry_at(p.slot.0 as int)->0.generation == p.generation
            }
    }

    /// The interests belong to this table: an empty slot has no waiters, and
    /// an occupied one is at its entry's generation.
    pub open spec fn linked(self, interests: MissInterests) -> bool {
        &&& interests@.len() == self.capacity()
        &&& forall|i: int|
            0 <= i < self.capacity() ==> match #[trigger] self.entry_at(i) {
                Some(e) => interests@[i].generation == e.generation,
                None => interests@[i].waiters == 0,
            }
    }

    /// Singleflight: at most one slot is pending for a page.
    pub proof fn lemma_singleflight(self, i: int, j: int)
        requires
            self.wf(),
            self.is_pending(i),
            self.is_pending(j),
            self.entry_at(i)->0.page == self.entry_at(j)->0.page,
        ensures
            i == j,
    {
    }

    /// Where a slot is pending, the reads in flight count it.
    pub proof fn lemma_pending_counts(self, i: int)
        requires
            self.wf(),
            self.is_pending(i),
        ensures
            self.pending_count() > 0,
    {
        assert(self.indexed(i));
    }

    /// What well-formedness says of one slot and one frame.
    pub proof fn lemma_entry(self, i: int)
        requires
            self.wf(),
            0 <= i < self.capacity(),
        ensures
            self.capacity() <= u32::MAX,
            self.entry_at(i) is Some ==> self.entry_at(i)->0.frame.0 < self.capacity()
                && self.entry_at(i)->0.generation > 0,
            self.entry_at(i) is Some && self.entry_at(i)->0.outcome == MissOutcome::Succeeded
                ==> self.protection(self.entry_at(i)->0.frame) == Some(
                Protection { slot: MissSlot(i as u32), generation: self.entry_at(i)->0.generation },
            ),
    {
    }

    pub proof fn lemma_protection(self, frame: ReadFrameIdx)
        requires
            self.wf(),
            frame.0 < self.capacity(),
            self.protection(frame) is Some,
        ensures
            self.protection(frame)->0.slot.0 < self.capacity(),
            self.entry_at(self.protection(frame)->0.slot.0 as int) matches Some(e) && e.outcome
                == MissOutcome::Succeeded && e.frame == frame && e.generation == self.protection(
                frame,
            )->0.generation,
    {
    }

    /// An empty table of `capacity` slots and at most `pending_capacity`
    /// reads in flight.
    pub fn new(capacity: u32, pending_capacity: u32) -> (table: Self)
        requires
            0 < capacity,
            pending_capacity <= capacity,
        ensures
            table.fresh(capacity, pending_capacity),
    {
        let mut slots: Vec<Option<MissEntry>> = Vec::new();
        let mut success_frames: Vec<Option<Protection>> = Vec::new();
        let mut i: u32 = 0;
        while i < capacity
            invariant
                i <= capacity,
                slots@.len() == i,
                success_frames@.len() == i,
                forall|k: int| 0 <= k < i ==> (#[trigger] slots@[k]) is None,
                forall|k: int| 0 <= k < i ==> (#[trigger] success_frames@[k]) is None,
            decreases capacity - i,
        {
            slots.push(None);
            success_frames.push(None);
            i = i + 1;
        }
        MissTable { slots, success_frames, pending: Vec::new(), pending_capacity }
    }

    /// A table as it leaves construction.
    pub open spec fn fresh(self, capacity: u32, pending_capacity: u32) -> bool {
        &&& self.wf()
        &&& self.capacity() == capacity
        &&& self.pending_room() == pending_capacity
        &&& self.pending_count() == 0
        &&& forall|i: int| 0 <= i < capacity ==> (#[trigger] self.entry_at(i)) is None
        &&& forall|f: ReadFrameIdx| f.0 < capacity ==> (#[trigger] self.protection(f)) is None
    }

    pub fn with_capacity(capacity: u32) -> (table: Self)
        requires
            0 < capacity,
        ensures
            table.fresh(capacity, capacity),
    {
        Self::new(capacity, capacity)
    }

    pub fn try_with_capacity(capacity: u32, pending_capacity: u32) -> (table: Option<Self>)
        requires
            0 < capacity,
            pending_capacity <= capacity,
        ensures
            table matches Some(t) && t.fresh(capacity, pending_capacity),
    {
        Some(Self::new(capacity, pending_capacity))
    }

    /// The number of slots.
    pub fn len(&self) -> (len: usize)
        ensures
            len == self.capacity(),
    {
        self.slots.len()
    }

    /// The reads in flight.
    pub fn pending_len(&self) -> (len: u32)
        requires
            self.wf(),
        ensures
            len == self.pending_count(),
    {
        self.pending.len() as u32
    }

    /// The pending slot of `page`, if a read of it is in flight.
    pub fn find_pending(&self, page: PageId) -> (found: Option<usize>)
        requires
            self.wf(),
        ensures
            match found {
                Some(i) => self.is_pending(i as int) && self.entry_at(i as int)->0.page == page,
                None => forall|i: int|
                    #[trigger] self.is_pending(i) ==> self.entry_at(i)->0.page != page,
            },
    {
        let mut k: usize = 0;
        while k < self.pending.len()
            invariant
                self.wf(),
                k <= self.pending@.len(),
                forall|j: int| 0 <= j < k ==> (#[trigger] self.pending@[j]).page != page,
            decreases self.pending@.len() - k,
        {
            let pending: PendingMiss = self.pending[k];
            if pending.page == page {
                return Some(pending.slot.index());
            }
            k = k + 1;
        }
        assert forall|i: int| #[trigger] self.is_pending(i) implies self.entry_at(i)->0.page
            != page by {
            assert(self.indexed(i));
            let j = choose|j: int| 0 <= j < self.pending@.len() && self.pending@[j].slot.0 == i;
            assert(self.pending@[j].page != page);
        }
        None
    }

    /// A pending slot whose read is `token`.
    pub fn find_by_token(&self, token: OpToken) -> (found: Option<usize>)
        requires
            self.wf(),
        ensures
            match found {
                Some(i) => self.is_pending(i as int) && self.entry_at(i as int)->0.token == token,
                None => forall|i: int|
                    #[trigger] self.is_pending(i) ==> self.entry_at(i)->0.token != token,
            },
    {
        let mut k: usize = 0;
        while k < self.pending.len()
            invariant
                self.wf(),
                k <= self.pending@.len(),
                forall|j: int| 0 <= j < k ==> (#[trigger] self.pending@[j]).token != token,
            decreases self.pending@.len() - k,
        {
            let pending: PendingMiss = self.pending[k];
            if pending.token == token {
                return Some(pending.slot.index());
            }
            k = k + 1;
        }
        assert forall|i: int| #[trigger] self.is_pending(i) implies self.entry_at(i)->0.token
            != token by {
            assert(self.indexed(i));
            let j = choose|j: int| 0 <= j < self.pending@.len() && self.pending@[j].slot.0 == i;
            assert(self.pending@[j].token != token);
        }
        None
    }

    fn pending_position(&self, slot: MissSlot) -> (position: usize)
        requires
            self.wf(),
            self.is_pending(slot.0 as int),
        ensures
            position < self.pending@.len(),
            self.pending@[position as int].slot == slot,
    {
        proof {
            assert(self.indexed(slot.0 as int));
        }
        let ghost at = choose|j: int|
            0 <= j < self.pending@.len() && self.pending@[j].slot.0 == slot.0;
        let mut k: usize = 0;
        while self.pending[k].slot.0 != slot.0
            invariant
                k <= at < self.pending@.len() <= usize::MAX,
                self.pending@[at].slot.0 == slot.0,
            decreases at - k,
        {
            k = k + 1;
        }
        k
    }

    pub fn entry(&self, index: usize) -> (entry: Option<MissEntry>)
        requires
            index < self.capacity(),
        ensures
            entry == self.entry_at(index as int),
    {
        self.slots[index]
    }

    /// Slot `i` is empty, or terminal without waiters.
    pub open spec fn reusable(self, interests: MissInterests, i: int) -> bool {
        match self.entry_at(i) {
            Some(e) => e.outcome != MissOutcome::Pending && interests.waiting(
                MissSlot(i as u32),
                e.generation,
            ) == Some(0u32),
            None => true,
        }
    }

    /// The most reads that can be in flight.
    pub fn pending_limit(&self) -> (limit: u32)
        ensures
            limit == self.pending_room(),
    {
        self.pending_capacity
    }

    /// The lowest reusable slot.
    pub fn admission_slot(&self, interests: &MissInterests) -> (slot: Option<MissSlot>)
        requires
            self.wf(),
            interests@.len() == self.capacity(),
        ensures
            match slot {
                Some(s) => {
                    &&& s.0 < self.capacity()
                    &&& self.reusable(*interests, s.0 as int)
                    &&& forall|i: int| 0 <= i < s.0 ==> !(#[trigger] self.reusable(*interests, i))
                },
                None => forall|i: int|
                    0 <= i < self.capacity() ==> !(#[trigger] self.reusable(*interests, i)),
            },
    {
        let mut i: usize = 0;
        while i < self.slots.len()
            invariant
                self.wf(),
                interests@.len() == self.capacity(),
                i <= self.capacity(),
                forall|k: int| 0 <= k < i ==> !(#[trigger] self.reusable(*interests, k)),
            decreases self.slots@.len() - i,
        {
            let slot = MissSlot::new(i);
            let free: bool = match self.slots[i] {
                Some(entry) => entry.outcome != MissOutcome::Pending && interests.waiters(
                    slot,
                    entry.generation,
                ) == Some(0u32),
                None => true,
            };
            assert(free == self.reusable(*interests, i as int));
            if free {
                return Some(slot);
            }
            i = i + 1;
        }
        None
    }

    /// Every slot but `i` and every protection but those of the frames of
    /// slot `i` is as in `other`.
    pub open spec fn same_except(self, other: MissTable, i: int) -> bool {
        &&& self.capacity() == other.capacity()
        &&& self.pending_room() == other.pending_room()
        &&& forall|k: int|
            0 <= k < self.capacity() && k != i ==> #[trigger] self.entry_at(k) == other.entry_at(k)
    }

    /// Protections as in `other`.
    pub open spec fn same_protections(self, other: MissTable) -> bool {
        forall|f: ReadFrameIdx|
            f.0 < self.capacity() ==> #[trigger] self.protection(f) == other.protection(f)
    }

    /// `self` is `other` with a fresh pending entry in slot `slot`; a
    /// successful entry it replaced no longer protects its frame.
    pub open spec fn admitted(
        self,
        other: MissTable,
        slot: MissSlot,
        page: PageId,
        frame: ReadFrameIdx,
        token: OpToken,
        generation: u64,
    ) -> bool {
        &&& self.same_except(other, slot.0 as int)
        &&& self.entry_at(slot.0 as int) == Some(
            MissEntry {
                page,
                frame,
                token,
                generation,
                filled: 0,
                outcome: MissOutcome::Pending,
            },
        )
        &&& self.pending_count() == other.pending_count() + 1
        &&& forall|f: ReadFrameIdx|
            f.0 < self.capacity() ==> #[trigger] self.protection(f) == (if other.protection(
                f,
            ) matches Some(p) && p.slot == slot {
                None
            } else {
                other.protection(f)
            })
    }

    fn install_with(
        &mut self,
        slot: MissSlot,
        page: PageId,
        frame: ReadFrameIdx,
        token: OpToken,
        waiters: u32,
        interests: &mut MissInterests,
    ) -> (generation: u64)
        requires
            old(self).wf(),
            old(self).linked(*old(interests)),
            slot.0 < old(self).capacity(),
            old(self).reusable(*old(interests), slot.0 as int),
            old(self).pending_count() < old(self).pending_room(),
            frame.0 < old(self).capacity(),
            old(interests)@[slot.0 as int].generation < u64::MAX,
            forall|i: int|
                #[trigger] old(self).is_pending(i) ==> old(self).entry_at(i)->0.page != page,
        ensures
            final(self).wf(),
            final(self).linked(*final(interests)),
            generation == old(interests)@[slot.0 as int].generation + 1,
            final(interests)@ == old(interests)@.update(
                slot.0 as int,
                MissInterest { generation, waiters },
            ),
            final(self).admitted(*old(self), slot, page, frame, token, generation),
    {
        if let Some(previous) = self.slots[slot.index()] {
            self.clean_terminal_zero(slot, previous.generation, interests);
        }
        let ghost cleaned = *self;
        proof {
            assert forall|f: ReadFrameIdx|
                f.0 < self.capacity() implies #[trigger] self.protection(f) == (if old(
                self,
            ).protection(f) matches Some(p) && p.slot == slot {
                None
            } else {
                old(self).protection(f)
            }) by {
                if old(self).protection(f) is Some {
                    old(self).lemma_protection(f);
                }
            }
        }
        let generation: u64 = interests.open(slot, waiters);
        self.slots.set(
            slot.index(),
            Some(
                MissEntry {
                    page,
                    frame,
                    token,
                    generation,
                    filled: 0,
                    outcome: MissOutcome::Pending,
                },
            ),
        );
        self.pending.push(PendingMiss { page, token, slot });
        proof {
            assert forall|i: int| 0 <= i < self.capacity() implies match #[trigger] self.entry_at(
                i,
            ) {
                Some(e) => interests@[i].generation == e.generation,
                None => interests@[i].waiters == 0,
            } by {
                assert(i != slot.0 ==> self.entry_at(i) == cleaned.entry_at(i));
            }
            assert forall|i: int|
                0 <= i < self.capacity() && #[trigger] self.entry_at(i) is Some implies {
                &&& self.entry_at(i)->0.frame.0 < self.capacity()
                &&& self.entry_at(i)->0.generation > 0
                &&& self.entry_at(i)->0.outcome == MissOutcome::Succeeded ==> self.protection(
                    self.entry_at(i)->0.frame,
                ) == Some(
                    Protection { slot: MissSlot(i as u32), generation: self.entry_at(i)->0.generation },
                )
            } by {
                if i != slot.0 {
                    cleaned.lemma_entry(i);
                }
            }
            assert forall|k: int| 0 <= k < self.pending@.len() implies {
                let p = #[trigger] self.pending@[k];
                &&& self.is_pending(p.slot.0 as int)
                &&& self.entry_at(p.slot.0 as int)->0.page == p.page
                &&& self.entry_at(p.slot.0 as int)->0.token == p.token
            } by {
                if k < cleaned.pending@.len() {
                    assert(cleaned.pending@[k] == self.pending@[k]);
                    assert(cleaned.is_pending(cleaned.pending@[k].slot.0 as int));
                }
            }
            assert forall|k: int, j: int| 0 <= k < j < self.pending@.len() implies (
            #[trigger] self.pending@[k]).slot != (#[trigger] self.pending@[j]).slot by {
                assert(cleaned.pending@[k] == self.pending@[k]);
                assert(cleaned.is_pending(cleaned.pending@[k].slot.0 as int));
                if j < cleaned.pending@.len() {
                    assert(cleaned.pending@[j] == self.pending@[j]);
                }
            }
            assert forall|i: int| #[trigger] self.is_pending(i) implies self.indexed(i) by {
                if i == slot.0 {
                    assert(self.pending@[cleaned.pending@.len() as int].slot.0 == i);
                } else {
                    assert(cleaned.is_pending(i));
                    assert(cleaned.indexed(i));
                    let j = choose|j: int|
                        0 <= j < cleaned.pending@.len() && cleaned.pending@[j].slot.0 == i;
                    assert(self.pending@[j].slot.0 == i);
                }
            }
            assert forall|i: int, j: int|
                self.is_pending(i) && self.is_pending(j) && i != j implies (#[trigger] self.entry_at(i))->0.page != (#[trigger] self.entry_at(j))->0.page by {
                if i != slot.0 {
                    assert(cleaned.is_pending(i));
                    assert(old(self).is_pending(i));
                }
                if j != slot.0 {
                    assert(cleaned.is_pending(j));
                    assert(old(self).is_pending(j));
                }
            }
            assert forall|f: ReadFrameIdx|
                f.0 < self.capacity() && #[trigger] self.protection(f) is Some implies {
                let p = self.protection(f)->0;
                &&& p.slot.0 < self.capacity()
                &&& self.entry_at(p.slot.0 as int) is Some
                &&& self.entry_at(p.slot.0 as int)->0.outcome == MissOutcome::Succeeded
                &&& self.entry_at(p.slot.0 as int)->0.frame == f
                &&& self.entry_at(p.slot.0 as int)->0.generation == p.generation
            } by {
                assert(cleaned.protection(f) == self.protection(f));
                assert(cleaned.entry_at(cleaned.protection(f)->0.slot.0 as int) is Some);
            }
            assert(forall|f: ReadFrameIdx| #[trigger]
                self.protection(f) == cleaned.protection(f));
            assert forall|k: int| 0 <= k < self.capacity() && k != slot.0 implies #[trigger] self.entry_at(
                k,
            ) == old(self).entry_at(k) by {
                assert(cleaned.entry_at(k) == old(self).entry_at(k));
            }
            assert(self.pending_room() == old(self).pending_room());
            assert(self.pending_count() == old(self).pending_count() + 1);
        }
        generation
    }

    /// Installs a fresh miss with one waiter in a reusable slot.
    pub fn install(
        &mut self,
        slot: MissSlot,
        page: PageId,
        frame: ReadFrameIdx,
        token: OpToken,
        interests: &mut MissInterests,
    ) -> (generation: u64)
        requires
            old(self).wf(),
            old(self).linked(*old(interests)),
            slot.0 < old(self).capacity(),
            old(self).reusable(*old(interests), slot.0 as int),
            old(self).pending_count() < old(self).pending_room(),
            frame.0 < old(self).capacity(),
            old(interests)@[slot.0 as int].generation < u64::MAX,
            forall|i: int|
                #[trigger] old(self).is_pending(i) ==> old(self).entry_at(i)->0.page != page,
        ensures
            final(self).wf(),
            final(self).linked(*final(interests)),
            generation == old(interests)@[slot.0 as int].generation + 1,
            final(interests)@ == old(interests)@.update(
                slot.0 as int,
                MissInterest { generation, waiters: 1 },
            ),
            final(self).admitted(*old(self), slot, page, frame, token, generation),
    {
        self.install_with(slot, page, frame, token, 1, interests)
    }

    /// Installs a fresh miss nobody waits for yet in a reusable slot.
    pub fn install_speculative(
        &mut self,
        slot: MissSlot,
        page: PageId,
        frame: ReadFrameIdx,
        token: OpToken,
        interests: &mut MissInterests,
    ) -> (generation: u64)
        requires
            old(self).wf(),
            old(self).linked(*old(interests)),
            slot.0 < old(self).capacity(),
            old(self).reusable(*old(interests), slot.0 as int),
            old(self).pending_count() < old(self).pending_room(),
            frame.0 < old(self).capacity(),
            old(interests)@[slot.0 as int].generation < u64::MAX,
            forall|i: int|
                #[trigger] old(self).is_pending(i) ==> old(self).entry_at(i)->0.page != page,
        ensures
            final(self).wf(),
            final(self).linked(*final(interests)),
            generation == old(interests)@[slot.0 as int].generation + 1,
            final(interests)@ == old(interests)@.update(
                slot.0 as int,
                MissInterest { generation, waiters: 0 },
            ),
            final(self).admitted(*old(self), slot, page, frame, token, generation),
    {
        self.install_with(slot, page, frame, token, 0, interests)
    }

    /// Adds a waiter to a pending miss.
    pub fn join(&self, index: usize, interests: &mut MissInterests) -> (joined: (MissSlot, u64))
        requires
            self.wf(),
            self.linked(*old(interests)),
            self.is_pending(index as int),
            old(interests)@[index as int].waiters < u32::MAX,
        ensures
            self.linked(*final(interests)),
            joined.0.0 == index,
            joined.1 == self.entry_at(index as int)->0.generation,
            final(interests)@ == old(interests)@.update(
                index as int,
                MissInterest {
                    generation: joined.1,
                    waiters: (old(interests)@[index as int].waiters + 1) as u32,
                },
            ),
    {
        let slot = MissSlot::new(index);
        let generation: u64 = match self.slots[index] {
            Some(entry) => entry.generation,
            None => 0,
        };
        interests.join(slot, generation);
        (slot, generation)
    }

    /// Records a resubmitted remainder of a pending miss.
    pub fn advance_remainder(&mut self, index: usize, filled: u32, token: OpToken)
        requires
            old(self).wf(),
            old(self).is_pending(index as int),
        ensures
            final(self).wf(),
            final(self).same_except(*old(self), index as int),
            final(self).same_protections(*old(self)),
            final(self).pending_count() == old(self).pending_count(),
            final(self).entry_at(index as int) == Some(
                MissEntry { filled, token, ..old(self).entry_at(index as int)->0 },
            ),
    {
        let position: usize = self.pending_position(MissSlot::new(index));
        if let Some(entry) = self.slots[index] {
            self.slots.set(index, Some(MissEntry { filled, token, ..entry }));
            let pending: PendingMiss = self.pending[position];
            self.pending.set(position, PendingMiss { token, ..pending });
        }
        proof {
            let start = *old(self);
            assert forall|i: int| #[trigger] self.is_pending(i) <==> start.is_pending(i) by {}
            assert forall|k: int| 0 <= k < self.pending@.len() implies {
                let p = #[trigger] self.pending@[k];
                &&& self.is_pending(p.slot.0 as int)
                &&& self.entry_at(p.slot.0 as int)->0.page == p.page
                &&& self.entry_at(p.slot.0 as int)->0.token == p.token
            } by {
                assert(start.is_pending(start.pending@[k].slot.0 as int));
                if k != position {
                    assert(start.pending@[k].slot != start.pending@[position as int].slot);
                }
            }
            assert forall|i: int| #[trigger] self.is_pending(i) implies self.indexed(i) by {
                assert(start.indexed(i));
                let j = choose|j: int| 0 <= j < start.pending@.len() && start.pending@[j].slot.0 == i;
                assert(self.pending@[j].slot.0 == i);
            }
            assert forall|i: int, j: int|
                self.is_pending(i) && self.is_pending(j) && i != j implies (#[trigger] self.entry_at(i))->0.page != (#[trigger] self.entry_at(j))->0.page by {
                assert(start.is_pending(i) && start.is_pending(j));
                assert(start.entry_at(i)->0.page != start.entry_at(j)->0.page);
            }
            assert forall|f: ReadFrameIdx|
                f.0 < self.capacity() && #[trigger] self.protection(f) is Some implies {
                let p = self.protection(f)->0;
                &&& p.slot.0 < self.capacity()
                &&& self.entry_at(p.slot.0 as int) is Some
                &&& self.entry_at(p.slot.0 as int)->0.outcome == MissOutcome::Succeeded
                &&& self.entry_at(p.slot.0 as int)->0.frame == f
                &&& self.entry_at(p.slot.0 as int)->0.generation == p.generation
            } by {
                assert(start.protection(f) is Some);
            }
        }
    }

    /// Drops a slot that just became terminal from the pending index.
    fn pending_remove(&mut self, slot: MissSlot, position: usize)
        requires
            position < old(self).pending@.len(),
        ensures
            final(self).slots == old(self).slots,
            final(self).success_frames == old(self).success_frames,
            final(self).pending_capacity == old(self).pending_capacity,
            final(self).pending@.len() == old(self).pending@.len() - 1,
            forall|k: int|
                0 <= k < final(self).pending@.len() ==> #[trigger] final(self).pending@[k] == (if k
                    == position {
                    old(self).pending@[old(self).pending@.len() - 1]
                } else {
                    old(self).pending@[k]
                }),
    {
        let last: usize = self.pending.len() - 1;
        let moved: PendingMiss = self.pending[last];
        self.pending.set(position, moved);
        self.pending.pop();
    }

    /// The table stays well-formed when the pending entry at `position` ends
    /// with `outcome`.
    proof fn lemma_ended(self, start: Self, index: int, position: int, outcome: MissOutcome)
        requires
            start.wf(),
            start.is_pending(index),
            outcome != MissOutcome::Pending,
            0 <= position < start.pending@.len(),
            start.pending@[position].slot.0 == index,
            self.slots@ == start.slots@.update(
                index,
                Some(MissEntry { outcome, ..start.entry_at(index)->0 }),
            ),
            self.pending_capacity == start.pending_capacity,
            self.pending@.len() == start.pending@.len() - 1,
            forall|k: int|
                0 <= k < self.pending@.len() ==> #[trigger] self.pending@[k] == (if k == position {
                    start.pending@[start.pending@.len() - 1]
                } else {
                    start.pending@[k]
                }),
            outcome != MissOutcome::Succeeded ==> self.success_frames@ == start.success_frames@,
            outcome == MissOutcome::Succeeded ==> {
                &&& start.protection(start.entry_at(index)->0.frame) is None
                &&& self.success_frames@ == start.success_frames@.update(
                    start.entry_at(index)->0.frame.0 as int,
                    Some(
                        Protection {
                            slot: MissSlot(index as u32),
                            generation: start.entry_at(index)->0.generation,
                        },
                    ),
                )
            },
        ensures
            self.wf(),
    {
        let last = start.pending@.len() - 1;
        assert forall|k: int| 0 <= k < self.pending@.len() implies {
            let p = #[trigger] self.pending@[k];
            &&& self.is_pending(p.slot.0 as int)
            &&& self.entry_at(p.slot.0 as int)->0.page == p.page
            &&& self.entry_at(p.slot.0 as int)->0.token == p.token
        } by {
            let from = if k == position {
                last
            } else {
                k
            };
            assert(start.is_pending(start.pending@[from].slot.0 as int));
            if from < position {
                assert(start.pending@[from].slot != start.pending@[position].slot);
            } else {
                assert(start.pending@[position].slot != start.pending@[from].slot);
            }
        }
        assert forall|k: int, j: int| 0 <= k < j < self.pending@.len() implies (
        #[trigger] self.pending@[k]).slot != (#[trigger] self.pending@[j]).slot by {
            let a = if k == position {
                last
            } else {
                k
            };
            let b = if j == position {
                last
            } else {
                j
            };
            if a < b {
                assert(start.pending@[a].slot != start.pending@[b].slot);
            } else {
                assert(start.pending@[b].slot != start.pending@[a].slot);
            }
        }
        assert forall|i: int| #[trigger] self.is_pending(i) implies self.indexed(i) by {
            assert(i != index);
            assert(start.is_pending(i));
            assert(start.indexed(i));
            let j = choose|j: int| 0 <= j < start.pending@.len() && start.pending@[j].slot.0 == i;
            if j == last {
                assert(self.pending@[position].slot.0 == i);
            } else {
                assert(self.pending@[j].slot.0 == i);
            }
        }
        assert forall|i: int, j: int| self.is_pending(i) && self.is_pending(j) && i != j implies (#[trigger] self.entry_at(i))->0.page != (#[trigger] self.entry_at(j))->0.page by {
            assert(start.is_pending(i) && start.is_pending(j));
            assert(start.entry_at(i)->0.page != start.entry_at(j)->0.page);
        }
        assert forall|i: int| 0 <= i < self.capacity() && #[trigger] self.entry_at(i) is Some implies {
            &&& self.entry_at(i)->0.frame.0 < self.capacity()
            &&& self.entry_at(i)->0.generation > 0
            &&& self.entry_at(i)->0.outcome == MissOutcome::Succeeded ==> self.protection(
                self.entry_at(i)->0.frame,
            ) == Some(
                Protection { slot: MissSlot(i as u32), generation: self.entry_at(i)->0.generation },
            )
        } by {
            assert(start.entry_at(i) is Some);
        }
        assert forall|f: ReadFrameIdx|
            f.0 < self.capacity() && #[trigger] self.protection(f) is Some implies {
            let p = self.protection(f)->0;
            &&& p.slot.0 < self.capacity()
            &&& self.entry_at(p.slot.0 as int) is Some
            &&& self.entry_at(p.slot.0 as int)->0.outcome == MissOutcome::Succeeded
            &&& self.entry_at(p.slot.0 as int)->0.frame == f
            &&& self.entry_at(p.slot.0 as int)->0.generation == p.generation
        } by {
            assert(start.entry_at(index) is Some);
            if self.protection(f) == start.protection(f) {
                assert(start.protection(f) is Some);
            }
        }
    }

    /// Ends a pending miss with an errno; every waiter will see it.
    pub fn fail(&mut self, index: usize, errno: i32)
        requires
            old(self).wf(),
            old(self).is_pending(index as int),
            errno != 0,
        ensures
            final(self).wf(),
            final(self).same_except(*old(self), index as int),
            final(self).same_protections(*old(self)),
            final(self).pending_count() == old(self).pending_count() - 1,
            final(self).entry_at(index as int) == Some(
                MissEntry {
                    outcome: MissOutcome::Failed(errno),
                    ..old(self).entry_at(index as int)->0
                },
            ),
    {
        let slot = MissSlot::new(index);
        let position: usize = self.pending_position(slot);
        if let Some(entry) = self.slots[index] {
            self.slots.set(index, Some(MissEntry { outcome: MissOutcome::Failed(errno), ..entry }));
        }
        self.pending_remove(slot, position);
        proof {
            self.lemma_ended(*old(self), index as int, position as int, MissOutcome::Failed(errno));
        }
    }

    /// Ends a pending miss with its frame resident; the frame is protected.
    pub fn succeed(&mut self, index: usize)
        requires
            old(self).wf(),
            old(self).is_pending(index as int),
            old(self).protection(old(self).entry_at(index as int)->0.frame) is None,
        ensures
            final(self).wf(),
            final(self).same_except(*old(self), index as int),
            final(self).pending_count() == old(self).pending_count() - 1,
            final(self).entry_at(index as int) == Some(
                MissEntry {
                    outcome: MissOutcome::Succeeded,
                    ..old(self).entry_at(index as int)->0
                },
            ),
            forall|f: ReadFrameIdx|
                f.0 < old(self).capacity() ==> #[trigger] final(self).protection(f) == (if f == old(
                    self,
                ).entry_at(index as int)->0.frame {
                    Some(
                        Protection {
                            slot: MissSlot(index as u32),
                            generation: old(self).entry_at(index as int)->0.generation,
                        },
                    )
                } else {
                    old(self).protection(f)
                }),
    {
        let slot = MissSlot::new(index);
        let position: usize = self.pending_position(slot);
        proof {
            old(self).lemma_entry(index as int);
        }
        if let Some(entry) = self.slots[index] {
            self.slots.set(index, Some(MissEntry { outcome: MissOutcome::Succeeded, ..entry }));
            self.success_frames.set(
                entry.frame.get() as usize,
                Some(Protection { slot, generation: entry.generation }),
            );
        }
        self.pending_remove(slot, position);
        proof {
            self.lemma_ended(*old(self), index as int, position as int, MissOutcome::Succeeded);
        }
    }

    /// The entry a waiter capability names.
    pub fn validate(&self, slot: MissSlot, generation: u64, page: PageId) -> (entry: Option<
        MissEntry,
    >)
        requires
            slot.0 < self.capacity(),
        ensures
            entry == (match self.entry_at(slot.0 as int) {
                Some(e) if e.generation == generation && e.page == page => Some(e),
                _ => None,
            }),
    {
        match self.slots[slot.index()] {
            Some(entry) => if entry.generation == generation && entry.page == page {
                Some(entry)
            } else {
                None
            },
            None => None,
        }
    }

    /// The terminal entry of `generation` in slot `slot` has no waiters left.
    pub open spec fn spent(
        self,
        interests: MissInterests,
        slot: MissSlot,
        generation: u64,
    ) -> bool {
        &&& self.entry_at(slot.0 as int) matches Some(e) && e.generation == generation && e.outcome
            != MissOutcome::Pending
        &&& interests.waiting(slot, generation) == Some(0u32)
    }

    /// Empties the slot of a terminal generation without waiters, and with it
    /// the protection of its frame.
    pub fn clean_terminal_zero(
        &mut self,
        slot: MissSlot,
        generation: u64,
        interests: &MissInterests,
    )
        requires
            old(self).wf(),
            interests@.len() == old(self).capacity(),
            slot.0 < old(self).capacity(),
        ensures
            final(self).wf(),
            !old(self).spent(*interests, slot, generation) ==> *final(self) == *old(self),
            old(self).spent(*interests, slot, generation) ==> {
                &&& final(self).same_except(*old(self), slot.0 as int)
                &&& final(self).entry_at(slot.0 as int) is None
                &&& final(self).pending_count() == old(self).pending_count()
                &&& forall|f: ReadFrameIdx|
                    f.0 < old(self).capacity() ==> #[trigger] final(self).protection(f) == (if old(
                        self,
                    ).protection(f) matches Some(p) && p.slot == slot {
                        None
                    } else {
                        old(self).protection(f)
                    })
            },
            old(self).linked(*interests) ==> final(self).linked(*interests),
    {
        let ghost start = *self;
        let mut cleaned: bool = false;
        if let Some(entry) = self.slots[slot.index()] {
            if entry.generation == generation && entry.outcome != MissOutcome::Pending
                && interests.waiters(slot, generation) == Some(0u32) {
                proof {
                    start.lemma_entry(slot.0 as int);
                }
                if entry.outcome == MissOutcome::Succeeded {
                    self.success_frames.set(entry.frame.get() as usize, None);
                }
                self.slots.set(slot.index(), None);
                cleaned = true;
            }
        }
        proof {
            if cleaned {
                if start.linked(*interests) {
                    assert forall|i: int| 0 <= i < self.capacity() implies match #[trigger] self.entry_at(
                        i,
                    ) {
                        Some(e) => interests@[i].generation == e.generation,
                        None => interests@[i].waiters == 0,
                    } by {
                        assert(i != slot.0 ==> self.entry_at(i) == start.entry_at(i));
                    }
                }
                assert forall|f: ReadFrameIdx| f.0 < start.capacity() implies #[trigger] self.protection(
                    f,
                ) == (if start.protection(f) matches Some(p) && p.slot == slot {
                    None
                } else {
                    start.protection(f)
                }) by {
                    if start.protection(f) is Some {
                        start.lemma_protection(f);
                    }
                }
                assert forall|k: int| 0 <= k < self.pending@.len() implies {
                    let p = #[trigger] self.pending@[k];
                    &&& self.is_pending(p.slot.0 as int)
                    &&& self.entry_at(p.slot.0 as int)->0.page == p.page
                    &&& self.entry_at(p.slot.0 as int)->0.token == p.token
                } by {
                    assert(start.is_pending(start.pending@[k].slot.0 as int));
                }
                assert forall|i: int| #[trigger] self.is_pending(i) implies self.indexed(i) by {
                    assert(start.is_pending(i));
                    assert(start.indexed(i));
                }
                assert forall|i: int, j: int|
                    self.is_pending(i) && self.is_pending(j) && i != j implies (#[trigger] self.entry_at(i))->0.page != (#[trigger] self.entry_at(
                        j,
                    ))->0.page by {
                    assert(start.is_pending(i) && start.is_pending(j));
                    assert(start.entry_at(i)->0.page != start.entry_at(j)->0.page);
                }
                assert forall|i: int|
                    0 <= i < self.capacity() && #[trigger] self.entry_at(i) is Some implies {
                    &&& self.entry_at(i)->0.frame.0 < self.capacity()
                    &&& self.entry_at(i)->0.generation > 0
                    &&& self.entry_at(i)->0.outcome == MissOutcome::Succeeded ==> self.protection(
                        self.entry_at(i)->0.frame,
                    ) == Some(
                        Protection {
                            slot: MissSlot(i as u32),
                            generation: self.entry_at(i)->0.generation,
                        },
                    )
                } by {
                    start.lemma_entry(i);
                }
                assert forall|f: ReadFrameIdx|
                    f.0 < self.capacity() && #[trigger] self.protection(f) is Some implies {
                    let p = self.protection(f)->0;
                    &&& p.slot.0 < self.capacity()
                    &&& self.entry_at(p.slot.0 as int) is Some
                    &&& self.entry_at(p.slot.0 as int)->0.outcome == MissOutcome::Succeeded
                    &&& self.entry_at(p.slot.0 as int)->0.frame == f
                    &&& self.entry_at(p.slot.0 as int)->0.generation == p.generation
                } by {
                    assert(start.protection(f) is Some);
                    start.lemma_protection(f);
                }
            }
        }
    }

    /// `frame` is protected by waiters of the miss that filled it.
    pub open spec fn guarded(self, interests: MissInterests, frame: ReadFrameIdx) -> bool {
        self.protection(frame) matches Some(p) && interests.waiting(p.slot, p.generation) != Some(
            0u32,
        )
    }

    /// Whether `frame` may be evicted: no waiter still has to collect it. A
    /// protection without waiters is cleared.
    pub fn prepare_eviction(&mut self, frame: ReadFrameIdx, interests: &MissInterests) -> (free:
        bool)
        requires
            old(self).wf(),
            interests@.len() == old(self).capacity(),
            frame.0 < old(self).capacity(),
        ensures
            final(self).wf(),
            free == !old(self).guarded(*interests, frame),
            final(self).pending_count() == old(self).pending_count(),
            old(self).linked(*interests) ==> final(self).linked(*interests),
            free ==> final(self).protection(frame) is None,
            free && old(self).protection(frame) is Some ==> {
                &&& final(self).same_except(
                    *old(self),
                    old(self).protection(frame)->0.slot.0 as int,
                )
                &&& final(self).entry_at(old(self).protection(frame)->0.slot.0 as int) is None
                &&& forall|f: ReadFrameIdx|
                    f.0 < old(self).capacity() ==> #[trigger] final(self).protection(f) == (if f
                        == frame {
                        None
                    } else {
                        old(self).protection(f)
                    })
            },
            !(free && old(self).protection(frame) is Some) ==> *final(self) == *old(self),
    {
        match self.success_frames[frame.get() as usize] {
            None => true,
            Some(protection) => {
                proof {
                    old(self).lemma_protection(frame);
                }
                if interests.waiters(protection.slot, protection.generation) != Some(0u32) {
                    return false;
                }
                self.clean_terminal_zero(protection.slot, protection.generation, interests);
                proof {
                    assert forall|f: ReadFrameIdx|
                        f.0 < old(self).capacity() implies #[trigger] self.protection(f) == (if f
                        == frame {
                        None
                    } else {
                        old(self).protection(f)
                    }) by {
                        if old(self).protection(f) is Some {
                            old(self).lemma_protection(f);
                        }
                    }
                }
                true
            },
        }
    }

    /// A miss of `file` is pending or still has waiters.
    pub open spec fn live_for(self, interests: MissInterests, file: FileId, i: int) -> bool {
        &&& self.entry_at(i) matches Some(e) && e.page.file == file && (e.outcome
            == MissOutcome::Pending || interests.waiting(MissSlot(i as u32), e.generation) != Some(
            0u32,
        ))
    }

    pub fn has_live_for_file(&self, file: FileId, interests: &MissInterests) -> (live: bool)
        requires
            self.wf(),
            interests@.len() == self.capacity(),
        ensures
            live <==> exists|i: int|
                0 <= i < self.capacity() && #[trigger] self.live_for(*interests, file, i),
    {
        let mut i: usize = 0;
        while i < self.slots.len()
            invariant
                self.wf(),
                interests@.len() == self.capacity(),
                i <= self.capacity(),
                forall|k: int| 0 <= k < i ==> !(#[trigger] self.live_for(*interests, file, k)),
            decreases self.slots@.len() - i,
        {
            let live: bool = match self.slots[i] {
                Some(entry) => entry.page.file == file && (entry.outcome == MissOutcome::Pending
                    || interests.waiters(MissSlot::new(i), entry.generation) != Some(0u32)),
                None => false,
            };
            assert(live == self.live_for(*interests, file, i as int));
            if live {
                return true;
            }
            i = i + 1;
        }
        false
    }
}

} // verus!
