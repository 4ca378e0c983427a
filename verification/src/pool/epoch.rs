//! Epoch-based reclamation for the frame pool: per-reader epoch slots, the
//! publish-before-validate pin, and the ring of frames awaiting reclamation.
//!
//! The global epoch advances only when every reader is quiescent or already at
//! the current epoch. A frame is reclaimed two epochs after its eviction: by
//! then every guard that could have observed its contents is gone.

use crate::pool::frames::{ArenaId, ReadFrameIdx};
use std::collections::VecDeque;
use vstd::prelude::*;

verus! {

/// The epoch a reader publishes while it holds no guard.
pub const QUIESCENT: u64 = 0xffff_ffff_ffff_ffff;

/// One registered reader's epoch state.
#[derive(Debug, Clone, Copy, PartialEq, Eq, Structural)]
pub struct ReaderSlot {
    pub occupied: bool,
    pub local_epoch: u64,
    pub guard_count: u64,
}

/// Whether a reader lets the epoch move on from `global_epoch`.
pub open spec fn permits(slot: ReaderSlot, global_epoch: u64) -> bool {
    slot.local_epoch == QUIESCENT || slot.local_epoch == global_epoch
}

impl ReaderSlot {
    /// A reader holds an epoch exactly while it holds a guard, and a vacant
    /// slot holds neither.
    pub open spec fn settled(self) -> bool {
        &&& self.guard_count == 0 <==> self.local_epoch == QUIESCENT
        &&& !self.occupied ==> self.guard_count == 0
    }

    pub fn vacant() -> (slot: Self)
        ensures
            slot == (ReaderSlot { occupied: false, local_epoch: QUIESCENT, guard_count: 0 }),
    {
        ReaderSlot { occupied: false, local_epoch: QUIESCENT, guard_count: 0 }
    }

    /// Claims a vacant slot; an occupied one refuses.
    pub fn try_occupy(&mut self) -> (claimed: bool)
        ensures
            claimed == !old(self).occupied,
            *final(self) == (ReaderSlot { occupied: true, ..*old(self) }),
    {
        if self.occupied {
            false
        } else {
            self.occupied = true;
            true
        }
    }

    /// Releases a slot with no live guard, resetting its epoch state.
    pub fn vacate(&mut self)
        requires
            old(self).occupied,
            old(self).guard_count == 0,
        ensures
            *final(self) == (ReaderSlot {
                occupied: false,
                local_epoch: QUIESCENT,
                guard_count: 0,
            }),
    {
        self.local_epoch = QUIESCENT;
        self.guard_count = 0;
        self.occupied = false;
    }

    /// Publishes the reader's epoch before its pin validates a frame, on its
    /// first live guard only, and returns whether it published.
    pub fn begin_pin(&mut self, global_epoch: u64) -> (first: bool)
        requires
            global_epoch != QUIESCENT,
        ensures
            first == (old(self).guard_count == 0),
            *final(self) == (ReaderSlot {
                local_epoch: if first {
                    global_epoch
                } else {
                    old(self).local_epoch
                },
                ..*old(self)
            }),
    {
        let first: bool = self.guard_count == 0;
        if first {
            self.local_epoch = global_epoch;
        }
        first
    }

    /// Counts one more live guard.
    pub fn commit_pin(&mut self)
        requires
            old(self).guard_count < u64::MAX,
        ensures
            *final(self) == (ReaderSlot {
                guard_count: (old(self).guard_count + 1) as u64,
                ..*old(self)
            }),
    {
        self.guard_count = self.guard_count + 1;
    }

    /// Abandons a first pin whose validation failed.
    pub fn abort_pin(&mut self)
        requires
            old(self).guard_count == 0,
        ensures
            *final(self) == (ReaderSlot { local_epoch: QUIESCENT, ..*old(self) }),
    {
        self.local_epoch = QUIESCENT;
    }

    /// Drops one live guard; the last one makes the reader quiescent.
    pub fn release_guard(&mut self)
        requires
            old(self).guard_count > 0,
        ensures
            *final(self) == (ReaderSlot {
                guard_count: (old(self).guard_count - 1) as u64,
                local_epoch: if old(self).guard_count == 1 {
                    QUIESCENT
                } else {
                    old(self).local_epoch
                },
                ..*old(self)
            }),
    {
        self.guard_count = self.guard_count - 1;
        if self.guard_count == 0 {
            self.local_epoch = QUIESCENT;
        }
    }

    /// Whether this reader lets the epoch move on from `global_epoch`.
    pub fn permits_advance(&self, global_epoch: u64) -> (permitted: bool)
        requires
            global_epoch != QUIESCENT,
        ensures
            permitted == permits(*self, global_epoch),
    {
        self.local_epoch == QUIESCENT || self.local_epoch == global_epoch
    }
}

/// Every reader lets the epoch move on.
pub open spec fn all_permit(slots: Seq<ReaderSlot>, global_epoch: u64) -> bool {
    forall|i: int| 0 <= i < slots.len() ==> permits(#[trigger] slots[i], global_epoch)
}

/// Advances the epoch by one where every reader permits, and returns the
/// epoch then in force.
pub fn advance_epoch(global_epoch: &mut u64, slots: &Vec<ReaderSlot>) -> (epoch: u64)
    requires
        *old(global_epoch) < QUIESCENT - 1,
    ensures
        epoch == *final(global_epoch),
        *final(global_epoch) == (if all_permit(slots@, *old(global_epoch)) {
            (*old(global_epoch) + 1) as u64
        } else {
            *old(global_epoch)
        }),
{
    let epoch: u64 = *global_epoch;
    let mut permitted: bool = true;
    let mut i: usize = 0;
    while i < slots.len()
        invariant
            i <= slots@.len(),
            epoch < QUIESCENT - 1,
            permitted <==> forall|k: int| 0 <= k < i ==> permits(#[trigger] slots@[k], epoch),
        decreases slots@.len() - i,
    {
        if !slots[i].permits_advance(epoch) {
            permitted = false;
        }
        i = i + 1;
    }
    if permitted {
        *global_epoch = epoch + 1;
    }
    *global_epoch
}

/// Reader registrations by slot.
#[derive(Debug)]
pub struct ReaderRegistry {
    slots: Vec<ReaderSlot>,
    id: ArenaId,
}

impl ReaderRegistry {
    pub closed spec fn view(&self) -> Seq<ReaderSlot> {
        self.slots@
    }

    /// The pool these registrations belong to.
    pub closed spec fn identity(self) -> ArenaId {
        self.id
    }

    pub fn with_capacity(capacity: u32, id: ArenaId) -> (registry: Self)
        ensures
            registry.identity() == id,
            registry@.len() == capacity,
            forall|i: int|
                0 <= i < capacity ==> #[trigger] registry@[i] == (ReaderSlot {
                    occupied: false,
                    local_epoch: QUIESCENT,
                    guard_count: 0,
                }),
    {
        let mut slots: Vec<ReaderSlot> = Vec::new();
        let mut i: u32 = 0;
        while i < capacity
            invariant
                i <= capacity,
                slots@.len() == i,
                forall|k: int|
                    0 <= k < i ==> #[trigger] slots@[k] == (ReaderSlot {
                        occupied: false,
                        local_epoch: QUIESCENT,
                        guard_count: 0,
                    }),
            decreases capacity - i,
        {
            slots.push(ReaderSlot::vacant());
            i = i + 1;
        }
        ReaderRegistry { slots, id }
    }

    pub fn slots(&self) -> (slots: &Vec<ReaderSlot>)
        ensures
            slots@ == self@,
    {
        &self.slots
    }

    /// Occupies the lowest vacant slot, if one is left.
    pub fn register(&mut self) -> (reader: Option<ReaderCtx>)
        requires
            old(self)@.len() <= u32::MAX,
        ensures
            final(self).identity() == old(self).identity(),
            match reader {
                Some(ctx) => {
                    &&& ctx.pool() == old(self).identity()
                    &&& ctx.index() < old(self)@.len()
                    &&& !old(self)@[ctx.index() as int].occupied
                    &&& forall|i: int|
                        0 <= i < ctx.index() ==> (#[trigger] old(self)@[i]).occupied
                    &&& final(self)@ == old(self)@.update(
                        ctx.index() as int,
                        ReaderSlot { occupied: true, ..old(self)@[ctx.index() as int] },
                    )
                },
                None => {
                    &&& *final(self) == *old(self)
                    &&& forall|i: int|
                        0 <= i < old(self)@.len() ==> (#[trigger] old(self)@[i]).occupied
                },
            },
    {
        let mut i: usize = 0;
        while i < self.slots.len()
            invariant
                i <= self.slots@.len(),
                *self == *old(self),
                self.slots@.len() <= u32::MAX,
                forall|k: int| 0 <= k < i ==> (#[trigger] self.slots@[k]).occupied,
            decreases self.slots@.len() - i,
        {
            let mut slot: ReaderSlot = self.slots[i];
            if slot.try_occupy() {
                self.slots.set(i, slot);
                return Some(ReaderCtx { pool: self.id, slot: i as u32 });
            }
            i = i + 1;
        }
        None
    }

    /// The slot at `index`.
    pub fn slot(&self, index: u32) -> (slot: ReaderSlot)
        requires
            index < self@.len(),
        ensures
            slot == self@[index as int],
    {
        self.slots[index as usize]
    }

    /// Writes back a slot's state after one pin step.
    pub fn store(&mut self, index: u32, slot: ReaderSlot)
        requires
            index < old(self)@.len(),
        ensures
            final(self).identity() == old(self).identity(),
            final(self)@ == old(self)@.update(index as int, slot),
    {
        self.slots.set(index as usize, slot);
    }

    /// Whether `reader` was registered here.
    pub fn owns(&self, reader: &ReaderCtx) -> (owned: bool)
        ensures
            owned == (reader.pool() == self.identity()),
    {
        reader.pool == self.id
    }
}

/// A frame aged two full epochs past its eviction.
pub open spec fn matured(tag: u64, global_epoch: u64) -> bool {
    tag + 2 <= global_epoch
}

/// What becomes of a matured frame: reclaimed, or held for a retained handle.
#[derive(Debug, Clone, Copy, PartialEq, Eq, Structural)]
pub enum FrameOutcome {
    Freed,
    Held,
}

/// The bounded ring of evicted frames, each tagged with the epoch of its
/// eviction, oldest first.
pub struct EvictQueue {
    entries: VecDeque<(ReadFrameIdx, u64)>,
    capacity: u32,
}

impl EvictQueue {
    pub closed spec fn view(&self) -> Seq<(ReadFrameIdx, u64)> {
        self.entries@
    }

    pub closed spec fn room(self) -> nat {
        self.capacity as nat
    }

    pub open spec fn wf(self) -> bool {
        &&& self@.len() <= self.room() <= u32::MAX
        &&& forall|i: int, j: int|
            0 <= i <= j < self@.len() ==> (#[trigger] self@[i]).1 <= (#[trigger] self@[j]).1
    }

    pub fn with_capacity(capacity: u32) -> (queue: Self)
        ensures
            queue.wf(),
            queue.room() == capacity,
            queue@ == Seq::<(ReadFrameIdx, u64)>::empty(),
    {
        EvictQueue { entries: VecDeque::new(), capacity }
    }

    /// Appends a frame evicted at `tagged_epoch`; tags never decrease.
    pub fn push(&mut self, frame: ReadFrameIdx, tagged_epoch: u64)
        requires
            old(self).wf(),
            old(self)@.len() < old(self).room(),
            old(self)@.len() > 0 ==> old(self)@.last().1 <= tagged_epoch,
        ensures
            final(self).wf(),
            final(self).room() == old(self).room(),
            final(self)@ == old(self)@.push((frame, tagged_epoch)),
    {
        self.entries.push_back((frame, tagged_epoch));
        assert(self@ == old(self)@.push((frame, tagged_epoch)));
        assert forall|i: int, j: int| 0 <= i <= j < self@.len() implies (#[trigger] self@[i]).1 <= (
        #[trigger] self@[j]).1 by {
            if j == self@.len() - 1 && i < j {
                assert(old(self)@[i].1 <= old(self)@[old(self)@.len() - 1].1);
            }
        }
    }

    /// The frames awaiting reclamation.
    pub fn len(&self) -> (len: u32)
        requires
            self.wf(),
        ensures
            len == self@.len(),
    {
        self.entries.len() as u32
    }

    /// The tag of the oldest entry.
    pub fn oldest_tagged_epoch(&self) -> (tag: Option<u64>)
        ensures
            tag == (if self@.len() == 0 {
                None::<u64>
            } else {
                Some(self@[0].1)
            }),
    {
        if self.entries.len() == 0 {
            None
        } else {
            Some(self.entries[0].1)
        }
    }

    /// Takes the oldest entry if it has aged two full epochs.
    pub fn pop_matured(&mut self, global_epoch: u64) -> (entry: Option<(ReadFrameIdx, u64)>)
        requires
            old(self).wf(),
        ensures
            final(self).wf(),
            final(self).room() == old(self).room(),
            match entry {
                Some(e) => {
                    &&& old(self)@.len() > 0
                    &&& e == old(self)@[0]
                    &&& matured(e.1, global_epoch)
                    &&& final(self)@ == old(self)@.subrange(1, old(self)@.len() as int)
                },
                None => {
                    &&& final(self)@ == old(self)@
                    &&& forall|i: int|
                        0 <= i < old(self)@.len() ==> !matured(
                            (#[trigger] old(self)@[i]).1,
                            global_epoch,
                        )
                },
            },
    {
        let ripe: bool = match self.oldest_tagged_epoch() {
            Some(tag) => tag <= u64::MAX - 2 && tag + 2 <= global_epoch,
            None => false,
        };
        if ripe {
            let entry = self.entries.pop_front();
            assert(self@ == old(self)@.subrange(1, old(self)@.len() as int));
            assert forall|i: int, j: int| 0 <= i <= j < self@.len() implies (#[trigger] self@[i]).1
                <= (#[trigger] self@[j]).1 by {
                assert(old(self)@[i + 1].1 <= old(self)@[j + 1].1);
            }
            entry
        } else {
            assert forall|i: int| 0 <= i < self@.len() implies !matured(
                (#[trigger] self@[i]).1,
                global_epoch,
            ) by {
                assert(self@[0].1 <= self@[i].1);
            }
            None
        }
    }

    /// Takes every entry that has aged two full epochs, oldest first.
    pub fn drain_matured(&mut self, global_epoch: u64) -> (entries: Vec<(ReadFrameIdx, u64)>)
        requires
            old(self).wf(),
        ensures
            final(self).wf(),
            final(self).room() == old(self).room(),
            entries@ + final(self)@ == old(self)@,
            forall|i: int|
                0 <= i < entries@.len() ==> matured((#[trigger] entries@[i]).1, global_epoch),
            forall|i: int|
                0 <= i < final(self)@.len() ==> !matured(
                    (#[trigger] final(self)@[i]).1,
                    global_epoch,
                ),
    {
        let mut entries: Vec<(ReadFrameIdx, u64)> = Vec::new();
        let mut done: bool = false;
        while !done
            invariant
                self.wf(),
                self.room() == old(self).room(),
                entries@ + self@ == old(self)@,
                forall|i: int|
                    0 <= i < entries@.len() ==> matured((#[trigger] entries@[i]).1, global_epoch),
                done ==> forall|i: int|
                    0 <= i < self@.len() ==> !matured((#[trigger] self@[i]).1, global_epoch),
            decreases self@.len() + (if done {
                0int
            } else {
                1
            }),
        {
            let ghost before = self@;
            let ghost taken = entries@;
            match self.pop_matured(global_epoch) {
                Some(entry) => {
                    entries.push(entry);
                    assert(entries@ + self@ =~= taken + before);
                },
                None => {
                    done = true;
                },
            }
        }
        entries
    }
}

/// A reader's registration with one pool. Releasing it gives the slot back.
#[derive(Debug)]
pub struct ReaderCtx {
    pool: ArenaId,
    slot: u32,
}

impl ReaderCtx {
    /// The pool the reader is registered with.
    pub closed spec fn pool(self) -> ArenaId {
        self.pool
    }

    /// The reader's slot.
    pub closed spec fn index(self) -> u32 {
        self.slot
    }

    pub fn slot(&self) -> (slot: u32)
        ensures
            slot == self.index(),
    {
        self.slot
    }

    /// Whether the reader is registered with the pool identified by `id`.
    pub fn belongs_to(&self, id: ArenaId) -> (owned: bool)
        ensures
            owned == (self.pool() == id),
    {
        self.pool == id
    }
}

/// Epoch-pinned read access to a resident frame. While it lives its reader's
/// epoch stays published, so the frame is not reclaimed.
#[derive(Debug)]
pub struct FrameGuard {
    pool: ArenaId,
    reader: u32,
    frame: ReadFrameIdx,
    file_slot: u32,
}

impl FrameGuard {
    pub closed spec fn pool(self) -> ArenaId {
        self.pool
    }

    pub closed spec fn holder(self) -> u32 {
        self.reader
    }

    pub closed spec fn pinned(self) -> ReadFrameIdx {
        self.frame
    }

    pub closed spec fn owner(self) -> u32 {
        self.file_slot
    }

    pub(crate) fn new(pool: ArenaId, reader: u32, frame: ReadFrameIdx, file_slot: u32) -> (guard:
        Self)
        ensures
            guard.pool() == pool,
            guard.holder() == reader,
            guard.pinned() == frame,
            guard.owner() == file_slot,
    {
        FrameGuard { pool, reader, frame, file_slot }
    }

    /// The reader whose epoch protects the frame.
    pub fn reader(&self) -> (reader: u32)
        ensures
            reader == self.holder(),
    {
        self.reader
    }

    /// The pinned frame.
    pub fn frame(&self) -> (frame: ReadFrameIdx)
        ensures
            frame == self.pinned(),
    {
        self.frame
    }

    /// The file slot that owns the pinned page.
    pub fn file_slot(&self) -> (slot: u32)
        ensures
            slot == self.owner(),
    {
        self.file_slot
    }
}

/// Two advances past an eviction need every reader that was active at the
/// eviction to have gone quiescent in between: a reader still publishing an
/// epoch no later than the tag blocks the second advance.
pub proof fn a_live_reader_blocks_maturity(
    tag: u64,
    epoch: u64,
    slots: Seq<ReaderSlot>,
    reader: int,
)
    requires
        0 <= reader < slots.len(),
        slots[reader].local_epoch <= tag,
        slots[reader].local_epoch != QUIESCENT,
        tag <= epoch,
        epoch <= slots[reader].local_epoch + 1,
    ensures
        !matured(tag, epoch),
        epoch == slots[reader].local_epoch + 1 ==> !all_permit(slots, epoch),
{
    if epoch == slots[reader].local_epoch + 1 {
        assert(!permits(slots[reader], epoch));
    }
}

/// A pin that is committed and then released, or begun and then aborted,
/// leaves its reader as it was.
pub proof fn pins_undo(slot: ReaderSlot, epoch: u64)
    requires
        slot.settled(),
        epoch != QUIESCENT,
        slot.guard_count < u64::MAX,
    ensures
        ({
            let begun = ReaderSlot {
                local_epoch: if slot.guard_count == 0 {
                    epoch
                } else {
                    slot.local_epoch
                },
                ..slot
            };
            let committed = ReaderSlot { guard_count: (begun.guard_count + 1) as u64, ..begun };
            let released = ReaderSlot {
                guard_count: (committed.guard_count - 1) as u64,
                local_epoch: if committed.guard_count == 1 {
                    QUIESCENT
                } else {
                    committed.local_epoch
                },
                ..committed
            };
            released == slot
        }),
{
}

} // verus!
