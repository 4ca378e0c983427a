//! Driver-owned, granule-sized staging for the direct-I/O write plane.
//!
//! All slots are fixed at construction. A lease is the exclusive right to one
//! slot's bytes; an admitted write keeps the slot until its completion drains.

use crate::num::power_of_two;
use vstd::prelude::*;

verus! {

/// The staging slots of one driver.
#[derive(Debug)]
pub struct WriteArena {
    free: Vec<bool>,
    granules: Vec<Vec<u8>>,
    granule: u32,
    owner: u64,
    waiters: u32,
}

/// What an attempt to lease with waiting comes to.
#[derive(Debug)]
pub enum AllocWait {
    Leased(WriteSlot),
    /// Every slot is held; the caller is registered as waiting.
    Waiting,
}

impl WriteArena {
    pub closed spec fn wf(self) -> bool {
        &&& 0 < self.free@.len() <= u32::MAX
        &&& self.granules@.len() == self.free@.len()
        &&& power_of_two(self.granule as int)
        &&& forall|i: int|
            0 <= i < self.granules@.len() ==> (#[trigger] self.granules@[i])@.len() == self.granule
    }

    pub closed spec fn slot_count(self) -> nat {
        self.free@.len()
    }

    pub closed spec fn granule_bytes(self) -> nat {
        self.granule as nat
    }

    pub closed spec fn identity(self) -> u64 {
        self.owner
    }

    /// Slot `i` is available.
    pub closed spec fn is_free(self, i: int) -> bool {
        self.free@[i]
    }

    /// The bytes staged in slot `i`.
    pub closed spec fn contents(self, i: int) -> Seq<u8> {
        self.granules@[i]@
    }

    pub closed spec fn waiting(self) -> nat {
        self.waiters as nat
    }

    /// The geometry and identity of the arena, which no operation changes.
    pub open spec fn same_shape(self, other: WriteArena) -> bool {
        &&& self.slot_count() == other.slot_count()
        &&& self.granule_bytes() == other.granule_bytes()
        &&& self.identity() == other.identity()
    }

    /// `slot` is a live lease of this arena.
    pub open spec fn holds(self, slot: WriteSlot) -> bool {
        &&& slot.arena() == self.identity()
        &&& slot.index() < self.slot_count()
        &&& !self.is_free(slot.index() as int)
    }

    /// `self` is `other` after leasing `slot`, the lowest free one.
    pub open spec fn leased(self, other: WriteArena, slot: WriteSlot) -> bool {
        &&& self.same_shape(other)
        &&& self.waiting() == other.waiting()
        &&& slot.arena() == other.identity()
        &&& slot.index() < other.slot_count()
        &&& other.is_free(slot.index() as int)
        &&& forall|i: int| 0 <= i < slot.index() ==> !(#[trigger] other.is_free(i))
        &&& forall|i: int|
            0 <= i < other.slot_count() ==> #[trigger] self.is_free(i) == (other.is_free(i) && i
                != slot.index())
        &&& forall|i: int|
            0 <= i < other.slot_count() ==> #[trigger] self.contents(i) == other.contents(i)
    }

    /// Every slot holds one granule.
    pub proof fn lemma_contents(self, i: int)
        requires
            self.wf(),
            0 <= i < self.slot_count(),
        ensures
            self.contents(i).len() == self.granule_bytes(),
    {
    }

    /// `slot_count` free slots of zeroed granules.
    #[must_use]
    pub fn try_preallocated(slot_count: u32, granule: u32, owner: u64) -> (arena: Option<Self>)
        requires
            slot_count > 0,
            power_of_two(granule as int),
        ensures
            arena matches Some(a) && a.fresh(slot_count, granule, owner),
    {
        Some(Self::preallocated(slot_count, granule, owner))
    }

    /// An arena as it leaves construction.
    pub open spec fn fresh(self, slot_count: u32, granule: u32, owner: u64) -> bool {
        &&& self.wf()
        &&& self.slot_count() == slot_count
        &&& self.granule_bytes() == granule
        &&& self.identity() == owner
        &&& self.waiting() == 0
        &&& forall|i: int| 0 <= i < slot_count ==> #[trigger] self.is_free(i)
        &&& forall|i: int|
            0 <= i < slot_count ==> #[trigger] self.contents(i) == Seq::new(
                granule as nat,
                |k: int| 0u8,
            )
    }

    /// `slot_count` free slots of zeroed granules.
    #[must_use]
    pub fn preallocated(slot_count: u32, granule: u32, owner: u64) -> (arena: Self)
        requires
            slot_count > 0,
            power_of_two(granule as int),
        ensures
            arena.fresh(slot_count, granule, owner),
    {
        let mut free: Vec<bool> = Vec::new();
        let mut granules: Vec<Vec<u8>> = Vec::new();
        let mut i: u32 = 0;
        while i < slot_count
            invariant
                i <= slot_count,
                free@.len() == i,
                granules@.len() == i,
                forall|k: int| 0 <= k < i ==> #[trigger] free@[k],
                forall|k: int|
                    0 <= k < i ==> (#[trigger] granules@[k])@ == Seq::new(
                        granule as nat,
                        |b: int| 0u8,
                    ),
            decreases slot_count - i,
        {
            free.push(true);
            let bytes: Vec<u8> = vec![0u8; granule as usize];
            assert(bytes@ =~= Seq::new(granule as nat, |b: int| 0u8));
            granules.push(bytes);
            i = i + 1;
        }
        WriteArena { free, granules, granule, owner, waiters: 0 }
    }

    /// Leases the lowest free slot, or nothing when all are held.
    #[must_use]
    pub fn lease(&mut self) -> (slot: Option<WriteSlot>)
        requires
            old(self).wf(),
        ensures
            final(self).wf(),
            slot is Some <==> exists|i: int|
                0 <= i < old(self).slot_count() && #[trigger] old(self).is_free(i),
            match slot {
                Some(s) => final(self).leased(*old(self), s),
                None => *final(self) == *old(self),
            },
    {
        let limit: u32 = self.free.len() as u32;
        self.lease_within(limit)
    }

    /// Leases the lowest free slot below `limit`.
    pub fn lease_within(&mut self, limit: u32) -> (slot: Option<WriteSlot>)
        requires
            old(self).wf(),
        ensures
            final(self).wf(),
            slot is Some <==> exists|i: int|
                0 <= i < old(self).slot_count() && i < limit && #[trigger] old(self).is_free(i),
            match slot {
                Some(s) => s.index() < limit && final(self).leased(*old(self), s),
                None => *final(self) == *old(self),
            },
    {
        let mut i: usize = 0;
        while i < self.free.len() && i < limit as usize
            invariant
                i <= self.free@.len(),
                i <= limit,
                *self == *old(self),
                self.wf(),
                forall|k: int| 0 <= k < i ==> !(#[trigger] self.free@[k]),
            decreases self.free@.len() - i,
        {
            if self.free[i] {
                assert(old(self).is_free(i as int));
                self.free.set(i, false);
                return Some(WriteSlot { arena: self.owner, slot: i as u32 });
            }
            i = i + 1;
        }
        None
    }

    /// Leases a slot or registers the caller as waiting for one. The caller
    /// blocks or pumps outside, then calls `end_wait` and tries again.
    #[must_use]
    pub fn alloc_wait(&mut self) -> (outcome: AllocWait)
        requires
            old(self).wf(),
            old(self).waiting() < u32::MAX,
        ensures
            final(self).wf(),
            outcome is Leased <==> exists|i: int|
                0 <= i < old(self).slot_count() && #[trigger] old(self).is_free(i),
            match outcome {
                AllocWait::Leased(s) => final(self).leased(*old(self), s),
                AllocWait::Waiting => {
                    &&& final(self).same_shape(*old(self))
                    &&& final(self).waiting() == old(self).waiting() + 1
                    &&& forall|i: int|
                        0 <= i < old(self).slot_count() ==> #[trigger] final(self).is_free(i)
                            == old(self).is_free(i)
                    &&& forall|i: int|
                        0 <= i < old(self).slot_count() ==> #[trigger] final(self).contents(i)
                            == old(self).contents(i)
                },
            },
    {
        match self.lease() {
            Some(slot) => AllocWait::Leased(slot),
            None => {
                self.waiters = self.waiters + 1;
                AllocWait::Waiting
            },
        }
    }

    /// Removes one registered waiter.
    pub fn end_wait(&mut self)
        requires
            old(self).wf(),
            old(self).waiting() > 0,
        ensures
            final(self).wf(),
            final(self).same_shape(*old(self)),
            final(self).waiting() == old(self).waiting() - 1,
            forall|i: int|
                0 <= i < old(self).slot_count() ==> #[trigger] final(self).is_free(i) == old(
                    self,
                ).is_free(i),
            forall|i: int|
                0 <= i < old(self).slot_count() ==> #[trigger] final(self).contents(i) == old(
                    self,
                ).contents(i),
    {
        self.waiters = self.waiters - 1;
    }

    /// The staged bytes of a held slot from `source_offset` on.
    pub fn region(&self, slot: u32, source_offset: u32, len: u32) -> (bytes: Vec<u8>)
        requires
            self.wf(),
            slot < self.slot_count(),
            source_offset + len <= self.granule_bytes(),
        ensures
            bytes@ == self.contents(slot as int).subrange(
                source_offset as int,
                source_offset + len,
            ),
    {
        let granule: &Vec<u8> = &self.granules[slot as usize];
        let mut bytes: Vec<u8> = Vec::new();
        let mut i: u32 = 0;
        while i < len
            invariant
                i <= len,
                source_offset + len <= granule@.len(),
                granule@.len() <= u32::MAX,
                bytes@ == granule@.subrange(source_offset as int, source_offset + i),
            decreases len - i,
        {
            bytes.push(granule[source_offset as usize + i as usize]);
            assert(bytes@ =~= granule@.subrange(source_offset as int, source_offset + i + 1));
            i = i + 1;
        }
        bytes
    }

    /// The granule size.
    pub fn granule(&self) -> (granule: u32)
        ensures
            granule == self.granule_bytes(),
    {
        self.granule
    }

    /// The number of slots.
    pub fn len(&self) -> (len: u32)
        requires
            self.wf(),
        ensures
            len == self.slot_count(),
    {
        self.free.len() as u32
    }

    /// Whether slot `slot` is available.
    pub fn slot_is_free(&self, slot: u32) -> (free: bool)
        requires
            self.wf(),
            slot < self.slot_count(),
        ensures
            free == self.is_free(slot as int),
    {
        self.free[slot as usize]
    }

    /// Whether `slot` was leased from this arena.
    pub fn owns(&self, slot: &WriteSlot) -> (owned: bool)
        ensures
            owned == (slot.arena() == self.identity()),
    {
        slot.arena == self.owner
    }

    /// Overwrites the leased bytes from `offset` on.
    pub fn write(&mut self, slot: &WriteSlot, offset: u32, source: &[u8])
        requires
            old(self).wf(),
            old(self).holds(*slot),
            offset + source@.len() <= old(self).granule_bytes(),
        ensures
            final(self).wf(),
            final(self).same_shape(*old(self)),
            final(self).waiting() == old(self).waiting(),
            forall|i: int|
                0 <= i < old(self).slot_count() ==> #[trigger] final(self).is_free(i) == old(
                    self,
                ).is_free(i),
            forall|i: int|
                0 <= i < old(self).slot_count() ==> #[trigger] final(self).contents(i) == (if i
                    == slot.index() {
                    crate::pool::frames::overwritten(old(self).contents(i), offset as int, source@)
                } else {
                    old(self).contents(i)
                }),
    {
        let index: usize = slot.slot as usize;
        let ghost start = *self;
        let granule: usize = self.granule as usize;
        let mut i: usize = 0;
        while i < source.len()
            invariant
                index == slot.index(),
                index < self.granules@.len(),
                i <= source@.len(),
                start.wf(),
                granule == start.granule,
                offset + source@.len() <= granule,
                self.free == start.free,
                self.granule == start.granule,
                self.owner == start.owner,
                self.waiters == start.waiters,
                self.granules@.len() == start.granules@.len(),
                forall|k: int|
                    0 <= k < self.granules@.len() && k != index ==> #[trigger] self.granules@[k]
                        == start.granules@[k],
                self.granules@[index as int]@.len() == granule,
                forall|b: int|
                    0 <= b < granule ==> #[trigger] self.granules@[index as int]@[b] == (if offset
                        <= b < offset + i {
                        source@[b - offset]
                    } else {
                        start.granules@[index as int]@[b]
                    }),
            decreases source@.len() - i,
        {
            self.granules[index][offset as usize + i] = source[i];
            i = i + 1;
        }
        proof {
            assert(self.contents(index as int) =~= crate::pool::frames::overwritten(
                start.contents(index as int),
                offset as int,
                source@,
            ));
            assert forall|k: int| 0 <= k < self.granules@.len() implies (
            #[trigger] self.granules@[k])@.len() == self.granule by {
                if k != index {
                    assert(self.granules@[k] == start.granules@[k]);
                }
            }
        }
    }

    /// Gives a held slot back and returns whether a waiter should be told.
    pub fn release(&mut self, slot: u32) -> (notify: bool)
        requires
            old(self).wf(),
            slot < old(self).slot_count(),
            !old(self).is_free(slot as int),
        ensures
            final(self).wf(),
            notify == (old(self).waiting() > 0),
            final(self).same_shape(*old(self)),
            final(self).waiting() == old(self).waiting(),
            forall|i: int|
                0 <= i < old(self).slot_count() ==> #[trigger] final(self).is_free(i) == (old(
                    self,
                ).is_free(i) || i == slot),
            forall|i: int|
                0 <= i < old(self).slot_count() ==> #[trigger] final(self).contents(i) == old(
                    self,
                ).contents(i),
    {
        self.free.set(slot as usize, true);
        self.waiters > 0
    }

    /// The total staging size in bytes.
    pub fn span_len(&self) -> (span: u64)
        requires
            self.wf(),
        ensures
            span == self.slot_count() * self.granule_bytes(),
    {
        let count: u32 = self.free.len() as u32;
        assert(count * self.granule <= u32::MAX * u32::MAX) by (nonlinear_arith)
            requires
                count <= u32::MAX,
                self.granule <= u32::MAX,
        ;
        count as u64 * self.granule as u64
    }
}

/// An exclusive lease of one staging granule.
#[derive(Debug)]
pub struct WriteSlot {
    arena: u64,
    slot: u32,
}

impl WriteSlot {
    /// The arena the lease belongs to.
    pub closed spec fn arena(self) -> u64 {
        self.arena
    }

    /// The leased slot.
    pub closed spec fn index(self) -> u32 {
        self.slot
    }

    /// Gives up the lease for its slot index; the slot stays held.
    pub fn into_index(self) -> (slot: u32)
        ensures
            slot == self.index(),
    {
        self.slot
    }

    /// The leased slot.
    pub fn slot(&self) -> (slot: u32)
        ensures
            slot == self.index(),
    {
        self.slot
    }
}

/// A lease and its release undo each other: the slot is free again and no
/// other slot or byte changed.
pub proof fn release_undoes_a_lease(
    before: WriteArena,
    held: WriteArena,
    after: WriteArena,
    slot: WriteSlot,
)
    requires
        held.leased(before, slot),
        after.same_shape(held),
        forall|i: int|
            0 <= i < held.slot_count() ==> #[trigger] after.is_free(i) == (held.is_free(i) || i
                == slot.index()),
        forall|i: int|
            0 <= i < held.slot_count() ==> #[trigger] after.contents(i) == held.contents(i),
    ensures
        held.holds(slot),
        after.same_shape(before),
        forall|i: int|
            0 <= i < before.slot_count() ==> #[trigger] after.is_free(i) == before.is_free(i),
        forall|i: int|
            0 <= i < before.slot_count() ==> #[trigger] after.contents(i) == before.contents(i),
{
}

/// A lease takes the lowest free slot, and that one only; a foreign or a free
/// slot is nobody's lease.
pub proof fn a_lease_takes_the_lowest_free_slot(
    before: WriteArena,
    after: WriteArena,
    slot: WriteSlot,
    i: int,
)
    requires
        after.leased(before, slot),
        0 <= i < before.slot_count(),
    ensures
        before.is_free(slot.index() as int),
        !after.is_free(slot.index() as int),
        before.is_free(i) ==> slot.index() <= i,
        i != slot.index() ==> after.is_free(i) == before.is_free(i),
        after.contents(i) == before.contents(i),
        after.holds(slot),
        !before.holds(slot),
        after.waiting() == before.waiting(),
{
}

} // verus!
