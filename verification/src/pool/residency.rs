//! Residency under epoch reclamation: the frame arena, the page mapping, the
//! readers' pins, the frames awaiting reclamation and the retained ones.
//!
//! The invariant ties them together so that a frame somebody can still read,
//! through a guard or a retained handle, keeps its identity and its bytes.

use crate::pool::epoch::{
    advance_epoch, all_permit, matured, permits, EvictQueue, FrameGuard, FrameOutcome, ReaderCtx,
    ReaderRegistry, ReaderSlot, QUIESCENT,
};
use crate::pool::frames::{
    overwritten, ArenaId, ArenaIds, FrameState, Frames, InFlightFrame, ReadFrameIdx,
    FRAME_GENERATION_MAX,
};
use crate::pool::prefetch::ledger::{lemma_distinct_below, WEAR_MAX};
use crate::pool::release_ring::{RING_CAPACITY_MAX, TICKET_MAX};
use crate::pool::retention::{RetainRefusedReason, Retention, RetentionStats};
use crate::pool::table::PageTable;
use crate::pool::{PageId, ResidentHint};
use crate::product::WaitState;
use vstd::multiset::Multiset;
use vstd::prelude::*;

verus! {

/// What one drain of the evicted frames came to.
#[derive(Debug)]
pub struct Drained {
    /// The frames that reached `Free`, in order.
    pub freed: Vec<ReadFrameIdx>,
    /// The queue entries processed, including those now held.
    pub processed: u32,
}

pub struct Residency {
    pub frames: Frames,
    pub table: PageTable,
    pub readers: ReaderRegistry,
    pub evict_queue: EvictQueue,
    pub retention: Retention,
    pub epoch: u64,
    pub pins: Ghost<Seq<Multiset<ReadFrameIdx>>>,
}

/// `frame` waits in the queue.
pub open spec fn queued_in(queue: Seq<(ReadFrameIdx, u64)>, frame: ReadFrameIdx) -> bool {
    exists|k: int| 0 <= k < queue.len() && (#[trigger] queue[k]).0 == frame
}

/// Every mapped page is resident in its frame under that identity.
pub open spec fn mapped_ok(frames: Frames, table: Map<PageId, ReadFrameIdx>) -> bool {
    forall|p: PageId| #[trigger]
        table.contains_key(p) ==> frames.has(table[p]) && frames.residency(table[p]) is Resident
            && frames.page(table[p]) == Some(p)
}

/// An evicting frame is queued under a tag of the past, or held with its
/// eviction matured.
pub open spec fn evicting_ok(
    frames: Frames,
    queue: Seq<(ReadFrameIdx, u64)>,
    retention: Retention,
    epoch: u64,
) -> bool {
    &&& forall|k: int|
        0 <= k < queue.len() ==> frames.has((#[trigger] queue[k]).0) && frames.residency(
            queue[k].0,
        ) is Evicting && queue[k].1 <= epoch && !retention.held(queue[k].0)
    &&& forall|a: int, b: int|
        0 <= a < b < queue.len() ==> (#[trigger] queue[a]).0 != (#[trigger] queue[b]).0
    &&& forall|f: ReadFrameIdx|
        frames.has(f) && #[trigger] frames.residency(f) is Evicting ==> queued_in(queue, f)
            || retention.held(f)
    &&& forall|f: ReadFrameIdx|
        frames.has(f) && #[trigger] retention.held(f) ==> frames.residency(f) is Evicting
            && matured(retention.tag_of(f), epoch)
}

/// A handle keeps a published frame.
pub open spec fn handles_ok(frames: Frames, retention: Retention) -> bool {
    forall|f: ReadFrameIdx|
        frames.has(f) && #[trigger] retention.handles(f) > 0 ==> frames.published(f)
}

/// The reader's slot counts its pins, and an active reader is at most one
/// epoch behind.
pub open spec fn reader_ok(slot: ReaderSlot, pins: Multiset<ReadFrameIdx>, epoch: u64) -> bool {
    &&& slot.settled()
    &&& slot.guard_count == pins.len()
    &&& slot.local_epoch != QUIESCENT ==> slot.local_epoch <= epoch <= slot.local_epoch + 1
}

pub open spec fn readers_ok(
    readers: Seq<ReaderSlot>,
    pins: Seq<Multiset<ReadFrameIdx>>,
    epoch: u64,
) -> bool {
    &&& pins.len() == readers.len()
    &&& forall|r: int|
        0 <= r < readers.len() ==> reader_ok(#[trigger] readers[r], pins[r], epoch)
}

/// A pinned frame is resident, or was evicted no earlier than the epoch its
/// reader still publishes.
pub open spec fn pin_ok(
    frames: Frames,
    queue: Seq<(ReadFrameIdx, u64)>,
    retention: Retention,
    frame: ReadFrameIdx,
    local_epoch: u64,
) -> bool {
    &&& frames.has(frame)
    &&& frames.published(frame)
    &&& !retention.held(frame)
    &&& forall|k: int|
        0 <= k < queue.len() && (#[trigger] queue[k]).0 == frame ==> queue[k].1 >= local_epoch
}

pub open spec fn pins_ok(
    frames: Frames,
    queue: Seq<(ReadFrameIdx, u64)>,
    retention: Retention,
    readers: Seq<ReaderSlot>,
    pins: Seq<Multiset<ReadFrameIdx>>,
) -> bool {
    forall|r: int, f: ReadFrameIdx|
        0 <= r < readers.len() && #[trigger] pins[r].count(f) > 0 ==> pin_ok(
            frames,
            queue,
            retention,
            f,
            readers[r].local_epoch,
        )
}

impl Residency {
    pub open spec fn has(self, frame: ReadFrameIdx) -> bool {
        self.frames.has(frame)
    }

    pub closed spec fn shaped(self) -> bool {
        &&& self.frames.wf()
        &&& self.table.wf()
        &&& self.evict_queue.wf()
        &&& self.retention.wf()
        &&& self.frames.frame_count() <= 0x4000_0000
        &&& self.table.slot_count() > self.frames.frame_count()
        &&& self.evict_queue.room() == self.frames.frame_count()
        &&& self.retention.frames() == self.frames.frame_count()
        &&& self.readers@.len() <= u32::MAX
        &&& self.readers.identity() == self.frames.arena()
        &&& self.epoch <= WEAR_MAX
        &&& self.table@.dom().finite()
    }

    pub closed spec fn wf(self) -> bool {
        &&& self.shaped()
        &&& mapped_ok(self.frames, self.table@)
        &&& evicting_ok(self.frames, self.evict_queue@, self.retention, self.epoch)
        &&& handles_ok(self.frames, self.retention)
        &&& readers_ok(self.readers@, self.pins@, self.epoch)
        &&& pins_ok(
            self.frames,
            self.evict_queue@,
            self.retention,
            self.readers@,
            self.pins@,
        )
    }

    /// Reader `reader` holds a guard on `frame`.
    pub open spec fn pinned(self, reader: int, frame: ReadFrameIdx) -> bool {
        0 <= reader < self.readers@.len() && self.pins@[reader].count(frame) > 0
    }

    /// `guard` is a live guard of this pool.
    pub open spec fn live(self, guard: FrameGuard) -> bool {
        guard.pool() == self.frames.arena() && self.pinned(guard.holder() as int, guard.pinned())
    }

    /// Somebody can still read `frame`.
    pub open spec fn protected(self, frame: ReadFrameIdx) -> bool {
        &&& self.has(frame)
        &&& self.retention.handles(frame) > 0 || exists|r: int| self.pinned(r, frame)
    }

    /// Every frame somebody could read keeps its identity and its bytes.
    pub open spec fn keeps(self, old: Residency) -> bool {
        forall|f: ReadFrameIdx| #[trigger]
            old.protected(f) ==> self.has(f) && self.frames.published(f) && self.frames.contents(f)
                == old.frames.contents(f) && self.frames.page(f) == old.frames.page(f)
    }

    /// The geometry and identity, which no operation changes.
    pub open spec fn same_shape(self, other: Residency) -> bool {
        &&& self.frames.same_shape(other.frames)
        &&& self.readers@.len() == other.readers@.len()
        &&& self.retention.enabled() == other.retention.enabled()
        &&& self.retention.budget() == other.retention.budget()
        &&& self.retention.readers() == other.retention.readers()
        &&& self.retention.file_slots() == other.retention.file_slots()
    }

    /// What the invariant says about single frames, pages and readers.
    pub proof fn lemma_facts(self)
        requires
            self.wf(),
        ensures
            self.frames.wf(),
            self.table.wf(),
            self.evict_queue.wf(),
            self.retention.wf(),
            0 < self.frames.frame_count() <= 0x4000_0000,
            self.retention.frames() == self.frames.frame_count(),
            self.evict_queue.room() == self.frames.frame_count(),
            self.readers@.len() <= u32::MAX,
            self.readers.identity() == self.frames.arena(),
            self.epoch <= WEAR_MAX,
            mapped_ok(self.frames, self.table@),
            evicting_ok(self.frames, self.evict_queue@, self.retention, self.epoch),
            handles_ok(self.frames, self.retention),
            readers_ok(self.readers@, self.pins@, self.epoch),
            pins_ok(
                self.frames,
                self.evict_queue@,
                self.retention,
                self.readers@,
                self.pins@,
            ),
    {
        self.frames.lemma_positive();
    }

    /// The same frames are pinned and retained.
    pub open spec fn same_holds(self, other: Residency) -> bool {
        &&& self.frames.same_shape(other.frames)
        &&& self.readers@.len() == other.readers@.len()
        &&& self.pins@ == other.pins@
        &&& forall|f: ReadFrameIdx|
            other.has(f) ==> #[trigger] self.retention.handles(f) == other.retention.handles(f)
    }

    /// What is kept over two steps is kept, as long as the first one drops no
    /// hold.
    pub proof fn lemma_keeps_again(self, middle: Residency, before: Residency)
        requires
            middle.keeps(before),
            self.keeps(middle),
            middle.same_holds(before),
        ensures
            self.keeps(before),
    {
        assert forall|f: ReadFrameIdx| #[trigger] before.protected(f) implies self.has(f)
            && self.frames.published(f) && self.frames.contents(f) == before.frames.contents(f)
            && self.frames.page(f) == before.frames.page(f) by {
            if before.retention.handles(f) == 0 {
                let r = choose|r: int| before.pinned(r, f);
                assert(middle.pinned(r, f));
            }
            assert(middle.retention.handles(f) == before.retention.handles(f));
            assert(middle.protected(f));
        }
    }

    /// A step that only marks files drops no hold.
    pub proof fn lemma_same_holds(self, other: Residency)
        requires
            self.wf(),
            other.wf(),
            self.same_but_retention(other),
            self.retention.same_frames(other.retention),
        ensures
            self.same_holds(other),
    {
        assert forall|f: ReadFrameIdx|
            other.has(f) implies #[trigger] self.retention.handles(f) == other.retention.handles(
            f,
        ) by {
            assert(self.retention.has(f));
        }
    }

    /// A step over one unpublished frame leaves every hold as it is.
    pub proof fn lemma_same_holds_frames(self, other: Residency)
        requires
            self.same_but_frames(other),
            self.frames.same_shape(other.frames),
        ensures
            self.same_holds(other),
    {
    }

    /// A protected frame is published and has an identity.
    pub proof fn lemma_protected(self, frame: ReadFrameIdx)
        requires
            self.wf(),
            self.protected(frame),
        ensures
            self.frames.published(frame),
            self.frames.page(frame) is Some,
    {
        if exists|r: int| self.pinned(r, frame) {
            let r = choose|r: int| self.pinned(r, frame);
            assert(self.pins@[r].count(frame) > 0);
        }
        self.frames.lemma_published(frame);
    }

    /// Fixed storage: every frame free, no page mapped, no reader registered.
    pub fn new(
        ids: &mut ArenaIds,
        frame_count: u32,
        granule: u32,
        readers: u32,
        retained: u32,
        file_slots: u32,
    ) -> (residency: Option<Self>)
        requires
            0 < frame_count <= 0x4000_0000,
            crate::num::power_of_two(granule as int),
            granule >= crate::pool::SECTOR_BYTES,
            retained <= RING_CAPACITY_MAX,
            old(ids).issued() < u32::MAX,
        ensures
            residency is None <==> frame_count * granule > usize::MAX,
            residency is None ==> *final(ids) == *old(ids),
            residency matches Some(r) ==> {
                &&& r.wf()
                &&& r.frames.frame_count() == frame_count
                &&& r.frames.granule_bytes() == granule
                &&& r.frames.arena().0 == old(ids).issued() + 1
                &&& final(ids).issued() == old(ids).issued() + 1
                &&& r.readers@.len() == readers
                &&& r.retention.enabled() == (retained > 0)
                &&& r.retention.budget() == retained
                &&& r.retention.enabled() ==> r.retention.file_slots() == file_slots
                &&& r.retention.tickets() == 0
                &&& r.retention.pending() == Seq::<ReadFrameIdx>::empty()
                &&& r.epoch == 0
                &&& r.table@ == Map::<PageId, ReadFrameIdx>::empty()
                &&& r.evict_queue@ == Seq::<(ReadFrameIdx, u64)>::empty()
                &&& forall|f: ReadFrameIdx|
                    r.has(f) ==> #[trigger] r.frames.residency(f) is Free
                &&& forall|f: ReadFrameIdx| r.has(f) ==> #[trigger] r.frames.generation(f) == 0
                &&& forall|f: ReadFrameIdx| r.has(f) ==> !(#[trigger] r.protected(f))
                &&& forall|i: int| 0 <= i < readers ==> !(#[trigger] r.readers@[i]).occupied
                &&& forall|s: int|
                    0 <= s < r.retention.file_slots() ==> !(#[trigger] r.retention.is_retiring(s))
            },
    {
        let frames = match Frames::try_preallocated(ids, frame_count, granule) {
            Some(frames) => frames,
            None => {
                return None;
            },
        };
        let id: ArenaId = frames.id();
        let table = PageTable::with_frame_count(frame_count);
        let registry = ReaderRegistry::with_capacity(readers, id);
        let evict_queue = EvictQueue::with_capacity(frame_count);
        let retention = Retention::preallocated(frame_count, retained, readers, file_slots);
        let residency = Residency {
            frames,
            table,
            readers: registry,
            evict_queue,
            retention,
            epoch: 0,
            pins: Ghost(Seq::new(readers as nat, |r: int| Multiset::<ReadFrameIdx>::empty())),
        };
        proof {
            assert forall|f: ReadFrameIdx| residency.has(f) implies {
                &&& #[trigger] residency.frames.residency(f) is Free
                &&& residency.frames.generation(f) == 0
            } by {
                assert(residency.frames.word(f) == 0);
            }
            assert forall|f: ReadFrameIdx| residency.has(f) implies !(#[trigger] residency.protected(
                f,
            )) by {
                assert(residency.retention.handles(f) == 0);
            }
            assert(residency.table@.dom() =~= Set::empty());
        }
        Some(residency)
    }

    /// The pool this residency belongs to.
    pub fn id(&self) -> (id: ArenaId)
        ensures
            id == self.frames.arena(),
    {
        self.frames.id()
    }

    /// Registers a reader in the lowest vacant slot.
    pub fn register(&mut self) -> (reader: Option<ReaderCtx>)
        requires
            old(self).wf(),
        ensures
            final(self).wf(),
            final(self).same_but_readers(*old(self)),
            match reader {
                Some(ctx) => {
                    &&& ctx.pool() == old(self).frames.arena()
                    &&& ctx.index() < old(self).readers@.len()
                    &&& !old(self).readers@[ctx.index() as int].occupied
                    &&& forall|i: int|
                        0 <= i < ctx.index() ==> (#[trigger] old(self).readers@[i]).occupied
                    &&& final(self).readers@ == old(self).readers@.update(
                        ctx.index() as int,
                        ReaderSlot { occupied: true, ..old(self).readers@[ctx.index() as int] },
                    )
                    &&& final(self).pins@ == old(self).pins@
                },
                None => {
                    &&& *final(self) == *old(self)
                    &&& forall|i: int|
                        0 <= i < old(self).readers@.len() ==> (#[trigger] old(
                            self,
                        ).readers@[i]).occupied
                },
            },
    {
        let ghost before = *self;
        let reader = self.readers.register();
        proof {
            assert forall|r: int| 0 <= r < self.readers@.len() implies reader_ok(
                #[trigger] self.readers@[r],
                self.pins@[r],
                self.epoch,
            ) by {
                assert(reader_ok(before.readers@[r], before.pins@[r], before.epoch));
            }
        }
        reader
    }

    /// Everything but the readers and their pins.
    pub open spec fn same_but_readers(self, other: Residency) -> bool {
        &&& self.frames == other.frames
        &&& self.table == other.table
        &&& self.evict_queue == other.evict_queue
        &&& self.retention == other.retention
        &&& self.epoch == other.epoch
        &&& self.readers@.len() == other.readers@.len()
        &&& self.readers.identity() == other.readers.identity()
    }

    /// Gives a reader's slot back; its guards are gone.
    pub fn vacate(&mut self, reader: u32)
        requires
            old(self).wf(),
            reader < old(self).readers@.len(),
            old(self).readers@[reader as int].occupied,
            old(self).pins@[reader as int].len() == 0,
        ensures
            final(self).wf(),
            final(self).same_but_readers(*old(self)),
            final(self).pins@ == old(self).pins@,
            final(self).readers@ == old(self).readers@.update(
                reader as int,
                ReaderSlot { occupied: false, local_epoch: QUIESCENT, guard_count: 0 },
            ),
    {
        let ghost before = *self;
        assert(reader_ok(
            before.readers@[reader as int],
            before.pins@[reader as int],
            before.epoch,
        ));
        let mut slot: ReaderSlot = self.readers.slot(reader);
        slot.vacate();
        self.readers.store(reader, slot);
        proof {
            assert forall|r: int| 0 <= r < self.readers@.len() implies reader_ok(
                #[trigger] self.readers@[r],
                self.pins@[r],
                self.epoch,
            ) by {
                assert(reader_ok(before.readers@[r], before.pins@[r], before.epoch));
            }
            assert forall|r: int, f: ReadFrameIdx|
                0 <= r < self.readers@.len() && #[trigger] self.pins@[r].count(f)
                    > 0 implies pin_ok(
                self.frames,
                self.evict_queue@,
                self.retention,
                f,
                self.readers@[r].local_epoch,
            ) by {
                assert(before.pins@[r].count(f) > 0);
            }
        }
    }

    /// `self` is `other` with one more guard of `reader` on `frame`: its first
    /// guard publishes the current epoch.
    pub open spec fn repinned(self, other: Residency, reader: int, frame: ReadFrameIdx) -> bool {
        let slot = other.readers@[reader];
        &&& self.same_but_readers(other)
        &&& self.pins@ == other.pins@.update(reader, other.pins@[reader].insert(frame))
        &&& self.readers@ == other.readers@.update(
            reader,
            ReaderSlot {
                local_epoch: if slot.guard_count == 0 {
                    other.epoch
                } else {
                    slot.local_epoch
                },
                guard_count: (slot.guard_count + 1) as u64,
                ..slot
            },
        )
    }

    /// Commits a pin of a resident frame.
    fn commit(&mut self, reader: u32, frame: ReadFrameIdx)
        requires
            old(self).wf(),
            reader < old(self).readers@.len(),
            old(self).readers@[reader as int].occupied,
            old(self).has(frame),
            old(self).frames.residency(frame) is Resident || old(self).pinned(
                reader as int,
                frame,
            ),
            old(self).readers@[reader as int].guard_count < u64::MAX,
        ensures
            final(self).wf(),
            final(self).repinned(*old(self), reader as int, frame),
    {
        let ghost before = *self;
        proof {
            before.lemma_facts();
            assert(reader_ok(
                before.readers@[reader as int],
                before.pins@[reader as int],
                before.epoch,
            ));
        }
        let mut slot: ReaderSlot = self.readers.slot(reader);
        let _first: bool = slot.begin_pin(self.epoch);
        slot.commit_pin();
        self.readers.store(reader, slot);
        proof {
            let mine = before.pins@[reader as int];
            self.pins@ = before.pins@.update(reader as int, mine.insert(frame));
            assert forall|r: int| 0 <= r < self.readers@.len() implies reader_ok(
                #[trigger] self.readers@[r],
                self.pins@[r],
                self.epoch,
            ) by {
                assert(reader_ok(before.readers@[r], before.pins@[r], before.epoch));
            }
            assert forall|r: int, f: ReadFrameIdx|
                0 <= r < self.readers@.len() && #[trigger] self.pins@[r].count(f)
                    > 0 implies pin_ok(
                self.frames,
                self.evict_queue@,
                self.retention,
                f,
                self.readers@[r].local_epoch,
            ) by {
                if r == reader && f == frame {
                    if before.pinned(reader as int, frame) {
                        assert(mine.count(frame) > 0);
                        assert(mine.len() > 0);
                    } else {
                        assert(!self.retention.held(frame));
                    }
                } else {
                    if r == reader {
                        assert(mine.insert(frame).count(f) == mine.count(f));
                        assert(mine.len() > 0);
                    }
                    assert(before.pins@[r].count(f) > 0);
                }
            }
        }
    }

    /// Pins once more a frame the reader already pins, whether or not a page
    /// is still mapped to it.
    pub fn repin(&mut self, reader: u32, frame: ReadFrameIdx)
        requires
            old(self).wf(),
            old(self).pinned(reader as int, frame),
            old(self).readers@[reader as int].occupied,
            old(self).readers@[reader as int].guard_count < u64::MAX,
        ensures
            final(self).wf(),
            final(self).repinned(*old(self), reader as int, frame),
    {
        proof {
            self.lemma_facts();
        }
        self.commit(reader, frame);
    }

    /// Pins the frame `page` is mapped to; an unmapped page leaves the reader
    /// as it was.
    pub fn pin(&mut self, reader: u32, page: PageId) -> (frame: Option<ReadFrameIdx>)
        requires
            old(self).wf(),
            reader < old(self).readers@.len(),
            old(self).readers@[reader as int].occupied,
            old(self).readers@[reader as int].guard_count < u64::MAX,
        ensures
            final(self).wf(),
            frame is Some <==> old(self).table@.contains_key(page),
            match frame {
                Some(f) => {
                    &&& f == old(self).table@[page]
                    &&& old(self).has(f)
                    &&& old(self).frames.residency(f) is Resident
                    &&& old(self).frames.page(f) == Some(page)
                    &&& final(self).repinned(*old(self), reader as int, f)
                },
                None => *final(self) == *old(self),
            },
    {
        proof {
            self.lemma_facts();
        }
        match self.table.lookup(page) {
            Some(frame) => {
                self.commit(reader, frame);
                Some(frame)
            },
            None => None,
        }
    }

    /// Where an advisory observation still holds, exactly.
    pub open spec fn hint_holds(self, page: PageId, hint: ResidentHint) -> bool {
        let frame = ReadFrameIdx(hint.frame);
        &&& hint.granule == page.granule_idx
        &&& self.has(frame)
        &&& self.frames.word(frame) == hint.stamp
        &&& self.frames.residency(frame) is Resident
        &&& self.frames.page(frame) == Some(page)
    }

    /// Pins a frame through an advisory observation, validated before the pin
    /// commits.
    pub fn pin_with_resident_hint(&mut self, reader: u32, page: PageId, hint: ResidentHint) -> (frame:
        Option<ReadFrameIdx>)
        requires
            old(self).wf(),
            reader < old(self).readers@.len(),
            old(self).readers@[reader as int].occupied,
            old(self).readers@[reader as int].guard_count < u64::MAX,
        ensures
            final(self).wf(),
            frame is Some <==> old(self).hint_holds(page, hint),
            match frame {
                Some(f) => f.0 == hint.frame && final(self).repinned(
                    *old(self),
                    reader as int,
                    f,
                ),
                None => *final(self) == *old(self),
            },
    {
        proof {
            self.lemma_facts();
        }
        if hint.granule != page.granule_idx() || hint.frame >= self.frames.count() {
            return None;
        }
        let frame = ReadFrameIdx::new(hint.frame);
        match self.frames.validate_resident(frame, hint.stamp) {
            Some(exact) => {
                if exact == page {
                    self.commit(reader, frame);
                    Some(frame)
                } else {
                    None
                }
            },
            None => None,
        }
    }

    /// An advisory observation of a mapped page.
    pub fn observe(&self, page: PageId) -> (hint: Option<ResidentHint>)
        requires
            self.wf(),
        ensures
            hint is Some <==> self.table@.contains_key(page),
            hint matches Some(h) ==> self.hint_holds(page, h),
    {
        proof {
            self.lemma_facts();
        }
        match self.table.lookup(page) {
            Some(frame) => {
                let stamp: u64 = self.frames.state_word(frame);
                Some(ResidentHint { granule: page.granule_idx(), frame: frame.get(), stamp })
            },
            None => None,
        }
    }

    /// `self` is `other` without one guard of `reader` on `frame`: its last
    /// guard leaves it quiescent.
    pub open spec fn unpinned(self, other: Residency, reader: int, frame: ReadFrameIdx) -> bool {
        let slot = other.readers@[reader];
        &&& self.same_but_readers(other)
        &&& self.pins@ == other.pins@.update(reader, other.pins@[reader].remove(frame))
        &&& self.readers@ == other.readers@.update(
            reader,
            ReaderSlot {
                local_epoch: if slot.guard_count == 1 {
                    QUIESCENT
                } else {
                    slot.local_epoch
                },
                guard_count: (slot.guard_count - 1) as u64,
                ..slot
            },
        )
    }

    /// Drops one guard.
    pub fn unpin(&mut self, reader: u32, frame: ReadFrameIdx)
        requires
            old(self).wf(),
            old(self).pinned(reader as int, frame),
        ensures
            final(self).wf(),
            final(self).unpinned(*old(self), reader as int, frame),
    {
        let ghost before = *self;
        let ghost mine = before.pins@[reader as int];
        proof {
            assert(reader_ok(before.readers@[reader as int], mine, before.epoch));
            vstd::multiset::axiom_count_le_len(mine, frame);
        }
        let mut slot: ReaderSlot = self.readers.slot(reader);
        slot.release_guard();
        self.readers.store(reader, slot);
        proof {
            let left = mine.remove(frame);
            self.pins@ = before.pins@.update(reader as int, left);
            assert(left.len() == mine.len() - 1);
            assert forall|r: int| 0 <= r < self.readers@.len() implies reader_ok(
                #[trigger] self.readers@[r],
                self.pins@[r],
                self.epoch,
            ) by {
                assert(reader_ok(before.readers@[r], before.pins@[r], before.epoch));
            }
            assert forall|r: int, f: ReadFrameIdx|
                0 <= r < self.readers@.len() && #[trigger] self.pins@[r].count(f)
                    > 0 implies pin_ok(
                self.frames,
                self.evict_queue@,
                self.retention,
                f,
                self.readers@[r].local_epoch,
            ) by {
                if r == reader {
                    assert(mine.count(f) >= left.count(f));
                    vstd::multiset::axiom_count_le_len(left, f);
                }
                assert(before.pins@[r].count(f) > 0);
            }
        }
    }

    /// Everything but the frames.
    pub open spec fn same_but_frames(self, other: Residency) -> bool {
        &&& self.table == other.table
        &&& self.readers == other.readers
        &&& self.evict_queue == other.evict_queue
        &&& self.retention == other.retention
        &&& self.epoch == other.epoch
        &&& self.pins == other.pins
    }

    /// A step of a frame nobody can read keeps the invariant and every
    /// protected frame.
    proof fn lemma_private_step(self, before: Residency, frame: ReadFrameIdx)
        requires
            before.wf(),
            before.has(frame),
            !before.frames.published(frame),
            self.same_but_frames(before),
            self.frames.wf(),
            self.frames.same_except(before.frames, frame),
            !(self.frames.residency(frame) is Evicting),
        ensures
            self.wf(),
            self.keeps(before),
            self.same_shape(before),
    {
        assert forall|f: ReadFrameIdx| self.has(f) && f != frame implies #[trigger] self.frames.residency(
            f,
        ) == before.frames.residency(f) by {
            assert(self.frames.word(f) == before.frames.word(f));
        }
        assert forall|p: PageId| #[trigger] self.table@.contains_key(p) implies self.frames.has(
            self.table@[p],
        ) && self.frames.residency(self.table@[p]) is Resident && self.frames.page(self.table@[p])
            == Some(p) by {
            assert(before.table@.contains_key(p));
            assert(before.frames.page(before.table@[p]) == Some(p));
            assert(self.frames.page(self.table@[p]) == before.frames.page(self.table@[p]));
        }
        assert(!before.retention.held(frame));
        assert(before.retention.handles(frame) == 0);
        assert forall|r: int, f: ReadFrameIdx|
            0 <= r < self.readers@.len() && #[trigger] self.pins@[r].count(f) > 0 implies pin_ok(
            self.frames,
            self.evict_queue@,
            self.retention,
            f,
            self.readers@[r].local_epoch,
        ) by {
            assert(before.pins@[r].count(f) > 0);
        }
        assert forall|f: ReadFrameIdx| #[trigger] before.protected(f) implies self.has(f)
            && self.frames.published(f) && self.frames.contents(f) == before.frames.contents(f)
            && self.frames.page(f) == before.frames.page(f) by {
            before.lemma_protected(f);
        }
    }

    /// Takes a free frame in flight for `page`; any other frame refuses.
    pub fn claim(&mut self, frame: ReadFrameIdx, page: PageId) -> (token: Option<InFlightFrame>)
        requires
            old(self).wf(),
            old(self).has(frame),
        ensures
            final(self).wf(),
            final(self).keeps(*old(self)),
            final(self).same_but_frames(*old(self)),
            final(self).frames.same_except(old(self).frames, frame),
            token is Some <==> old(self).frames.residency(frame) is Free,
            token is None ==> *final(self) == *old(self),
            token matches Some(t) ==> {
                &&& final(self).frames.owns(t)
                &&& t.target() == frame
                &&& final(self).frames.residency(frame) is InFlight
                &&& final(self).frames.generation(frame) == old(self).frames.generation(frame)
                &&& final(self).frames.page(frame) == Some(page)
                &&& final(self).frames.contents(frame) == old(self).frames.contents(frame)
            },
    {
        let ghost before = *self;
        let token = self.frames.claim(frame, page);
        proof {
            if token is Some {
                self.lemma_private_step(before, frame);
            } else {
                before.lemma_keeps_itself();
            }
        }
        token
    }

    /// Every frame keeps what it has when nothing changes.
    pub proof fn lemma_keeps_itself(self)
        requires
            self.wf(),
        ensures
            self.keeps(self),
    {
        assert forall|f: ReadFrameIdx| #[trigger] self.protected(f) implies self.frames.published(
            f,
        ) by {
            self.lemma_protected(f);
        }
    }

    /// Fills a frame in flight with one byte value.
    pub fn fill(&mut self, token: &InFlightFrame, byte: u8)
        requires
            old(self).wf(),
            old(self).frames.owns(*token),
        ensures
            final(self).wf(),
            final(self).keeps(*old(self)),
            final(self).same_but_frames(*old(self)),
            final(self).frames.same_except(old(self).frames, token.target()),
            final(self).frames.word(token.target()) == old(self).frames.word(token.target()),
            final(self).frames.page(token.target()) == old(self).frames.page(token.target()),
            final(self).frames.contents(token.target()) == Seq::new(
                final(self).frames.granule_bytes(),
                |j: int| byte,
            ),
    {
        let ghost before = *self;
        self.frames.fill(token, byte);
        proof {
            self.lemma_private_step(before, token.target());
        }
    }

    /// Copies bytes read from the device into a frame in flight.
    pub fn transfer(&mut self, token: &InFlightFrame, destination_offset: u32, source: &[u8])
        requires
            old(self).wf(),
            old(self).frames.owns(*token),
            destination_offset + source@.len() <= old(self).frames.granule_bytes(),
        ensures
            final(self).wf(),
            final(self).keeps(*old(self)),
            final(self).same_but_frames(*old(self)),
            final(self).frames.same_except(old(self).frames, token.target()),
            final(self).frames.word(token.target()) == old(self).frames.word(token.target()),
            final(self).frames.page(token.target()) == old(self).frames.page(token.target()),
            final(self).frames.contents(token.target()) == overwritten(
                old(self).frames.contents(token.target()),
                destination_offset as int,
                source@,
            ),
    {
        let ghost before = *self;
        self.frames.transfer(token, destination_offset, source);
        proof {
            self.lemma_private_step(before, token.target());
        }
    }

    /// Gives a frame in flight back, unpublished.
    pub fn abort(&mut self, token: InFlightFrame) -> (frame: ReadFrameIdx)
        requires
            old(self).wf(),
            old(self).frames.owns(token),
        ensures
            final(self).wf(),
            final(self).keeps(*old(self)),
            frame == token.target(),
            final(self).same_but_frames(*old(self)),
            final(self).frames.same_except(old(self).frames, frame),
            final(self).frames.residency(frame) is Free,
            final(self).frames.generation(frame) == old(self).frames.generation(frame),
            final(self).frames.page(frame) == old(self).frames.page(frame),
            final(self).frames.contents(frame) == old(self).frames.contents(frame),
    {
        let ghost before = *self;
        let frame = self.frames.abort(token);
        proof {
            self.lemma_private_step(before, frame);
        }
        frame
    }

    /// Fewer pages are mapped than the table has slots.
    proof fn lemma_mapping_fits(self)
        requires
            self.wf(),
        ensures
            self.table@.dom().len() <= self.frames.frame_count(),
            self.table@.dom().len() < self.table.slot_count(),
    {
        let dom = self.table@.dom();
        let place = |p: PageId| self.table@[p].0 as int;
        let places = dom.map(place);
        assert forall|p: PageId, q: PageId|
            dom.contains(p) && dom.contains(q) && place(p) == place(q) implies p == q by {
            assert(self.table@.contains_key(p) && self.table@.contains_key(q));
            assert(self.table@[p] == self.table@[q]);
        }
        vstd::set_lib::lemma_map_size(dom, places, place);
        let range = vstd::set_lib::set_int_range(0, self.frames.frame_count() as int);
        vstd::set_lib::lemma_int_range(0, self.frames.frame_count() as int);
        assert forall|x: int| places.contains(x) implies range.contains(x) by {
            let p = choose|p: PageId| dom.contains(p) && place(p) == x;
            assert(self.table@.contains_key(p));
        }
        vstd::set_lib::lemma_len_subset(places, range);
    }

    /// Publishes a filled frame and maps its page to it.
    pub fn publish(&mut self, token: InFlightFrame) -> (frame: ReadFrameIdx)
        requires
            old(self).wf(),
            old(self).frames.owns(token),
            old(self).frames.page(token.target()) is Some,
            old(self).frames.generation(token.target()) < FRAME_GENERATION_MAX,
        ensures
            final(self).wf(),
            final(self).keeps(*old(self)),
            frame == token.target(),
            final(self).table@ == old(self).table@.insert(
                old(self).frames.page(frame)->0,
                frame,
            ),
            final(self).readers == old(self).readers,
            final(self).evict_queue == old(self).evict_queue,
            final(self).retention == old(self).retention,
            final(self).epoch == old(self).epoch,
            final(self).pins == old(self).pins,
            final(self).frames.same_except(old(self).frames, frame),
            final(self).frames.residency(frame) is Resident,
            final(self).frames.generation(frame) == old(self).frames.generation(frame) + 1,
            final(self).frames.page(frame) == old(self).frames.page(frame),
            final(self).frames.contents(frame) == old(self).frames.contents(frame),
    {
        let ghost before = *self;
        proof {
            before.lemma_facts();
        }
        let frame = self.frames.publish(token);
        proof {
            self.lemma_private_step(before, frame);
            self.lemma_mapping_fits();
        }
        let ghost middle = *self;
        let page: PageId = self.frames.exact_page(frame);
        self.table.insert(page, frame);
        proof {
            assert forall|f: ReadFrameIdx| #[trigger] before.protected(f) implies self.has(f)
                && self.frames.published(f) && self.frames.contents(f) == before.frames.contents(
                f,
            ) && self.frames.page(f) == before.frames.page(f) by {
                assert(middle.frames.published(f));
            }
        }
        frame
    }

    /// What `evict` does to a mapped page: the mapping goes, the frame waits
    /// for reclamation under the epoch of its eviction.
    pub open spec fn evicted(self, other: Residency, page: PageId) -> bool {
        let frame = other.table@[page];
        &&& other.table@.contains_key(page)
        &&& other.has(frame)
        &&& self.table@ == other.table@.remove(page)
        &&& self.readers == other.readers
        &&& self.evict_queue@ == other.evict_queue@.push((frame, other.epoch))
        &&& self.retention == other.retention
        &&& self.epoch == other.epoch
        &&& self.pins == other.pins
        &&& self.frames.same_except(other.frames, frame)
        &&& other.frames.residency(frame) is Resident
        &&& self.frames.residency(frame) is Evicting
        &&& self.frames.generation(frame) == other.frames.generation(frame)
        &&& self.frames.page(frame) == Some(page)
        &&& other.frames.page(frame) == Some(page)
        &&& self.frames.contents(frame) == other.frames.contents(frame)
    }

    /// Unmaps `page`, so that no later pin finds it, and queues its frame for
    /// reclamation under the current epoch.
    pub fn evict(&mut self, page: PageId) -> (frame: Option<ReadFrameIdx>)
        requires
            old(self).wf(),
        ensures
            final(self).wf(),
            final(self).keeps(*old(self)),
            frame == (if old(self).table@.contains_key(page) {
                Some(old(self).table@[page])
            } else {
                None::<ReadFrameIdx>
            }),
            frame is Some ==> final(self).evicted(*old(self), page),
            frame is None ==> *final(self) == *old(self),
    {
        let ghost before = *self;
        proof {
            before.lemma_facts();
            before.lemma_keeps_itself();
        }
        let frame: ReadFrameIdx = match self.table.lookup(page) {
            Some(frame) => frame,
            None => {
                return None;
            },
        };
        let _removed = self.table.remove(page);
        self.frames.advance(frame, FrameState::Evicting);
        proof {
            before.lemma_queue_room(frame);
        }
        self.evict_queue.push(frame, self.epoch);
        proof {
            self.lemma_evicted(before, page);
        }
        Some(frame)
    }

    /// A frame outside the queue leaves room for itself in it.
    proof fn lemma_queue_room(self, frame: ReadFrameIdx)
        requires
            self.wf(),
            self.has(frame),
            !(self.frames.residency(frame) is Evicting),
        ensures
            self.evict_queue@.len() < self.evict_queue.room(),
            self.evict_queue@.len() > 0 ==> self.evict_queue@.last().1 <= self.epoch,
    {
        let queue = self.evict_queue@;
        let list = Seq::new(queue.len(), |k: int| queue[k].0.0).push(frame.0);
        assert forall|a: int, b: int|
            0 <= a < list.len() && 0 <= b < list.len() && a != b implies list[a] != list[b] by {
            if a < b && b < queue.len() {
                assert(queue[a].0 != queue[b].0);
            } else if b < a && a < queue.len() {
                assert(queue[b].0 != queue[a].0);
            } else if a < queue.len() {
                assert(queue[a].0 != frame);
            } else {
                assert(queue[b].0 != frame);
            }
        }
        assert forall|k: int| 0 <= k < list.len() implies #[trigger] list[k]
            < self.frames.frame_count() by {
            if k < queue.len() {
                assert(self.frames.has(queue[k].0));
            }
        }
        lemma_distinct_below(list, self.frames.frame_count() as int);
        if queue.len() > 0 {
            assert(queue[queue.len() - 1].1 <= self.epoch);
        }
    }

    proof fn lemma_evicted(self, before: Residency, page: PageId)
        requires
            before.wf(),
            self.frames.wf(),
            self.table.wf(),
            self.evict_queue.wf(),
            self.table.slot_count() == before.table.slot_count(),
            self.evict_queue.room() == before.evict_queue.room(),
            self.evicted(before, page),
        ensures
            self.wf(),
            self.keeps(before),
    {
        let frame = before.table@[page];
        let queue = self.evict_queue@;
        assert forall|f: ReadFrameIdx| self.has(f) && f != frame implies #[trigger] self.frames.residency(
            f,
        ) == before.frames.residency(f) by {
            assert(self.frames.word(f) == before.frames.word(f));
        }
        assert(self.table@.dom() =~= before.table@.dom().remove(page));
        assert forall|p: PageId| #[trigger] self.table@.contains_key(p) implies self.frames.has(
            self.table@[p],
        ) && self.frames.residency(self.table@[p]) is Resident && self.frames.page(self.table@[p])
            == Some(p) by {
            assert(before.table@.contains_key(p));
            assert(before.frames.page(before.table@[p]) == Some(p));
            assert(self.table@[p] != frame);
            assert(self.frames.page(self.table@[p]) == before.frames.page(self.table@[p]));
        }
        assert(!before.retention.held(frame));
        assert forall|k: int| 0 <= k < queue.len() implies self.frames.has((#[trigger] queue[k]).0)
            && self.frames.residency(queue[k].0) is Evicting && queue[k].1 <= self.epoch
            && !self.retention.held(queue[k].0) by {
            if k < before.evict_queue@.len() {
                assert(queue[k] == before.evict_queue@[k]);
            }
        }
        assert forall|a: int, b: int| 0 <= a < b < queue.len() implies (#[trigger] queue[a]).0 != (
        #[trigger] queue[b]).0 by {
            assert(queue[a] == before.evict_queue@[a]);
            if b < before.evict_queue@.len() {
                assert(queue[b] == before.evict_queue@[b]);
            }
        }
        assert forall|f: ReadFrameIdx|
            self.frames.has(f) && #[trigger] self.frames.residency(f) is Evicting implies queued_in(
            queue,
            f,
        ) || self.retention.held(f) by {
            if f == frame {
                assert(queue[queue.len() - 1].0 == f);
            } else {
                assert(before.frames.residency(f) is Evicting);
                if queued_in(before.evict_queue@, f) {
                    let k = choose|k: int|
                        0 <= k < before.evict_queue@.len() && (#[trigger] before.evict_queue@[k]).0
                            == f;
                    assert(queue[k].0 == f);
                }
            }
        }
        assert forall|f: ReadFrameIdx|
            self.frames.has(f) && #[trigger] self.retention.handles(f)
                > 0 implies self.frames.published(f) by {
            assert(before.frames.published(f));
        }
        assert forall|r: int, f: ReadFrameIdx|
            0 <= r < self.readers@.len() && #[trigger] self.pins@[r].count(f) > 0 implies pin_ok(
            self.frames,
            queue,
            self.retention,
            f,
            self.readers@[r].local_epoch,
        ) by {
            assert(before.pins@[r].count(f) > 0);
            assert(reader_ok(before.readers@[r], before.pins@[r], before.epoch));
            vstd::multiset::axiom_count_le_len(before.pins@[r], f);
            assert(before.frames.published(f));
            assert(f != frame ==> self.frames.residency(f) == before.frames.residency(f));
            assert forall|k: int| 0 <= k < queue.len() && (#[trigger] queue[k]).0
                == f implies queue[k].1 >= self.readers@[r].local_epoch by {
                if k < before.evict_queue@.len() {
                    assert(queue[k] == before.evict_queue@[k]);
                }
            }
        }
        assert forall|f: ReadFrameIdx| #[trigger] before.protected(f) implies self.has(f)
            && self.frames.published(f) && self.frames.contents(f) == before.frames.contents(f)
            && self.frames.page(f) == before.frames.page(f) by {
            before.lemma_protected(f);
            assert(f != frame ==> self.frames.residency(f) == before.frames.residency(f));
        }
    }

    /// Everything but the epoch.
    pub open spec fn same_but_epoch(self, other: Residency) -> bool {
        &&& self.frames == other.frames
        &&& self.table == other.table
        &&& self.readers == other.readers
        &&& self.evict_queue == other.evict_queue
        &&& self.retention == other.retention
        &&& self.pins == other.pins
    }

    /// Moves the epoch on by one where every reader permits.
    pub fn advance(&mut self) -> (epoch: u64)
        requires
            old(self).wf(),
            old(self).epoch < WEAR_MAX,
        ensures
            final(self).wf(),
            final(self).keeps(*old(self)),
            final(self).same_but_epoch(*old(self)),
            epoch == final(self).epoch,
            final(self).epoch == (if all_permit(old(self).readers@, old(self).epoch) {
                (old(self).epoch + 1) as u64
            } else {
                old(self).epoch
            }),
    {
        let ghost before = *self;
        proof {
            before.lemma_keeps_itself();
        }
        let epoch: u64 = advance_epoch(&mut self.epoch, self.readers.slots());
        proof {
            assert forall|r: int| 0 <= r < self.readers@.len() implies reader_ok(
                #[trigger] self.readers@[r],
                self.pins@[r],
                self.epoch,
            ) by {
                assert(reader_ok(before.readers@[r], before.pins@[r], before.epoch));
                assert(all_permit(before.readers@, before.epoch) ==> permits(
                    before.readers@[r],
                    before.epoch,
                ));
            }
            assert forall|f: ReadFrameIdx| self.frames.has(f) && #[trigger] self.retention.held(
                f,
            ) implies self.frames.residency(f) is Evicting && matured(
                self.retention.tag_of(f),
                self.epoch,
            ) by {
                assert(matured(before.retention.tag_of(f), before.epoch));
            }
        }
        epoch
    }

    /// Nobody can read a frame whose eviction has matured, but through a
    /// retained handle.
    pub proof fn lemma_matured_unpinned(self, k: int)
        requires
            self.wf(),
            0 <= k < self.evict_queue@.len(),
            matured(self.evict_queue@[k].1, self.epoch),
        ensures
            forall|r: int| !(#[trigger] self.pinned(r, self.evict_queue@[k].0)),
    {
        let frame = self.evict_queue@[k].0;
        assert forall|r: int| !(#[trigger] self.pinned(r, frame)) by {
            if self.pinned(r, frame) {
                assert(self.pins@[r].count(frame) > 0);
                vstd::multiset::axiom_count_le_len(self.pins@[r], frame);
                assert(reader_ok(self.readers@[r], self.pins@[r], self.epoch));
                assert(self.evict_queue@[k].1 >= self.readers@[r].local_epoch);
            }
        }
    }

    /// What a drain of matured evictions leaves: each frame taken from the
    /// queue is freed, or held where a handle still retains it.
    pub open spec fn drained(self, other: Residency, taken: int, freed: Seq<ReadFrameIdx>) -> bool {
        &&& self.table == other.table
        &&& self.readers == other.readers
        &&& self.epoch == other.epoch
        &&& self.pins == other.pins
        &&& self.frames.same_shape(other.frames)
        &&& 0 <= taken <= other.evict_queue@.len()
        &&& self.evict_queue@ == other.evict_queue@.skip(taken)
        &&& forall|f: ReadFrameIdx|
            other.has(f) ==> #[trigger] self.frames.residency(f) == (if freed.contains(f) {
                FrameState::Free
            } else {
                other.frames.residency(f)
            })
        &&& forall|f: ReadFrameIdx|
            other.has(f) ==> #[trigger] self.frames.generation(f) == other.frames.generation(f)
        &&& forall|f: ReadFrameIdx|
            other.has(f) ==> #[trigger] self.frames.page(f) == other.frames.page(f)
        &&& forall|f: ReadFrameIdx|
            other.has(f) ==> #[trigger] self.frames.contents(f) == other.frames.contents(f)
    }

    /// The retention counters once the first `taken` queue entries are out: each
    /// that a handle retains counts as held.
    pub open spec fn retention_after(self, taken: int) -> RetentionStats {
        RetentionStats {
            retained_evictions_held: self.retention.stats().retained_evictions_held.wrapping_add(
                (taken - self.unretained(taken).len()) as u64,
            ),
            ..self.retention.stats()
        }
    }

    /// The retention bookkeeping after holding every retained frame that left
    /// the queue.
    pub open spec fn holding(self, other: Residency, taken: int) -> bool {
        &&& self.retention.enabled() == other.retention.enabled()
        &&& self.retention.frames() == other.retention.frames()
        &&& self.retention.budget() == other.retention.budget()
        &&& self.retention.readers() == other.retention.readers()
        &&& self.retention.file_slots() == other.retention.file_slots()
        &&& self.retention.same_retiring(other.retention)
        &&& self.retention.pending() == other.retention.pending()
        &&& self.retention.tickets() == other.retention.tickets()
        &&& self.retention.stats() == other.retention_after(taken)
        &&& forall|f: ReadFrameIdx|
            other.has(f) ==> #[trigger] self.retention.handles(f) == other.retention.handles(f)
        &&& forall|f: ReadFrameIdx|
            other.has(f) ==> #[trigger] self.retention.held(f) == (other.retention.held(f)
                || queued_in(other.evict_queue@.take(taken), f) && other.retention.handles(f) > 0)
    }

    /// The frames among the first `taken` queue entries that no handle
    /// retains, in order.
    pub open spec fn unretained(self, taken: int) -> Seq<ReadFrameIdx>
        decreases taken,
    {
        if taken <= 0 {
            Seq::empty()
        } else {
            let frame = self.evict_queue@[taken - 1].0;
            let earlier = self.unretained(taken - 1);
            if self.retention.handles(frame) == 0 {
                earlier.push(frame)
            } else {
                earlier
            }
        }
    }

    proof fn lemma_unretained(self, taken: int)
        requires
            0 <= taken <= self.evict_queue@.len(),
        ensures
            forall|f: ReadFrameIdx| #[trigger]
                self.unretained(taken).contains(f) <==> queued_in(self.evict_queue@.take(taken), f)
                    && self.retention.handles(f) == 0,
        decreases taken,
    {
        let queue = self.evict_queue@;
        if taken > 0 {
            self.lemma_unretained(taken - 1);
            let frame = queue[taken - 1].0;
            let earlier = self.unretained(taken - 1);
            let shorter = queue.take(taken - 1);
            let longer = queue.take(taken);
            assert forall|f: ReadFrameIdx| #[trigger]
                self.unretained(taken).contains(f) <==> queued_in(longer, f)
                    && self.retention.handles(f) == 0 by {
                if self.unretained(taken).contains(f) {
                    if earlier.contains(f) {
                        let k = choose|k: int|
                            0 <= k < shorter.len() && (#[trigger] shorter[k]).0 == f;
                        assert(longer[k].0 == f);
                    } else {
                        let k = choose|k: int|
                            0 <= k < self.unretained(taken).len() && self.unretained(taken)[k] == f;
                        assert(k == earlier.len());
                        assert(longer[taken - 1].0 == f);
                    }
                }
                if queued_in(longer, f) && self.retention.handles(f) == 0 {
                    let k = choose|k: int| 0 <= k < longer.len() && (#[trigger] longer[k]).0 == f;
                    if k < taken - 1 {
                        assert(shorter[k].0 == f);
                        assert(earlier.contains(f));
                        let j = choose|j: int| 0 <= j < earlier.len() && earlier[j] == f;
                        assert(self.unretained(taken)[j] == f);
                    } else {
                        assert(self.unretained(taken)[earlier.len() as int] == f);
                    }
                }
            }
        } else {
            assert(self.unretained(taken) == Seq::<ReadFrameIdx>::empty());
        }
    }

    /// The queue entries a reclaim pass frees.
    pub proof fn lemma_freed_entry(self, taken: int, k: int)
        requires
            0 <= k < taken <= self.evict_queue@.len(),
        ensures
            self.retention.handles(self.evict_queue@[k].0) == 0
                ==> self.unretained(taken).contains(self.evict_queue@[k].0),
        decreases taken,
    {
        let now = self.unretained(taken);
        let earlier = self.unretained(taken - 1);
        let frame = self.evict_queue@[k].0;
        if self.retention.handles(frame) == 0 {
            if k == taken - 1 {
                assert(now.last() == frame);
            } else {
                self.lemma_freed_entry(taken - 1, k);
                let j = choose|j: int| 0 <= j < earlier.len() && earlier[j] == frame;
                assert(now[j] == frame);
            }
        }
    }

    /// What is freed comes from the taken queue entries and has no handle.
    pub proof fn lemma_freed_only(self, taken: int, frame: ReadFrameIdx) -> (k: int)
        requires
            0 <= taken <= self.evict_queue@.len(),
            self.unretained(taken).contains(frame),
        ensures
            0 <= k < taken,
            self.evict_queue@[k].0 == frame,
            self.retention.handles(frame) == 0,
        decreases taken,
    {
        let now = self.unretained(taken);
        let j = choose|j: int| 0 <= j < now.len() && now[j] == frame;
        if taken <= 0 {
            0
        } else {
            let earlier = self.unretained(taken - 1);
            if j < earlier.len() {
                assert(earlier[j] == frame);
                self.lemma_freed_only(taken - 1, frame)
            } else {
                taken - 1
            }
        }
    }

    /// The number of queue entries whose eviction has matured.
    pub open spec fn ripe(self, taken: int) -> bool {
        &&& 0 <= taken <= self.evict_queue@.len()
        &&& forall|k: int|
            0 <= k < taken ==> matured((#[trigger] self.evict_queue@[k]).1, self.epoch)
        &&& forall|k: int|
            taken <= k < self.evict_queue@.len() ==> !matured(
                (#[trigger] self.evict_queue@[k]).1,
                self.epoch,
            )
    }

    /// Reclaims every eviction that has matured, oldest first: the frames no
    /// handle retains become free, the retained ones are held.
    pub fn drain_matured(&mut self) -> (outcome: Drained)
        requires
            old(self).wf(),
        ensures
            final(self).wf(),
            final(self).keeps(*old(self)),
            old(self).ripe(outcome.processed as int),
            outcome.freed@ == old(self).unretained(outcome.processed as int),
            outcome.freed@.len() <= outcome.processed,
            outcome.freed@.no_duplicates(),
            forall|k: int|
                0 <= k < outcome.freed@.len() ==> old(self).has(#[trigger] outcome.freed@[k])
                    && old(self).frames.residency(outcome.freed@[k]) is Evicting,
            final(self).drained(*old(self), outcome.processed as int, outcome.freed@),
            final(self).holding(*old(self), outcome.processed as int),
    {
        let ghost before = *self;
        proof {
            before.lemma_facts();
            before.lemma_keeps_itself();
        }
        let mut freed: Vec<ReadFrameIdx> = Vec::new();
        let mut processed: u32 = 0;
        let mut done: bool = false;
        proof {
            assert(before.evict_queue@.skip(0) =~= before.evict_queue@);
            assert(before.evict_queue@.take(0) =~= Seq::<(ReadFrameIdx, u64)>::empty());
        }
        while !done
            invariant
                before.wf(),
                self.wf(),
                self.keeps(before),
                before.evict_queue@.len() <= u32::MAX,
                processed <= before.evict_queue@.len(),
                freed@ == before.unretained(processed as int),
                freed@.len() <= processed,
                freed@.no_duplicates(),
                forall|k: int|
                    0 <= k < freed@.len() ==> before.has(#[trigger] freed@[k])
                        && before.frames.residency(freed@[k]) is Evicting,
                self.drained(before, processed as int, freed@),
                self.holding(before, processed as int),
                forall|k: int|
                    0 <= k < processed ==> matured(
                        (#[trigger] before.evict_queue@[k]).1,
                        before.epoch,
                    ),
                done ==> forall|k: int|
                    processed <= k < before.evict_queue@.len() ==> !matured(
                        (#[trigger] before.evict_queue@[k]).1,
                        before.epoch,
                    ),
            decreases before.evict_queue@.len() - processed + (if done {
                0int
            } else {
                1
            }),
        {
            let ghost middle = *self;
            proof {
                middle.lemma_facts();
            }
            match self.evict_queue.pop_matured(self.epoch) {
                Some(entry) => {
                    let frame: ReadFrameIdx = entry.0;
                    proof {
                        assert(middle.evict_queue@[0] == before.evict_queue@[processed as int]);
                        before.lemma_unretained(processed as int);
                        middle.lemma_matured_unpinned(0);
                        assert(middle.frames.residency(frame) is Evicting);
                    }
                    let outcome: FrameOutcome = self.retention.matured_outcome(frame, entry.1);
                    if outcome == FrameOutcome::Freed {
                        self.frames.advance(frame, FrameState::Free);
                        freed.push(frame);
                    }
                    proof {
                        self.lemma_popped(middle, outcome);
                        self.lemma_drained_more(
                            before,
                            middle,
                            processed as int,
                            outcome,
                        );
                    }
                    processed = processed + 1;
                },
                None => {
                    proof {
                        assert forall|k: int|
                            processed <= k < before.evict_queue@.len() implies !matured(
                            (#[trigger] before.evict_queue@[k]).1,
                            before.epoch,
                        ) by {
                            assert(middle.evict_queue@[k - processed] == before.evict_queue@[k]);
                        }
                        self.lemma_requeued(middle);
                    }
                    done = true;
                },
            }
        }
        Drained { freed, processed }
    }

    /// The queue's contents are all the invariant reads of it.
    proof fn lemma_requeued(self, before: Residency)
        requires
            before.wf(),
            self.frames == before.frames,
            self.table == before.table,
            self.readers == before.readers,
            self.retention == before.retention,
            self.epoch == before.epoch,
            self.pins == before.pins,
            self.evict_queue.wf(),
            self.evict_queue@ == before.evict_queue@,
            self.evict_queue.room() == before.evict_queue.room(),
        ensures
            self.wf(),
            self.keeps(before),
    {
        before.lemma_keeps_itself();
    }

    /// `self` is `before` with the oldest, matured entry taken from the queue.
    spec fn popped(self, before: Residency, outcome: FrameOutcome) -> bool {
        let frame = before.evict_queue@[0].0;
        &&& before.evict_queue@.len() > 0
        &&& matured(before.evict_queue@[0].1, before.epoch)
        &&& self.table == before.table
        &&& self.readers == before.readers
        &&& self.epoch == before.epoch
        &&& self.pins == before.pins
        &&& self.evict_queue.wf()
        &&& self.evict_queue.room() == before.evict_queue.room()
        &&& self.evict_queue@ == before.evict_queue@.subrange(1, before.evict_queue@.len() as int)
        &&& self.retention.wf()
        &&& self.frames.wf()
        &&& match outcome {
            FrameOutcome::Freed => {
                &&& before.retention.handles(frame) == 0
                &&& self.retention == before.retention
                &&& self.frames.same_except(before.frames, frame)
                &&& self.frames.residency(frame) is Free
                &&& self.frames.generation(frame) == before.frames.generation(frame)
                &&& self.frames.page(frame) == before.frames.page(frame)
                &&& self.frames.contents(frame) == before.frames.contents(frame)
            },
            FrameOutcome::Held => {
                &&& before.retention.handles(frame) > 0
                &&& self.retention.holds_matured(
                    before.retention,
                    frame,
                    before.evict_queue@[0].1,
                )
                &&& self.frames == before.frames
            },
        }
    }

    proof fn lemma_popped(self, before: Residency, outcome: FrameOutcome)
        requires
            before.wf(),
            self.popped(before, outcome),
        ensures
            self.wf(),
            self.keeps(before),
    {
        let frame = before.evict_queue@[0].0;
        let queue = self.evict_queue@;
        before.lemma_matured_unpinned(0);
        before.lemma_facts();
        assert(before.frames.residency(frame) is Evicting);
        assert forall|f: ReadFrameIdx| self.has(f) && f != frame implies #[trigger] self.frames.residency(
            f,
        ) == before.frames.residency(f) by {
            assert(self.frames.word(f) == before.frames.word(f));
        }
        assert forall|p: PageId| #[trigger] self.table@.contains_key(p) implies self.frames.has(
            self.table@[p],
        ) && self.frames.residency(self.table@[p]) is Resident && self.frames.page(self.table@[p])
            == Some(p) by {
            assert(before.table@.contains_key(p));
            assert(before.frames.page(before.table@[p]) == Some(p));
            assert(self.table@[p] != frame);
            assert(self.frames.page(self.table@[p]) == before.frames.page(self.table@[p]));
        }
        assert forall|k: int| 0 <= k < queue.len() implies queue[k]
            == before.evict_queue@[k + 1] && queue[k].0 != frame by {
            assert(before.evict_queue@[0].0 != before.evict_queue@[k + 1].0);
        }
        assert forall|k: int| 0 <= k < queue.len() implies self.frames.has((#[trigger] queue[k]).0)
            && self.frames.residency(queue[k].0) is Evicting && queue[k].1 <= self.epoch
            && !self.retention.held(queue[k].0) by {
            assert(queue[k] == before.evict_queue@[k + 1]);
            assert(self.retention.has(queue[k].0));
        }
        assert forall|a: int, b: int| 0 <= a < b < queue.len() implies (#[trigger] queue[a]).0 != (
        #[trigger] queue[b]).0 by {
            assert(before.evict_queue@[a + 1].0 != before.evict_queue@[b + 1].0);
        }
        assert forall|f: ReadFrameIdx|
            self.frames.has(f) && #[trigger] self.frames.residency(f) is Evicting implies queued_in(
            queue,
            f,
        ) || self.retention.held(f) by {
            assert(self.retention.has(f));
            if f != frame {
                assert(before.frames.residency(f) is Evicting);
                if queued_in(before.evict_queue@, f) {
                    let k = choose|k: int|
                        0 <= k < before.evict_queue@.len() && (#[trigger] before.evict_queue@[k]).0
                            == f;
                    assert(queue[k - 1].0 == f);
                }
            } else {
                assert(self.retention.held(f));
            }
        }
        assert forall|f: ReadFrameIdx| self.frames.has(f) && #[trigger] self.retention.held(
            f,
        ) implies self.frames.residency(f) is Evicting && matured(
            self.retention.tag_of(f),
            self.epoch,
        ) by {
            assert(self.retention.has(f));
            assert(self.retention.tag_of(f) == self.retention.tag_of(f));
            if f != frame {
                assert(before.retention.held(f));
            }
        }
        assert forall|f: ReadFrameIdx|
            self.frames.has(f) && #[trigger] self.retention.handles(f)
                > 0 implies self.frames.published(f) by {
            assert(self.retention.has(f));
            assert(before.retention.handles(f) > 0);
            assert(before.frames.published(f));
            assert(f != frame ==> self.frames.residency(f) == before.frames.residency(f));
        }
        assert forall|r: int, f: ReadFrameIdx|
            0 <= r < self.readers@.len() && #[trigger] self.pins@[r].count(f) > 0 implies pin_ok(
            self.frames,
            queue,
            self.retention,
            f,
            self.readers@[r].local_epoch,
        ) by {
            assert(before.pins@[r].count(f) > 0);
            assert(before.pinned(r, f));
            assert(f != frame);
            assert(self.retention.has(f));
            assert(self.frames.residency(f) == before.frames.residency(f));
            assert forall|k: int| 0 <= k < queue.len() && (#[trigger] queue[k]).0
                == f implies queue[k].1 >= self.readers@[r].local_epoch by {
                assert(queue[k] == before.evict_queue@[k + 1]);
            }
        }
        assert forall|f: ReadFrameIdx| #[trigger] before.protected(f) implies self.has(f)
            && self.frames.published(f) && self.frames.contents(f) == before.frames.contents(f)
            && self.frames.page(f) == before.frames.page(f) by {
            before.lemma_protected(f);
            if before.retention.handles(f) == 0 {
                let r = choose|r: int| before.pinned(r, f);
                assert(before.pinned(r, f));
            }
            assert(f != frame ==> self.frames.residency(f) == before.frames.residency(f));
        }
    }

    /// One more entry drained.
    proof fn lemma_drained_more(
        self,
        start: Residency,
        middle: Residency,
        taken: int,
        outcome: FrameOutcome,
    )
        requires
            start.wf(),
            middle.wf(),
            self.wf(),
            middle.keeps(start),
            self.keeps(middle),
            0 <= taken < start.evict_queue@.len() <= u32::MAX,
            start.unretained(taken).len() <= taken,
            middle.drained(start, taken, start.unretained(taken)),
            middle.holding(start, taken),
            self.popped(middle, outcome),
            start.unretained(taken).no_duplicates(),
            forall|k: int|
                0 <= k < start.unretained(taken).len() ==> start.has(
                    #[trigger] start.unretained(taken)[k],
                ) && start.frames.residency(start.unretained(taken)[k]) is Evicting,
        ensures
            self.keeps(start),
            start.unretained(taken + 1) == (if outcome == FrameOutcome::Freed {
                start.unretained(taken).push(start.evict_queue@[taken].0)
            } else {
                start.unretained(taken)
            }),
            self.drained(start, taken + 1, start.unretained(taken + 1)),
            self.holding(start, taken + 1),
            start.unretained(taken + 1).no_duplicates(),
            forall|k: int|
                0 <= k < start.unretained(taken + 1).len() ==> start.has(
                    #[trigger] start.unretained(taken + 1)[k],
                ) && start.frames.residency(start.unretained(taken + 1)[k]) is Evicting,
    {
        let queue = start.evict_queue@;
        let frame = queue[taken].0;
        let freed = start.unretained(taken);
        let more = start.unretained(taken + 1);
        assert(middle.evict_queue@[0] == queue[taken]);
        assert(self.evict_queue@ =~= queue.skip(taken + 1));
        assert(start.frames.residency(frame) is Evicting);
        start.lemma_unretained(taken);
        start.lemma_unretained(taken + 1);
        assert(!queued_in(queue.take(taken), frame)) by {
            if queued_in(queue.take(taken), frame) {
                let k = choose|k: int|
                    0 <= k < queue.take(taken).len() && (#[trigger] queue.take(taken)[k]).0
                        == frame;
                assert(queue[k].0 != queue[taken].0);
            }
        }
        assert(!freed.contains(frame));
        assert(middle.retention.handles(frame) == start.retention.handles(frame));
        assert forall|f: ReadFrameIdx| #[trigger]
            queued_in(queue.take(taken + 1), f) <==> queued_in(queue.take(taken), f) || f
                == frame by {
            let longer = queue.take(taken + 1);
            let shorter = queue.take(taken);
            if queued_in(longer, f) {
                let k = choose|k: int| 0 <= k < longer.len() && (#[trigger] longer[k]).0 == f;
                if k < taken {
                    assert(shorter[k].0 == f);
                }
            }
            if queued_in(shorter, f) {
                let k = choose|k: int| 0 <= k < shorter.len() && (#[trigger] shorter[k]).0 == f;
                assert(longer[k].0 == f);
            }
            assert(longer[taken].0 == frame);
        }
        assert forall|f: ReadFrameIdx| start.has(f) implies #[trigger] self.frames.residency(f)
            == (if more.contains(f) {
            FrameState::Free
        } else {
            start.frames.residency(f)
        }) by {
            assert(middle.frames.residency(f) == (if freed.contains(f) {
                FrameState::Free
            } else {
                start.frames.residency(f)
            }));
            if f != frame {
                assert(self.frames.word(f) == middle.frames.word(f));
            }
        }
        assert forall|f: ReadFrameIdx| start.has(f) implies #[trigger] self.frames.generation(f)
            == start.frames.generation(f) by {
            assert(middle.frames.generation(f) == start.frames.generation(f));
            if f != frame {
                assert(self.frames.word(f) == middle.frames.word(f));
            }
        }
        assert forall|f: ReadFrameIdx| start.has(f) implies #[trigger] self.frames.page(f)
            == start.frames.page(f) by {
            assert(middle.frames.page(f) == start.frames.page(f));
        }
        assert forall|f: ReadFrameIdx| start.has(f) implies #[trigger] self.frames.contents(f)
            == start.frames.contents(f) by {
            assert(middle.frames.contents(f) == start.frames.contents(f));
        }
        assert forall|s: int|
            0 <= s < self.retention.file_slots() implies #[trigger] self.retention.is_retiring(s)
            == start.retention.is_retiring(s) by {
            assert(middle.retention.is_retiring(s) == start.retention.is_retiring(s));
        }
        assert forall|f: ReadFrameIdx| start.has(f) implies #[trigger] self.retention.handles(f)
            == start.retention.handles(f) by {
            assert(middle.retention.handles(f) == start.retention.handles(f));
        }
        assert forall|f: ReadFrameIdx| start.has(f) implies #[trigger] self.retention.held(f) == (
        start.retention.held(f) || queued_in(queue.take(taken + 1), f) && start.retention.handles(f)
            > 0) by {
            assert(middle.retention.held(f) == (start.retention.held(f) || queued_in(
                queue.take(taken),
                f,
            ) && start.retention.handles(f) > 0));
        }
        assert forall|f: ReadFrameIdx| #[trigger] start.protected(f) implies self.has(f)
            && self.frames.published(f) && self.frames.contents(f) == start.frames.contents(f)
            && self.frames.page(f) == start.frames.page(f) by {
            assert(middle.frames.published(f));
            if start.retention.handles(f) > 0 {
                assert(middle.retention.handles(f) > 0);
            } else {
                let r = choose|r: int| start.pinned(r, f);
                assert(middle.pinned(r, f));
            }
            assert(middle.protected(f));
        }
        if outcome == FrameOutcome::Freed {
            assert forall|a: int, b: int|
                0 <= a < more.len() && 0 <= b < more.len() && a != b implies more[a] != more[b] by {
                if a == freed.len() {
                    assert(freed.contains(more[b]));
                }
                if b == freed.len() {
                    assert(freed.contains(more[a]));
                }
            }
        }
    }

    /// What handing back the released frames leaves: each pending frame is
    /// free, and nothing is pending.
    pub open spec fn handed_back(self, other: Residency, freed: Seq<ReadFrameIdx>) -> bool {
        &&& self.table == other.table
        &&& self.readers == other.readers
        &&& self.epoch == other.epoch
        &&& self.pins == other.pins
        &&& self.evict_queue == other.evict_queue
        &&& self.frames.same_shape(other.frames)
        &&& forall|f: ReadFrameIdx|
            other.has(f) ==> #[trigger] self.frames.residency(f) == (if freed.contains(f) {
                FrameState::Free
            } else {
                other.frames.residency(f)
            })
        &&& forall|f: ReadFrameIdx|
            other.has(f) ==> #[trigger] self.frames.generation(f) == other.frames.generation(f)
        &&& forall|f: ReadFrameIdx|
            other.has(f) ==> #[trigger] self.frames.page(f) == other.frames.page(f)
        &&& forall|f: ReadFrameIdx|
            other.has(f) ==> #[trigger] self.frames.contents(f) == other.frames.contents(f)
    }

    /// Frees the frames whose last handle was dropped after their eviction had
    /// matured, in the order of those drops.
    pub fn drain_releases(&mut self, wait: &mut WaitState) -> (freed: Vec<ReadFrameIdx>)
        requires
            old(self).wf(),
            old(self).retention.enabled(),
            old(self).retention.tickets() < TICKET_MAX,
        ensures
            final(self).wf(),
            final(self).keeps(*old(self)),
            freed@ == old(self).retention.pending(),
            freed@.no_duplicates(),
            forall|k: int|
                0 <= k < freed@.len() ==> old(self).has(#[trigger] freed@[k]) && old(
                    self,
                ).frames.residency(freed@[k]) is Evicting,
            final(self).handed_back(*old(self), freed@),
            final(self).retention.enabled(),
            final(self).retention.pending() == Seq::<ReadFrameIdx>::empty(),
            final(self).retention.tickets() == old(self).retention.tickets(),
            final(self).retention.budget() == old(self).retention.budget(),
            final(self).retention.readers() == old(self).retention.readers(),
            final(self).retention.file_slots() == old(self).retention.file_slots(),
            final(self).retention.same_retiring(old(self).retention),
            old(self).retention.stats().occupied_budget >= freed@.len(),
            final(self).retention.stats() == (RetentionStats {
                occupied_budget: (old(self).retention.stats().occupied_budget - freed@.len()) as u32,
                ..old(self).retention.stats()
            }),
            forall|f: ReadFrameIdx|
                old(self).has(f) ==> #[trigger] final(self).retention.handles(f) == old(
                    self,
                ).retention.handles(f),
            forall|f: ReadFrameIdx|
                old(self).has(f) ==> #[trigger] final(self).retention.held(f) == (old(
                    self,
                ).retention.held(f) && old(self).retention.handles(f) > 0),
            *final(wait) == (WaitState { ring_pending: false, ..*old(wait) }),
    {
        let ghost before = *self;
        proof {
            before.lemma_facts();
            before.retention.lemma_budget();
            assert forall|f: ReadFrameIdx|
                before.retention.has(f) && #[trigger] before.retention.held(f) implies matured(
                before.retention.tag_of(f),
                before.epoch,
            ) by {
                assert(before.frames.has(f));
            }
        }
        let released: Vec<ReadFrameIdx> = self.retention.drain_releases(wait, self.epoch);
        let ghost emptied = *self;
        proof {
            assert forall|k: int| 0 <= k < released@.len() implies before.has(
                #[trigger] released@[k],
            ) && before.frames.residency(released@[k]) is Evicting by {
                assert(before.retention.pending().contains(released@[k]));
                assert(before.frames.has(released@[k]));
                assert(before.retention.held(released@[k]));
            }
        }
        let mut i: usize = 0;
        while i < released.len()
            invariant
                before.wf(),
                i <= released@.len(),
                released@ == before.retention.pending(),
                released@.no_duplicates(),
                forall|k: int|
                    0 <= k < released@.len() ==> before.has(#[trigger] released@[k])
                        && before.frames.residency(released@[k]) is Evicting,
                self.frames.wf(),
                self.table == before.table,
                self.readers == before.readers,
                self.epoch == before.epoch,
                self.pins == before.pins,
                self.evict_queue == before.evict_queue,
                self.retention == emptied.retention,
                self.frames.same_shape(before.frames),
                forall|f: ReadFrameIdx|
                    before.has(f) ==> #[trigger] self.frames.residency(f) == (if released@.take(
                        i as int,
                    ).contains(f) {
                        FrameState::Free
                    } else {
                        before.frames.residency(f)
                    }),
                forall|f: ReadFrameIdx|
                    before.has(f) ==> #[trigger] self.frames.generation(f)
                        == before.frames.generation(f),
                forall|f: ReadFrameIdx|
                    before.has(f) ==> #[trigger] self.frames.page(f) == before.frames.page(f),
                forall|f: ReadFrameIdx|
                    before.has(f) ==> #[trigger] self.frames.contents(f) == before.frames.contents(
                        f,
                    ),
            decreases released@.len() - i,
        {
            let ghost middle = *self;
            let frame: ReadFrameIdx = released[i];
            proof {
                assert(!released@.take(i as int).contains(frame)) by {
                    if released@.take(i as int).contains(frame) {
                        let k = choose|k: int|
                            0 <= k < released@.take(i as int).len() && released@.take(i as int)[k]
                                == frame;
                        assert(released@[k] == released@[i as int]);
                    }
                }
                assert(middle.frames.residency(frame) is Evicting);
            }
            self.frames.advance(frame, FrameState::Free);
            i = i + 1;
            proof {
                let now = released@.take(i as int);
                let earlier = released@.take(i - 1);
                assert(now =~= earlier.push(frame));
                assert forall|f: ReadFrameIdx| #[trigger]
                    now.contains(f) <==> earlier.contains(f) || f == frame by {
                    if earlier.contains(f) {
                        let k = choose|k: int| 0 <= k < earlier.len() && earlier[k] == f;
                        assert(now[k] == f);
                    }
                    if now.contains(f) {
                        let k = choose|k: int| 0 <= k < now.len() && now[k] == f;
                        if k < earlier.len() {
                            assert(earlier[k] == f);
                        }
                    }
                    assert(now[i - 1] == frame);
                }
                assert forall|f: ReadFrameIdx|
                    before.has(f) implies #[trigger] self.frames.residency(f) == (if now.contains(f) {
                    FrameState::Free
                } else {
                    before.frames.residency(f)
                }) by {
                    assert(middle.frames.residency(f) == (if earlier.contains(f) {
                        FrameState::Free
                    } else {
                        before.frames.residency(f)
                    }));
                    if f != frame {
                        assert(self.frames.word(f) == middle.frames.word(f));
                    }
                }
                assert forall|f: ReadFrameIdx|
                    before.has(f) implies #[trigger] self.frames.generation(f)
                    == before.frames.generation(f) by {
                    assert(middle.frames.generation(f) == before.frames.generation(f));
                    if f != frame {
                        assert(self.frames.word(f) == middle.frames.word(f));
                    }
                }
                assert forall|f: ReadFrameIdx| before.has(f) implies #[trigger] self.frames.page(f)
                    == before.frames.page(f) by {
                    assert(middle.frames.page(f) == before.frames.page(f));
                }
                assert forall|f: ReadFrameIdx|
                    before.has(f) implies #[trigger] self.frames.contents(f)
                    == before.frames.contents(f) by {
                    assert(middle.frames.contents(f) == before.frames.contents(f));
                }
            }
        }
        proof {
            assert(released@.take(released@.len() as int) =~= released@);
            self.lemma_handed_back(before, released@);
        }
        released
    }

    proof fn lemma_handed_back(self, before: Residency, freed: Seq<ReadFrameIdx>)
        requires
            before.wf(),
            before.retention.enabled(),
            freed == before.retention.pending(),
            self.handed_back(before, freed),
            self.frames.wf(),
            self.retention.wf(),
            self.retention.frames() == before.retention.frames(),
            forall|f: ReadFrameIdx|
                self.retention.has(f) ==> #[trigger] self.retention.handles(f)
                    == before.retention.handles(f),
            forall|f: ReadFrameIdx|
                self.retention.has(f) ==> #[trigger] self.retention.held(f) == (
                before.retention.held(f) && before.retention.handles(f) > 0),
            forall|f: ReadFrameIdx|
                self.retention.has(f) ==> #[trigger] self.retention.tag_of(f)
                    == before.retention.tag_of(f),
        ensures
            self.wf(),
            self.keeps(before),
    {
        let queue = self.evict_queue@;
        before.lemma_facts();
        before.retention.lemma_budget();
        assert forall|f: ReadFrameIdx| #[trigger] freed.contains(f) <==> before.has(f)
            && before.retention.held(f) && before.retention.handles(f) == 0 by {
            assert(before.retention.pending().contains(f) <==> before.retention.has(f)
                && before.retention.held(f) && before.retention.handles(f) == 0);
        }
        assert forall|p: PageId| #[trigger] self.table@.contains_key(p) implies self.frames.has(
            self.table@[p],
        ) && self.frames.residency(self.table@[p]) is Resident && self.frames.page(self.table@[p])
            == Some(p) by {
            assert(before.table@.contains_key(p));
            assert(before.frames.residency(self.table@[p]) is Resident);
            assert(!before.retention.held(self.table@[p]));
            assert(self.frames.page(self.table@[p]) == before.frames.page(self.table@[p]));
        }
        assert forall|k: int| 0 <= k < queue.len() implies self.frames.has((#[trigger] queue[k]).0)
            && self.frames.residency(queue[k].0) is Evicting && queue[k].1 <= self.epoch
            && !self.retention.held(queue[k].0) by {
            assert(before.frames.has(queue[k].0));
            assert(self.retention.has(queue[k].0));
        }
        assert forall|f: ReadFrameIdx|
            self.frames.has(f) && #[trigger] self.frames.residency(f) is Evicting implies queued_in(
            queue,
            f,
        ) || self.retention.held(f) by {
            assert(self.retention.has(f));
            assert(before.frames.residency(f) is Evicting);
            assert(self.retention.held(f) == (before.retention.held(f) && before.retention.handles(
                f,
            ) > 0));
        }
        assert forall|f: ReadFrameIdx| self.frames.has(f) && #[trigger] self.retention.held(
            f,
        ) implies self.frames.residency(f) is Evicting && matured(
            self.retention.tag_of(f),
            self.epoch,
        ) by {
            assert(self.retention.has(f));
            assert(before.retention.held(f));
        }
        assert forall|f: ReadFrameIdx|
            self.frames.has(f) && #[trigger] self.retention.handles(f)
                > 0 implies self.frames.published(f) by {
            assert(self.retention.has(f));
            assert(before.frames.published(f));
        }
        assert forall|r: int, f: ReadFrameIdx|
            0 <= r < self.readers@.len() && #[trigger] self.pins@[r].count(f) > 0 implies pin_ok(
            self.frames,
            queue,
            self.retention,
            f,
            self.readers@[r].local_epoch,
        ) by {
            assert(before.pins@[r].count(f) > 0);
            assert(self.retention.has(f));
            assert(self.frames.residency(f) == before.frames.residency(f));
        }
        assert forall|f: ReadFrameIdx| #[trigger] before.protected(f) implies self.has(f)
            && self.frames.published(f) && self.frames.contents(f) == before.frames.contents(f)
            && self.frames.page(f) == before.frames.page(f) by {
            before.lemma_protected(f);
            if before.retention.handles(f) == 0 {
                let r = choose|r: int| before.pinned(r, f);
                assert(before.pins@[r].count(f) > 0);
            }
            assert(self.frames.residency(f) == before.frames.residency(f));
        }
    }

    /// Everything but the retention bookkeeping.
    pub open spec fn same_but_retention(self, other: Residency) -> bool {
        &&& self.frames == other.frames
        &&& self.table == other.table
        &&& self.readers == other.readers
        &&& self.evict_queue == other.evict_queue
        &&& self.epoch == other.epoch
        &&& self.pins == other.pins
    }

    /// Turns a pinned frame into a retained one; the pin itself is the
    /// caller's to drop.
    pub fn promote(&mut self, reader: u32, frame: ReadFrameIdx, file_slot: u32) -> (outcome: Result<
        (),
        RetainRefusedReason,
    >)
        requires
            old(self).wf(),
            old(self).pinned(reader as int, frame),
            old(self).retention.enabled() ==> file_slot < old(self).retention.file_slots(),
        ensures
            final(self).wf(),
            final(self).keeps(*old(self)),
            final(self).same_but_retention(*old(self)),
            outcome is Ok <==> old(self).retention.admits(frame) && !old(
                self,
            ).retention.is_retiring(file_slot as int),
            outcome is Ok ==> final(self).retention.retained(old(self).retention, frame),
            outcome matches Err(reason) ==> {
                &&& reason == (if old(self).retention.admits(frame) {
                    RetainRefusedReason::FileRetiring
                } else {
                    RetainRefusedReason::Exhausted
                })
                &&& final(self).retention.refused(old(self).retention, frame)
            },
    {
        let ghost before = *self;
        proof {
            before.lemma_facts();
            before.lemma_keeps_itself();
            assert(before.pins@[reader as int].count(frame) > 0);
        }
        let outcome = self.retention.promote(frame, file_slot);
        proof {
            if outcome is Ok {
                self.lemma_rehandled(before, frame);
            } else {
                self.lemma_rehandled(before, frame);
            }
        }
        outcome
    }

    /// Counts of handles may change on a published frame.
    proof fn lemma_rehandled(self, before: Residency, frame: ReadFrameIdx)
        requires
            before.wf(),
            before.has(frame),
            before.frames.published(frame),
            self.same_but_retention(before),
            self.retention.wf(),
            self.retention.frames() == before.retention.frames(),
            forall|f: ReadFrameIdx|
                self.retention.has(f) && f != frame ==> #[trigger] self.retention.handles(f)
                    == before.retention.handles(f),
            forall|f: ReadFrameIdx|
                self.retention.has(f) ==> #[trigger] self.retention.held(f)
                    == before.retention.held(f),
            forall|f: ReadFrameIdx|
                self.retention.has(f) ==> #[trigger] self.retention.tag_of(f)
                    == before.retention.tag_of(f),
        ensures
            self.wf(),
            self.keeps(before),
    {
        let queue = self.evict_queue@;
        before.lemma_facts();
        before.lemma_keeps_itself();
        assert forall|k: int| 0 <= k < queue.len() implies self.frames.has((#[trigger] queue[k]).0)
            && self.frames.residency(queue[k].0) is Evicting && queue[k].1 <= self.epoch
            && !self.retention.held(queue[k].0) by {
            assert(self.retention.has(queue[k].0));
        }
        assert forall|f: ReadFrameIdx|
            self.frames.has(f) && #[trigger] self.frames.residency(f) is Evicting implies queued_in(
            queue,
            f,
        ) || self.retention.held(f) by {
            assert(self.retention.has(f));
            assert(self.retention.held(f) == before.retention.held(f));
        }
        assert forall|f: ReadFrameIdx| self.frames.has(f) && #[trigger] self.retention.held(
            f,
        ) implies self.frames.residency(f) is Evicting && matured(
            self.retention.tag_of(f),
            self.epoch,
        ) by {
            assert(self.retention.has(f));
            assert(before.retention.held(f));
        }
        assert forall|f: ReadFrameIdx|
            self.frames.has(f) && #[trigger] self.retention.handles(f)
                > 0 implies self.frames.published(f) by {
            assert(self.retention.has(f));
            if f != frame {
                assert(before.retention.handles(f) > 0);
            }
        }
        assert forall|r: int, f: ReadFrameIdx|
            0 <= r < self.readers@.len() && #[trigger] self.pins@[r].count(f) > 0 implies pin_ok(
            self.frames,
            queue,
            self.retention,
            f,
            self.readers@[r].local_epoch,
        ) by {
            assert(before.pins@[r].count(f) > 0);
            assert(self.retention.has(f));
        }
    }

    /// Drops one retained handle; the last one on a held frame queues it for
    /// the next drain.
    pub fn release(&mut self, frame: ReadFrameIdx, wait: &mut WaitState)
        requires
            old(self).wf(),
            old(self).retention.enabled(),
            old(self).has(frame),
            old(self).retention.handles(frame) > 0,
            old(self).retention.tickets() < TICKET_MAX,
        ensures
            final(self).wf(),
            final(self).keeps(*old(self)),
            final(self).same_but_retention(*old(self)),
            final(self).retention.released(old(self).retention, frame),
            *final(wait) == old(self).retention.notified(frame, *old(wait)),
    {
        let ghost before = *self;
        proof {
            before.lemma_facts();
        }
        self.retention.release(frame, wait);
        proof {
            assert(before.frames.published(frame));
            self.lemma_rehandled(before, frame);
        }
    }

    /// Marks a file's retirement in the retention bookkeeping.
    pub fn mark_file_retiring(&mut self, file_slot: u32)
        requires
            old(self).wf(),
            old(self).retention.enabled() ==> file_slot < old(self).retention.file_slots(),
        ensures
            final(self).wf(),
            final(self).keeps(*old(self)),
            final(self).same_but_retention(*old(self)),
            final(self).retention.same_frames(old(self).retention),
            final(self).retention.stats() == old(self).retention.stats(),
            forall|s: int|
                0 <= s < old(self).retention.file_slots() ==> #[trigger] final(self).retention.is_retiring(s) == (old(self).retention.is_retiring(s) || s
                    == file_slot),
    {
        let ghost before = *self;
        proof {
            before.lemma_facts();
        }
        self.retention.mark_file_retiring(file_slot);
        proof {
            self.lemma_rebooked(before);
        }
    }

    /// Clears a file's retirement mark when its slot is registered anew.
    pub fn clear_file_retiring(&mut self, file_slot: u32)
        requires
            old(self).wf(),
            old(self).retention.enabled() ==> file_slot < old(self).retention.file_slots(),
        ensures
            final(self).wf(),
            final(self).keeps(*old(self)),
            final(self).same_but_retention(*old(self)),
            final(self).retention.same_frames(old(self).retention),
            final(self).retention.stats() == old(self).retention.stats(),
            forall|s: int|
                0 <= s < old(self).retention.file_slots() ==> #[trigger] final(self).retention.is_retiring(s) == (old(self).retention.is_retiring(s) && s
                    != file_slot),
    {
        let ghost before = *self;
        proof {
            before.lemma_facts();
        }
        self.retention.clear_file_retiring(file_slot);
        proof {
            self.lemma_rebooked(before);
        }
    }

    /// Bookkeeping that leaves every frame's handles alone keeps the
    /// invariant.
    proof fn lemma_rebooked(self, before: Residency)
        requires
            before.wf(),
            self.same_but_retention(before),
            self.retention.wf(),
            self.retention.same_frames(before.retention),
        ensures
            self.wf(),
            self.keeps(before),
    {
        before.lemma_keeps_itself();
        before.lemma_facts();
        let queue = self.evict_queue@;
        assert forall|k: int| 0 <= k < queue.len() implies self.frames.has((#[trigger] queue[k]).0)
            && self.frames.residency(queue[k].0) is Evicting && queue[k].1 <= self.epoch
            && !self.retention.held(queue[k].0) by {
            assert(self.retention.has(queue[k].0));
        }
        assert forall|f: ReadFrameIdx|
            self.frames.has(f) && #[trigger] self.frames.residency(f) is Evicting implies queued_in(
            queue,
            f,
        ) || self.retention.held(f) by {
            assert(self.retention.has(f));
            assert(self.retention.held(f) == before.retention.held(f));
        }
        assert forall|f: ReadFrameIdx| self.frames.has(f) && #[trigger] self.retention.held(
            f,
        ) implies self.frames.residency(f) is Evicting && matured(
            self.retention.tag_of(f),
            self.epoch,
        ) by {
            assert(self.retention.has(f));
            assert(before.retention.held(f));
        }
        assert forall|f: ReadFrameIdx|
            self.frames.has(f) && #[trigger] self.retention.handles(f)
                > 0 implies self.frames.published(f) by {
            assert(self.retention.has(f));
            assert(before.retention.handles(f) > 0);
        }
        assert forall|r: int, f: ReadFrameIdx|
            0 <= r < self.readers@.len() && #[trigger] self.pins@[r].count(f) > 0 implies pin_ok(
            self.frames,
            queue,
            self.retention,
            f,
            self.readers@[r].local_epoch,
        ) by {
            assert(before.pins@[r].count(f) > 0);
            assert(self.retention.has(f));
        }
    }

    /// Which evictions are unretained depends on the queue and the handles
    /// alone.
    pub proof fn lemma_same_unretained(self, other: Residency, taken: int)
        requires
            self.evict_queue@ == other.evict_queue@,
            0 <= taken <= self.evict_queue@.len(),
            forall|k: int|
                0 <= k < self.evict_queue@.len() ==> self.retention.handles(
                    (#[trigger] self.evict_queue@[k]).0,
                ) == other.retention.handles(self.evict_queue@[k].0),
        ensures
            self.unretained(taken) == other.unretained(taken),
        decreases taken,
    {
        if taken > 0 {
            self.lemma_same_unretained(other, taken - 1);
            let frame = self.evict_queue@[taken - 1].0;
            assert(self.retention.handles(frame) == other.retention.handles(frame));
        }
    }
}

} // verus!
