//! The page cache: residency joined with the misses in flight, the free
//! frames, the clock and the speculative ledger.
//!
//! Every frame is in exactly one place: free or reserved, in flight for one
//! pending miss, resident under its page's mapping, or awaiting reclamation.

use crate::driver::{FileId, OpToken};
use crate::pool::clock::{distance, Clock};
use crate::pool::file_slots::FileOwned;
use crate::pool::frame_pages::{FrameFileSlot, FramePages};
use crate::pool::frames::{
    overwritten, ArenaIds, FrameState, Frames, FreeFrames, InFlightFrame, ReadFrameIdx,
};
use crate::pool::miss::{
    MissEntry, MissInterest, MissInterests, MissOutcome, MissSlot, MissTable, Protection,
};
use crate::pool::prefetch::ledger::{
    current, lemma_distinct_below, traceable, Prefetch, Terminal, WEAR_MAX,
};
use crate::pool::prefetch::{Readahead, Source};
use crate::pool::release_ring::RING_CAPACITY_MAX;
use crate::pool::residency::{queued_in, Drained, Residency};
use crate::pool::retention::RetentionStats;
use crate::pool::PageId;
use crate::product::WaitState;
use vstd::prelude::*;

verus! {

pub struct Cache {
    pub residency: Residency,
    pub clock: Clock,
    pub free: FreeFrames,
    pub frame_pages: FramePages,
    pub miss: MissTable,
    pub interests: MissInterests,
    pub writes: Vec<Option<InFlightFrame>>,
    pub prefetch: Prefetch,
    pub reads_in_flight: u32,
    /// The steps taken so far; it bounds every counter of the cache.
    pub wear: u64,
}

/// The free and the reserved frames are exactly the frames in state `Free`.
pub open spec fn spare_ok(
    frames: Frames,
    free: Seq<ReadFrameIdx>,
    reserved: Seq<ReadFrameIdx>,
) -> bool {
    &&& free.no_duplicates()
    &&& reserved.no_duplicates()
    &&& forall|f: ReadFrameIdx| #[trigger]
        free.contains(f) ==> frames.has(f) && frames.residency(f) is Free && !reserved.contains(f)
    &&& forall|f: ReadFrameIdx| #[trigger]
        reserved.contains(f) ==> frames.has(f) && frames.residency(f) is Free
    &&& forall|f: ReadFrameIdx|
        frames.has(f) && #[trigger] frames.residency(f) is Free ==> free.contains(f)
            || reserved.contains(f)
}

/// A pending miss reads into `frame`.
pub open spec fn flown(miss: MissTable, frame: ReadFrameIdx) -> bool {
    exists|i: int| #[trigger] miss.is_pending(i) && miss.entry_at(i)->0.frame == frame
}

/// What holds of the frame a pending miss reads into.
pub open spec fn flight_at(frames: Frames, entry: MissEntry) -> bool {
    &&& frames.has(entry.frame)
    &&& frames.residency(entry.frame) is InFlight
    &&& frames.page(entry.frame) == Some(entry.page)
    &&& entry.filled < frames.granule_bytes()
}

/// The frames in flight are exactly those the pending misses read into, one
/// for each.
pub open spec fn flight_ok(
    frames: Frames,
    miss: MissTable,
    writes: Seq<Option<InFlightFrame>>,
) -> bool {
    &&& writes.len() == frames.frame_count()
    &&& forall|i: int| #[trigger]
        miss.is_pending(i) ==> flight_at(frames, miss.entry_at(i)->0)
    &&& forall|i: int, j: int| #[trigger]
        miss.is_pending(i) && #[trigger] miss.is_pending(j) && miss.entry_at(i)->0.frame
            == miss.entry_at(j)->0.frame ==> i == j
    &&& forall|f: ReadFrameIdx|
        frames.has(f) && #[trigger] frames.residency(f) is InFlight ==> flown(miss, f)
    &&& forall|f: ReadFrameIdx|
        frames.has(f) ==> write_at(frames, f, #[trigger] writes[f.0 as int])
}

/// A frame has a write token exactly while it is in flight.
pub open spec fn write_at(
    frames: Frames,
    frame: ReadFrameIdx,
    write: Option<InFlightFrame>,
) -> bool {
    &&& write is Some <==> frames.residency(frame) is InFlight
    &&& write matches Some(token) ==> token.target() == frame && token.arena() == frames.arena()
}

/// A resident frame is mapped, a pending page is not, and a success somebody
/// waits for is protected by its mapping.
pub open spec fn mapping_ok(
    frames: Frames,
    table: Map<PageId, ReadFrameIdx>,
    miss: MissTable,
) -> bool {
    &&& forall|f: ReadFrameIdx|
        frames.has(f) && #[trigger] frames.residency(f) is Resident ==> table.contains_key(
            frames.page(f)->0,
        ) && table[frames.page(f)->0] == f
    &&& forall|i: int| #[trigger]
        miss.is_pending(i) ==> !table.contains_key(miss.entry_at(i)->0.page)
    &&& forall|f: ReadFrameIdx|
        f.0 < miss.capacity() && #[trigger] miss.protection(f) is Some ==> {
            let page = miss.entry_at(miss.protection(f)->0.slot.0 as int)->0.page;
            table.contains_key(page) && table[page] == f
        }
}

/// The published frames are filed under their file's slot.
pub open spec fn pages_ok(frames: Frames, pages: FramePages, miss: MissTable) -> bool {
    &&& forall|f: ReadFrameIdx|
        frames.has(f) ==> filed_at(frames, f, #[trigger] pages.at(f.0 as int))
    &&& forall|i: int| #[trigger]
        miss.is_pending(i) ==> miss.entry_at(i)->0.page.file.slot < pages.file_capacity()
}

pub open spec fn filed_at(
    frames: Frames,
    frame: ReadFrameIdx,
    filed: Option<FrameFileSlot>,
) -> bool {
    &&& filed is Some <==> frames.published(frame)
    &&& filed matches Some(slot) ==> slot.0 == frames.page(frame)->0.file.slot
}

/// A speculative entry names a frame in flight or resident, by its page.
pub open spec fn ledger_ok(frames: Frames, prefetch: Prefetch) -> bool {
    forall|f: ReadFrameIdx|
        frames.has(f) && #[trigger] prefetch.entry_of(f) is Some ==> (frames.residency(
            f,
        ) is InFlight || frames.residency(f) is Resident) && frames.page(f) == Some(
            prefetch.entry_of(f)->0.page,
        )
}

/// No counter exceeds the wear.
pub open spec fn worn_ok(
    residency: Residency,
    interests: Seq<MissInterest>,
    strain: nat,
    wear: u64,
) -> bool {
    &&& wear <= WEAR_MAX
    &&& strain <= wear
    &&& residency.epoch <= wear
    &&& residency.retention.tickets() <= wear
    &&& forall|f: ReadFrameIdx|
        residency.has(f) ==> #[trigger] residency.frames.generation(f) <= wear
    &&& forall|i: int| 0 <= i < interests.len() ==> (#[trigger] interests[i]).generation <= wear
}

impl Cache {
    pub closed spec fn shaped(self) -> bool {
        let n = self.residency.frames.frame_count();
        &&& self.residency.wf()
        &&& self.clock.wf()
        &&& self.clock.frame_count() == n
        &&& self.free.wf()
        &&& self.free.room() == n
        &&& self.frame_pages.wf()
        &&& self.frame_pages.capacity() == n
        &&& self.miss.wf()
        &&& self.miss.capacity() == n
        &&& self.miss.linked(self.interests)
        &&& self.reads_in_flight == self.miss.pending_count()
        &&& self.reads_in_flight <= self.miss.pending_room() <= n
        &&& self.prefetch.wf()
        &&& self.prefetch.linked(self.clock)
        &&& self.prefetch.frames() == n
    }

    pub closed spec fn wf(self) -> bool {
        &&& self.shaped()
        &&& spare_ok(self.residency.frames, self.free@, self.prefetch.reserved())
        &&& flight_ok(self.residency.frames, self.miss, self.writes@)
        &&& mapping_ok(self.residency.frames, self.residency.table@, self.miss)
        &&& pages_ok(self.residency.frames, self.frame_pages, self.miss)
        &&& ledger_ok(self.residency.frames, self.prefetch)
        &&& worn_ok(self.residency, self.interests@, self.prefetch.strain(), self.wear)
    }

    /// The invariant, part by part.
    pub proof fn lemma_facts(self)
        requires
            self.wf(),
        ensures
            self.residency.wf(),
            self.clock.wf(),
            self.clock.frame_count() == self.frame_count(),
            self.free.wf(),
            self.free.room() == self.frame_count(),
            self.frame_pages.wf(),
            self.frame_pages.capacity() == self.frame_count(),
            self.miss.wf(),
            self.miss.capacity() == self.frame_count(),
            self.miss.linked(self.interests),
            self.reads_in_flight == self.miss.pending_count(),
            self.reads_in_flight <= self.miss.pending_room() <= self.frame_count(),
            self.prefetch.wf(),
            self.prefetch.linked(self.clock),
            self.prefetch.frames() == self.frame_count(),
            0 < self.frame_count() <= 0x4000_0000,
            spare_ok(self.residency.frames, self.free@, self.prefetch.reserved()),
            flight_ok(self.residency.frames, self.miss, self.writes@),
            mapping_ok(self.residency.frames, self.residency.table@, self.miss),
            pages_ok(self.residency.frames, self.frame_pages, self.miss),
            ledger_ok(self.residency.frames, self.prefetch),
            worn_ok(self.residency, self.interests@, self.prefetch.strain(), self.wear),
    {
        self.residency.lemma_facts();
    }

    pub open spec fn frame_count(self) -> nat {
        self.residency.frames.frame_count()
    }

    pub open spec fn granule_bytes(self) -> nat {
        self.residency.frames.granule_bytes()
    }

    /// The reads that may be in flight at once.
    pub open spec fn read_limit(self) -> nat {
        self.miss.pending_room()
    }

    pub open spec fn mapped(self, page: PageId) -> bool {
        self.residency.table@.contains_key(page)
    }

    /// A read of `page` is in flight.
    pub open spec fn pending(self, page: PageId) -> bool {
        exists|i: int| #[trigger] self.miss.is_pending(i) && self.miss.entry_at(i)->0.page == page
    }

    /// The geometry, which no operation changes.
    pub open spec fn same_shape(self, other: Cache) -> bool {
        &&& self.residency.frames.same_shape(other.residency.frames)
        &&& self.residency.readers@.len() == other.residency.readers@.len()
        &&& self.residency.retention.enabled() == other.residency.retention.enabled()
        &&& self.residency.retention.budget() == other.residency.retention.budget()
        &&& self.residency.retention.readers() == other.residency.retention.readers()
        &&& self.residency.retention.file_slots() == other.residency.retention.file_slots()
        &&& self.frame_pages.file_capacity() == other.frame_pages.file_capacity()
        &&& self.miss.pending_room() == other.miss.pending_room()
        &&& self.prefetch.credits() == other.prefetch.credits()
        &&& self.prefetch.limit() == other.prefetch.limit()
        &&& self.prefetch.automatic() == other.prefetch.automatic()
        &&& self.prefetch.patterns().len() == other.prefetch.patterns().len()
    }

    /// A new cache of the given geometry: every frame is free, nothing is in
    /// flight, and nobody is registered or waits.
    pub open spec fn blank(
        self,
        frame_count: u32,
        granule: u32,
        readers: u32,
        reads: u32,
        retained: u32,
        files: u32,
        credits: u32,
        mode: Readahead,
    ) -> bool {
        &&& self.wf()
        &&& self.wear == 0
        &&& self.frame_count() == frame_count
        &&& self.granule_bytes() == granule
        &&& self.residency.readers@.len() == readers
        &&& self.residency.retention.enabled() == (retained > 0)
        &&& self.residency.retention.budget() == retained
        &&& retained > 0 ==> self.residency.retention.file_slots() == files
        &&& self.residency.retention.pending() == Seq::<ReadFrameIdx>::empty()
        &&& self.residency.evict_queue@ == Seq::<(ReadFrameIdx, u64)>::empty()
        &&& self.frame_pages.file_capacity() == files
        &&& self.read_limit() == reads
        &&& self.clock.fresh(frame_count)
        &&& self.free@ == Seq::new(
            frame_count as nat,
            |i: int| ReadFrameIdx((frame_count - 1 - i) as u32),
        )
        &&& self.interests@ == Seq::new(
            frame_count as nat,
            |i: int| MissInterest { generation: 0, waiters: 0 },
        )
        &&& self.prefetch.laid_out(credits, readers, reads, mode, frame_count, granule)
        &&& self.residency.table@ == Map::<PageId, ReadFrameIdx>::empty()
        &&& self.reads_in_flight == 0
        &&& self.residency.epoch == 0
        &&& forall|p: PageId| !(#[trigger] self.pending(p))
        &&& forall|f: ReadFrameIdx|
            self.residency.has(f) ==> #[trigger] self.residency.frames.residency(f) is Free
        &&& forall|f: ReadFrameIdx|
            self.residency.has(f) ==> #[trigger] self.residency.frames.generation(f) == 0
        &&& forall|f: ReadFrameIdx| !(#[trigger] self.residency.protected(f))
        &&& forall|i: int| 0 <= i < readers ==> !(#[trigger] self.residency.readers@[i]).occupied
        &&& forall|i: int|
            0 <= i < self.miss.capacity() ==> (#[trigger] self.miss.entry_at(i)) is None
        &&& forall|s: int|
            0 <= s < self.residency.retention.file_slots()
                ==> !(#[trigger] self.residency.retention.is_retiring(s))
    }

    /// Every frame is free.
    pub fn new(
        ids: &mut ArenaIds,
        frame_count: u32,
        granule: u32,
        readers: u32,
        reads: u32,
        retained: u32,
        files: u32,
        credits: u32,
        mode: Readahead,
    ) -> (cache: Option<Self>)
        requires
            0 < frame_count <= 0x4000_0000,
            crate::num::power_of_two(granule as int),
            granule >= crate::pool::SECTOR_BYTES,
            retained <= RING_CAPACITY_MAX,
            reads <= frame_count,
            old(ids).issued() < u32::MAX,
        ensures
            cache is None <==> frame_count * granule > usize::MAX,
            cache is None ==> *final(ids) == *old(ids),
            cache matches Some(c) ==> {
                &&& c.blank(
                    frame_count,
                    granule,
                    readers,
                    reads,
                    retained,
                    files,
                    credits,
                    mode,
                )
                &&& c.residency.frames.arena().0 == old(ids).issued() + 1
                &&& final(ids).issued() == old(ids).issued() + 1
            },
    {
        let residency = match Residency::new(ids, frame_count, granule, readers, retained, files) {
            Some(residency) => residency,
            None => {
                return None;
            },
        };
        let clock = Clock::with_frame_count(frame_count);
        let free = FreeFrames::with_all(frame_count);
        let frame_pages: FramePages = FramePages::new(frame_count, files);
        let miss = MissTable::new(frame_count, reads);
        let interests = MissInterests::with_capacity(frame_count);
        let mut writes: Vec<Option<InFlightFrame>> = Vec::new();
        let mut i: u32 = 0;
        while i < frame_count
            invariant
                i <= frame_count,
                writes@.len() == i,
                forall|k: int| 0 <= k < i ==> (#[trigger] writes@[k]) is None,
            decreases frame_count - i,
        {
            writes.push(None);
            i = i + 1;
        }
        let prefetch = Prefetch::with_geometry(credits, readers, reads, mode, frame_count, granule);
        let cache = Cache {
            residency,
            clock,
            free,
            frame_pages,
            miss,
            interests,
            writes,
            prefetch,
            reads_in_flight: 0,
            wear: 0,
        };
        proof {
            let frames = cache.residency.frames;
            assert forall|f: ReadFrameIdx| frames.has(f) implies cache.free@.contains(f) by {
                assert(cache.free@[frame_count - 1 - f.0] == f);
            }
            assert forall|f: ReadFrameIdx| #[trigger] cache.free@.contains(f) implies frames.has(
                f,
            ) && frames.residency(f) is Free && !cache.prefetch.reserved().contains(f) by {
                let k = choose|k: int| 0 <= k < cache.free@.len() && cache.free@[k] == f;
                assert(frames.has(f));
            }
            assert forall|f: ReadFrameIdx| !(#[trigger] cache.residency.protected(f)) by {
                if cache.residency.has(f) {
                    assert(!cache.residency.protected(f));
                }
            }
            assert(forall|k: int| !(#[trigger] cache.miss.is_pending(k)));
            assert forall|f: ReadFrameIdx|
                frames.has(f) implies filed_at(frames, f, #[trigger] cache.frame_pages.at(
                f.0 as int,
            )) by {
                assert(frames.residency(f) is Free);
            }
            assert forall|f: ReadFrameIdx|
                frames.has(f) implies write_at(frames, f, #[trigger] cache.writes@[f.0 as int]) by {
                assert(frames.residency(f) is Free);
            }
            cache.residency.lemma_facts();
        }
        Some(cache)
    }

    /// Everything but the residency and the clock.
    pub open spec fn same_flow(self, other: Cache) -> bool {
        &&& self.free == other.free
        &&& self.frame_pages == other.frame_pages
        &&& self.miss == other.miss
        &&& self.interests == other.interests
        &&& self.writes == other.writes
        &&& self.prefetch == other.prefetch
        &&& self.reads_in_flight == other.reads_in_flight
        &&& self.wear == other.wear
    }

    /// Readers come and go, and a touch marks its frame.
    proof fn lemma_read_step(self, before: Cache)
        requires
            before.wf(),
            self.same_flow(before),
            self.residency.wf(),
            self.residency.frames == before.residency.frames,
            self.residency.table@ == before.residency.table@,
            self.residency.retention == before.residency.retention,
            self.residency.epoch == before.residency.epoch,
            self.residency.readers@.len() == before.residency.readers@.len(),
            self.clock.wf(),
            self.clock == before.clock || exists|frame: ReadFrameIdx, reader: Option<u32>|
                before.residency.has(frame) && #[trigger] self.clock.touched(
                    before.clock,
                    frame,
                    reader,
                ),
        ensures
            self.wf(),
            self.same_shape(before),
    {
        if self.clock != before.clock {
            let (frame, reader) = choose|frame: ReadFrameIdx, reader: Option<u32>|
                before.residency.has(frame) && #[trigger] self.clock.touched(
                    before.clock,
                    frame,
                    reader,
                );
            assert forall|f: ReadFrameIdx| f.0 < self.prefetch.frames() implies (
            #[trigger] self.prefetch.entry_of(f) is Some <==> !(self.clock.speculation(
                f,
            ) is Absent)) by {
                assert(before.prefetch.entry_of(f) is Some <==> !(before.clock.speculation(
                    f,
                ) is Absent));
                assert(self.clock.has(f));
            }
            assert forall|f: ReadFrameIdx|
                f.0 < self.prefetch.frames() && #[trigger] self.clock.speculation(
                    f,
                ) is Consumed implies self.clock.consumed_frames().contains(f) by {
                assert(self.clock.has(f));
                assert(before.clock.speculation(f) is Consumed
                    ==> before.clock.consumed_frames().contains(f));
            }
        }
    }

    /// The pin of a mapped page, which marks its frame as used by `reader`.
    pub open spec fn hit(self, other: Cache, reader: int, frame: ReadFrameIdx) -> bool {
        &&& self.same_flow(other)
        &&& self.residency.repinned(other.residency, reader, frame)
        &&& self.clock.touched(other.clock, frame, Some(reader as u32))
    }

    /// Pins the frame `page` is mapped to and marks it used.
    pub fn pin(&mut self, reader: u32, page: PageId) -> (frame: Option<ReadFrameIdx>)
        requires
            old(self).wf(),
            reader < old(self).residency.readers@.len(),
            old(self).residency.readers@[reader as int].occupied,
            old(self).residency.readers@[reader as int].guard_count < u64::MAX,
        ensures
            final(self).wf(),
            final(self).same_shape(*old(self)),
            frame is Some <==> old(self).mapped(page),
            match frame {
                Some(f) => {
                    &&& f == old(self).residency.table@[page]
                    &&& old(self).residency.has(f)
                    &&& old(self).residency.frames.residency(f) is Resident
                    &&& old(self).residency.frames.page(f) == Some(page)
                    &&& final(self).hit(*old(self), reader as int, f)
                },
                None => *final(self) == *old(self),
            },
    {
        let ghost before = *self;
        let frame = self.residency.pin(reader, page);
        if let Some(f) = frame {
            let _stored: bool = self.clock.reference_from(f, Some(reader));
        }
        proof {
            self.lemma_read_step(before);
        }
        frame
    }

    /// Pins a frame through an advisory observation that still holds, and
    /// marks it used.
    pub fn pin_with_resident_hint(
        &mut self,
        reader: u32,
        page: PageId,
        hint: crate::pool::ResidentHint,
    ) -> (frame: Option<ReadFrameIdx>)
        requires
            old(self).wf(),
            reader < old(self).residency.readers@.len(),
            old(self).residency.readers@[reader as int].occupied,
            old(self).residency.readers@[reader as int].guard_count < u64::MAX,
        ensures
            final(self).wf(),
            final(self).same_shape(*old(self)),
            frame is Some <==> old(self).residency.hint_holds(page, hint),
            match frame {
                Some(f) => f.0 == hint.frame && final(self).hit(*old(self), reader as int, f),
                None => *final(self) == *old(self),
            },
    {
        let ghost before = *self;
        let frame = self.residency.pin_with_resident_hint(reader, page, hint);
        if let Some(f) = frame {
            let _stored: bool = self.clock.reference_from(f, Some(reader));
        }
        proof {
            self.lemma_read_step(before);
        }
        frame
    }

    /// A hint that holds names the frame its page is mapped to.
    pub proof fn lemma_hint(self, page: PageId, hint: crate::pool::ResidentHint)
        requires
            self.wf(),
            self.residency.hint_holds(page, hint),
        ensures
            self.mapped(page),
            self.residency.table@[page] == ReadFrameIdx(hint.frame),
    {
        assert(self.residency.frames.residency(ReadFrameIdx(hint.frame)) is Resident);
    }

    /// Drops one guard.
    pub fn unpin(&mut self, reader: u32, frame: ReadFrameIdx)
        requires
            old(self).wf(),
            old(self).residency.pinned(reader as int, frame),
        ensures
            final(self).wf(),
            final(self).same_shape(*old(self)),
            final(self).same_flow(*old(self)),
            final(self).clock == old(self).clock,
            final(self).residency.unpinned(old(self).residency, reader as int, frame),
    {
        let ghost before = *self;
        self.residency.unpin(reader, frame);
        proof {
            self.lemma_read_step(before);
        }
    }

    /// Registers a reader in the lowest vacant slot.
    pub fn register(&mut self) -> (reader: Option<crate::pool::epoch::ReaderCtx>)
        requires
            old(self).wf(),
        ensures
            final(self).wf(),
            final(self).same_shape(*old(self)),
            final(self).same_flow(*old(self)),
            final(self).clock == old(self).clock,
            final(self).residency.same_but_readers(old(self).residency),
            final(self).residency.pins@ == old(self).residency.pins@,
            match reader {
                Some(ctx) => {
                    &&& ctx.pool() == old(self).residency.frames.arena()
                    &&& ctx.index() < old(self).residency.readers@.len()
                    &&& !old(self).residency.readers@[ctx.index() as int].occupied
                    &&& forall|i: int|
                        0 <= i < ctx.index() ==> (#[trigger] old(self).residency.readers@[i]).occupied
                    &&& final(self).residency.readers@ == old(self).residency.readers@.update(
                        ctx.index() as int,
                        crate::pool::epoch::ReaderSlot {
                            occupied: true,
                            ..old(self).residency.readers@[ctx.index() as int]
                        },
                    )
                },
                None => {
                    &&& *final(self) == *old(self)
                    &&& forall|i: int|
                        0 <= i < old(self).residency.readers@.len() ==> (#[trigger] old(self).residency.readers@[i]).occupied
                },
            },
    {
        let ghost before = *self;
        let reader = self.residency.register();
        proof {
            self.lemma_read_step(before);
        }
        reader
    }

    /// Gives a reader's slot back; its guards are gone.
    pub fn vacate(&mut self, reader: u32)
        requires
            old(self).wf(),
            reader < old(self).residency.readers@.len(),
            old(self).residency.readers@[reader as int].occupied,
            old(self).residency.pins@[reader as int].len() == 0,
        ensures
            final(self).wf(),
            final(self).same_shape(*old(self)),
            final(self).same_flow(*old(self)),
            final(self).clock == old(self).clock,
            final(self).residency.same_but_readers(old(self).residency),
            final(self).residency.pins@ == old(self).residency.pins@,
            final(self).residency.readers@ == old(self).residency.readers@.update(
                reader as int,
                crate::pool::epoch::ReaderSlot {
                    occupied: false,
                    local_epoch: crate::pool::epoch::QUIESCENT,
                    guard_count: 0,
                },
            ),
    {
        let ghost before = *self;
        self.residency.vacate(reader);
        proof {
            self.lemma_read_step(before);
        }
    }

    /// Bookkeeping of retained handles keeps the cache in order.
    proof fn lemma_retention_step(self, before: Cache)
        requires
            before.wf(),
            self.clock == before.clock,
            self.free == before.free,
            self.frame_pages == before.frame_pages,
            self.miss == before.miss,
            self.interests == before.interests,
            self.writes == before.writes,
            self.prefetch == before.prefetch,
            self.reads_in_flight == before.reads_in_flight,
            self.residency.wf(),
            self.residency.same_but_retention(before.residency),
            before.wear <= self.wear <= WEAR_MAX,
            self.residency.retention.tickets() <= self.wear,
        ensures
            self.wf(),
    {
        assert forall|f: ReadFrameIdx|
            self.residency.has(f) implies #[trigger] self.residency.frames.generation(f)
            <= self.wear by {
            assert(before.residency.frames.generation(f) <= before.wear);
        }
    }

    /// Retains the frame of a guard; the guard itself is the caller's to drop.
    pub fn promote(&mut self, reader: u32, frame: ReadFrameIdx, file_slot: u32) -> (outcome: Result<
        (),
        crate::pool::retention::RetainRefusedReason,
    >)
        requires
            old(self).wf(),
            old(self).residency.pinned(reader as int, frame),
            old(self).residency.retention.enabled() ==> file_slot < old(self).residency.retention.file_slots(),
        ensures
            final(self).wf(),
            final(self).same_shape(*old(self)),
            final(self).same_flow(*old(self)),
            final(self).clock == old(self).clock,
            final(self).residency.keeps(old(self).residency),
            final(self).residency.same_but_retention(old(self).residency),
            outcome is Ok <==> old(self).residency.retention.admits(frame) && !old(self).residency.retention.is_retiring(file_slot as int),
            outcome is Ok ==> final(self).residency.retention.retained(
                old(self).residency.retention,
                frame,
            ),
            outcome matches Err(reason) ==> {
                &&& reason == (if old(self).residency.retention.admits(frame) {
                    crate::pool::retention::RetainRefusedReason::FileRetiring
                } else {
                    crate::pool::retention::RetainRefusedReason::Exhausted
                })
                &&& final(self).residency.retention.refused(old(self).residency.retention, frame)
            },
    {
        let ghost before = *self;
        let outcome = self.residency.promote(reader, frame, file_slot);
        proof {
            self.lemma_retention_step(before);
        }
        outcome
    }

    /// Drops one retained handle.
    pub fn release(&mut self, frame: ReadFrameIdx, wait: &mut WaitState)
        requires
            old(self).wf(),
            old(self).residency.retention.enabled(),
            old(self).residency.has(frame),
            old(self).residency.retention.handles(frame) > 0,
            old(self).wear < WEAR_MAX,
        ensures
            final(self).wf(),
            final(self).same_shape(*old(self)),
            final(self).wear == old(self).wear + 1,
            final(self).clock == old(self).clock,
            final(self).free == old(self).free,
            final(self).frame_pages == old(self).frame_pages,
            final(self).miss == old(self).miss,
            final(self).interests == old(self).interests,
            final(self).writes == old(self).writes,
            final(self).prefetch == old(self).prefetch,
            final(self).reads_in_flight == old(self).reads_in_flight,
            final(self).residency.keeps(old(self).residency),
            final(self).residency.same_but_retention(old(self).residency),
            final(self).residency.retention.released(old(self).residency.retention, frame),
            *final(wait) == old(self).residency.retention.notified(frame, *old(wait)),
    {
        let ghost before = *self;
        proof {
            before.lemma_facts();
        }
        self.residency.release(frame, wait);
        self.wear = self.wear + 1;
        proof {
            self.lemma_retention_step(before);
        }
    }

    pub fn mark_file_retiring(&mut self, file_slot: u32)
        requires
            old(self).wf(),
            old(self).residency.retention.enabled() ==> file_slot < old(self).residency.retention.file_slots(),
        ensures
            final(self).wf(),
            final(self).same_shape(*old(self)),
            final(self).same_flow(*old(self)),
            final(self).clock == old(self).clock,
            final(self).residency.keeps(old(self).residency),
            final(self).residency.same_but_retention(old(self).residency),
            final(self).residency.retention.same_frames(old(self).residency.retention),
            final(self).residency.retention.stats() == old(self).residency.retention.stats(),
            forall|s: int|
                0 <= s < old(self).residency.retention.file_slots() ==> #[trigger] final(self).residency.retention.is_retiring(s) == (old(self).residency.retention.is_retiring(s) || s == file_slot),
    {
        let ghost before = *self;
        self.residency.mark_file_retiring(file_slot);
        proof {
            self.lemma_retention_step(before);
        }
    }

    pub fn clear_file_retiring(&mut self, file_slot: u32)
        requires
            old(self).wf(),
            old(self).residency.retention.enabled() ==> file_slot < old(self).residency.retention.file_slots(),
        ensures
            final(self).wf(),
            final(self).same_shape(*old(self)),
            final(self).same_flow(*old(self)),
            final(self).clock == old(self).clock,
            final(self).residency.keeps(old(self).residency),
            final(self).residency.same_but_retention(old(self).residency),
            final(self).residency.retention.same_frames(old(self).residency.retention),
            final(self).residency.retention.stats() == old(self).residency.retention.stats(),
            forall|s: int|
                0 <= s < old(self).residency.retention.file_slots() ==> #[trigger] final(self).residency.retention.is_retiring(s) == (old(self).residency.retention.is_retiring(s) && s != file_slot),
    {
        let ghost before = *self;
        self.residency.clear_file_retiring(file_slot);
        proof {
            self.lemma_retention_step(before);
        }
    }

    /// `self` is `other` with a read of `page` into `frame` begun in miss slot
    /// `slot`, as far as residency and misses go.
    pub open spec fn begun(
        self,
        other: Cache,
        slot: MissSlot,
        page: PageId,
        frame: ReadFrameIdx,
        token: OpToken,
        waiters: u32,
    ) -> bool {
        let generation = (other.interests@[slot.0 as int].generation + 1) as u64;
        &&& self.residency.same_but_frames(other.residency)
        &&& self.residency.frames.same_except(other.residency.frames, frame)
        &&& other.residency.has(frame)
        &&& other.residency.frames.residency(frame) is Free
        &&& self.residency.frames.residency(frame) is InFlight
        &&& self.residency.frames.page(frame) == Some(page)
        &&& self.residency.frames.generation(frame) == other.residency.frames.generation(frame)
        &&& self.residency.frames.contents(frame) == other.residency.frames.contents(frame)
        &&& self.writes@ == other.writes@.update(frame.0 as int, self.writes@[frame.0 as int])
        &&& self.miss.admitted(other.miss, slot, page, frame, token, generation)
        &&& self.interests@ == other.interests@.update(
            slot.0 as int,
            MissInterest { generation, waiters },
        )
        &&& self.reads_in_flight == other.reads_in_flight + 1
        &&& self.frame_pages == other.frame_pages
    }

    proof fn lemma_begun(
        self,
        before: Cache,
        slot: MissSlot,
        page: PageId,
        frame: ReadFrameIdx,
        token: OpToken,
        waiters: u32,
    )
        requires
            before.wf(),
            self.begun(before, slot, page, frame, token, waiters),
            slot.0 < before.miss.capacity(),
            before.miss.reusable(before.interests, slot.0 as int),
            !before.mapped(page),
            page.file.slot < before.frame_pages.file_capacity(),
            before.reads_in_flight < before.read_limit(),
            self.residency.wf(),
            self.miss.wf(),
            self.miss.linked(self.interests),
            self.writes@[frame.0 as int] is Some,
            self.residency.frames.owns(self.writes@[frame.0 as int]->0),
            self.writes@[frame.0 as int]->0.target() == frame,
            self.clock.wf(),
            self.clock.frame_count() == before.clock.frame_count(),
            self.prefetch.wf(),
            self.prefetch.linked(self.clock),
            self.prefetch.frames() == before.prefetch.frames(),
            forall|f: ReadFrameIdx|
                f.0 < self.prefetch.frames() && f != frame ==> #[trigger] self.prefetch.entry_of(f)
                    == before.prefetch.entry_of(f),
            self.prefetch.entry_of(frame) matches Some(entry) ==> entry.page == page,
            self.free.wf(),
            self.free.room() == before.free.room(),
            spare_ok(self.residency.frames, self.free@, self.prefetch.reserved()),
            before.wear < self.wear <= WEAR_MAX,
            self.prefetch.strain() <= self.wear,
        ensures
            self.wf(),
    {
        let frames = self.residency.frames;
        let old_frames = before.residency.frames;
        before.lemma_facts();
        assert forall|f: ReadFrameIdx| frames.has(f) && f != frame implies #[trigger] frames.residency(
            f,
        ) == old_frames.residency(f) && frames.generation(f) == old_frames.generation(f) by {
            assert(frames.word(f) == old_frames.word(f));
        }
        assert(!before.miss.is_pending(slot.0 as int));
        assert forall|i: int| #[trigger] self.miss.is_pending(i) <==> before.miss.is_pending(i) || i
            == slot.0 by {
            if 0 <= i < self.miss.capacity() && i != slot.0 {
                assert(self.miss.entry_at(i) == before.miss.entry_at(i));
            }
        }
        assert forall|i: int| #[trigger] self.miss.is_pending(i) implies flight_at(
            frames,
            self.miss.entry_at(i)->0,
        ) by {
            if i != slot.0 {
                assert(before.miss.is_pending(i));
                let entry = before.miss.entry_at(i)->0;
                assert(self.miss.entry_at(i) == before.miss.entry_at(i));
                assert(old_frames.residency(entry.frame) is InFlight);
                assert(entry.frame != frame);
                assert(frames.residency(entry.frame) == old_frames.residency(entry.frame));
                assert(frames.page(entry.frame) == old_frames.page(entry.frame));
            } else {
                self.residency.lemma_facts();
                frames.lemma_positive();
            }
        }
        assert forall|i: int, j: int| #[trigger]
            self.miss.is_pending(i) && #[trigger] self.miss.is_pending(j) && self.miss.entry_at(
                i,
            )->0.frame == self.miss.entry_at(j)->0.frame implies i == j by {
            if i != slot.0 {
                assert(self.miss.entry_at(i) == before.miss.entry_at(i));
                assert(before.miss.is_pending(i));
                assert(old_frames.residency(before.miss.entry_at(i)->0.frame) is InFlight);
            }
            if j != slot.0 {
                assert(self.miss.entry_at(j) == before.miss.entry_at(j));
                assert(before.miss.is_pending(j));
                assert(old_frames.residency(before.miss.entry_at(j)->0.frame) is InFlight);
            }
        }
        assert forall|f: ReadFrameIdx|
            frames.has(f) && #[trigger] frames.residency(f) is InFlight implies flown(
            self.miss,
            f,
        ) by {
            if f == frame {
                assert(self.miss.is_pending(slot.0 as int));
            } else {
                assert(flown(before.miss, f));
                let i = choose|i: int| #[trigger]
                    before.miss.is_pending(i) && before.miss.entry_at(i)->0.frame == f;
                assert(self.miss.is_pending(i));
                assert(self.miss.entry_at(i) == before.miss.entry_at(i));
            }
        }
        assert forall|f: ReadFrameIdx| frames.has(f) implies write_at(
            frames,
            f,
            #[trigger] self.writes@[f.0 as int],
        ) by {
            if f != frame {
                assert(write_at(old_frames, f, before.writes@[f.0 as int]));
                assert(frames.residency(f) == old_frames.residency(f));
            }
        }
        assert forall|f: ReadFrameIdx|
            frames.has(f) && #[trigger] frames.residency(f) is Resident implies before.mapped(
            frames.page(f)->0,
        ) && before.residency.table@[frames.page(f)->0] == f by {
            assert(old_frames.residency(f) is Resident);
            assert(frames.page(f) == old_frames.page(f));
        }
        assert forall|i: int| #[trigger]
            self.miss.is_pending(i) implies !self.residency.table@.contains_key(
            self.miss.entry_at(i)->0.page,
        ) by {
            if i != slot.0 {
                assert(before.miss.is_pending(i));
                assert(self.miss.entry_at(i) == before.miss.entry_at(i));
            }
        }
        assert forall|f: ReadFrameIdx|
            f.0 < self.miss.capacity() && #[trigger] self.miss.protection(f) is Some implies ({
            let page = self.miss.entry_at(self.miss.protection(f)->0.slot.0 as int)->0.page;
            self.residency.table@.contains_key(page) && self.residency.table@[page] == f
        }) by {
            assert(before.miss.protection(f) is Some);
            before.miss.lemma_protection(f);
            let at = before.miss.protection(f)->0.slot.0 as int;
            assert(self.miss.entry_at(at) == before.miss.entry_at(at));
        }
        assert forall|f: ReadFrameIdx| frames.has(f) implies filed_at(
            frames,
            f,
            #[trigger] self.frame_pages.at(f.0 as int),
        ) by {
            assert(filed_at(old_frames, f, before.frame_pages.at(f.0 as int)));
            if f != frame {
                assert(frames.residency(f) == old_frames.residency(f));
                assert(frames.page(f) == old_frames.page(f));
            }
        }
        assert forall|i: int| #[trigger] self.miss.is_pending(i) implies self.miss.entry_at(
            i,
        )->0.page.file.slot < self.frame_pages.file_capacity() by {
            if i != slot.0 {
                assert(before.miss.is_pending(i));
                assert(self.miss.entry_at(i) == before.miss.entry_at(i));
            }
        }
        assert forall|f: ReadFrameIdx|
            frames.has(f) && #[trigger] self.prefetch.entry_of(f) is Some implies (
        frames.residency(f) is InFlight || frames.residency(f) is Resident) && frames.page(f)
            == Some(self.prefetch.entry_of(f)->0.page) by {
            if f != frame {
                assert(before.prefetch.entry_of(f) is Some);
                assert(frames.residency(f) == old_frames.residency(f));
                assert(frames.page(f) == old_frames.page(f));
            }
        }
        assert forall|f: ReadFrameIdx|
            self.residency.has(f) implies #[trigger] self.residency.frames.generation(f)
            <= self.wear by {
            assert(old_frames.generation(f) <= before.wear);
        }
        assert forall|i: int| 0 <= i < self.interests@.len() implies (
        #[trigger] self.interests@[i]).generation <= self.wear by {
            assert(before.interests@[i].generation <= before.wear);
        }
    }

    /// Claims the free frame on top of the stack for a read of `page` the
    /// driver has accepted under `token`.
    pub fn begin_read(&mut self, slot: MissSlot, page: PageId, token: OpToken) -> (generation: u64)
        requires
            old(self).wf(),
            old(self).free@.len() > 0,
            slot.0 < old(self).miss.capacity(),
            old(self).miss.reusable(old(self).interests, slot.0 as int),
            !old(self).mapped(page),
            !old(self).pending(page),
            page.file.slot < old(self).frame_pages.file_capacity(),
            old(self).reads_in_flight < old(self).read_limit(),
            old(self).wear < WEAR_MAX,
        ensures
            final(self).wf(),
            final(self).same_shape(*old(self)),
            final(self).residency.keeps(old(self).residency),
            final(self).wear == old(self).wear + 1,
            generation == old(self).interests@[slot.0 as int].generation + 1,
            final(self).begun(*old(self), slot, page, old(self).free@.last(), token, 1),
            final(self).free@ == old(self).free@.drop_last(),
            final(self).clock == old(self).clock,
            final(self).prefetch == old(self).prefetch,
    {
        let ghost before = *self;
        proof {
            before.lemma_facts();
            assert(before.free@.contains(before.free@.last()));
        }
        let frame: ReadFrameIdx = self.free.pop().unwrap();
        let write: Option<InFlightFrame> = self.residency.claim(frame, page);
        let ghost claimed = *self;
        self.writes.set(frame.get() as usize, write);
        proof {
            assert forall|i: int| #[trigger] before.miss.is_pending(i) implies before.miss.entry_at(
                i,
            )->0.page != page by {
                if before.miss.entry_at(i)->0.page == page {
                    assert(before.pending(page));
                }
            }
        }
        let generation: u64 = self.miss.install(slot, page, frame, token, &mut self.interests);
        self.reads_in_flight = self.reads_in_flight + 1;
        self.wear = self.wear + 1;
        proof {
            lemma_spare_popped(
                before.residency.frames,
                self.residency.frames,
                before.free@,
                before.prefetch.reserved(),
                frame,
            );
            assert(before.prefetch.entry_of(frame) is None);
            self.lemma_begun(before, slot, page, frame, token, 1);
        }
        generation
    }

    /// Claims the reserved frame on top of the stack for a speculative read of
    /// `page` the driver has accepted under `token`.
    pub fn begin_speculation(
        &mut self,
        slot: MissSlot,
        page: PageId,
        token: OpToken,
        source: Source,
    ) -> (generation: u64)
        requires
            old(self).wf(),
            old(self).prefetch.reserved().len() > 0,
            old(self).prefetch.queued_feedback().len() == 0,
            old(self).prefetch.stats().occupied < old(self).prefetch.credits(),
            source is Explicit || current(source, old(self).prefetch.patterns()),
            traceable(source, page, old(self).prefetch.patterns()),
            slot.0 < old(self).miss.capacity(),
            old(self).miss.reusable(old(self).interests, slot.0 as int),
            !old(self).mapped(page),
            !old(self).pending(page),
            page.file.slot < old(self).frame_pages.file_capacity(),
            old(self).reads_in_flight < old(self).read_limit(),
            old(self).wear + 2 <= WEAR_MAX,
        ensures
            final(self).wf(),
            final(self).same_shape(*old(self)),
            final(self).residency.keeps(old(self).residency),
            final(self).wear == old(self).wear + 2,
            generation == old(self).interests@[slot.0 as int].generation + 1,
            final(self).begun(*old(self), slot, page, old(self).prefetch.reserved().last(), token, 0),
            final(self).free == old(self).free,
            final(self).clock.marked(old(self).clock, old(self).prefetch.reserved().last()),
            final(self).prefetch.drawn(old(self).prefetch, page, source),
            final(self).prefetch.reserved() == old(self).prefetch.reserved().drop_last(),
            final(self).prefetch.patterns() == old(self).prefetch.patterns(),
            final(self).prefetch.queued_feedback().len() == 0,
            final(self).prefetch.is_active() == old(self).prefetch.is_active(),
            final(self).prefetch.stats() == (crate::pool::prefetch::PrefetchStats {
                admitted: (old(self).prefetch.stats().admitted + 1) as u64,
                automatic_admitted: (old(self).prefetch.stats().automatic_admitted + (
                if source is Automatic {
                    1int
                } else {
                    0
                })) as u64,
                occupied: (old(self).prefetch.stats().occupied + 1) as u32,
                ..old(self).prefetch.stats()
            }),
            forall|f: ReadFrameIdx|
                f.0 < old(self).frame_count() && f != old(self).prefetch.reserved().last()
                    ==> #[trigger] final(self).prefetch.entry_of(f) == old(self).prefetch.entry_of(f),
    {
        let ghost before = *self;
        proof {
            before.lemma_facts();
            assert(before.prefetch.reserved().contains(before.prefetch.reserved().last()));
        }
        let frame: ReadFrameIdx = self.prefetch.pop_reserve().unwrap();
        let ghost popped = *self;
        let write: Option<InFlightFrame> = self.residency.claim(frame, page);
        self.writes.set(frame.get() as usize, write);
        proof {
            assert forall|i: int| #[trigger] before.miss.is_pending(i) implies before.miss.entry_at(
                i,
            )->0.page != page by {
                if before.miss.entry_at(i)->0.page == page {
                    assert(before.pending(page));
                }
            }
            assert(before.prefetch.entry_of(frame) is None);
            assert forall|f: ReadFrameIdx| f.0 < popped.prefetch.frames() implies (
            #[trigger] popped.prefetch.entry_of(f) is Some <==> !(before.clock.speculation(
                f,
            ) is Absent)) by {
                assert(popped.prefetch.entry_of(f) == before.prefetch.entry_of(f));
            }
            assert(popped.prefetch.entry_of(frame) == before.prefetch.entry_of(frame));
            before.prefetch.lemma_books();
        }
        let generation: u64 = self.miss.install_speculative(
            slot,
            page,
            frame,
            token,
            &mut self.interests,
        );
        self.prefetch.enroll(&mut self.clock, page, frame, source);
        self.reads_in_flight = self.reads_in_flight + 1;
        self.wear = self.wear + 2;
        proof {
            lemma_spare_unreserved(
                before.residency.frames,
                self.residency.frames,
                before.free@,
                before.prefetch.reserved(),
                frame,
            );
            assert forall|f: ReadFrameIdx|
                f.0 < self.prefetch.frames() && f != frame implies #[trigger] self.prefetch.entry_of(
                f,
            ) == before.prefetch.entry_of(f) by {
                assert(popped.prefetch.entry_of(f) == before.prefetch.entry_of(f));
            }
            self.lemma_begun(before, slot, page, frame, token, 0);
            assert(self.prefetch.enrolled(popped.prefetch, page, frame, source));
        }
        generation
    }
}

/// Taking the last free frame in flight leaves the rest free.
proof fn lemma_spare_popped(
    before: Frames,
    after: Frames,
    free: Seq<ReadFrameIdx>,
    reserved: Seq<ReadFrameIdx>,
    frame: ReadFrameIdx,
)
    requires
        spare_ok(before, free, reserved),
        free.len() > 0,
        frame == free.last(),
        after.same_except(before, frame),
        !(after.residency(frame) is Free),
    ensures
        spare_ok(after, free.drop_last(), reserved),
{
    let rest = free.drop_last();
    assert(free.contains(frame)) by {
        assert(free[free.len() - 1] == frame);
    }
    assert forall|f: ReadFrameIdx| #[trigger] rest.contains(f) <==> free.contains(f) && f != frame by {
        if rest.contains(f) {
            let k = choose|k: int| 0 <= k < rest.len() && rest[k] == f;
            assert(free[k] == f);
            assert(free[k] != free[free.len() - 1]);
        }
        if free.contains(f) && f != frame {
            let k = choose|k: int| 0 <= k < free.len() && free[k] == f;
            assert(rest[k] == f);
        }
    }
    assert forall|f: ReadFrameIdx| after.has(f) && f != frame implies #[trigger] after.residency(f)
        == before.residency(f) by {
        assert(after.word(f) == before.word(f));
    }
    assert(rest.no_duplicates());
}

/// A frame that is not free leaves room for itself among the free ones.
proof fn lemma_room_to_free(frames: Frames, free: FreeFrames, frame: ReadFrameIdx)
    requires
        free@.no_duplicates(),
        forall|f: ReadFrameIdx| #[trigger]
            free@.contains(f) ==> frames.has(f) && frames.residency(f) is Free,
        frames.has(frame),
        !(frames.residency(frame) is Free),
        free.room() == frames.frame_count(),
    ensures
        free@.len() < free.room(),
{
    let list = Seq::new(free@.len(), |k: int| free@[k].0).push(frame.0);
    assert forall|a: int, b: int|
        0 <= a < list.len() && 0 <= b < list.len() && a != b implies list[a] != list[b] by {
        if a < free@.len() {
            assert(free@.contains(free@[a]));
        }
        if b < free@.len() {
            assert(free@.contains(free@[b]));
        }
        if a < free@.len() && b < free@.len() {
            assert(free@[a] != free@[b]);
        }
    }
    assert forall|k: int| 0 <= k < list.len() implies #[trigger] list[k] < frames.frame_count() by {
        if k < free@.len() {
            assert(free@.contains(free@[k]));
        }
    }
    lemma_distinct_below(list, frames.frame_count() as int);
}

/// A frame that became free and was pushed keeps the account of free frames.
proof fn lemma_spare_pushed(
    before: Frames,
    after: Frames,
    free: Seq<ReadFrameIdx>,
    reserved: Seq<ReadFrameIdx>,
    frame: ReadFrameIdx,
)
    requires
        spare_ok(before, free, reserved),
        before.has(frame),
        !(before.residency(frame) is Free),
        after.same_except(before, frame),
        after.residency(frame) is Free,
    ensures
        spare_ok(after, free.push(frame), reserved),
{
    let more = free.push(frame);
    assert(!free.contains(frame) && !reserved.contains(frame));
    assert forall|f: ReadFrameIdx| #[trigger] more.contains(f) <==> free.contains(f) || f == frame by {
        if free.contains(f) {
            let k = choose|k: int| 0 <= k < free.len() && free[k] == f;
            assert(more[k] == f);
        }
        assert(more[free.len() as int] == frame);
        if more.contains(f) && f != frame {
            let k = choose|k: int| 0 <= k < more.len() && more[k] == f;
            assert(free[k] == f);
        }
    }
    assert forall|a: int, b: int|
        0 <= a < more.len() && 0 <= b < more.len() && a != b implies more[a] != more[b] by {
        if a < free.len() {
            assert(free.contains(free[a]));
        }
        if b < free.len() {
            assert(free.contains(free[b]));
        }
    }
    assert forall|f: ReadFrameIdx| after.has(f) && f != frame implies #[trigger] after.residency(f)
        == before.residency(f) by {
        assert(after.word(f) == before.word(f));
    }
}

/// Frames that were evicting and became free keep the account of free frames
/// once they are all handed back.
proof fn lemma_spare_returned(
    before: Frames,
    after: Frames,
    free: Seq<ReadFrameIdx>,
    reserved: Seq<ReadFrameIdx>,
    freed: Seq<ReadFrameIdx>,
)
    requires
        spare_ok(before, free, reserved),
        after.same_shape(before),
        freed.no_duplicates(),
        forall|f: ReadFrameIdx| #[trigger]
            freed.contains(f) ==> before.has(f) && before.residency(f) is Evicting,
        forall|f: ReadFrameIdx|
            before.has(f) ==> #[trigger] after.residency(f) == (if freed.contains(f) {
                FrameState::Free
            } else {
                before.residency(f)
            }),
    ensures
        spare_ok(after, free + freed, reserved),
{
    let more = free + freed;
    assert forall|f: ReadFrameIdx| #[trigger]
        more.contains(f) <==> free.contains(f) || freed.contains(f) by {
        if free.contains(f) {
            let k = choose|k: int| 0 <= k < free.len() && free[k] == f;
            assert(more[k] == f);
        }
        if freed.contains(f) {
            let k = choose|k: int| 0 <= k < freed.len() && freed[k] == f;
            assert(more[free.len() + k] == f);
        }
        if more.contains(f) {
            let k = choose|k: int| 0 <= k < more.len() && more[k] == f;
            if k < free.len() {
                assert(free[k] == f);
            } else {
                assert(freed[k - free.len()] == f);
            }
        }
    }
    assert forall|a: int, b: int|
        0 <= a < more.len() && 0 <= b < more.len() && a != b implies more[a] != more[b] by {
        if a < free.len() {
            assert(free.contains(free[a]));
        } else {
            assert(freed.contains(freed[a - free.len()]));
        }
        if b < free.len() {
            assert(free.contains(free[b]));
        } else {
            assert(freed.contains(freed[b - free.len()]));
        }
    }
}

/// Evicting frames are none of the free ones.
proof fn lemma_distinct_with_free(
    frames: Frames,
    free: Seq<ReadFrameIdx>,
    reserved: Seq<ReadFrameIdx>,
    freed: Seq<ReadFrameIdx>,
)
    requires
        spare_ok(frames, free, reserved),
        freed.no_duplicates(),
        forall|k: int|
            0 <= k < freed.len() ==> frames.has(#[trigger] freed[k]) && frames.residency(
                freed[k],
            ) is Evicting,
    ensures
        (free + freed).no_duplicates(),
        forall|k: int|
            0 <= k < (free + freed).len() ==> (#[trigger] (free + freed)[k]).0
                < frames.frame_count(),
{
    let more = free + freed;
    assert forall|a: int, b: int|
        0 <= a < more.len() && 0 <= b < more.len() && a != b implies more[a] != more[b] by {
        if a < free.len() {
            assert(free.contains(free[a]));
        } else {
            assert(frames.has(freed[a - free.len()]));
        }
        if b < free.len() {
            assert(free.contains(free[b]));
        } else {
            assert(frames.has(freed[b - free.len()]));
        }
    }
    assert forall|k: int| 0 <= k < more.len() implies (#[trigger] more[k]).0
        < frames.frame_count() by {
        if k < free.len() {
            assert(free.contains(free[k]));
        } else {
            assert(frames.has(freed[k - free.len()]));
        }
    }
}

/// There are no more free frames than frames.
proof fn lemma_free_bounded(frames: Frames, free: Seq<ReadFrameIdx>)
    requires
        free.no_duplicates(),
        forall|f: ReadFrameIdx| #[trigger] free.contains(f) ==> frames.has(f),
    ensures
        free.len() <= frames.frame_count(),
{
    let list = Seq::new(free.len(), |k: int| free[k].0);
    assert forall|a: int, b: int|
        0 <= a < list.len() && 0 <= b < list.len() && a != b implies list[a] != list[b] by {
        assert(free[a] != free[b]);
    }
    assert forall|k: int| 0 <= k < list.len() implies #[trigger] list[k] < frames.frame_count() by {
        assert(free.contains(free[k]));
    }
    lemma_distinct_below(list, frames.frame_count() as int);
}

/// The slots of `list` without those of the frames in `freed`.
pub open spec fn left_after(list: Seq<int>, freed: Seq<ReadFrameIdx>) -> Seq<int>
    decreases freed.len(),
{
    if freed.len() == 0 {
        list
    } else {
        let left = left_after(list, freed.drop_last());
        let index = freed.last().0 as int;
        if left.contains(index) {
            left.remove(left.index_of(index))
        } else {
            left
        }
    }
}

/// Leaving out some, then others.
proof fn lemma_left_after_both(list: Seq<int>, first: Seq<ReadFrameIdx>, second: Seq<ReadFrameIdx>)
    ensures
        left_after(left_after(list, first), second) == left_after(list, first + second),
    decreases second.len(),
{
    if second.len() == 0 {
        assert(first + second =~= first);
    } else {
        lemma_left_after_both(list, first, second.drop_last());
        assert((first + second).drop_last() =~= first + second.drop_last());
        assert((first + second).last() == second.last());
    }
}

/// Hands reclaimed frames back: each is pushed free and leaves its file.
fn hand_back(free: &mut FreeFrames, pages: &mut FramePages, freed: &Vec<ReadFrameIdx>)
    requires
        old(free).wf(),
        old(pages).wf(),
        old(pages).capacity() == old(free).room(),
        old(free).room() <= u32::MAX,
        (old(free)@ + freed@).no_duplicates(),
        forall|k: int|
            0 <= k < (old(free)@ + freed@).len() ==> (#[trigger] (old(free)@ + freed@)[k]).0 < old(
                free,
            ).room(),
        forall|k: int|
            0 <= k < freed@.len() ==> old(pages).at((#[trigger] freed@[k]).0 as int) is Some,
    ensures
        final(free).wf(),
        final(free).room() == old(free).room(),
        final(free)@ == old(free)@ + freed@,
        final(pages).wf(),
        final(pages).capacity() == old(pages).capacity(),
        final(pages).file_capacity() == old(pages).file_capacity(),
        forall|f: ReadFrameIdx|
            f.0 < old(pages).capacity() ==> #[trigger] final(pages).at(f.0 as int) == (
            if freed@.contains(f) {
                None
            } else {
                old(pages).at(f.0 as int)
            }),
        forall|o: int|
            0 <= o < old(pages).file_capacity() ==> #[trigger] final(pages).members(o)
                == left_after(old(pages).members(o), freed@),
{
    let ghost room = free.room();
    let ghost all = free@ + freed@;
    let mut i: usize = 0;
    proof {
        assert(free@ + freed@.take(0) =~= free@);
    }
    while i < freed.len()
        invariant
            i <= freed@.len(),
            free.wf(),
            free.room() == old(free).room(),
            room == old(free).room(),
            room <= u32::MAX,
            all == old(free)@ + freed@,
            all.no_duplicates(),
            forall|k: int| 0 <= k < all.len() ==> (#[trigger] all[k]).0 < room,
            free@ == old(free)@ + freed@.take(i as int),
            pages.wf(),
            pages.capacity() == old(pages).capacity(),
            old(pages).capacity() == room,
            pages.file_capacity() == old(pages).file_capacity(),
            forall|k: int|
                0 <= k < freed@.len() ==> old(pages).at((#[trigger] freed@[k]).0 as int) is Some,
            forall|f: ReadFrameIdx|
                f.0 < old(pages).capacity() ==> #[trigger] pages.at(f.0 as int) == (
                if freed@.take(i as int).contains(f) {
                    None
                } else {
                    old(pages).at(f.0 as int)
                }),
            forall|o: int|
                0 <= o < old(pages).file_capacity() ==> #[trigger] pages.members(o) == left_after(
                    old(pages).members(o),
                    freed@.take(i as int),
                ),
        decreases freed@.len() - i,
    {
        let frame: ReadFrameIdx = freed[i];
        let ghost earlier = freed@.take(i as int);
        let ghost shelf = *pages;
        proof {
            assert(all[old(free)@.len() + i] == frame);
            assert(free@.len() < room) by {
                let list = Seq::new(all.len(), |k: int| all[k].0);
                assert forall|a: int, b: int|
                    0 <= a < list.len() && 0 <= b < list.len() && a != b implies list[a]
                    != list[b] by {
                    assert(all[a] != all[b]);
                }
                lemma_distinct_below(list, room as int);
            }
            assert(!earlier.contains(frame)) by {
                if earlier.contains(frame) {
                    let k = choose|k: int| 0 <= k < earlier.len() && earlier[k] == frame;
                    assert(all[old(free)@.len() + k] == all[old(free)@.len() + i]);
                }
            }
            assert(pages.at(frame.0 as int) == old(pages).at(freed@[i as int].0 as int));
        }
        free.push(frame);
        pages.remove(frame.get() as usize);
        i = i + 1;
        proof {
            let now = freed@.take(i as int);
            assert(now =~= earlier.push(frame));
            assert(free@ =~= old(free)@ + now);
            assert(now.drop_last() =~= earlier);
            assert forall|o: int|
                0 <= o < old(pages).file_capacity() implies #[trigger] pages.members(o)
                == left_after(old(pages).members(o), now) by {
                shelf.lemma_members(o);
                assert(shelf.members(o).contains(frame.0 as int) <==> shelf.at(
                    frame.0 as int,
                )->0.owner() == o);
            }
            assert forall|f: ReadFrameIdx| #[trigger]
                now.contains(f) <==> earlier.contains(f) || f == frame by {
                if earlier.contains(f) {
                    let k = choose|k: int| 0 <= k < earlier.len() && earlier[k] == f;
                    assert(now[k] == f);
                }
                if now.contains(f) {
                    let k = choose|k: int| 0 <= k < now.len() && now[k] == f;
                    if k < earlier.len() {
                        assert(earlier[k] == f);
                    }
                }
                assert(now[i - 1] == frame);
            }
        }
    }
    proof {
        assert(freed@.take(i as int) =~= freed@);
    }
}

/// Moving free frames into the reserve keeps the account of free frames.
proof fn lemma_spare_moved(
    frames: Frames,
    free: Seq<ReadFrameIdx>,
    reserved: Seq<ReadFrameIdx>,
    kept: int,
)
    requires
        spare_ok(frames, free, reserved),
        0 <= kept <= free.len(),
    ensures
        spare_ok(frames, free.take(kept), reserved + free.skip(kept).reverse()),
{
    let left = free.take(kept);
    let moved = free.skip(kept).reverse();
    let more = reserved + moved;
    assert forall|k: int| 0 <= k < moved.len() implies #[trigger] moved[k] == free[free.len() - 1
        - k] by {}
    assert forall|f: ReadFrameIdx| #[trigger]
        free.contains(f) <==> left.contains(f) || moved.contains(f) by {
        if free.contains(f) {
            let k = choose|k: int| 0 <= k < free.len() && free[k] == f;
            if k < kept {
                assert(left[k] == f);
            } else {
                assert(moved[free.len() - 1 - k] == f);
            }
        }
        if left.contains(f) {
            let k = choose|k: int| 0 <= k < left.len() && left[k] == f;
            assert(free[k] == f);
        }
        if moved.contains(f) {
            let k = choose|k: int| 0 <= k < moved.len() && moved[k] == f;
            assert(free[free.len() - 1 - k] == f);
        }
    }
    assert forall|f: ReadFrameIdx| #[trigger] left.contains(f) implies !moved.contains(f) by {
        let a = choose|a: int| 0 <= a < left.len() && left[a] == f;
        if moved.contains(f) {
            let b = choose|b: int| 0 <= b < moved.len() && moved[b] == f;
            assert(free[a] != free[free.len() - 1 - b]);
        }
    }
    assert forall|f: ReadFrameIdx| #[trigger]
        more.contains(f) <==> reserved.contains(f) || moved.contains(f) by {
        if reserved.contains(f) {
            let k = choose|k: int| 0 <= k < reserved.len() && reserved[k] == f;
            assert(more[k] == f);
        }
        if moved.contains(f) {
            let k = choose|k: int| 0 <= k < moved.len() && moved[k] == f;
            assert(more[reserved.len() + k] == f);
        }
        if more.contains(f) {
            let k = choose|k: int| 0 <= k < more.len() && more[k] == f;
            if k < reserved.len() {
                assert(reserved[k] == f);
            } else {
                assert(moved[k - reserved.len()] == f);
            }
        }
    }
    assert(left.no_duplicates());
    assert forall|a: int, b: int|
        0 <= a < more.len() && 0 <= b < more.len() && a != b implies more[a] != more[b] by {
        if a < reserved.len() {
            assert(reserved.contains(reserved[a]));
        } else {
            assert(moved.contains(moved[a - reserved.len()]));
        }
        if b < reserved.len() {
            assert(reserved.contains(reserved[b]));
        } else {
            assert(moved.contains(moved[b - reserved.len()]));
        }
        if a >= reserved.len() && b >= reserved.len() {
            assert(free[free.len() - 1 - (a - reserved.len())] != free[free.len() - 1 - (b
                - reserved.len())]);
        }
        if a < reserved.len() && b >= reserved.len() {
            assert(free.contains(moved[b - reserved.len()]));
        }
        if b < reserved.len() && a >= reserved.len() {
            assert(free.contains(moved[a - reserved.len()]));
        }
    }
    assert forall|f: ReadFrameIdx| #[trigger] left.contains(f) implies frames.has(f)
        && frames.residency(f) is Free && !more.contains(f) by {
        assert(free.contains(f));
    }
    assert forall|f: ReadFrameIdx| #[trigger] more.contains(f) implies frames.has(f)
        && frames.residency(f) is Free by {
        if moved.contains(f) {
            assert(free.contains(f));
        }
    }
}

/// Taking the last reserved frame in flight leaves the rest reserved.
proof fn lemma_spare_unreserved(
    before: Frames,
    after: Frames,
    free: Seq<ReadFrameIdx>,
    reserved: Seq<ReadFrameIdx>,
    frame: ReadFrameIdx,
)
    requires
        spare_ok(before, free, reserved),
        reserved.len() > 0,
        frame == reserved.last(),
        after.same_except(before, frame),
        !(after.residency(frame) is Free),
    ensures
        spare_ok(after, free, reserved.drop_last()),
{
    let rest = reserved.drop_last();
    assert(reserved.contains(frame)) by {
        assert(reserved[reserved.len() - 1] == frame);
    }
    assert forall|f: ReadFrameIdx| #[trigger] rest.contains(f) <==> reserved.contains(f) && f
        != frame by {
        if rest.contains(f) {
            let k = choose|k: int| 0 <= k < rest.len() && rest[k] == f;
            assert(reserved[k] == f);
            assert(reserved[k] != reserved[reserved.len() - 1]);
        }
        if reserved.contains(f) && f != frame {
            let k = choose|k: int| 0 <= k < reserved.len() && reserved[k] == f;
            assert(rest[k] == f);
        }
    }
    assert forall|f: ReadFrameIdx| after.has(f) && f != frame implies #[trigger] after.residency(f)
        == before.residency(f) by {
        assert(after.word(f) == before.word(f));
    }
    assert(rest.no_duplicates());
}

impl Cache {
    /// A change of waiters alone keeps the cache in order.
    proof fn lemma_interest_step(self, before: Cache)
        requires
            before.wf(),
            self.residency == before.residency,
            self.clock == before.clock,
            self.free == before.free,
            self.frame_pages == before.frame_pages,
            self.miss == before.miss,
            self.writes == before.writes,
            self.prefetch == before.prefetch,
            self.reads_in_flight == before.reads_in_flight,
            self.wear == before.wear,
            self.miss.linked(self.interests),
            forall|i: int|
                0 <= i < self.interests@.len() ==> (#[trigger] self.interests@[i]).generation
                    == before.interests@[i].generation,
        ensures
            self.wf(),
    {
        assert forall|i: int| 0 <= i < self.interests@.len() implies (
        #[trigger] self.interests@[i]).generation <= self.wear by {
            assert(before.interests@[i].generation <= before.wear);
        }
    }

    /// Ends the speculation on `frame`, if there is one, by demand.
    fn end_speculation(&mut self, frame: ReadFrameIdx, terminal: Terminal)
        requires
            old(self).wf(),
            frame.0 < old(self).frame_count(),
        ensures
            final(self).wf(),
            final(self).same_shape(*old(self)),
            final(self).residency == old(self).residency,
            final(self).free == old(self).free,
            final(self).frame_pages == old(self).frame_pages,
            final(self).miss == old(self).miss,
            final(self).interests == old(self).interests,
            final(self).writes == old(self).writes,
            final(self).reads_in_flight == old(self).reads_in_flight,
            final(self).wear == old(self).wear,
            final(self).prefetch.reserved() == old(self).prefetch.reserved(),
            final(self).prefetch.entry_of(frame) is None,
            old(self).prefetch.entry_of(frame) is Some ==> final(self).prefetch.ended(
                old(self).prefetch,
                old(self).clock,
                frame,
                terminal,
            ) && final(self).clock.unmarked(old(self).clock, frame),
            old(self).prefetch.entry_of(frame) is None ==> *final(self) == *old(self),
    {
        let ghost before = *self;
        proof {
            before.lemma_facts();
            before.prefetch.lemma_books();
        }
        self.prefetch.finish(&mut self.clock, frame, terminal);
        proof {
            if before.prefetch.entry_of(frame) is Some {
                before.prefetch.lemma_enrolled(frame);
                assert forall|f: ReadFrameIdx|
                    self.residency.frames.has(f) && #[trigger] self.prefetch.entry_of(
                        f,
                    ) is Some implies (self.residency.frames.residency(f) is InFlight
                    || self.residency.frames.residency(f) is Resident)
                    && self.residency.frames.page(f) == Some(self.prefetch.entry_of(f)->0.page) by {
                    assert(before.prefetch.entry_of(f) is Some);
                }
            }
        }
    }

    /// Joins the read in flight in miss slot `index`, on behalf of `reader`.
    pub fn join(&mut self, index: usize, reader: u32) -> (joined: (MissSlot, u64))
        requires
            old(self).wf(),
            old(self).miss.is_pending(index as int),
            old(self).interests@[index as int].waiters < u32::MAX,
        ensures
            final(self).wf(),
            final(self).same_shape(*old(self)),
            joined.0.0 == index,
            joined.1 == old(self).miss.entry_at(index as int)->0.generation,
            final(self).residency == old(self).residency,
            final(self).free == old(self).free,
            final(self).frame_pages == old(self).frame_pages,
            final(self).miss == old(self).miss,
            final(self).writes == old(self).writes,
            final(self).reads_in_flight == old(self).reads_in_flight,
            final(self).wear == old(self).wear,
            final(self).interests@ == old(self).interests@.update(
                index as int,
                MissInterest {
                    generation: joined.1,
                    waiters: (old(self).interests@[index as int].waiters + 1) as u32,
                },
            ),
            final(self).prefetch.reserved() == old(self).prefetch.reserved(),
            final(self).prefetch.entry_of(old(self).miss.entry_at(index as int)->0.frame) is None,
            ({
                let frame = old(self).miss.entry_at(index as int)->0.frame;
                &&& old(self).prefetch.entry_of(frame) is Some ==> final(self).prefetch.ended(
                    old(self).prefetch,
                    old(self).clock,
                    frame,
                    Terminal::Promoted(Some(reader)),
                ) && final(self).clock.unmarked(old(self).clock, frame)
                &&& old(self).prefetch.entry_of(frame) is None ==> final(self).prefetch == old(self).prefetch && final(self).clock == old(self).clock
            }),
    {
        let ghost before = *self;
        proof {
            before.lemma_facts();
            before.miss.lemma_entry(index as int);
        }
        let joined = self.miss.join(index, &mut self.interests);
        proof {
            self.lemma_interest_step(before);
        }
        let frame: ReadFrameIdx = self.miss.entry(index).unwrap().frame;
        self.end_speculation(frame, Terminal::Promoted(Some(reader)));
        joined
    }

    /// Somebody waits for generation `generation` of miss slot `slot`.
    pub open spec fn awaited(self, slot: MissSlot, generation: u64) -> bool {
        &&& slot.0 < self.miss.capacity()
        &&& self.interests@[slot.0 as int].generation == generation
        &&& self.interests@[slot.0 as int].waiters > 0
    }

    /// Withdraws one waiter's interest; the read goes on.
    pub fn withdraw(&mut self, slot: MissSlot, generation: u64) -> (left: u32)
        requires
            old(self).wf(),
            old(self).awaited(slot, generation),
        ensures
            final(self).wf(),
            final(self).same_shape(*old(self)),
            left == old(self).interests@[slot.0 as int].waiters - 1,
            final(self).residency == old(self).residency,
            final(self).clock == old(self).clock,
            final(self).free == old(self).free,
            final(self).frame_pages == old(self).frame_pages,
            final(self).miss == old(self).miss,
            final(self).writes == old(self).writes,
            final(self).prefetch == old(self).prefetch,
            final(self).reads_in_flight == old(self).reads_in_flight,
            final(self).wear == old(self).wear,
            final(self).interests@ == old(self).interests@.update(
                slot.0 as int,
                MissInterest { generation, waiters: left },
            ),
    {
        let ghost before = *self;
        proof {
            before.lemma_facts();
        }
        let left: u32 = self.interests.release(slot, generation);
        proof {
            assert forall|i: int| 0 <= i < self.miss.capacity() implies match #[trigger] self.miss.entry_at(
                i,
            ) {
                Some(e) => self.interests@[i].generation == e.generation,
                None => self.interests@[i].waiters == 0,
            } by {
                assert(match before.miss.entry_at(i) {
                    Some(e) => before.interests@[i].generation == e.generation,
                    None => before.interests@[i].waiters == 0,
                });
            }
            self.lemma_interest_step(before);
        }
        left
    }

    /// Everything but the misses.
    pub open spec fn same_but_miss(self, other: Cache) -> bool {
        &&& self.residency == other.residency
        &&& self.clock == other.clock
        &&& self.free == other.free
        &&& self.frame_pages == other.frame_pages
        &&& self.interests == other.interests
        &&& self.writes == other.writes
        &&& self.prefetch == other.prefetch
        &&& self.reads_in_flight == other.reads_in_flight
        &&& self.wear == other.wear
    }

    /// Forgetting a settled miss keeps the cache in order.
    proof fn lemma_forget_step(self, before: Cache, at: int)
        requires
            before.wf(),
            self.same_but_miss(before),
            self.miss.wf(),
            self.miss.linked(self.interests),
            0 <= at < before.miss.capacity(),
            !before.miss.is_pending(at),
            self.miss.same_except(before.miss, at),
            self.miss.entry_at(at) is None,
            self.miss.pending_count() == before.miss.pending_count(),
            forall|f: ReadFrameIdx|
                f.0 < before.miss.capacity() && #[trigger] self.miss.protection(f) is Some
                    ==> self.miss.protection(f) == before.miss.protection(f)
                    && before.miss.protection(f)->0.slot.0 != at,
        ensures
            self.wf(),
    {
        assert forall|i: int| #[trigger]
            self.miss.is_pending(i) <==> before.miss.is_pending(i) by {
            if 0 <= i < self.miss.capacity() && i != at {
                assert(self.miss.entry_at(i) == before.miss.entry_at(i));
            }
        }
        assert forall|i: int| #[trigger] self.miss.is_pending(i) implies self.miss.entry_at(i)
            == before.miss.entry_at(i) by {
            assert(i != at);
        }
        assert forall|f: ReadFrameIdx|
            self.residency.frames.has(f) && #[trigger] self.residency.frames.residency(
                f,
            ) is InFlight implies flown(self.miss, f) by {
            assert(flown(before.miss, f));
            let i = choose|i: int| #[trigger]
                before.miss.is_pending(i) && before.miss.entry_at(i)->0.frame == f;
            assert(self.miss.is_pending(i));
        }
        assert forall|i: int, j: int| #[trigger]
            self.miss.is_pending(i) && #[trigger] self.miss.is_pending(j) && self.miss.entry_at(
                i,
            )->0.frame == self.miss.entry_at(j)->0.frame implies i == j by {
            assert(before.miss.is_pending(i) && before.miss.is_pending(j));
        }
        assert forall|f: ReadFrameIdx|
            f.0 < self.miss.capacity() && #[trigger] self.miss.protection(f) is Some implies ({
            let page = self.miss.entry_at(self.miss.protection(f)->0.slot.0 as int)->0.page;
            self.residency.table@.contains_key(page) && self.residency.table@[page] == f
        }) by {
            before.miss.lemma_protection(f);
            let slot = before.miss.protection(f)->0.slot.0 as int;
            assert(self.miss.entry_at(slot) == before.miss.entry_at(slot));
        }
    }

    /// Forgets a settled miss nobody waits for.
    pub fn clean_terminal_zero(&mut self, slot: MissSlot, generation: u64)
        requires
            old(self).wf(),
            slot.0 < old(self).miss.capacity(),
        ensures
            final(self).wf(),
            final(self).same_shape(*old(self)),
            final(self).same_but_miss(*old(self)),
            final(self).miss.pending_count() == old(self).miss.pending_count(),
            !old(self).miss.spent(old(self).interests, slot, generation) ==> *final(self) == *old(self),
            old(self).miss.spent(old(self).interests, slot, generation) ==> {
                &&& final(self).miss.same_except(old(self).miss, slot.0 as int)
                &&& final(self).miss.entry_at(slot.0 as int) is None
            },
            forall|f: ReadFrameIdx|
                f.0 < old(self).miss.capacity() && #[trigger] final(self).miss.protection(
                    f,
                ) is Some ==> final(self).miss.protection(f) == old(self).miss.protection(f),
    {
        let ghost before = *self;
        proof {
            before.lemma_facts();
        }
        self.miss.clean_terminal_zero(slot, generation, &self.interests);
        proof {
            if before.miss.spent(before.interests, slot, generation) {
                self.lemma_forget_step(before, slot.0 as int);
            }
        }
    }

    /// Copies bytes read from the device into a frame in flight.
    pub fn transfer(&mut self, frame: ReadFrameIdx, destination_offset: u32, source: &[u8])
        requires
            old(self).wf(),
            old(self).residency.has(frame),
            old(self).residency.frames.residency(frame) is InFlight,
            destination_offset + source@.len() <= old(self).granule_bytes(),
        ensures
            final(self).wf(),
            final(self).same_shape(*old(self)),
            final(self).residency.keeps(old(self).residency),
            final(self).same_flow(*old(self)),
            final(self).clock == old(self).clock,
            final(self).residency.same_but_frames(old(self).residency),
            final(self).residency.frames.same_except(old(self).residency.frames, frame),
            final(self).residency.frames.word(frame) == old(self).residency.frames.word(frame),
            final(self).residency.frames.page(frame) == old(self).residency.frames.page(frame),
            final(self).residency.frames.contents(frame) == overwritten(
                old(self).residency.frames.contents(frame),
                destination_offset as int,
                source@,
            ),
    {
        let ghost before = *self;
        proof {
            before.lemma_facts();
            assert(write_at(
                before.residency.frames,
                frame,
                before.writes@[frame.0 as int],
            ));
        }
        if let Some(token) = &self.writes[frame.get() as usize] {
            self.residency.transfer(token, destination_offset, source);
        }
        proof {
            self.lemma_bytes_step(before, frame);
        }
    }

    /// New bytes in a frame in flight keep the cache in order.
    proof fn lemma_bytes_step(self, before: Cache, frame: ReadFrameIdx)
        requires
            before.wf(),
            self.same_flow(before),
            self.clock == before.clock,
            self.residency.wf(),
            self.residency.same_but_frames(before.residency),
            self.residency.frames.same_except(before.residency.frames, frame),
            before.residency.has(frame),
            self.residency.frames.word(frame) == before.residency.frames.word(frame),
            self.residency.frames.page(frame) == before.residency.frames.page(frame),
        ensures
            self.wf(),
    {
        let frames = self.residency.frames;
        let old_frames = before.residency.frames;
        assert forall|f: ReadFrameIdx| frames.has(f) implies #[trigger] frames.residency(f)
            == old_frames.residency(f) && frames.generation(f) == old_frames.generation(f)
            && frames.page(f) == old_frames.page(f) by {
            assert(frames.word(f) == old_frames.word(f));
            assert(frames.page(f) == old_frames.page(f));
        }
        assert forall|i: int| #[trigger] self.miss.is_pending(i) implies flight_at(
            frames,
            self.miss.entry_at(i)->0,
        ) by {
            assert(flight_at(old_frames, before.miss.entry_at(i)->0));
            assert(frames.residency(before.miss.entry_at(i)->0.frame) is InFlight);
        }
        assert forall|f: ReadFrameIdx| frames.has(f) implies write_at(
            frames,
            f,
            #[trigger] self.writes@[f.0 as int],
        ) by {
            assert(write_at(old_frames, f, before.writes@[f.0 as int]));
            assert(frames.residency(f) == old_frames.residency(f));
        }
        assert forall|f: ReadFrameIdx| frames.has(f) implies filed_at(
            frames,
            f,
            #[trigger] self.frame_pages.at(f.0 as int),
        ) by {
            assert(filed_at(old_frames, f, before.frame_pages.at(f.0 as int)));
            assert(frames.residency(f) == old_frames.residency(f));
        }
        assert forall|f: ReadFrameIdx| #[trigger] self.free@.contains(f) implies frames.has(f)
            && frames.residency(f) is Free && !self.prefetch.reserved().contains(f) by {
            assert(before.free@.contains(f));
        }
        assert forall|f: ReadFrameIdx| #[trigger]
            self.prefetch.reserved().contains(f) implies frames.has(f) && frames.residency(
            f,
        ) is Free by {
            assert(before.prefetch.reserved().contains(f));
        }
        assert forall|f: ReadFrameIdx|
            frames.has(f) && #[trigger] self.prefetch.entry_of(f) is Some implies (
        frames.residency(f) is InFlight || frames.residency(f) is Resident) && frames.page(f)
            == Some(self.prefetch.entry_of(f)->0.page) by {
            assert(before.prefetch.entry_of(f) is Some);
            assert(frames.residency(f) == old_frames.residency(f));
        }
        assert forall|f: ReadFrameIdx|
            self.residency.has(f) implies #[trigger] self.residency.frames.generation(f)
            <= self.wear by {
            assert(frames.residency(f) == old_frames.residency(f));
            assert(old_frames.generation(f) <= before.wear);
        }
    }

    /// The rest of a short read goes on under `token`.
    pub fn advance_remainder(&mut self, index: usize, filled: u32, token: OpToken)
        requires
            old(self).wf(),
            old(self).miss.is_pending(index as int),
            filled < old(self).granule_bytes(),
        ensures
            final(self).wf(),
            final(self).same_shape(*old(self)),
            final(self).same_but_miss(*old(self)),
            final(self).miss.same_except(old(self).miss, index as int),
            final(self).miss.same_protections(old(self).miss),
            final(self).miss.pending_count() == old(self).miss.pending_count(),
            final(self).miss.entry_at(index as int) == Some(
                MissEntry { filled, token, ..old(self).miss.entry_at(index as int)->0 },
            ),
    {
        let ghost before = *self;
        proof {
            before.lemma_facts();
        }
        self.miss.advance_remainder(index, filled, token);
        proof {
            assert forall|i: int| #[trigger]
                self.miss.is_pending(i) <==> before.miss.is_pending(i) by {
                if 0 <= i < self.miss.capacity() && i != index {
                    assert(self.miss.entry_at(i) == before.miss.entry_at(i));
                }
            }
            assert forall|i: int| #[trigger] self.miss.is_pending(i) implies self.miss.entry_at(
                i,
            )->0.page == before.miss.entry_at(i)->0.page && self.miss.entry_at(i)->0.frame
                == before.miss.entry_at(i)->0.frame && flight_at(
                self.residency.frames,
                self.miss.entry_at(i)->0,
            ) by {
                assert(before.miss.is_pending(i));
                assert(flight_at(before.residency.frames, before.miss.entry_at(i)->0));
                if i != index {
                    assert(self.miss.entry_at(i) == before.miss.entry_at(i));
                }
            }
            assert forall|i: int| 0 <= i < self.miss.capacity() implies match #[trigger] self.miss.entry_at(
                i,
            ) {
                Some(e) => self.interests@[i].generation == e.generation,
                None => self.interests@[i].waiters == 0,
            } by {
                assert(match before.miss.entry_at(i) {
                    Some(e) => before.interests@[i].generation == e.generation,
                    None => before.interests@[i].waiters == 0,
                });
                if i != index {
                    assert(self.miss.entry_at(i) == before.miss.entry_at(i));
                }
            }
            assert forall|f: ReadFrameIdx|
                self.residency.frames.has(f) && #[trigger] self.residency.frames.residency(
                    f,
                ) is InFlight implies flown(self.miss, f) by {
                assert(flown(before.miss, f));
                let i = choose|i: int| #[trigger]
                    before.miss.is_pending(i) && before.miss.entry_at(i)->0.frame == f;
                assert(self.miss.is_pending(i));
            }
            assert forall|i: int, j: int| #[trigger]
                self.miss.is_pending(i) && #[trigger] self.miss.is_pending(j) && self.miss.entry_at(
                    i,
                )->0.frame == self.miss.entry_at(j)->0.frame implies i == j by {
                assert(before.miss.is_pending(i) && before.miss.is_pending(j));
            }
            assert forall|f: ReadFrameIdx|
                f.0 < self.miss.capacity() && #[trigger] self.miss.protection(f) is Some implies ({
                let page = self.miss.entry_at(self.miss.protection(f)->0.slot.0 as int)->0.page;
                self.residency.table@.contains_key(page) && self.residency.table@[page] == f
            }) by {
                assert(before.miss.protection(f) == self.miss.protection(f));
                before.miss.lemma_protection(f);
                let slot = before.miss.protection(f)->0.slot.0 as int;
                assert(slot != index);
                assert(self.miss.entry_at(slot) == before.miss.entry_at(slot));
            }
        }
    }

    /// The misses once the read in slot `index` has ended with `outcome` and
    /// was forgotten if nobody waits for it.
    pub open spec fn settled(self, other: Cache, index: int, outcome: MissOutcome) -> bool {
        let entry = other.miss.entry_at(index)->0;
        &&& self.miss.same_except(other.miss, index)
        &&& self.miss.pending_count() == other.miss.pending_count() - 1
        &&& self.miss.entry_at(index) == (if other.interests@[index].waiters == 0 {
            None
        } else {
            Some(MissEntry { outcome, ..entry })
        })
        &&& self.interests == other.interests
        &&& self.reads_in_flight == other.reads_in_flight - 1
    }

    /// `self` is `other` with the read in miss slot `index` published.
    pub open spec fn landed(self, other: Cache, index: int) -> bool {
        let entry = other.miss.entry_at(index)->0;
        let frame = entry.frame;
        &&& self.settled(other, index, MissOutcome::Succeeded)
        &&& self.residency.table@ == other.residency.table@.insert(entry.page, frame)
        &&& self.residency.readers == other.residency.readers
        &&& self.residency.evict_queue == other.residency.evict_queue
        &&& self.residency.retention == other.residency.retention
        &&& self.residency.epoch == other.residency.epoch
        &&& self.residency.pins == other.residency.pins
        &&& self.residency.frames.same_except(other.residency.frames, frame)
        &&& self.residency.frames.residency(frame) is Resident
        &&& self.residency.frames.generation(frame) == other.residency.frames.generation(frame) + 1
        &&& self.residency.frames.page(frame) == Some(entry.page)
        &&& self.residency.frames.contents(frame) == other.residency.frames.contents(frame)
        &&& self.frame_pages.gained(
            other.frame_pages,
            frame.0 as int,
            FrameFileSlot(entry.page.file.slot),
        )
        &&& self.free == other.free
        &&& self.prefetch == other.prefetch
        &&& self.wear == other.wear + 1
    }

    /// What the clock learns of a landed frame: a prediction is reported as
    /// complete, a demanded frame counts as used.
    pub open spec fn noticed(self, other: Cache, frame: ReadFrameIdx) -> bool {
        if other.prefetch.entry_of(frame) is Some {
            &&& self.clock.same_references(other.clock)
            &&& self.clock.consumed_frames() == other.clock.consumed_frames()
            &&& self.clock.completed_frames() == other.clock.completed_frames().insert(frame)
            &&& forall|f: ReadFrameIdx|
                self.clock.has(f) ==> #[trigger] self.clock.speculation(f)
                    == other.clock.speculation(f)
        } else {
            self.clock.touched(other.clock, frame, None)
        }
    }

    /// Publishes the filled frame of a pending read, maps its page to it, and
    /// settles the miss.
    #[verifier::rlimit(40)]
    pub fn finish_success(&mut self, index: usize)
        requires
            old(self).wf(),
            old(self).miss.is_pending(index as int),
            old(self).wear < WEAR_MAX,
        ensures
            final(self).wf(),
            final(self).same_shape(*old(self)),
            final(self).residency.keeps(old(self).residency),
            final(self).wear == old(self).wear + 1,
            final(self).landed(*old(self), index as int),
            final(self).noticed(*old(self), old(self).miss.entry_at(index as int)->0.frame),
    {
        let ghost before = *self;
        proof {
            before.lemma_facts();
            before.miss.lemma_entry(index as int);
            assert(flight_at(before.residency.frames, before.miss.entry_at(index as int)->0));
        }
        let entry: MissEntry = self.miss.entry(index).unwrap();
        let frame: ReadFrameIdx = entry.frame;
        proof {
            assert(write_at(before.residency.frames, frame, before.writes@[frame.0 as int]));
            assert(filed_at(before.residency.frames, frame, before.frame_pages.at(frame.0 as int)));
            assert(before.residency.frames.generation(frame) <= before.wear);
            assert(before.miss.protection(frame) is None) by {
                if before.miss.protection(frame) is Some {
                    before.residency.lemma_facts();
                    let page = before.miss.entry_at(
                        before.miss.protection(frame)->0.slot.0 as int,
                    )->0.page;
                    assert(before.residency.table@.contains_key(page));
                }
            }
        }
        let mut write: Option<InFlightFrame> = None;
        self.writes.set_and_swap(frame.get() as usize, &mut write);
        let published: ReadFrameIdx = self.residency.publish(write.unwrap());
        self.frame_pages.insert(frame.get() as usize, FrameFileSlot::for_page(entry.page));
        if self.clock.is_speculative(frame) {
            self.clock.notify_completed(frame);
        } else {
            let _stored: bool = self.clock.reference(frame);
        }
        self.miss.succeed(index);
        self.reads_in_flight = self.reads_in_flight - 1;
        self.wear = self.wear + 1;
        let ghost landed = *self;
        proof {
            assert(published == frame);
            landed.lemma_landed(before, index as int);
        }
        self.clean_terminal_zero(MissSlot::new(index), entry.generation);
    }

    /// Publishing a read keeps the cache in order.
    proof fn lemma_landed(self, before: Cache, index: int)
        requires
            before.wf(),
            before.miss.is_pending(index),
            self.residency.wf(),
            self.residency.table@ == before.residency.table@.insert(
                before.miss.entry_at(index)->0.page,
                before.miss.entry_at(index)->0.frame,
            ),
            self.residency.readers@.len() == before.residency.readers@.len(),
            self.residency.retention == before.residency.retention,
            self.residency.epoch == before.residency.epoch,
            self.residency.frames.same_except(
                before.residency.frames,
                before.miss.entry_at(index)->0.frame,
            ),
            self.residency.frames.residency(before.miss.entry_at(index)->0.frame) is Resident,
            self.residency.frames.generation(before.miss.entry_at(index)->0.frame)
                == before.residency.frames.generation(before.miss.entry_at(index)->0.frame) + 1,
            self.residency.frames.page(before.miss.entry_at(index)->0.frame) == Some(
                before.miss.entry_at(index)->0.page,
            ),
            self.writes@ == before.writes@.update(
                before.miss.entry_at(index)->0.frame.0 as int,
                None,
            ),
            self.frame_pages.wf(),
            self.frame_pages.capacity() == before.frame_pages.capacity(),
            self.frame_pages.file_capacity() == before.frame_pages.file_capacity(),
            self.frame_pages.at(before.miss.entry_at(index)->0.frame.0 as int) == Some(
                FrameFileSlot(before.miss.entry_at(index)->0.page.file.slot),
            ),
            forall|i: int|
                0 <= i < before.frame_pages.capacity() && i
                    != before.miss.entry_at(index)->0.frame.0 ==> #[trigger] self.frame_pages.at(i)
                    == before.frame_pages.at(i),
            self.clock.wf(),
            self.prefetch == before.prefetch,
            self.free == before.free,
            self.interests == before.interests,
            self.clock.frame_count() == before.clock.frame_count(),
            before.prefetch.entry_of(before.miss.entry_at(index)->0.frame) is Some ==> {
                &&& self.clock.same_references(before.clock)
                &&& self.clock.consumed_frames() == before.clock.consumed_frames()
                &&& forall|f: ReadFrameIdx|
                    self.clock.has(f) ==> #[trigger] self.clock.speculation(f)
                        == before.clock.speculation(f)
            },
            before.prefetch.entry_of(before.miss.entry_at(index)->0.frame) is None
                ==> self.clock.touched(
                before.clock,
                before.miss.entry_at(index)->0.frame,
                None,
            ),
            self.miss.wf(),
            self.miss.same_except(before.miss, index),
            self.miss.pending_count() == before.miss.pending_count() - 1,
            self.miss.entry_at(index) == Some(
                MissEntry { outcome: MissOutcome::Succeeded, ..before.miss.entry_at(index)->0 },
            ),
            forall|f: ReadFrameIdx|
                f.0 < before.miss.capacity() ==> #[trigger] self.miss.protection(f) == (if f
                    == before.miss.entry_at(index)->0.frame {
                    Some(
                        Protection {
                            slot: MissSlot(index as u32),
                            generation: before.miss.entry_at(index)->0.generation,
                        },
                    )
                } else {
                    before.miss.protection(f)
                }),
            self.reads_in_flight == before.reads_in_flight - 1,
            self.wear == before.wear + 1,
            self.wear <= WEAR_MAX,
        ensures
            self.wf(),
    {
        let frames = self.residency.frames;
        let old_frames = before.residency.frames;
        let entry = before.miss.entry_at(index)->0;
        let frame = entry.frame;
        before.lemma_facts();
        before.miss.lemma_entry(index);
        assert(flight_at(old_frames, entry));
        assert forall|f: ReadFrameIdx| frames.has(f) && f != frame implies #[trigger] frames.residency(
            f,
        ) == old_frames.residency(f) && frames.generation(f) == old_frames.generation(f)
            && frames.page(f) == old_frames.page(f) by {
            assert(frames.word(f) == old_frames.word(f));
            assert(frames.page(f) == old_frames.page(f));
        }
        assert forall|i: int| #[trigger]
            self.miss.is_pending(i) <==> before.miss.is_pending(i) && i != index by {
            if 0 <= i < self.miss.capacity() && i != index {
                assert(self.miss.entry_at(i) == before.miss.entry_at(i));
            }
        }
        assert forall|i: int| #[trigger] self.miss.is_pending(i) implies self.miss.entry_at(i)
            == before.miss.entry_at(i) && self.miss.entry_at(i)->0.frame != frame by {
            assert(before.miss.is_pending(i) && before.miss.is_pending(index));
        }
        assert forall|i: int| 0 <= i < self.miss.capacity() implies match #[trigger] self.miss.entry_at(
            i,
        ) {
            Some(e) => self.interests@[i].generation == e.generation,
            None => self.interests@[i].waiters == 0,
        } by {
            assert(match before.miss.entry_at(i) {
                Some(e) => before.interests@[i].generation == e.generation,
                None => before.interests@[i].waiters == 0,
            });
            if i != index {
                assert(self.miss.entry_at(i) == before.miss.entry_at(i));
            }
        }
        assert forall|f: ReadFrameIdx| f.0 < self.prefetch.frames() implies (
        #[trigger] self.prefetch.entry_of(f) is Some <==> !(self.clock.speculation(
            f,
        ) is Absent)) by {
            assert(before.prefetch.entry_of(f) is Some <==> !(before.clock.speculation(
                f,
            ) is Absent));
            assert(self.clock.has(f));
        }
        assert forall|f: ReadFrameIdx|
            f.0 < self.prefetch.frames() && #[trigger] self.clock.speculation(
                f,
            ) is Consumed implies self.clock.consumed_frames().contains(f) by {
            assert(self.clock.has(f));
            assert(before.clock.speculation(f) is Consumed
                ==> before.clock.consumed_frames().contains(f));
        }
        assert forall|f: ReadFrameIdx| #[trigger] self.free@.contains(f) implies frames.has(f)
            && frames.residency(f) is Free && !self.prefetch.reserved().contains(f) by {
            assert(before.free@.contains(f));
            assert(f != frame);
        }
        assert forall|f: ReadFrameIdx| #[trigger]
            self.prefetch.reserved().contains(f) implies frames.has(f) && frames.residency(
            f,
        ) is Free by {
            assert(before.prefetch.reserved().contains(f));
            assert(f != frame);
        }
        assert forall|i: int| #[trigger] self.miss.is_pending(i) implies flight_at(
            frames,
            self.miss.entry_at(i)->0,
        ) by {
            assert(before.miss.is_pending(i));
            assert(flight_at(old_frames, before.miss.entry_at(i)->0));
            assert(frames.residency(self.miss.entry_at(i)->0.frame) is InFlight);
        }
        assert forall|i: int, j: int| #[trigger]
            self.miss.is_pending(i) && #[trigger] self.miss.is_pending(j) && self.miss.entry_at(
                i,
            )->0.frame == self.miss.entry_at(j)->0.frame implies i == j by {
            assert(before.miss.is_pending(i) && before.miss.is_pending(j));
        }
        assert forall|f: ReadFrameIdx|
            frames.has(f) && #[trigger] frames.residency(f) is InFlight implies flown(
            self.miss,
            f,
        ) by {
            assert(flown(before.miss, f));
            let i = choose|i: int| #[trigger]
                before.miss.is_pending(i) && before.miss.entry_at(i)->0.frame == f;
            assert(self.miss.is_pending(i));
        }
        assert forall|f: ReadFrameIdx| frames.has(f) implies write_at(
            frames,
            f,
            #[trigger] self.writes@[f.0 as int],
        ) by {
            assert(write_at(old_frames, f, before.writes@[f.0 as int]));
            if f != frame {
                assert(frames.residency(f) == old_frames.residency(f));
            }
        }
        assert forall|f: ReadFrameIdx|
            frames.has(f) && #[trigger] frames.residency(
                f,
            ) is Resident implies self.residency.table@.contains_key(frames.page(f)->0)
            && self.residency.table@[frames.page(f)->0] == f by {
            if f != frame {
                assert(old_frames.residency(f) is Resident);
                assert(before.residency.table@.contains_key(old_frames.page(f)->0));
                assert(old_frames.page(f)->0 != entry.page);
            }
        }
        assert forall|i: int| #[trigger]
            self.miss.is_pending(i) implies !self.residency.table@.contains_key(
            self.miss.entry_at(i)->0.page,
        ) by {
            assert(before.miss.is_pending(i) && before.miss.is_pending(index));
            if self.miss.entry_at(i)->0.page == entry.page {
                before.miss.lemma_singleflight(i, index);
            }
        }
        assert forall|f: ReadFrameIdx|
            f.0 < self.miss.capacity() && #[trigger] self.miss.protection(f) is Some implies ({
            let page = self.miss.entry_at(self.miss.protection(f)->0.slot.0 as int)->0.page;
            self.residency.table@.contains_key(page) && self.residency.table@[page] == f
        }) by {
            if f != frame {
                assert(before.miss.protection(f) is Some);
                before.miss.lemma_protection(f);
                let slot = before.miss.protection(f)->0.slot.0 as int;
                assert(slot != index);
                assert(self.miss.entry_at(slot) == before.miss.entry_at(slot));
                assert(before.miss.entry_at(slot)->0.page != entry.page);
            }
        }
        assert forall|f: ReadFrameIdx| frames.has(f) implies filed_at(
            frames,
            f,
            #[trigger] self.frame_pages.at(f.0 as int),
        ) by {
            assert(filed_at(old_frames, f, before.frame_pages.at(f.0 as int)));
            if f != frame {
                assert(frames.residency(f) == old_frames.residency(f));
            }
        }
        assert forall|f: ReadFrameIdx|
            frames.has(f) && #[trigger] self.prefetch.entry_of(f) is Some implies (
        frames.residency(f) is InFlight || frames.residency(f) is Resident) && frames.page(f)
            == Some(self.prefetch.entry_of(f)->0.page) by {
            assert(before.prefetch.entry_of(f) is Some);
            if f != frame {
                assert(frames.residency(f) == old_frames.residency(f));
            }
        }
        assert forall|f: ReadFrameIdx|
            self.residency.has(f) implies #[trigger] self.residency.frames.generation(f)
            <= self.wear by {
            assert(old_frames.generation(f) <= before.wear);
            if f != frame {
                assert(frames.residency(f) == old_frames.residency(f));
            }
        }
        assert forall|i: int| 0 <= i < self.interests@.len() implies (
        #[trigger] self.interests@[i]).generation <= self.wear by {
            assert(before.interests@[i].generation <= before.wear);
        }
    }

    /// What a failed read leaves: the miss settled, its frame free again and
    /// any prediction of it ended.
    pub open spec fn failed(self, other: Cache, index: int, errno: i32) -> bool {
        let frame = other.miss.entry_at(index)->0.frame;
        &&& self.settled(other, index, MissOutcome::Failed(errno))
        &&& self.residency.same_but_frames(other.residency)
        &&& self.frame_pages == other.frame_pages
        &&& self.prefetch.reserved() == other.prefetch.reserved()
        &&& self.residency.frames.same_except(other.residency.frames, frame)
        &&& self.residency.frames.residency(frame) is Free
        &&& self.residency.frames.generation(frame) == other.residency.frames.generation(frame)
        &&& self.free@ == other.free@.push(frame)
        &&& self.wear == other.wear
        &&& self.prefetch.entry_of(frame) is None
        &&& other.prefetch.entry_of(frame) is Some ==> self.prefetch.ended(
            other.prefetch,
            other.clock,
            frame,
            Terminal::Failed,
        ) && self.clock.unmarked(other.clock, frame)
        &&& other.prefetch.entry_of(frame) is None ==> self.prefetch == other.prefetch
            && self.clock == other.clock
    }

    /// Frees the frame of a pending read that failed, and settles the miss.
    #[verifier::rlimit(40)]
    pub fn finish_failure(&mut self, index: usize, errno: i32)
        requires
            old(self).wf(),
            old(self).miss.is_pending(index as int),
            errno != 0,
        ensures
            final(self).wf(),
            final(self).same_shape(*old(self)),
            final(self).residency.keeps(old(self).residency),
            final(self).wear == old(self).wear,
            final(self).failed(*old(self), index as int, errno),
    {
        let ghost before = *self;
        proof {
            before.lemma_facts();
            before.miss.lemma_entry(index as int);
            assert(flight_at(before.residency.frames, before.miss.entry_at(index as int)->0));
        }
        let entry: MissEntry = self.miss.entry(index).unwrap();
        let frame: ReadFrameIdx = entry.frame;
        self.end_speculation(frame, Terminal::Failed);
        let ghost ended = *self;
        proof {
            ended.lemma_facts();
            assert(write_at(ended.residency.frames, frame, ended.writes@[frame.0 as int]));
            lemma_room_to_free(ended.residency.frames, ended.free, frame);
        }
        let mut write: Option<InFlightFrame> = None;
        self.writes.set_and_swap(frame.get() as usize, &mut write);
        let aborted: ReadFrameIdx = self.residency.abort(write.unwrap());
        self.free.push(aborted);
        self.miss.fail(index, errno);
        self.reads_in_flight = self.reads_in_flight - 1;
        let ghost failed = *self;
        proof {
            failed.lemma_failed(ended, index as int, errno);
        }
        self.clean_terminal_zero(MissSlot::new(index), entry.generation);
    }

    /// Freeing the frame of a failed read keeps the cache in order.
    proof fn lemma_failed(self, before: Cache, index: int, errno: i32)
        requires
            before.wf(),
            before.miss.is_pending(index),
            before.prefetch.entry_of(before.miss.entry_at(index)->0.frame) is None,
            self.residency.wf(),
            self.residency.same_but_frames(before.residency),
            self.residency.frames.same_except(
                before.residency.frames,
                before.miss.entry_at(index)->0.frame,
            ),
            self.residency.frames.residency(before.miss.entry_at(index)->0.frame) is Free,
            self.residency.frames.generation(before.miss.entry_at(index)->0.frame)
                == before.residency.frames.generation(before.miss.entry_at(index)->0.frame),
            self.writes@ == before.writes@.update(
                before.miss.entry_at(index)->0.frame.0 as int,
                None,
            ),
            self.frame_pages == before.frame_pages,
            self.clock == before.clock,
            self.prefetch == before.prefetch,
            self.interests == before.interests,
            self.free.wf(),
            self.free.room() == before.free.room(),
            self.free@ == before.free@.push(before.miss.entry_at(index)->0.frame),
            self.miss.wf(),
            self.miss.same_except(before.miss, index),
            self.miss.same_protections(before.miss),
            self.miss.pending_count() == before.miss.pending_count() - 1,
            self.miss.entry_at(index) == Some(
                MissEntry {
                    outcome: MissOutcome::Failed(errno),
                    ..before.miss.entry_at(index)->0
                },
            ),
            self.reads_in_flight == before.reads_in_flight - 1,
            self.wear == before.wear,
        ensures
            self.wf(),
    {
        let frames = self.residency.frames;
        let old_frames = before.residency.frames;
        let entry = before.miss.entry_at(index)->0;
        let frame = entry.frame;
        before.lemma_facts();
        before.miss.lemma_entry(index);
        assert(flight_at(old_frames, entry));
        assert forall|f: ReadFrameIdx| frames.has(f) && f != frame implies #[trigger] frames.residency(
            f,
        ) == old_frames.residency(f) && frames.generation(f) == old_frames.generation(f)
            && frames.page(f) == old_frames.page(f) by {
            assert(frames.word(f) == old_frames.word(f));
            assert(frames.page(f) == old_frames.page(f));
        }
        assert forall|i: int| #[trigger]
            self.miss.is_pending(i) <==> before.miss.is_pending(i) && i != index by {
            if 0 <= i < self.miss.capacity() && i != index {
                assert(self.miss.entry_at(i) == before.miss.entry_at(i));
            }
        }
        assert forall|i: int| #[trigger] self.miss.is_pending(i) implies self.miss.entry_at(i)
            == before.miss.entry_at(i) && self.miss.entry_at(i)->0.frame != frame by {
            assert(before.miss.is_pending(i) && before.miss.is_pending(index));
        }
        assert forall|i: int| 0 <= i < self.miss.capacity() implies match #[trigger] self.miss.entry_at(
            i,
        ) {
            Some(e) => self.interests@[i].generation == e.generation,
            None => self.interests@[i].waiters == 0,
        } by {
            assert(match before.miss.entry_at(i) {
                Some(e) => before.interests@[i].generation == e.generation,
                None => before.interests@[i].waiters == 0,
            });
            if i != index {
                assert(self.miss.entry_at(i) == before.miss.entry_at(i));
            }
        }
        lemma_spare_pushed(old_frames, frames, before.free@, before.prefetch.reserved(), frame);
        assert forall|i: int| #[trigger] self.miss.is_pending(i) implies flight_at(
            frames,
            self.miss.entry_at(i)->0,
        ) by {
            assert(before.miss.is_pending(i));
            assert(flight_at(old_frames, before.miss.entry_at(i)->0));
            assert(frames.residency(self.miss.entry_at(i)->0.frame) is InFlight);
        }
        assert forall|i: int, j: int| #[trigger]
            self.miss.is_pending(i) && #[trigger] self.miss.is_pending(j) && self.miss.entry_at(
                i,
            )->0.frame == self.miss.entry_at(j)->0.frame implies i == j by {
            assert(before.miss.is_pending(i) && before.miss.is_pending(j));
        }
        assert forall|f: ReadFrameIdx|
            frames.has(f) && #[trigger] frames.residency(f) is InFlight implies flown(
            self.miss,
            f,
        ) by {
            assert(flown(before.miss, f));
            let i = choose|i: int| #[trigger]
                before.miss.is_pending(i) && before.miss.entry_at(i)->0.frame == f;
            assert(self.miss.is_pending(i));
        }
        assert forall|f: ReadFrameIdx| frames.has(f) implies write_at(
            frames,
            f,
            #[trigger] self.writes@[f.0 as int],
        ) by {
            assert(write_at(old_frames, f, before.writes@[f.0 as int]));
            if f != frame {
                assert(frames.residency(f) == old_frames.residency(f));
            }
        }
        assert forall|f: ReadFrameIdx|
            frames.has(f) && #[trigger] frames.residency(
                f,
            ) is Resident implies self.residency.table@.contains_key(frames.page(f)->0)
            && self.residency.table@[frames.page(f)->0] == f by {
            assert(old_frames.residency(f) is Resident);
        }
        assert forall|i: int| #[trigger]
            self.miss.is_pending(i) implies !self.residency.table@.contains_key(
            self.miss.entry_at(i)->0.page,
        ) by {
            assert(before.miss.is_pending(i));
        }
        assert forall|f: ReadFrameIdx|
            f.0 < self.miss.capacity() && #[trigger] self.miss.protection(f) is Some implies ({
            let page = self.miss.entry_at(self.miss.protection(f)->0.slot.0 as int)->0.page;
            self.residency.table@.contains_key(page) && self.residency.table@[page] == f
        }) by {
            assert(before.miss.protection(f) == self.miss.protection(f));
            before.miss.lemma_protection(f);
            let slot = before.miss.protection(f)->0.slot.0 as int;
            assert(slot != index);
            assert(self.miss.entry_at(slot) == before.miss.entry_at(slot));
        }
        assert forall|f: ReadFrameIdx| frames.has(f) implies filed_at(
            frames,
            f,
            #[trigger] self.frame_pages.at(f.0 as int),
        ) by {
            assert(filed_at(old_frames, f, before.frame_pages.at(f.0 as int)));
            if f != frame {
                assert(frames.residency(f) == old_frames.residency(f));
            }
        }
        assert forall|f: ReadFrameIdx|
            frames.has(f) && #[trigger] self.prefetch.entry_of(f) is Some implies (
        frames.residency(f) is InFlight || frames.residency(f) is Resident) && frames.page(f)
            == Some(self.prefetch.entry_of(f)->0.page) by {
            assert(before.prefetch.entry_of(f) is Some);
            assert(frames.residency(f) == old_frames.residency(f));
        }
        assert forall|f: ReadFrameIdx|
            self.residency.has(f) implies #[trigger] self.residency.frames.generation(f)
            <= self.wear by {
            assert(old_frames.generation(f) <= before.wear);
            if f != frame {
                assert(frames.residency(f) == old_frames.residency(f));
            }
        }
    }

    /// `frame` can be evicted now: it is resident and no waiter is owed it.
    pub open spec fn evictable(self, frame: ReadFrameIdx) -> bool {
        &&& self.residency.frames.residency(frame) is Resident
        &&& !self.miss.guarded(self.interests, frame)
    }

    /// What an eviction of `frame` does.
    pub open spec fn unmapped(self, other: Cache, frame: ReadFrameIdx) -> bool {
        let page = other.residency.frames.page(frame)->0;
        &&& other.residency.table@.contains_key(page)
        &&& other.residency.table@[page] == frame
        &&& self.residency.evicted(other.residency, page)
        &&& self.free == other.free
        &&& self.frame_pages == other.frame_pages
        &&& self.interests == other.interests
        &&& self.writes == other.writes
        &&& self.reads_in_flight == other.reads_in_flight
        &&& self.wear == other.wear
        &&& self.miss.pending_count() == other.miss.pending_count()
        &&& self.miss.capacity() == other.miss.capacity()
        &&& forall|f: ReadFrameIdx|
            f.0 < other.miss.capacity() ==> #[trigger] self.miss.protection(f) == (if f == frame {
                None
            } else {
                other.miss.protection(f)
            })
        &&& forall|i: int| #[trigger] self.miss.is_pending(i) <==> other.miss.is_pending(i)
        &&& forall|i: int| #[trigger]
            self.miss.is_pending(i) ==> self.miss.entry_at(i) == other.miss.entry_at(i)
        &&& forall|i: int|
            0 <= i < other.miss.capacity() ==> #[trigger] self.miss.entry_at(i)
                == other.miss.entry_at(i) || self.miss.entry_at(i) is None && other.miss.reusable(
                other.interests,
                i,
            )
        &&& self.prefetch.reserved() == other.prefetch.reserved()
        &&& self.prefetch.entry_of(frame) is None
        &&& other.prefetch.entry_of(frame) is Some ==> self.prefetch.ended(
            other.prefetch,
            other.clock,
            frame,
            Terminal::Evicted,
        ) && self.clock.unmarked(other.clock, frame)
        &&& other.prefetch.entry_of(frame) is None ==> self.prefetch == other.prefetch
            && self.clock == other.clock
    }

    /// Evicts `frame` if it is resident and no waiter is owed it.
    #[verifier::rlimit(40)]
    pub fn try_evict(&mut self, frame: ReadFrameIdx) -> (evicted: bool)
        requires
            old(self).wf(),
            old(self).residency.has(frame),
        ensures
            final(self).wf(),
            final(self).same_shape(*old(self)),
            final(self).residency.keeps(old(self).residency),
            evicted == old(self).evictable(frame),
            evicted ==> final(self).unmapped(*old(self), frame),
            !evicted ==> *final(self) == *old(self),
    {
        let ghost before = *self;
        proof {
            before.lemma_facts();
            before.residency.lemma_facts();
            before.residency.lemma_keeps_itself();
        }
        if self.residency.frames.state(frame) != FrameState::Resident {
            return false;
        }
        if !self.miss.prepare_eviction(frame, &self.interests) {
            return false;
        }
        let ghost forgotten = *self;
        proof {
            if before.miss.protection(frame) is Some {
                before.miss.lemma_protection(frame);
                let at = before.miss.protection(frame)->0.slot.0 as int;
                assert forall|f: ReadFrameIdx|
                    f.0 < before.miss.capacity() && #[trigger] forgotten.miss.protection(
                        f,
                    ) is Some implies forgotten.miss.protection(f) == before.miss.protection(f)
                    && before.miss.protection(f)->0.slot.0 != at by {
                    before.miss.lemma_protection(f);
                }
                forgotten.lemma_forget_step(before, at);
                assert forall|i: int| #[trigger]
                    forgotten.miss.is_pending(i) <==> before.miss.is_pending(i) by {
                    if 0 <= i < forgotten.miss.capacity() && i != at {
                        assert(forgotten.miss.entry_at(i) == before.miss.entry_at(i));
                    }
                }
                assert forall|i: int| #[trigger]
                    forgotten.miss.is_pending(i) implies forgotten.miss.entry_at(i)
                    == before.miss.entry_at(i) by {
                    assert(i != at);
                }
            }
        }
        self.end_speculation(frame, Terminal::Evicted);
        let ghost ended = *self;
        proof {
            ended.lemma_facts();
            ended.residency.lemma_facts();
            assert(ended.residency.frames.residency(frame) is Resident);
        }
        let page: PageId = self.residency.frames.exact_page(frame);
        let _frame = self.residency.evict(page);
        proof {
            self.lemma_unmapped(ended, frame, page);
        }
        true
    }

    /// Evicting an unprotected frame keeps the cache in order.
    proof fn lemma_unmapped(self, before: Cache, frame: ReadFrameIdx, page: PageId)
        requires
            before.wf(),
            self.same_flow(before),
            self.clock == before.clock,
            self.residency.wf(),
            self.residency.evicted(before.residency, page),
            before.residency.table@[page] == frame,
            before.miss.protection(frame) is None,
            before.prefetch.entry_of(frame) is None,
        ensures
            self.wf(),
    {
        let frames = self.residency.frames;
        let old_frames = before.residency.frames;
        before.lemma_facts();
        assert forall|f: ReadFrameIdx| frames.has(f) && f != frame implies #[trigger] frames.residency(
            f,
        ) == old_frames.residency(f) && frames.generation(f) == old_frames.generation(f)
            && frames.page(f) == old_frames.page(f) by {
            assert(frames.word(f) == old_frames.word(f));
            assert(frames.page(f) == old_frames.page(f));
        }
        assert forall|f: ReadFrameIdx| #[trigger] self.free@.contains(f) implies frames.has(f)
            && frames.residency(f) is Free && !self.prefetch.reserved().contains(f) by {
            assert(before.free@.contains(f));
            assert(f != frame);
        }
        assert forall|f: ReadFrameIdx| #[trigger]
            self.prefetch.reserved().contains(f) implies frames.has(f) && frames.residency(
            f,
        ) is Free by {
            assert(before.prefetch.reserved().contains(f));
            assert(f != frame);
        }
        assert forall|i: int| #[trigger] self.miss.is_pending(i) implies flight_at(
            frames,
            self.miss.entry_at(i)->0,
        ) by {
            assert(flight_at(old_frames, before.miss.entry_at(i)->0));
            assert(self.miss.entry_at(i)->0.frame != frame);
            assert(frames.residency(self.miss.entry_at(i)->0.frame) is InFlight);
        }
        assert forall|f: ReadFrameIdx| frames.has(f) implies write_at(
            frames,
            f,
            #[trigger] self.writes@[f.0 as int],
        ) by {
            assert(write_at(old_frames, f, before.writes@[f.0 as int]));
            if f != frame {
                assert(frames.residency(f) == old_frames.residency(f));
            }
        }
        assert forall|f: ReadFrameIdx|
            frames.has(f) && #[trigger] frames.residency(
                f,
            ) is Resident implies self.residency.table@.contains_key(frames.page(f)->0)
            && self.residency.table@[frames.page(f)->0] == f by {
            assert(f != frame);
            assert(old_frames.residency(f) is Resident);
            assert(frames.page(f) == old_frames.page(f));
        }
        assert forall|f: ReadFrameIdx|
            f.0 < self.miss.capacity() && #[trigger] self.miss.protection(f) is Some implies ({
            let page = self.miss.entry_at(self.miss.protection(f)->0.slot.0 as int)->0.page;
            self.residency.table@.contains_key(page) && self.residency.table@[page] == f
        }) by {
            assert(f != frame);
            assert(before.miss.protection(f) is Some);
        }
        assert forall|f: ReadFrameIdx| frames.has(f) implies filed_at(
            frames,
            f,
            #[trigger] self.frame_pages.at(f.0 as int),
        ) by {
            assert(filed_at(old_frames, f, before.frame_pages.at(f.0 as int)));
            if f != frame {
                assert(frames.residency(f) == old_frames.residency(f));
            }
        }
        assert forall|f: ReadFrameIdx|
            frames.has(f) && #[trigger] self.prefetch.entry_of(f) is Some implies (
        frames.residency(f) is InFlight || frames.residency(f) is Resident) && frames.page(f)
            == Some(self.prefetch.entry_of(f)->0.page) by {
            assert(before.prefetch.entry_of(f) is Some);
            assert(frames.residency(f) == old_frames.residency(f));
        }
        assert forall|f: ReadFrameIdx|
            self.residency.has(f) implies #[trigger] self.residency.frames.generation(f)
            <= self.wear by {
            assert(old_frames.generation(f) <= before.wear);
            if f != frame {
                assert(frames.residency(f) == old_frames.residency(f));
            }
        }
    }

    /// Reclaimed frames that were handed back keep the cache in order.
    proof fn lemma_returned(self, before: Cache, freed: Seq<ReadFrameIdx>)
        requires
            before.wf(),
            self.clock == before.clock,
            self.miss == before.miss,
            self.interests == before.interests,
            self.writes == before.writes,
            self.prefetch == before.prefetch,
            self.reads_in_flight == before.reads_in_flight,
            before.wear <= self.wear <= WEAR_MAX,
            self.residency.wf(),
            self.residency.table == before.residency.table,
            self.residency.readers@.len() == before.residency.readers@.len(),
            self.residency.epoch <= self.wear,
            self.residency.retention.tickets() <= self.wear,
            self.residency.frames.same_shape(before.residency.frames),
            freed.no_duplicates(),
            forall|k: int|
                0 <= k < freed.len() ==> before.residency.has(#[trigger] freed[k])
                    && before.residency.frames.residency(freed[k]) is Evicting,
            forall|f: ReadFrameIdx|
                before.residency.has(f) ==> #[trigger] self.residency.frames.residency(f) == (
                if freed.contains(f) {
                    FrameState::Free
                } else {
                    before.residency.frames.residency(f)
                }),
            forall|f: ReadFrameIdx|
                before.residency.has(f) ==> #[trigger] self.residency.frames.generation(f)
                    == before.residency.frames.generation(f),
            forall|f: ReadFrameIdx|
                before.residency.has(f) ==> #[trigger] self.residency.frames.page(f)
                    == before.residency.frames.page(f),
            self.free.wf(),
            self.free.room() == before.free.room(),
            self.free@ == before.free@ + freed,
            self.frame_pages.wf(),
            self.frame_pages.capacity() == before.frame_pages.capacity(),
            self.frame_pages.file_capacity() == before.frame_pages.file_capacity(),
            forall|f: ReadFrameIdx|
                before.residency.has(f) ==> #[trigger] self.frame_pages.at(f.0 as int) == (
                if freed.contains(f) {
                    None
                } else {
                    before.frame_pages.at(f.0 as int)
                }),
        ensures
            self.wf(),
    {
        let frames = self.residency.frames;
        let old_frames = before.residency.frames;
        before.lemma_facts();
        assert forall|f: ReadFrameIdx| #[trigger] freed.contains(f) implies before.residency.has(f)
            && old_frames.residency(f) is Evicting by {
            let k = choose|k: int| 0 <= k < freed.len() && freed[k] == f;
            assert(before.residency.has(freed[k]));
        }
        lemma_spare_returned(old_frames, frames, before.free@, before.prefetch.reserved(), freed);
        assert forall|i: int| #[trigger] self.miss.is_pending(i) implies flight_at(
            frames,
            self.miss.entry_at(i)->0,
        ) by {
            let entry = before.miss.entry_at(i)->0;
            assert(flight_at(old_frames, entry));
            assert(frames.residency(entry.frame) == old_frames.residency(entry.frame));
            assert(frames.page(entry.frame) == old_frames.page(entry.frame));
        }
        assert forall|f: ReadFrameIdx|
            frames.has(f) && #[trigger] frames.residency(f) is InFlight implies flown(
            self.miss,
            f,
        ) by {
            assert(old_frames.residency(f) is InFlight);
        }
        assert forall|f: ReadFrameIdx| frames.has(f) implies write_at(
            frames,
            f,
            #[trigger] self.writes@[f.0 as int],
        ) by {
            assert(write_at(old_frames, f, before.writes@[f.0 as int]));
            assert(frames.residency(f) == frames.residency(f));
        }
        assert forall|f: ReadFrameIdx|
            frames.has(f) && #[trigger] frames.residency(
                f,
            ) is Resident implies self.residency.table@.contains_key(frames.page(f)->0)
            && self.residency.table@[frames.page(f)->0] == f by {
            assert(old_frames.residency(f) is Resident);
            assert(frames.page(f) == old_frames.page(f));
        }
        assert forall|f: ReadFrameIdx| frames.has(f) implies filed_at(
            frames,
            f,
            #[trigger] self.frame_pages.at(f.0 as int),
        ) by {
            assert(filed_at(old_frames, f, before.frame_pages.at(f.0 as int)));
            assert(frames.residency(f) == frames.residency(f));
            assert(frames.page(f) == old_frames.page(f));
        }
        assert forall|f: ReadFrameIdx|
            frames.has(f) && #[trigger] self.prefetch.entry_of(f) is Some implies (
        frames.residency(f) is InFlight || frames.residency(f) is Resident) && frames.page(f)
            == Some(self.prefetch.entry_of(f)->0.page) by {
            assert(before.prefetch.entry_of(f) is Some);
            assert(frames.page(f) == old_frames.page(f));
        }
        assert forall|f: ReadFrameIdx|
            self.residency.has(f) implies #[trigger] self.residency.frames.generation(f)
            <= self.wear by {
            assert(old_frames.generation(f) <= before.wear);
        }
        assert forall|i: int| 0 <= i < self.interests@.len() implies (
        #[trigger] self.interests@[i]).generation <= self.wear by {
            assert(before.interests@[i].generation <= before.wear);
        }
    }

    /// The frames a reclaim pass that takes `taken` queue entries returns.
    pub open spec fn returned(self, taken: int) -> Seq<ReadFrameIdx> {
        self.residency.retention.pending() + self.residency.unretained(taken)
    }

    /// What one reclaim pass does: the epoch moves where every reader permits;
    /// the frames released by their last handle and the evictions that have
    /// matured by then become free.
    pub open spec fn reclaimed(self, other: Cache, taken: int) -> bool {
        &&& self.residency.table == other.residency.table
        &&& self.residency.readers == other.residency.readers
        &&& self.residency.pins == other.residency.pins
        &&& self.residency.epoch == (if crate::pool::epoch::all_permit(
            other.residency.readers@,
            other.residency.epoch,
        ) {
            (other.residency.epoch + 1) as u64
        } else {
            other.residency.epoch
        })
        &&& 0 <= taken <= other.residency.evict_queue@.len()
        &&& forall|k: int|
            0 <= k < taken ==> crate::pool::epoch::matured(
                (#[trigger] other.residency.evict_queue@[k]).1,
                self.residency.epoch,
            )
        &&& forall|k: int|
            taken <= k < other.residency.evict_queue@.len() ==> !crate::pool::epoch::matured(
                (#[trigger] other.residency.evict_queue@[k]).1,
                self.residency.epoch,
            )
        &&& self.residency.evict_queue@ == other.residency.evict_queue@.skip(taken)
        &&& self.free@ == other.free@ + other.returned(taken)
        &&& self.residency.frames.same_shape(other.residency.frames)
        &&& forall|f: ReadFrameIdx|
            other.residency.has(f) ==> #[trigger] self.residency.frames.residency(f) == (
            if other.returned(taken).contains(f) {
                FrameState::Free
            } else {
                other.residency.frames.residency(f)
            })
        &&& forall|f: ReadFrameIdx|
            other.residency.has(f) ==> #[trigger] self.residency.frames.page(f)
                == other.residency.frames.page(f)
        &&& forall|f: ReadFrameIdx|
            other.residency.has(f) ==> #[trigger] self.residency.frames.contents(f)
                == other.residency.frames.contents(f)
        &&& forall|f: ReadFrameIdx|
            other.residency.has(f) ==> #[trigger] self.residency.retention.handles(f)
                == other.residency.retention.handles(f)
        &&& forall|f: ReadFrameIdx|
            other.residency.has(f) ==> #[trigger] self.residency.retention.held(f) == (
            other.residency.retention.handles(f) > 0 && (other.residency.retention.held(f)
                || queued_in(other.residency.evict_queue@.take(taken), f)))
        &&& self.residency.retention.same_retiring(other.residency.retention)
        &&& self.residency.retention.pending() == Seq::<ReadFrameIdx>::empty()
        &&& self.residency.retention.tickets() == other.residency.retention.tickets()
        &&& self.residency.retention.stats() == (RetentionStats {
            occupied_budget: (other.residency.retention.stats().occupied_budget
                - other.residency.retention.pending().len()) as u32,
            ..other.residency.retention_after(taken)
        })
        &&& forall|f: ReadFrameIdx|
            other.residency.has(f) ==> #[trigger] self.frame_pages.at(f.0 as int) == (
            if other.returned(taken).contains(f) {
                None
            } else {
                other.frame_pages.at(f.0 as int)
            })
        &&& forall|o: int|
            0 <= o < other.frame_pages.file_capacity() ==> #[trigger] self.frame_pages.members(o)
                == left_after(other.frame_pages.members(o), other.returned(taken))
        &&& self.clock == other.clock
        &&& self.miss == other.miss
        &&& self.interests == other.interests
        &&& self.writes == other.writes
        &&& self.prefetch == other.prefetch
        &&& self.reads_in_flight == other.reads_in_flight
    }

    /// One reclaim pass. Returns the number of frames that became free.
    #[verifier::rlimit(60)]
    pub fn advance_and_reclaim(&mut self, wait: &mut WaitState) -> (count: u32)
        requires
            old(self).wf(),
            old(self).wear < WEAR_MAX,
        ensures
            final(self).wf(),
            final(self).same_shape(*old(self)),
            final(self).residency.keeps(old(self).residency),
            final(self).wear == old(self).wear + 1,
            exists|taken: int|
                {
                    &&& #[trigger] final(self).reclaimed(*old(self), taken)
                    &&& count == old(self).returned(taken).len()
                },
            *final(wait) == (if old(self).residency.retention.enabled() {
                WaitState { ring_pending: false, ..*old(wait) }
            } else {
                *old(wait)
            }),
    {
        let ghost before = *self;
        proof {
            before.lemma_facts();
            before.residency.lemma_facts();
            before.residency.lemma_keeps_itself();
        }
        let mut released: u32 = 0;
        if !self.residency.retention.is_disabled() {
            let freed: Vec<ReadFrameIdx> = self.residency.drain_releases(wait);
            proof {
                lemma_distinct_with_free(
                    before.residency.frames,
                    before.free@,
                    before.prefetch.reserved(),
                    freed@,
                );
                assert forall|k: int| 0 <= k < freed@.len() implies before.frame_pages.at(
                    (#[trigger] freed@[k]).0 as int,
                ) is Some by {
                    assert(before.residency.has(freed@[k]));
                    assert(filed_at(
                        before.residency.frames,
                        freed@[k],
                        before.frame_pages.at(freed@[k].0 as int),
                    ));
                }
            }
            hand_back(&mut self.free, &mut self.frame_pages, &freed);
            released = freed.len() as u32;
            proof {
                self.lemma_returned(before, freed@);
            }
        } else {
            proof {
                before.residency.retention.lemma_disabled();
                assert(before.free@ + Seq::<ReadFrameIdx>::empty() =~= before.free@);
            }
        }
        let ghost middle = *self;
        proof {
            middle.lemma_facts();
            middle.residency.lemma_facts();
        }
        let _epoch: u64 = self.residency.advance();
        self.wear = self.wear + 1;
        let ghost aged = *self;
        let drained: Drained = self.residency.drain_matured();
        proof {
            lemma_distinct_with_free(
                middle.residency.frames,
                middle.free@,
                middle.prefetch.reserved(),
                drained.freed@,
            );
            assert forall|k: int| 0 <= k < drained.freed@.len() implies middle.frame_pages.at(
                (#[trigger] drained.freed@[k]).0 as int,
            ) is Some by {
                assert(middle.residency.has(drained.freed@[k]));
                assert(filed_at(
                    middle.residency.frames,
                    drained.freed@[k],
                    middle.frame_pages.at(drained.freed@[k].0 as int),
                ));
            }
        }
        hand_back(&mut self.free, &mut self.frame_pages, &drained.freed);
        proof {
            self.lemma_returned(middle, drained.freed@);
            let taken = drained.processed as int;
            aged.residency.lemma_same_unretained(before.residency, taken);
            assert(self.free@ =~= before.free@ + before.returned(taken));
            assert forall|o: int|
                0 <= o < before.frame_pages.file_capacity() implies #[trigger] self.frame_pages.members(
                o,
            ) == left_after(before.frame_pages.members(o), before.returned(taken)) by {
                assert(middle.frame_pages.members(o) == left_after(
                    before.frame_pages.members(o),
                    before.residency.retention.pending(),
                ));
                lemma_left_after_both(
                    before.frame_pages.members(o),
                    before.residency.retention.pending(),
                    drained.freed@,
                );
            }
            assert forall|f: ReadFrameIdx| #[trigger]
                before.returned(taken).contains(f) <==> before.residency.retention.pending().contains(
                    f,
                ) || drained.freed@.contains(f) by {
                let first = before.residency.retention.pending();
                let all = before.returned(taken);
                if first.contains(f) {
                    let k = choose|k: int| 0 <= k < first.len() && first[k] == f;
                    assert(all[k] == f);
                }
                if drained.freed@.contains(f) {
                    let k = choose|k: int| 0 <= k < drained.freed@.len() && drained.freed@[k] == f;
                    assert(all[first.len() + k] == f);
                }
                if all.contains(f) {
                    let k = choose|k: int| 0 <= k < all.len() && all[k] == f;
                    if k < first.len() {
                        assert(first[k] == f);
                    } else {
                        assert(drained.freed@[k - first.len()] == f);
                    }
                }
            }
            assert forall|f: ReadFrameIdx|
                before.residency.has(f) implies #[trigger] self.residency.frames.residency(f) == (
            if before.returned(taken).contains(f) {
                FrameState::Free
            } else {
                before.residency.frames.residency(f)
            }) by {
                assert(middle.residency.frames.residency(f) == (
                if before.residency.retention.pending().contains(f) {
                    FrameState::Free
                } else {
                    before.residency.frames.residency(f)
                }));
            }
            assert forall|f: ReadFrameIdx|
                before.residency.has(f) implies #[trigger] self.residency.frames.page(f)
                == before.residency.frames.page(f) by {
                assert(middle.residency.frames.page(f) == before.residency.frames.page(f));
            }
            assert forall|f: ReadFrameIdx|
                before.residency.has(f) implies #[trigger] self.residency.frames.contents(f)
                == before.residency.frames.contents(f) by {
                assert(middle.residency.frames.contents(f) == before.residency.frames.contents(f));
            }
            assert forall|f: ReadFrameIdx|
                before.residency.has(f) implies #[trigger] self.residency.retention.handles(f)
                == before.residency.retention.handles(f) by {
                assert(middle.residency.retention.handles(f) == before.residency.retention.handles(
                    f,
                ));
            }
            assert forall|s: int|
                0 <= s < self.residency.retention.file_slots() implies #[trigger] self.residency.retention.is_retiring(
                s,
            ) == before.residency.retention.is_retiring(s) by {
                assert(middle.residency.retention.is_retiring(s)
                    == before.residency.retention.is_retiring(s));
            }
            assert(self.reclaimed(before, taken));
            assert forall|f: ReadFrameIdx| #[trigger]
                before.residency.protected(f) implies self.residency.has(f)
                && self.residency.frames.published(f) && self.residency.frames.contents(f)
                == before.residency.frames.contents(f) && self.residency.frames.page(f)
                == before.residency.frames.page(f) by {
                assert(middle.residency.frames.published(f));
                if before.residency.retention.handles(f) > 0 {
                    assert(middle.residency.retention.handles(f) > 0);
                } else {
                    let r = choose|r: int| before.residency.pinned(r, f);
                    assert(middle.residency.pinned(r, f));
                    assert(aged.residency.pinned(r, f));
                }
                assert(middle.residency.protected(f));
                assert(aged.residency.protected(f));
                assert(self.residency.frames.published(f));
            }
            lemma_free_bounded(self.residency.frames, self.free@);
        }
        released + drained.freed.len() as u32
    }

    /// Only reference bits and the hand of the clock differ.
    pub open spec fn swept_from(self, other: Cache) -> bool {
        &&& self.same_flow(other)
        &&& self.residency == other.residency
        &&& self.clock.same_speculation(other.clock)
        &&& self.clock.stores() == other.clock.stores()
    }

    /// The hand of the clock has offered `victims` in turn; nothing else has
    /// changed.
    pub open spec fn offered(self, other: Cache, victims: Seq<ReadFrameIdx>) -> bool {
        &&& self.swept_from(other)
        &&& exists|trace: Seq<Clock>|
            {
                &&& #[trigger] Clock::offers(trace, victims)
                &&& trace[0] == other.clock
                &&& trace.last() == self.clock
            }
    }

    /// The first frame the clock offers that can go is gone. Where no frame
    /// can go, the hand has gone round twice and a step further.
    pub open spec fn victimized(self, other: Cache, evicted: bool) -> bool {
        exists|middle: Cache, victims: Seq<ReadFrameIdx>|
            {
                &&& #[trigger] middle.offered(other, victims)
                &&& 0 < victims.len() <= 2 * other.frame_count() + 1
                &&& forall|k: int|
                    0 <= k < victims.len() - 1 ==> !other.evictable(#[trigger] victims[k])
                &&& other.residency.has(victims.last())
                &&& evicted == other.evictable(victims.last())
                &&& if evicted {
                    self.unmapped(middle, victims.last())
                } else {
                    self == middle && victims.len() == 2 * other.frame_count() + 1
                }
            }
    }

    /// Moving the hand keeps the cache in order.
    proof fn lemma_swept(self, before: Cache)
        requires
            before.wf(),
            self.swept_from(before),
            self.clock.wf(),
        ensures
            self.wf(),
    {
        assert forall|f: ReadFrameIdx| f.0 < self.prefetch.frames() implies (
        #[trigger] self.prefetch.entry_of(f) is Some <==> !(self.clock.speculation(
            f,
        ) is Absent)) by {
            assert(before.prefetch.entry_of(f) is Some <==> !(before.clock.speculation(
                f,
            ) is Absent));
            assert(self.clock.has(f));
        }
        assert forall|f: ReadFrameIdx|
            f.0 < self.prefetch.frames() && #[trigger] self.clock.speculation(
                f,
            ) is Consumed implies self.clock.consumed_frames().contains(f) by {
            assert(self.clock.has(f));
            assert(before.clock.speculation(f) is Consumed
                ==> before.clock.consumed_frames().contains(f));
        }
    }

    /// Evicts the first frame the clock offers that can go. Two rounds of the
    /// hand offer every frame, so one is evicted exactly if any can be.
    #[verifier::rlimit(60)]
    pub fn evict_one_victim(&mut self) -> (evicted: bool)
        requires
            old(self).wf(),
        ensures
            final(self).wf(),
            final(self).same_shape(*old(self)),
            final(self).residency.keeps(old(self).residency),
            final(self).wear == old(self).wear,
            evicted <==> exists|f: ReadFrameIdx|
                old(self).residency.has(f) && #[trigger] old(self).evictable(f),
            final(self).victimized(*old(self), evicted),
    {
        let ghost before = *self;
        let ghost n: int = before.frame_count() as int;
        proof {
            before.lemma_facts();
            before.residency.lemma_keeps_itself();
            before.clock.lemma_hand();
        }
        let count: u32 = self.residency.frames.count();
        let limit: u64 = count as u64 * 2;
        let mut round: u64 = 0;
        let ghost start: int = self.clock.hand_position();
        let ghost mut clear: bool = false;
        let ghost mut tried: int = 0;
        let ghost mut trace: Seq<Clock> = seq![before.clock];
        let ghost mut victims: Seq<ReadFrameIdx> = Seq::empty();
        while round <= limit
            invariant
                Clock::offers(trace, victims),
                trace[0] == before.clock,
                trace.last() == self.clock,
                victims.len() == round,
                forall|k: int|
                    0 <= k < victims.len() ==> !before.evictable(#[trigger] victims[k])
                        && before.residency.has(victims[k]),
                before == *old(self),
                before.wf(),
                self.wf(),
                self.same_shape(before),
                self.swept_from(before),
                self.residency.keeps(before.residency),
                limit == 2 * n,
                n == before.frame_count(),
                0 < n <= 0x4000_0000,
                round <= limit + 1,
                0 <= start < n,
                0 <= self.clock.hand_position() < n,
                self.clock.frame_count() == n,
                0 <= tried <= n,
                !clear ==> {
                    &&& round <= distance(start, self.clock.hand_position(), n)
                    &&& forall|f: ReadFrameIdx|
                        self.clock.has(f) && distance(start, f.0 as int, n) < distance(
                            start,
                            self.clock.hand_position(),
                            n,
                        ) ==> !(#[trigger] self.clock.referenced(f))
                },
                clear ==> {
                    &&& round <= n + tried || tried == n
                    &&& forall|f: ReadFrameIdx|
                        self.clock.has(f) ==> !(#[trigger] self.clock.referenced(f))
                    &&& tried < n ==> distance(start, self.clock.hand_position(), n) == tried
                    &&& forall|f: ReadFrameIdx|
                        self.clock.has(f) && distance(start, f.0 as int, n) < tried ==> !(
                        #[trigger] before.evictable(f))
                },
            decreases limit + 1 - round,
        {
            let ghost middle = *self;
            proof {
                middle.lemma_facts();
            }
            let victim: ReadFrameIdx = self.clock.evict_victim();
            let ghost swept = *self;
            proof {
                swept.lemma_swept(before);
                swept.residency.lemma_facts();
                swept.clock.lemma_hand();
                let longer = trace.push(swept.clock);
                let more = victims.push(victim);
                assert forall|k: int| 0 <= k < more.len() implies (#[trigger] longer[k + 1]).swept(
                    longer[k],
                    more[k],
                ) by {
                    if k < victims.len() {
                        assert(longer[k + 1] == trace[k + 1]);
                        assert(longer[k] == trace[k]);
                    }
                }
                trace = longer;
                victims = more;
                assert(Clock::offers(trace, victims));
                assert(swept.offered(before, victims));
            }
            if self.try_evict(victim) {
                proof {
                    assert(before.evictable(victim));
                    assert(swept.swept_from(before));
                    assert(self.unmapped(swept, victim));
                    assert(victims.last() == victim);
                    assert(self.victimized(before, true));
                }
                return true;
            }
            proof {
                assert(!before.evictable(victim));
                let hand = middle.clock.hand_position();
                let now = self.clock.hand_position();
                let step = distance(hand, victim.0 as int, n);
                if clear {
                    if tried < n {
                        assert(middle.clock.has(victim));
                        assert(!middle.clock.referenced(victim));
                        assert(step == 0) by {
                            if step > 0 {
                                assert(middle.clock.has(ReadFrameIdx(hand as u32)));
                                assert(middle.clock.referenced(ReadFrameIdx(hand as u32)));
                            }
                        }
                        assert(victim.0 == hand);
                        assert forall|f: ReadFrameIdx|
                            self.clock.has(f) && distance(start, f.0 as int, n) < tried
                                + 1 implies !(#[trigger] before.evictable(f)) by {
                            if distance(start, f.0 as int, n) == tried {
                                assert(f.0 == hand);
                            }
                        }
                        tried = tried + 1;
                    }
                } else {
                    let arc = distance(start, hand, n);
                    if middle.clock.referenced(victim) || arc + step + 1 >= n {
                        assert forall|f: ReadFrameIdx| self.clock.has(f) implies !(
                        #[trigger] self.clock.referenced(f)) by {
                            if !middle.clock.referenced(victim) {
                                if distance(start, f.0 as int, n) < arc {
                                    assert(!middle.clock.referenced(f));
                                } else {
                                    assert(distance(hand, f.0 as int, n) == distance(
                                        start,
                                        f.0 as int,
                                        n,
                                    ) - arc);
                                    if distance(hand, f.0 as int, n) == step {
                                        assert(f.0 == victim.0);
                                    }
                                }
                            }
                        }
                        clear = true;
                        start = now;
                        tried = 0;
                        assert(distance(start, now, n) == 0);
                    } else {
                        assert(now == victim.0 + 1 || now == 0);
                        assert(distance(start, now, n) == arc + step + 1);
                        assert forall|f: ReadFrameIdx|
                            self.clock.has(f) && distance(start, f.0 as int, n) < distance(
                                start,
                                now,
                                n,
                            ) implies !(#[trigger] self.clock.referenced(f)) by {
                            if distance(start, f.0 as int, n) < arc {
                                assert(!middle.clock.referenced(f));
                            } else {
                                assert(distance(hand, f.0 as int, n) == distance(
                                    start,
                                    f.0 as int,
                                    n,
                                ) - arc);
                                if distance(hand, f.0 as int, n) == step {
                                    assert(f.0 == victim.0);
                                }
                            }
                        }
                    }
                }
            }
            round = round + 1;
        }
        proof {
            assert(clear) by {
                if !clear {
                    assert(distance(start, self.clock.hand_position(), n) < n);
                }
            }
            assert(tried == n);
            assert forall|f: ReadFrameIdx| before.residency.has(f) implies !(
            #[trigger] before.evictable(f)) by {
                assert(self.clock.has(f));
                assert(distance(start, f.0 as int, n) < n);
            }
            assert(self.offered(before, victims));
            assert(!before.evictable(victims.last()));
            assert(self.victimized(before, false));
        }
        false
    }

    /// The caches of `trace` come one after the other as the frames of `list`
    /// are evicted.
    pub open spec fn evictions(trace: Seq<Cache>, list: Seq<ReadFrameIdx>) -> bool {
        &&& trace.len() == list.len() + 1
        &&& forall|k: int| 0 <= k < trace.len() ==> (#[trigger] trace[k]).wf()
        &&& forall|k: int|
            0 <= k < list.len() ==> (#[trigger] trace[k + 1]).unmapped(trace[k], list[k])
    }

    /// The frames of `list` were evicted, in this order.
    pub open spec fn evicted_each(self, other: Cache, list: Seq<ReadFrameIdx>) -> bool {
        exists|trace: Seq<Cache>|
            {
                &&& #[trigger] Self::evictions(trace, list)
                &&& trace[0] == other
                &&& trace.last() == self
            }
    }

    /// One eviction after others.
    proof fn lemma_evicted_one_more(
        self,
        middle: Cache,
        start: Cache,
        list: Seq<ReadFrameIdx>,
        frame: ReadFrameIdx,
    )
        requires
            middle.evicted_each(start, list),
            self.wf(),
            self.unmapped(middle, frame),
        ensures
            self.evicted_each(start, list.push(frame)),
    {
        let trace = choose|trace: Seq<Cache>|
            {
                &&& #[trigger] Self::evictions(trace, list)
                &&& trace[0] == start
                &&& trace.last() == middle
            };
        let longer = trace.push(self);
        assert forall|k: int| 0 <= k < list.len() + 1 implies (
        #[trigger] longer[k + 1]).unmapped(longer[k], list.push(frame)[k]) by {
            if k < list.len() {
                assert(longer[k + 1] == trace[k + 1] && longer[k] == trace[k]);
            }
        }
        assert(Self::evictions(longer, list.push(frame)));
    }

    /// Evictions after evictions.
    proof fn lemma_evicted_both(
        self,
        middle: Cache,
        start: Cache,
        first: Seq<ReadFrameIdx>,
        second: Seq<ReadFrameIdx>,
    )
        requires
            middle.evicted_each(start, first),
            self.evicted_each(middle, second),
        ensures
            self.evicted_each(start, first + second),
    {
        let left = choose|trace: Seq<Cache>|
            {
                &&& #[trigger] Self::evictions(trace, first)
                &&& trace[0] == start
                &&& trace.last() == middle
            };
        let right = choose|trace: Seq<Cache>|
            {
                &&& #[trigger] Self::evictions(trace, second)
                &&& trace[0] == middle
                &&& trace.last() == self
            };
        let both = left + right.skip(1);
        assert forall|k: int| 0 <= k < both.len() implies (#[trigger] both[k]).wf() by {
            if k < left.len() {
                assert(both[k] == left[k]);
            } else {
                assert(both[k] == right[k - left.len() + 1]);
            }
        }
        assert forall|k: int| 0 <= k < (first + second).len() implies (
        #[trigger] both[k + 1]).unmapped(both[k], (first + second)[k]) by {
            if k < first.len() {
                assert(both[k + 1] == left[k + 1] && both[k] == left[k]);
            } else {
                let j = k - first.len();
                assert(both[k + 1] == right[j + 1]);
                assert(both[k] == right[j]);
            }
        }
        assert(both.last() == self);
        assert(Self::evictions(both, first + second));
    }

    /// The frames below `n` that hold pages of `file` and can go, lowest first.
    pub open spec fn leaving(self, file: FileId, n: int) -> Seq<ReadFrameIdx>
        decreases n,
    {
        if n <= 0 {
            Seq::empty()
        } else {
            let earlier = self.leaving(file, n - 1);
            let frame = ReadFrameIdx((n - 1) as u32);
            if self.retirable(file, frame) {
                earlier.push(frame)
            } else {
                earlier
            }
        }
    }

    /// Every frame of `file` that can go, in the order it goes.
    pub open spec fn leavers(self, file: FileId) -> Seq<ReadFrameIdx> {
        self.leaving(file, self.frame_count() as int)
    }

    /// The mapping without the frames in `gone`, which went in the order of
    /// `list`.
    pub open spec fn retired_from(
        self,
        other: Cache,
        list: Seq<ReadFrameIdx>,
        gone: Set<ReadFrameIdx>,
    ) -> bool {
        &&& self.evicted_each(other, list)
        &&& self.free == other.free
        &&& self.frame_pages == other.frame_pages
        &&& self.interests == other.interests
        &&& self.writes == other.writes
        &&& self.reads_in_flight == other.reads_in_flight
        &&& self.wear == other.wear
        &&& self.prefetch.reserved() == other.prefetch.reserved()
        &&& self.residency.readers == other.residency.readers
        &&& self.residency.retention == other.residency.retention
        &&& self.residency.epoch == other.residency.epoch
        &&& self.residency.pins == other.residency.pins
        &&& self.residency.frames.same_shape(other.residency.frames)
        &&& forall|f: ReadFrameIdx|
            other.residency.has(f) ==> #[trigger] self.residency.frames.residency(f) == (
            if gone.contains(f) {
                FrameState::Evicting
            } else {
                other.residency.frames.residency(f)
            })
        &&& forall|f: ReadFrameIdx|
            other.residency.has(f) ==> #[trigger] self.residency.frames.page(f)
                == other.residency.frames.page(f)
        &&& forall|f: ReadFrameIdx|
            other.residency.has(f) ==> #[trigger] self.residency.frames.contents(f)
                == other.residency.frames.contents(f)
        &&& forall|p: PageId| #[trigger]
            self.mapped(p) <==> other.mapped(p) && !gone.contains(other.residency.table@[p])
        &&& forall|p: PageId| #[trigger]
            self.mapped(p) ==> self.residency.table@[p] == other.residency.table@[p]
        &&& forall|i: int| #[trigger] self.miss.is_pending(i) <==> other.miss.is_pending(i)
        &&& forall|i: int| #[trigger]
            self.miss.is_pending(i) ==> self.miss.entry_at(i) == other.miss.entry_at(i)
        &&& self.miss.capacity() == other.miss.capacity()
        &&& forall|f: ReadFrameIdx|
            f.0 < other.miss.capacity() && !gone.contains(f) ==> #[trigger] self.miss.protection(f)
                == other.miss.protection(f)
        &&& forall|i: int|
            0 <= i < other.miss.capacity() ==> #[trigger] self.miss.entry_at(i)
                == other.miss.entry_at(i) || self.miss.entry_at(i) is None && other.miss.reusable(
                other.interests,
                i,
            )
    }

    /// The frames of `file` that can go.
    pub open spec fn retirable(self, file: FileId, f: ReadFrameIdx) -> bool {
        &&& self.residency.has(f)
        &&& self.evictable(f)
        &&& self.residency.frames.page(f) matches Some(page) && page.file == file
    }

    /// Evicts every resident page of `file` that no waiter is owed, lowest frame
    /// first.
    #[verifier::rlimit(60)]
    pub fn retire_file_frames(&mut self, file: FileId)
        requires
            old(self).wf(),
        ensures
            final(self).wf(),
            final(self).same_shape(*old(self)),
            final(self).residency.keeps(old(self).residency),
            final(self).retired_from(
                *old(self),
                old(self).leavers(file),
                Set::new(|f: ReadFrameIdx| old(self).retirable(file, f)),
            ),
    {
        let ghost before = *self;
        proof {
            before.lemma_facts();
            before.residency.lemma_facts();
            before.residency.lemma_keeps_itself();
            assert(Self::evictions(seq![before], Seq::empty()));
        }
        let count: u32 = self.residency.frames.count();
        let ghost mut gone: Set<ReadFrameIdx> = Set::empty();
        let mut index: u32 = 0;
        while index < count
            invariant
                before == *old(self),
                before.wf(),
                self.wf(),
                self.same_shape(before),
                self.residency.keeps(before.residency),
                index <= count,
                count == before.frame_count(),
                self.retired_from(before, before.leaving(file, index as int), gone),
                forall|f: ReadFrameIdx| #[trigger]
                    gone.contains(f) <==> before.retirable(file, f) && f.0 < index,
            decreases count - index,
        {
            let ghost middle = *self;
            let frame: ReadFrameIdx = ReadFrameIdx::new(index);
            proof {
                middle.lemma_facts();
                middle.residency.lemma_facts();
                assert(!gone.contains(frame));
                assert(middle.residency.frames.residency(frame)
                    == before.residency.frames.residency(frame));
                assert(middle.evictable(frame) <==> before.evictable(frame)) by {
                    assert(middle.miss.protection(frame) == before.miss.protection(frame));
                }
            }
            let mut taken: bool = false;
            if self.residency.frames.state(frame) == FrameState::Resident {
                let page: PageId = self.residency.frames.exact_page(frame);
                if page.file == file {
                    taken = self.try_evict(frame);
                }
            }
            proof {
                assert(middle.residency.frames.page(frame) == before.residency.frames.page(frame));
                if taken {
                    assert(before.retirable(file, frame));
                    self.lemma_retired_more(
                        before,
                        middle,
                        before.leaving(file, index as int),
                        gone,
                        frame,
                    );
                    gone = gone.insert(frame);
                } else {
                    assert(!before.retirable(file, frame));
                }
            }
            index = index + 1;
        }
        proof {
            assert(gone =~= Set::new(|f: ReadFrameIdx| before.retirable(file, f)));
        }
    }

    /// One more frame of the file has gone.
    proof fn lemma_retired_more(
        self,
        start: Cache,
        middle: Cache,
        list: Seq<ReadFrameIdx>,
        gone: Set<ReadFrameIdx>,
        frame: ReadFrameIdx,
    )
        requires
            start.wf(),
            middle.wf(),
            self.wf(),
            middle.retired_from(start, list, gone),
            middle.residency.keeps(start.residency),
            self.residency.keeps(middle.residency),
            start.residency.has(frame),
            !gone.contains(frame),
            self.unmapped(middle, frame),
        ensures
            self.retired_from(start, list.push(frame), gone.insert(frame)),
            self.residency.keeps(start.residency),
    {
        self.lemma_evicted_one_more(middle, start, list, frame);
        let more = gone.insert(frame);
        let page = middle.residency.frames.page(frame)->0;
        let frames = self.residency.frames;
        start.lemma_facts();
        middle.lemma_facts();
        middle.residency.lemma_facts();
        assert forall|f: ReadFrameIdx| start.residency.has(f) implies #[trigger] frames.residency(f)
            == (if more.contains(f) {
            FrameState::Evicting
        } else {
            start.residency.frames.residency(f)
        }) by {
            assert(middle.residency.frames.residency(f) == (if gone.contains(f) {
                FrameState::Evicting
            } else {
                start.residency.frames.residency(f)
            }));
            if f != frame {
                assert(frames.word(f) == middle.residency.frames.word(f));
            }
        }
        assert forall|f: ReadFrameIdx| start.residency.has(f) implies #[trigger] frames.page(f)
            == start.residency.frames.page(f) by {
            assert(middle.residency.frames.page(f) == start.residency.frames.page(f));
        }
        assert forall|f: ReadFrameIdx| start.residency.has(f) implies #[trigger] frames.contents(f)
            == start.residency.frames.contents(f) by {
            assert(middle.residency.frames.contents(f) == start.residency.frames.contents(f));
        }
        assert forall|p: PageId| #[trigger] self.mapped(p) <==> start.mapped(p) && !more.contains(
            start.residency.table@[p],
        ) by {
            assert(middle.mapped(p) <==> start.mapped(p) && !gone.contains(
                start.residency.table@[p],
            ));
            if middle.mapped(p) {
                assert(middle.residency.frames.page(middle.residency.table@[p]) == Some(p));
            }
        }
        assert forall|p: PageId| #[trigger] self.mapped(p) implies self.residency.table@[p]
            == start.residency.table@[p] by {
            assert(middle.mapped(p));
        }
        assert forall|i: int| #[trigger]
            self.miss.is_pending(i) <==> start.miss.is_pending(i) by {
            assert(middle.miss.is_pending(i) <==> start.miss.is_pending(i));
        }
        assert forall|i: int| #[trigger] self.miss.is_pending(i) implies self.miss.entry_at(i)
            == start.miss.entry_at(i) by {
            assert(middle.miss.is_pending(i));
        }
        assert forall|f: ReadFrameIdx|
            f.0 < start.miss.capacity() && !more.contains(f) implies #[trigger] self.miss.protection(
            f,
        ) == start.miss.protection(f) by {
            assert(middle.miss.protection(f) == start.miss.protection(f));
        }
        assert forall|f: ReadFrameIdx| #[trigger] start.residency.protected(f) implies self.residency.has(
            f,
        ) && frames.published(f) && frames.contents(f) == start.residency.frames.contents(f)
            && frames.page(f) == start.residency.frames.page(f) by {
            if start.residency.retention.handles(f) == 0 {
                let r = choose|r: int| start.residency.pinned(r, f);
                assert(middle.residency.pinned(r, f));
            }
            assert(middle.residency.protected(f));
        }
    }

    /// Everything but the clock and the ledger.
    pub open spec fn same_but_ledger(self, other: Cache) -> bool {
        &&& self.residency == other.residency
        &&& self.free == other.free
        &&& self.frame_pages == other.frame_pages
        &&& self.miss == other.miss
        &&& self.interests == other.interests
        &&& self.writes == other.writes
        &&& self.reads_in_flight == other.reads_in_flight
    }

    /// Ledger bookkeeping that keeps the reserve and drops entries at most
    /// keeps the cache in order.
    proof fn lemma_ledger_step(self, before: Cache)
        requires
            before.wf(),
            self.same_but_ledger(before),
            before.wear <= self.wear <= WEAR_MAX,
            self.clock.wf(),
            self.clock.frame_count() == before.clock.frame_count(),
            self.prefetch.wf(),
            self.prefetch.linked(self.clock),
            self.prefetch.frames() == before.prefetch.frames(),
            self.prefetch.strain() <= self.wear,
            self.prefetch.reserved() == before.prefetch.reserved(),
            forall|f: ReadFrameIdx|
                f.0 < before.prefetch.frames() && #[trigger] self.prefetch.entry_of(f) is Some
                    ==> before.prefetch.entry_of(f) is Some && self.prefetch.entry_of(f)->0.page
                    == before.prefetch.entry_of(f)->0.page,
        ensures
            self.wf(),
    {
        before.lemma_facts();
        assert forall|f: ReadFrameIdx|
            self.residency.frames.has(f) && #[trigger] self.prefetch.entry_of(f) is Some implies (
        self.residency.frames.residency(f) is InFlight || self.residency.frames.residency(
            f,
        ) is Resident) && self.residency.frames.page(f) == Some(self.prefetch.entry_of(f)->0.page) by {
            assert(before.prefetch.entry_of(f) is Some);
        }
        assert forall|f: ReadFrameIdx|
            self.residency.has(f) implies #[trigger] self.residency.frames.generation(f)
            <= self.wear by {
            assert(before.residency.frames.generation(f) <= before.wear);
        }
        assert forall|i: int| 0 <= i < self.interests@.len() implies (
        #[trigger] self.interests@[i]).generation <= self.wear by {
            assert(before.interests@[i].generation <= before.wear);
        }
    }

    /// Returns every consumed credit and takes in all feedback.
    pub fn reconcile(&mut self)
        requires
            old(self).wf(),
            old(self).wear < WEAR_MAX,
        ensures
            final(self).wf(),
            final(self).same_shape(*old(self)),
            final(self).same_but_ledger(*old(self)),
            final(self).wear == old(self).wear,
            final(self).prefetch.reconciled(old(self).prefetch, old(self).clock, final(self).clock),
    {
        let ghost before = *self;
        proof {
            before.lemma_facts();
        }
        self.prefetch.reconcile(&mut self.clock);
        proof {
            self.lemma_ledger_step(before);
        }
    }

    /// Takes in queued feedback before anything relies on the patterns.
    pub fn reconcile_feedback(&mut self)
        requires
            old(self).wf(),
            old(self).wear < WEAR_MAX,
        ensures
            final(self).wf(),
            final(self).same_shape(*old(self)),
            final(self).same_but_ledger(*old(self)),
            final(self).wear == old(self).wear,
            final(self).prefetch.queued_feedback().len() == 0,
            old(self).prefetch.queued_feedback().len() == 0 ==> *final(self) == *old(self),
            old(self).prefetch.queued_feedback().len() > 0 ==> final(self).prefetch.reconciled(
                old(self).prefetch,
                old(self).clock,
                final(self).clock,
            ),
    {
        let ghost before = *self;
        proof {
            before.lemma_facts();
        }
        self.prefetch.reconcile_feedback(&mut self.clock);
        proof {
            if before.prefetch.queued_feedback().len() > 0 {
                self.lemma_ledger_step(before);
            }
        }
    }

    /// Takes in a cold demand of `page` by `reader`.
    pub fn observe(&mut self, reader: u32, page: PageId)
        requires
            old(self).wf(),
            old(self).wear < WEAR_MAX,
        ensures
            final(self).wf(),
            final(self).same_shape(*old(self)),
            final(self).same_but_ledger(*old(self)),
            final(self).wear == old(self).wear + 1,
            final(self).clock.same_references(old(self).clock),
            final(self).prefetch.reserved() == old(self).prefetch.reserved(),
            exists|calm: Prefetch|
                {
                    &&& #[trigger] calm.caught_up(
                        old(self).prefetch,
                        old(self).clock,
                        final(self).clock,
                    )
                    &&& final(self).prefetch.trained(calm, reader, page)
                },
    {
        let ghost before = *self;
        proof {
            before.lemma_facts();
        }
        self.prefetch.observe(&mut self.clock, reader, page);
        self.wear = self.wear + 1;
        proof {
            let calm = choose|calm: Prefetch|
                {
                    &&& calm.wf()
                    &&& #[trigger] calm.caught_up(before.prefetch, before.clock, self.clock)
                    &&& self.prefetch.trained(calm, reader, page)
                };
            assert forall|f: ReadFrameIdx|
                f.0 < before.prefetch.frames() && #[trigger] self.prefetch.entry_of(
                    f,
                ) is Some implies before.prefetch.entry_of(f) is Some && self.prefetch.entry_of(
                f,
            )->0.page == before.prefetch.entry_of(f)->0.page by {
                assert(self.prefetch.entry_of(f) == calm.entry_of(f));
            }
            self.lemma_ledger_step(before);
        }
    }

    /// Everything a ledger setting leaves alone.
    pub open spec fn same_accounts(self, other: Cache) -> bool {
        &&& self.same_but_ledger(other)
        &&& self.clock == other.clock
        &&& self.prefetch.same_records(other.prefetch)
        &&& self.wear == other.wear
    }

    /// Ledger settings that leave entries and wear alone keep the cache in
    /// order.
    proof fn lemma_settings_step(self, before: Cache)
        requires
            before.wf(),
            self.same_but_ledger(before),
            self.clock == before.clock,
            before.wear <= self.wear <= WEAR_MAX,
            self.prefetch.wf(),
            self.prefetch.frames() == before.prefetch.frames(),
            self.prefetch.reserved() == before.prefetch.reserved(),
            self.prefetch.same_entries(before.prefetch),
            self.prefetch.strain() <= self.wear,
        ensures
            self.wf(),
    {
        before.lemma_facts();
        assert forall|f: ReadFrameIdx| f.0 < self.prefetch.frames() implies (
        #[trigger] self.prefetch.entry_of(f) is Some <==> !(self.clock.speculation(
            f,
        ) is Absent)) by {
            assert(self.prefetch.entry_of(f) == before.prefetch.entry_of(f));
        }
        assert forall|f: ReadFrameIdx|
            f.0 < before.prefetch.frames() && #[trigger] self.prefetch.entry_of(
                f,
            ) is Some implies before.prefetch.entry_of(f) is Some && self.prefetch.entry_of(
            f,
        )->0.page == before.prefetch.entry_of(f)->0.page by {
            assert(self.prefetch.entry_of(f) == before.prefetch.entry_of(f));
        }
        self.lemma_ledger_step(before);
    }

    /// Turns the reserve on or off.
    pub fn activate(&mut self, active: bool)
        requires
            old(self).wf(),
        ensures
            final(self).wf(),
            final(self).same_shape(*old(self)),
            final(self).same_accounts(*old(self)),
            final(self).prefetch.stats() == old(self).prefetch.stats(),
            final(self).prefetch.is_active() == active,
            final(self).prefetch.cursor() == old(self).prefetch.cursor(),
    {
        let ghost before = *self;
        proof {
            before.lemma_facts();
        }
        self.prefetch.activate(active);
        proof {
            self.lemma_settings_step(before);
        }
    }

    /// Counts requests that were put off.
    pub fn note_deferred(&mut self, deferred: u64)
        requires
            old(self).wf(),
        ensures
            final(self).wf(),
            final(self).same_shape(*old(self)),
            final(self).same_accounts(*old(self)),
            final(self).prefetch.is_active() == old(self).prefetch.is_active(),
            final(self).prefetch.cursor() == old(self).prefetch.cursor(),
            final(self).prefetch.stats() == (crate::pool::prefetch::PrefetchStats {
                deferred: old(self).prefetch.stats().deferred.wrapping_add(deferred),
                ..old(self).prefetch.stats()
            }),
    {
        let ghost before = *self;
        proof {
            before.lemma_facts();
        }
        self.prefetch.note_deferred(deferred);
        proof {
            self.lemma_settings_step(before);
        }
    }

    /// Counts a read the driver refused.
    pub fn note_refused(&mut self)
        requires
            old(self).wf(),
        ensures
            final(self).wf(),
            final(self).same_shape(*old(self)),
            final(self).same_accounts(*old(self)),
            final(self).prefetch.is_active() == old(self).prefetch.is_active(),
            final(self).prefetch.cursor() == old(self).prefetch.cursor(),
            final(self).prefetch.stats() == (crate::pool::prefetch::PrefetchStats {
                submission_refused: old(self).prefetch.stats().submission_refused.wrapping_add(1),
                ..old(self).prefetch.stats()
            }),
    {
        let ghost before = *self;
        proof {
            before.lemma_facts();
        }
        self.prefetch.note_refused();
        proof {
            self.lemma_settings_step(before);
        }
    }

    /// The next automatic request, reader by reader.
    pub fn next_request(&mut self) -> (request: Option<(PageId, Source)>)
        requires
            old(self).wf(),
            old(self).prefetch.patterns().len() > 0,
        ensures
            final(self).wf(),
            final(self).same_shape(*old(self)),
            final(self).same_accounts(*old(self)),
            final(self).prefetch.stats() == old(self).prefetch.stats(),
            final(self).prefetch.is_active() == old(self).prefetch.is_active(),
            final(self).prefetch.next_turn(old(self).prefetch, request),
    {
        let ghost before = *self;
        proof {
            before.lemma_facts();
        }
        let request = self.prefetch.next_request();
        proof {
            self.lemma_settings_step(before);
        }
        request
    }

    /// Abandons a reader's stream.
    pub fn reset_reader(&mut self, reader: u32)
        requires
            old(self).wf(),
            old(self).wear < WEAR_MAX,
            reader < old(self).prefetch.patterns().len(),
        ensures
            final(self).wf(),
            final(self).same_shape(*old(self)),
            final(self).same_but_ledger(*old(self)),
            final(self).clock == old(self).clock,
            final(self).wear == old(self).wear + 1,
            final(self).prefetch.repatterned(
                old(self).prefetch,
                reader,
                old(self).prefetch.patterns()[reader as int].restarted(
                    crate::pool::prefetch::pattern::PatternState::Empty,
                ),
            ),
    {
        let ghost before = *self;
        proof {
            before.lemma_facts();
        }
        self.prefetch.reset_reader(reader);
        self.wear = self.wear + 1;
        proof {
            self.lemma_settings_step(before);
        }
    }

    /// Moves a reader's stream past the page just requested for it.
    pub fn issued(&mut self, reader: u32, page: PageId)
        requires
            old(self).wf(),
            old(self).wear < WEAR_MAX,
            reader < old(self).prefetch.patterns().len(),
            old(self).prefetch.patterns()[reader as int].state is Streaming,
            page == (PageId {
                file: old(self).prefetch.patterns()[reader as int].state->demand.file,
                granule_idx: old(self).prefetch.patterns()[reader as int].state->next,
            }),
        ensures
            final(self).wf(),
            final(self).same_shape(*old(self)),
            final(self).same_but_ledger(*old(self)),
            final(self).clock == old(self).clock,
            final(self).wear == old(self).wear + 1,
            final(self).prefetch.repatterned(
                old(self).prefetch,
                reader,
                old(self).prefetch.patterns()[reader as int].advanced(),
            ),
    {
        let ghost before = *self;
        proof {
            before.lemma_facts();
        }
        self.prefetch.issued(reader, page);
        self.wear = self.wear + 1;
        proof {
            self.lemma_settings_step(before);
        }
    }

    /// The reserve has taken free frames up to the spare credits.
    pub open spec fn refilled(self, other: Cache) -> bool {
        let wanted = other.prefetch.credits() - other.prefetch.stats().occupied
            - other.prefetch.reserved().len();
        let moved = if !other.prefetch.is_active() || wanted <= 0 {
            0
        } else if wanted <= other.free@.len() {
            wanted
        } else {
            other.free@.len() as int
        };
        let kept = other.free@.len() - moved;
        &&& self.residency == other.residency
        &&& self.clock == other.clock
        &&& self.frame_pages == other.frame_pages
        &&& self.miss == other.miss
        &&& self.interests == other.interests
        &&& self.writes == other.writes
        &&& self.reads_in_flight == other.reads_in_flight
        &&& self.wear == other.wear
        &&& self.prefetch.same_books(other.prefetch)
        &&& self.free@ == other.free@.take(kept)
        &&& self.prefetch.reserved() == other.prefetch.reserved() + other.free@.skip(kept).reverse()
    }

    /// Moves free frames into the reserve, as far as credits are open.
    pub fn fill_reserve(&mut self)
        requires
            old(self).wf(),
        ensures
            final(self).wf(),
            final(self).same_shape(*old(self)),
            final(self).refilled(*old(self)),
    {
        let ghost before = *self;
        proof {
            before.lemma_facts();
        }
        self.prefetch.fill_reserve(&mut self.free);
        proof {
            let kept = self.free@.len() as int;
            lemma_spare_moved(
                before.residency.frames,
                before.free@,
                before.prefetch.reserved(),
                kept,
            );
            assert forall|f: ReadFrameIdx| f.0 < self.prefetch.frames() implies (
            #[trigger] self.prefetch.entry_of(f) is Some <==> !(self.clock.speculation(
                f,
            ) is Absent)) by {
                assert(self.prefetch.entry_of(f) == before.prefetch.entry_of(f));
            }
            assert forall|f: ReadFrameIdx|
                self.residency.frames.has(f) && #[trigger] self.prefetch.entry_of(
                    f,
                ) is Some implies (self.residency.frames.residency(f) is InFlight
                || self.residency.frames.residency(f) is Resident) && self.residency.frames.page(f)
                == Some(self.prefetch.entry_of(f)->0.page) by {
                assert(self.prefetch.entry_of(f) == before.prefetch.entry_of(f));
            }
        }
    }

    /// Only frames leave the cache: the mapping shrinks to the frames that
    /// stay, and no other frame changes.
    pub open spec fn shrunk(self, other: Cache) -> bool {
        &&& self.residency.keeps(other.residency)
        &&& self.reads_in_flight == other.reads_in_flight
        &&& self.residency.readers == other.residency.readers
        &&& self.residency.pins == other.residency.pins
        &&& self.residency.epoch == other.residency.epoch
        &&& self.residency.retention == other.residency.retention
        &&& self.frame_pages == other.frame_pages
        &&& self.interests == other.interests
        &&& self.writes == other.writes
        &&& self.miss.capacity() == other.miss.capacity()
        &&& forall|i: int| #[trigger] self.miss.is_pending(i) <==> other.miss.is_pending(i)
        &&& forall|i: int| #[trigger]
            self.miss.is_pending(i) ==> self.miss.entry_at(i) == other.miss.entry_at(i)
        &&& forall|i: int|
            0 <= i < other.miss.capacity() ==> #[trigger] self.miss.entry_at(i)
                == other.miss.entry_at(i) || self.miss.entry_at(i) is None && other.miss.reusable(
                other.interests,
                i,
            )
        &&& forall|p: PageId| #[trigger] self.mapped(p) ==> other.mapped(p)
            && self.residency.table@[p] == other.residency.table@[p]
        &&& self.residency.frames.same_shape(other.residency.frames)
        &&& forall|f: ReadFrameIdx|
            other.residency.has(f) && #[trigger] self.residency.frames.published(f)
                ==> other.residency.frames.published(f) && self.residency.frames.page(f)
                == other.residency.frames.page(f)
        &&& forall|f: ReadFrameIdx|
            other.residency.has(f) ==> #[trigger] self.residency.frames.contents(f)
                == other.residency.frames.contents(f)
    }

    /// Shrinking again is shrinking.
    pub proof fn lemma_shrunk_again(self, middle: Cache, start: Cache)
        requires
            start.wf(),
            middle.wf(),
            middle.shrunk(start),
            self.shrunk(middle),
            middle.residency.frames.same_shape(start.residency.frames),
        ensures
            self.shrunk(start),
    {
        assert forall|f: ReadFrameIdx| #[trigger] start.residency.protected(f) implies self.residency.has(
            f,
        ) && self.residency.frames.published(f) && self.residency.frames.contents(f)
            == start.residency.frames.contents(f) && self.residency.frames.page(f)
            == start.residency.frames.page(f) by {
            if start.residency.retention.handles(f) == 0 {
                let r = choose|r: int| start.residency.pinned(r, f);
                assert(middle.residency.pinned(r, f));
            }
            assert(middle.residency.protected(f));
        }
        assert forall|i: int| #[trigger]
            self.miss.is_pending(i) <==> start.miss.is_pending(i) by {
            assert(self.miss.is_pending(i) <==> middle.miss.is_pending(i));
        }
        assert forall|i: int| #[trigger] self.miss.is_pending(i) implies self.miss.entry_at(i)
            == start.miss.entry_at(i) by {
            assert(middle.miss.is_pending(i));
        }
        assert forall|p: PageId| #[trigger] self.mapped(p) implies start.mapped(p)
            && self.residency.table@[p] == start.residency.table@[p] by {
            assert(middle.mapped(p));
        }
        assert forall|f: ReadFrameIdx|
            start.residency.has(f) && #[trigger] self.residency.frames.published(
                f,
            ) implies start.residency.frames.published(f) && self.residency.frames.page(f)
            == start.residency.frames.page(f) by {
            assert(middle.residency.frames.published(f));
        }
    }

    pub proof fn lemma_shrunk_itself(self)
        requires
            self.wf(),
        ensures
            self.shrunk(self),
    {
        self.lemma_facts();
        self.residency.lemma_keeps_itself();
    }

    /// An eviction shrinks the mapping.
    pub proof fn lemma_unmapped_shrinks(self, other: Cache, frame: ReadFrameIdx)
        requires
            other.wf(),
            self.residency.keeps(other.residency),
            self.unmapped(other, frame),
        ensures
            self.shrunk(other),
    {
    }

    /// A page is among those to keep.
    fn keeps_page(protected: &Vec<PageId>, page: PageId) -> (kept: bool)
        ensures
            kept == protected@.contains(page),
    {
        let mut i: usize = 0;
        while i < protected.len()
            invariant
                i <= protected@.len(),
                forall|k: int| 0 <= k < i ==> #[trigger] protected@[k] != page,
            decreases protected@.len() - i,
        {
            if protected[i] == page {
                assert(protected@.contains(page));
                return true;
            }
            i = i + 1;
        }
        false
    }

    /// Credit `i` holds a resident page outside `protected` that can go.
    pub open spec fn unused_at(self, protected: Seq<PageId>, i: int) -> bool {
        &&& 0 <= i < self.prefetch.credits()
        &&& self.prefetch.entry_at(i) matches Some(entry) && !protected.contains(entry.page)
            && self.evictable(entry.frame)
    }

    /// Evicts the first unconsumed speculative page outside `protected` that
    /// can go, and returns whether there was one.
    pub fn prefetch_evict_unused(&mut self, protected: &Vec<PageId>) -> (evicted: bool)
        requires
            old(self).wf(),
            old(self).wear < WEAR_MAX,
        ensures
            final(self).wf(),
            final(self).same_shape(*old(self)),
            final(self).wear == old(self).wear,
            final(self).shrunk(*old(self)),
            final(self).free == old(self).free,
            final(self).prefetch.reserved() == old(self).prefetch.reserved(),
            final(self).prefetch.is_active() == old(self).prefetch.is_active(),
            exists|settled: Cache|
                {
                    &&& settled.wf()
                    &&& settled.same_but_ledger(*old(self))
                    &&& #[trigger] settled.prefetch.reconciled(
                        old(self).prefetch,
                        old(self).clock,
                        settled.clock,
                    )
                    &&& !evicted ==> *final(self) == settled && forall|i: int|
                        !(#[trigger] settled.unused_at(protected@, i))
                    &&& evicted ==> exists|i: int|
                        {
                            &&& #[trigger] settled.unused_at(protected@, i)
                            &&& forall|k: int| 0 <= k < i ==> !(#[trigger] settled.unused_at(
                                protected@,
                                k,
                            ))
                            &&& final(self).unmapped(settled, settled.prefetch.entry_at(i)->0.frame)
                        }
                },
    {
        let ghost before = *self;
        self.reconcile();
        let ghost settled = *self;
        proof {
            before.lemma_shrunk_itself();
            settled.lemma_facts();
        }
        let credits: u32 = self.prefetch.capacity();
        let mut i: u32 = 0;
        while i < credits
            invariant
                before == *old(self),
                before.wf(),
                settled.wf(),
                *self == settled,
                settled.same_but_ledger(before),
                settled.wear == before.wear,
                settled.same_shape(before),
                settled.shrunk(before),
                settled.prefetch.reconciled(before.prefetch, before.clock, settled.clock),
                i <= credits,
                credits == settled.prefetch.credits(),
                forall|k: int| 0 <= k < i ==> !(#[trigger] settled.unused_at(protected@, k)),
            decreases credits - i,
        {
            proof {
                settled.lemma_facts();
            }
            if let Some(entry) = self.prefetch.entry(i) {
                if !Self::keeps_page(protected, entry.page) {
                    if self.try_evict(entry.frame) {
                        proof {
                            assert(settled.unused_at(protected@, i as int));
                            self.lemma_unmapped_shrinks(settled, entry.frame);
                            self.lemma_shrunk_again(settled, before);
                        }
                        return true;
                    }
                }
            }
            assert(!settled.unused_at(protected@, i as int));
            i = i + 1;
        }
        false
    }

    /// Credit `i` holds a resident page of an abandoned stream that can go.
    pub open spec fn stale_at(self, i: int) -> bool {
        &&& 0 <= i < self.prefetch.credits()
        &&& self.prefetch.entry_at(i) matches Some(entry) && entry.source is Automatic && !current(
            entry.source,
            self.prefetch.patterns(),
        ) && self.evictable(entry.frame)
    }

    /// Credit `i` has been looked at: a stale page in it is gone.
    pub open spec fn cleaned_at(self, other: Cache, i: int) -> bool {
        if other.stale_at(i) {
            self.unmapped(other, other.prefetch.entry_at(i)->0.frame)
        } else {
            self == other
        }
    }

    /// The credits have been looked at in turn.
    pub open spec fn cleaned_all(trace: Seq<Cache>) -> bool {
        &&& forall|i: int| 0 <= i < trace.len() ==> (#[trigger] trace[i]).wf()
        &&& forall|i: int|
            0 <= i < trace.len() - 1 ==> (#[trigger] trace[i + 1]).cleaned_at(trace[i], i)
    }

    /// The resident pages of abandoned streams that could go are gone.
    pub open spec fn without_stale(self, other: Cache) -> bool {
        &&& exists|trace: Seq<Cache>|
            {
                &&& #[trigger] Cache::cleaned_all(trace)
                &&& trace.len() == other.prefetch.credits() + 1
                &&& trace[0] == other
                &&& trace.last() == self
            }
        &&& self.shrunk(other)
        &&& self.free == other.free
        &&& self.prefetch.reserved() == other.prefetch.reserved()
        &&& self.prefetch.is_active() == other.prefetch.is_active()
        &&& self.prefetch.patterns() == other.prefetch.patterns()
        &&& forall|i: int| !(#[trigger] self.stale_at(i))
        &&& forall|i: int|
            0 <= i < other.prefetch.credits() ==> #[trigger] self.prefetch.entry_at(i) == (
            if other.stale_at(i) {
                None
            } else {
                other.prefetch.entry_at(i)
            })
    }

    /// Evicts the speculative pages of abandoned streams, as far as they can
    /// go.
    pub fn prefetch_evict_obsolete(&mut self)
        requires
            old(self).wf(),
        ensures
            final(self).wf(),
            final(self).same_shape(*old(self)),
            final(self).wear == old(self).wear,
            final(self).without_stale(*old(self)),
    {
        let ghost before = *self;
        proof {
            before.lemma_facts();
            before.lemma_shrunk_itself();
        }
        let credits: u32 = self.prefetch.capacity();
        let mut i: u32 = 0;
        let ghost mut trace: Seq<Cache> = seq![before];
        while i < credits
            invariant
                Cache::cleaned_all(trace),
                trace.len() == i + 1,
                trace[0] == before,
                trace.last() == *self,
                before == *old(self),
                before.wf(),
                self.wf(),
                self.same_shape(before),
                self.wear == before.wear,
                self.shrunk(before),
                self.free == before.free,
                self.prefetch.reserved() == before.prefetch.reserved(),
                self.prefetch.is_active() == before.prefetch.is_active(),
                credits == self.prefetch.credits(),
                i <= credits,
                self.prefetch.patterns() == before.prefetch.patterns(),
                forall|k: int|
                    0 <= k < credits ==> #[trigger] self.prefetch.entry_at(k) == (if k < i
                        && before.stale_at(k) {
                        None
                    } else {
                        before.prefetch.entry_at(k)
                    }),
                forall|k: int| 0 <= k < i ==> !(#[trigger] self.stale_at(k)),
                forall|k: int| i <= k < credits ==> (#[trigger] self.stale_at(k)
                    == before.stale_at(k)),
            decreases credits - i,
        {
            let ghost middle = *self;
            proof {
                middle.lemma_facts();
            }
            let mut gone: bool = false;
            if let Some(entry) = self.prefetch.entry(i) {
                if self.prefetch.obsolete(entry) {
                    gone = self.try_evict(entry.frame);
                }
            }
            proof {
                assert(gone == middle.stale_at(i as int));
                let longer = trace.push(*self);
                assert forall|k: int| 0 <= k < longer.len() - 1 implies (
                #[trigger] longer[k + 1]).cleaned_at(longer[k], k) by {
                    if k < i {
                        assert(longer[k + 1] == trace[k + 1]);
                        assert(longer[k] == trace[k]);
                    }
                }
                trace = longer;
                if gone {
                    let entry = middle.prefetch.entry_at(i as int)->0;
                    self.lemma_unmapped_shrinks(middle, entry.frame);
                    self.lemma_shrunk_again(middle, before);
                    middle.prefetch.lemma_entry(i as int);
                    assert forall|k: int| 0 <= k < credits && k != i implies (
                    #[trigger] self.stale_at(k) == middle.stale_at(k)) && self.prefetch.entry_at(k)
                        == middle.prefetch.entry_at(k) by {
                        if middle.prefetch.entry_at(k) is Some {
                            middle.prefetch.lemma_entry(k);
                            let other = middle.prefetch.entry_at(k)->0.frame;
                            assert(other != entry.frame) by {
                                middle.prefetch.lemma_distinct_entries(k, i as int);
                            }
                            assert(self.residency.frames.word(other)
                                == middle.residency.frames.word(other));
                            assert(self.miss.protection(other) == middle.miss.protection(other));
                        }
                    }
                }
                assert(before.stale_at(i as int) == middle.stale_at(i as int));
                assert forall|k: int| 0 <= k < credits implies #[trigger] self.prefetch.entry_at(k)
                    == (if k <= i && before.stale_at(k) {
                    None
                } else {
                    before.prefetch.entry_at(k)
                }) by {
                    if gone && k != i {
                        assert(self.stale_at(k) == middle.stale_at(k));
                    }
                }
            }
            i = i + 1;
        }
    }

    /// What the reserve lacks beyond the frames already evicting.
    pub open spec fn shortfall(self) -> int {
        let owed = self.prefetch.credits() - self.prefetch.stats().occupied
            - self.prefetch.reserved().len() - self.residency.evict_queue@.len();
        if owed > 0 {
            owed
        } else {
            0
        }
    }

    /// Each pool of the trace is the one before it without the frame the clock
    /// picked.
    pub open spec fn evicted_in_turn(trace: Seq<Cache>) -> bool {
        &&& forall|i: int| 0 <= i < trace.len() ==> (#[trigger] trace[i]).wf()
        &&& forall|i: int|
            0 <= i < trace.len() - 1 ==> (#[trigger] trace[i + 1]).victimized(trace[i], true)
    }

    /// The reserve is full, or frames to fill it are on their way: the reserve
    /// was refilled, and what it lacks was evicted, unless no frame could go.
    pub open spec fn topped_up(self, other: Cache) -> bool {
        &&& self.shrunk(other)
        &&& self.prefetch.is_active() == other.prefetch.is_active()
        &&& if !other.prefetch.is_active() {
            self == other
        } else {
            exists|trace: Seq<Cache>|
                {
                    &&& #[trigger] Cache::evicted_in_turn(trace)
                    &&& 1 <= trace.len() <= trace[0].shortfall() + 1
                    &&& trace[0].refilled(other)
                    &&& if trace.len() == trace[0].shortfall() + 1 {
                        self == trace.last()
                    } else {
                        self.victimized(trace.last(), false)
                    }
                }
        }
    }

    /// Fills the reserve, and evicts toward the credits still uncovered.
    pub fn prefetch_top_up(&mut self)
        requires
            old(self).wf(),
        ensures
            final(self).wf(),
            final(self).same_shape(*old(self)),
            final(self).wear == old(self).wear,
            final(self).topped_up(*old(self)),
            old(self).prefetch.is_active() ==> final(self).prefetch.reserved().len()
                + final(self).residency.evict_queue@.len() + old(self).prefetch.stats().occupied
                >= old(self).prefetch.credits() || forall|f: ReadFrameIdx|
                final(self).residency.has(f) ==> !(#[trigger] final(self).evictable(f)),
    {
        let ghost before = *self;
        proof {
            before.lemma_facts();
            before.residency.lemma_facts();
            before.lemma_shrunk_itself();
        }
        if !self.prefetch.active() {
            return;
        }
        self.fill_reserve();
        let ghost filled = *self;
        proof {
            filled.lemma_facts();
            filled.residency.lemma_facts();
            filled.prefetch.lemma_books();
        }
        let available: u32 = self.prefetch.available();
        let reserve: u32 = self.prefetch.reserve_len();
        let queued: u32 = self.residency.evict_queue.len();
        let open: u32 = if available > reserve {
            available - reserve
        } else {
            0
        };
        let deficit: u32 = if open > queued {
            open - queued
        } else {
            0
        };
        let mut i: u32 = 0;
        let ghost mut trace: Seq<Cache> = seq![filled];
        while i < deficit
            invariant
                before == *old(self),
                before.wf(),
                filled.wf(),
                filled.refilled(before),
                self.wf(),
                self.same_shape(before),
                self.wear == before.wear,
                self.shrunk(before),
                before.prefetch.is_active(),
                self.prefetch.is_active(),
                i <= deficit,
                deficit == filled.shortfall(),
                Cache::evicted_in_turn(trace),
                trace.len() == i + 1,
                trace[0] == filled,
                trace.last() == *self,
                self.prefetch.reserved() == filled.prefetch.reserved(),
                self.residency.evict_queue@.len() == filled.residency.evict_queue@.len() + i,
            decreases deficit - i,
        {
            let ghost middle = *self;
            let evicted: bool = self.evict_one_victim();
            proof {
                middle.lemma_facts();
                middle.residency.lemma_facts();
                middle.residency.lemma_keeps_itself();
                let (swept, victims) = choose|swept: Cache, victims: Seq<ReadFrameIdx>|
                    {
                        &&& #[trigger] swept.offered(middle, victims)
                        &&& if evicted {
                            self.unmapped(swept, victims.last())
                        } else {
                            *self == swept
                        }
                    };
                assert(swept.residency == middle.residency);
                assert(self.shrunk(middle));
                self.lemma_shrunk_again(middle, before);
                if !evicted {
                    assert forall|f: ReadFrameIdx| self.residency.has(f) implies !(
                    #[trigger] self.evictable(f)) by {
                        assert(!middle.evictable(f));
                    }
                }
            }
            if !evicted {
                return;
            }
            proof {
                let longer = trace.push(*self);
                assert forall|k: int| 0 <= k < longer.len() - 1 implies (
                #[trigger] longer[k + 1]).victimized(longer[k], true) by {
                    if k < i {
                        assert(longer[k + 1] == trace[k + 1]);
                        assert(longer[k] == trace[k]);
                    }
                }
                trace = longer;
            }
            i = i + 1;
        }
    }

    /// A published frame holds a page of `file`.
    pub open spec fn holds_frames(self, file: FileId) -> bool {
        exists|f: ReadFrameIdx| #[trigger] self.frame_of(file, f)
    }

    /// Frame `f` is published with a page of `file`.
    pub open spec fn frame_of(self, file: FileId, f: ReadFrameIdx) -> bool {
        &&& self.residency.has(f)
        &&& self.residency.frames.published(f)
        &&& self.residency.frames.page(f)->0.file == file
    }

    /// Whether a published frame holds a page of `file`.
    pub fn file_has_frames(&self, file: FileId) -> (held: bool)
        requires
            self.wf(),
        ensures
            held == self.holds_frames(file),
    {
        proof {
            self.lemma_facts();
            self.residency.lemma_facts();
        }
        let count: u32 = self.residency.frames.count();
        let mut index: u32 = 0;
        while index < count
            invariant
                self.wf(),
                self.residency.wf(),
                self.residency.frames.wf(),
                count == self.residency.frames.frame_count(),
                index <= count,
                forall|f: ReadFrameIdx|
                    f.0 < index ==> !(#[trigger] self.frame_of(file, f)),
            decreases count - index,
        {
            let frame = ReadFrameIdx(index);
            let published: bool = match self.residency.frames.state(frame) {
                FrameState::Resident => true,
                FrameState::Evicting => true,
                _ => false,
            };
            if published {
                proof {
                    self.residency.lemma_facts();
                    self.residency.frames.lemma_published(frame);
                }
                let page: PageId = self.residency.frames.exact_page(frame);
                if page.file == file {
                    proof {
                        assert(self.frame_of(file, frame));
                    }
                    return true;
                }
            }
            index = index + 1;
        }
        false
    }

    /// Two sweeps, of the frames in `first` and then of those in `second`.
    pub proof fn lemma_retired_both(
        self,
        middle: Cache,
        start: Cache,
        early: Seq<ReadFrameIdx>,
        first: Set<ReadFrameIdx>,
        late: Seq<ReadFrameIdx>,
        second: Set<ReadFrameIdx>,
    )
        requires
            start.wf(),
            middle.wf(),
            middle.retired_from(start, early, first),
            self.retired_from(middle, late, second),
        ensures
            self.retired_from(start, early + late, first.union(second)),
    {
        self.lemma_evicted_both(middle, start, early, late);
        start.lemma_facts();
        middle.lemma_facts();
        let gone = first.union(second);
        assert forall|f: ReadFrameIdx|
            start.residency.has(f) implies #[trigger] self.residency.frames.residency(f) == (
        if gone.contains(f) {
            FrameState::Evicting
        } else {
            start.residency.frames.residency(f)
        }) by {
            assert(middle.residency.has(f));
            assert(middle.residency.frames.residency(f) == (if first.contains(f) {
                FrameState::Evicting
            } else {
                start.residency.frames.residency(f)
            }));
        }
        assert forall|f: ReadFrameIdx|
            start.residency.has(f) implies #[trigger] self.residency.frames.page(f)
            == start.residency.frames.page(f) by {
            assert(middle.residency.has(f));
            assert(middle.residency.frames.page(f) == start.residency.frames.page(f));
        }
        assert forall|f: ReadFrameIdx|
            start.residency.has(f) implies #[trigger] self.residency.frames.contents(f)
            == start.residency.frames.contents(f) by {
            assert(middle.residency.has(f));
            assert(middle.residency.frames.contents(f) == start.residency.frames.contents(f));
        }
        assert forall|p: PageId| #[trigger]
            self.mapped(p) <==> start.mapped(p) && !gone.contains(start.residency.table@[p]) by {
            assert(self.mapped(p) <==> middle.mapped(p) && !second.contains(
                middle.residency.table@[p],
            ));
            assert(middle.mapped(p) <==> start.mapped(p) && !first.contains(
                start.residency.table@[p],
            ));
        }
        assert forall|p: PageId| #[trigger] self.mapped(p) implies self.residency.table@[p]
            == start.residency.table@[p] by {
            assert(middle.mapped(p));
        }
        assert forall|i: int| #[trigger]
            self.miss.is_pending(i) <==> start.miss.is_pending(i) by {
            assert(self.miss.is_pending(i) <==> middle.miss.is_pending(i));
        }
        assert forall|i: int| #[trigger] self.miss.is_pending(i) implies self.miss.entry_at(i)
            == start.miss.entry_at(i) by {
            assert(middle.miss.is_pending(i));
        }
        assert forall|f: ReadFrameIdx|
            f.0 < start.miss.capacity() && !gone.contains(
                f,
            ) implies #[trigger] self.miss.protection(f) == start.miss.protection(f) by {
            assert(middle.miss.protection(f) == start.miss.protection(f));
        }
        assert forall|i: int|
            0 <= i < start.miss.capacity() implies #[trigger] self.miss.entry_at(i)
            == start.miss.entry_at(i) || self.miss.entry_at(i) is None && start.miss.reusable(
            start.interests,
            i,
        ) by {
            assert(middle.miss.entry_at(i) == start.miss.entry_at(i) || middle.miss.entry_at(
                i,
            ) is None && start.miss.reusable(start.interests, i));
        }
    }

    /// `page` is resident in `frame`, the former top of the free stack, and
    /// every byte of it is `fill`.
    pub open spec fn installed(self, other: Cache, page: PageId, frame: ReadFrameIdx, fill: u8) -> bool {
        &&& self.free@ == other.free@.drop_last()
        &&& self.frame_pages.gained(
            other.frame_pages,
            frame.0 as int,
            FrameFileSlot(page.file.slot),
        )
        &&& self.miss == other.miss
        &&& self.interests == other.interests
        &&& self.writes == other.writes
        &&& self.prefetch == other.prefetch
        &&& self.reads_in_flight == other.reads_in_flight
        &&& self.clock.touched(other.clock, frame, None)
        &&& self.residency.table@ == other.residency.table@.insert(page, frame)
        &&& self.residency.readers == other.residency.readers
        &&& self.residency.evict_queue == other.residency.evict_queue
        &&& self.residency.retention == other.residency.retention
        &&& self.residency.epoch == other.residency.epoch
        &&& self.residency.pins == other.residency.pins
        &&& self.residency.frames.same_except(other.residency.frames, frame)
        &&& self.residency.frames.residency(frame) is Resident
        &&& self.residency.frames.generation(frame) == other.residency.frames.generation(frame) + 1
        &&& self.residency.frames.page(frame) == Some(page)
        &&& self.residency.frames.contents(frame) == Seq::new(
            other.granule_bytes(),
            |j: int| fill,
        )
    }

    /// Makes `page` resident without a read, in the frame on top of the free
    /// stack and filled with one byte.
    #[verifier::rlimit(40)]
    pub fn install(&mut self, page: PageId, fill: u8) -> (frame: Option<ReadFrameIdx>)
        requires
            old(self).wf(),
            !old(self).mapped(page),
            !old(self).pending(page),
            page.file.slot < old(self).frame_pages.file_capacity(),
            old(self).wear < WEAR_MAX,
        ensures
            final(self).wf(),
            final(self).same_shape(*old(self)),
            final(self).residency.keeps(old(self).residency),
            frame is Some <==> old(self).free@.len() > 0,
            match frame {
                Some(f) => {
                    &&& f == old(self).free@.last()
                    &&& final(self).wear == old(self).wear + 1
                    &&& final(self).installed(*old(self), page, f, fill)
                },
                None => *final(self) == *old(self),
            },
    {
        let ghost before = *self;
        proof {
            before.lemma_facts();
            before.residency.lemma_facts();
            before.residency.lemma_keeps_itself();
        }
        let frame: ReadFrameIdx = match self.free.top() {
            Some(frame) => frame,
            None => {
                return None;
            },
        };
        proof {
            assert(before.free@.contains(frame));
            assert(before.residency.frames.residency(frame) is Free);
            assert(filed_at(before.residency.frames, frame, before.frame_pages.at(frame.0 as int)));
            assert(before.residency.frames.generation(frame) <= before.wear);
        }
        let _ = self.free.pop();
        let token: InFlightFrame = match self.residency.claim(frame, page) {
            Some(token) => token,
            None => {
                return None;
            },
        };
        let ghost claimed = self.residency;
        self.residency.fill(&token, fill);
        let ghost filled = self.residency;
        let _ = self.residency.publish(token);
        self.frame_pages.insert(frame.get() as usize, FrameFileSlot::for_page(page));
        let _stored: bool = self.clock.reference(frame);
        self.wear = self.wear + 1;
        proof {
            filled.lemma_keeps_again(claimed, before.residency);
            self.residency.lemma_keeps_again(filled, before.residency);
            assert(before.prefetch.entry_of(frame) is None);
            self.lemma_installed(before, page, frame, fill);
        }
        Some(frame)
    }

    /// Installing a page keeps the cache in order.
    #[verifier::rlimit(60)]
    #[verifier::spinoff_prover]
    proof fn lemma_installed(self, before: Cache, page: PageId, frame: ReadFrameIdx, fill: u8)
        requires
            before.wf(),
            before.free@.len() > 0,
            frame == before.free@.last(),
            !before.mapped(page),
            !before.pending(page),
            page.file.slot < before.frame_pages.file_capacity(),
            self.installed(before, page, frame, fill),
            self.residency.wf(),
            self.free.wf(),
            self.free.room() == before.free.room(),
            self.frame_pages.wf(),
            self.frame_pages.capacity() == before.frame_pages.capacity(),
            self.frame_pages.file_capacity() == before.frame_pages.file_capacity(),
            self.frame_pages.at(frame.0 as int) == Some(FrameFileSlot(page.file.slot)),
            forall|i: int|
                0 <= i < before.frame_pages.capacity() && i != frame.0
                    ==> #[trigger] self.frame_pages.at(i) == before.frame_pages.at(i),
            self.clock.wf(),
            self.clock.frame_count() == before.clock.frame_count(),
            before.prefetch.entry_of(frame) is None,
            self.wear == before.wear + 1,
            self.wear <= WEAR_MAX,
        ensures
            self.wf(),
    {
        let frames = self.residency.frames;
        let old_frames = before.residency.frames;
        before.lemma_facts();
        before.residency.lemma_facts();
        assert(before.free@.contains(frame));
        assert(before.prefetch.entry_of(frame) is Some <==> !(before.clock.speculation(
            frame,
        ) is Absent));
        assert forall|f: ReadFrameIdx|
            frames.has(f) && f != frame implies #[trigger] frames.residency(f)
            == old_frames.residency(f) && frames.generation(f) == old_frames.generation(f)
            && frames.page(f) == old_frames.page(f) by {
            assert(frames.word(f) == old_frames.word(f));
            assert(frames.page(f) == old_frames.page(f));
        }
        lemma_spare_popped(old_frames, frames, before.free@, before.prefetch.reserved(), frame);
        assert forall|f: ReadFrameIdx| f.0 < self.prefetch.frames() implies (
        #[trigger] self.prefetch.entry_of(f) is Some <==> !(self.clock.speculation(
            f,
        ) is Absent)) by {
            assert(before.prefetch.entry_of(f) is Some <==> !(before.clock.speculation(
                f,
            ) is Absent));
            assert(self.clock.has(f));
        }
        assert forall|f: ReadFrameIdx|
            f.0 < self.prefetch.frames() && #[trigger] self.clock.speculation(
                f,
            ) is Consumed implies self.clock.consumed_frames().contains(f) by {
            assert(self.clock.has(f));
            assert(before.clock.speculation(f) is Consumed
                ==> before.clock.consumed_frames().contains(f));
        }
        assert forall|i: int| #[trigger] self.miss.is_pending(i) implies flight_at(
            frames,
            self.miss.entry_at(i)->0,
        ) by {
            assert(flight_at(old_frames, before.miss.entry_at(i)->0));
            assert(self.miss.entry_at(i)->0.frame != frame);
            assert(frames.residency(self.miss.entry_at(i)->0.frame) is InFlight);
        }
        assert forall|f: ReadFrameIdx|
            frames.has(f) && #[trigger] frames.residency(f) is InFlight implies flown(
            self.miss,
            f,
        ) by {
            assert(f != frame);
            assert(old_frames.residency(f) is InFlight);
        }
        assert forall|f: ReadFrameIdx| frames.has(f) implies write_at(
            frames,
            f,
            #[trigger] self.writes@[f.0 as int],
        ) by {
            assert(write_at(old_frames, f, before.writes@[f.0 as int]));
            if f != frame {
                assert(frames.residency(f) == old_frames.residency(f));
            }
        }
        assert forall|f: ReadFrameIdx|
            frames.has(f) && #[trigger] frames.residency(
                f,
            ) is Resident implies self.residency.table@.contains_key(frames.page(f)->0)
            && self.residency.table@[frames.page(f)->0] == f by {
            if f != frame {
                assert(old_frames.residency(f) is Resident);
                assert(before.residency.table@.contains_key(old_frames.page(f)->0));
            }
        }
        assert forall|i: int| #[trigger]
            self.miss.is_pending(i) implies !self.residency.table@.contains_key(
            self.miss.entry_at(i)->0.page,
        ) by {
            assert(before.miss.is_pending(i));
            if self.miss.entry_at(i)->0.page == page {
                assert(before.pending(page));
            }
        }
        assert forall|f: ReadFrameIdx|
            f.0 < self.miss.capacity() && #[trigger] self.miss.protection(f) is Some implies ({
            let held = self.miss.entry_at(self.miss.protection(f)->0.slot.0 as int)->0.page;
            self.residency.table@.contains_key(held) && self.residency.table@[held] == f
        }) by {
            assert(before.miss.protection(f) is Some);
        }
        assert forall|f: ReadFrameIdx| frames.has(f) implies filed_at(
            frames,
            f,
            #[trigger] self.frame_pages.at(f.0 as int),
        ) by {
            assert(filed_at(old_frames, f, before.frame_pages.at(f.0 as int)));
            if f != frame {
                assert(frames.residency(f) == old_frames.residency(f));
            }
        }
        assert forall|f: ReadFrameIdx|
            frames.has(f) && #[trigger] self.prefetch.entry_of(f) is Some implies (
        frames.residency(f) is InFlight || frames.residency(f) is Resident) && frames.page(f)
            == Some(self.prefetch.entry_of(f)->0.page) by {
            assert(before.prefetch.entry_of(f) is Some);
            assert(f != frame);
            assert(frames.residency(f) == old_frames.residency(f));
        }
        assert forall|f: ReadFrameIdx|
            self.residency.has(f) implies #[trigger] self.residency.frames.generation(f)
            <= self.wear by {
            assert(old_frames.generation(f) <= before.wear);
            if f != frame {
                assert(frames.residency(f) == old_frames.residency(f));
            }
        }
        assert forall|i: int| 0 <= i < self.interests@.len() implies (
        #[trigger] self.interests@[i]).generation <= self.wear by {
            assert(before.interests@[i].generation <= before.wear);
        }
    }
}

} // verus!
