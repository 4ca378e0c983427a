//! A bounded control plane over the frame, reader, retention and file
//! structures: two readers, one file slot and a chosen number of frames, moved
//! one step at a time.
//!
//! A frame's content generation is the byte that fills it, so a page and the
//! bytes behind it can be compared after any sequence of steps.

use crate::driver::FileId;
use crate::pool::config::ResidentLeaseError;
use crate::pool::clock::Clock;
use crate::pool::diagnostics::DiagnosticSlot;
use crate::pool::epoch::{all_permit, matured, FrameGuard, ReaderCtx, ReaderSlot, QUIESCENT};
use crate::pool::files::{Files, PoolFile, PoolFileState, ResidentFileLease};
use crate::pool::frames::{ArenaIds, FrameState, ReadFrameIdx, FRAME_GENERATION_MAX};
use crate::pool::prefetch::ledger::WEAR_MAX;
use crate::pool::release_ring::TICKET_MAX;
use crate::pool::residency::{queued_in, Drained, Residency};
use crate::pool::retention::{RetainRefused, RetainRefusedReason, RetainedFrame, RetentionStats};
use crate::pool::span_model::ReadaheadControl;
use crate::pool::{PageId, ResidentHint, SECTOR_BYTES};
use crate::product::WaitState;
use vstd::prelude::*;

verus! {

/// The transition that ran first in one reclaim pass.
#[derive(Debug, Clone, Copy, PartialEq, Eq, Structural)]
pub enum DrainSource {
    /// A frame released by its last retained handle.
    Release,
    /// A frame whose eviction has matured.
    Matured,
}

/// What one reclaim pass did.
#[derive(Debug, Clone, Copy, PartialEq, Eq, Structural)]
pub struct DrainReport {
    /// Frames freed from the release ring.
    pub released: u32,
    /// Matured evictions taken from the queue, those still retained included.
    pub matured: u32,
    /// Matured evictions whose frame became free.
    pub matured_freed: u32,
    /// The first transition of the pass.
    pub first: Option<DrainSource>,
}

/// A live pin over a published frame of the model.
pub struct Guard {
    inner: FrameGuard,
}

impl Guard {
    pub closed spec fn pin(self) -> FrameGuard {
        self.inner
    }

    /// The content generation of the guarded frame, read from its live bytes.
    pub fn generation(&self, model: &PoolModel) -> (generation: u8)
        requires
            model.wf(),
            model.lends(*self),
        ensures
            generation == model.residency.frames.contents(self.pin().pinned())[0],
    {
        proof {
            model.residency.lemma_facts();
            model.residency.frames.lemma_positive();
            let reader = self.pin().holder() as int;
            assert(model.residency.pins@[reader].count(self.pin().pinned()) > 0);
        }
        model.residency.frames.frame_bytes(self.inner.frame())[0]
    }

    /// Turns the guard into a retained handle; a refusal hands the live guard
    /// back.
    pub fn into_retained(self, model: &mut PoolModel) -> (outcome: Result<
        RetainedFrame,
        RetainRefused,
    >)
        requires
            old(model).wf(),
            old(model).lends(self),
        ensures
            final(model).wf(),
            final(model).beside(*old(model)),
            final(model).clock == old(model).clock,
            final(model).wait == old(model).wait,
            outcome is Ok <==> old(model).residency.retention.admits(self.pin().pinned()) && !old(
                model,
            ).residency.retention.is_retiring(0),
            match outcome {
                Ok(handle) => {
                    &&& handle.kept() == self.pin().pinned()
                    &&& final(model).retains(handle)
                    &&& final(model).residency.retention.retained(
                        old(model).residency.retention,
                        self.pin().pinned(),
                    )
                    &&& final(model).residency.frames == old(model).residency.frames
                    &&& final(model).residency.table == old(model).residency.table
                    &&& final(model).residency.evict_queue == old(model).residency.evict_queue
                    &&& final(model).residency.epoch == old(model).residency.epoch
                    &&& final(model).residency.pins@ == old(model).residency.pins@.update(
                        self.pin().holder() as int,
                        old(model).residency.pins@[self.pin().holder() as int].remove(
                            self.pin().pinned(),
                        ),
                    )
                },
                Err(refused) => {
                    &&& refused.guard == self.pin()
                    &&& refused.reason == (if old(model).residency.retention.admits(
                        self.pin().pinned(),
                    ) {
                        RetainRefusedReason::FileRetiring
                    } else {
                        RetainRefusedReason::Exhausted
                    })
                    &&& final(model).residency.same_but_retention(old(model).residency)
                    &&& final(model).residency.retention.same_frames(
                        old(model).residency.retention,
                    )
                },
            },
    {
        let ghost before = *model;
        proof {
            before.residency.lemma_facts();
            assert(before.residency.pins@[self.pin().holder() as int].count(self.pin().pinned())
                > 0);
        }
        let reader: u32 = self.inner.reader();
        let frame: ReadFrameIdx = self.inner.frame();
        match model.residency.promote(reader, frame, 0) {
            Ok(()) => {
                let ghost kept = *model;
                proof {
                    kept.residency.lemma_facts();
                    assert(kept.residency.retention.has(frame));
                    assert(kept.residency.retention.handles(frame) > 0);
                }
                model.residency.unpin(reader, frame);
                proof {
                    model.lemma_beside(before);
                }
                Ok(RetainedFrame::new(model.residency.id(), frame))
            },
            Err(reason) => {
                proof {
                    model.lemma_beside(before);
                }
                Err(RetainRefused { guard: self.inner, reason })
            },
        }
    }
}

/// One read of a page's cell together with the content generation behind it.
#[derive(Debug, Clone, Copy, PartialEq, Eq, Structural)]
pub struct Snapshot {
    frame: u32,
    generation: u8,
}

impl Snapshot {
    pub closed spec fn seen(self) -> (ReadFrameIdx, u8) {
        (ReadFrameIdx(self.frame), self.generation)
    }

    /// The frame the page was mapped to.
    pub fn frame(&self) -> (frame: u32)
        ensures
            frame == self.seen().0.0,
    {
        self.frame
    }

    /// The byte that filled the frame.
    pub fn generation(&self) -> (generation: u8)
        ensures
            generation == self.seen().1,
    {
        self.generation
    }
}

/// The page the model means by `page` of the file generation.
pub open spec fn modeled_page(file_generation: u32, page: u32) -> PageId {
    PageId {
        file: FileId { driver: 0, slot: 0, generation: file_generation },
        granule_idx: page,
    }
}

/// One control plane with two readers, one file slot and a fixed number of
/// frames.
pub struct PoolModel {
    pub residency: Residency,
    pub clock: Clock,
    pub files: Files,
    pub wait: WaitState,
    pub held: Vec<DiagnosticSlot>,
    pub locked_checks: u32,
    pub readahead: Option<ReadaheadControl>,
}

impl PoolModel {
    /// All but the speculative half.
    pub open spec fn plane_wf(self) -> bool {
        &&& self.residency.wf()
        &&& self.residency.frames.granule_bytes() == SECTOR_BYTES
        &&& self.residency.retention.enabled() ==> self.residency.retention.file_slots() == 1
        &&& self.residency.readers@.len() == 2
        &&& self.residency.readers@[0].occupied
        &&& self.residency.readers@[1].occupied
        &&& self.clock.wf()
        &&& self.clock.frame_count() == self.residency.frames.frame_count()
        &&& self.files.wf()
        &&& self.files.capacity() == 1
        &&& self.files.owner() == 0
        &&& self.files.entry_at(0) matches Some(entry) ==> entry.handle is None
        &&& self.held@.len() == 2
        &&& self.readahead is Some ==> !self.residency.retention.enabled()
    }

    pub open spec fn wf(self) -> bool {
        &&& self.plane_wf()
        &&& self.readahead matches Some(readahead) ==> readahead.tracks(self.residency, self.clock)
    }

    /// The counters a step moves have room left.
    pub open spec fn unworn(self) -> bool {
        &&& self.residency.epoch < WEAR_MAX
        &&& self.residency.retention.tickets() < TICKET_MAX
        &&& self.fillable()
    }

    /// Every frame may be published once more.
    pub open spec fn fillable(self) -> bool {
        forall|f: ReadFrameIdx|
            self.residency.has(f) ==> #[trigger] self.residency.frames.generation(f)
                < FRAME_GENERATION_MAX
    }

    /// Everything but the residency, the clock and the wait state.
    pub open spec fn beside(self, other: PoolModel) -> bool {
        &&& self.files == other.files
        &&& self.held == other.held
        &&& self.locked_checks == other.locked_checks
        &&& self.readahead == other.readahead
    }

    /// `guard` is a live pin of this model.
    pub open spec fn lends(self, guard: Guard) -> bool {
        self.residency.live(guard.pin()) && guard.pin().owner() == 0
    }

    /// `handle` retains a frame of this model.
    pub open spec fn retains(self, handle: RetainedFrame) -> bool {
        &&& handle.pool() == self.residency.frames.arena()
        &&& self.residency.has(handle.kept())
        &&& self.residency.retention.enabled()
        &&& self.residency.retention.handles(handle.kept()) > 0
    }

    /// A step that touches no frame under a read keeps the model whole.
    pub(crate) proof fn lemma_beside(self, before: PoolModel)
        requires
            before.wf(),
            self.beside(before),
            self.residency.wf(),
            self.residency.same_shape(before.residency),
            self.residency.readers@[0].occupied,
            self.residency.readers@[1].occupied,
            self.clock.wf(),
            self.clock.frame_count() == before.clock.frame_count(),
            forall|f: ReadFrameIdx|
                before.residency.has(f) ==> (#[trigger] self.residency.frames.residency(
                    f,
                ) is InFlight <==> before.residency.frames.residency(f) is InFlight),
            forall|f: ReadFrameIdx|
                before.residency.has(f) && #[trigger] self.residency.frames.residency(
                    f,
                ) is InFlight ==> {
                    &&& self.residency.frames.page(f) == before.residency.frames.page(f)
                    &&& self.residency.frames.contents(f) == before.residency.frames.contents(f)
                },
            self.clock == before.clock || exists|frame: ReadFrameIdx, reader: Option<u32>|
                before.residency.has(frame) && #[trigger] self.clock.touched(
                    before.clock,
                    frame,
                    reader,
                ),
        ensures
            self.wf(),
    {
        if self.readahead is Some {
            let readahead = self.readahead->0;
            readahead.lemma_kept(before.residency, before.clock, self.residency, self.clock);
        }
    }

    /// A model as it is built: every frame free, every reader quiescent.
    pub open spec fn opened(self, frames: u32, retained: u32, readahead: Option<u32>) -> bool {
        &&& self.wf()
        &&& self.unworn()
        &&& self.residency.frames.frame_count() == frames
        &&& self.residency.epoch == 0
        &&& self.residency.table@ == Map::<PageId, ReadFrameIdx>::empty()
        &&& self.residency.evict_queue@ == Seq::<(ReadFrameIdx, u64)>::empty()
        &&& self.residency.retention.enabled() == (retained > 0)
        &&& self.residency.retention.budget() == retained
        &&& self.residency.retention.tickets() == 0
        &&& self.residency.retention.pending() == Seq::<ReadFrameIdx>::empty()
        &&& forall|f: ReadFrameIdx|
            self.residency.has(f) ==> #[trigger] self.residency.frames.residency(f) is Free
        &&& forall|f: ReadFrameIdx|
            self.residency.has(f) ==> #[trigger] self.residency.frames.generation(f) == 0
        &&& forall|r: int|
            0 <= r < 2 ==> #[trigger] self.residency.readers@[r] == (ReaderSlot {
                occupied: true,
                local_epoch: QUIESCENT,
                guard_count: 0,
            })
        &&& self.clock.fresh(frames)
        &&& self.files.entry_at(0) is None
        &&& self.files.lease_at(0).count == 0
        &&& self.held@[0]@ == 0
        &&& self.held@[1]@ == 0
        &&& self.locked_checks == 0
        &&& self.wait == (WaitState {
            current: 0,
            consumed: 0,
            ring_pending: false,
            parks_entered: 0,
            parks_in_progress: 0,
            parks_exited: 0,
            wake_exits: 0,
            timeout_exits: 0,
        })
        &&& match readahead {
            Some(capacity) => self.readahead matches Some(control) && control.opened(
                frames,
                capacity,
            ),
            None => self.readahead is None,
        }
    }

    fn with_geometry(
        ids: &mut ArenaIds,
        frames: u32,
        max_retained_frames: u32,
        readahead_capacity: Option<u32>,
    ) -> (model: Self)
        requires
            0 < frames <= 0x4000_0000,
            max_retained_frames <= frames,
            frames * SECTOR_BYTES <= usize::MAX,
            readahead_capacity matches Some(capacity) ==> 1 <= capacity <= frames
                && max_retained_frames == 0,
            old(ids).issued() < u32::MAX,
        ensures
            model.opened(frames, max_retained_frames, readahead_capacity),
            model.residency.frames.arena().0 == old(ids).issued() + 1,
            final(ids).issued() == old(ids).issued() + 1,
    {
        proof {
            vstd::arithmetic::power2::lemma2_to64();
            assert(vstd::arithmetic::power2::pow2(12) == SECTOR_BYTES);
        }
        let mut residency: Residency = match Residency::new(
            ids,
            frames,
            SECTOR_BYTES,
            2,
            max_retained_frames,
            1,
        ) {
            Some(residency) => residency,
            None => { vstd::pervasive::unreached() },
        };
        let ghost bare = residency;
        let _first: Option<ReaderCtx> = residency.register();
        let ghost one = residency;
        let _second: Option<ReaderCtx> = residency.register();
        let clock: Clock = Clock::with_frame_count(frames);
        let mut held: Vec<DiagnosticSlot> = Vec::new();
        held.push(DiagnosticSlot::new());
        held.push(DiagnosticSlot::new());
        let readahead: Option<ReadaheadControl> = match readahead_capacity {
            Some(capacity) => Some(ReadaheadControl::new(frames, capacity)),
            None => None,
        };
        let model = PoolModel {
            residency,
            clock,
            files: Files::new(0, 1),
            wait: WaitState::default(),
            held,
            locked_checks: 0,
            readahead,
        };
        proof {
            bare.lemma_facts();
            one.lemma_facts();
            residency.lemma_facts();
        }
        model
    }

    /// A model of `frames` frames that retains none.
    pub fn new(ids: &mut ArenaIds, frames: u32) -> (model: Self)
        requires
            0 < frames <= 0x4000_0000,
            frames * SECTOR_BYTES <= usize::MAX,
            old(ids).issued() < u32::MAX,
        ensures
            model.opened(frames, 0, None),
            model.residency.frames.arena().0 == old(ids).issued() + 1,
            final(ids).issued() == old(ids).issued() + 1,
    {
        Self::with_retention(ids, frames, 0)
    }

    /// A model whose guards may be retained within the budget.
    pub fn with_retention(ids: &mut ArenaIds, frames: u32, max_retained_frames: u32) -> (model:
        Self)
        requires
            0 < frames <= 0x4000_0000,
            max_retained_frames <= frames,
            frames * SECTOR_BYTES <= usize::MAX,
            old(ids).issued() < u32::MAX,
        ensures
            model.opened(frames, max_retained_frames, None),
            model.residency.frames.arena().0 == old(ids).issued() + 1,
            final(ids).issued() == old(ids).issued() + 1,
    {
        Self::with_geometry(ids, frames, max_retained_frames, None)
    }

    /// A model with vectored reads and speculative books of `capacity` credits.
    pub fn with_readahead(ids: &mut ArenaIds, frames: u32, capacity: u32) -> (model: Self)
        requires
            0 < frames <= 0x4000_0000,
            1 <= capacity <= frames,
            frames * SECTOR_BYTES <= usize::MAX,
            old(ids).issued() < u32::MAX,
        ensures
            model.opened(frames, 0, Some(capacity)),
            model.residency.frames.arena().0 == old(ids).issued() + 1,
            final(ids).issued() == old(ids).issued() + 1,
    {
        Self::with_geometry(ids, frames, 0, Some(capacity))
    }

    /// A page of the unregistered file of generation zero.
    fn page_id(page: u32) -> (id: PageId)
        ensures
            id == modeled_page(0, page),
    {
        Self::file_page_id(0, page)
    }

    fn file_page_id(file_generation: u32, page: u32) -> (id: PageId)
        ensures
            id == modeled_page(file_generation, page),
    {
        PageId::new(FileId::new(0, 0, file_generation), page)
    }

    /// `page` has come to be resident in `frame`, filled with `generation`.
    pub open spec fn installed(
        self,
        other: PoolModel,
        frame: ReadFrameIdx,
        page: PageId,
        generation: u8,
    ) -> bool {
        &&& self.beside(other)
        &&& self.wait == other.wait
        &&& self.clock.touched(other.clock, frame, None)
        &&& self.residency.table@ == other.residency.table@.insert(page, frame)
        &&& self.residency.readers == other.residency.readers
        &&& self.residency.evict_queue == other.residency.evict_queue
        &&& self.residency.retention == other.residency.retention
        &&& self.residency.epoch == other.residency.epoch
        &&& self.residency.pins == other.residency.pins
        &&& self.residency.keeps(other.residency)
        &&& self.residency.frames.same_except(other.residency.frames, frame)
        &&& self.residency.frames.residency(frame) is Resident
        &&& self.residency.frames.generation(frame) == other.residency.frames.generation(frame) + 1
        &&& self.residency.frames.page(frame) == Some(page)
        &&& self.residency.frames.contents(frame) == Seq::new(
            SECTOR_BYTES as nat,
            |j: int| generation,
        )
    }

    /// Claims, fills and publishes a free frame and marks it used.
    fn install(&mut self, frame: ReadFrameIdx, page: PageId, generation: u8)
        requires
            old(self).wf(),
            old(self).residency.has(frame),
            old(self).residency.frames.residency(frame) is Free,
            old(self).residency.frames.generation(frame) < FRAME_GENERATION_MAX,
        ensures
            final(self).wf(),
            final(self).installed(*old(self), frame, page, generation),
    {
        let ghost before = *self;
        proof {
            before.residency.lemma_facts();
        }
        if let Some(token) = self.residency.claim(frame, page) {
            let ghost claimed = self.residency;
            self.residency.fill(&token, generation);
            let ghost filled = self.residency;
            proof {
                filled.lemma_facts();
                claimed.lemma_same_holds_frames(before.residency);
                filled.lemma_same_holds_frames(claimed);
                filled.lemma_keeps_again(claimed, before.residency);
                filled.lemma_same_holds_frames(before.residency);
            }
            let _frame: ReadFrameIdx = self.residency.publish(token);
            let _stored: bool = self.clock.reference(frame);
            proof {
                self.residency.lemma_keeps_again(filled, before.residency);
                self.residency.lemma_facts();
                self.lemma_beside(before);
            }
        }
    }

    /// Makes `page` resident in frame zero.
    pub fn make_resident(&mut self, page: u32, generation: u8)
        requires
            old(self).wf(),
            old(self).residency.frames.residency(ReadFrameIdx(0)) is Free,
            old(self).residency.frames.generation(ReadFrameIdx(0)) < FRAME_GENERATION_MAX,
        ensures
            final(self).wf(),
            final(self).installed(
                *old(self),
                ReadFrameIdx(0),
                modeled_page(0, page),
                generation,
            ),
    {
        proof {
            self.residency.lemma_facts();
        }
        self.make_resident_in_frame(0, page, generation);
    }

    /// Makes `page` resident in the named free frame.
    pub fn make_resident_in_frame(&mut self, frame: u32, page: u32, generation: u8)
        requires
            old(self).wf(),
            old(self).residency.has(ReadFrameIdx(frame)),
            old(self).residency.frames.residency(ReadFrameIdx(frame)) is Free,
            old(self).residency.frames.generation(ReadFrameIdx(frame)) < FRAME_GENERATION_MAX,
        ensures
            final(self).wf(),
            final(self).installed(
                *old(self),
                ReadFrameIdx(frame),
                modeled_page(0, page),
                generation,
            ),
    {
        self.install(ReadFrameIdx::new(frame), Self::page_id(page), generation);
    }

    /// Maps `page` anew to frame one, filled with `generation`.
    pub fn remap(&mut self, page: u32, generation: u8)
        requires
            old(self).wf(),
            old(self).residency.has(ReadFrameIdx(1)),
            old(self).residency.frames.residency(ReadFrameIdx(1)) is Free,
            old(self).residency.frames.generation(ReadFrameIdx(1)) < FRAME_GENERATION_MAX,
        ensures
            final(self).wf(),
            final(self).installed(
                *old(self),
                ReadFrameIdx(1),
                modeled_page(0, page),
                generation,
            ),
    {
        self.install(ReadFrameIdx::new(1), Self::page_id(page), generation);
    }

    /// Marks the file slot as retiring, which refuses further retention.
    pub fn begin_model_file_retirement(&mut self)
        requires
            old(self).wf(),
        ensures
            final(self).wf(),
            final(self).beside(*old(self)),
            final(self).clock == old(self).clock,
            final(self).wait == old(self).wait,
            final(self).residency.keeps(old(self).residency),
            final(self).residency.same_but_retention(old(self).residency),
            final(self).residency.retention.same_frames(old(self).residency.retention),
            final(self).residency.retention.stats() == old(self).residency.retention.stats(),
            old(self).residency.retention.enabled()
                ==> final(self).residency.retention.is_retiring(0),
    {
        let ghost before = *self;
        proof {
            before.residency.lemma_facts();
        }
        self.residency.mark_file_retiring(0);
        proof {
            self.residency.lemma_facts();
            self.lemma_beside(before);
        }
    }

    /// Reader zero's pin of `page`.
    pub fn pin(&mut self, page: u32) -> (guard: Option<Guard>)
        requires
            old(self).wf(),
            old(self).may_pin(0),
        ensures
            final(self).wf(),
            final(self).pinned(*old(self), 0, modeled_page(0, page), guard),
    {
        self.pin_reader(0, page)
    }

    /// A pin of `page` by the named reader.
    pub fn pin_reader(&mut self, reader: u32, page: u32) -> (guard: Option<Guard>)
        requires
            old(self).wf(),
            reader < 2,
            old(self).may_pin(reader as int),
        ensures
            final(self).wf(),
            final(self).pinned(*old(self), reader as int, modeled_page(0, page), guard),
    {
        self.pin_page(reader, Self::page_id(page))
    }

    /// The frame a nested pin of the reader takes again.
    pub open spec fn held_frame(self, reader: int) -> ReadFrameIdx {
        ReadFrameIdx(self.held@[reader]@)
    }

    pub open spec fn guards(self, reader: int) -> u64 {
        self.residency.readers@[reader].guard_count
    }

    /// The reader holds no guard, or the frame it holds is the one a nested pin
    /// takes again.
    pub open spec fn may_pin(self, reader: int) -> bool {
        &&& self.guards(reader) < u64::MAX
        &&& self.guards(reader) > 0 ==> self.residency.pinned(reader, self.held_frame(reader))
    }

    /// A guard over `frame` has been handed to the reader.
    pub open spec fn granted(
        self,
        other: PoolModel,
        reader: int,
        frame: ReadFrameIdx,
        guard: Guard,
    ) -> bool {
        &&& self.residency.repinned(other.residency, reader, frame)
        &&& self.clock.touched(other.clock, frame, None)
        &&& self.files == other.files
        &&& self.wait == other.wait
        &&& self.readahead == other.readahead
        &&& guard.pin().pool() == other.residency.frames.arena()
        &&& guard.pin().holder() == reader
        &&& guard.pin().pinned() == frame
        &&& guard.pin().owner() == 0
        &&& self.lends(guard)
    }

    /// What a pin does: a reader's first pin takes the frame its page is mapped
    /// to, or nothing; a nested pin takes again the frame the reader holds.
    pub open spec fn pinned(
        self,
        other: PoolModel,
        reader: int,
        page: PageId,
        guard: Option<Guard>,
    ) -> bool {
        let frame = if other.guards(reader) == 0 {
            other.residency.table@[page]
        } else {
            other.held_frame(reader)
        };
        &&& guard is Some <==> other.guards(reader) > 0 || other.residency.table@.contains_key(page)
        &&& self.locked_checks == other.locked_checks
        &&& match guard {
            Some(g) => {
                &&& other.residency.has(frame)
                &&& other.residency.frames.published(frame)
                &&& self.granted(other, reader, frame, g)
                &&& self.held_frame(reader) == frame
                &&& self.held@[1 - reader] == other.held@[1 - reader]
            },
            None => self == other,
        }
    }

    fn pin_page(&mut self, reader: u32, page: PageId) -> (guard: Option<Guard>)
        requires
            old(self).wf(),
            reader < 2,
            old(self).may_pin(reader as int),
        ensures
            final(self).wf(),
            final(self).pinned(*old(self), reader as int, page, guard),
    {
        let ghost before = *self;
        proof {
            before.residency.lemma_facts();
        }
        let slot: ReaderSlot = self.residency.readers.slot(reader);
        let frame: ReadFrameIdx = if slot.guard_count == 0 {
            match self.residency.pin(reader, page) {
                Some(frame) => {
                    let mut held: DiagnosticSlot = DiagnosticSlot::new();
                    held.set(frame.get());
                    self.held.set(reader as usize, held);
                    frame
                },
                None => {
                    return None;
                },
            }
        } else {
            let frame: ReadFrameIdx = ReadFrameIdx::new(self.held[reader as usize].get());
            proof {
                assert(before.residency.pins@[reader as int].count(frame) > 0);
            }
            self.residency.repin(reader, frame);
            frame
        };
        let _stored: bool = self.clock.reference(frame);
        proof {
            self.residency.lemma_facts();
            let kept = PoolModel { held: before.held, ..*self };
            kept.lemma_beside(before);
            assert(self.residency.pins@[reader as int].count(frame) > 0);
        }
        Some(Guard { inner: FrameGuard::new(self.residency.id(), reader, frame, 0) })
    }

    /// Drops a guard; its reader is quiescent once its last guard is dropped.
    pub fn drop_guard(&mut self, guard: Guard)
        requires
            old(self).wf(),
            old(self).lends(guard),
        ensures
            final(self).wf(),
            final(self).beside(*old(self)),
            final(self).clock == old(self).clock,
            final(self).wait == old(self).wait,
            final(self).residency.unpinned(
                old(self).residency,
                guard.pin().holder() as int,
                guard.pin().pinned(),
            ),
    {
        let ghost before = *self;
        proof {
            before.residency.lemma_facts();
        }
        self.residency.unpin(guard.inner.reader(), guard.inner.frame());
        proof {
            self.residency.lemma_facts();
            self.lemma_beside(before);
        }
    }

    /// Drops a retained handle; the last one over a held frame queues it for
    /// release.
    pub fn drop_retained(&mut self, handle: RetainedFrame)
        requires
            old(self).wf(),
            old(self).unworn(),
            old(self).retains(handle),
        ensures
            final(self).wf(),
            final(self).beside(*old(self)),
            final(self).clock == old(self).clock,
            final(self).residency.same_but_retention(old(self).residency),
            final(self).residency.retention.released(old(self).residency.retention, handle.kept()),
            final(self).wait == old(self).residency.retention.notified(
                handle.kept(),
                old(self).wait,
            ),
    {
        let ghost before = *self;
        proof {
            before.residency.lemma_facts();
        }
        self.residency.release(handle.frame(), &mut self.wait);
        proof {
            self.residency.lemma_facts();
            self.lemma_beside(before);
        }
    }

    /// A read of the page's cell and of the byte behind it, under a pin of
    /// reader zero that is dropped again.
    pub fn probe(&mut self, page: u32) -> (snapshot: Option<Snapshot>)
        requires
            old(self).wf(),
            old(self).guards(0) < u64::MAX,
        ensures
            final(self).wf(),
            final(self).beside(*old(self)),
            final(self).clock == old(self).clock,
            final(self).wait == old(self).wait,
            final(self).residency.same_but_readers(old(self).residency),
            final(self).residency.readers@ == old(self).residency.readers@,
            final(self).residency.pins@ == old(self).residency.pins@,
            snapshot is Some <==> old(self).residency.table@.contains_key(modeled_page(0, page)),
            snapshot matches Some(seen) ==> {
                let frame = old(self).residency.table@[modeled_page(0, page)];
                seen.seen() == (frame, old(self).residency.frames.contents(frame)[0])
            },
    {
        let ghost before = *self;
        proof {
            before.residency.lemma_facts();
        }
        match self.residency.pin(0, Self::page_id(page)) {
            Some(frame) => {
                proof {
                    self.residency.lemma_facts();
                    self.residency.frames.lemma_positive();
                    assert(before.residency.pins@[0].insert(frame).remove(frame)
                        =~= before.residency.pins@[0]);
                    assert(self.residency.pins@[0].count(frame) > 0);
                }
                let generation: u8 = self.residency.frames.frame_bytes(frame)[0];
                self.residency.unpin(0, frame);
                proof {
                    self.residency.lemma_facts();
                    assert(self.residency.pins@ =~= before.residency.pins@);
                    assert(crate::pool::residency::reader_ok(
                        before.residency.readers@[0],
                        before.residency.pins@[0],
                        before.residency.epoch,
                    ));
                    assert(self.residency.readers@ =~= before.residency.readers@);
                    self.lemma_beside(before);
                }
                Some(Snapshot { frame: frame.get(), generation })
            },
            None => None,
        }
    }

    /// The file generation `id` has become the live one of the slot.
    pub open spec fn reopened(self, other: PoolModel, id: FileId) -> bool {
        &&& self.files.registered(other.files, id, None)
        &&& self.residency == other.residency
        &&& self.clock == other.clock
        &&& self.wait == other.wait
        &&& self.held == other.held
        &&& self.locked_checks == other.locked_checks
        &&& self.readahead == other.readahead
    }

    /// Retires whatever file the slot holds and publishes `id` in its place.
    fn republish(&mut self, id: FileId)
        requires
            old(self).wf(),
            id.driver == 0,
            id.slot == 0,
            old(self).files.lease_at(0).count == 0,
        ensures
            final(self).wf(),
            final(self).reopened(*old(self), id),
    {
        proof {
            self.files.lemma_slot(0);
        }
        if let Some(entry) = self.files.entry(0) {
            match entry.state {
                PoolFileState::Retired => {},
                _ => {
                    let _started: bool = self.files.begin_file_retirement(entry.id);
                    self.files.retire(0);
                },
            }
        }
        self.files.publish_live_file(id, None);
    }

    /// Registers a live file generation and makes its page resident in frame
    /// zero.
    pub fn make_file_resident(
        &mut self,
        file_generation: u32,
        page: u32,
        content_generation: u8,
    )
        requires
            old(self).wf(),
            old(self).files.lease_at(0).count == 0,
            old(self).residency.frames.residency(ReadFrameIdx(0)) is Free,
            old(self).residency.frames.generation(ReadFrameIdx(0)) < FRAME_GENERATION_MAX,
        ensures
            final(self).wf(),
            exists|registered: PoolModel|
                {
                    &&& #[trigger] registered.reopened(
                        *old(self),
                        modeled_page(file_generation, page).file,
                    )
                    &&& final(self).installed(
                        registered,
                        ReadFrameIdx(0),
                        modeled_page(file_generation, page),
                        content_generation,
                    )
                },
    {
        proof {
            self.residency.lemma_facts();
        }
        let id: FileId = FileId::new(0, 0, file_generation);
        self.republish(id);
        let ghost registered = *self;
        self.install(ReadFrameIdx::new(0), PageId::new(id, page), content_generation);
        proof {
            assert(registered.reopened(*old(self), modeled_page(file_generation, page).file));
        }
    }

    /// The file generation is the live one.
    pub open spec fn serves(self, file_generation: u32) -> bool {
        self.files.is_live(modeled_page(file_generation, 0).file)
    }

    /// What a file-aware get answers: nothing for a generation that is not
    /// live; otherwise reader zero's pin of the page, which after a miss is
    /// tried once more under the control lock.
    pub open spec fn got_file(
        self,
        other: PoolModel,
        file_generation: u32,
        page: u32,
        guard: Option<Guard>,
    ) -> bool {
        let id = modeled_page(file_generation, page);
        let answered = other.guards(0) > 0 || other.residency.table@.contains_key(id);
        if !other.serves(file_generation) {
            guard is None && self == other
        } else if answered {
            self.pinned(other, 0, id, guard)
        } else {
            &&& guard is None
            &&& self == (PoolModel {
                locked_checks: other.locked_checks.wrapping_add(1),
                ..other
            })
        }
    }

    /// A get of a page of the exact file generation.
    pub fn get_file(&mut self, file_generation: u32, page: u32) -> (guard: Option<Guard>)
        requires
            old(self).wf(),
            old(self).may_pin(0),
        ensures
            final(self).wf(),
            final(self).got_file(*old(self), file_generation, page, guard),
    {
        let id: PageId = Self::file_page_id(file_generation, page);
        if !self.files.file_generation_is_live(id.file()) {
            return None;
        }
        if let Some(guard) = self.pin_page(0, id) {
            return Some(guard);
        }
        self.locked_checks = self.locked_checks.wrapping_add(1);
        if !self.files.file_is_live(id.file()) {
            return None;
        }
        self.pin_page(0, id)
    }

    /// An advisory hint for a resident page.
    pub fn resident_hint(&self, file_generation: u32, page: u32) -> (hint: Option<ResidentHint>)
        requires
            self.wf(),
        ensures
            hint is Some <==> self.residency.table@.contains_key(
                modeled_page(file_generation, page),
            ),
            hint matches Some(h) ==> self.residency.hint_holds(
                modeled_page(file_generation, page),
                h,
            ),
    {
        self.residency.observe(Self::file_page_id(file_generation, page))
    }

    /// A get that first tries the frame a hint names. A hint that no longer
    /// holds leaves the get as it would be without one.
    pub fn get_with_hint(
        &mut self,
        file_generation: u32,
        page: u32,
        hint: Option<ResidentHint>,
    ) -> (guard: Option<Guard>)
        requires
            old(self).wf(),
            old(self).may_pin(0),
        ensures
            final(self).wf(),
            ({
                let id = modeled_page(file_generation, page);
                let hinted = old(self).serves(file_generation) && (hint matches Some(h) && old(self).residency.hint_holds(id, h));
                if hinted {
                    &&& guard matches Some(g) && final(self).granted(
                        *old(self),
                        0,
                        ReadFrameIdx(hint->0.frame),
                        g,
                    )
                    &&& final(self).held == old(self).held
                    &&& final(self).locked_checks == old(self).locked_checks
                } else {
                    final(self).got_file(*old(self), file_generation, page, guard)
                }
            }),
    {
        let ghost before = *self;
        proof {
            before.residency.lemma_facts();
        }
        let id: PageId = Self::file_page_id(file_generation, page);
        if !self.files.file_generation_is_live(id.file()) {
            return None;
        }
        match hint {
            Some(hint) => match self.residency.pin_with_resident_hint(0, id, hint) {
                Some(frame) => {
                    let _stored: bool = self.clock.reference(frame);
                    proof {
                        self.residency.lemma_facts();
                        self.lemma_beside(before);
                        assert(self.residency.pins@[0].count(frame) > 0);
                    }
                    Some(Guard { inner: FrameGuard::new(self.residency.id(), 0, frame, 0) })
                },
                None => self.get_file(file_generation, page),
            },
            None => self.get_file(file_generation, page),
        }
    }

    /// Leases the exact file generation against retirement.
    pub fn lease_file(&mut self, file_generation: u32) -> (lease: Result<
        ResidentFileLease,
        ResidentLeaseError,
    >)
        requires
            old(self).wf(),
        ensures
            final(self).wf(),
            final(self).residency == old(self).residency,
            final(self).clock == old(self).clock,
            final(self).wait == old(self).wait,
            final(self).held == old(self).held,
            final(self).locked_checks == old(self).locked_checks,
            final(self).readahead == old(self).readahead,
            lease is Ok <==> old(self).serves(file_generation) && old(self).files.lease_at(0).count
                < u32::MAX,
            final(self).files.entry_at(0) == old(self).files.entry_at(0),
            match lease {
                Ok(l) => {
                    &&& final(self).files.grants(l)
                    &&& l.protects() == modeled_page(file_generation, 0).file
                    &&& final(self).files.lease_at(0).count == old(self).files.lease_at(0).count + 1
                },
                Err(error) => {
                    &&& final(self).files == old(self).files
                    &&& error == (if old(self).serves(file_generation) {
                        ResidentLeaseError::Exhausted {
                            file: modeled_page(file_generation, 0).file,
                        }
                    } else {
                        ResidentLeaseError::StaleFile {
                            file: modeled_page(file_generation, 0).file,
                        }
                    })
                },
            },
    {
        self.files.lease_file(FileId::new(0, 0, file_generation))
    }

    /// Gives a lease back.
    pub fn release_lease(&mut self, lease: ResidentFileLease)
        requires
            old(self).wf(),
            old(self).files.grants(lease),
        ensures
            final(self).wf(),
            final(self).residency == old(self).residency,
            final(self).clock == old(self).clock,
            final(self).wait == old(self).wait,
            final(self).held == old(self).held,
            final(self).locked_checks == old(self).locked_checks,
            final(self).readahead == old(self).readahead,
            final(self).files.entry_at(0) == old(self).files.entry_at(0),
            final(self).files.lease_at(0).count == old(self).files.lease_at(0).count - 1,
    {
        let _last: bool = self.files.release_lease(lease);
    }

    /// The leases on the file slot.
    pub fn resident_lease_count(&self) -> (count: u32)
        requires
            self.wf(),
        ensures
            count == self.files.lease_at(0).count,
    {
        self.files.lease_count(0)
    }

    /// How often a get rechecked the file under the control lock.
    pub fn locked_get_checks(&self) -> (checks: u32)
        ensures
            checks == self.locked_checks,
    {
        self.locked_checks
    }

    /// Whether no reader holds a guard.
    pub fn reader_is_quiescent(&self) -> (quiescent: bool)
        requires
            self.wf(),
        ensures
            quiescent == (self.guards(0) == 0 && self.guards(1) == 0),
    {
        proof {
            self.residency.lemma_facts();
            assert(crate::pool::residency::reader_ok(
                self.residency.readers@[0],
                self.residency.pins@[0],
                self.residency.epoch,
            ));
            assert(crate::pool::residency::reader_ok(
                self.residency.readers@[1],
                self.residency.pins@[1],
                self.residency.epoch,
            ));
        }
        let next: u64 = self.residency.epoch + 1;
        self.residency.readers.slot(0).permits_advance(next) && self.residency.readers.slot(
            1,
        ).permits_advance(next)
    }

    /// The page has been unmapped and its frame queued for reclamation.
    pub open spec fn evicted(self, other: PoolModel, page: PageId) -> bool {
        &&& self.beside(other)
        &&& self.clock == other.clock
        &&& self.wait == other.wait
        &&& self.residency.keeps(other.residency)
        &&& self.residency.evicted(other.residency, page)
    }

    /// Evicts a mapped page of the file of generation zero.
    pub fn evict(&mut self, page: u32)
        requires
            old(self).wf(),
            old(self).residency.table@.contains_key(modeled_page(0, page)),
        ensures
            final(self).wf(),
            final(self).evicted(*old(self), modeled_page(0, page)),
    {
        self.evict_file(0, page);
    }

    /// Evicts a mapped page of the exact file generation.
    pub fn evict_file(&mut self, file_generation: u32, page: u32)
        requires
            old(self).wf(),
            old(self).residency.table@.contains_key(modeled_page(file_generation, page)),
        ensures
            final(self).wf(),
            final(self).evicted(*old(self), modeled_page(file_generation, page)),
    {
        let _evicted: bool = self.evict_page(Self::file_page_id(file_generation, page));
    }

    fn evict_page(&mut self, page: PageId) -> (evicted: bool)
        requires
            old(self).wf(),
        ensures
            final(self).wf(),
            evicted == old(self).residency.table@.contains_key(page),
            evicted ==> final(self).evicted(*old(self), page),
            !evicted ==> *final(self) == *old(self),
    {
        let ghost before = *self;
        proof {
            before.residency.lemma_facts();
        }
        match self.residency.evict(page) {
            Some(_frame) => {
                proof {
                    self.residency.lemma_facts();
                    self.lemma_beside(before);
                }
                true
            },
            None => false,
        }
    }

    /// Evicts the retiring file's page, unless the file is leased or the page
    /// is not mapped.
    pub open spec fn unmapped(self, other: PoolModel, page: PageId) -> bool {
        if other.files.lease_at(0).count == 0 && other.residency.table@.contains_key(page) {
            self.evicted(other, page)
        } else {
            self == other
        }
    }

    fn retire_file_frame(&mut self, page: PageId)
        requires
            old(self).wf(),
        ensures
            final(self).wf(),
            final(self).unmapped(*old(self), page),
    {
        if self.files.lease_count(0) > 0 {
            return ;
        }
        let _evicted: bool = self.evict_page(page);
    }

    /// Begins the retirement of the live file generation and evicts its page.
    pub fn retire_file(&mut self, file_generation: u32, page: u32)
        requires
            old(self).wf(),
            old(self).serves(file_generation),
        ensures
            final(self).wf(),
            final(self).files.entry_at(0) == Some(
                PoolFile { state: PoolFileState::Retiring, ..old(self).files.entry_at(0)->0 },
            ),
            final(self).files.lease_at(0) == old(self).files.lease_at(0),
            final(self).unmapped(
                PoolModel { files: final(self).files, ..*old(self) },
                modeled_page(file_generation, page),
            ),
    {
        let id: PageId = Self::file_page_id(file_generation, page);
        let _started: bool = self.files.begin_file_retirement(id.file());
        self.retire_file_frame(id);
    }

    /// The epoch after one attempt to advance it.
    pub open spec fn next_epoch(self) -> u64 {
        if all_permit(self.residency.readers@, self.residency.epoch) {
            (self.residency.epoch + 1) as u64
        } else {
            self.residency.epoch
        }
    }

    /// Exactly the first `taken` queued evictions have matured once the epoch
    /// has been advanced.
    pub open spec fn ripens(self, taken: int) -> bool {
        &&& 0 <= taken <= self.residency.evict_queue@.len()
        &&& forall|k: int|
            0 <= k < taken ==> matured(
                (#[trigger] self.residency.evict_queue@[k]).1,
                self.next_epoch(),
            )
        &&& forall|k: int|
            taken <= k < self.residency.evict_queue@.len() ==> !matured(
                (#[trigger] self.residency.evict_queue@[k]).1,
                self.next_epoch(),
            )
    }

    /// The frames one reclaim pass frees, in order: those their last handle
    /// released, then the matured evictions no handle retains.
    pub open spec fn returned(self, taken: int) -> Seq<ReadFrameIdx> {
        self.residency.retention.pending() + self.residency.unretained(taken)
    }

    /// Nothing but the frames, the queues, the epoch and the wait state has
    /// changed, and the frames `freed` alone have become free.
    pub open spec fn drained(self, other: PoolModel, freed: Seq<ReadFrameIdx>) -> bool {
        &&& self.beside(other)
        &&& self.clock == other.clock
        &&& self.residency.keeps(other.residency)
        &&& self.residency.table == other.residency.table
        &&& self.residency.readers == other.residency.readers
        &&& self.residency.pins == other.residency.pins
        &&& self.residency.same_shape(other.residency)
        &&& self.residency.retention.same_retiring(other.residency.retention)
        &&& self.residency.retention.tickets() == other.residency.retention.tickets()
        &&& forall|f: ReadFrameIdx|
            other.residency.has(f) ==> #[trigger] self.residency.frames.residency(f) == (
            if freed.contains(f) {
                FrameState::Free
            } else {
                other.residency.frames.residency(f)
            })
        &&& forall|f: ReadFrameIdx|
            other.residency.has(f) ==> #[trigger] self.residency.frames.generation(f)
                == other.residency.frames.generation(f)
        &&& forall|f: ReadFrameIdx|
            other.residency.has(f) ==> #[trigger] self.residency.frames.page(f)
                == other.residency.frames.page(f)
        &&& forall|f: ReadFrameIdx|
            other.residency.has(f) ==> #[trigger] self.residency.frames.contents(f)
                == other.residency.frames.contents(f)
        &&& forall|f: ReadFrameIdx|
            other.residency.has(f) ==> #[trigger] self.residency.retention.handles(f)
                == other.residency.retention.handles(f)
        &&& forall|k: int|
            0 <= k < freed.len() ==> other.residency.has(#[trigger] freed[k])
                && other.residency.frames.residency(freed[k]) is Evicting
        &&& freed.no_duplicates()
    }

    /// The matured evictions among the first `taken` have left the queue, and
    /// those still retained are held.
    pub open spec fn matured_from(self, other: PoolModel, taken: int) -> bool {
        &&& other.ripens(taken)
        &&& self.residency.epoch == other.next_epoch()
        &&& self.residency.evict_queue@ == other.residency.evict_queue@.skip(taken)
    }

    /// Every frame its last handle released has left the release ring, and its
    /// budget unit is free again.
    pub open spec fn emptied(self, other: PoolModel) -> bool {
        let was = other.residency.retention;
        let now = self.residency.retention;
        &&& now.pending() == Seq::<ReadFrameIdx>::empty()
        &&& was.stats().occupied_budget >= was.pending().len()
        &&& now.stats() == (RetentionStats {
            occupied_budget: (was.stats().occupied_budget - was.pending().len()) as u32,
            ..was.stats()
        })
        &&& forall|f: ReadFrameIdx|
            other.residency.has(f) ==> #[trigger] now.held(f) == (was.held(f) && was.handles(f)
                > 0)
        &&& self.wait == (WaitState { ring_pending: false, ..other.wait })
    }

    /// One reclaim pass.
    pub open spec fn swept(self, other: PoolModel, taken: int) -> bool {
        &&& self.drained(other, other.returned(taken))
        &&& self.matured_from(other, taken)
        &&& self.residency.retention.pending() == Seq::<ReadFrameIdx>::empty()
        &&& self.residency.retention.stats() == (RetentionStats {
            occupied_budget: (other.residency.retention.stats().occupied_budget
                - other.residency.retention.pending().len()) as u32,
            ..other.residency.retention_after(taken)
        })
        &&& forall|f: ReadFrameIdx|
            other.residency.has(f) ==> #[trigger] self.residency.retention.held(f) == (
            other.residency.retention.handles(f) > 0 && (other.residency.retention.held(f)
                || queued_in(other.residency.evict_queue@.take(taken), f)))
        &&& self.wait == (if other.residency.retention.enabled() {
            WaitState { ring_pending: false, ..other.wait }
        } else {
            other.wait
        })
    }

    /// The report of a reclaim pass that takes `taken` evictions.
    pub open spec fn report(self, taken: int) -> DrainReport {
        DrainReport {
            released: self.residency.retention.pending().len() as u32,
            matured: taken as u32,
            matured_freed: self.residency.unretained(taken).len() as u32,
            first: if self.residency.retention.pending().len() > 0 {
                Some(DrainSource::Release)
            } else if taken > 0 {
                Some(DrainSource::Matured)
            } else {
                None
            },
        }
    }

    /// Advances the epoch if every reader permits, leaving both queues alone.
    pub fn advance_epoch_only(&mut self) -> (epoch: u64)
        requires
            old(self).wf(),
            old(self).unworn(),
        ensures
            final(self).wf(),
            epoch == old(self).next_epoch(),
            final(self).beside(*old(self)),
            final(self).clock == old(self).clock,
            final(self).wait == old(self).wait,
            final(self).residency.same_but_epoch(old(self).residency),
            final(self).residency.epoch == epoch,
            final(self).residency.keeps(old(self).residency),
    {
        let ghost before = *self;
        proof {
            before.residency.lemma_facts();
        }
        let epoch: u64 = self.residency.advance();
        proof {
            self.residency.lemma_facts();
            self.lemma_beside(before);
        }
        epoch
    }

    /// Takes the matured evictions, leaving the release ring alone.
    pub fn drain_matured_only(&mut self) -> (report: DrainReport)
        requires
            old(self).wf(),
            old(self).unworn(),
        ensures
            final(self).wf(),
            ({
                let taken = report.matured as int;
                &&& report == (DrainReport {
                    released: 0,
                    first: if taken > 0 {
                        Some(DrainSource::Matured)
                    } else {
                        None
                    },
                    ..old(self).report(taken)
                })
                &&& final(self).drained(*old(self), old(self).residency.unretained(taken))
                &&& final(self).matured_from(*old(self), taken)
                &&& final(self).residency.holding(old(self).residency, taken)
                &&& final(self).wait == old(self).wait
            }),
    {
        let ghost before = *self;
        let _epoch: u64 = self.advance_epoch_only();
        self.drain_matured_entries(Ghost(before)).0
    }

    /// Takes the matured evictions at the present epoch.
    fn drain_matured_entries(&mut self, before: Ghost<PoolModel>) -> (drain: (
        DrainReport,
        Vec<ReadFrameIdx>,
    ))
        requires
            before@.wf(),
            old(self).wf(),
            old(self).beside(before@),
            old(self).clock == before@.clock,
            old(self).residency.same_but_epoch(before@.residency),
            old(self).residency.epoch == before@.next_epoch(),
            old(self).residency.keeps(before@.residency),
        ensures
            final(self).wf(),
            ({
                let taken = drain.0.matured as int;
                &&& drain.0 == (DrainReport {
                    released: 0,
                    first: if taken > 0 {
                        Some(DrainSource::Matured)
                    } else {
                        None
                    },
                    ..before@.report(taken)
                })
                &&& drain.1@ == before@.residency.unretained(taken)
                &&& final(self).drained(before@, drain.1@)
                &&& final(self).matured_from(before@, taken)
                &&& final(self).residency.holding(before@.residency, taken)
                &&& final(self).wait == old(self).wait
            }),
    {
        let ghost aged = *self;
        proof {
            aged.residency.lemma_facts();
            before@.residency.lemma_facts();
        }
        let drained: Drained = self.residency.drain_matured();
        let report = DrainReport {
            released: 0,
            matured: drained.processed,
            matured_freed: drained.freed.len() as u32,
            first: if drained.processed > 0 {
                Some(DrainSource::Matured)
            } else {
                None
            },
        };
        proof {
            let taken = drained.processed as int;
            aged.residency.lemma_same_unretained(before@.residency, taken);
            self.residency.lemma_facts();
            assert(self.residency.retention.same_retiring(before@.residency.retention));
            self.residency.lemma_keeps_again(aged.residency, before@.residency);
            self.lemma_beside(before@);
        }
        (report, drained.freed)
    }

    /// Takes the frames their last handle released.
    fn drain_release_entries(&mut self) -> (freed: Vec<ReadFrameIdx>)
        requires
            old(self).wf(),
            old(self).unworn(),
            old(self).residency.retention.enabled(),
        ensures
            final(self).wf(),
            freed@ == old(self).residency.retention.pending(),
            freed@.len() <= u32::MAX,
            final(self).drained(*old(self), freed@),
            final(self).residency.epoch == old(self).residency.epoch,
            final(self).residency.evict_queue == old(self).residency.evict_queue,
            final(self).residency.retention.enabled(),
            final(self).emptied(*old(self)),
    {
        let ghost before = *self;
        proof {
            before.residency.lemma_facts();
            before.residency.retention.lemma_budget();
        }
        let freed: Vec<ReadFrameIdx> = self.residency.drain_releases(&mut self.wait);
        proof {
            self.residency.lemma_facts();
            self.lemma_beside(before);
        }
        freed
    }

    /// Takes only the frames their last handle released.
    pub fn drain_releases_only(&mut self) -> (released: u32)
        requires
            old(self).wf(),
            old(self).unworn(),
        ensures
            final(self).wf(),
            released == old(self).residency.retention.pending().len(),
            !old(self).residency.retention.enabled() ==> *final(self) == *old(self),
            old(self).residency.retention.enabled() ==> {
                &&& final(self).drained(*old(self), old(self).residency.retention.pending())
                &&& final(self).residency.epoch == old(self).residency.epoch
                &&& final(self).residency.evict_queue == old(self).residency.evict_queue
                &&& final(self).emptied(*old(self))
            },
    {
        if self.residency.retention.is_disabled() {
            proof {
                self.residency.retention.lemma_disabled();
            }
            return 0;
        }
        self.drain_release_entries().len() as u32
    }

    /// One reclaim pass: the release ring, the epoch, the matured evictions.
    /// Returns the freed frames beside the report.
    #[verifier::rlimit(40)]
    fn advance_and_reclaim(&mut self) -> (pass: (DrainReport, Vec<ReadFrameIdx>))
        requires
            old(self).wf(),
            old(self).unworn(),
        ensures
            final(self).wf(),
            pass.0 == old(self).report(pass.0.matured as int),
            pass.1@ == old(self).returned(pass.0.matured as int),
            final(self).swept(*old(self), pass.0.matured as int),
    {
        let ghost before = *self;
        proof {
            before.residency.lemma_facts();
            before.residency.lemma_keeps_itself();
        }
        let mut freed: Vec<ReadFrameIdx> = Vec::new();
        if !self.residency.retention.is_disabled() {
            freed = self.drain_release_entries();
        } else {
            proof {
                before.residency.retention.lemma_disabled();
            }
        }
        let ghost middle = *self;
        let released: u32 = freed.len() as u32;
        let _epoch: u64 = self.advance_epoch_only();
        let (drain, mut more) = self.drain_matured_entries(Ghost(middle));
        let report = DrainReport {
            released,
            first: if released > 0 {
                Some(DrainSource::Release)
            } else {
                drain.first
            },
            ..drain
        };
        let ghost first = freed@;
        let ghost second = more@;
        freed.append(&mut more);
        proof {
            let taken = drain.matured as int;
            middle.residency.lemma_facts();
            self.residency.lemma_facts();
            middle.residency.lemma_same_unretained(before.residency, taken);
            assert(freed@ =~= before.returned(taken));
            assert(middle.next_epoch() == before.next_epoch());
            assert(before.ripens(taken));
            lemma_joined(first, second);
            assert forall|f: ReadFrameIdx| before.residency.has(f) implies
                #[trigger] self.residency.frames.residency(f) == (if freed@.contains(f) {
                FrameState::Free
            } else {
                before.residency.frames.residency(f)
            }) by {
                assert(middle.residency.frames.residency(f) == (if first.contains(f) {
                    FrameState::Free
                } else {
                    before.residency.frames.residency(f)
                }));
            }
            assert forall|k: int| 0 <= k < freed@.len() implies before.residency.has(
                #[trigger] freed@[k],
            ) && before.residency.frames.residency(freed@[k]) is Evicting by {
                if k >= first.len() {
                    assert(freed@[k] == second[k - first.len()]);
                    assert(middle.residency.frames.residency(second[k - first.len()]) is Evicting);
                } else {
                    assert(freed@[k] == first[k]);
                }
            }
            assert forall|i: int, j: int|
                0 <= i < first.len() && 0 <= j < second.len() implies first[i] != second[j] by {
                assert(middle.residency.frames.residency(second[j]) is Evicting);
                if first[i] == second[j] {
                    assert(first.contains(first[i]));
                    assert(before.residency.has(first[i]));
                    assert(middle.residency.frames.residency(first[i]) is Free);
                }
            }
            assert(freed@.no_duplicates());
            assert forall|f: ReadFrameIdx| #[trigger] before.residency.protected(f) implies
                self.residency.has(f) && self.residency.frames.published(f)
                && self.residency.frames.contents(f) == before.residency.frames.contents(f)
                && self.residency.frames.page(f) == before.residency.frames.page(f) by {
                assert(middle.residency.retention.handles(f)
                    == before.residency.retention.handles(f));
                if before.residency.retention.handles(f) == 0 {
                    let r = choose|r: int| before.residency.pinned(r, f);
                    assert(middle.residency.pinned(r, f));
                }
                assert(middle.residency.protected(f));
            }
        }
        (report, freed)
    }

    /// One reclaim pass that leaves the freed frames free.
    pub fn drain_driver(&mut self) -> (report: DrainReport)
        requires
            old(self).wf(),
            old(self).unworn(),
        ensures
            final(self).wf(),
            report == old(self).report(report.matured as int),
            final(self).swept(*old(self), report.matured as int),
    {
        self.advance_and_reclaim().0
    }

    /// Whether the frame is free.
    pub fn frame_is_free(&self, frame: u32) -> (free: bool)
        requires
            self.wf(),
            self.residency.has(ReadFrameIdx(frame)),
        ensures
            free == (self.residency.frames.residency(ReadFrameIdx(frame)) is Free),
    {
        proof {
            self.residency.lemma_facts();
        }
        match self.residency.frames.state(ReadFrameIdx::new(frame)) {
            FrameState::Free => true,
            _ => false,
        }
    }

    /// Whether the frame waits for its eviction to mature, or is held beyond.
    pub fn frame_is_evicting(&self, frame: u32) -> (evicting: bool)
        requires
            self.wf(),
            self.residency.has(ReadFrameIdx(frame)),
        ensures
            evicting == (self.residency.frames.residency(ReadFrameIdx(frame)) is Evicting),
    {
        proof {
            self.residency.lemma_facts();
        }
        match self.residency.frames.state(ReadFrameIdx::new(frame)) {
            FrameState::Evicting => true,
            _ => false,
        }
    }

    /// Step `k` of refilling: the frame `freed[k]` comes to hold the page.
    pub open spec fn refill_step(
        steps: Seq<PoolModel>,
        k: int,
        freed: Seq<ReadFrameIdx>,
        page: PageId,
        generation: u8,
    ) -> bool {
        steps[k + 1].installed(steps[k], freed[k], page, generation)
    }

    /// `steps` refills the freed frames one after the other, from `start` to
    /// `end`.
    pub open spec fn refilling(
        steps: Seq<PoolModel>,
        start: PoolModel,
        end: PoolModel,
        freed: Seq<ReadFrameIdx>,
        page: PageId,
        generation: u8,
    ) -> bool {
        &&& steps.len() == freed.len() + 1
        &&& steps[0] == start
        &&& steps[freed.len() as int] == end
        &&& forall|k: int|
            0 <= k < freed.len() ==> #[trigger] Self::refill_step(
                steps,
                k,
                freed,
                page,
                generation,
            )
    }

    /// Every freed frame has been refilled with the page, in order.
    pub open spec fn refilled(
        self,
        other: PoolModel,
        freed: Seq<ReadFrameIdx>,
        page: PageId,
        generation: u8,
    ) -> bool {
        exists|steps: Seq<PoolModel>| #[trigger]
            Self::refilling(steps, other, self, freed, page, generation)
    }

    /// Refills each freed frame with the page.
    fn refill(&mut self, freed: &Vec<ReadFrameIdx>, page: PageId, generation: u8)
        requires
            old(self).wf(),
            old(self).fillable(),
            freed@.no_duplicates(),
            forall|k: int|
                0 <= k < freed@.len() ==> old(self).residency.has(#[trigger] freed@[k]) && old(self).residency.frames.residency(freed@[k]) is Free,
        ensures
            final(self).wf(),
            final(self).refilled(*old(self), freed@, page, generation),
            final(self).files == old(self).files,
    {
        let ghost start = *self;
        let ghost mut steps: Seq<PoolModel> = seq![start];
        let mut i: usize = 0;
        while i < freed.len()
            invariant
                i <= freed@.len(),
                self.wf(),
                start.fillable(),
                self.files == start.files,
                self.residency.frames.same_shape(start.residency.frames),
                freed@.no_duplicates(),
                steps.len() == i + 1,
                steps[0] == start,
                steps[i as int] == *self,
                forall|k: int|
                    0 <= k < i ==> #[trigger] Self::refill_step(steps, k, freed@, page, generation),
                forall|k: int|
                    0 <= k < freed@.len() ==> start.residency.has(#[trigger] freed@[k])
                        && start.residency.frames.residency(freed@[k]) is Free,
                forall|k: int|
                    i <= k < freed@.len() ==> self.residency.frames.word(#[trigger] freed@[k])
                        == start.residency.frames.word(freed@[k]),
            decreases freed@.len() - i,
        {
            let ghost before = *self;
            let frame: ReadFrameIdx = freed[i];
            proof {
                assert(self.residency.frames.word(freed@[i as int])
                    == start.residency.frames.word(freed@[i as int]));
                assert(start.residency.frames.generation(frame) < FRAME_GENERATION_MAX);
            }
            self.install(frame, page, generation);
            proof {
                let longer = steps.push(*self);
                assert forall|k: int| 0 <= k < i + 1 implies #[trigger] Self::refill_step(
                    longer,
                    k,
                    freed@,
                    page,
                    generation,
                ) by {
                    if k < i {
                        assert(Self::refill_step(steps, k, freed@, page, generation));
                    }
                }
                assert forall|k: int| i + 1 <= k < freed@.len() implies
                    self.residency.frames.word(#[trigger] freed@[k])
                    == start.residency.frames.word(freed@[k]) by {
                    assert(freed@[k] != freed@[i as int]);
                    assert(self.residency.frames.has(freed@[k]));
                }
                steps = longer;
            }
            i = i + 1;
        }
        proof {
            assert(Self::refilling(steps, start, *self, freed@, page, generation));
        }
    }

    /// The slot holds a file of another generation than `file_generation`.
    pub open spec fn outdated(self, file_generation: u32) -> bool {
        self.files.entry_at(0) matches Some(entry) && entry.id.generation != file_generation
    }

    /// What a polling pass does: one reclaim pass; the freed frames refilled;
    /// and, if any was freed while the slot held another generation, that
    /// generation replaced by the new one.
    pub open spec fn passed(
        self,
        other: PoolModel,
        taken: int,
        page: PageId,
        generation: u8,
        renews: bool,
    ) -> bool {
        exists|swept: PoolModel, filled: PoolModel|
            {
                &&& #[trigger] swept.swept(other, taken)
                &&& #[trigger] filled.refilled(swept, other.returned(taken), page, generation)
                &&& if renews && other.returned(taken).len() > 0 {
                    self.reopened(filled, page.file)
                } else {
                    self == filled
                }
            }
    }

    /// One reclaim pass that refills each freed frame with `refill_page` of
    /// generation zero.
    pub fn poll_pass(&mut self, refill_page: u32, refill_gen: u8) -> (report: DrainReport)
        requires
            old(self).wf(),
            old(self).unworn(),
            forall|taken: int| #[trigger]
                old(self).ripens(taken) && old(self).returned(taken).len() > 0 && old(self).outdated(0) ==> old(self).files.lease_at(0).count == 0,
        ensures
            final(self).wf(),
            report == old(self).report(report.matured as int),
            final(self).passed(
                *old(self),
                report.matured as int,
                modeled_page(0, refill_page),
                refill_gen,
                old(self).outdated(0),
            ),
    {
        self.poll_file_pass(0, refill_page, refill_gen)
    }

    /// One reclaim pass that refills each freed frame with a page of the given
    /// file generation, and makes that generation the live one where frames of
    /// another were freed.
    pub fn poll_file_pass(
        &mut self,
        file_generation: u32,
        refill_page: u32,
        refill_gen: u8,
    ) -> (report: DrainReport)
        requires
            old(self).wf(),
            old(self).unworn(),
            forall|taken: int| #[trigger]
                old(self).ripens(taken) && old(self).returned(taken).len() > 0 && old(self).outdated(file_generation) ==> old(self).files.lease_at(0).count == 0,
        ensures
            final(self).wf(),
            report == old(self).report(report.matured as int),
            final(self).passed(
                *old(self),
                report.matured as int,
                modeled_page(file_generation, refill_page),
                refill_gen,
                old(self).outdated(file_generation),
            ),
    {
        let ghost before = *self;
        let (report, freed) = self.advance_and_reclaim();
        let ghost swept = *self;
        proof {
            self.lemma_reclaimed(before, report.matured as int);
        }
        let page: PageId = Self::file_page_id(file_generation, refill_page);
        self.refill(&freed, page, refill_gen);
        let ghost filled = *self;
        if freed.len() > 0 {
            if let Some(entry) = self.files.entry(0) {
                if entry.id.generation() != file_generation {
                    proof {
                        assert(before.ripens(report.matured as int));
                    }
                    self.republish(page.file());
                }
            }
        }
        proof {
            assert(swept.swept(before, report.matured as int));
            assert(filled.refilled(
                swept,
                before.returned(report.matured as int),
                page,
                refill_gen,
            ));
        }
        report
    }

    /// After a reclaim pass the freed frames are free and may be filled again.
    proof fn lemma_reclaimed(self, before: PoolModel, taken: int)
        requires
            before.wf(),
            before.unworn(),
            self.wf(),
            self.swept(before, taken),
        ensures
            forall|k: int|
                0 <= k < before.returned(taken).len() ==> self.residency.has(
                    #[trigger] before.returned(taken)[k],
                ) && self.residency.frames.residency(before.returned(taken)[k]) is Free,
            self.fillable(),
    {
        let freed = before.returned(taken);
        assert forall|k: int| 0 <= k < freed.len() implies self.residency.has(
            #[trigger] freed[k],
        ) && self.residency.frames.residency(freed[k]) is Free by {
            assert(freed.contains(freed[k]));
        }
        assert forall|f: ReadFrameIdx| self.residency.has(f) implies
            #[trigger] self.residency.frames.generation(f) < FRAME_GENERATION_MAX by {
            assert(before.residency.has(f));
            assert(before.residency.frames.generation(f) < FRAME_GENERATION_MAX);
        }
    }

    /// The page of the retiring file, where the slot holds one.
    pub open spec fn retiring_page(self, page: u32) -> Option<PageId> {
        match self.files.entry_at(0) {
            Some(entry) => if entry.state is Retiring {
                Some(PageId { file: entry.id, granule_idx: page })
            } else {
                None
            },
            None => None,
        }
    }

    /// What a reopening pass does: a retiring file's page is unmapped, one
    /// reclaim pass runs, and the frame it frees takes the page of the new
    /// generation, which becomes the live one.
    pub open spec fn renewed(
        self,
        other: PoolModel,
        taken: int,
        id: FileId,
        page: u32,
        generation: u8,
    ) -> bool {
        exists|parted: PoolModel|
            {
                &&& match other.retiring_page(page) {
                    Some(target) => parted.unmapped(other, target),
                    None => parted == other,
                }
                &&& #[trigger] self.passed(
                    parted,
                    taken,
                    PageId { file: id, granule_idx: page },
                    generation,
                    true,
                )
            }
    }

    /// One reclaim pass over a retiring file: the slot is reopened with the new
    /// generation once the frame of the old one is free.
    pub fn poll_reopen(
        &mut self,
        new_file_generation: u32,
        page: u32,
        content_generation: u8,
    ) -> (report: DrainReport)
        requires
            old(self).wf(),
            old(self).unworn(),
            forall|taken: int| #[trigger]
                old(self).ripens(taken) && old(self).returned(taken).len() > 0 ==> {
                    &&& old(self).returned(taken).len() == 1
                    &&& old(self).files.entry_at(0) is Some
                    &&& old(self).files.lease_at(0).count == 0
                },
        ensures
            final(self).wf(),
            report == old(self).report(report.matured as int),
            report.released + report.matured_freed <= 1,
            final(self).renewed(
                *old(self),
                report.matured as int,
                modeled_page(new_file_generation, page).file,
                page,
                content_generation,
            ),
    {
        let ghost before = *self;
        proof {
            before.residency.lemma_facts();
        }
        if let Some(entry) = self.files.entry(0) {
            match entry.state {
                PoolFileState::Retiring => {
                    self.retire_file_frame(PageId::new(entry.id, page));
                },
                _ => {},
            }
        }
        let ghost parted = *self;
        proof {
            assert forall|f: ReadFrameIdx| parted.residency.has(f) implies
                #[trigger] parted.residency.frames.generation(f) < FRAME_GENERATION_MAX by {
                assert(before.residency.frames.generation(f) < FRAME_GENERATION_MAX);
            }
        }
        let (report, freed) = self.advance_and_reclaim();
        let ghost swept = *self;
        proof {
            let taken = report.matured as int;
            self.lemma_reclaimed(parted, taken);
            parted.lemma_parted(before, taken);
        }
        let id: FileId = FileId::new(0, 0, new_file_generation);
        let target: PageId = PageId::new(id, page);
        self.refill(&freed, target, content_generation);
        let ghost filled = *self;
        if freed.len() > 0 {
            self.republish(id);
        }
        proof {
            let taken = report.matured as int;
            assert(swept.swept(parted, taken));
            assert(filled.refilled(swept, parted.returned(taken), target, content_generation));
            assert(self.passed(parted, taken, target, content_generation, true));
        }
        report
    }

    /// An eviction joins the queue behind every eviction a pass at this epoch
    /// can take, so the pass frees what it would have freed without it.
    proof fn lemma_parted(self, before: PoolModel, taken: int)
        requires
            before.wf(),
            self.ripens(taken),
            self == before || exists|page: PageId| #[trigger] self.evicted(before, page),
        ensures
            before.ripens(taken),
            self.returned(taken) == before.returned(taken),
            self.report(taken) == before.report(taken),
            self.files == before.files,
    {
        if self != before {
            let page = choose|page: PageId| #[trigger] self.evicted(before, page);
            let queue = before.residency.evict_queue@;
            let longer = self.residency.evict_queue@;
            assert(self.next_epoch() == before.next_epoch());
            if taken > queue.len() {
                assert(matured(longer[queue.len() as int].1, self.next_epoch()));
            }
            assert forall|k: int| 0 <= k < queue.len() implies #[trigger] queue[k] == longer[k] by {
            }
            lemma_same_taken(self.residency, before.residency, taken);
        }
    }
}

/// Membership in two sequences laid end to end.
proof fn lemma_joined(first: Seq<ReadFrameIdx>, second: Seq<ReadFrameIdx>)
    ensures
        forall|f: ReadFrameIdx| #[trigger]
            (first + second).contains(f) <==> first.contains(f) || second.contains(f),
{
    let all = first + second;
    assert forall|f: ReadFrameIdx| #[trigger] all.contains(f) <==> first.contains(f)
        || second.contains(f) by {
        if first.contains(f) {
            let k = choose|k: int| 0 <= k < first.len() && first[k] == f;
            assert(all[k] == f);
        }
        if second.contains(f) {
            let k = choose|k: int| 0 <= k < second.len() && second[k] == f;
            assert(all[first.len() + k] == f);
        }
        if all.contains(f) {
            let k = choose|k: int| 0 <= k < all.len() && all[k] == f;
            if k < first.len() {
                assert(first[k] == f);
            } else {
                assert(second[k - first.len()] == f);
            }
        }
    }
}

/// The frames freed from the front of the queue do not depend on what follows.
proof fn lemma_same_taken(longer: Residency, shorter: Residency, taken: int)
    requires
        0 <= taken <= shorter.evict_queue@.len() <= longer.evict_queue@.len(),
        longer.retention == shorter.retention,
        forall|k: int|
            0 <= k < shorter.evict_queue@.len() ==> #[trigger] shorter.evict_queue@[k]
                == longer.evict_queue@[k],
    ensures
        longer.unretained(taken) == shorter.unretained(taken),
    decreases taken,
{
    if taken > 0 {
        lemma_same_taken(longer, shorter, taken - 1);
        assert(shorter.evict_queue@[taken - 1] == longer.evict_queue@[taken - 1]);
    }
}

/// While a guard is held, no step that keeps protected frames changes the
/// generation it reads.
pub proof fn a_guard_reads_one_generation(before: PoolModel, after: PoolModel, guard: Guard)
    requires
        before.wf(),
        before.lends(guard),
        after.residency.keeps(before.residency),
    ensures
        after.residency.frames.published(guard.pin().pinned()),
        after.residency.frames.contents(guard.pin().pinned())
            == before.residency.frames.contents(guard.pin().pinned()),
{
    before.residency.lemma_facts();
    let frame = guard.pin().pinned();
    let reader = guard.pin().holder() as int;
    assert(before.residency.pinned(reader, frame));
    assert(before.residency.pins@[reader].count(frame) > 0);
    assert(before.residency.protected(frame));
}

/// A reclaim pass frees no frame a guard is held over.
pub proof fn a_reclaim_pass_spares_guarded_frames(
    before: PoolModel,
    after: PoolModel,
    taken: int,
    guard: Guard,
)
    requires
        before.wf(),
        before.lends(guard),
        after.swept(before, taken),
    ensures
        !before.returned(taken).contains(guard.pin().pinned()),
        !(after.residency.frames.residency(guard.pin().pinned()) is Free),
{
    a_guard_reads_one_generation(before, after, guard);
    before.residency.lemma_facts();
    let frame = guard.pin().pinned();
    let reader = guard.pin().holder() as int;
    assert(before.residency.pinned(reader, frame));
    assert(before.residency.pins@[reader].count(frame) > 0);
    assert(before.residency.has(frame));
}

/// Dropping one of several guards of a reader does not make it quiescent.
pub proof fn a_nested_drop_keeps_the_epoch(before: PoolModel, after: PoolModel, guard: Guard)
    requires
        before.wf(),
        before.lends(guard),
        before.guards(guard.pin().holder() as int) > 1,
        after.residency.unpinned(
            before.residency,
            guard.pin().holder() as int,
            guard.pin().pinned(),
        ),
    ensures
        ({
            let reader = guard.pin().holder() as int;
            &&& after.residency.readers@[reader].local_epoch
                == before.residency.readers@[reader].local_epoch
            &&& after.residency.readers@[reader].local_epoch != QUIESCENT
        }),
{
    before.residency.lemma_facts();
    let reader = guard.pin().holder() as int;
    assert(crate::pool::residency::reader_ok(
        before.residency.readers@[reader],
        before.residency.pins@[reader],
        before.residency.epoch,
    ));
}

} // verus!
