//! Waiting for and predicting pages in the bounded model.

use crate::driver::{FileId, OpToken};
use crate::pool::cache::{flight_at, flown, write_at};
use crate::pool::clock::SpeculationOutcome;
use crate::pool::epoch::{matured, permits};
use crate::pool::frames::{ArenaId, FrameState, ReadFrameIdx, FRAME_GENERATION_MAX};
use crate::pool::miss::{MissInterest, MissOutcome, MissSlot};
use crate::pool::model::{modeled_page, DrainReport, PoolModel};
use crate::pool::prefetch::ledger::{Prefetch, Terminal, WEAR_MAX};
use crate::pool::prefetch::{PrefetchStats, Source};
use crate::pool::residency::reader_ok;
use crate::pool::span_model::ReadaheadControl;
use crate::pool::{PageId, SECTOR_BYTES};
use vstd::prelude::*;

verus! {

/// An interest in a page of the model: the exact miss it waits for, or the
/// identity of a page that was resident.
pub struct JoinedSpan {
    arena: ArenaId,
    page: PageId,
    interest: Option<(MissSlot, u64)>,
}

impl JoinedSpan {
    pub closed spec fn arena(self) -> ArenaId {
        self.arena
    }

    pub closed spec fn wanted(self) -> PageId {
        self.page
    }

    pub closed spec fn interest(self) -> Option<(MissSlot, u64)> {
        self.interest
    }
}

impl PoolModel {
    /// `joined` is an interest of this model that has not been dropped.
    pub open spec fn honours(self, joined: JoinedSpan) -> bool {
        &&& self.readahead is Some
        &&& joined.arena() == self.residency.frames.arena()
        &&& joined.interest() matches Some((slot, generation)) ==> {
            &&& slot.0 < self.books().miss.capacity()
            &&& self.books().miss.entry_at(slot.0 as int) matches Some(entry) && entry.generation
                == generation && entry.page == joined.wanted()
            &&& self.books().interests@[slot.0 as int].waiters > 0
        }
    }

    /// The miss slot `page` is pending in.
    pub open spec fn pending_at(self, page: PageId, index: int) -> bool {
        self.books().miss.is_pending(index) && self.books().miss.entry_at(index)->0.page == page
    }

    /// What joining a page does: a resident page is only named; a pending one
    /// gains a waiter, and its prediction counts as demanded by reader zero.
    pub open spec fn span_joined(self, other: PoolModel, page: PageId, joined: JoinedSpan) -> bool {
        &&& joined.arena() == other.residency.frames.arena()
        &&& joined.wanted() == page
        &&& if other.residency.table@.contains_key(page) {
            joined.interest() is None && self == other
        } else {
            exists|index: int| #[trigger]
                other.pending_at(page, index) && self.page_joined(other, index, joined)
        }
    }

    /// The pending miss `index` has gained one waiter.
    pub open spec fn page_joined(self, other: PoolModel, index: int, joined: JoinedSpan) -> bool {
        let (now, was) = (self.books(), other.books());
        let entry = was.miss.entry_at(index)->0;
        &&& joined.interest() == Some((MissSlot(index as u32), entry.generation))
        &&& self.residency == other.residency
        &&& self.files == other.files
        &&& self.held == other.held
        &&& self.wait == other.wait
        &&& self.locked_checks == other.locked_checks
        &&& self.readahead is Some
        &&& now.miss == was.miss
        &&& now.interests@ == was.interests@.update(
            index,
            MissInterest {
                generation: entry.generation,
                waiters: (was.interests@[index].waiters + 1) as u32,
            },
        )
        &&& now.in_flight_alike(was)
        &&& now.writes == was.writes
        &&& now.reads_in_flight == was.reads_in_flight
        &&& if was.prefetch.entry_of(entry.frame) is Some {
            &&& now.prefetch.ended(
                was.prefetch,
                other.clock,
                entry.frame,
                Terminal::Promoted(Some(0)),
            )
            &&& self.clock.unmarked(other.clock, entry.frame)
        } else {
            now.prefetch == was.prefetch && self.clock == other.clock
        }
    }

    /// Retains an interest in a page that is pending or resident.
    pub fn join_span_page(&mut self, page: u32) -> (joined: JoinedSpan)
        requires
            old(self).wf(),
            old(self).speculates(0),
            old(self).residency.table@.contains_key(modeled_page(0, page)) || exists|index: int|
                #[trigger] old(self).pending_at(modeled_page(0, page), index),
            forall|index: int| #[trigger]
                old(self).pending_at(modeled_page(0, page), index) ==> old(self).books().interests@[index].waiters < u32::MAX,
        ensures
            final(self).wf(),
            final(self).honours(joined),
            final(self).span_joined(*old(self), modeled_page(0, page), joined),
    {
        let ghost before = *self;
        let ghost was = before.books();
        let page: PageId = PageId::new(FileId::new(0, 0, 0), page);
        proof {
            before.residency.lemma_facts();
        }
        let arena: ArenaId = self.residency.id();
        if self.residency.table.lookup(page).is_some() {
            return JoinedSpan { arena, page, interest: None };
        }
        let mut control: ReadaheadControl = match self.readahead.take() {
            Some(control) => control,
            None => { vstd::pervasive::unreached() },
        };
        proof {
            let index = choose|index: int| #[trigger] before.pending_at(page, index);
            assert(was.miss.is_pending(index));
        }
        let index: usize = match control.miss.find_pending(page) {
            Some(index) => index,
            None => { vstd::pervasive::unreached() },
        };
        proof {
            assert(before.pending_at(page, index as int));
            was.miss.lemma_entry(index as int);
        }
        let interest: (MissSlot, u64) = control.miss.join(index, &mut control.interests);
        let frame: ReadFrameIdx = match control.miss.entry(index) {
            Some(entry) => entry.frame,
            None => { vstd::pervasive::unreached() },
        };
        control.prefetch.finish(&mut self.clock, frame, Terminal::Promoted(Some(0)));
        self.readahead = Some(control);
        proof {
            self.books().lemma_alike(was, self.residency.frames);
        }
        JoinedSpan { arena, page, interest: Some(interest) }
    }

    /// Gives an interest back.
    pub fn drop_joined(&mut self, joined: JoinedSpan)
        requires
            old(self).wf(),
            old(self).honours(joined),
        ensures
            final(self).wf(),
            match joined.interest() {
                Some((slot, generation)) => {
                    &&& final(self).residency == old(self).residency
                    &&& final(self).clock == old(self).clock
                    &&& final(self).files == old(self).files
                    &&& final(self).held == old(self).held
                    &&& final(self).wait == old(self).wait
                    &&& final(self).locked_checks == old(self).locked_checks
                    &&& final(self).readahead is Some
                    &&& final(self).books().in_flight_alike(old(self).books())
                    &&& final(self).books().prefetch == old(self).books().prefetch
                    &&& final(self).books().writes == old(self).books().writes
                    &&& final(self).books().reads_in_flight == old(self).books().reads_in_flight
                    &&& final(self).books().interests@ == old(self).books().interests@.update(
                        slot.0 as int,
                        MissInterest {
                            generation,
                            waiters: (old(self).books().interests@[slot.0 as int].waiters
                                - 1) as u32,
                        },
                    )
                },
                None => *final(self) == *old(self),
            },
    {
        let ghost before = *self;
        if let Some((slot, generation)) = joined.interest {
            let mut control: ReadaheadControl = match self.readahead.take() {
                Some(control) => control,
                None => { vstd::pervasive::unreached() },
            };
            let _left: u32 = control.interests.release(slot, generation);
            self.readahead = Some(control);
            proof {
                self.books().lemma_alike(before.books(), self.residency.frames);
            }
        }
    }

    /// A page has been read under a pin that was dropped again: only the clock
    /// may have noticed.
    pub open spec fn looked_at(self, other: PoolModel, reader: u32, frame: ReadFrameIdx) -> bool {
        &&& self.beside(other)
        &&& self.wait == other.wait
        &&& self.clock.touched(other.clock, frame, Some(reader))
        &&& self.residency.same_but_readers(other.residency)
        &&& self.residency.readers@ == other.residency.readers@
        &&& self.residency.pins@ == other.residency.pins@
    }

    /// The bytes of a mapped page, read under a pin of the reader that is
    /// dropped again.
    fn pin_readahead_page(&mut self, reader: u32, page: PageId) -> (bytes: Option<Vec<u8>>)
        requires
            old(self).wf(),
            reader < 2,
            old(self).guards(reader as int) < u64::MAX,
        ensures
            final(self).wf(),
            bytes is Some <==> old(self).residency.table@.contains_key(page),
            match bytes {
                Some(copy) => {
                    let frame = old(self).residency.table@[page];
                    &&& copy@ == old(self).residency.frames.contents(frame)
                    &&& final(self).looked_at(*old(self), reader, frame)
                },
                None => *final(self) == *old(self),
            },
    {
        let ghost before = *self;
        proof {
            before.residency.lemma_facts();
        }
        match self.residency.pin(reader, page) {
            Some(frame) => {
                let ghost pinned = *self;
                proof {
                    pinned.residency.lemma_facts();
                    pinned.residency.frames.lemma_positive();
                    let mine = before.residency.pins@[reader as int];
                    assert(mine.insert(frame).remove(frame) =~= mine);
                    assert(pinned.residency.pins@[reader as int].count(frame) > 0);
                    pinned.residency.frames.lemma_published(frame);
                }
                let _stored: bool = self.clock.reference_from(frame, Some(reader));
                let copy: Vec<u8> = self.residency.frames.copy_frame(
                    frame,
                    SECTOR_BYTES as usize,
                );
                self.residency.unpin(reader, frame);
                proof {
                    self.residency.lemma_facts();
                    assert(copy@ =~= before.residency.frames.contents(frame));
                    assert(self.residency.pins@ =~= before.residency.pins@);
                    assert(crate::pool::residency::reader_ok(
                        before.residency.readers@[reader as int],
                        before.residency.pins@[reader as int],
                        before.residency.epoch,
                    ));
                    assert(self.residency.readers@ =~= before.residency.readers@);
                    self.lemma_beside(before);
                }
                Some(copy)
            },
            None => None,
        }
    }

    /// The bytes of a joined page once its read has succeeded.
    pub fn joined_span_bytes(&mut self, joined: &JoinedSpan) -> (bytes: Option<Vec<u8>>)
        requires
            old(self).wf(),
            old(self).honours(*joined),
            old(self).guards(0) < u64::MAX,
        ensures
            final(self).wf(),
            ({
                let settled = joined.interest() matches Some((slot, _)) ==> old(self).books().miss.entry_at(slot.0 as int)->0.outcome == MissOutcome::Succeeded;
                let ready = settled && old(self).residency.table@.contains_key(joined.wanted());
                let frame = old(self).residency.table@[joined.wanted()];
                match bytes {
                    Some(copy) => {
                        &&& ready
                        &&& copy@ == old(self).residency.frames.contents(frame)
                        &&& final(self).looked_at(*old(self), 0, frame)
                    },
                    None => !ready && *final(self) == *old(self),
                }
            }),
    {
        if let Some((slot, generation)) = joined.interest {
            if let Some(control) = &self.readahead {
                if let Some(entry) = control.miss.validate(slot, generation, joined.page) {
                    match entry.outcome {
                        MissOutcome::Succeeded => {},
                        _ => {
                            return None;
                        },
                    }
                }
            }
        }
        self.pin_readahead_page(0, joined.page)
    }

    /// The bytes of a resident prediction, consumed by the reader.
    pub fn consume_readahead(&mut self, reader: u32, page: u32) -> (bytes: Vec<u8>)
        requires
            old(self).wf(),
            reader < 2,
            old(self).guards(reader as int) < u64::MAX,
            old(self).residency.table@.contains_key(modeled_page(0, page)),
        ensures
            final(self).wf(),
            ({
                let frame = old(self).residency.table@[modeled_page(0, page)];
                &&& bytes@ == old(self).residency.frames.contents(frame)
                &&& final(self).looked_at(*old(self), reader, frame)
            }),
    {
        match self.pin_readahead_page(reader, PageId::new(FileId::new(0, 0, 0), page)) {
            Some(bytes) => bytes,
            None => { vstd::pervasive::unreached() },
        }
    }

    /// The operation slot a token names; the model has one.
    pub fn span_operation_slot(&self, token: OpToken) -> (slot: u32)
        requires
            token.slot == 0,
        ensures
            slot == 0,
    {
        token.slot()
    }

    /// The admitted pages whose read has no outcome yet.
    pub fn read_credits_used(&self) -> (used: u32)
        requires
            self.readahead is Some,
        ensures
            used == self.books().reads_in_flight,
    {
        match &self.readahead {
            Some(control) => control.reads_in_flight,
            None => 0,
        }
    }

    /// The books of the predictions.
    pub fn readahead_stats(&self) -> (stats: PrefetchStats)
        requires
            self.wf(),
            self.readahead is Some,
        ensures
            stats == (PrefetchStats {
                capacity: self.books().prefetch.credits() as u32,
                reserve_free: self.books().prefetch.reserved().len() as u32,
                reads_in_flight: self.books().reads_in_flight,
                ..self.books().prefetch.stats()
            }),
    {
        match &self.readahead {
            Some(control) => {
                let mut stats: PrefetchStats = control.prefetch.books();
                stats.capacity = control.prefetch.capacity();
                stats.reserve_free = control.prefetch.reserve_len();
                stats.reads_in_flight = control.reads_in_flight;
                stats
            },
            None => { vstd::pervasive::unreached() },
        }
    }

    /// The next page the reader's stream predicts.
    pub fn next_readahead_page(&self, reader: u32) -> (page: Option<u32>)
        requires
            self.wf(),
            self.readahead is Some,
            reader < 2,
        ensures
            page == (match self.books().prefetch.patterns()[reader as int].prediction(reader) {
                Some((next, _)) => Some(next.granule_idx),
                None => None,
            }),
    {
        match &self.readahead {
            Some(control) => match control.prefetch.request(reader) {
                Some((next, _)) => Some(next.granule_idx()),
                None => None,
            },
            None => None,
        }
    }

    /// What a demand teaches the predictor: queued feedback is taken in first.
    pub open spec fn observed(self, other: PoolModel, reader: u32, page: PageId) -> bool {
        let (now, was) = (self.books(), other.books());
        &&& self.residency == other.residency
        &&& self.files == other.files
        &&& self.held == other.held
        &&& self.wait == other.wait
        &&& self.locked_checks == other.locked_checks
        &&& self.readahead is Some
        &&& now.in_flight_alike(was)
        &&& now.interests == was.interests
        &&& now.writes == was.writes
        &&& now.reads_in_flight == was.reads_in_flight
        &&& self.clock.same_references(other.clock)
        &&& exists|calm: Prefetch|
            {
                &&& #[trigger] calm.caught_up(was.prefetch, other.clock, self.clock)
                &&& now.prefetch.trained(calm, reader, page)
            }
    }

    /// Supplies one demand of the reader to the predictor.
    pub fn observe_readahead(&mut self, reader: u32, page: u32)
        requires
            old(self).wf(),
            old(self).speculates(0),
            reader < 2,
        ensures
            final(self).wf(),
            final(self).observed(*old(self), reader, modeled_page(0, page)),
    {
        let ghost before = *self;
        let mut control: ReadaheadControl = match self.readahead.take() {
            Some(control) => control,
            None => { vstd::pervasive::unreached() },
        };
        control.prefetch.observe(
            &mut self.clock,
            reader,
            PageId::new(FileId::new(0, 0, 0), page),
        );
        self.readahead = Some(control);
        proof {
            self.books().lemma_alike(before.books(), self.residency.frames);
        }
    }

    /// What parts a resident frame from its page before reuse: the page is
    /// unmapped and its eviction queued, its settled miss forgotten and its
    /// prediction ended as evicted.
    pub open spec fn dismissed(self, other: PoolModel, frame: ReadFrameIdx) -> bool {
        let (now, was) = (self.books(), other.books());
        &&& self.residency.keeps(other.residency)
        &&& self.residency.evicted(other.residency, other.residency.frames.page(frame)->0)
        &&& self.files == other.files
        &&& self.held == other.held
        &&& self.wait == other.wait
        &&& self.locked_checks == other.locked_checks
        &&& self.readahead is Some
        &&& now.miss.protection(frame) is None
        &&& was.miss.protection(frame) is None ==> now.miss == was.miss
        &&& was.miss.protection(frame) matches Some(kept) ==> {
            &&& now.miss.same_except(was.miss, kept.slot.0 as int)
            &&& now.miss.entry_at(kept.slot.0 as int) is None
            &&& now.miss.pending_count() == was.miss.pending_count()
        }
        &&& now.interests == was.interests
        &&& now.spans == was.spans
        &&& now.operation == was.operation
        &&& now.turn == was.turn
        &&& now.writes == was.writes
        &&& now.reads_in_flight == was.reads_in_flight
        &&& if was.prefetch.entry_of(frame) is Some {
            &&& now.prefetch.ended(was.prefetch, other.clock, frame, Terminal::Evicted)
            &&& self.clock.unmarked(other.clock, frame)
        } else {
            now.prefetch == was.prefetch && self.clock == other.clock
        }
    }

    /// Parts a resident frame from its page.
    #[verifier::rlimit(60)]
    fn dismiss(&mut self, frame: ReadFrameIdx)
        requires
            old(self).wf(),
            old(self).speculates(0),
            old(self).reclaimable(frame),
        ensures
            final(self).wf(),
            final(self).dismissed(*old(self), frame),
    {
        let ghost before = *self;
        let ghost was = before.books();
        proof {
            before.residency.lemma_facts();
            before.residency.frames.lemma_published(frame);
        }
        let page: PageId = self.residency.frames.exact_page(frame);
        let mut control: ReadaheadControl = match self.readahead.take() {
            Some(control) => control,
            None => { vstd::pervasive::unreached() },
        };
        let _free: bool = control.miss.prepare_eviction(frame, &control.interests);
        control.prefetch.finish(&mut self.clock, frame, Terminal::Evicted);
        let _evicted: Option<ReadFrameIdx> = self.residency.evict(page);
        let ghost now = control;
        self.readahead = Some(control);
        proof {
            self.residency.lemma_facts();
            if was.miss.protection(frame) is Some {
                was.miss.lemma_protection(frame);
            }
            assert forall|i: int| #[trigger] now.miss.is_pending(i) implies was.miss.is_pending(i)
                && now.miss.entry_at(i) == was.miss.entry_at(i) by {}
            assert forall|i: int| #[trigger] was.miss.is_pending(i) implies now.miss.is_pending(i)
                && now.miss.entry_at(i) == was.miss.entry_at(i) by {}
            assert forall|i: int| #[trigger] now.miss.is_pending(i) implies flight_at(
                self.residency.frames,
                now.miss.entry_at(i)->0,
            ) by {
                assert(was.miss.is_pending(i));
                assert(flight_at(before.residency.frames, was.miss.entry_at(i)->0));
            }
            assert forall|f: ReadFrameIdx|
                self.residency.has(f) && #[trigger] self.residency.frames.residency(
                    f,
                ) is InFlight implies flown(now.miss, f) by {
                assert(before.residency.frames.residency(f) is InFlight);
                assert(flown(was.miss, f));
                let i = choose|i: int| #[trigger]
                    was.miss.is_pending(i) && was.miss.entry_at(i)->0.frame == f;
                assert(now.miss.is_pending(i));
            }
            assert forall|f: ReadFrameIdx| self.residency.has(f) implies write_at(
                self.residency.frames,
                f,
                #[trigger] now.writes@[f.0 as int],
            ) by {
                assert(write_at(before.residency.frames, f, was.writes@[f.0 as int]));
            }
            if was.operation is Some {
                let read = was.operation->0;
                let span = was.flying();
                assert(now.flying() == span);
                assert forall|k: int|
                    span.complete_prefix() <= k < span.pages_len() implies #[trigger] now.awaits(
                    span,
                    k,
                    read.contents@[k],
                    self.residency.frames,
                ) by {
                    assert(was.awaits(span, k, read.contents@[k], before.residency.frames));
                    let index = span.page_at(k)->0.slot.0 as int;
                    assert(flight_at(before.residency.frames, was.miss.entry_at(index)->0));
                    assert(now.miss.is_pending(index));
                }
            }
        }
    }

    /// A resident frame can be reclaimed at once: its page is mapped to it, no
    /// reader holds a guard, and nobody waits on its miss.
    pub open spec fn reclaimable(self, frame: ReadFrameIdx) -> bool {
        &&& self.residency.has(frame)
        &&& self.residency.frames.residency(frame) is Resident
        &&& self.residency.table@.contains_key(self.residency.frames.page(frame)->0)
        &&& self.residency.table@[self.residency.frames.page(frame)->0] == frame
        &&& self.guards(0) == 0
        &&& self.guards(1) == 0
        &&& !self.books().miss.guarded(self.books().interests, frame)
        &&& self.residency.epoch + 2 < WEAR_MAX
        &&& self.unworn()
    }

    /// The frame has been made free for reuse: at once if it was free, else by
    /// an eviction and the two reclaim passes of its grace period.
    pub open spec fn cleared(self, other: PoolModel, frame: ReadFrameIdx) -> bool {
        if other.residency.frames.residency(frame) is Free {
            self == other
        } else {
            exists|parted: PoolModel, once: PoolModel, first: int, second: int|
                {
                    &&& #[trigger] parted.dismissed(other, frame)
                    &&& #[trigger] once.swept(parted, first)
                    &&& #[trigger] self.swept(once, second)
                }
        }
    }

    /// Reclaims a resident frame through its grace period.
    #[verifier::rlimit(60)]
    fn make_speculative_resident_reclaim(&mut self, frame: ReadFrameIdx)
        requires
            old(self).wf(),
            old(self).speculates(0),
            old(self).reclaimable(frame),
        ensures
            final(self).wf(),
            final(self).readahead is Some,
            final(self).cleared(*old(self), frame),
            final(self).residency.frames.residency(frame) is Free,
            final(self).residency.frames.same_shape(old(self).residency.frames),
            final(self).residency.frames.generation(frame) == old(self).residency.frames.generation(frame),
            final(self).books().prefetch.wear() <= old(self).books().prefetch.wear() + 1,
    {
        let ghost before = *self;
        proof {
            before.residency.lemma_facts();
            before.residency.retention.lemma_disabled();
        }
        self.dismiss(frame);
        let ghost parted = *self;
        proof {
            parted.residency.lemma_facts();
            parted.residency.retention.lemma_disabled();
            assert forall|f: ReadFrameIdx| parted.residency.has(f) implies
                #[trigger] parted.residency.frames.generation(f) < FRAME_GENERATION_MAX by {
                assert(before.residency.frames.generation(f) < FRAME_GENERATION_MAX);
            }
            parted.lemma_quiet();
        }
        let first: DrainReport = self.drain_driver();
        let ghost once = *self;
        proof {
            once.residency.lemma_facts();
            assert forall|f: ReadFrameIdx| once.residency.has(f) implies
                #[trigger] once.residency.frames.generation(f) < FRAME_GENERATION_MAX by {
                assert(parted.residency.frames.generation(f) < FRAME_GENERATION_MAX);
            }
            once.lemma_quiet();
            let queue = parted.residency.evict_queue@;
            let last = queue.len() - 1;
            assert(queue[last] == (frame, before.residency.epoch));
            assert(first.matured <= last);
            assert(once.residency.evict_queue@[last - first.matured] == queue[last]);
            if parted.returned(first.matured as int).contains(frame) {
                parted.lemma_not_taken(first.matured as int, frame);
            }
        }
        let second: DrainReport = self.drain_driver();
        proof {
            let queue = once.residency.evict_queue@;
            let last = queue.len() - 1;
            assert(queue[last].0 == frame);
            assert(second.matured == queue.len()) by {
                if second.matured < queue.len() {
                    assert(!matured(queue[last].1, once.next_epoch()));
                }
            }
            once.residency.retention.lemma_disabled();
            once.lemma_taken(queue.len() as int, last);
            assert(parted.dismissed(before, frame));
            assert(once.swept(parted, first.matured as int));
            assert(self.swept(once, second.matured as int));
        }
    }

    /// With no guard held, the epoch moves.
    proof fn lemma_quiet(self)
        requires
            self.wf(),
            self.guards(0) == 0,
            self.guards(1) == 0,
            self.residency.epoch < WEAR_MAX,
        ensures
            self.next_epoch() == self.residency.epoch + 1,
    {
        self.residency.lemma_facts();
        let readers = self.residency.readers@;
        assert forall|i: int| 0 <= i < readers.len() implies permits(
            #[trigger] readers[i],
            self.residency.epoch,
        ) by {
            assert(reader_ok(readers[i], self.residency.pins@[i], self.residency.epoch));
        }
    }

    /// A queued eviction no handle retains is among those freed.
    proof fn lemma_taken(self, taken: int, k: int)
        requires
            0 <= k < taken <= self.residency.evict_queue@.len(),
            !self.residency.retention.enabled(),
        ensures
            self.returned(taken).contains(self.residency.evict_queue@[k].0),
        decreases taken,
    {
        self.residency.retention.lemma_disabled();
        let frame = self.residency.evict_queue@[k].0;
        let freed = self.residency.unretained(taken);
        let last = self.residency.evict_queue@[taken - 1].0;
        assert(self.residency.retention.handles(last) == 0);
        assert(freed == self.residency.unretained(taken - 1).push(last));
        if k < taken - 1 {
            self.lemma_taken(taken - 1, k);
            let earlier = self.residency.unretained(taken - 1);
            assert(self.returned(taken - 1) =~= earlier);
            let i = choose|i: int| 0 <= i < earlier.len() && earlier[i] == frame;
            assert(freed[i] == frame);
        } else {
            assert(freed[freed.len() - 1] == frame);
        }
        assert(self.returned(taken) =~= freed);
    }

    /// The last eviction in the queue is not among the first `taken`.
    proof fn lemma_not_taken(self, taken: int, frame: ReadFrameIdx)
        requires
            self.wf(),
            !self.residency.retention.enabled(),
            0 <= taken < self.residency.evict_queue@.len(),
            self.residency.evict_queue@.last().0 == frame,
        ensures
            !self.returned(taken).contains(frame),
    {
        self.residency.lemma_facts();
        self.residency.retention.lemma_disabled();
        self.lemma_only_taken(taken);
        if self.returned(taken).contains(frame) {
            let k = choose|k: int|
                0 <= k < taken && #[trigger] self.residency.evict_queue@[k].0 == frame;
            let last = self.residency.evict_queue@.len() - 1;
            assert(self.residency.evict_queue@[k].0 != self.residency.evict_queue@[last].0);
        }
    }

    /// Only queued evictions are freed from the queue.
    proof fn lemma_only_taken(self, taken: int)
        requires
            !self.residency.retention.enabled(),
            0 <= taken <= self.residency.evict_queue@.len(),
        ensures
            forall|f: ReadFrameIdx| #[trigger]
                self.returned(taken).contains(f) ==> exists|k: int|
                    0 <= k < taken && #[trigger] self.residency.evict_queue@[k].0 == f,
        decreases taken,
    {
        self.residency.retention.lemma_disabled();
        assert(self.returned(taken) =~= self.residency.unretained(taken));
        if taken > 0 {
            self.lemma_only_taken(taken - 1);
            assert(self.returned(taken - 1) =~= self.residency.unretained(taken - 1));
            let last = self.residency.evict_queue@[taken - 1].0;
            assert(self.residency.retention.handles(last) == 0);
            assert forall|f: ReadFrameIdx| #[trigger]
                self.returned(taken).contains(f) implies exists|k: int|
                0 <= k < taken && #[trigger] self.residency.evict_queue@[k].0 == f by {
                let freed = self.residency.unretained(taken);
                let i = choose|i: int| 0 <= i < freed.len() && freed[i] == f;
                if i < freed.len() - 1 {
                    let earlier = self.residency.unretained(taken - 1);
                    assert(earlier[i] == f);
                    assert(self.returned(taken - 1).contains(f));
                    let k = choose|k: int|
                        0 <= k < taken - 1 && #[trigger] self.residency.evict_queue@[k].0 == f;
                    assert(0 <= k < taken && self.residency.evict_queue@[k].0 == f);
                } else {
                    assert(self.residency.evict_queue@[taken - 1].0 == f);
                }
            }
        }
    }

    /// The reader's stream predicts `page`, and the free frame can take it.
    pub open spec fn predicts(self, reader: u32, frame: ReadFrameIdx, page: PageId) -> bool {
        let prefetch = self.books().prefetch;
        &&& self.readahead is Some
        &&& self.residency.frames.residency(frame) is Free
        &&& !self.residency.table@.contains_key(page)
        &&& prefetch.queued_feedback().len() == 0
        &&& prefetch.stats().occupied < prefetch.credits()
        &&& prefetch.entry_of(frame) is None
        &&& prefetch.patterns()[reader as int].prediction(reader) matches Some((next, _)) && next
            == page
    }

    /// The source the reader's next prediction comes from.
    pub open spec fn source_of(self, reader: u32) -> Source {
        match self.books().prefetch.patterns()[reader as int].prediction(reader) {
            Some((_, source)) => source,
            None => Source::Explicit,
        }
    }

    /// The prediction of `page` has been booked and made resident in `frame`.
    pub open spec fn predicted(
        self,
        other: PoolModel,
        reader: u32,
        frame: ReadFrameIdx,
        page: PageId,
        content: u8,
    ) -> bool {
        let (now, was) = (self.books(), other.books());
        &&& self.residency.table@ == other.residency.table@.insert(page, frame)
        &&& self.residency.readers == other.residency.readers
        &&& self.residency.evict_queue == other.residency.evict_queue
        &&& self.residency.retention == other.residency.retention
        &&& self.residency.epoch == other.residency.epoch
        &&& self.residency.pins == other.residency.pins
        &&& self.residency.keeps(other.residency)
        &&& self.residency.frames.same_except(other.residency.frames, frame)
        &&& self.residency.frames.residency(frame) is Resident
        &&& self.residency.frames.generation(frame) == other.residency.frames.generation(frame) + 1
        &&& self.residency.frames.page(frame) == Some(page)
        &&& self.residency.frames.contents(frame) == Seq::new(
            SECTOR_BYTES as nat,
            |j: int| content,
        )
        &&& self.files == other.files
        &&& self.held == other.held
        &&& self.wait == other.wait
        &&& self.locked_checks == other.locked_checks
        &&& self.readahead is Some
        &&& now.in_flight_alike(was)
        &&& now.interests == was.interests
        &&& now.writes == was.writes
        &&& now.reads_in_flight == was.reads_in_flight
        &&& self.clock.frame_count() == other.clock.frame_count()
        &&& self.clock.consumed_frames() == other.clock.consumed_frames()
        &&& self.clock.completed_frames() == other.clock.completed_frames().insert(frame)
        &&& forall|f: ReadFrameIdx|
            self.clock.has(f) ==> #[trigger] self.clock.speculation(f) == (if f == frame {
                SpeculationOutcome::Unconsumed
            } else {
                other.clock.speculation(f)
            })
        &&& exists|booked: Prefetch|
            {
                &&& #[trigger] booked.enrolled(
                    was.prefetch,
                    page,
                    frame,
                    other.source_of(reader),
                )
                &&& now.prefetch.repatterned(
                    booked,
                    reader,
                    booked.patterns()[reader as int].advanced(),
                )
            }
    }

    /// Makes the next prediction of the reader's stream resident in `frame`,
    /// reclaiming the frame first where it holds another page.
    #[verifier::rlimit(60)]
    pub fn make_speculative_resident(&mut self, reader: u32, frame: u32, page: u32, content: u8)
        requires
            old(self).wf(),
            old(self).speculates(4),
            old(self).unworn(),
            reader < 2,
            old(self).residency.has(ReadFrameIdx(frame)),
            old(self).residency.frames.residency(ReadFrameIdx(frame)) is Free || old(self).reclaimable(ReadFrameIdx(frame)),
            forall|cleared: PoolModel| #[trigger]
                cleared.cleared(*old(self), ReadFrameIdx(frame)) ==> cleared.predicts(
                    reader,
                    ReadFrameIdx(frame),
                    modeled_page(0, page),
                ),
        ensures
            final(self).wf(),
            exists|cleared: PoolModel|
                {
                    &&& #[trigger] cleared.cleared(*old(self), ReadFrameIdx(frame))
                    &&& final(self).predicted(
                        cleared,
                        reader,
                        ReadFrameIdx(frame),
                        modeled_page(0, page),
                        content,
                    )
                },
    {
        let ghost before = *self;
        let frame: ReadFrameIdx = ReadFrameIdx::new(frame);
        proof {
            before.residency.lemma_facts();
            before.books().prefetch.lemma_books();
        }
        let resident: bool = match self.residency.frames.state(frame) {
            FrameState::Resident => true,
            _ => false,
        };
        if resident {
            self.make_speculative_resident_reclaim(frame);
        }
        let ghost cleared = *self;
        proof {
            assert(cleared.cleared(before, frame));
            assert(before.residency.frames.generation(frame) < FRAME_GENERATION_MAX);
        }
        self.admit_automatic(reader, frame, PageId::new(FileId::new(0, 0, 0), page), content);
    }

    /// Books the prediction and makes it resident in the free frame.
    #[verifier::rlimit(60)]
    fn admit_automatic(&mut self, reader: u32, frame: ReadFrameIdx, page: PageId, content: u8)
        requires
            old(self).wf(),
            reader < 2,
            old(self).residency.has(frame),
            old(self).predicts(reader, frame, page),
            old(self).books().prefetch.wear() + 1 < WEAR_MAX,
            old(self).residency.frames.generation(frame) < FRAME_GENERATION_MAX,
        ensures
            final(self).wf(),
            final(self).predicted(*old(self), reader, frame, page, content),
    {
        let ghost before = *self;
        let ghost was = before.books();
        proof {
            before.residency.lemma_facts();
            was.prefetch.lemma_books();
            assert(was.prefetch.patterns()[reader as int].wf());
        }
        let mut control: ReadaheadControl = match self.readahead.take() {
            Some(control) => control,
            None => { vstd::pervasive::unreached() },
        };
        let source: Source = match control.prefetch.request(reader) {
            Some((_, source)) => source,
            None => { vstd::pervasive::unreached() },
        };
        control.prefetch.enroll(&mut self.clock, page, frame, source);
        let ghost booked = control.prefetch;
        let ghost marked = self.clock;
        control.prefetch.issued(reader, page);
        if let Some(token) = self.residency.claim(frame, page) {
            let ghost claimed = self.residency;
            self.residency.fill(&token, content);
            let ghost filled = self.residency;
            proof {
                filled.lemma_facts();
                claimed.lemma_same_holds_frames(before.residency);
                filled.lemma_same_holds_frames(claimed);
                filled.lemma_keeps_again(claimed, before.residency);
                filled.lemma_same_holds_frames(before.residency);
            }
            let _frame: ReadFrameIdx = self.residency.publish(token);
            proof {
                self.residency.lemma_keeps_again(filled, before.residency);
            }
        }
        self.clock.notify_completed(frame);
        let ghost now = control;
        self.readahead = Some(control);
        proof {
            self.residency.lemma_facts();
            assert(was.prefetch.linked(before.clock));
            assert forall|f: ReadFrameIdx| f.0 < now.prefetch.frames() implies (
            #[trigger] now.prefetch.entry_of(f) is Some <==> !(self.clock.speculation(
                f,
            ) is Absent)) by {
                assert(self.clock.has(f));
                assert(booked.entry_of(f) is Some <==> !(marked.speculation(f) is Absent));
                assert(now.prefetch.entry_of(f) == booked.entry_of(f));
            }
            assert forall|f: ReadFrameIdx|
                f.0 < now.prefetch.frames() && #[trigger] self.clock.speculation(
                    f,
                ) is Consumed implies self.clock.consumed_frames().contains(f) by {
                assert(self.clock.has(f));
                assert(marked.speculation(f) is Consumed ==> marked.consumed_frames().contains(f));
            }
            assert(now.prefetch.linked(self.clock));
            now.lemma_alike(was, before.residency.frames);
            let staged = PoolModel {
                residency: before.residency,
                ..*self
            };
            assert(staged.wf());
            self.lemma_beside(staged);
        }
    }
}

} // verus!
