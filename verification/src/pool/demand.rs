//! Demand reads: hits, pending misses and their redemption.

use crate::driver::{FileHandle, OpToken};
use crate::error::IoError;
use crate::pool::cache::Cache;
use crate::pool::config::GetError;
use crate::pool::control::{
    attended, awaited_read, file_ok, lemma_after_submit, lemma_files_after_submit,
    lemma_staging_after_submit, read_of, sound_result, Pool,
};
use crate::pool::epoch::{FrameGuard, ReaderCtx};
use crate::pool::files::ResidentFileLease;
use crate::pool::frames::{FrameState, ReadFrameIdx};
use crate::pool::holds::PendingToken;
use crate::pool::miss::{MissEntry, MissInterest, MissOutcome, MissSlot};
use crate::pool::prefetch::ledger::{Prefetch, Terminal};
use crate::pool::routing::{lemma_products_after_read, read_span};
use crate::pool::{PageId, ResidentHint};
use crate::product::LifecycleCounters;
use vstd::prelude::*;

verus! {

/// What a demand read returns.
#[derive(Debug)]
pub enum Get {
    /// The page is resident and pinned.
    Hit(FrameGuard),
    /// A read of the page is in flight.
    Pending(PendingToken),
    /// No frame, record or ring slot is to be had now.
    Busy,
}

/// What redeeming a pending token returns.
#[derive(Debug)]
pub enum ReadyResult {
    /// The page is resident and pinned.
    Ready(FrameGuard),
    /// The read is still in flight.
    NotYet(PendingToken),
    /// The read has failed; its frame is already free.
    Failed(IoError),
}

impl Pool {
    /// A read of `page` has started in `frame` under ring token `issued`, and
    /// nothing else has changed.
    pub open spec fn began(
        self,
        other: Pool,
        slot: MissSlot,
        page: PageId,
        frame: ReadFrameIdx,
        issued: OpToken,
        waiters: u32,
    ) -> bool {
        &&& self.files == other.files
        &&& self.products == other.products
        &&& self.arena == other.arena
        &&& self.write_slots == other.write_slots
        &&& self.identity == other.identity
        &&& self.cache.begun(other.cache, slot, page, frame, issued, waiters)
        &&& self.driver.submitted(
            other.driver,
            issued,
            read_of(self.cache.miss.entry_at(slot.0 as int)->0, other.cache.granule_bytes() as int),
        )
    }

    /// Starting a read keeps the pool in order and every hold valid.
    #[verifier::rlimit(60)]
    pub(crate) proof fn lemma_began(
        self,
        before: Pool,
        slot: MissSlot,
        page: PageId,
        frame: ReadFrameIdx,
        issued: OpToken,
        waiters: u32,
    )
        requires
            before.wf(),
            before.files.backs(page.file),
            slot.0 < before.cache.miss.capacity(),
            before.cache.miss.reusable(before.cache.interests, slot.0 as int),
            self.began(before, slot, page, frame, issued, waiters),
            self.cache.wf(),
            self.driver.wf(),
            self.cache.same_shape(before.cache),
            self.cache.residency.keeps(before.cache.residency),
        ensures
            self.wf(),
            self.preserves(before),
            forall|p: PageId| #[trigger]
                self.cache.pending(p) <==> before.cache.pending(p) || p == page,
    {
        before.lemma_facts();
        before.cache.lemma_facts();
        let at = slot.0 as int;
        let granule = before.cache.granule_bytes() as int;
        let request = read_of(self.cache.miss.entry_at(at)->0, granule);
        lemma_after_submit(before.driver, self.driver, issued, request);
        lemma_files_after_submit(before.files, before.driver, self.driver, issued, request);
        lemma_products_after_read(before.driver, self.driver, before.products, issued, request);
        lemma_staging_after_submit(before.driver, self.driver, before.arena, issued, request);
        assert forall|t: PendingToken| #[trigger] before.redeems(t) implies self.redeems(t)
            && self.answers_as(before, t) by {
            if before.cache.miss.entry_at(t.record().0 as int)->0.outcome is Succeeded {
                before.lemma_arrived(t);
            }
            assert(t.record() != slot);
            assert(self.cache.miss.entry_at(t.record().0 as int) == before.cache.miss.entry_at(
                t.record().0 as int,
            ));
        }
        assert(!before.cache.miss.is_pending(at));
        assert forall|j: int| #[trigger]
            self.cache.miss.is_pending(j) <==> before.cache.miss.is_pending(j) || j == at by {
            if 0 <= j < self.cache.miss.capacity() && j != at {
                assert(self.cache.miss.entry_at(j) == before.cache.miss.entry_at(j));
            }
        }
        assert forall|p: PageId| #[trigger]
            self.cache.pending(p) <==> before.cache.pending(p) || p == page by {
            if self.cache.pending(p) {
                let i = choose|i: int| #[trigger]
                    self.cache.miss.is_pending(i) && self.cache.miss.entry_at(i)->0.page == p;
                if i != at {
                    assert(before.cache.miss.is_pending(i));
                }
            }
            if before.cache.pending(p) {
                let i = choose|i: int| #[trigger]
                    before.cache.miss.is_pending(i) && before.cache.miss.entry_at(i)->0.page == p;
                assert(self.cache.miss.is_pending(i));
            }
            if p == page {
                assert(self.cache.miss.is_pending(at));
            }
        }
        assert forall|j: int| #[trigger] self.cache.miss.is_pending(j) implies self.driver.live(
            self.cache.miss.entry_at(j)->0.token,
        ) && self.driver.request_at(self.cache.miss.entry_at(j)->0.token.slot as int) == Some(
            read_of(self.cache.miss.entry_at(j)->0, granule),
        ) by {
            if j != at {
                assert(before.cache.miss.is_pending(j));
                assert(before.driver.live(before.cache.miss.entry_at(j)->0.token));
            }
        }
        assert forall|s: int|
            0 <= s < self.driver.capacity() && (#[trigger] self.driver.request_at(s)) is Some
                && self.driver.request_at(s)->0 is Read implies awaited_read(
            self.driver,
            self.cache.miss,
            s,
        ) by {
            if s == issued.slot {
                assert(self.cache.miss.is_pending(at));
            } else {
                assert(before.driver.request_at(s) is Some);
                assert(awaited_read(before.driver, before.cache.miss, s));
                let j = choose|j: int| #[trigger]
                    before.cache.miss.is_pending(j) && before.cache.miss.entry_at(j)->0.token
                        == before.driver.token_at(s);
                assert(self.cache.miss.is_pending(j));
                assert(self.cache.miss.entry_at(j) == before.cache.miss.entry_at(j));
                assert(self.driver.token_at(s) == before.driver.token_at(s));
            }
        }
        assert forall|s: int| 0 <= s < self.driver.capacity() implies sound_result(
            #[trigger] self.driver.state_at(s),
        ) by {
            if s != issued.slot {
                assert(self.driver.state_at(s) == before.driver.state_at(s));
                assert(sound_result(before.driver.state_at(s)));
            }
        }
        assert forall|j: int| #[trigger] self.cache.miss.is_pending(j) implies self.files.backs(
            self.cache.miss.entry_at(j)->0.page.file,
        ) by {
            if j != at {
                assert(before.cache.miss.is_pending(j));
            }
        }
        assert forall|j: int| #[trigger] attended(self.cache, j) implies self.files.backs(
            self.cache.miss.entry_at(j)->0.page.file,
        ) by {
            if j != at {
                assert(self.cache.miss.entry_at(j) == before.cache.miss.entry_at(j));
                assert(attended(before.cache, j));
            }
        }
        assert forall|f: ReadFrameIdx|
            self.cache.residency.has(f) && #[trigger] self.cache.residency.frames.published(
                f,
            ) implies self.files.backs(self.cache.residency.frames.page(f)->0.file) by {
            assert(f != frame);
            assert(self.cache.residency.frames.word(f) == before.cache.residency.frames.word(f));
            assert(before.cache.residency.frames.published(f));
        }
        self.lemma_whole();
        assert forall|t: PendingToken| #[trigger] before.redeems(t) implies self.redeems(t) by {
            assert(t.record().0 != at);
            assert(self.cache.miss.entry_at(t.record().0 as int) == before.cache.miss.entry_at(
                t.record().0 as int,
            ));
        }
        assert forall|a: int| #[trigger] before.at_hand(a) implies self.at_hand(a) by {
            if self.writing(a) {
                let s = choose|s: int|
                    0 <= s < self.driver.capacity() && crate::pool::routing::stages(
                        #[trigger] self.driver.request_at(s),
                        a,
                    );
                assert(s != issued.slot);
                assert(crate::pool::routing::stages(before.driver.request_at(s), a));
            }
        }
    }

    /// Submits the read of a page into a frame.
    pub(crate) fn submit_page_read(&mut self, page: PageId, frame: ReadFrameIdx) -> (issued: Option<
        OpToken,
    >)
        requires
            old(self).wf(),
            old(self).files.backs(page.file),
        ensures
            final(self).cache == old(self).cache,
            final(self).files == old(self).files,
            final(self).products == old(self).products,
            final(self).arena == old(self).arena,
            final(self).wait == old(self).wait,
            final(self).lifecycle == old(self).lifecycle,
            final(self).write_slots == old(self).write_slots,
            final(self).identity == old(self).identity,
            final(self).driver.wf(),
            issued is Some <==> old(self).driver.has_room(),
            match issued {
                Some(token) => final(self).driver.submitted(
                    old(self).driver,
                    token,
                    read_of(
                        MissEntry {
                            page,
                            frame,
                            token,
                            generation: 0,
                            filled: 0,
                            outcome: MissOutcome::Pending,
                        },
                        old(self).cache.granule_bytes() as int,
                    ),
                ),
                None => final(self).driver == old(self).driver,
            },
    {
        proof {
            self.lemma_facts();
            self.cache.lemma_facts();
            self.cache.residency.lemma_facts();
            self.files.lemma_slot(page.file.slot as int);
            assert(file_ok(self.files, self.driver, page.file.slot as int));
        }
        let granule: u32 = self.cache.residency.frames.granule();
        let span: (u64, u32) = read_span(page, granule, 0);
        let handle: FileHandle = self.files.registered_file(page.file);
        match self.driver.submit_read(&handle, frame, span.0, 0, span.1) {
            Ok(token) => Some(token),
            Err(_) => None,
        }
    }

    /// The readahead of `reader` has seen a cold demand for `page`.
    pub open spec fn demanded(self, other: Pool, reader: u32, page: PageId) -> bool {
        &&& self.same_plane(other)
        &&& self.wait == other.wait
        &&& self.lifecycle == other.lifecycle
        &&& self.cache.same_but_ledger(other.cache)
        &&& self.cache.wear == other.cache.wear + 1
        &&& self.cache.clock.same_references(other.cache.clock)
        &&& self.cache.prefetch.reserved() == other.cache.prefetch.reserved()
        &&& exists|calm: Prefetch|
            {
                &&& #[trigger] calm.caught_up(
                    other.cache.prefetch,
                    other.cache.clock,
                    self.cache.clock,
                )
                &&& self.cache.prefetch.trained(calm, reader, page)
            }
    }

    /// A caller has joined the read of `page` in flight; a speculative read
    /// has become a demanded one.
    pub open spec fn joined(self, other: Pool, reader: u32, page: PageId, token: PendingToken) -> bool {
        let i = token.record().0 as int;
        let frame = other.cache.miss.entry_at(i)->0.frame;
        &&& self.same_plane(other)
        &&& self.wait == other.wait
        &&& self.lifecycle == (LifecycleCounters {
            live_pending_interests: other.lifecycle.live_pending_interests.wrapping_add(1),
            ..other.lifecycle
        })
        &&& other.cache.miss.is_pending(i)
        &&& other.cache.miss.entry_at(i)->0.page == page
        &&& token.turn() == other.cache.miss.entry_at(i)->0.generation
        &&& self.cache.residency == other.cache.residency
        &&& self.cache.free == other.cache.free
        &&& self.cache.frame_pages == other.cache.frame_pages
        &&& self.cache.miss == other.cache.miss
        &&& self.cache.writes == other.cache.writes
        &&& self.cache.reads_in_flight == other.cache.reads_in_flight
        &&& self.cache.wear == other.cache.wear
        &&& self.cache.interests@ == other.cache.interests@.update(
            i,
            MissInterest {
                generation: token.turn(),
                waiters: (other.cache.interests@[i].waiters + 1) as u32,
            },
        )
        &&& other.cache.prefetch.entry_of(frame) is Some ==> self.cache.prefetch.ended(
            other.cache.prefetch,
            other.cache.clock,
            frame,
            Terminal::Promoted(Some(reader)),
        ) && self.cache.clock.unmarked(other.cache.clock, frame)
        &&& other.cache.prefetch.entry_of(frame) is None ==> self.cache.prefetch
            == other.cache.prefetch && self.cache.clock == other.cache.clock
    }

    /// A demand read of `page` has started in the frame on top of the free
    /// stack.
    pub open spec fn started(self, other: Pool, page: PageId, token: PendingToken) -> bool {
        let slot = token.record();
        let issued = self.cache.miss.entry_at(slot.0 as int)->0.token;
        &&& other.cache.free@.len() > 0
        &&& other.driver.has_room()
        &&& self.began(other, slot, page, other.cache.free@.last(), issued, 1)
        &&& token.turn() == other.cache.interests@[slot.0 as int].generation + 1
        &&& self.cache.free@ == other.cache.free@.drop_last()
        &&& self.cache.clock == other.cache.clock
        &&& self.cache.prefetch == other.cache.prefetch
        &&& self.wait == other.wait.woken_once()
        &&& self.lifecycle == (LifecycleCounters {
            live_pending_interests: other.lifecycle.live_pending_interests.wrapping_add(1),
            ..other.lifecycle
        })
    }

    /// `slot` is the lowest miss record that can be used.
    pub open spec fn first_record(self, slot: MissSlot) -> bool {
        &&& slot.0 < self.cache.miss.capacity()
        &&& self.cache.miss.reusable(self.cache.interests, slot.0 as int)
        &&& forall|i: int|
            0 <= i < slot.0 ==> !(#[trigger] self.cache.miss.reusable(self.cache.interests, i))
    }

    /// A new read can be admitted: there is a credit and a record for it.
    pub open spec fn admits_read(self) -> bool {
        &&& self.cache.reads_in_flight < self.cache.read_limit()
        &&& exists|i: int|
            0 <= i < self.cache.miss.capacity() && #[trigger] self.cache.miss.reusable(
                self.cache.interests,
                i,
            )
    }

    /// How a demand for a page that is not resident ends, after the readahead
    /// has seen it.
    pub open spec fn got_cold(self, seen: Pool, reader: u32, page: PageId, got: Get) -> bool {
        match got {
            Get::Hit(_) => false,
            Get::Pending(token) => {
                &&& token.asked() == page
                &&& token.owner() == seen.identity
                &&& self.redeems(token)
                &&& if seen.cache.pending(page) {
                    self.joined(seen, reader, page, token)
                } else {
                    &&& seen.admits_read()
                    &&& seen.first_record(token.record())
                    &&& exists|room: Pool|
                        {
                            &&& #[trigger] room.made_room(seen)
                            &&& self.started(room, page, token)
                        }
                }
            },
            Get::Busy => {
                &&& !seen.cache.pending(page)
                &&& if seen.admits_read() {
                    self.made_room(seen) && (self.cache.free@.len() == 0
                        || !self.driver.has_room())
                } else {
                    self == seen
                }
            },
        }
    }

    /// No read in flight for `page` has all the waiters it can count.
    pub open spec fn joinable(self, page: PageId) -> bool {
        forall|i: int| #[trigger]
            self.cache.miss.is_pending(i) && self.cache.miss.entry_at(i)->0.page == page
                ==> self.cache.interests@[i].waiters < u32::MAX
    }

    /// Whether a read in flight for `page` can count another waiter.
    pub fn can_join(&self, page: PageId) -> (joinable: bool)
        requires
            self.wf(),
        ensures
            joinable == self.joinable(page),
    {
        proof {
            self.lemma_facts();
            self.cache.lemma_facts();
        }
        match self.cache.miss.find_pending(page) {
            Some(index) => {
                proof {
                    assert forall|i: int| #[trigger]
                        self.cache.miss.is_pending(i) && self.cache.miss.entry_at(i)->0.page
                            == page implies i == index by {
                        self.cache.miss.lemma_singleflight(i, index as int);
                    }
                }
                let entry: MissEntry = self.cache.miss.entry(index).unwrap();
                let slot = MissSlot::new(index);
                match self.cache.interests.waiters(slot, entry.generation) {
                    Some(waiters) => waiters < u32::MAX,
                    None => true,
                }
            },
            None => true,
        }
    }

    #[verifier::rlimit(60)]
    fn get_cold(&mut self, reader: u32, page: PageId) -> (got: Get)
        requires
            old(self).wf(),
            old(self).fit(),
            old(self).files.is_live(page.file),
            !old(self).cache.mapped(page),
            old(self).joinable(page),
        ensures
            final(self).wf(),
            final(self).preserves(*old(self)),
            old(self).cache.wear <= final(self).cache.wear <= old(self).cache.wear
                + crate::pool::control::EFFORT_MAX,
            exists|seen: Pool|
                {
                    &&& #[trigger] seen.demanded(*old(self), reader, page)
                    &&& final(self).got_cold(seen, reader, page, got)
                },
    {
        let ghost before = *self;
        proof {
            before.lemma_facts();
            before.cache.lemma_facts();
            before.driver.lemma_capacity();
            before.files.lemma_slot(page.file.slot as int);
            assert(file_ok(before.files, before.driver, page.file.slot as int));
        }
        self.cache.observe(reader, page);
        let ghost seen = *self;
        proof {
            before.cache.residency.lemma_keeps_itself();
            seen.lemma_cache_step(before);
            seen.lemma_facts();
            seen.cache.lemma_facts();
            assert(seen.demanded(before, reader, page));
            assert(seen.preserves(before));
        }
        if let Some(index) = self.cache.miss.find_pending(page) {
            let joined: (MissSlot, u64) = self.cache.join(index, reader);
            self.lifecycle.register_pending();
            proof {
                self.lemma_cache_step(seen);
                assert(seen.cache.pending(page));
                seen.cache.miss.lemma_entry(index as int);
                assert forall|t: PendingToken| #[trigger] before.redeems(t) implies self.redeems(
                    t,
                ) by {
                    assert(seen.redeems(t));
                }
            }
            return Get::Pending(PendingToken::new(page, joined.0, joined.1, self.identity));
        }
        if self.cache.reads_in_flight >= self.cache.miss.pending_limit() {
            return Get::Busy;
        }
        let slot: MissSlot = match self.cache.miss.admission_slot(&self.cache.interests) {
            Some(slot) => slot,
            None => {
                return Get::Busy;
            },
        };
        proof {
            assert(seen.cache.miss.reusable(seen.cache.interests, slot.0 as int));
            assert(seen.admits_read());
        }
        let free: bool = self.claim_frame();
        let ghost room = *self;
        proof {
            room.lemma_preserves_again(seen, before);
            room.lemma_facts();
            room.cache.lemma_facts();
        }
        if !free {
            return Get::Busy;
        }
        let frame: ReadFrameIdx = self.cache.free.top().unwrap();
        let issued: OpToken = match self.submit_page_read(page, frame) {
            Some(token) => token,
            None => {
                return Get::Busy;
            },
        };
        proof {
            assert(!room.cache.mapped(page));
            assert(!room.cache.pending(page));
            assert(room.cache.miss.reusable(room.cache.interests, slot.0 as int));
        }
        let generation: u64 = self.cache.begin_read(slot, page, issued);
        self.lifecycle.register_pending();
        self.wait.wake();
        let token = PendingToken::new(page, slot, generation, self.identity);
        proof {
            self.lemma_began(room, slot, page, frame, issued, 1);
            self.lemma_preserves_again(room, before);
            assert(self.started(room, page, token));
            assert(room.made_room(seen));
        }
        Get::Pending(token)
    }

    /// `guard` pins the frame of `page` for `reader`, and nothing but the
    /// reader's pins and the CLOCK has changed.
    pub open spec fn hit(self, other: Pool, reader: ReaderCtx, page: PageId, guard: FrameGuard) -> bool {
        let frame = other.cache.residency.table@[page];
        &&& self.same_plane(other)
        &&& self.wait == other.wait
        &&& self.lifecycle == other.lifecycle
        &&& self.cache.hit(other.cache, reader.index() as int, frame)
        &&& other.cache.residency.frames.page(frame) == Some(page)
        &&& guard.holder() == reader.index()
        &&& guard.pinned() == frame
        &&& guard.owner() == page.file.slot
        &&& self.lends(guard)
    }

    /// How a demand for `page` ends: a file that is not live is refused, a
    /// resident page is pinned, and any other page is read or joined if there
    /// is room.
    pub open spec fn got(
        self,
        other: Pool,
        reader: ReaderCtx,
        page: PageId,
        got: Result<Get, GetError>,
    ) -> bool {
        &&& got is Err <==> !other.files.is_live(page.file)
        &&& match got {
            Err(error) => error == (GetError::StaleFile { page }) && self == other,
            Ok(outcome) => {
                &&& outcome is Hit <==> other.cache.mapped(page)
                &&& match outcome {
                    Get::Hit(guard) => self.hit(other, reader, page, guard),
                    _ => {
                        &&& self.preserves(other)
                        &&& exists|seen: Pool|
                            {
                                &&& #[trigger] seen.demanded(other, reader.index(), page)
                                &&& self.got_cold(seen, reader.index(), page, outcome)
                            }
                    },
                }
            },
        }
    }

    /// `reader` may take another guard.
    pub open spec fn may_pin(self, reader: ReaderCtx) -> bool {
        &&& self.registered(reader)
        &&& self.cache.residency.readers@[reader.index() as int].guard_count < u64::MAX
    }

    /// Looks a page up for `reader`: a hit pins its frame, a miss starts or
    /// joins its read.
    pub fn get(&mut self, reader: &ReaderCtx, page: PageId) -> (got: Result<Get, GetError>)
        requires
            old(self).wf(),
            old(self).fit(),
            old(self).may_pin(*reader),
            old(self).files.addresses(page.file),
            old(self).joinable(page),
        ensures
            final(self).wf(),
            final(self).same_shape(*old(self)),
            old(self).cache.wear <= final(self).cache.wear <= old(self).cache.wear
                + crate::pool::control::EFFORT_MAX,
            final(self).got(*old(self), *reader, page, got),
    {
        let ghost before = *self;
        proof {
            before.lemma_facts();
            before.cache.lemma_facts();
            before.cache.residency.lemma_facts();
        }
        if !self.files.file_generation_is_live(page.file) {
            return Err(GetError::StaleFile { page });
        }
        if let Some(frame) = self.cache.pin(reader.slot(), page) {
            proof {
                self.lemma_cache_step(before);
            }
            let guard = FrameGuard::new(
                self.cache.residency.frames.id(),
                reader.slot(),
                frame,
                page.file.slot,
            );
            return Ok(Get::Hit(guard));
        }
        Ok(self.get_cold(reader.slot(), page))
    }

    /// `lease` is a lease of this pool on the file of `page`.
    pub open spec fn leases(self, lease: ResidentFileLease, page: PageId) -> bool {
        self.files.grants(lease) && lease.protects() == page.file
    }

    /// An advisory observation of a resident page.
    pub fn resident_hint(&self, lease: &ResidentFileLease, page: PageId) -> (hint: Option<
        ResidentHint,
    >)
        requires
            self.wf(),
            self.leases(*lease, page),
        ensures
            hint is Some <==> self.cache.mapped(page),
            hint matches Some(h) ==> {
                let frame = self.cache.residency.table@[page];
                &&& h == (ResidentHint {
                    granule: page.granule_idx,
                    frame: frame.0,
                    stamp: self.cache.residency.frames.word(frame),
                })
                &&& self.cache.residency.hint_holds(page, h)
            },
    {
        proof {
            self.lemma_facts();
            self.cache.lemma_facts();
            self.cache.residency.lemma_facts();
        }
        match self.cache.residency.table.lookup(page) {
            Some(frame) => {
                let stamp: u64 = self.cache.residency.frames.state_word(frame);
                Some(ResidentHint { granule: page.granule_idx, frame: frame.get(), stamp })
            },
            None => None,
        }
    }

    /// Tries one hinted lookup before it falls back to `get`. A hint can save
    /// the lookup; it never changes the outcome.
    pub fn get_with_hint(
        &mut self,
        reader: &ReaderCtx,
        lease: &ResidentFileLease,
        page: PageId,
        hint: Option<ResidentHint>,
    ) -> (got: Result<Get, GetError>)
        requires
            old(self).wf(),
            old(self).fit(),
            old(self).may_pin(*reader),
            old(self).leases(*lease, page),
            old(self).joinable(page),
        ensures
            final(self).wf(),
            final(self).same_shape(*old(self)),
            old(self).cache.wear <= final(self).cache.wear <= old(self).cache.wear
                + crate::pool::control::EFFORT_MAX,
            final(self).got(*old(self), *reader, page, got),
    {
        let ghost before = *self;
        proof {
            before.lemma_facts();
            before.cache.lemma_facts();
            before.cache.residency.lemma_facts();
        }
        if !self.files.file_generation_is_live(page.file) {
            return Err(GetError::StaleFile { page });
        }
        if let Some(observed) = hint {
            proof {
                if before.cache.residency.hint_holds(page, observed) {
                    before.cache.lemma_hint(page, observed);
                }
            }
            if let Some(frame) = self.cache.pin_with_resident_hint(reader.slot(), page, observed) {
                proof {
                    self.lemma_cache_step(before);
                }
                let guard = FrameGuard::new(
                    self.cache.residency.frames.id(),
                    reader.slot(),
                    frame,
                    page.file.slot,
                );
                return Ok(Get::Hit(guard));
            }
        }
        self.get(reader, page)
    }

    /// A caller's interest in a record has ended; a terminal record without
    /// waiters is gone.
    pub open spec fn redeemed(self, other: Cache, slot: MissSlot, generation: u64) -> bool {
        let i = slot.0 as int;
        let waiters = (other.interests@[i].waiters - 1) as u32;
        &&& self.cache.residency == other.residency
        &&& self.cache.clock == other.clock
        &&& self.cache.free == other.free
        &&& self.cache.frame_pages == other.frame_pages
        &&& self.cache.writes == other.writes
        &&& self.cache.prefetch == other.prefetch
        &&& self.cache.reads_in_flight == other.reads_in_flight
        &&& self.cache.wear == other.wear
        &&& self.cache.interests@ == other.interests@.update(
            i,
            MissInterest { generation, waiters },
        )
        &&& self.cache.miss.same_except(other.miss, i)
        &&& self.cache.miss.entry_at(i) == (if waiters == 0 && other.miss.entry_at(i)->0.outcome
            != MissOutcome::Pending {
            None
        } else {
            other.miss.entry_at(i)
        })
    }

    /// Every other token is as good as before: those of other records, and
    /// those of the same record while it has another waiter.
    pub open spec fn keeps_other_tokens(self, other: Pool, token: PendingToken) -> bool {
        forall|t: PendingToken| #[trigger]
            other.redeems(t) && (t.record() != token.record()
                || other.cache.interests@[t.record().0 as int].waiters > 1) ==> self.redeems(t)
                && self.answers_as(other, t)
    }

    /// The counters after a token is redeemed or dropped.
    pub open spec fn counts_release(self, other: Pool) -> bool {
        self.lifecycle == (LifecycleCounters {
            live_pending_interests: other.lifecycle.live_pending_interests.wrapping_sub(1),
            pending_releases: other.lifecycle.pending_releases.wrapping_add(1),
            ..other.lifecycle
        })
    }

    /// Ends the interest of a redeemed token.
    fn consume(&mut self, slot: MissSlot, generation: u64)
        requires
            old(self).wf(),
            old(self).cache.awaited(slot, generation),
            old(self).cache.miss.entry_at(slot.0 as int) is Some,
            old(self).cache.miss.entry_at(slot.0 as int)->0.outcome != MissOutcome::Pending,
        ensures
            final(self).wf(),
            final(self).same_shape(*old(self)),
            final(self).same_plane(*old(self)),
            final(self).wait == old(self).wait,
            final(self).counts_release(*old(self)),
            final(self).redeemed(old(self).cache, slot, generation),
    {
        let ghost before = *self;
        proof {
            before.lemma_facts();
            before.cache.lemma_facts();
        }
        let _ = self.cache.withdraw(slot, generation);
        let ghost middle = *self;
        self.cache.clean_terminal_zero(slot, generation);
        self.lifecycle.release_pending();
        proof {
            assert forall|i: int| #[trigger]
                self.cache.miss.is_pending(i) <==> before.cache.miss.is_pending(i) by {
                if i != slot.0 && 0 <= i < before.cache.miss.capacity() {
                    assert(self.cache.miss.entry_at(i) == before.cache.miss.entry_at(i));
                }
            }
            self.lemma_cache_step(before);
        }
    }

    /// Re-checks a pending miss: pinned once its page is resident, failed if
    /// its read failed, and handed back while the read is in flight.
    #[verifier::rlimit(40)]
    pub fn ready(&mut self, reader: &ReaderCtx, token: PendingToken) -> (result: ReadyResult)
        requires
            old(self).wf(),
            old(self).may_pin(*reader),
            old(self).redeems(token),
        ensures
            final(self).wf(),
            final(self).same_shape(*old(self)),
            final(self).cache.wear == old(self).cache.wear,
            final(self).keeps_other_tokens(*old(self), token),
            ({
                let entry = old(self).cache.miss.entry_at(token.record().0 as int)->0;
                match entry.outcome {
                    MissOutcome::Pending => {
                        &&& result matches ReadyResult::NotYet(kept) && kept == token
                        &&& *final(self) == *old(self)
                    },
                    MissOutcome::Failed(errno) => {
                        &&& result matches ReadyResult::Failed(error) && error.raw == Some(errno)
                        &&& final(self).same_plane(*old(self))
                        &&& final(self).wait == old(self).wait
                        &&& final(self).counts_release(*old(self))
                        &&& final(self).redeemed(old(self).cache, token.record(), token.turn())
                    },
                    MissOutcome::Succeeded => {
                        &&& result matches ReadyResult::Ready(guard) && guard.pinned()
                            == entry.frame && guard.holder() == reader.index() && guard.owner()
                            == entry.page.file.slot && final(self).lends(guard)
                        &&& old(self).cache.residency.frames.page(entry.frame) == Some(
                            token.asked(),
                        )
                        &&& final(self).same_plane(*old(self))
                        &&& final(self).wait == old(self).wait
                        &&& final(self).counts_release(*old(self))
                        &&& exists|pinned: Cache|
                            {
                                &&& #[trigger] pinned.hit(
                                    old(self).cache,
                                    reader.index() as int,
                                    entry.frame,
                                )
                                &&& final(self).redeemed(pinned, token.record(), token.turn())
                            }
                    },
                }
            }),
    {
        let ghost before = *self;
        proof {
            before.lemma_facts();
            before.cache.lemma_facts();
            before.cache.residency.lemma_facts();
            before.cache.miss.lemma_entry(token.record().0 as int);
        }
        let slot: MissSlot = token.slot();
        let generation: u64 = token.generation();
        let entry: MissEntry = match self.cache.miss.validate(slot, generation, token.page()) {
            Some(entry) => entry,
            None => {
                return ReadyResult::NotYet(token);
            },
        };
        match entry.outcome {
            MissOutcome::Pending => ReadyResult::NotYet(token),
            MissOutcome::Failed(errno) => {
                self.consume(slot, generation);
                ReadyResult::Failed(IoError::from_raw(errno))
            },
            MissOutcome::Succeeded => {
                proof {
                    assert(before.cache.miss.protection(entry.frame) is Some);
                    assert(before.cache.mapped(entry.page));
                    assert(before.cache.residency.table@[entry.page] == entry.frame);
                }
                let page: PageId = entry.page;
                let pinned: Option<ReadFrameIdx> = self.cache.pin(reader.slot(), page);
                let ghost held = *self;
                proof {
                    held.lemma_cache_step(before);
                }
                self.consume(slot, generation);
                proof {
                    assert(held.cache.hit(before.cache, reader.index() as int, entry.frame));
                    assert(before.cache.residency.frames.published(entry.frame));
                    assert(before.files.backs(page.file));
                }
                let guard = FrameGuard::new(
                    self.cache.residency.frames.id(),
                    reader.slot(),
                    entry.frame,
                    page.file.slot,
                );
                ReadyResult::Ready(guard)
            },
        }
    }

    /// Drops a pending token: only the waiter's interest ends, the read goes
    /// on.
    pub fn drop_pending(&mut self, token: PendingToken)
        requires
            old(self).wf(),
            old(self).redeems(token),
        ensures
            final(self).wf(),
            final(self).same_shape(*old(self)),
            final(self).same_plane(*old(self)),
            final(self).wait == old(self).wait,
            final(self).counts_release(*old(self)),
            final(self).keeps_other_tokens(*old(self), token),
            final(self).cache.residency == old(self).cache.residency,
            final(self).cache.clock == old(self).cache.clock,
            final(self).cache.free == old(self).cache.free,
            final(self).cache.frame_pages == old(self).cache.frame_pages,
            final(self).cache.writes == old(self).cache.writes,
            final(self).cache.miss == old(self).cache.miss,
            final(self).cache.prefetch == old(self).cache.prefetch,
            final(self).cache.reads_in_flight == old(self).cache.reads_in_flight,
            final(self).cache.wear == old(self).cache.wear,
            final(self).cache.interests@ == old(self).cache.interests@.update(
                token.record().0 as int,
                MissInterest {
                    generation: token.turn(),
                    waiters: (old(self).cache.interests@[token.record().0 as int].waiters
                        - 1) as u32,
                },
            ),
    {
        let ghost before = *self;
        proof {
            before.lemma_facts();
            before.cache.lemma_facts();
        }
        let _ = self.cache.withdraw(token.slot(), token.generation());
        self.lifecycle.release_pending();
        proof {
            self.lemma_cache_step(before);
        }
    }

    /// Makes `page` resident without a read, filled with one byte; `None`
    /// where no frame is free.
    pub fn insert_resident_frame(&mut self, page: PageId, fill: u8) -> (frame: Option<ReadFrameIdx>)
        requires
            old(self).wf(),
            old(self).fit(),
            old(self).files.backs(page.file),
            !old(self).cache.mapped(page),
            !old(self).cache.pending(page),
        ensures
            final(self).wf(),
            final(self).preserves(*old(self)),
            final(self).same_plane(*old(self)),
            final(self).wait == old(self).wait,
            final(self).lifecycle == old(self).lifecycle,
            frame is Some <==> old(self).cache.free@.len() > 0,
            match frame {
                Some(f) => {
                    &&& f == old(self).cache.free@.last()
                    &&& final(self).cache.wear == old(self).cache.wear + 1
                    &&& final(self).cache.installed(old(self).cache, page, f, fill)
                },
                None => *final(self) == *old(self),
            },
    {
        let ghost before = *self;
        proof {
            before.lemma_facts();
            before.cache.lemma_facts();
            before.lemma_preserves_itself();
        }
        let frame: Option<ReadFrameIdx> = self.cache.install(page, fill);
        proof {
            if let Some(f) = frame {
                assert forall|g: ReadFrameIdx|
                    self.cache.residency.has(g) && #[trigger] self.cache.residency.frames.published(
                        g,
                    ) implies self.files.backs(self.cache.residency.frames.page(g)->0.file) by {
                    if g != f {
                        assert(self.cache.residency.frames.word(g)
                            == before.cache.residency.frames.word(g));
                        assert(before.cache.residency.frames.published(g));
                        assert(self.cache.residency.frames.page(g)
                            == before.cache.residency.frames.page(g));
                    }
                }
                assert forall|i: int| #[trigger] attended(self.cache, i) implies self.files.backs(
                    self.cache.miss.entry_at(i)->0.page.file,
                ) by {
                    assert(attended(before.cache, i));
                }
                self.lemma_whole();
                assert(before.cache.free@.contains(f));
                assert(before.cache.residency.frames.residency(f) is Free);
                assert forall|t: PendingToken| #[trigger] before.redeems(t) implies self.redeems(t)
                    && self.answers_as(before, t) by {
                    if before.cache.miss.entry_at(t.record().0 as int)->0.outcome is Succeeded {
                        before.lemma_arrived(t);
                    }
                }
                assert forall|a: int| #[trigger] before.at_hand(a) implies self.at_hand(a) by {
                    if self.writing(a) {
                        assert(before.writing(a));
                    }
                }
            }
        }
        frame
    }

    /// Evicts a resident page that no waiter still has to collect: it is
    /// unmapped, and its frame queued for reclamation.
    pub fn evict_frame(&mut self, page: PageId) -> (frame: Option<ReadFrameIdx>)
        requires
            old(self).wf(),
            old(self).cache.mapped(page),
            old(self).cache.evictable(old(self).cache.residency.table@[page]),
        ensures
            final(self).wf(),
            final(self).preserves(*old(self)),
            final(self).same_plane(*old(self)),
            final(self).wait == old(self).wait,
            final(self).lifecycle == old(self).lifecycle,
            frame == Some(old(self).cache.residency.table@[page]),
            final(self).cache.unmapped(old(self).cache, old(self).cache.residency.table@[page]),
    {
        let ghost before = *self;
        proof {
            before.lemma_facts();
            before.cache.lemma_facts();
            before.cache.residency.lemma_facts();
        }
        let found: Option<ReadFrameIdx> = self.cache.residency.table.lookup(page);
        if let Some(frame) = found {
            let _ = self.cache.try_evict(frame);
            proof {
                self.cache.lemma_unmapped_shrinks(before.cache, frame);
                self.lemma_shrunk_kept(before);
            }
        }
        found
    }

    /// The state of a frame.
    pub fn frame_state(&self, frame: ReadFrameIdx) -> (state: FrameState)
        requires
            self.wf(),
            self.cache.residency.has(frame),
        ensures
            state == self.cache.residency.frames.residency(frame),
    {
        proof {
            self.lemma_facts();
            self.cache.lemma_facts();
            self.cache.residency.lemma_facts();
        }
        self.cache.residency.frames.state(frame)
    }
}

} // verus!
