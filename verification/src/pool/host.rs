//! The host's side: it takes submitted operations, performs the I/O and
//! reports each result under the operation's token.

use crate::driver::{FileHandle, FileId, OpState, OpToken, Request, Submission};
use crate::error::IoError;
use crate::pool::control::{
    awaited_product, awaited_read, file_ok, read_of, served, sound_result, staged, staging_of, Pool,
};
use crate::pool::files::PoolFile;
use crate::pool::frames::overwritten;
use crate::pool::holds::PendingToken;
use crate::pool::product_ops::ProductOps;
use crate::pool::routing::stages;
use vstd::prelude::*;

verus! {

/// What is left of a pool that is being shut down.
pub enum Shutdown {
    /// Nothing is in flight; these handles are for the host to close.
    Done(Vec<FileHandle>),
    /// Operations are still in flight, or files still to be closed.
    Waiting(Pool),
}

impl Pool {
    /// Everything but the ring is as in `other`.
    pub open spec fn same_but_driver(self, other: Pool) -> bool {
        &&& self.cache == other.cache
        &&& self.files == other.files
        &&& self.products == other.products
        &&& self.arena == other.arena
        &&& self.lifecycle == other.lifecycle
        &&& self.write_slots == other.write_slots
        &&& self.identity == other.identity
    }

    /// Moving one operation on keeps the pool in order.
    #[verifier::rlimit(40)]
    proof fn lemma_moved(self, before: Pool, slot: int, state: OpState)
        requires
            before.wf(),
            0 <= slot < before.driver.capacity(),
            before.driver.request_at(slot) is Some,
            self.same_but_driver(before),
            self.driver.wf(),
            self.driver.restated(before.driver, slot, state),
            !(state is Vacant),
            self.driver.request_at(slot) == before.driver.request_at(slot),
            sound_result(state),
        ensures
            self.wf(),
            self.preserves(before),
    {
        before.lemma_facts();
        before.lemma_preserves_itself();
        assert forall|s: int|
            0 <= s < before.driver.capacity() implies #[trigger] self.driver.request_at(s)
            == before.driver.request_at(s) by {
            if s != slot {
                assert(self.driver.state_at(s) == before.driver.state_at(s));
            }
        }
        assert forall|s: int|
            0 <= s < before.driver.capacity() implies #[trigger] self.driver.token_at(s)
            == before.driver.token_at(s) by {
            assert(self.driver.generation_at(s) == before.driver.generation_at(s));
        }
        assert forall|t: OpToken| #[trigger] before.driver.live(t) implies self.driver.live(t) by {
            if t.slot != slot {
                assert(self.driver.state_at(t.slot as int) == before.driver.state_at(
                    t.slot as int,
                ));
                assert(self.driver.generation_at(t.slot as int) == before.driver.generation_at(
                    t.slot as int,
                ));
            }
        }
        assert forall|s: int| 0 <= s < self.files.capacity() implies #[trigger] file_ok(
            self.files,
            self.driver,
            s,
        ) by {
            assert(file_ok(before.files, before.driver, s));
            assert(self.driver.handle_at(s) == before.driver.handle_at(s));
            assert(self.driver.file_generation_at(s) == before.driver.file_generation_at(s));
        }
        assert forall|i: int| #[trigger] self.cache.miss.is_pending(i) implies self.driver.live(
            self.cache.miss.entry_at(i)->0.token,
        ) by {
            assert(before.driver.live(before.cache.miss.entry_at(i)->0.token));
        }
        assert forall|s: int|
            0 <= s < self.driver.capacity() && (#[trigger] self.driver.request_at(s)) is Some
                && self.driver.request_at(s)->0 is Read implies awaited_read(
            self.driver,
            self.cache.miss,
            s,
        ) by {
            assert(awaited_read(before.driver, before.cache.miss, s));
            assert(self.driver.token_at(s) == before.driver.token_at(s));
        }
        assert forall|s: int| 0 <= s < self.driver.capacity() implies sound_result(
            #[trigger] self.driver.state_at(s),
        ) by {
            if s != slot {
                assert(sound_result(before.driver.state_at(s)));
            }
        }
        assert forall|k: int| 0 <= k < self.products@.len() implies served(
            self.driver,
            (#[trigger] self.products@[k]).operation,
        ) by {
            assert(served(before.driver, before.products@[k].operation));
        }
        assert forall|s: int|
            0 <= s < self.driver.capacity() && (#[trigger] self.driver.request_at(s)) is Some && !(
            self.driver.request_at(s)->0 is Read) implies awaited_product(
            self.driver,
            self.products,
            s,
        ) by {
            assert(awaited_product(before.driver, before.products, s));
            assert(self.driver.token_at(s) == before.driver.token_at(s));
        }
        assert forall|s: int| 0 <= s < self.driver.capacity() implies staged(
            self.arena,
            #[trigger] self.driver.request_at(s),
        ) by {
            assert(staged(before.arena, before.driver.request_at(s)));
        }
        assert forall|s: int, t: int|
            0 <= s < self.driver.capacity() && 0 <= t < self.driver.capacity() && staging_of(
                #[trigger] self.driver.request_at(s),
            ) is Some && staging_of(self.driver.request_at(s)) == staging_of(
                #[trigger] self.driver.request_at(t),
            ) implies s == t by {
            assert(before.driver.request_at(s) == self.driver.request_at(s));
            assert(before.driver.request_at(t) == self.driver.request_at(t));
        }
        self.lemma_whole();
        assert forall|a: int| #[trigger] before.at_hand(a) implies self.at_hand(a) by {
            if self.writing(a) {
                let s = choose|s: int|
                    0 <= s < self.driver.capacity() && stages(
                        #[trigger] self.driver.request_at(s),
                        a,
                    );
                assert(stages(before.driver.request_at(s), a));
            }
        }
    }

    /// Takes the submitted operation in the lowest ring slot for the host to
    /// perform.
    pub fn take_submission(&mut self) -> (taken: Option<Submission>)
        requires
            old(self).wf(),
        ensures
            final(self).wf(),
            final(self).preserves(*old(self)),
            final(self).same_but_driver(*old(self)),
            final(self).wait == old(self).wait,
            match taken {
                Some(submission) => {
                    let slot = submission.token.slot as int;
                    &&& old(self).driver.live(submission.token)
                    &&& old(self).driver.state_at(slot) == OpState::Submitted(submission.request)
                    &&& forall|i: int|
                        0 <= i < slot ==> !((#[trigger] old(self).driver.state_at(i)) is Submitted)
                    &&& final(self).driver.restated(
                        old(self).driver,
                        slot,
                        OpState::Issued(submission.request),
                    )
                },
                None => {
                    &&& *final(self) == *old(self)
                    &&& forall|i: int|
                        0 <= i < old(self).driver.capacity() ==> !((#[trigger] old(self).driver.state_at(i)) is Submitted)
                },
            },
    {
        let ghost before = *self;
        proof {
            before.lemma_facts();
            before.lemma_preserves_itself();
        }
        let taken: Option<Submission> = self.driver.take_submission();
        proof {
            if let Some(submission) = taken {
                self.lemma_moved(
                    before,
                    submission.token.slot as int,
                    OpState::Issued(submission.request),
                );
            }
        }
        taken
    }

    /// The bytes an issued write is to write.
    pub fn staged_bytes(&self, token: OpToken) -> (bytes: Option<Vec<u8>>)
        requires
            self.wf(),
        ensures
            bytes is Some <==> self.driver.issued(token) && self.driver.request_at(
                token.slot as int,
            )->0 is Write,
            bytes matches Some(content) ==> content@ == self.arena.contents(
                self.driver.request_at(token.slot as int)->0->Write_slot as int,
            ),
    {
        proof {
            self.lemma_facts();
            if self.driver.issued(token) {
                assert(staged(self.arena, self.driver.request_at(token.slot as int)));
            }
        }
        match self.driver.issued_request(token) {
            Some(Request::Write { slot, .. }) => {
                let granule: u32 = self.arena.granule();
                let bytes: Vec<u8> = self.arena.region(slot, 0, granule);
                proof {
                    self.arena.lemma_contents(slot as int);
                    assert(self.arena.contents(slot as int).subrange(0, granule as int)
                        =~= self.arena.contents(slot as int));
                }
                Some(bytes)
            },
            _ => None,
        }
    }

    /// A result is recorded for the operation in ring slot `slot`, and the
    /// owner loop is woken.
    pub open spec fn recorded(self, other: Pool, token: OpToken, result: Result<u32, IoError>) -> bool {
        &&& self.driver.restated(
            other.driver,
            token.slot as int,
            OpState::Finished(other.driver.request_at(token.slot as int)->0, result),
        )
        &&& self.wait == other.wait.woken_once()
        &&& self.files == other.files
        &&& self.products == other.products
        &&& self.arena == other.arena
        &&& self.lifecycle == other.lifecycle
        &&& self.write_slots == other.write_slots
        &&& self.identity == other.identity
    }

    /// The room an issued read has for bytes.
    pub open spec fn wanted(self, token: OpToken) -> Option<int> {
        if self.driver.issued(token) {
            match self.driver.request_at(token.slot as int) {
                Some(Request::Read { len, .. }) => Some(len as int),
                _ => None,
            }
        } else {
            None
        }
    }

    /// The issued read of `token` has ended, and its bytes stand in its frame
    /// from where it was to start.
    pub open spec fn transferred(self, other: Pool, token: OpToken, bytes: Seq<u8>) -> bool {
        let frame = other.driver.request_at(token.slot as int)->0->frame;
        let offset = other.driver.request_at(token.slot as int)->0->destination_offset;
        &&& self.recorded(other, token, Ok(bytes.len() as u32))
        &&& self.cache.same_flow(other.cache)
        &&& self.cache.clock == other.cache.clock
        &&& self.cache.residency.same_but_frames(other.cache.residency)
        &&& self.cache.residency.frames.same_except(other.cache.residency.frames, frame)
        &&& self.cache.residency.frames.word(frame) == other.cache.residency.frames.word(frame)
        &&& self.cache.residency.frames.page(frame) == other.cache.residency.frames.page(frame)
        &&& self.cache.residency.frames.contents(frame) == overwritten(
            other.cache.residency.frames.contents(frame),
            offset as int,
            bytes,
        )
    }

    /// Reports the bytes an issued read has delivered, from its start. More
    /// bytes than asked for, or a token of no issued read, are refused.
    #[verifier::rlimit(40)]
    pub fn complete_read(&mut self, token: OpToken, bytes: &[u8]) -> (accepted: bool)
        requires
            old(self).wf(),
        ensures
            final(self).wf(),
            final(self).preserves(*old(self)),
            accepted == (old(self).wanted(token) matches Some(len) && bytes@.len() <= len),
            !accepted ==> *final(self) == *old(self),
            accepted ==> final(self).transferred(*old(self), token, bytes@),
    {
        let ghost before = *self;
        let ghost at = token.slot as int;
        proof {
            before.lemma_facts();
            before.cache.lemma_facts();
            before.lemma_preserves_itself();
        }
        let request: Request = match self.driver.issued_request(token) {
            Some(request) => request,
            None => {
                return false;
            },
        };
        match request {
            Request::Read { frame, destination_offset, len, .. } => {
                if bytes.len() > len as usize {
                    return false;
                }
                proof {
                    assert(awaited_read(before.driver, before.cache.miss, at));
                    let i = choose|i: int| #[trigger]
                        before.cache.miss.is_pending(i) && before.cache.miss.entry_at(i)->0.token
                            == before.driver.token_at(at);
                    before.driver.lemma_capacity();
                    assert(before.driver.request_at(at) == Some(
                        read_of(
                            before.cache.miss.entry_at(i)->0,
                            before.cache.granule_bytes() as int,
                        ),
                    ));
                    assert(crate::pool::cache::flight_at(
                        before.cache.residency.frames,
                        before.cache.miss.entry_at(i)->0,
                    ));
                    before.cache.residency.lemma_facts();
                    before.cache.residency.frames.lemma_positive();
                }
                self.cache.transfer(frame, destination_offset, bytes);
                let ghost filled = *self;
                proof {
                    filled.lemma_cache_step(before);
                    assert forall|t: PendingToken| #[trigger] before.redeems(t) implies
                        filled.redeems(t) && filled.answers_as(before, t) by {
                        if before.cache.miss.entry_at(t.record().0 as int)->0.outcome is Succeeded {
                            before.lemma_arrived(t);
                        }
                    }
                    assert(filled.preserves(before));
                    filled.lemma_facts();
                }
                let result: Result<u32, IoError> = Ok(bytes.len() as u32);
                let _ = self.driver.record(token, result);
                self.wait.wake();
                proof {
                    self.lemma_moved(filled, at, OpState::Finished(request, result));
                    self.lemma_preserves_again(filled, before);
                }
                true
            },
            _ => false,
        }
    }

    /// Reports that an issued write or barrier has ended, a write with the
    /// number of bytes written.
    pub fn complete_product(&mut self, token: OpToken, written: u32) -> (accepted: bool)
        requires
            old(self).wf(),
        ensures
            final(self).wf(),
            final(self).preserves(*old(self)),
            accepted == (old(self).driver.issued(token) && !(old(self).driver.request_at(
                token.slot as int,
            )->0 is Read)),
            !accepted ==> *final(self) == *old(self),
            accepted ==> final(self).recorded(*old(self), token, Ok(written)) && final(self).cache
                == old(self).cache,
    {
        let ghost before = *self;
        proof {
            before.lemma_facts();
            before.lemma_preserves_itself();
        }
        let request: Request = match self.driver.issued_request(token) {
            Some(request) => request,
            None => {
                return false;
            },
        };
        if let Request::Read { .. } = request {
            return false;
        }
        let result: Result<u32, IoError> = Ok(written);
        let _ = self.driver.record(token, result);
        self.wait.wake();
        proof {
            self.lemma_moved(before, token.slot as int, OpState::Finished(request, result));
        }
        true
    }

    /// Reports that an issued operation has failed. An errno of zero names no
    /// failure and is refused.
    pub fn fail(&mut self, token: OpToken, error: IoError) -> (accepted: bool)
        requires
            old(self).wf(),
        ensures
            final(self).wf(),
            final(self).preserves(*old(self)),
            accepted == (old(self).driver.issued(token) && error.raw != Some(0i32)),
            !accepted ==> *final(self) == *old(self),
            accepted ==> final(self).recorded(*old(self), token, Err(error)) && final(self).cache
                == old(self).cache,
    {
        let ghost before = *self;
        proof {
            before.lemma_facts();
            before.lemma_preserves_itself();
        }
        let request: Request = match self.driver.issued_request(token) {
            Some(request) => request,
            None => {
                return false;
            },
        };
        if let Some(errno) = error.raw_os_error() {
            if errno == 0 {
                return false;
            }
        }
        let result: Result<u32, IoError> = Err(error);
        let _ = self.driver.record(token, result);
        self.wait.wake();
        proof {
            self.lemma_moved(before, token.slot as int, OpState::Finished(request, result));
        }
        true
    }

    /// The file in the lowest slot that the host is to close.
    pub fn closing(&self) -> (file: Option<FileId>)
        requires
            self.wf(),
        ensures
            match file {
                Some(f) => {
                    &&& f.slot < self.files.capacity()
                    &&& f == self.driver.file_at(f.slot as int)
                    &&& self.driver.handle_at(f.slot as int) is Closing
                    &&& forall|s: int|
                        0 <= s < f.slot ==> !((#[trigger] self.driver.handle_at(s)) is Closing)
                },
                None => forall|s: int|
                    0 <= s < self.files.capacity() ==> !((#[trigger] self.driver.handle_at(
                        s,
                    )) is Closing),
            },
    {
        proof {
            self.lemma_facts();
        }
        self.driver.closing()
    }

    /// Reports that the host has closed a file it was to close, and wakes the
    /// owner loop; any other file is refused.
    pub fn confirm_closed(&mut self, file: FileId) -> (confirmed: bool)
        requires
            old(self).wf(),
        ensures
            final(self).wf(),
            final(self).preserves(*old(self)),
            confirmed == (old(self).driver.names(file) && old(self).driver.handle_at(
                file.slot as int,
            ) is Closing),
            !confirmed ==> *final(self) == *old(self),
            confirmed ==> {
                &&& final(self).same_but_driver(*old(self))
                &&& final(self).wait == old(self).wait.woken_once()
                &&& final(self).driver.same_files_except(old(self).driver, file.slot as int)
                &&& final(self).driver.handle_at(file.slot as int) is Closed
                &&& final(self).driver.file_generation_at(file.slot as int) == file.generation
            },
    {
        let ghost before = *self;
        let ghost at = file.slot as int;
        proof {
            before.lemma_facts();
            before.lemma_preserves_itself();
        }
        let confirmed: bool = self.driver.confirm_closed(file);
        if confirmed {
            self.wait.wake();
            proof {
                assert(file_ok(before.files, before.driver, at));
                assert(file_ok(self.files, self.driver, at));
                self.lemma_file_step(before, at);
                self.lemma_ring_kept(before, at);
            }
        }
        confirmed
    }

    /// The handles of the first `n` file slots.
    pub open spec fn handles_below(self, n: int) -> Seq<FileHandle>
        decreases n,
    {
        if n <= 0 {
            Seq::empty()
        } else {
            match self.files.entry_at(n - 1) {
                Some(PoolFile { handle: Some(handle), .. }) => self.handles_below(n - 1).push(
                    handle,
                ),
                _ => self.handles_below(n - 1),
            }
        }
    }

    /// The pool on its way down: retirements have advanced where retention is
    /// on, the results in the ring are routed, barriers that could go are in the
    /// ring, and undelivered results are dropped.
    pub open spec fn winding_down(self, other: Pool) -> bool {
        exists|retired: Pool, drained: Pool|
            {
                &&& if other.cache.residency.retention.enabled() {
                    retired.retired_below(other, other.files.capacity() as int)
                } else {
                    retired == other
                }
                &&& #[trigger] drained.drained(retired)
                &&& #[trigger] self.same_but_products(drained)
                &&& self.products@ == ProductOps::cleared(
                    drained.products@,
                    drained.products@.len() as int,
                )
            }
    }

    /// No operation is in flight, and the host has no file left to close that it
    /// was already told of.
    pub open spec fn at_rest(self) -> bool {
        &&& self.cache.reads_in_flight == 0
        &&& self.products.is_idle()
        &&& forall|s: int|
            0 <= s < self.files.capacity() ==> !((#[trigger] self.driver.handle_at(s)) is Closing)
    }

    /// Advances a shutdown: routes the results in the ring, and once no
    /// operation is in flight and no close is outstanding hands out the handles
    /// to close, else hands the pool back for another pass. Undelivered results
    /// are dropped, accepted I/O is not.
    pub fn shutdown(self) -> (outcome: Shutdown)
        requires
            self.wf(),
            self.fit(),
        ensures
            match outcome {
                Shutdown::Waiting(rest) => {
                    &&& rest.wf()
                    &&& rest.winding_down(self)
                    &&& self.cache.wear <= rest.cache.wear <= self.cache.wear
                        + self.driver.capacity()
                    &&& !rest.at_rest()
                },
                Shutdown::Done(handles) => exists|rest: Pool|
                    {
                        &&& rest.wf()
                        &&& #[trigger] rest.winding_down(self)
                        &&& rest.at_rest()
                        &&& handles@ == rest.handles_below(rest.files.capacity() as int)
                    },
            },
    {
        proof {
            self.lemma_facts();
            self.driver.lemma_capacity();
        }
        let mut pool = self;
        if !pool.cache.residency.retention.is_disabled() {
            pool.progress_retirements();
        }
        let ghost retired = pool;
        let _routed: u32 = pool.drain_completions();
        let ghost drained = pool;
        proof {
            drained.lemma_facts();
        }
        pool.products.discard_completed();
        proof {
            pool.lemma_cleared(drained, drained.products@.len() as int);
            pool.lemma_facts();
            assert(drained.drained(retired));
            assert(pool.same_but_products(drained));
            assert(pool.winding_down(self));
        }
        if pool.cache.reads_in_flight == 0 && pool.products.idle() && pool.closing().is_none() {
            let count: u32 = pool.files.len();
            let mut handles: Vec<FileHandle> = Vec::new();
            let mut slot: u32 = 0;
            while slot < count
                invariant
                    pool.wf(),
                    count == pool.files.capacity(),
                    slot <= count,
                    handles@ == pool.handles_below(slot as int),
                decreases count - slot,
            {
                if let Some(entry) = pool.files.entry(slot) {
                    if let Some(handle) = entry.handle {
                        handles.push(handle);
                    }
                }
                slot = slot + 1;
            }
            Shutdown::Done(handles)
        } else {
            Shutdown::Waiting(pool)
        }
    }
}

} // verus!
