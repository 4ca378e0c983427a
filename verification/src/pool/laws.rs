//! What the pool promises over several calls.

use crate::driver::{FileId, OpState, OpToken};
use crate::error::IoError;
use crate::pool::clock::Clock;
use crate::pool::cache::{flight_at, flown, Cache};
use crate::pool::config::GetError;
use crate::pool::control::{awaits_of, file_ok, read_of, served, staged, Pool};
use crate::pool::demand::Get;
use crate::pool::epoch::{FrameGuard, ReaderCtx};
use crate::pool::frames::{FrameState, ReadFrameIdx};
use crate::pool::guidance::{
    leads, lemma_left_alone, lemma_polling, lemma_spent_somewhere, sight, spent_at, steps,
    unconcerned,
};
use crate::pool::holds::PendingToken;
use crate::pool::miss::{MissEntry, MissOutcome, MissSlot};
use crate::pool::product_ops::{
    a_ripe_barrier_follows_its_writes, lemma_delivered, ProductOp, ProductOps,
};
use crate::pool::prefetch::feedback::Feedback;
use crate::pool::prefetch::ledger::{confirmed_all, Prefetch};
use crate::pool::prefetch::pattern::Pattern;
use crate::pool::prefetch::{Admission, PrefetchReport, Source};
use crate::pool::residency::queued_in;
use crate::pool::retention::{RetainedFrame, Retention};
use crate::pool::routing::{aligned_remainder, stages, verdict, ReadOutcome};
use crate::pool::{PageId, ResidentHint};
use crate::product::{PollReport, PoolCompletion, PoolCompletionBatch, PoolWriteSlot};
use vstd::prelude::*;

verus! {

impl Pool {
    /// The record `token` waits for.
    pub open spec fn awaited_entry(self, token: PendingToken) -> MissEntry {
        self.cache.miss.entry_at(token.record().0 as int)->0
    }

    /// The read a token waits for is in the ring, and its frame in flight.
    proof fn lemma_in_flight(self, token: PendingToken)
        requires
            self.wf(),
            self.redeems(token),
            self.awaited_entry(token).outcome is Pending,
        ensures
            self.cache.miss.is_pending(token.record().0 as int),
            self.driver.live(self.awaited_entry(token).token),
            self.driver.request_at(self.awaited_entry(token).token.slot as int) == Some(
                read_of(self.awaited_entry(token), self.cache.granule_bytes() as int),
            ),
            self.cache.residency.has(self.awaited_entry(token).frame),
            self.awaited_entry(token).filled < self.cache.granule_bytes(),
    {
        self.lemma_facts();
        self.cache.lemma_facts();
        let i = token.record().0 as int;
        assert(self.cache.miss.is_pending(i));
        assert(flight_at(self.cache.residency.frames, self.awaited_entry(token)));
    }

    /// A poll hands a recorded result to the record that waits for it, and the
    /// answer stands through the rest of the pass. The pool right after the
    /// ring was routed is returned.
    proof fn lemma_ring_passed(
        self,
        told: Pool,
        token: PendingToken,
        result: Result<u32, IoError>,
        reclaimed: int,
    ) -> (drained: Pool)
        requires
            told.wf(),
            told.redeems(token),
            told.awaited_entry(token).outcome is Pending,
            told.driver.state_at(told.awaited_entry(token).token.slot as int) is Finished,
            told.driver.state_at(told.awaited_entry(token).token.slot as int)->Finished_1 == result,
            !(verdict(
                told.mode_of(token.asked().file),
                told.awaited_entry(token),
                told.cache.granule_bytes() as int,
                result,
            ) is Resumed),
            self.polled(told, reclaimed),
        ensures
            drained.drained(told),
            self.redeems(token),
            self.answers_as(drained, token),
            self.awaited_entry(token) == drained.awaited_entry(token),
            exists|routed: Pool| #[trigger]
                routed.miss_ended(told, token.record().0 as int, result) && routed.cache
                    == drained.cache,
    {
        told.lemma_facts();
        let (passed, backend) = choose|passed: Pool, backend: int|
            {
                &&& #[trigger] passed.ring_pass(told, backend, reclaimed)
                &&& self.upkeep(passed)
            };
        let (drained, taken) = choose|drained: Pool, taken: int|
            {
                &&& #[trigger] drained.drained(told)
                &&& drained.settles(told)
                &&& #[trigger] passed.reclaimed_from(drained, taken)
                &&& passed.settles(drained)
            };
        let i = token.record().0 as int;
        let n = told.driver.capacity() as int;
        assert(told.cache.miss.is_pending(i));
        assert(told.driver.live(told.awaited_entry(token).token));
        let routed = choose|routed: Pool| #[trigger]
            routed.routed_to(told, n) && drained.cache == routed.cache;
        assert(routed.miss_routed(told, i, n));
        assert(routed.miss_ended(told, i, result));
        assert(drained.redeems(token));
        assert(passed.redeems(token) && passed.answers_as(drained, token));
        let retired = choose|retired: Pool|
            {
                &&& #[trigger] retired.retired_below(passed, passed.files.capacity() as int)
                &&& self.readahead_from(retired)
                &&& self.preserves(retired)
            };
        assert(retired.redeems(token) && retired.answers_as(passed, token));
        assert(self.redeems(token) && self.answers_as(retired, token));
        drained
    }
}

/// Concurrent misses coalesce: a demand for a page whose read is in flight
/// submits nothing, and its token shares the record of every token that already
/// waits for the page.
pub proof fn misses_coalesce(
    before: Pool,
    after: Pool,
    reader: ReaderCtx,
    page: PageId,
    outcome: Get,
    earlier: PendingToken,
)
    requires
        before.wf(),
        before.cache.pending(page),
        before.redeems(earlier),
        earlier.asked() == page,
        before.awaited_entry(earlier).outcome is Pending,
        after.got(before, reader, page, Ok(outcome)),
    ensures
        outcome matches Get::Pending(token) && token.asked() == page && token.record()
            == earlier.record() && token.turn() == earlier.turn(),
        after.driver == before.driver,
        after.cache.miss == before.cache.miss,
        after.cache.free == before.cache.free,
        after.cache.reads_in_flight == before.cache.reads_in_flight,
{
    before.lemma_facts();
    before.cache.lemma_facts();
    let j = earlier.record().0 as int;
    assert(before.cache.miss.is_pending(j));
    assert(!before.cache.mapped(page));
    let seen = choose|seen: Pool|
        {
            &&& #[trigger] seen.demanded(before, reader.index(), page)
            &&& after.got_cold(seen, reader.index(), page, outcome)
        };
    assert(seen.cache.miss.is_pending(j));
    assert(seen.cache.pending(page));
    if let Get::Pending(token) = outcome {
        let i = token.record().0 as int;
        before.cache.miss.lemma_singleflight(i, j);
    }
}

/// A demand reads back what the host delivered: once the host has reported the
/// bytes that complete the read a token waits for and the pool was polled, the
/// token's page is resident, and its frame holds what was delivered before,
/// followed by exactly those bytes.
pub proof fn a_delivered_page_is_read_back(
    before: Pool,
    told: Pool,
    after: Pool,
    token: PendingToken,
    bytes: Seq<u8>,
    reclaimed: int,
)
    requires
        before.wf(),
        told.wf(),
        after.wf(),
        before.redeems(token),
        before.awaited_entry(token).outcome is Pending,
        before.awaited_entry(token).filled + bytes.len() == before.cache.granule_bytes(),
        told.transferred(before, before.awaited_entry(token).token, bytes),
        after.polled(told, reclaimed),
    ensures
        after.redeems(token),
        after.awaited_entry(token).outcome is Succeeded,
        after.cache.mapped(token.asked()),
        after.cache.residency.table@[token.asked()] == after.awaited_entry(token).frame,
        after.cache.residency.frames.contents(after.awaited_entry(token).frame)
            == before.cache.residency.frames.contents(before.awaited_entry(token).frame).take(
            before.awaited_entry(token).filled as int,
        ) + bytes,
{
    before.lemma_in_flight(token);
    before.lemma_facts();
    told.lemma_facts();
    let entry = before.awaited_entry(token);
    before.cache.lemma_facts();
    before.cache.residency.lemma_facts();
    before.cache.residency.frames.lemma_positive();
    before.cache.residency.frames.lemma_published(entry.frame);
    assert(told.redeems(token));
    let drained = after.lemma_ring_passed(told, token, Ok(bytes.len() as u32), reclaimed);
    after.lemma_arrived(token);
    assert(told.cache.residency.frames.contents(entry.frame)
        =~= before.cache.residency.frames.contents(entry.frame).take(entry.filled as int) + bytes);
}

/// A failed read reaches every waiter: once the host has reported a result that
/// ends the read a token waits for without filling its page and the pool was
/// polled, the token is owed that failure.
pub proof fn a_failed_read_reaches_every_waiter(
    before: Pool,
    told: Pool,
    after: Pool,
    token: PendingToken,
    result: Result<u32, IoError>,
    errno: i32,
    reclaimed: int,
)
    requires
        before.wf(),
        told.wf(),
        before.redeems(token),
        before.awaited_entry(token).outcome is Pending,
        told.recorded(before, before.awaited_entry(token).token, result),
        told.cache.same_flow(before.cache),
        verdict(
            before.mode_of(token.asked().file),
            before.awaited_entry(token),
            before.cache.granule_bytes() as int,
            result,
        ) == (ReadOutcome::Failed { errno }),
        told.cache.granule_bytes() == before.cache.granule_bytes(),
        after.polled(told, reclaimed),
    ensures
        after.redeems(token),
        after.awaited_entry(token).outcome == MissOutcome::Failed(errno),
{
    before.lemma_in_flight(token);
    assert(told.redeems(token));
    let drained = after.lemma_ring_passed(told, token, result, reclaimed);
}

/// A page whose read has failed is neither resident nor in flight after the
/// pass that routed the failure, so a later demand can read it again.
pub proof fn a_failed_page_can_be_read_again(before: Pool, after: Pool, i: int, errno: i32)
    requires
        before.wf(),
        after.wf(),
        before.cache.miss.is_pending(i),
        ({
            let entry = before.cache.miss.entry_at(i)->0;
            let state = before.driver.state_at(entry.token.slot as int);
            &&& state is Finished
            &&& verdict(
                before.mode_of(entry.page.file),
                entry,
                before.cache.granule_bytes() as int,
                state->Finished_1,
            ) == (ReadOutcome::Failed { errno })
        }),
        after.drained(before),
        after.settles(before),
    ensures
        !after.cache.pending(before.cache.miss.entry_at(i)->0.page),
        !after.cache.mapped(before.cache.miss.entry_at(i)->0.page),
        after.cache.residency.frames.residency(before.cache.miss.entry_at(i)->0.frame) is Free,
{
    before.lemma_facts();
    before.cache.lemma_facts();
    before.cache.residency.lemma_facts();
    after.lemma_facts();
    after.cache.lemma_facts();
    after.cache.residency.lemma_facts();
    let entry = before.cache.miss.entry_at(i)->0;
    let n = before.driver.capacity() as int;
    let routed = choose|routed: Pool| #[trigger]
        routed.routed_to(before, n) && after.cache == routed.cache;
    assert(before.driver.live(entry.token));
    assert(routed.miss_routed(before, i, n));
    if after.cache.pending(entry.page) {
        let j = choose|j: int| #[trigger]
            after.cache.miss.is_pending(j) && after.cache.miss.entry_at(j)->0.page == entry.page;
        if before.cache.miss.is_pending(j) {
            assert(routed.miss_routed(before, j, n));
            before.cache.miss.lemma_singleflight(i, j);
        } else {
            assert(after.cache.miss.entry_at(j) == before.cache.miss.entry_at(j));
        }
    }
    if after.cache.mapped(entry.page) {
        let f = after.cache.residency.table@[entry.page];
        if before.cache.residency.frames.residency(f) is InFlight {
            assert(flown(before.cache.miss, f));
            let j = choose|j: int| #[trigger]
                before.cache.miss.is_pending(j) && before.cache.miss.entry_at(j)->0.frame == f;
            assert(flight_at(before.cache.residency.frames, before.cache.miss.entry_at(j)->0));
            assert(routed.miss_routed(before, j, n));
            before.cache.miss.lemma_singleflight(i, j);
        } else {
            assert(routed.same_frame(before, f));
            assert(before.cache.residency.frames.residency(f) is Resident);
        }
    }
}

/// A short read is resumed where it stopped: what it delivered stays in the
/// frame, and the remainder of the granule is asked for.
pub proof fn a_short_read_resumes(
    before: Pool,
    told: Pool,
    after: Pool,
    token: PendingToken,
    bytes: Seq<u8>,
)
    requires
        before.wf(),
        told.wf(),
        before.redeems(token),
        before.awaited_entry(token).outcome is Pending,
        0 < bytes.len(),
        before.awaited_entry(token).filled + bytes.len() < before.cache.granule_bytes(),
        aligned_remainder(
            before.mode_of(token.asked().file),
            token.asked().granule_idx * before.cache.granule_bytes()
                + before.awaited_entry(token).filled + bytes.len(),
            before.awaited_entry(token).filled + bytes.len(),
            before.cache.granule_bytes() - before.awaited_entry(token).filled - bytes.len(),
        ),
        told.transferred(before, before.awaited_entry(token).token, bytes),
        after.drained(told),
        after.settles(told),
    ensures
        after.redeems(token),
        after.awaited_entry(token).outcome is Pending,
        after.awaited_entry(token).filled == before.awaited_entry(token).filled + bytes.len(),
        after.awaited_entry(token).frame == before.awaited_entry(token).frame,
        after.driver.state_at(after.awaited_entry(token).token.slot as int) == OpState::Submitted(
            read_of(after.awaited_entry(token), before.cache.granule_bytes() as int),
        ),
        after.cache.residency.frames.contents(after.awaited_entry(token).frame).take(
            after.awaited_entry(token).filled as int,
        ) == before.cache.residency.frames.contents(before.awaited_entry(token).frame).take(
            before.awaited_entry(token).filled as int,
        ) + bytes,
{
    before.lemma_in_flight(token);
    before.lemma_facts();
    before.cache.lemma_facts();
    before.cache.residency.lemma_facts();
    told.lemma_facts();
    let i = token.record().0 as int;
    let entry = before.awaited_entry(token);
    before.cache.residency.frames.lemma_positive();
    before.cache.residency.frames.lemma_published(entry.frame);
    assert(told.redeems(token));
    let n = told.driver.capacity() as int;
    let routed = choose|routed: Pool|
        {
            &&& #[trigger] routed.routed_to(told, n)
            &&& after.cache == routed.cache
            &&& forall|s: int|
                0 <= s < told.driver.capacity() ==> #[trigger] after.slot_promoted(routed, s)
        };
    assert(told.cache.miss.is_pending(i));
    assert(routed.miss_routed(told, i, n));
    let resumed = after.awaited_entry(token);
    assert(routed.driver.live(resumed.token));
    assert(after.slot_promoted(routed, resumed.token.slot as int));
    assert(after.cache.residency.frames.contents(entry.frame).take(resumed.filled as int)
        =~= before.cache.residency.frames.contents(entry.frame).take(entry.filled as int) + bytes);
}

/// A hit disturbs nobody: every guard, retained handle, pending token, lease and
/// registration stays good, and every frame keeps its bytes.
pub proof fn a_hit_leaves_other_holds_valid(
    before: Pool,
    after: Pool,
    reader: ReaderCtx,
    page: PageId,
    guard: FrameGuard,
)
    requires
        before.wf(),
        before.cache.mapped(page),
        before.may_pin(reader),
        after.hit(before, reader, page, guard),
    ensures
        after.cache.residency.frames == before.cache.residency.frames,
        forall|g: FrameGuard| #[trigger] before.lends(g) ==> after.lends(g),
        forall|h: RetainedFrame| #[trigger] before.retains(h) ==> after.retains(h),
        forall|t: PendingToken| #[trigger]
            before.redeems(t) ==> after.redeems(t) && after.answers_as(before, t),
        forall|r: ReaderCtx| #[trigger] before.registered(r) ==> after.registered(r),
        after.files == before.files,
{
    before.lemma_facts();
    before.cache.lemma_facts();
    before.cache.residency.lemma_facts();
    assert forall|g: FrameGuard| #[trigger] before.lends(g) implies after.lends(g) by {
        let r = g.holder() as int;
        assert(before.cache.residency.pins@[r].count(g.pinned()) > 0);
        assert(after.cache.residency.pins@[r].count(g.pinned()) > 0);
    }
}

/// A file lease pins no frame: the same frames can be evicted with it as
/// without.
pub proof fn a_lease_pins_no_frame(before: Pool, after: Pool, file: FileId, frame: ReadFrameIdx)
    requires
        after.same_but_file(before, file.slot as int),
    ensures
        after.cache.evictable(frame) == before.cache.evictable(frame),
{
}

/// A retired file is refused from then on: whatever the pool goes on to do, a
/// demand for one of its pages is answered with the stale file.
pub proof fn a_retired_file_is_refused(
    before: Pool,
    retired: Pool,
    later: Pool,
    after: Pool,
    reader: ReaderCtx,
    page: PageId,
    got: Result<Get, GetError>,
)
    requires
        before.wf(),
        before.files.addresses(page.file),
        before.serves(page.file),
        retired.retired(before, page.file),
        later.preserves(retired),
        after.got(later, reader, page, got),
    ensures
        got == Err::<Get, GetError>(GetError::StaleFile { page }),
        after == later,
{
    before.lemma_facts();
    let s = page.file.slot as int;
    let marked = choose|marked: Pool|
        {
            &&& #[trigger] marked.marked_retiring(before, page.file)
            &&& retired.retired_below(marked, marked.files.capacity() as int)
        };
    assert(file_ok(before.files, before.driver, s));
    assert(retired.retired_slot(marked, s));
    assert(retired.expired(page.file));
    assert(later.expired(page.file));
}

/// A hint never changes an outcome: with or without one a demand is refused
/// alike, hits the same frame, or asks for the same read. A hint that holds
/// names the frame it hits.
pub proof fn a_hint_changes_no_outcome(
    before: Pool,
    hinted: Pool,
    plain: Pool,
    reader: ReaderCtx,
    page: PageId,
    hint: ResidentHint,
    with: Result<Get, GetError>,
    without: Result<Get, GetError>,
)
    requires
        before.wf(),
        hinted.got(before, reader, page, with),
        plain.got(before, reader, page, without),
    ensures
        with is Err <==> without is Err,
        with is Err ==> with == without && hinted == plain,
        (with matches Ok(Get::Hit(_))) <==> (without matches Ok(Get::Hit(_))),
        with matches Ok(Get::Hit(a)) ==> without matches Ok(Get::Hit(b)) && a.pinned()
            == b.pinned() && a.holder() == b.holder() && a.owner() == b.owner(),
        before.files.is_live(page.file) && before.cache.pending(page) ==> (with matches Ok(
            Get::Pending(_),
        )) && (without matches Ok(Get::Pending(_))),
        with matches Ok(Get::Pending(a)) ==> (without matches Ok(Get::Pending(b)) ==> a.record()
            == b.record()),
        before.files.is_live(page.file) && before.cache.residency.hint_holds(page, hint) ==> (
        with matches Ok(Get::Hit(a)) && a.pinned() == ReadFrameIdx(hint.frame)),
{
    before.lemma_facts();
    before.cache.lemma_facts();
    if before.cache.residency.hint_holds(page, hint) {
        before.cache.lemma_hint(page, hint);
    }
    if let Ok(Get::Pending(a)) = with {
        if let Ok(Get::Pending(b)) = without {
            let first = choose|seen: Pool|
                {
                    &&& #[trigger] seen.demanded(before, reader.index(), page)
                    &&& hinted.got_cold(seen, reader.index(), page, with->Ok_0)
                };
            let second = choose|seen: Pool|
                {
                    &&& #[trigger] seen.demanded(before, reader.index(), page)
                    &&& plain.got_cold(seen, reader.index(), page, without->Ok_0)
                };
            let i = a.record().0 as int;
            let j = b.record().0 as int;
            if first.cache.pending(page) {
                before.cache.miss.lemma_singleflight(i, j);
            } else {
                assert(first.cache.miss.reusable(first.cache.interests, i));
                assert(second.cache.miss.reusable(second.cache.interests, j));
                assert(first.cache.miss.reusable(first.cache.interests, j));
            }
        }
    }
}

/// The held frames among `dropped` whose last handle went, in turn: `trace`
/// holds the retention state before each drop.
pub open spec fn last_drops(trace: Seq<Retention>, dropped: Seq<ReadFrameIdx>) -> Seq<ReadFrameIdx>
    decreases dropped.len(),
{
    if dropped.len() == 0 {
        Seq::empty()
    } else {
        let frame = dropped.last();
        let at = trace[dropped.len() - 1];
        let earlier = last_drops(trace, dropped.drop_last());
        if at.held(frame) && at.handles(frame) == 1 {
            earlier.push(frame)
        } else {
            earlier
        }
    }
}

/// Dropping handles one after another queues the freed frames in that order.
proof fn lemma_queued_in_turn(trace: Seq<Retention>, dropped: Seq<ReadFrameIdx>)
    requires
        trace.len() > dropped.len(),
        forall|k: int|
            0 <= k < dropped.len() ==> trace[k + 1].released(trace[k], #[trigger] dropped[k]),
    ensures
        trace[dropped.len() as int].pending() == trace[0].pending() + last_drops(trace, dropped),
    decreases dropped.len(),
{
    if dropped.len() > 0 {
        let n = dropped.len() - 1;
        let earlier = dropped.drop_last();
        assert forall|k: int| 0 <= k < earlier.len() implies trace[k + 1].released(
            trace[k],
            #[trigger] earlier[k],
        ) by {
            assert(earlier[k] == dropped[k]);
        }
        lemma_queued_in_turn(trace, earlier);
        assert(trace[n + 1].released(trace[n], dropped[n]));
    }
}

/// Frames come out of the release ring in the order in which their last handles
/// were dropped, each once: the pass after a run of drops frees what was
/// waiting already, then the frames of the run in turn, then the matured
/// evictions. The pass after that finds no released frame.
pub proof fn released_frames_return_in_order(
    trace: Seq<Retention>,
    dropped: Seq<ReadFrameIdx>,
    before: Cache,
    after: Cache,
    taken: int,
    later: Cache,
    more: int,
)
    requires
        before.wf(),
        trace.len() == dropped.len() + 1,
        forall|k: int|
            0 <= k < dropped.len() ==> trace[k + 1].released(trace[k], #[trigger] dropped[k]),
        before.residency.retention == trace.last(),
        after.reclaimed(before, taken),
        later.reclaimed(after, more),
    ensures
        after.free@ == before.free@ + (trace[0].pending() + last_drops(trace, dropped))
            + before.residency.unretained(taken),
        (trace[0].pending() + last_drops(trace, dropped)).no_duplicates(),
        later.free@ == after.free@ + after.residency.unretained(more),
{
    before.lemma_facts();
    before.residency.lemma_facts();
    before.residency.retention.lemma_budget();
    lemma_queued_in_turn(trace, dropped);
    assert(after.free@ =~= before.free@ + (trace[0].pending() + last_drops(trace, dropped))
        + before.residency.unretained(taken));
    assert(later.free@ =~= after.free@ + after.residency.unretained(more));
}

/// Every frame is in exactly one place: with the spares, under a read, mapped
/// to its page, or on its way out.
pub proof fn every_frame_has_one_place(pool: Pool, frame: ReadFrameIdx)
    requires
        pool.wf(),
        pool.cache.residency.has(frame),
    ensures
        match pool.cache.residency.frames.residency(frame) {
            FrameState::Free => pool.cache.free@.contains(frame)
                != pool.cache.prefetch.reserved().contains(frame),
            _ => !pool.cache.free@.contains(frame) && !pool.cache.prefetch.reserved().contains(
                frame,
            ),
        },
        pool.cache.residency.frames.residency(frame) is InFlight <==> flown(
            pool.cache.miss,
            frame,
        ),
        pool.cache.residency.frames.residency(frame) is Resident <==> exists|p: PageId| #[trigger]
            pool.cache.mapped(p) && pool.cache.residency.table@[p] == frame,
        pool.cache.residency.frames.residency(frame) is Evicting <==> queued_in(
            pool.cache.residency.evict_queue@,
            frame,
        ) != pool.cache.residency.retention.held(frame),
{
    pool.lemma_facts();
    pool.cache.lemma_facts();
    pool.cache.residency.lemma_facts();
    let frames = pool.cache.residency.frames;
    if flown(pool.cache.miss, frame) {
        let i = choose|i: int| #[trigger]
            pool.cache.miss.is_pending(i) && pool.cache.miss.entry_at(i)->0.frame == frame;
        assert(flight_at(frames, pool.cache.miss.entry_at(i)->0));
    }
    assert(pool.cache.residency.retention.held(frame) ==> frames.residency(frame) is Evicting);
    if frames.residency(frame) is Resident {
        assert(pool.cache.mapped(frames.page(frame)->0));
    }
}

/// A write carries what was staged: no caller holds the slot of a write in the
/// ring, so none can change it, and no step of the pool changes a staged
/// granule.
pub proof fn a_write_in_flight_keeps_its_bytes(
    before: Pool,
    after: Pool,
    staging: int,
    held: PoolWriteSlot,
)
    requires
        before.wf(),
        before.writing(staging),
        after.preserves(before),
    ensures
        before.stages(held) ==> held.slot.index() != staging,
        after.arena.contents(staging) == before.arena.contents(staging),
{
    before.lemma_facts();
    let s = choose|s: int|
        0 <= s < before.driver.capacity() && stages(#[trigger] before.driver.request_at(s), staging);
    assert(staged(before.arena, before.driver.request_at(s)));
}

impl Pool {
    /// A read in flight stays in flight, and a page of `window` stays mapped to
    /// its frame.
    pub open spec fn carries_on(self, other: Pool, window: Seq<PageId>) -> bool {
        &&& forall|p: PageId| #[trigger] other.cache.pending(p) ==> self.cache.pending(p)
        &&& forall|p: PageId|
            window.contains(p) && #[trigger] other.cache.mapped(p) ==> self.cache.mapped(p)
                && self.cache.residency.table@[p] == other.cache.residency.table@[p]
    }

    proof fn lemma_same_flight_carries_on(self, other: Pool, window: Seq<PageId>)
        requires
            self.cache.miss == other.cache.miss,
            self.cache.residency.table@ == other.cache.residency.table@,
        ensures
            self.carries_on(other, window),
    {
        assert forall|p: PageId| #[trigger] other.cache.pending(p) implies self.cache.pending(
            p,
        ) by {
            let i = choose|i: int| #[trigger]
                other.cache.miss.is_pending(i) && other.cache.miss.entry_at(i)->0.page == p;
            assert(self.cache.miss.is_pending(i));
        }
    }

    proof fn lemma_carries_on_again(self, middle: Pool, other: Pool, window: Seq<PageId>)
        requires
            middle.carries_on(other, window),
            self.carries_on(middle, window),
        ensures
            self.carries_on(other, window),
    {
        assert forall|p: PageId| #[trigger] other.cache.pending(p) implies self.cache.pending(
            p,
        ) by {
            assert(middle.cache.pending(p));
        }
        assert forall|p: PageId|
            window.contains(p) && #[trigger] other.cache.mapped(p) implies self.cache.mapped(p)
            && self.cache.residency.table@[p] == other.cache.residency.table@[p] by {
            assert(middle.cache.mapped(p));
        }
    }

    /// One attempt to read a page ahead cancels nothing.
    proof fn lemma_admission_carries_on(
        self,
        other: Pool,
        page: PageId,
        source: Source,
        outcome: Admission,
        window: Seq<PageId>,
    )
        requires
            self.admission(other, page, source, outcome),
        ensures
            self.carries_on(other, window),
    {
        let calm = choose|calm: Pool|
            {
                &&& #[trigger] calm.calmed(other)
                &&& self.decided(calm, page, source, outcome)
            };
        calm.lemma_same_flight_carries_on(other, window);
        if self == calm {
        } else {
            let filled = choose|filled: Pool|
                {
                    &&& #[trigger] filled.replenished(calm)
                    &&& if filled.cache.prefetch.reserved().len() == 0 {
                        outcome is Deferred && self == filled
                    } else if !filled.driver.has_room() {
                        outcome is Deferred && self.refused(filled)
                    } else {
                        outcome is Admitted && self.speculated(filled, page, source)
                    }
                };
            filled.lemma_same_flight_carries_on(calm, window);
            filled.lemma_carries_on_again(calm, other, window);
            if filled.cache.prefetch.reserved().len() == 0 {
            } else if !filled.driver.has_room() {
                self.lemma_same_flight_carries_on(filled, window);
                self.lemma_carries_on_again(filled, other, window);
            } else {
                let (slot, issued) = choose|slot: MissSlot, issued: OpToken|
                    {
                        &&& filled.first_record(slot)
                        &&& #[trigger] self.began(
                            filled,
                            slot,
                            page,
                            filled.cache.prefetch.reserved().last(),
                            issued,
                            0,
                        )
                    };
                assert forall|p: PageId| #[trigger] filled.cache.pending(
                    p,
                ) implies self.cache.pending(p) by {
                    let i = choose|i: int| #[trigger]
                        filled.cache.miss.is_pending(i) && filled.cache.miss.entry_at(i)->0.page
                            == p;
                    assert(i != slot.0);
                    assert(self.cache.miss.entry_at(i) == filled.cache.miss.entry_at(i));
                    assert(self.cache.miss.is_pending(i));
                }
                assert(self.carries_on(filled, window));
                self.lemma_carries_on_again(filled, other, window);
            }
        }
    }

    /// Making a credit available cancels nothing and spares the window.
    proof fn lemma_replaced_carries_on(self, other: Pool, window: Seq<PageId>)
        requires
            self.replaced(other, window),
        ensures
            self.carries_on(other, window),
    {
        self.lemma_same_flight_carries_on(self, window);
        if self != other {
            let settled = choose|settled: Cache|
                {
                    &&& settled.wf()
                    &&& settled.same_but_ledger(other.cache)
                    &&& #[trigger] settled.prefetch.reconciled(
                        other.cache.prefetch,
                        other.cache.clock,
                        settled.clock,
                    )
                    &&& (self.cache == settled && forall|i: int|
                        !(#[trigger] settled.unused_at(window, i))) || self.took_unused(
                        settled,
                        window,
                    )
                };
            if self.cache == settled {
                self.lemma_same_flight_carries_on(other, window);
            } else {
                let k = choose|k: int|
                    {
                        &&& #[trigger] settled.unused_at(window, k)
                        &&& self.cache.unmapped(settled, settled.prefetch.entry_at(k)->0.frame)
                    };
                settled.lemma_facts();
                settled.residency.lemma_facts();
                settled.prefetch.lemma_entry(k);
                let gone = settled.prefetch.entry_at(k)->0;
                assert(settled.residency.frames.page(gone.frame) == Some(gone.page));
                assert forall|p: PageId| #[trigger] other.cache.pending(
                    p,
                ) implies self.cache.pending(p) by {
                    let i = choose|i: int| #[trigger]
                        other.cache.miss.is_pending(i) && other.cache.miss.entry_at(i)->0.page == p;
                    assert(settled.miss.is_pending(i));
                    assert(self.cache.miss.is_pending(i));
                }
            }
        }
    }

    /// One page of a window: nothing is cancelled, and the window is spared.
    proof fn lemma_requested_carries_on(
        self,
        other: Pool,
        page: PageId,
        window: Seq<PageId>,
        outcome: Admission,
    )
        requires
            self.requested(other, page, window, outcome),
        ensures
            self.carries_on(other, window),
    {
        let (tried, first) = choose|tried: Pool, first: Admission|
            {
                &&& #[trigger] tried.admission(other, page, Source::Explicit, first)
                &&& if first is Deferred {
                    self.retried(tried, page, window, outcome)
                } else {
                    self == tried && outcome == first
                }
            };
        tried.lemma_admission_carries_on(other, page, Source::Explicit, first, window);
        if first is Deferred {
            let freed = choose|freed: Pool|
                {
                    &&& #[trigger] freed.replaced(tried, window)
                    &&& self.admission(freed, page, Source::Explicit, outcome)
                };
            freed.lemma_replaced_carries_on(tried, window);
            self.lemma_admission_carries_on(freed, page, Source::Explicit, outcome, window);
            freed.lemma_carries_on_again(tried, other, window);
            self.lemma_carries_on_again(freed, other, window);
        }
    }

    proof fn lemma_trace_carries_on(
        trace: Seq<Pool>,
        window: Seq<PageId>,
        outcomes: Seq<Admission>,
        n: int,
    )
        requires
            Pool::requested_all(trace, window, outcomes),
            0 <= n <= outcomes.len(),
        ensures
            trace[n].carries_on(trace[0], window),
        decreases n,
    {
        if n == 0 {
            trace[0].lemma_same_flight_carries_on(trace[0], window);
        } else {
            Pool::lemma_trace_carries_on(trace, window, outcomes, n - 1);
            assert(trace[(n - 1) + 1].requested(
                trace[n - 1],
                window[n - 1],
                window,
                outcomes[n - 1],
            ));
            trace[n].lemma_requested_carries_on(
                trace[n - 1],
                window[n - 1],
                window,
                outcomes[n - 1],
            );
            trace[n].lemma_carries_on_again(trace[n - 1], trace[0], window);
        }
    }
}

/// A prefetch cancels no accepted read and evicts no page of its own window.
pub proof fn a_prefetch_spares_reads_and_its_window(
    before: Pool,
    after: Pool,
    pages: Seq<PageId>,
    report: PrefetchReport,
    page: PageId,
)
    requires
        after.prefetched(before, pages, report),
    ensures
        before.cache.pending(page) ==> after.cache.pending(page),
        before.window(pages).contains(page) && before.cache.mapped(page) ==> after.cache.mapped(
            page,
        ) && after.cache.residency.table@[page] == before.cache.residency.table@[page],
{
    let window = before.window(pages);
    let (trace, outcomes) = choose|trace: Seq<Pool>, outcomes: Seq<Admission>|
        {
            &&& #[trigger] Pool::requested_all(trace, window, outcomes)
            &&& outcomes.len() == window.len()
            &&& trace[0].engaged(before)
            &&& after.noted(trace.last(), report)
        };
    let n = outcomes.len() as int;
    Pool::lemma_trace_carries_on(trace, window, outcomes, n);
    trace[0].lemma_same_flight_carries_on(before, window);
    after.lemma_same_flight_carries_on(trace[n], window);
    trace[n].lemma_carries_on_again(trace[0], before, window);
    after.lemma_carries_on_again(trace[n], before, window);
}

/// Without speculative credits nothing is read ahead: no admission submits a
/// read, whoever asks for it.
pub proof fn without_credits_nothing_is_read_ahead(
    before: Pool,
    after: Pool,
    page: PageId,
    source: Source,
    outcome: Admission,
)
    requires
        before.cache.prefetch.credits() == 0,
        after.admission(before, page, source, outcome),
    ensures
        !(outcome is Admitted),
        after.driver == before.driver,
        after.cache.miss == before.cache.miss,
{
}

/// Feedback moves only the pattern of the reader it is for.
proof fn lemma_others_feedback(
    patterns: Seq<Pattern>,
    order: Seq<Feedback>,
    capacity: u32,
    other: int,
)
    requires
        0 <= other < patterns.len(),
        forall|x: Feedback| #[trigger]
            order.contains(x) ==> x.reader < patterns.len() && x.reader != other,
    ensures
        confirmed_all(patterns, order, capacity).len() == patterns.len(),
        confirmed_all(patterns, order, capacity)[other] == patterns[other],
    decreases order.len(),
{
    if order.len() > 0 {
        let earlier = order.drop_last();
        assert(order.contains(order.last()));
        assert forall|x: Feedback| #[trigger] earlier.contains(x) implies x.reader
            < patterns.len() && x.reader != other by {
            let k = choose|k: int| 0 <= k < earlier.len() && earlier[k] == x;
            assert(order[k] == x);
            assert(order.contains(x));
        }
        lemma_others_feedback(patterns, earlier, capacity, other);
    }
}

/// Readers train alone: a demand of one reader moves no other reader's
/// prediction, beyond the feedback that was already owed to it.
pub proof fn readers_train_alone(before: Pool, after: Pool, reader: u32, page: PageId, other: u32)
    requires
        before.wf(),
        after.demanded(before, reader, page),
        other != reader,
        other < before.cache.prefetch.patterns().len(),
        forall|x: Feedback| #[trigger]
            before.cache.prefetch.owes(before.cache.clock, x) ==> x.reader != other,
    ensures
        after.cache.prefetch.patterns()[other as int]
            == before.cache.prefetch.patterns()[other as int],
{
    before.lemma_facts();
    before.cache.lemma_facts();
    let was = before.cache.prefetch;
    was.lemma_books();
    let calm = choose|calm: Prefetch|
        {
            &&& #[trigger] calm.caught_up(was, before.cache.clock, after.cache.clock)
            &&& after.cache.prefetch.trained(calm, reader, page)
        };
    if was.queued_feedback().len() > 0 {
        let order = choose|order: Seq<Feedback>| #[trigger]
            calm.took(was, before.cache.clock, order);
        assert forall|x: Feedback| #[trigger] order.contains(x) implies x.reader
            < was.patterns().len() && x.reader != other by {
            assert(was.owes(before.cache.clock, x));
            was.lemma_feedback_reader(before.cache.clock, x);
        }
        lemma_others_feedback(was.patterns(), order, was.credits() as u32, other as int);
    }
}

/// Readers of one slot train alone, too: a new reader is predicted nothing of
/// what the reader before it did, no feedback still owed to that reader moves it
/// on, and registering it moves no other reader's prediction.
pub proof fn a_new_reader_starts_untrained(before: Pool, after: Pool, slot: u32, other: u32)
    requires
        after.untrained(before, slot),
        slot < before.cache.prefetch.patterns().len(),
        other < before.cache.prefetch.patterns().len(),
    ensures
        after.cache.prefetch.patterns()[slot as int].prediction(slot) is None,
        forall|x: Feedback|
            (#[trigger] after.cache.prefetch.patterns()[slot as int].confirmed(
                x.page,
                x.incarnation,
                after.cache.prefetch.credits() as u32,
            )) == after.cache.prefetch.patterns()[slot as int],
        other != slot ==> after.cache.prefetch.patterns()[other as int]
            == before.cache.prefetch.patterns()[other as int],
{
}

/// A poll moves streams for causes of their own: step by step, at most one
/// reader's pattern moves, and only by feedback that is owed to that reader, by
/// a request of its own stream, or because a current prediction of its own
/// failed or went unused. A prediction is filed only where its reader's stream
/// asks for it.
pub proof fn a_poll_moves_streams_for_their_own_causes(before: Pool, after: Pool, reclaimed: int)
    requires
        before.wf(),
        after.polled(before, reclaimed),
    ensures
        leads(sight(before.cache), sight(before.cache), sight(after.cache)),
{
    lemma_polling(before, after, reclaimed);
}

/// A poll leaves other readers' streams alone: a reader that has no prediction
/// out, is owed no feedback and asks for no page keeps its pattern, whatever
/// the poll does for others.
pub proof fn a_poll_leaves_other_streams_alone(
    before: Pool,
    after: Pool,
    reclaimed: int,
    reader: int,
)
    requires
        before.wf(),
        after.polled(before, reclaimed),
        0 <= reader < before.cache.prefetch.patterns().len(),
        unconcerned(sight(before.cache), reader),
    ensures
        after.cache.prefetch.patterns().len() == before.cache.prefetch.patterns().len(),
        after.cache.prefetch.patterns()[reader] == before.cache.prefetch.patterns()[reader],
{
    let start = sight(before.cache);
    before.lemma_facts();
    before.cache.lemma_facts();
    before.cache.prefetch.lemma_books();
    lemma_polling(before, after, reclaimed);
    let trace = choose|trace: Seq<(Prefetch, Clock)>|
        {
            &&& #[trigger] steps(start, trace)
            &&& trace[0] == start
            &&& trace.last() == sight(after.cache)
        };
    lemma_left_alone(start, trace, reader, trace.len() - 1);
}

/// A poll spends a second chance only where the hand passes: a frame whose
/// reference bit was set and is clear after it was passed by a sweep of the
/// hand, or a speculation has started in it.
pub proof fn a_poll_spends_second_chances_where_the_hand_passes(
    before: Pool,
    after: Pool,
    reclaimed: int,
    frame: ReadFrameIdx,
)
    requires
        before.wf(),
        after.polled(before, reclaimed),
        before.cache.clock.has(frame),
        before.cache.clock.referenced(frame),
        !after.cache.clock.referenced(frame),
    ensures
        exists|trace: Seq<(Prefetch, Clock)>, k: int|
            {
                &&& #[trigger] steps(sight(before.cache), trace)
                &&& trace[0] == sight(before.cache)
                &&& trace.last() == sight(after.cache)
                &&& #[trigger] spent_at(trace, k, frame)
            },
{
    let start = sight(before.cache);
    lemma_polling(before, after, reclaimed);
    let trace = choose|trace: Seq<(Prefetch, Clock)>|
        {
            &&& #[trigger] steps(start, trace)
            &&& trace[0] == start
            &&& trace.last() == sight(after.cache)
        };
    let k = lemma_spent_somewhere(start, trace, frame, trace.len() - 1);
    assert(spent_at(trace, k, frame));
}

/// A barrier enters the ring only after every write of its file admitted before
/// it has its result.
pub proof fn a_barrier_enters_the_ring_after_its_writes(
    before: Pool,
    after: Pool,
    barrier: int,
    write: int,
)
    requires
        after.promoted(before),
        0 <= barrier < before.products@.len(),
        before.products@[barrier].operation is Some,
        before.products@[barrier].operation->0 is FsyncHeld,
        after.products@[barrier] != before.products@[barrier],
        0 <= write < before.products@.len(),
        before.products@[write].operation is Some,
        before.products@[write].operation->0 is Write,
        before.products@[write].operation->0.target()
            == before.products@[barrier].operation->0.target(),
    ensures
        after.products@[barrier].operation is Some,
        after.products@[barrier].operation->0 is Fsync,
        before.products@[write].operation->0->Write_order
            >= before.products@[barrier].operation->0->FsyncHeld_order,
{
    assert(before.products.is_ripe(barrier));
    a_ripe_barrier_follows_its_writes(before.products, barrier, write);
}

/// A barrier whose writes have their results does not wait while the ring has
/// room.
pub proof fn a_ripe_barrier_goes_out_while_there_is_room(before: Pool, after: Pool, barrier: int)
    requires
        after.promoted(before),
        before.products.is_ripe(barrier),
        after.driver.has_room(),
    ensures
        after.submitted_barrier(before, barrier),
{
    if after.products@[barrier] == before.products@[barrier] {
        if let Some(ProductOp::FsyncHeld { file, order, .. }) = before.products@[barrier].operation {
            if after.products.write_before(file, order) {
                let j = choose|j: int|
                    0 <= j < after.products@.len() && #[trigger] after.products.write_at(
                        j,
                        file,
                        order,
                    );
                assert(after.products@[j] == before.products@[j]);
                assert(before.products.write_at(j, file, order));
            }
        }
        assert(after.products.is_ripe(barrier));
    }
}

/// No resource is overdrawn: the reads in flight, the speculative credits, the
/// reserve behind them and the retained frames stay within what was configured.
pub proof fn capacities_are_kept(pool: Pool)
    requires
        pool.wf(),
    ensures
        pool.cache.reads_in_flight <= pool.cache.read_limit(),
        pool.cache.reads_in_flight == pool.cache.miss.pending_count(),
        pool.cache.prefetch.stats().occupied <= pool.cache.prefetch.credits(),
        pool.cache.prefetch.reserved().len() <= pool.cache.prefetch.credits(),
        pool.cache.residency.retention.stats().occupied_budget
            <= pool.cache.residency.retention.budget(),
        pool.cache.residency.evict_queue@.len() <= pool.cache.frame_count(),
{
    pool.lemma_facts();
    pool.cache.lemma_facts();
    pool.cache.residency.lemma_facts();
    pool.cache.prefetch.lemma_books();
    pool.cache.residency.retention.lemma_budget();
}

/// The ring slot whose result a product operation waits for.
pub open spec fn awaited_slot(operation: Option<ProductOp>) -> int {
    match awaits_of(operation) {
        Some((token, _)) => token.slot as int,
        None => -1,
    }
}

/// A finished write or barrier is delivered: once the host has reported its
/// result, a poll into a batch with room for every operation hands the result
/// out under the operation's token.
pub proof fn a_finished_operation_is_delivered(
    told: Pool,
    after: Pool,
    out: PoolCompletionBatch,
    empty: PoolCompletionBatch,
    report: PollReport,
    k: int,
)
    requires
        told.wf(),
        empty@ == Seq::<PoolCompletion>::empty(),
        out.room() >= told.products@.len(),
        after.reported(told, out, empty, report),
        0 <= k < told.products@.len(),
        awaits_of(told.products@[k].operation) is Some,
        told.driver.state_at(awaited_slot(told.products@[k].operation)) is Finished,
    ensures
        ({
            let slot = awaited_slot(told.products@[k].operation);
            let result = told.driver.state_at(slot)->Finished_1;
            told.products@[k].operation->0.finished(result) matches ProductOp::Completed {
                completion,
                ..
            } && out@.contains(completion)
        }),
{
    told.lemma_facts();
    assert(served(told.driver, told.products@[k].operation));
    let n = told.driver.capacity() as int;
    let (passed, delivered, kept) = choose|passed: Pool, delivered: Pool, kept: Pool|
        {
            &&& #[trigger] passed.ring_pass(told, report.backend as int, report.reclaimed as int)
            &&& #[trigger] delivered.delivered(passed, out, empty)
            &&& #[trigger] kept.upkeep(delivered)
        };
    let (drained, taken) = choose|drained: Pool, taken: int|
        {
            &&& #[trigger] drained.drained(told)
            &&& #[trigger] passed.reclaimed_from(drained, taken)
        };
    let routed = choose|routed: Pool| #[trigger]
        routed.routed_to(told, n) && drained.promoted(routed);
    assert(routed.product_routed(told, k, n));
    assert(!routed.products.is_ripe(k));
    assert(drained.products@[k] == routed.products@[k]);
    let slots = passed.products@;
    let through = choose|through: int|
        {
            &&& 0 <= through <= slots.len()
            &&& delivered.products@ == #[trigger] ProductOps::cleared(slots, through)
            &&& out@ == empty@ + ProductOps::results(slots, through)
            &&& through < slots.len() ==> out@.len() == out.room()
        };
    lemma_delivered(slots, through, k);
    assert(out@ =~= ProductOps::results(slots, through));
    assert(through == slots.len());
}

} // verus!
