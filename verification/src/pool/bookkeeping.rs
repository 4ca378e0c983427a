//! What callers can count on of waiters, pins, evictions, staged writes and
//! barriers, told by what they can observe.

use crate::driver::{Driver, FileHandle, FileId, IoMode, OpState, OpToken, Request};
use crate::error::IoError;
use crate::pool::cache::{flight_at, Cache};
use crate::pool::clock::{distance, Clock, SpeculationOutcome};
use crate::pool::config::GetError;
use crate::pool::control::{awaited_product, awaited_read, served, Pool};
use crate::pool::demand::Get;
use crate::pool::epoch::{FrameGuard, ReaderCtx};
use crate::pool::file_slots::FileOwned;
use crate::pool::files::Files;
use crate::pool::frames::{overwritten, ReadFrameIdx};
use crate::pool::holds::PendingToken;
use crate::pool::miss::MissSlot;
use crate::pool::prefetch::{Admission, Source};
use crate::pool::readahead::tally;
use crate::pool::product_ops::{ProductOp, ProductOps};
use crate::pool::residency::{queued_in, Residency};
use crate::pool::routing::finished_below;
use crate::pool::PageId;
use crate::product::{
    tokens_are_distinct, wakes_add_up, PollReport, PoolCompletionBatch, PoolToken,
};
use vstd::prelude::*;

verus! {

/// A demand is served whenever there is room for it: for a page of a live file
/// that is neither resident nor in flight, while fewer reads are in flight than
/// allowed, some miss record is empty or terminal without waiters, some frame is
/// free and some ring slot vacant, it returns a token and does not turn busy.
pub proof fn a_demand_with_room_is_served(
    before: Pool,
    after: Pool,
    reader: ReaderCtx,
    page: PageId,
    got: Result<Get, GetError>,
    record: int,
    slot: int,
)
    requires
        before.wf(),
        after.got(before, reader, page, got),
        before.files.is_live(page.file),
        !before.cache.residency.table@.contains_key(page),
        before.cache.reads_in_flight < before.cache.read_limit(),
        0 <= record < before.cache.miss.capacity(),
        before.cache.miss.entry_at(record) matches Some(entry) ==> !(entry.outcome is Pending)
            && before.cache.interests@[record].waiters == 0,
        before.cache.free@.len() > 0,
        0 <= slot < before.driver.capacity(),
        before.driver.state_at(slot) is Vacant,
    ensures
        got matches Ok(outcome) && outcome matches Get::Pending(token) && token.asked() == page
            && after.redeems(token),
        after.lifecycle.live_pending_interests
            == before.lifecycle.live_pending_interests.wrapping_add(1),
        (forall|i: int| #[trigger]
            before.cache.miss.is_pending(i) ==> before.cache.miss.entry_at(i)->0.page != page)
            ==> after.wait.current == before.wait.current.wrapping_add(1)
            && after.cache.reads_in_flight == before.cache.reads_in_flight + 1
            && after.cache.free@.len() == before.cache.free@.len() - 1,
{
    before.lemma_facts();
    before.cache.lemma_facts();
    assert(!before.cache.mapped(page));
    let outcome = got->Ok_0;
    let seen = choose|seen: Pool|
        {
            &&& #[trigger] seen.demanded(before, reader.index(), page)
            &&& after.got_cold(seen, reader.index(), page, outcome)
        };
    assert(seen.cache.miss.reusable(seen.cache.interests, record));
    assert(seen.driver.state_at(slot) is Vacant);
    assert(seen.admits_read());
    if seen.cache.pending(page) {
        let i = choose|i: int| #[trigger]
            seen.cache.miss.is_pending(i) && seen.cache.miss.entry_at(i)->0.page == page;
        assert(before.cache.miss.is_pending(i));
    }
}

/// A demand never turns busy for a page that is resident, in flight or of a file
/// that is not live: the first is a hit, the second a token, the third an error.
pub proof fn a_demand_is_busy_for_cold_pages_only(
    before: Pool,
    after: Pool,
    reader: ReaderCtx,
    page: PageId,
    got: Result<Get, GetError>,
)
    requires
        before.wf(),
        after.got(before, reader, page, got),
    ensures
        !before.files.is_live(page.file) <==> (got matches Err(error) && error == (
        GetError::StaleFile { page })),
        before.files.is_live(page.file) && before.cache.residency.table@.contains_key(page) <==> (
        got matches Ok(outcome) && outcome is Hit),
        before.files.is_live(page.file) && (exists|i: int| #[trigger]
            before.cache.miss.is_pending(i) && before.cache.miss.entry_at(i)->0.page == page)
            ==> (got matches Ok(outcome) && outcome is Pending),
{
    before.lemma_facts();
    before.cache.lemma_facts();
    if before.files.is_live(page.file) && before.cache.pending(page) {
        let i = choose|i: int| #[trigger]
            before.cache.miss.is_pending(i) && before.cache.miss.entry_at(i)->0.page == page;
        assert(!before.cache.mapped(page));
        let outcome = got->Ok_0;
        let seen = choose|seen: Pool|
            {
                &&& #[trigger] seen.demanded(before, reader.index(), page)
                &&& after.got_cold(seen, reader.index(), page, outcome)
            };
        assert(seen.cache.miss.is_pending(i));
        assert(seen.cache.pending(page));
    }
}

/// A hit hands out the frame the page is resident in: the guard pins it for the
/// reader and the page's file, the reader holds one guard more, and the frame is
/// marked as used.
pub proof fn a_hit_pins_its_page(
    before: Pool,
    after: Pool,
    reader: ReaderCtx,
    page: PageId,
    guard: FrameGuard,
)
    requires
        before.wf(),
        before.may_pin(reader),
        after.got(before, reader, page, Ok(Get::Hit(guard))),
    ensures
        guard.pinned() == before.cache.residency.table@[page],
        guard.holder() == reader.index(),
        guard.owner() == page.file.slot,
        after.cache.residency.frames == before.cache.residency.frames,
        after.cache.residency.frames.page(guard.pinned()) == Some(page),
        after.cache.residency.frames.residency(guard.pinned()) is Resident,
        after.cache.residency.readers@[reader.index() as int].guard_count
            == before.cache.residency.readers@[reader.index() as int].guard_count + 1,
        after.cache.residency.pins@[reader.index() as int].count(guard.pinned())
            == before.cache.residency.pins@[reader.index() as int].count(guard.pinned()) + 1,
        before.cache.residency.readers@[reader.index() as int].guard_count == 0
            ==> after.cache.residency.readers@[reader.index() as int].local_epoch
            == before.cache.residency.epoch,
        before.cache.residency.readers@[reader.index() as int].guard_count > 0
            ==> after.cache.residency.readers@[reader.index() as int].local_epoch
            == before.cache.residency.readers@[reader.index() as int].local_epoch,
        after.cache.clock.referenced(guard.pinned()),
        !before.cache.clock.referenced(guard.pinned()) && before.cache.clock.speculation(
            guard.pinned(),
        ) is Unconsumed ==> after.cache.clock.speculation(guard.pinned())
            == SpeculationOutcome::Consumed(Some(reader.index())),
        forall|f: ReadFrameIdx|
            before.cache.clock.has(f) && f != guard.pinned() ==> #[trigger] after.cache.clock.referenced(
                f,
            ) == before.cache.clock.referenced(f),
        forall|r: int|
            0 <= r < before.cache.residency.readers@.len() && r != reader.index()
                ==> #[trigger] after.cache.residency.readers@[r]
                == before.cache.residency.readers@[r],
{
    before.lemma_facts();
    before.cache.lemma_facts();
    before.cache.residency.lemma_facts();
    assert(before.cache.mapped(page));
}

/// A token that joins a read in flight adds one waiter to its record and starts
/// nothing.
pub proof fn a_joined_read_gains_a_waiter(
    before: Pool,
    after: Pool,
    reader: ReaderCtx,
    page: PageId,
    token: PendingToken,
    i: int,
)
    requires
        before.wf(),
        before.cache.miss.is_pending(i),
        before.cache.miss.entry_at(i)->0.page == page,
        before.cache.interests@[i].waiters < u32::MAX,
        after.got(before, reader, page, Ok(Get::Pending(token))),
    ensures
        token.record().0 == i,
        token.turn() == before.cache.miss.entry_at(i)->0.generation,
        after.cache.interests@[i].waiters == before.cache.interests@[i].waiters + 1,
        after.cache.miss == before.cache.miss,
        after.driver == before.driver,
        after.cache.free == before.cache.free,
        forall|k: int|
            0 <= k < before.cache.interests@.len() && k != i
                ==> #[trigger] after.cache.interests@[k] == before.cache.interests@[k],
{
    before.lemma_facts();
    before.cache.lemma_facts();
    assert(!before.cache.mapped(page));
    let seen = choose|seen: Pool|
        {
            &&& #[trigger] seen.demanded(before, reader.index(), page)
            &&& after.got_cold(seen, reader.index(), page, Get::Pending(token))
        };
    assert(seen.cache.miss.is_pending(i));
    assert(seen.cache.pending(page));
    before.cache.miss.lemma_singleflight(i, token.record().0 as int);
}

/// Redeeming a token takes one waiter from its record; the record of a read that
/// has ended goes with the last one, and any other stays.
pub proof fn a_redeemed_token_takes_its_waiter(
    before: Cache,
    after: Pool,
    slot: MissSlot,
    generation: u64,
)
    requires
        before.wf(),
        before.awaited(slot, generation),
        after.redeemed(before, slot, generation),
    ensures
        after.cache.interests@[slot.0 as int].waiters == before.interests@[slot.0 as int].waiters
            - 1,
        before.miss.entry_at(slot.0 as int)->0.outcome is Pending
            || before.interests@[slot.0 as int].waiters > 1 ==> after.cache.miss.entry_at(
            slot.0 as int,
        ) == before.miss.entry_at(slot.0 as int),
        !(before.miss.entry_at(slot.0 as int)->0.outcome is Pending)
            && before.interests@[slot.0 as int].waiters == 1 ==> after.cache.miss.entry_at(
            slot.0 as int,
        ) is None,
        forall|k: int|
            0 <= k < before.miss.capacity() && k != slot.0 ==> #[trigger] after.cache.miss.entry_at(
                k,
            ) == before.miss.entry_at(k),
        after.cache.residency == before.residency,
        after.cache.free == before.free,
{
    before.lemma_facts();
}

/// A resident frame can be evicted unless a waiter has still to collect the
/// read that filled it; no other frame can.
pub proof fn an_uncollected_page_stays(cache: Cache, frame: ReadFrameIdx)
    requires
        cache.wf(),
        cache.residency.has(frame),
    ensures
        cache.evictable(frame) <==> cache.residency.frames.residency(frame) is Resident && forall|
            i: int,
        |
            0 <= i < cache.miss.capacity() && (#[trigger] cache.miss.entry_at(i)) is Some
                && cache.miss.entry_at(i)->0.outcome is Succeeded && cache.miss.entry_at(i)->0.frame
                == frame ==> cache.interests@[i].waiters == 0,
{
    cache.lemma_facts();
    if cache.miss.protection(frame) is Some {
        cache.miss.lemma_protection(frame);
    }
    assert forall|i: int|
        0 <= i < cache.miss.capacity() && (#[trigger] cache.miss.entry_at(i)) is Some
            && cache.miss.entry_at(i)->0.outcome is Succeeded && cache.miss.entry_at(i)->0.frame
            == frame implies cache.miss.protection(frame) is Some && cache.miss.protection(
        frame,
    )->0.slot.0 == i by {
        cache.miss.lemma_entry(i);
    }
}

/// An evicted page is gone from the mapping at once, and its frame waits, with
/// its bytes and identity unchanged, behind every frame evicted before it, under
/// the epoch of its eviction.
pub proof fn an_evicted_frame_waits(before: Cache, after: Cache, frame: ReadFrameIdx)
    requires
        before.wf(),
        before.residency.has(frame),
        before.residency.frames.residency(frame) is Resident,
        after.unmapped(before, frame),
    ensures
        !after.residency.table@.contains_key(before.residency.frames.page(frame)->0),
        forall|p: PageId|
            p != before.residency.frames.page(frame)->0
                ==> #[trigger] after.residency.table@.contains_key(p)
                == before.residency.table@.contains_key(p),
        after.residency.frames.residency(frame) is Evicting,
        after.residency.frames.page(frame) == before.residency.frames.page(frame),
        after.residency.frames.contents(frame) == before.residency.frames.contents(frame),
        after.residency.evict_queue@.len() == before.residency.evict_queue@.len() + 1,
        after.residency.evict_queue@.last() == (frame, before.residency.epoch),
        after.free@ == before.free@,
        after.residency.epoch == before.residency.epoch,
{
}

/// The epoch moves on by one exactly when every reader is quiescent or has seen
/// it; two epochs after its eviction, and not before, a frame that no handle
/// retains is free again, and one that a handle retains is held.
pub proof fn a_frame_is_free_two_epochs_after_its_eviction(
    before: Cache,
    after: Cache,
    taken: int,
    k: int,
)
    requires
        before.wf(),
        after.wf(),
        after.reclaimed(before, taken),
        0 <= k < before.residency.evict_queue@.len(),
    ensures
        ({
            let frame = before.residency.evict_queue@[k].0;
            let tag = before.residency.evict_queue@[k].1;
            &&& after.residency.epoch == before.residency.epoch + 1 || after.residency.epoch
                == before.residency.epoch
            &&& after.residency.epoch == before.residency.epoch + 1 <==> forall|r: int|
                0 <= r < before.residency.readers@.len()
                    ==> (#[trigger] before.residency.readers@[r]).guard_count == 0
                    || before.residency.readers@[r].local_epoch == before.residency.epoch
            &&& after.residency.epoch >= tag + 2 && before.residency.retention.handles(frame) == 0
                ==> after.residency.frames.residency(frame) is Free && after.free@.contains(frame)
            &&& after.residency.epoch >= tag + 2 && before.residency.retention.handles(frame) > 0
                ==> after.residency.frames.residency(frame) is Evicting
                && after.residency.retention.held(frame)
            &&& after.residency.epoch < tag + 2 ==> after.residency.frames.residency(
                frame,
            ) is Evicting && !after.free@.contains(frame) && queued_in(
                after.residency.evict_queue@,
                frame,
            )
        }),
{
    before.lemma_facts();
    before.residency.lemma_facts();
    after.lemma_facts();
    after.residency.lemma_facts();
    before.residency.retention.lemma_budget();
    let frame = before.residency.evict_queue@[k].0;
    let queue = before.residency.evict_queue@;
    assert(before.residency.frames.residency(frame) is Evicting);
    let returned = before.returned(taken);
    let pending = before.residency.retention.pending();
    let freed = before.residency.unretained(taken);
    if k < taken {
        before.residency.lemma_freed_entry(taken, k);
        assert(queue.take(taken)[k].0 == frame);
        assert(queued_in(queue.take(taken), frame));
        if before.residency.retention.handles(frame) == 0 {
            let j = choose|j: int| 0 <= j < freed.len() && freed[j] == frame;
            assert(returned[pending.len() + j] == frame);
            assert(after.free@[before.free@.len() + pending.len() + j] == frame);
        } else {
            if returned.contains(frame) {
                let j = choose|j: int| 0 <= j < returned.len() && returned[j] == frame;
                if j >= pending.len() {
                    assert(freed[j - pending.len()] == frame);
                    let l = before.residency.lemma_freed_only(taken, frame);
                } else {
                    assert(pending.contains(frame));
                }
            }
        }
    } else {
        assert(after.residency.evict_queue@[k - taken].0 == frame);
        if returned.contains(frame) {
            let j = choose|j: int| 0 <= j < returned.len() && returned[j] == frame;
            if j >= pending.len() {
                assert(freed[j - pending.len()] == frame);
                let l = before.residency.lemma_freed_only(taken, frame);
                assert(queue[l].0 == queue[k].0);
            } else {
                assert(pending.contains(frame));
            }
        }
    }
    assert forall|r: int|
        0 <= r < before.residency.readers@.len() implies (
    (#[trigger] before.residency.readers@[r]).guard_count == 0
        <==> before.residency.readers@[r].local_epoch == u64::MAX) by {}
}

/// What a caller stages is what the write carries, byte for byte: the bytes lie
/// from the offset on, and the rest of the granule is as it was.
pub proof fn filled_bytes_lie_where_they_were_put(original: Seq<u8>, start: int, bytes: Seq<u8>, i: int)
    requires
        0 <= start,
        start + bytes.len() <= original.len(),
        0 <= i < original.len(),
    ensures
        overwritten(original, start, bytes).len() == original.len(),
        overwritten(original, start, bytes).subrange(start, start + bytes.len()) == bytes,
        i < start || i >= start + bytes.len() ==> overwritten(original, start, bytes)[i]
            == original[i],
{
    assert(overwritten(original, start, bytes).subrange(start, start + bytes.len()) =~= bytes);
}

/// An admitted write asks the host for exactly what its caller asked for: the
/// ring holds a submitted write of the staging slot to the file at the offset,
/// in a slot that was vacant, and every other ring slot is as it was. The
/// operation waits for that write under a token that no other operation has.
pub proof fn a_write_is_submitted_as_asked(
    before: Pool,
    after: Pool,
    file: FileId,
    staging: u32,
    offset: u64,
    token: PoolToken,
) -> (k: int)
    requires
        before.wf(),
        before.products.can_mint(),
        after.admitted_write(before, file, staging, offset, token),
    ensures
        0 <= k < before.products@.len(),
        before.products@[k].operation is None,
        after.products@[k].operation matches Some(
            ProductOp::Write { token: handed, driver_token, file: target, order },
        ) && handed == token && target == file && order == before.products.admitted() + 1
            && before.driver.state_at(driver_token.slot as int) is Vacant && driver_token.slot
            < before.driver.capacity() && after.driver.generation_at(driver_token.slot as int)
            == driver_token.generation && after.driver.state_at(driver_token.slot as int)
            == OpState::Submitted(Request::Write { file, slot: staging, offset }) && forall|s: int|
            0 <= s < before.driver.capacity() && s != driver_token.slot
                ==> #[trigger] after.driver.state_at(s) == before.driver.state_at(s),
        forall|j: int|
            0 <= j < before.products@.len() && j != k ==> #[trigger] after.products@[j]
                == before.products@[j],
        forall|j: int|
            0 <= j < before.products@.len() && (#[trigger] before.products@[j]).operation is Some
                ==> before.products@[j].operation->0.handle() != token,
{
    before.lemma_facts();
    let (k, issued) = choose|k: int, issued: OpToken|
        {
            &&& #[trigger] before.products.is_vacancy(k)
            &&& token == crate::product::token_of(
                k as u32,
                (before.products@[k].generation + 1) as u32,
            )
            &&& after.products.admitted() == before.products.admitted() + 1
            &&& after.products@ == before.products@.update(
                k,
                crate::pool::product_ops::ProductOpSlot {
                    generation: (before.products@[k].generation + 1) as u32,
                    operation: Some(
                        ProductOp::Write {
                            token,
                            driver_token: issued,
                            file,
                            order: (before.products.admitted() + 1) as u64,
                        },
                    ),
                },
            )
            &&& #[trigger] after.driver.submitted(
                before.driver,
                issued,
                Request::Write { file, slot: staging, offset },
            )
        };
    assert forall|j: int|
        0 <= j < before.products@.len() && (
        #[trigger] before.products@[j]).operation is Some implies
        before.products@[j].operation->0.handle() != token by {
        assert(before.products.slot_ok(j));
        tokens_are_distinct(
            j as u32,
            before.products@[j].generation,
            k as u32,
            (before.products@[k].generation + 1) as u32,
        );
    }
    k
}

/// A barrier stands behind every operation admitted before it: it takes a slot
/// that was vacant, with the next order, under a token that no other operation
/// has, and it is held back, or in the ring as a barrier of its file.
pub proof fn a_barrier_stands_behind_what_was_admitted(
    before: Pool,
    after: Pool,
    file: FileId,
    token: PoolToken,
) -> (k: int)
    requires
        before.wf(),
        before.products.can_mint(),
        after.barred(before, file, token),
    ensures
        0 <= k < before.products@.len(),
        before.products@[k].operation is None,
        after.products.admitted() == before.products.admitted() + 1,
        after.products@[k].operation matches Some(op) && op.handle() == token && op.target() == file
            && (op is Fsync || (op matches ProductOp::FsyncHeld { order, .. } && order
            == before.products.admitted() + 1)),
        forall|j: int|
            0 <= j < before.products@.len() && (#[trigger] before.products@[j]).operation is Some
                ==> before.products@[j].operation->0.handle() != token && (
            before.products@[j].operation->0 is Write ==> after.products@[j]
                == before.products@[j]),
{
    before.lemma_facts();
    let held = choose|held: Pool|
        {
            &&& #[trigger] held.admitted_barrier(before, file, token)
            &&& after.promoted(held)
        };
    let k = choose|k: int|
        {
            &&& #[trigger] before.products.is_vacancy(k)
            &&& token == crate::product::token_of(
                k as u32,
                (before.products@[k].generation + 1) as u32,
            )
            &&& held.products@ == before.products@.update(
                k,
                crate::pool::product_ops::ProductOpSlot {
                    generation: (before.products@[k].generation + 1) as u32,
                    operation: Some(
                        ProductOp::FsyncHeld {
                            token,
                            file,
                            order: (before.products.admitted() + 1) as u64,
                        },
                    ),
                },
            )
        };
    assert(after.products@[k] == held.products@[k] || after.submitted_barrier(held, k));
    assert forall|j: int|
        0 <= j < before.products@.len() && (
        #[trigger] before.products@[j]).operation is Some implies
        before.products@[j].operation->0.handle() != token && (
    before.products@[j].operation->0 is Write ==> after.products@[j] == before.products@[j]) by {
        assert(before.products.slot_ok(j));
        tokens_are_distinct(
            j as u32,
            before.products@[j].generation,
            k as u32,
            (before.products@[k].generation + 1) as u32,
        );
        assert(held.products@[j] == before.products@[j]);
        assert(after.products@[j] == held.products@[j] || held.products.is_ripe(j));
    }
    k
}

/// A write or barrier that waits for the host is in the ring as such, for its
/// own file, and nobody else waits for it.
pub proof fn a_product_operation_is_in_the_ring(pool: Pool, k: int, issued: OpToken)
    requires
        pool.wf(),
        0 <= k < pool.products@.len(),
        pool.products@[k].operation matches Some(op) && match op {
            ProductOp::Write { driver_token, .. } => driver_token == issued,
            ProductOp::Fsync { driver_token, .. } => driver_token == issued,
            _ => false,
        },
    ensures
        issued.slot < pool.driver.capacity(),
        pool.driver.generation_at(issued.slot as int) == issued.generation,
        pool.products@[k].operation->0 matches ProductOp::Write { file, .. }
            ==> (pool.driver.request_at(issued.slot as int) matches Some(request) && request is Write
            && request->Write_file == file),
        pool.products@[k].operation->0 matches ProductOp::Fsync { file, .. }
            ==> pool.driver.request_at(issued.slot as int) == Some(Request::Fsync { file }),
        forall|j: int|
            0 <= j < pool.products@.len() && j != k ==> !(
            (#[trigger] pool.products@[j]).operation matches Some(op) && match op {
                ProductOp::Write { driver_token, .. } => driver_token == issued,
                ProductOp::Fsync { driver_token, .. } => driver_token == issued,
                _ => false,
            }),
{
    pool.lemma_facts();
    assert(served(pool.driver, pool.products@[k].operation));
    assert forall|j: int| 0 <= j < pool.products@.len() && j != k implies !(
    (#[trigger] pool.products@[j]).operation matches Some(op) && match op {
        ProductOp::Write { driver_token, .. } => driver_token == issued,
        ProductOp::Fsync { driver_token, .. } => driver_token == issued,
        _ => false,
    }) by {
        assert(served(pool.driver, pool.products@[j].operation));
    }
}

/// What the host reports is recorded as it is: the operation keeps its request
/// and has exactly the reported result, no other operation changes, and the
/// owner loop is woken.
pub proof fn a_result_is_recorded_as_reported(
    before: Pool,
    after: Pool,
    issued: OpToken,
    result: Result<u32, IoError>,
)
    requires
        before.driver.issued(issued),
        after.recorded(before, issued, result),
    ensures
        after.driver.state_at(issued.slot as int) matches OpState::Finished(request, recorded)
            && recorded == result && before.driver.state_at(issued.slot as int)
            == OpState::Issued(request),
        after.driver.generation_at(issued.slot as int) == issued.generation,
        forall|s: int|
            0 <= s < before.driver.capacity() && s != issued.slot
                ==> #[trigger] after.driver.state_at(s) == before.driver.state_at(s),
        after.wait.current == before.wait.current.wrapping_add(1),
        after.wait.consumed == before.wait.consumed,
        after.products == before.products,
        after.files == before.files,
        after.arena == before.arena,
{
}

/// The bytes of a read are accepted exactly where the token names a read in the
/// host's hands that asked for at least as many; they land in the read's frame
/// from where it was to start, and no other byte of any frame changes.
pub proof fn read_bytes_land_in_their_frame(
    before: Pool,
    after: Pool,
    issued: OpToken,
    bytes: Seq<u8>,
    request: Request,
    frame: ReadFrameIdx,
    i: int,
)
    requires
        before.wf(),
        before.driver.issued(issued),
        before.driver.request_at(issued.slot as int) == Some(request),
        request is Read,
        bytes.len() <= request->len,
        after.transferred(before, issued, bytes),
        before.cache.residency.has(frame),
        0 <= i < before.cache.granule_bytes(),
    ensures
        before.wanted(issued) == Some(request->len as int),
        after.driver.state_at(issued.slot as int) == OpState::Finished(
            request,
            Ok(bytes.len() as u32),
        ),
        frame == request->frame && request->destination_offset <= i < request->destination_offset
            + bytes.len() ==> after.cache.residency.frames.contents(frame)[i] == bytes[i
            - request->destination_offset],
        !(frame == request->frame && request->destination_offset <= i
            < request->destination_offset + bytes.len())
            ==> after.cache.residency.frames.contents(frame)[i]
            == before.cache.residency.frames.contents(frame)[i],
        after.cache.residency.table@ == before.cache.residency.table@,
        after.cache.miss == before.cache.miss,
{
    before.lemma_facts();
    before.cache.lemma_facts();
    before.cache.residency.lemma_facts();
    before.cache.residency.frames.lemma_published(frame);
}

/// Bytes are wanted only by a read in the host's hands.
pub proof fn only_issued_reads_want_bytes(pool: Pool, token: OpToken)
    ensures
        pool.wanted(token) is Some <==> pool.driver.issued(token) && (pool.driver.request_at(
            token.slot as int,
        ) matches Some(request) && request is Read),
        pool.driver.issued(token) <==> token.slot < pool.driver.capacity()
            && pool.driver.generation_at(token.slot as int) == token.generation
            && pool.driver.state_at(token.slot as int) is Issued,
{
}

/// A file is in use while a read of it is in flight or has waiters, a product
/// operation on it is in the table, or a frame holds a page of it.
pub proof fn a_file_is_used_by_reads_writes_and_frames(pool: Pool, file: FileId)
    requires
        pool.wf(),
    ensures
        pool.in_use(file) <==> {
            ||| exists|i: int|
                0 <= i < pool.cache.miss.capacity() && (
                #[trigger] pool.cache.miss.entry_at(i)) is Some && pool.cache.miss.entry_at(
                    i,
                )->0.page.file == file && (pool.cache.miss.entry_at(i)->0.outcome is Pending
                    || pool.cache.interests@[i].waiters > 0)
            ||| exists|k: int|
                0 <= k < pool.products@.len() && ((
                #[trigger] pool.products@[k]).operation matches Some(op) && match op {
                    ProductOp::Write { file: target, .. } => target == file,
                    ProductOp::FsyncHeld { file: target, .. } => target == file,
                    ProductOp::Fsync { file: target, .. } => target == file,
                    ProductOp::Completed { file: target, .. } => target == file,
                })
            ||| exists|f: ReadFrameIdx|
                pool.cache.residency.has(f) && (
                #[trigger] pool.cache.residency.frames.residency(f) is Resident
                    || pool.cache.residency.frames.residency(f) is Evicting)
                    && pool.cache.residency.frames.page(f)->0.file == file
        },
{
    pool.lemma_facts();
    pool.cache.lemma_facts();
    assert forall|i: int| 0 <= i < pool.cache.miss.capacity() implies (
    #[trigger] pool.cache.miss.live_for(pool.cache.interests, file, i) <==>
        pool.cache.miss.entry_at(i) is Some && pool.cache.miss.entry_at(i)->0.page.file == file && (
    pool.cache.miss.entry_at(i)->0.outcome is Pending || pool.cache.interests@[i].waiters > 0)) by {
        pool.cache.miss.lemma_entry(i);
        assert(pool.cache.interests@[i].generation == pool.cache.interests@[i].generation);
    }
    if exists|i: int|
        0 <= i < pool.cache.miss.capacity() && (#[trigger] pool.cache.miss.entry_at(i)) is Some
            && pool.cache.miss.entry_at(i)->0.page.file == file && (pool.cache.miss.entry_at(
            i,
        )->0.outcome is Pending || pool.cache.interests@[i].waiters > 0) {
        let i = choose|i: int|
            0 <= i < pool.cache.miss.capacity() && (#[trigger] pool.cache.miss.entry_at(i)) is Some
                && pool.cache.miss.entry_at(i)->0.page.file == file && (pool.cache.miss.entry_at(
                i,
            )->0.outcome is Pending || pool.cache.interests@[i].waiters > 0);
        assert(pool.cache.miss.live_for(pool.cache.interests, file, i));
    }
    if exists|k: int|
        0 <= k < pool.products@.len() && (#[trigger] pool.products@[k]).operation is Some
            && pool.products@[k].operation->0.target() == file {
        let k = choose|k: int|
            0 <= k < pool.products@.len() && (#[trigger] pool.products@[k]).operation is Some
                && pool.products@[k].operation->0.target() == file;
        assert(pool.products.uses_at(k, file));
    }
    if exists|f: ReadFrameIdx|
        pool.cache.residency.has(f) && (#[trigger] pool.cache.residency.frames.residency(
            f,
        ) is Resident || pool.cache.residency.frames.residency(f) is Evicting)
            && pool.cache.residency.frames.page(f)->0.file == file {
        let f = choose|f: ReadFrameIdx|
            pool.cache.residency.has(f) && (#[trigger] pool.cache.residency.frames.residency(
                f,
            ) is Resident || pool.cache.residency.frames.residency(f) is Evicting)
                && pool.cache.residency.frames.page(f)->0.file == file;
        assert(pool.cache.frame_of(file, f));
    }
    if pool.cache.holds_frames(file) {
        let f = choose|f: ReadFrameIdx| #[trigger] pool.cache.frame_of(file, f);
        assert(pool.cache.residency.frames.residency(f) is Resident
            || pool.cache.residency.frames.residency(f) is Evicting);
    }
}

/// A retiring file goes by steps: while it is leased or in use nothing happens
/// to it; then it loses its handle, which the host is to close; and once the
/// host has closed it, it is retired and its slot can be opened again. A file
/// that is not retiring stays as it is.
pub proof fn a_retiring_file_goes_by_steps(before: Pool, after: Pool, s: int)
    requires
        before.wf(),
        after.wf(),
        after.retired_below(before, before.files.capacity() as int),
        0 <= s < before.files.capacity(),
    ensures
        ({
            let was = before.files.entry_at(s);
            let is = after.files.entry_at(s);
            let goes = was is Some && was->0.state is Retiring && before.files.lease_at(s).count
                == 0 && !before.in_use(was->0.id);
            &&& !goes ==> is == was && after.driver.handle_at(s) == before.driver.handle_at(s)
            &&& is is Some <==> was is Some
            &&& is matches Some(entry) ==> entry.id == was->0.id
            &&& goes && was->0.handle is Some ==> is->0.state is Retiring && is->0.handle is None
                && after.driver.handle_at(s) is Closing
            &&& goes && was->0.handle is None && before.driver.handle_at(s) is Closing
                ==> is == was && after.driver.handle_at(s) is Closing
            &&& goes && was->0.handle is None && before.driver.handle_at(s) is Closed
                ==> is->0.state is Retired && after.driver.handle_at(s) is Vacant
            &&& after.files.lease_at(s) == before.files.lease_at(s)
            &&& after.driver.file_generation_at(s) == before.driver.file_generation_at(s)
        }),
{
    assert(after.retired_slot(before, s));
}

/// Retirement empties the frames of retiring files and no others: a frame that
/// can be evicted goes exactly where it holds a page of a file that retires and
/// that no lease holds.
pub proof fn retirement_evicts_the_frames_of_its_files(before: Pool, after: Pool, f: ReadFrameIdx)
    requires
        before.wf(),
        after.wf(),
        after.retired_below(before, before.files.capacity() as int),
        before.cache.residency.has(f),
        before.cache.residency.frames.residency(f) is Resident,
        before.cache.evictable(f),
    ensures
        ({
            let file = before.cache.residency.frames.page(f)->0.file;
            let entry = before.files.entry_at(file.slot as int)->0;
            after.cache.residency.frames.residency(f) is Evicting <==> entry.state is Retiring
                && before.files.lease_at(file.slot as int).count == 0
        }),
        !(after.cache.residency.frames.residency(f) is Evicting)
            ==> after.cache.residency.frames.residency(f) is Resident,
        after.cache.residency.frames.contents(f) == before.cache.residency.frames.contents(f),
{
    before.lemma_facts();
    before.cache.lemma_facts();
    before.cache.residency.lemma_facts();
    let page = before.cache.residency.frames.page(f)->0;
    let s = page.file.slot as int;
    assert(before.cache.residency.frames.published(f));
    before.cache.residency.frames.lemma_published(f);
    assert(before.files.backs(page.file));
    let n = before.files.capacity() as int;
    if before.retiring_at(s) {
        assert(before.sweeps(s, f));
        assert(before.swept(n).contains(f));
    }
    if before.swept(n).contains(f) {
        let t = choose|t: int| 0 <= t < n && #[trigger] before.sweeps(t, f);
        before.files.lemma_slot(t);
        assert(before.files.entry_at(t)->0.id.slot == t);
        assert(t == s);
    }
}

/// The handles a finished shutdown hands back are those of the registered files
/// that still have one, each once, in slot order.
pub proof fn shutdown_hands_back_every_handle(pool: Pool, n: int, s: int)
    requires
        pool.wf(),
        0 <= n <= pool.files.capacity(),
        0 <= s < n,
    ensures
        pool.files.entry_at(s) matches Some(entry) ==> (entry.handle matches Some(handle)
            ==> pool.handles_below(n).contains(handle)),
        forall|j: int|
            0 <= j < pool.handles_below(n).len() ==> (
            #[trigger] pool.handles_below(n)[j]).file.slot < n && (pool.files.entry_at(
                pool.handles_below(n)[j].file.slot as int,
            ) matches Some(entry) && entry.handle == Some(pool.handles_below(n)[j])),
        forall|j: int, l: int|
            0 <= j < l < pool.handles_below(n).len() ==> (
            #[trigger] pool.handles_below(n)[j]).file.slot < (
            #[trigger] pool.handles_below(n)[l]).file.slot,
    decreases n,
{
    pool.lemma_facts();
    pool.files.lemma_slot(n - 1);
    let all = pool.handles_below(n);
    let earlier = pool.handles_below(n - 1);
    if n > 1 {
        let below = if s < n - 1 {
            s
        } else {
            0
        };
        shutdown_hands_back_every_handle(pool, n - 1, below);
    } else {
        assert(earlier =~= Seq::<FileHandle>::empty());
    }
    assert forall|j: int| 0 <= j < earlier.len() implies all[j] == #[trigger] earlier[j] by {}
    if let Some(entry) = pool.files.entry_at(s) {
        if let Some(handle) = entry.handle {
            if s == n - 1 {
                assert(all.last() == handle);
            } else {
                let j = choose|j: int| 0 <= j < earlier.len() && earlier[j] == handle;
                assert(all[j] == handle);
            }
        }
    }
}

/// A staging slot is free again exactly when the write that read it has its
/// result: a pass over the ring frees those slots and no others, and changes no
/// staged byte.
pub proof fn a_written_slot_is_free_again(before: Pool, after: Pool, a: int)
    requires
        before.wf(),
        after.drained(before),
        0 <= a < before.arena.slot_count(),
    ensures
        after.arena.is_free(a) <==> before.arena.is_free(a) || exists|s: int|
            0 <= s < before.driver.capacity() && (
            #[trigger] before.driver.state_at(s) matches OpState::Finished(request, _) && (
            request matches Request::Write { slot, .. } && slot == a)),
        after.arena.contents(a) == before.arena.contents(a),
{
    let n = before.driver.capacity() as int;
    let routed = choose|routed: Pool| #[trigger]
        routed.routed_to(before, n) && after.arena == routed.arena;
    assert(routed.arena.is_free(a) == (before.arena.is_free(a) || before.written_back(a, n)));
    if before.written_back(a, n) {
        let s = choose|s: int|
            0 <= s < n && s < before.driver.capacity() && (#[trigger] before.driver.state_at(
                s,
            )) is Finished && crate::pool::routing::stages(before.driver.request_at(s), a);
        assert(before.driver.state_at(s) is Finished);
    }
    if exists|s: int|
        0 <= s < before.driver.capacity() && (
        #[trigger] before.driver.state_at(s) matches OpState::Finished(request, _) && (
        request matches Request::Write { slot, .. } && slot == a)) {
        let s = choose|s: int|
            0 <= s < before.driver.capacity() && (
            #[trigger] before.driver.state_at(s) matches OpState::Finished(request, _) && (
            request matches Request::Write { slot, .. } && slot == a));
        assert(crate::pool::routing::stages(before.driver.request_at(s), a));
    }
}

/// The results counted among the first ring slots.
proof fn lemma_finished(driver: crate::driver::Driver, n: int)
    requires
        0 <= n,
    ensures
        0 <= finished_below(driver, n) <= n,
        finished_below(driver, n) > 0 <==> exists|s: int|
            0 <= s < n && (#[trigger] driver.state_at(s)) is Finished,
        finished_below(driver, n) == n <==> forall|s: int|
            0 <= s < n ==> (#[trigger] driver.state_at(s)) is Finished,
    decreases n,
{
    if n > 0 {
        lemma_finished(driver, n - 1);
        if driver.state_at(n - 1) is Finished {
            assert(driver.state_at(n - 1) is Finished);
        }
    }
}

/// What readahead does to the wait state: at most one wake.
proof fn lemma_readahead_waits(before: Pool, after: Pool)
    requires
        after.readahead_from(before),
    ensures
        after.wait.consumed == before.wait.consumed,
{
    if before.cache.prefetch.patterns().len() == 0 {
        assert(after.wait == before.wait);
    } else {
        let (trace, outcomes) = choose|trace: Seq<Pool>, outcomes: Seq<Admission>|
            {
                &&& #[trigger] Pool::extended_all(trace, outcomes)
                &&& trace[0].prepared(before)
                &&& after.ended_readahead(trace.last(), outcomes)
            };
        lemma_extended_waits(trace, outcomes, outcomes.len() as int);
        assert(trace[0].wait == before.wait);
        let idle = choose|idle: Pool|
            {
                &&& #[trigger] idle.exhausted(outcomes)
                &&& idle.same_but_cache(trace.last())
                &&& after.wound_up(idle, outcomes)
            };
    }
}

proof fn lemma_extended_waits(trace: Seq<Pool>, outcomes: Seq<Admission>, n: int)
    requires
        Pool::extended_all(trace, outcomes),
        0 <= n <= outcomes.len(),
    ensures
        trace[n].wait == trace[0].wait,
    decreases n,
{
    if n > 0 {
        lemma_extended_waits(trace, outcomes, n - 1);
        let before = trace[n - 1];
        let after = trace[(n - 1) + 1];
        assert(after.extended(before, outcomes[n - 1]));
        let (turned, page, source, tried) = choose|
            turned: Pool,
            page: PageId,
            source: Source,
            tried: Pool,
        |
            {
                &&& #[trigger] turned.turned_to(before, page, source)
                &&& #[trigger] tried.admission(turned, page, source, outcomes[n - 1])
                &&& after.followed(tried, source->reader, outcomes[n - 1])
            };
        let calm = choose|calm: Pool|
            {
                &&& #[trigger] calm.calmed(turned)
                &&& tried.decided(calm, page, source, outcomes[n - 1])
            };
        if tried != calm {
            let filled = choose|filled: Pool|
                {
                    &&& #[trigger] filled.replenished(calm)
                    &&& if filled.cache.prefetch.reserved().len() == 0 {
                        outcomes[n - 1] is Deferred && tried == filled
                    } else if !filled.driver.has_room() {
                        outcomes[n - 1] is Deferred && tried.refused(filled)
                    } else {
                        outcomes[n - 1] is Admitted && tried.speculated(filled, page, source)
                    }
                };
        }
    }
}

/// Waking a loop any number of times consumes nothing.
proof fn lemma_woken(wait: crate::product::WaitState, n: nat)
    ensures
        wait.woken_times(n).consumed == wait.consumed,
    decreases n,
{
    if n > 0 {
        lemma_woken(wait, (n - 1) as nat);
    }
}

/// A pass that reports progress has consumed every wake up to its end, one that
/// reports none consumes nothing. It reports host results exactly where some
/// ring slot held one, and at most as many as there are slots.
pub proof fn a_pass_consumes_wakes_by_its_progress(
    told: Pool,
    after: Pool,
    out: PoolCompletionBatch,
    empty: PoolCompletionBatch,
    report: PollReport,
)
    requires
        told.wf(),
        after.reported(told, out, empty, report),
    ensures
        report.backend > 0 || report.reclaimed > 0 || out@.len() > 0 ==> after.wait.consumed
            == after.wait.current,
        report.backend == 0 && report.reclaimed == 0 && out@.len() == 0 ==> after.wait.consumed
            == told.wait.consumed,
        report.backend > 0 <==> exists|s: int|
            0 <= s < told.driver.capacity() && (#[trigger] told.driver.state_at(s)) is Finished,
        report.backend <= told.driver.capacity(),
{
    let (passed, delivered, kept) = choose|passed: Pool, delivered: Pool, kept: Pool|
        {
            &&& #[trigger] passed.ring_pass(told, report.backend as int, report.reclaimed as int)
            &&& #[trigger] delivered.delivered(passed, out, empty)
            &&& #[trigger] kept.upkeep(delivered)
            &&& after.acknowledged(kept, report.backend > 0 || report.reclaimed > 0 || out@.len()
                > 0)
        };
    let (drained, taken) = choose|drained: Pool, taken: int|
        {
            &&& #[trigger] drained.drained(told)
            &&& #[trigger] passed.reclaimed_from(drained, taken)
        };
    let n = told.driver.capacity() as int;
    lemma_finished(told.driver, n);
    let routed = choose|routed: Pool|
        {
            &&& #[trigger] routed.routed_to(told, n)
            &&& drained.wait == routed.wait.woken_times(
                drained.let_go(routed, routed.products@.len() as int),
            )
        };
    lemma_woken(routed.wait, drained.let_go(routed, routed.products@.len() as int));
    let retired = choose|retired: Pool|
        {
            &&& #[trigger] retired.retired_below(delivered, delivered.files.capacity() as int)
            &&& kept.readahead_from(retired)
        };
    lemma_readahead_waits(retired, kept);
}

/// An eviction takes one frame that can go, where there is one, and then exactly
/// the page in it: every other page stays mapped where it was.
pub proof fn an_eviction_takes_one_frame(before: Pool, after: Pool, evicted: bool, page: PageId)
    requires
        before.wf(),
        after.evicted_from(before, evicted),
    ensures
        evicted <==> exists|f: ReadFrameIdx|
            before.cache.residency.has(f) && #[trigger] before.cache.evictable(f),
        !evicted ==> after.cache.residency == before.cache.residency,
        after.cache.residency.table@.contains_key(page)
            ==> before.cache.residency.table@.contains_key(page)
            && after.cache.residency.table@[page] == before.cache.residency.table@[page],
        before.cache.residency.table@.contains_key(page)
            && !after.cache.residency.table@.contains_key(page) ==> evicted
            && before.cache.evictable(before.cache.residency.table@[page])
            && after.cache.residency.frames.residency(
            before.cache.residency.table@[page],
        ) is Evicting && forall|p: PageId|
            p != page && before.cache.residency.table@.contains_key(p)
                ==> #[trigger] after.cache.residency.table@.contains_key(p),
        evicted ==> after.cache.residency.evict_queue@.len()
            == before.cache.residency.evict_queue@.len() + 1,
{
    before.lemma_facts();
    before.cache.lemma_facts();
    before.cache.residency.lemma_facts();
    let (middle, victims) = choose|middle: Cache, victims: Seq<ReadFrameIdx>|
        {
            &&& #[trigger] middle.offered(before.cache, victims)
            &&& 0 < victims.len() <= 2 * before.cache.frame_count() + 1
            &&& before.cache.residency.has(victims.last())
            &&& evicted == before.cache.evictable(victims.last())
            &&& if evicted {
                after.cache.unmapped(middle, victims.last())
            } else {
                after.cache == middle && victims.len() == 2 * before.cache.frame_count() + 1
            }
        };
}

/// A demand that finds a free frame evicts nothing: every page stays mapped
/// where it was.
pub proof fn a_demand_with_a_free_frame_evicts_nothing(
    before: Pool,
    after: Pool,
    reader: ReaderCtx,
    page: PageId,
    got: Result<Get, GetError>,
)
    requires
        before.wf(),
        before.cache.free@.len() > 0,
        after.got(before, reader, page, got),
    ensures
        after.cache.residency.table@ == before.cache.residency.table@,
        after.cache.residency.evict_queue@ == before.cache.residency.evict_queue@,
        after.cache.residency.epoch == before.cache.residency.epoch,
{
    if let Ok(outcome) = got {
        if !(outcome is Hit) {
            let seen = choose|seen: Pool|
                {
                    &&& #[trigger] seen.demanded(before, reader.index(), page)
                    &&& after.got_cold(seen, reader.index(), page, outcome)
                };
            if let Get::Pending(token) = outcome {
                if !seen.cache.pending(page) {
                    let room = choose|room: Pool|
                        {
                            &&& #[trigger] room.made_room(seen)
                            &&& after.started(room, page, token)
                        };
                    assert(room == seen);
                }
            }
        }
    }
}

/// A pool at rest has nothing in the ring.
pub proof fn a_pool_at_rest_has_an_empty_ring(pool: Pool, s: int)
    requires
        pool.wf(),
        pool.at_rest(),
        0 <= s < pool.driver.capacity(),
    ensures
        pool.driver.state_at(s) is Vacant,
        pool.cache.reads_in_flight == 0,
        forall|k: int| 0 <= k < pool.products@.len() ==> (#[trigger] pool.products@[k]).operation is None,
        forall|f: int|
            0 <= f < pool.files.capacity() ==> !((#[trigger] pool.driver.handle_at(f)) is Closing),
{
    pool.lemma_facts();
    pool.cache.lemma_facts();
    if !(pool.driver.state_at(s) is Vacant) {
        assert(pool.driver.request_at(s) is Some);
        if pool.driver.request_at(s)->0 is Read {
            assert(awaited_read(pool.driver, pool.cache.miss, s));
            let i = choose|i: int| #[trigger]
                pool.cache.miss.is_pending(i) && pool.cache.miss.entry_at(i)->0.token
                    == pool.driver.token_at(s);
            pool.cache.miss.lemma_pending_counts(i);
        } else {
            assert(awaited_product(pool.driver, pool.products, s));
        }
    }
}

/// A demand turns busy only for want of something: where reads, a record and a
/// ring slot are to be had, no frame is free, and either a frame is on its way
/// out or none can be evicted.
pub proof fn a_busy_demand_has_tried_to_evict(
    before: Pool,
    after: Pool,
    reader: ReaderCtx,
    page: PageId,
    record: int,
    slot: int,
)
    requires
        before.wf(),
        after.wf(),
        after.got(before, reader, page, Ok(Get::Busy)),
        before.cache.reads_in_flight < before.cache.read_limit(),
        0 <= record < before.cache.miss.capacity(),
        before.cache.miss.entry_at(record) matches Some(entry) ==> !(entry.outcome is Pending)
            && before.cache.interests@[record].waiters == 0,
        0 <= slot < after.driver.capacity(),
        after.driver.state_at(slot) is Vacant,
    ensures
        after.cache.free@.len() == 0,
        after.cache.residency.evict_queue@.len() > 0 || forall|f: ReadFrameIdx|
            after.cache.residency.has(f) ==> !(#[trigger] after.cache.evictable(f)),
{
    before.lemma_facts();
    before.cache.lemma_facts();
    let seen = choose|seen: Pool|
        {
            &&& #[trigger] seen.demanded(before, reader.index(), page)
            &&& after.got_cold(seen, reader.index(), page, Get::Busy)
        };
    assert(seen.cache.miss.reusable(seen.cache.interests, record));
    assert(seen.admits_read());
    assert(after.driver.has_room());
    let (drained, reclaimed, taken) = choose|drained: Pool, reclaimed: Pool, taken: int|
        {
            &&& #[trigger] drained.drained(seen)
            &&& #[trigger] reclaimed.reclaimed_from(drained, taken)
            &&& if reclaimed.cache.free@.len() > 0 {
                after == reclaimed
            } else {
                after.evicted_and_reclaimed(reclaimed)
            }
        };
    let (victim, evicted, again) = choose|victim: Pool, evicted: bool, again: int|
        {
            &&& #[trigger] victim.evicted_from(reclaimed, evicted)
            &&& #[trigger] after.reclaimed_from(victim, again)
        };
    let (middle, victims) = choose|middle: Cache, victims: Seq<ReadFrameIdx>|
        {
            &&& #[trigger] middle.offered(reclaimed.cache, victims)
            &&& 0 < victims.len() <= 2 * reclaimed.cache.frame_count() + 1
            &&& reclaimed.cache.residency.has(victims.last())
            &&& evicted == reclaimed.cache.evictable(victims.last())
            &&& if evicted {
                victim.cache.unmapped(middle, victims.last())
            } else {
                victim.cache == middle && victims.len() == 2 * reclaimed.cache.frame_count() + 1
            }
        };
    let queue = victim.cache.residency.evict_queue@;
    if evicted {
        assert(queue.last().1 == victim.cache.residency.epoch);
        if again == queue.len() {
            assert(crate::pool::epoch::matured(queue[queue.len() - 1].1, after.cache.residency.epoch));
        }
    } else {
        assert forall|f: ReadFrameIdx| after.cache.residency.has(f) implies !(
        #[trigger] after.cache.evictable(f)) by {
            assert(!reclaimed.cache.evictable(f));
            assert(!victim.cache.evictable(f));
        }
    }
}

/// Eviction follows the clock: where every frame can go, the one that goes is
/// the first from the hand on that was not used since the hand last passed it,
/// or the one at the hand where all were used.
pub proof fn an_eviction_follows_the_clock(before: Cache, after: Cache, page: PageId, f: ReadFrameIdx)
    requires
        before.wf(),
        after.victimized(before, true),
        forall|g: ReadFrameIdx| before.residency.has(g) ==> #[trigger] before.evictable(g),
        before.residency.table@.contains_key(page),
        !after.residency.table@.contains_key(page),
        before.residency.has(f),
    ensures
        ({
            let gone = before.residency.table@[page];
            let hand = before.clock.hand_position();
            let count = before.frame_count() as int;
            &&& before.clock.referenced(gone) ==> gone.0 == hand && before.clock.referenced(f)
            &&& distance(hand, f.0 as int, count) < distance(hand, gone.0 as int, count)
                ==> before.clock.referenced(f)
        }),
{
    before.lemma_facts();
    before.residency.lemma_facts();
    let (middle, victims) = choose|middle: Cache, victims: Seq<ReadFrameIdx>|
        {
            &&& #[trigger] middle.offered(before, victims)
            &&& 0 < victims.len() <= 2 * before.frame_count() + 1
            &&& forall|k: int|
                0 <= k < victims.len() - 1 ==> !before.evictable(#[trigger] victims[k])
            &&& before.residency.has(victims.last())
            &&& after.unmapped(middle, victims.last())
        };
    let trace = choose|trace: Seq<Clock>|
        {
            &&& #[trigger] Clock::offers(trace, victims)
            &&& trace[0] == before.clock
            &&& trace.last() == middle.clock
        };
    assert(trace[0 + 1int].swept(trace[0], victims[0]));
    if victims.len() > 1 {
        assert(before.residency.has(victims[0]));
        assert(!before.evictable(victims[0]));
    }
    assert(victims.last() == victims[0]);
    assert(before.residency.table@[page] == victims[0]);
}

/// A landed page is noticed: a demanded one counts as used, a speculative one is
/// reported complete and still waits for its first use.
pub proof fn a_landed_page_is_noticed(before: Cache, after: Cache, frame: ReadFrameIdx)
    requires
        before.wf(),
        before.residency.has(frame),
        after.noticed(before, frame),
    ensures
        before.prefetch.entry_of(frame) is None ==> after.clock.referenced(frame),
        before.prefetch.entry_of(frame) is Some ==> after.clock.completed_frames().contains(frame)
            && after.clock.referenced(frame) == before.clock.referenced(frame)
            && after.clock.speculation(frame) == before.clock.speculation(frame),
{
    before.lemma_facts();
}

/// The frames of a retiring file go in index order, each once: those that hold a
/// page of it, are resident and have nobody waiting to collect them.
pub proof fn retiring_frames_go_in_order(cache: Cache, file: FileId, n: int, f: ReadFrameIdx)
    requires
        0 <= n <= u32::MAX,
    ensures
        cache.leaving(file, n).contains(f) <==> f.0 < n && cache.residency.has(f)
            && cache.evictable(f) && (cache.residency.frames.page(f) matches Some(page) && page.file
            == file),
        forall|i: int, j: int|
            0 <= i < j < cache.leaving(file, n).len() ==> (#[trigger] cache.leaving(file, n)[i]).0
                < (#[trigger] cache.leaving(file, n)[j]).0,
        forall|i: int|
            0 <= i < cache.leaving(file, n).len() ==> (#[trigger] cache.leaving(file, n)[i]).0 < n,
    decreases n,
{
    if n > 0 {
        retiring_frames_go_in_order(cache, file, n - 1, f);
        let earlier = cache.leaving(file, n - 1);
        let all = cache.leaving(file, n);
        let last = ReadFrameIdx((n - 1) as u32);
        if cache.retirable(file, last) {
            assert(all[earlier.len() as int] == last);
            assert forall|i: int| 0 <= i < earlier.len() implies all[i] == #[trigger] earlier[i] by {}
            if earlier.contains(f) {
                let i = choose|i: int| 0 <= i < earlier.len() && earlier[i] == f;
                assert(all[i] == f);
            }
        }
        if f.0 == n - 1 {
            assert(f == last);
        }
    }
}

/// A dropped or redeemed token is counted off: one interest less is live, and
/// one release more is on record.
pub proof fn a_release_is_counted(before: Pool, after: Pool)
    requires
        after.counts_release(before),
    ensures
        before.lifecycle.live_pending_interests > 0 ==> after.lifecycle.live_pending_interests
            == before.lifecycle.live_pending_interests - 1,
        after.lifecycle.pending_releases == before.lifecycle.pending_releases.wrapping_add(1),
        after.lifecycle.registered_readers == before.lifecycle.registered_readers,
        after.lifecycle.reader_releases == before.lifecycle.reader_releases,
{
}

/// Dropping a guard undoes the hit that gave it: the reader holds one guard less
/// on the frame, its last guard leaves it quiescent, and what it held before it
/// holds again.
pub proof fn a_dropped_guard_undoes_its_hit(
    before: Residency,
    held: Residency,
    after: Residency,
    reader: int,
    frame: ReadFrameIdx,
)
    requires
        before.wf(),
        0 <= reader < before.readers@.len(),
        before.readers@[reader].guard_count < u64::MAX,
        held.repinned(before, reader, frame),
        after.unpinned(held, reader, frame),
    ensures
        held.readers@[reader].guard_count == before.readers@[reader].guard_count + 1,
        held.pins@[reader].count(frame) == before.pins@[reader].count(frame) + 1,
        after.readers@ == before.readers@,
        after.pins@ == before.pins@,
        after.readers@[reader].guard_count == 0 ==> after.readers@[reader].local_epoch == u64::MAX,
        after.frames == before.frames,
        after.table == before.table,
        after.evict_queue == before.evict_queue,
        after.epoch == before.epoch,
{
    before.lemma_facts();
    assert(before.readers@[reader].settled());
    assert(before.pins@[reader].insert(frame).remove(frame) =~= before.pins@[reader]);
    assert(after.pins@ =~= before.pins@);
    assert(after.readers@ =~= before.readers@);
}

/// A credit covers a read in flight or a page nobody used yet: its frame is in
/// flight or resident for just that page, and the clock waits for its first use
/// or has seen it without the credit having been returned.
pub proof fn a_credit_covers_a_page(pool: Pool, frame: ReadFrameIdx)
    requires
        pool.wf(),
        pool.cache.residency.has(frame),
    ensures
        pool.cache.prefetch.entry_of(frame) matches Some(entry) ==> entry.frame == frame
            && pool.cache.residency.frames.page(frame) == Some(entry.page) && (
        pool.cache.residency.frames.residency(frame) is InFlight
            || pool.cache.residency.frames.residency(frame) is Resident),
        pool.cache.prefetch.entry_of(frame) is None <==> pool.cache.clock.speculation(
            frame,
        ) is Absent,
{
    pool.lemma_facts();
    pool.cache.lemma_facts();
    pool.cache.prefetch.lemma_books();
}

/// The barriers that were held back in `before` and are in the ring in `after`,
/// among the first `n` operations.
pub open spec fn gone_out(before: Pool, after: Pool, n: int) -> Set<int> {
    Set::new(
        |j: int|
            {
                &&& 0 <= j < n
                &&& before.products@[j].operation matches Some(ProductOp::FsyncHeld { .. })
                &&& after.products@[j].operation matches Some(ProductOp::Fsync { .. })
            },
    )
}

/// The barriers that went out are counted.
proof fn lemma_gone_out(held: Pool, after: Pool, n: int)
    requires
        after.moved(held),
        0 <= n <= held.products@.len(),
    ensures
        gone_out(held, after, n).finite(),
        after.let_go(held, n) == gone_out(held, after, n).len(),
    decreases n,
{
    let gone = gone_out(held, after, n);
    if n == 0 {
        assert(gone =~= Set::empty());
    } else {
        lemma_gone_out(held, after, n - 1);
        let fewer = gone_out(held, after, n - 1);
        assert(after.products@[n - 1] == held.products@[n - 1] || held.products.is_ripe(n - 1)
            && after.submitted_barrier(held, n - 1));
        if after.products@[n - 1] == held.products@[n - 1] {
            assert(gone =~= fewer);
        } else {
            assert(gone =~= fewer.insert(n - 1));
        }
    }
}

/// The owner loop is woken once for the admission of a barrier, and once more
/// for each barrier that goes out with it.
pub proof fn an_admitted_barrier_wakes_the_loop(
    before: Pool,
    after: Pool,
    file: FileId,
    token: PoolToken,
) -> (held: Pool)
    requires
        before.wf(),
        after.barred(before, file, token),
    ensures
        held.products@.len() == before.products@.len(),
        forall|j: int|
            0 <= j < before.products@.len() && (#[trigger] before.products@[j]).operation is Some
                ==> held.products@[j] == before.products@[j],
        after.wait.current == (before.wait.current + 1 + gone_out(
            held,
            after,
            before.products@.len() as int,
        ).len()) % 0x1_0000_0000_0000_0000,
        after.wait.consumed == before.wait.consumed,
{
    let held = choose|held: Pool|
        {
            &&& #[trigger] held.admitted_barrier(before, file, token)
            &&& after.promoted(held)
            &&& after.wait == before.wait.woken_times(
                after.let_go(held, held.products@.len() as int) + 1,
            )
        };
    let n = held.products@.len() as int;
    lemma_gone_out(held, after, n);
    wakes_add_up(before.wait, after.let_go(held, n) + 1);
    held
}

/// A pass over the ring wakes the owner loop once for each barrier that it lets
/// go out.
pub proof fn a_barrier_let_go_wakes_the_loop(before: Pool, after: Pool)
    requires
        before.wf(),
        after.drained(before),
    ensures
        after.wait.current == (before.wait.current + gone_out(
            before,
            after,
            before.products@.len() as int,
        ).len()) % 0x1_0000_0000_0000_0000,
        after.wait.consumed == before.wait.consumed,
{
    let n = before.products@.len() as int;
    let routed = choose|routed: Pool|
        {
            &&& #[trigger] routed.routed_to(before, before.driver.capacity() as int)
            &&& after.promoted(routed)
            &&& after.wait == routed.wait.woken_times(
                after.let_go(routed, routed.products@.len() as int),
            )
        };
    lemma_gone_out(routed, after, n);
    wakes_add_up(before.wait, after.let_go(routed, n));
    assert forall|j: int| gone_out(before, after, n).contains(j) == #[trigger] gone_out(
        routed,
        after,
        n,
    ).contains(j) by {
        if 0 <= j < n {
            assert(routed.product_routed(before, j, before.driver.capacity() as int));
        }
    }
    assert(gone_out(before, after, n) =~= gone_out(routed, after, n));
}

/// A reclamation is counted: each frame its last handle had released gives its
/// share of the budget back, each matured eviction that a handle retains is
/// counted as held, and the frames that come back are free and belong to no
/// file. It leaves no release announced, and wakes nobody.
pub proof fn a_reclamation_is_counted(before: Pool, after: Pool, taken: int, f: ReadFrameIdx)
    requires
        before.wf(),
        after.reclaimed_from(before, taken),
        before.cache.residency.has(f),
    ensures
        ({
            let was = before.cache.residency.retention.stats();
            let is = after.cache.residency.retention.stats();
            let released = before.cache.residency.retention.pending().len();
            let returned = after.cache.free@.len() - before.cache.free@.len();
            let left = before.cache.residency.evict_queue@.len()
                - after.cache.residency.evict_queue@.len();
            &&& is.occupied_budget == was.occupied_budget - released
            &&& 0 <= returned - released <= left
            &&& is.retained_evictions_held == (was.retained_evictions_held + left - (returned
                - released)) % 0x1_0000_0000_0000_0000
            &&& is.refused_budget == was.refused_budget
            &&& is.refused_ceiling == was.refused_ceiling
            &&& is.refused_contention == was.refused_contention
            &&& is.refused_retiring == was.refused_retiring
            &&& before.cache.residency.frames.residency(f) is Evicting
                && after.cache.residency.frames.residency(f) is Free ==> after.cache.frame_pages.at(
                f.0 as int,
            ) is None
            &&& before.cache.residency.frames.residency(f) is Resident
                ==> after.cache.frame_pages.at(f.0 as int) == before.cache.frame_pages.at(
                f.0 as int,
            )
            &&& before.cache.residency.retention.enabled() ==> !after.wait.ring_pending
            &&& !before.cache.residency.retention.enabled() ==> after.wait == before.wait
            &&& after.wait.current == before.wait.current
            &&& after.wait.consumed == before.wait.consumed
        }),
{
    before.lemma_facts();
    before.cache.lemma_facts();
    before.cache.residency.lemma_facts();
    before.cache.residency.retention.lemma_budget();
    lemma_freed_within(before.cache.residency, taken);
    let returned = before.cache.returned(taken);
    if before.cache.residency.frames.residency(f) is Resident {
        if returned.contains(f) {
            let j = choose|j: int| 0 <= j < returned.len() && returned[j] == f;
            let pending = before.cache.residency.retention.pending();
            if j >= pending.len() {
                let l = before.cache.residency.lemma_freed_only(taken, f);
                assert(queued_in(before.cache.residency.evict_queue@, f));
            } else {
                assert(pending.contains(f));
            }
        }
    }
}

/// No more frames are freed than evictions have matured.
proof fn lemma_freed_within(residency: Residency, taken: int)
    requires
        0 <= taken,
    ensures
        residency.unretained(taken).len() <= taken,
    decreases taken,
{
    if taken > 0 {
        lemma_freed_within(residency, taken - 1);
    }
}

/// A speculative read that only a full ring keeps from starting is deferred and
/// counted as refused: it takes no credit and starts no read.
pub proof fn a_full_ring_is_counted(
    before: Pool,
    after: Pool,
    page: PageId,
    outcome: Admission,
    record: int,
)
    requires
        before.wf(),
        after.admission(before, page, Source::Explicit, outcome),
        before.cache.prefetch.queued_feedback().len() == 0,
        before.files.is_live(page.file),
        !before.cache.residency.table@.contains_key(page),
        forall|i: int| #[trigger]
            before.cache.miss.is_pending(i) ==> before.cache.miss.entry_at(i)->0.page != page,
        before.cache.prefetch.stats().occupied < before.cache.prefetch.credits(),
        before.cache.reads_in_flight < before.cache.read_limit(),
        0 <= record < before.cache.miss.capacity(),
        before.cache.miss.entry_at(record) is None,
        before.cache.prefetch.reserved().len() > 0 || before.cache.prefetch.is_active()
            && before.cache.free@.len() > 0,
        forall|s: int|
            0 <= s < before.driver.capacity() ==> !((#[trigger] before.driver.state_at(
                s,
            )) is Vacant),
    ensures
        outcome is Deferred,
        after.cache.prefetch.stats().submission_refused
            == before.cache.prefetch.stats().submission_refused.wrapping_add(1),
        after.cache.prefetch.stats().occupied == before.cache.prefetch.stats().occupied,
        after.cache.prefetch.stats().admitted == before.cache.prefetch.stats().admitted,
        after.cache.prefetch.stats().deferred == before.cache.prefetch.stats().deferred,
        after.cache.reads_in_flight == before.cache.reads_in_flight,
        after.cache.miss == before.cache.miss,
        after.driver == before.driver,
        after.wait == before.wait,
{
    before.lemma_facts();
    before.cache.lemma_facts();
    let calm = choose|calm: Pool|
        {
            &&& #[trigger] calm.calmed(before)
            &&& after.decided(calm, page, Source::Explicit, outcome)
        };
    assert(calm == before);
    assert(before.cache.miss.reusable(before.cache.interests, record));
    assert(before.has_credit());
    let filled = choose|filled: Pool|
        {
            &&& #[trigger] filled.replenished(calm)
            &&& if filled.cache.prefetch.reserved().len() == 0 {
                outcome is Deferred && after == filled
            } else if !filled.driver.has_room() {
                outcome is Deferred && after.refused(filled)
            } else {
                outcome is Admitted && after.speculated(filled, page, Source::Explicit)
            }
        };
    assert(filled.cache.prefetch.reserved().len() > 0);
}

/// A readahead pass wakes the owner loop once where it admitted a read, and not
/// otherwise.
pub proof fn a_readahead_pass_wakes_for_its_reads(
    before: Pool,
    after: Pool,
    outcomes: Seq<Admission>,
)
    requires
        after.wound_up(before, outcomes),
    ensures
        outcomes.contains(Admission::Admitted) ==> after.wait.current
            == before.wait.current.wrapping_add(1) && after.wait.consumed == before.wait.consumed,
        !outcomes.contains(Admission::Admitted) ==> after.wait == before.wait,
{
    lemma_some_tallied(outcomes);
}

/// Something is tallied exactly where it occurs.
proof fn lemma_some_tallied(outcomes: Seq<Admission>)
    ensures
        tally(outcomes, Admission::Admitted) >= 0,
        tally(outcomes, Admission::Admitted) > 0 <==> outcomes.contains(Admission::Admitted),
    decreases outcomes.len(),
{
    if outcomes.len() > 0 {
        let earlier = outcomes.drop_last();
        lemma_some_tallied(earlier);
        if outcomes.last() == Admission::Admitted {
            assert(outcomes[outcomes.len() - 1] == Admission::Admitted);
        } else if outcomes.contains(Admission::Admitted) {
            let i = choose|i: int| 0 <= i < outcomes.len() && outcomes[i] == Admission::Admitted;
            assert(earlier[i] == Admission::Admitted);
        } else if earlier.contains(Admission::Admitted) {
            let i = choose|i: int| 0 <= i < earlier.len() && earlier[i] == Admission::Admitted;
            assert(outcomes[i] == Admission::Admitted);
        }
    }
}

/// A landed frame holds its page under a new generation, with the bytes that
/// arrived, and is filed first under its page's file; no other frame is filed
/// anew.
pub proof fn a_landed_frame_is_filed(before: Cache, after: Cache, index: int, other: int)
    requires
        before.wf(),
        before.miss.is_pending(index),
        after.landed(before, index),
        0 <= other < before.frame_pages.capacity(),
    ensures
        ({
            let entry = before.miss.entry_at(index)->0;
            let frame = entry.frame.0 as int;
            let file = entry.page.file.slot as int;
            &&& after.frame_pages.at(frame) matches Some(slot) && slot.owner() == file
            &&& other != frame ==> after.frame_pages.at(other) == before.frame_pages.at(other)
            &&& file < before.frame_pages.file_capacity() ==> after.frame_pages.members(file)
                == seq![frame] + before.frame_pages.members(file)
            &&& after.residency.table@.contains_key(entry.page)
            &&& after.residency.table@[entry.page] == entry.frame
            &&& after.residency.frames.residency(entry.frame) is Resident
            &&& after.residency.frames.contents(entry.frame) == before.residency.frames.contents(
                entry.frame,
            )
            &&& after.residency.frames.generation(entry.frame)
                == before.residency.frames.generation(entry.frame) + 1
            &&& after.reads_in_flight == before.reads_in_flight - 1
            &&& after.free == before.free
        }),
{
}

/// A page that is put into the pool takes the frame on top of the free stack: it
/// is mapped there, counts as used, and holds its fill in every byte; no other
/// frame changes.
pub proof fn an_inserted_page_holds_its_fill(
    before: Cache,
    after: Cache,
    page: PageId,
    frame: ReadFrameIdx,
    fill: u8,
    j: int,
    other: ReadFrameIdx,
)
    requires
        before.wf(),
        before.free@.len() > 0,
        before.free@.last() == frame,
        before.residency.has(frame),
        before.residency.has(other),
        after.installed(before, page, frame, fill),
        0 <= j < before.granule_bytes(),
    ensures
        after.residency.table@.contains_key(page),
        after.residency.table@[page] == frame,
        after.residency.frames.residency(frame) is Resident,
        after.residency.frames.page(frame) == Some(page),
        after.residency.frames.contents(frame).len() == before.granule_bytes(),
        after.residency.frames.contents(frame)[j] == fill,
        after.clock.referenced(frame),
        after.free@.len() == before.free@.len() - 1,
        forall|i: int|
            0 <= i < after.free@.len() ==> #[trigger] after.free@[i] == before.free@[i],
        after.reads_in_flight == before.reads_in_flight,
        other != frame ==> after.residency.frames.contents(other)
            == before.residency.frames.contents(other) && after.residency.frames.residency(other)
            == before.residency.frames.residency(other),
{
    before.lemma_facts();
    if other != frame {
        assert(after.residency.frames.word(other) == before.residency.frames.word(other));
    }
}

/// Product operations are refused as full exactly while every slot is occupied;
/// otherwise the lowest vacant slot is the one to be taken.
pub proof fn a_vacant_product_slot_is_taken(products: ProductOps, k: int) -> (lowest: int)
    requires
        0 <= k < products@.len(),
        products@[k].operation is None,
    ensures
        !products.is_full(),
        products.is_vacancy(lowest),
        0 <= lowest <= k,
        products@[lowest].operation is None,
        forall|j: int| 0 <= j < lowest ==> (#[trigger] products@[j]).operation is Some,
    decreases k,
{
    if exists|j: int| 0 <= j < k && (#[trigger] products@[j]).operation is None {
        let j = choose|j: int| 0 <= j < k && (#[trigger] products@[j]).operation is None;
        a_vacant_product_slot_is_taken(products, j)
    } else {
        k
    }
}

/// A file slot can be opened as long as it is vacant and its generations have
/// not run out.
pub proof fn a_vacant_file_slot_can_be_opened(driver: Driver, s: int)
    ensures
        driver.openable(s) <==> 0 <= s < driver.file_capacity() && driver.handle_at(s) is Vacant
            && driver.file_generation_at(s) != 0xffff_ffff,
{
}

/// A file that is opened is live under its own generation and no other, nobody
/// has a lease on it yet, and every other slot serves what it did.
pub proof fn an_opened_file_is_live(
    before: Files,
    after: Files,
    id: FileId,
    handle: Option<FileHandle>,
    other: FileId,
)
    requires
        after.registered(before, id, handle),
        id.driver == before.owner(),
        id.slot < before.capacity(),
    ensures
        after.is_live(id),
        after.entry_at(id.slot as int) matches Some(entry) && entry.handle == handle,
        after.lease_at(id.slot as int).count == 0,
        other.slot == id.slot && other != id ==> !after.is_live(other),
        other.slot != id.slot ==> after.is_live(other) == before.is_live(other),
        other.slot != id.slot && other.slot < before.capacity() ==> after.lease_at(
            other.slot as int,
        ) == before.lease_at(other.slot as int),
{
}

/// A file is served from its opening until it has retired: while it is live and
/// while it retires, and in no other generation.
pub proof fn a_file_is_served_until_it_has_retired(pool: Pool, file: FileId)
    requires
        pool.wf(),
        file.slot < pool.files.capacity(),
    ensures
        pool.files.is_live(file) ==> pool.serves(file),
        pool.serves(file) <==> (pool.files.entry_at(file.slot as int) matches Some(entry)
            && entry.id == file && (entry.state is Live || entry.state is Retiring)),
{
    pool.lemma_facts();
}

/// A file that is marked for retirement is not live any more and keeps its
/// handle and its leases; every other file is as it was, and no frame moves.
pub proof fn a_marked_file_is_not_live(before: Pool, after: Pool, file: FileId, other: FileId)
    requires
        before.wf(),
        file.slot < before.files.capacity(),
        before.serves(file),
        after.marked_retiring(before, file),
    ensures
        !after.files.is_live(file),
        after.serves(file),
        after.files.entry_at(file.slot as int)->0.handle == before.files.entry_at(
            file.slot as int,
        )->0.handle,
        after.files.lease_at(file.slot as int) == before.files.lease_at(file.slot as int),
        other.slot != file.slot ==> after.files.is_live(other) == before.files.is_live(other),
        before.cache.residency.retention.enabled()
            ==> after.cache.residency.retention.is_retiring(file.slot as int),
        after.cache.residency.table == before.cache.residency.table,
        after.cache.residency.frames == before.cache.residency.frames,
        after.driver == before.driver,
        after.products == before.products,
        after.wait == before.wait,
{
    before.lemma_facts();
}

/// A pass over the ring moves no reader, frees no evicted frame and closes no
/// file: only results, and the barriers they let go, are taken care of.
pub proof fn a_ring_pass_moves_no_reader(before: Pool, after: Pool)
    requires
        after.drained(before),
    ensures
        after.files == before.files,
        after.lifecycle == before.lifecycle,
        after.cache.interests == before.cache.interests,
        after.cache.residency.readers == before.cache.residency.readers,
        after.cache.residency.pins == before.cache.residency.pins,
        after.cache.residency.evict_queue == before.cache.residency.evict_queue,
        after.cache.residency.retention == before.cache.residency.retention,
        after.cache.residency.epoch == before.cache.residency.epoch,
        after.cache.prefetch.reserved() == before.cache.prefetch.reserved(),
        after.cache.reads_in_flight <= before.cache.reads_in_flight,
{
}

/// An eviction moves no reader and no other page: the epoch, the pins and the
/// handles are as they were, and so is every other frame.
pub proof fn an_eviction_moves_no_reader(
    before: Residency,
    after: Residency,
    page: PageId,
    other: ReadFrameIdx,
)
    requires
        after.evicted(before, page),
        before.has(other),
        other != before.table@[page],
    ensures
        after.readers == before.readers,
        after.pins == before.pins,
        after.epoch == before.epoch,
        after.retention == before.retention,
        after.frames.residency(other) == before.frames.residency(other),
        after.frames.generation(other) == before.frames.generation(other),
        after.frames.page(other) == before.frames.page(other),
        after.frames.contents(other) == before.frames.contents(other),
        after.frames.generation(before.table@[page]) == before.frames.generation(
            before.table@[page],
        ),
{
    assert(after.frames.word(other) == before.frames.word(other));
}

/// A read whose page is whole makes the page resident and is noticed by the
/// clock: a demanded page counts as used, a speculative one is reported
/// complete.
pub proof fn a_whole_read_is_noticed(
    before: Cache,
    after: Cache,
    i: int,
    mode: IoMode,
    bytes: u32,
)
    requires
        before.wf(),
        before.miss.is_pending(i),
        after.read_routed(before, i, mode, Ok(bytes)),
        bytes > 0,
        before.miss.entry_at(i)->0.filled + bytes >= before.granule_bytes(),
    ensures
        ({
            let entry = before.miss.entry_at(i)->0;
            &&& after.residency.table@.contains_key(entry.page)
            &&& after.residency.table@[entry.page] == entry.frame
            &&& before.prefetch.entry_of(entry.frame) is None ==> after.clock.referenced(
                entry.frame,
            )
            &&& before.prefetch.entry_of(entry.frame) is Some
                ==> after.clock.completed_frames().contains(entry.frame)
            &&& after.prefetch == before.prefetch
        }),
{
    before.lemma_facts();
    assert(flight_at(before.residency.frames, before.miss.entry_at(i)->0));
}

} // verus!
