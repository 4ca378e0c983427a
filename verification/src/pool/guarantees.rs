//! What each operation promises, told by the requests in the ring, the frames,
//! the records and the completions that callers see.

use crate::driver::{IoMode, OpState, OpToken};
use crate::error::IoError;
use crate::pool::cache::{flight_at, flown};
use crate::pool::control::{awaited_read, awaits_of, served, Pool};
use crate::pool::demand::Get;
use crate::pool::epoch::ReaderCtx;
use crate::pool::frames::ReadFrameIdx;
use crate::pool::holds::PendingToken;
use crate::pool::laws::a_failed_page_can_be_read_again;
use crate::pool::miss::{MissEntry, MissOutcome, MissSlot};
use crate::pool::prefetch::{Admission, Source};
use crate::pool::product_ops::{lemma_delivered, ProductOp, ProductOpSlot, ProductOps};
use crate::pool::routing::{verdict, ReadOutcome};
use crate::pool::PageId;
use crate::product::{
    tokens_are_distinct, PollReport, PoolCompletion, PoolCompletionBatch, PoolToken,
};
use vstd::prelude::*;

verus! {

/// A file offset of a granule fits the ring's offsets.
proof fn lemma_offset_fits(index: u32, granule: int, filled: int)
    requires
        0 <= filled <= granule <= u32::MAX,
    ensures
        0 <= index * granule + filled <= u64::MAX,
{
    assert(0 <= index * granule <= 0xffff_ffff * 0xffff_ffff) by (nonlinear_arith)
        requires
            0 <= index <= 0xffff_ffff,
            0 <= granule <= 0xffff_ffff,
    ;
}

/// Every read in flight asks for exactly what its page still lacks: it is a
/// read of the page's file into the page's frame, at the byte where the page
/// starts in the file plus what has arrived, for the rest of the granule.
pub proof fn a_read_asks_for_what_its_page_lacks(pool: Pool, i: int)
    requires
        pool.wf(),
        pool.cache.miss.is_pending(i),
    ensures
        ({
            let entry = pool.cache.miss.entry_at(i)->0;
            let granule = pool.cache.granule_bytes() as int;
            let slot = entry.token.slot as int;
            &&& slot < pool.driver.capacity()
            &&& pool.driver.generation_at(slot) == entry.token.generation
            &&& entry.filled < granule
            &&& pool.driver.request_at(slot) matches Some(request) && request is Read
                && request->Read_file == entry.page.file && request->frame == entry.frame
                && request->destination_offset == entry.filled && request->Read_offset
                == entry.page.granule_idx * granule + entry.filled && request->len == granule
                - entry.filled
        }),
{
    pool.lemma_facts();
    pool.cache.lemma_facts();
    pool.cache.residency.lemma_facts();
    pool.cache.residency.frames.lemma_positive();
    let entry = pool.cache.miss.entry_at(i)->0;
    assert(flight_at(pool.cache.residency.frames, entry));
    assert(pool.driver.live(entry.token));
    lemma_offset_fits(
        entry.page.granule_idx,
        pool.cache.granule_bytes() as int,
        entry.filled as int,
    );
}

/// The ring holds no other read: each one belongs to a page in flight, and asks
/// for what that page still lacks.
pub proof fn no_read_is_without_a_page(pool: Pool, s: int) -> (i: int)
    requires
        pool.wf(),
        0 <= s < pool.driver.capacity(),
        pool.driver.request_at(s) matches Some(request) && request is Read,
    ensures
        pool.cache.miss.is_pending(i),
        ({
            let entry = pool.cache.miss.entry_at(i)->0;
            let request = pool.driver.request_at(s)->0;
            &&& entry.token.slot == s
            &&& entry.token.generation == pool.driver.generation_at(s)
            &&& request->Read_file == entry.page.file
            &&& request->frame == entry.frame
            &&& request->Read_offset == entry.page.granule_idx * pool.cache.granule_bytes()
                + entry.filled
            &&& request->len == pool.cache.granule_bytes() - entry.filled
        }),
{
    pool.lemma_facts();
    pool.driver.lemma_capacity();
    assert(awaited_read(pool.driver, pool.cache.miss, s));
    let i = choose|i: int| #[trigger]
        pool.cache.miss.is_pending(i) && pool.cache.miss.entry_at(i)->0.token
            == pool.driver.token_at(s);
    a_read_asks_for_what_its_page_lacks(pool, i);
    i
}

/// `pool` reads `page` into `frame` from its first byte on: the ring holds a
/// submitted read of the page's file at the byte where the page starts, for a
/// whole granule.
proof fn lemma_first_read(before: Pool, after: Pool, slot: MissSlot, page: PageId, frame: ReadFrameIdx, issued: OpToken, waiters: u32)
    requires
        after.wf(),
        after.began(before, slot, page, frame, issued, waiters),
        slot.0 < after.cache.miss.capacity(),
    ensures
        after.cache.miss.is_pending(slot.0 as int),
        after.cache.miss.entry_at(slot.0 as int)->0.token == issued,
        after.driver.state_at(issued.slot as int) matches OpState::Submitted(request) && request
            is Read && request->Read_file == page.file && request->frame == frame
            && request->destination_offset == 0 && request->Read_offset == page.granule_idx
            * after.cache.granule_bytes() && request->len == after.cache.granule_bytes(),
{
    a_read_asks_for_what_its_page_lacks(after, slot.0 as int);
}

/// Making room for a read leaves every waiter where it was.
proof fn lemma_room_keeps_interests(before: Pool, after: Pool)
    requires
        after.made_room(before),
    ensures
        after.cache.interests == before.cache.interests,
{
    if before.cache.free@.len() == 0 {
        let (drained, reclaimed, taken) = choose|drained: Pool, reclaimed: Pool, taken: int|
            {
                &&& #[trigger] drained.drained(before)
                &&& #[trigger] reclaimed.reclaimed_from(drained, taken)
                &&& if reclaimed.cache.free@.len() > 0 {
                    after == reclaimed
                } else {
                    after.evicted_and_reclaimed(reclaimed)
                }
            };
        if reclaimed.cache.free@.len() == 0 {
            let (victim, evicted, again) = choose|victim: Pool, evicted: bool, again: int|
                {
                    &&& #[trigger] victim.evicted_from(reclaimed, evicted)
                    &&& #[trigger] after.reclaimed_from(victim, again)
                };
        }
    }
}

/// A demand that starts a read asks for its whole page: the token's record is
/// pending with nothing arrived yet, its frame is in flight for the page, and the
/// ring holds a submitted read of the page's file into that frame, at the page's
/// granule index times the granule, for one granule.
pub proof fn a_cold_demand_reads_its_whole_page(
    before: Pool,
    after: Pool,
    reader: ReaderCtx,
    page: PageId,
    token: PendingToken,
)
    requires
        before.wf(),
        after.wf(),
        !before.cache.pending(page),
        after.got(before, reader, page, Ok(Get::Pending(token))),
    ensures
        token.asked() == page,
        after.redeems(token),
        ({
            let entry = after.cache.miss.entry_at(token.record().0 as int)->0;
            let granule = after.cache.granule_bytes() as int;
            &&& after.cache.miss.is_pending(token.record().0 as int)
            &&& entry.page == page
            &&& entry.filled == 0
            &&& after.cache.interests@[token.record().0 as int].waiters == 1
            &&& after.cache.residency.frames.residency(entry.frame) is InFlight
            &&& after.cache.residency.frames.page(entry.frame) == Some(page)
            &&& after.driver.generation_at(entry.token.slot as int) == entry.token.generation
            &&& after.driver.state_at(entry.token.slot as int) matches OpState::Submitted(request)
                && request is Read && request->Read_file == page.file && request->frame
                == entry.frame && request->destination_offset == 0 && request->Read_offset
                == page.granule_idx * granule && request->len == granule
        }),
{
    let seen = choose|seen: Pool|
        {
            &&& #[trigger] seen.demanded(before, reader.index(), page)
            &&& after.got_cold(seen, reader.index(), page, Get::Pending(token))
        };
    if seen.cache.pending(page) {
        let i = choose|i: int| #[trigger]
            seen.cache.miss.is_pending(i) && seen.cache.miss.entry_at(i)->0.page == page;
        assert(before.cache.miss.is_pending(i));
        assert(false);
    }
    let room = choose|room: Pool|
        {
            &&& #[trigger] room.made_room(seen)
            &&& after.started(room, page, token)
        };
    let slot = token.record();
    let issued = after.cache.miss.entry_at(slot.0 as int)->0.token;
    after.lemma_facts();
    after.cache.lemma_facts();
    lemma_first_read(room, after, slot, page, room.cache.free@.last(), issued, 1);
    a_read_asks_for_what_its_page_lacks(after, slot.0 as int);
    before.lemma_facts();
    before.cache.lemma_facts();
    lemma_room_keeps_interests(seen, room);
}

/// What the result of a read comes to, for every result: an error ends it with
/// the error's errno, or 5 where it has none; no bytes end it with 5; bytes that
/// complete the granule, and no others, fill the page; and fewer bytes either
/// move it on by their number or end it with 5.
pub proof fn a_result_decides_a_read(
    mode: IoMode,
    entry: MissEntry,
    granule: int,
    result: Result<u32, IoError>,
)
    requires
        entry.filled < granule <= u32::MAX,
        result matches Ok(bytes) ==> bytes <= granule - entry.filled,
    ensures
        verdict(mode, entry, granule, result) is Filled <==> (result matches Ok(bytes)
            && entry.filled + bytes == granule),
        result matches Err(error) ==> {
            &&& error.raw matches Some(errno) ==> verdict(mode, entry, granule, result) == (
            ReadOutcome::Failed { errno })
            &&& error.raw is None ==> verdict(mode, entry, granule, result) == (
            ReadOutcome::Failed { errno: 5 })
        },
        result matches Ok(bytes) ==> {
            &&& bytes == 0 ==> verdict(mode, entry, granule, result) == (ReadOutcome::Failed {
                errno: 5,
            })
            &&& 0 < bytes && entry.filled + bytes < granule ==> verdict(
                mode,
                entry,
                granule,
                result,
            ) == (ReadOutcome::Resumed { filled: (entry.filled + bytes) as u32 }) || verdict(
                mode,
                entry,
                granule,
                result,
            ) == (ReadOutcome::Failed { errno: 5 })
        },
        result matches Ok(bytes) ==> (0 < bytes && entry.filled + bytes < granule ==> (verdict(
            mode,
            entry,
            granule,
            result,
        ) is Resumed <==> match mode {
            IoMode::Buffered => true,
            IoMode::Direct(unit) => unit.bytes == 0 || (entry.page.granule_idx * granule
                + entry.filled + bytes) % (unit.bytes as int) == 0 && (entry.filled + bytes) % (
            unit.bytes as int) == 0 && (granule - entry.filled - bytes) % (unit.bytes as int) == 0,
        })),
{
}

/// A read that ends in an error fails, whatever the error: once the ring was
/// passed over, its page is neither resident nor in flight, its frame is free
/// again, and its record, where anybody waits for it, holds the error's errno,
/// or 5 where it has none. The same holds of a read that brought no bytes, with
/// 5.
pub proof fn an_error_fails_the_read(
    before: Pool,
    after: Pool,
    i: int,
    result: Result<u32, IoError>,
    errno: i32,
)
    requires
        before.wf(),
        after.wf(),
        before.cache.miss.is_pending(i),
        before.driver.state_at(before.cache.miss.entry_at(i)->0.token.slot as int) matches
            OpState::Finished(_, recorded) && recorded == result,
        match result {
            Err(error) => match error.raw {
                Some(number) => errno == number,
                None => errno == 5,
            },
            Ok(bytes) => bytes == 0 && errno == 5,
        },
        after.drained(before),
        after.settles(before),
    ensures
        !after.cache.residency.table@.contains_key(before.cache.miss.entry_at(i)->0.page),
        !after.cache.pending(before.cache.miss.entry_at(i)->0.page),
        after.cache.residency.frames.residency(before.cache.miss.entry_at(i)->0.frame) is Free,
        after.cache.miss.entry_at(i) == (if before.cache.interests@[i].waiters == 0 {
            None
        } else {
            Some(
                MissEntry {
                    outcome: MissOutcome::Failed(errno),
                    ..before.cache.miss.entry_at(i)->0
                },
            )
        }),
{
    before.lemma_facts();
    a_read_asks_for_what_its_page_lacks(before, i);
    let n = before.driver.capacity() as int;
    let entry = before.cache.miss.entry_at(i)->0;
    let routed = choose|routed: Pool| #[trigger]
        routed.routed_to(before, n) && after.cache == routed.cache;
    assert(routed.miss_routed(before, i, n));
    assert(before.driver.state_at(entry.token.slot as int)->Finished_1 == result);
    a_failed_page_can_be_read_again(before, after, i, errno);
}

/// A page becomes resident only by the bytes that complete it: a page that is
/// resident once the ring was passed over, and was not before, was in flight,
/// the host reported for its read just the number of bytes that it still lacked,
/// and its frame holds what the host put there.
pub proof fn only_a_whole_page_becomes_resident(before: Pool, after: Pool, page: PageId) -> (i: int)
    requires
        before.wf(),
        after.wf(),
        after.drained(before),
        after.settles(before),
        !before.cache.residency.table@.contains_key(page),
        after.cache.residency.table@.contains_key(page),
    ensures
        before.cache.miss.is_pending(i),
        before.cache.miss.entry_at(i)->0.page == page,
        after.cache.residency.table@[page] == before.cache.miss.entry_at(i)->0.frame,
        before.driver.state_at(before.cache.miss.entry_at(i)->0.token.slot as int) matches
            OpState::Finished(_, Ok(bytes)) && before.cache.miss.entry_at(i)->0.filled + bytes
            == before.cache.granule_bytes(),
        after.cache.residency.frames.contents(before.cache.miss.entry_at(i)->0.frame)
            == before.cache.residency.frames.contents(before.cache.miss.entry_at(i)->0.frame),
{
    before.lemma_facts();
    before.cache.lemma_facts();
    before.cache.residency.lemma_facts();
    after.lemma_facts();
    after.cache.lemma_facts();
    after.cache.residency.lemma_facts();
    before.cache.residency.frames.lemma_positive();
    let n = before.driver.capacity() as int;
    let routed = choose|routed: Pool| #[trigger]
        routed.routed_to(before, n) && after.cache == routed.cache;
    assert(after.cache.mapped(page));
    assert(before.cache.pending(page));
    let i = choose|i: int| #[trigger]
        before.cache.miss.is_pending(i) && before.cache.miss.entry_at(i)->0.page == page;
    let entry = before.cache.miss.entry_at(i)->0;
    a_read_asks_for_what_its_page_lacks(before, i);
    assert(routed.miss_routed(before, i, n));
    assert(flight_at(before.cache.residency.frames, entry));
    let slot = entry.token.slot as int;
    let frame = after.cache.residency.table@[page];
    if before.cache.residency.frames.residency(frame) is InFlight {
        assert(flown(before.cache.miss, frame));
        let j = choose|j: int| #[trigger]
            before.cache.miss.is_pending(j) && before.cache.miss.entry_at(j)->0.frame == frame;
        assert(flight_at(before.cache.residency.frames, before.cache.miss.entry_at(j)->0));
        assert(routed.miss_routed(before, j, n));
        before.cache.miss.lemma_singleflight(i, j);
    } else {
        assert(routed.same_frame(before, frame));
    }
    if let OpState::Finished(_, result) = before.driver.state_at(slot) {
        a_result_decides_a_read(
            before.mode_of(entry.page.file),
            entry,
            before.cache.granule_bytes() as int,
            result,
        );
    }
    i
}

/// A page whose last bytes have come becomes resident: once the ring was passed
/// over after the host reported for its read just the number of bytes that it
/// still lacked, the page is mapped to its frame.
pub proof fn a_whole_page_becomes_resident(before: Pool, after: Pool, i: int)
    requires
        before.wf(),
        after.wf(),
        before.cache.miss.is_pending(i),
        before.driver.state_at(before.cache.miss.entry_at(i)->0.token.slot as int) matches
            OpState::Finished(_, Ok(bytes)) && before.cache.miss.entry_at(i)->0.filled + bytes
            == before.cache.granule_bytes(),
        after.drained(before),
        after.settles(before),
    ensures
        after.cache.residency.table@.contains_key(before.cache.miss.entry_at(i)->0.page),
        after.cache.residency.table@[before.cache.miss.entry_at(i)->0.page]
            == before.cache.miss.entry_at(i)->0.frame,
        after.cache.miss.entry_at(i) == (if before.cache.interests@[i].waiters == 0 {
            None
        } else {
            Some(
                MissEntry { outcome: MissOutcome::Succeeded, ..before.cache.miss.entry_at(i)->0 },
            )
        }),
{
    before.lemma_facts();
    before.cache.lemma_facts();
    before.cache.residency.lemma_facts();
    before.cache.residency.frames.lemma_positive();
    after.lemma_facts();
    after.cache.lemma_facts();
    a_read_asks_for_what_its_page_lacks(before, i);
    let n = before.driver.capacity() as int;
    let entry = before.cache.miss.entry_at(i)->0;
    let routed = choose|routed: Pool| #[trigger]
        routed.routed_to(before, n) && after.cache == routed.cache;
    assert(routed.miss_routed(before, i, n));
    assert(flight_at(before.cache.residency.frames, entry));
}

/// A read that came short goes on where it stopped: once the ring was passed
/// over, its record counts what has arrived, and the ring holds a submitted read
/// of the rest of the page into the rest of the frame. Of a file in direct mode
/// this holds where the rest is aligned in the file, in the frame and in length.
pub proof fn a_short_read_asks_for_the_rest(before: Pool, after: Pool, i: int, bytes: u32)
    requires
        before.wf(),
        after.wf(),
        before.cache.miss.is_pending(i),
        before.driver.state_at(before.cache.miss.entry_at(i)->0.token.slot as int) matches
            OpState::Finished(_, recorded) && recorded == Ok::<u32, IoError>(bytes),
        0 < bytes,
        before.cache.miss.entry_at(i)->0.filled + bytes < before.cache.granule_bytes(),
        match before.files.entry_at(
            before.cache.miss.entry_at(i)->0.page.file.slot as int,
        )->0.handle->0.mode {
            IoMode::Buffered => true,
            IoMode::Direct(unit) => unit.bytes == 0 || (
            before.cache.miss.entry_at(i)->0.page.granule_idx * before.cache.granule_bytes()
                + before.cache.miss.entry_at(i)->0.filled + bytes) % (unit.bytes as int) == 0 && (
            before.cache.miss.entry_at(i)->0.filled + bytes) % (unit.bytes as int) == 0 && (
            before.cache.granule_bytes() - before.cache.miss.entry_at(i)->0.filled - bytes) % (
            unit.bytes as int) == 0,
        },
        after.drained(before),
        after.settles(before),
    ensures
        ({
            let was = before.cache.miss.entry_at(i)->0;
            let entry = after.cache.miss.entry_at(i)->0;
            &&& after.cache.miss.is_pending(i)
            &&& entry.page == was.page
            &&& entry.frame == was.frame
            &&& entry.generation == was.generation
            &&& entry.filled == was.filled + bytes
            &&& after.driver.state_at(entry.token.slot as int) matches OpState::Submitted(request)
                && request is Read && request->Read_file == was.page.file && request->frame
                == was.frame && request->destination_offset == was.filled + bytes
                && request->Read_offset == was.page.granule_idx * before.cache.granule_bytes()
                + was.filled + bytes && request->len == before.cache.granule_bytes() - was.filled
                - bytes
            &&& after.cache.residency.frames.contents(was.frame)
                == before.cache.residency.frames.contents(was.frame)
        }),
{
    before.lemma_facts();
    before.cache.lemma_facts();
    before.cache.residency.lemma_facts();
    before.cache.residency.frames.lemma_positive();
    after.lemma_facts();
    after.cache.lemma_facts();
    a_read_asks_for_what_its_page_lacks(before, i);
    let n = before.driver.capacity() as int;
    let entry = before.cache.miss.entry_at(i)->0;
    let routed = choose|routed: Pool|
        {
            &&& #[trigger] routed.routed_to(before, n)
            &&& after.cache == routed.cache
            &&& forall|s: int|
                0 <= s < before.driver.capacity() ==> #[trigger] after.slot_promoted(routed, s)
        };
    assert(routed.miss_routed(before, i, n));
    assert(flight_at(before.cache.residency.frames, entry));
    a_result_decides_a_read(
        before.mode_of(entry.page.file),
        entry,
        before.cache.granule_bytes() as int,
        Ok::<u32, IoError>(bytes),
    );
    let resumed = after.cache.miss.entry_at(i)->0;
    assert(routed.driver.live(resumed.token));
    assert(after.slot_promoted(routed, resumed.token.slot as int));
    assert(after.cache.miss.is_pending(i));
    a_read_asks_for_what_its_page_lacks(after, i);
}

/// A speculative request for a cold page of a live file is admitted whenever
/// fewer credits are occupied than configured, fewer reads are in flight than
/// allowed, some miss record is empty or terminal without waiters, a frame is in
/// the reserve or free while speculation is on, and some ring slot is vacant.
/// The read it submits asks for the whole page.
pub proof fn a_spare_credit_admits_a_cold_page(
    before: Pool,
    after: Pool,
    page: PageId,
    source: Source,
    outcome: Admission,
    record: int,
    slot: int,
)
    requires
        before.wf(),
        after.wf(),
        after.admission(before, page, source, outcome),
        source matches Source::Automatic { reader, incarnation }
            ==> before.cache.prefetch.queued_feedback().len() == 0 && reader
            < before.cache.prefetch.patterns().len()
            && before.cache.prefetch.patterns()[reader as int].incarnation == incarnation,
        before.files.is_live(page.file),
        !before.cache.residency.table@.contains_key(page),
        forall|i: int|
            0 <= i < before.cache.miss.capacity() && (
            #[trigger] before.cache.miss.entry_at(i)) is Some && before.cache.miss.entry_at(
                i,
            )->0.page == page ==> !(before.cache.miss.entry_at(i)->0.outcome is Pending),
        before.cache.prefetch.stats().occupied < before.cache.prefetch.credits(),
        before.cache.reads_in_flight < before.cache.read_limit(),
        0 <= record < before.cache.miss.capacity(),
        before.cache.miss.entry_at(record) matches Some(entry) ==> !(entry.outcome is Pending)
            && before.cache.interests@[record].waiters == 0,
        before.cache.prefetch.reserved().len() > 0 || before.cache.prefetch.is_active()
            && before.cache.free@.len() > 0,
        0 <= slot < before.driver.capacity(),
        before.driver.state_at(slot) is Vacant,
    ensures
        outcome is Admitted,
        after.cache.reads_in_flight == before.cache.reads_in_flight + 1,
        after.cache.prefetch.stats().admitted == before.cache.prefetch.stats().admitted + 1,
        before.cache.prefetch.queued_feedback().len() == 0
            ==> after.cache.prefetch.stats().occupied == before.cache.prefetch.stats().occupied + 1,
        exists|i: int|
            #![trigger after.cache.miss.is_pending(i)]
            {
                let entry = after.cache.miss.entry_at(i)->0;
                &&& after.cache.miss.is_pending(i)
                &&& entry.page == page
                &&& entry.filled == 0
                &&& after.cache.interests@[i].waiters == 0
                &&& after.cache.prefetch.entry_of(entry.frame) matches Some(credit) && credit.page
                    == page && credit.source == source
                &&& after.driver.state_at(entry.token.slot as int) matches OpState::Submitted(
                    request,
                ) && request is Read && request->Read_file == page.file && request->frame
                    == entry.frame && request->Read_offset == page.granule_idx
                    * after.cache.granule_bytes() && request->len == after.cache.granule_bytes()
            },
{
    before.lemma_facts();
    before.cache.lemma_facts();
    before.cache.prefetch.lemma_books();
    let calm = choose|calm: Pool|
        {
            &&& #[trigger] calm.calmed(before)
            &&& after.decided(calm, page, source, outcome)
        };
    assert(!calm.cache.pending(page)) by {
        if calm.cache.pending(page) {
            let i = choose|i: int| #[trigger]
                calm.cache.miss.is_pending(i) && calm.cache.miss.entry_at(i)->0.page == page;
            assert(before.cache.miss.entry_at(i) is Some);
        }
    }
    assert(calm.cache.miss.reusable(calm.cache.interests, record));
    let filled = choose|filled: Pool|
        {
            &&& #[trigger] filled.replenished(calm)
            &&& if filled.cache.prefetch.reserved().len() == 0 {
                outcome is Deferred && after == filled
            } else if !filled.driver.has_room() {
                outcome is Deferred && after.refused(filled)
            } else {
                outcome is Admitted && after.speculated(filled, page, source)
            }
        };
    assert(filled.driver.state_at(slot) is Vacant);
    assert(filled.cache.prefetch.reserved().len() > 0);
    let (at, issued) = choose|at: MissSlot, issued: OpToken|
        {
            &&& filled.first_record(at)
            &&& #[trigger] after.began(
                filled,
                at,
                page,
                filled.cache.prefetch.reserved().last(),
                issued,
                0,
            )
        };
    after.lemma_facts();
    after.cache.lemma_facts();
    lemma_first_read(filled, after, at, page, filled.cache.prefetch.reserved().last(), issued, 0);
    assert(after.cache.miss.is_pending(at.0 as int));
}

/// What a request for a page says of the page: it is rejected exactly where its
/// file is not live, found resident exactly where the page is mapped, and found
/// pending exactly where a read of the page is in flight. A request that reads
/// nothing changes neither the ring, nor the frames, nor the misses.
pub proof fn a_request_tells_where_its_page_is(
    before: Pool,
    after: Pool,
    page: PageId,
    outcome: Admission,
)
    requires
        before.wf(),
        after.admission(before, page, Source::Explicit, outcome),
    ensures
        outcome is Rejected <==> !before.files.is_live(page.file),
        outcome is Resident <==> before.files.is_live(page.file)
            && before.cache.residency.table@.contains_key(page),
        outcome is Pending <==> before.files.is_live(page.file)
            && !before.cache.residency.table@.contains_key(page) && exists|i: int|
            #[trigger] before.cache.miss.is_pending(i) && before.cache.miss.entry_at(i)->0.page
                == page,
        !(outcome is Obsolete),
        !(outcome is Admitted) ==> after.driver == before.driver && after.cache.residency
            == before.cache.residency && after.cache.miss == before.cache.miss
            && after.cache.reads_in_flight == before.cache.reads_in_flight,
{
}

/// What a pass over the ring and a delivery make of the product operation in
/// slot `k`: its result is handed out under its token, and under no other form.
proof fn lemma_answered(
    told: Pool,
    after: Pool,
    out: PoolCompletionBatch,
    empty: PoolCompletionBatch,
    report: PollReport,
    k: int,
    answer: PoolCompletion,
)
    requires
        told.wf(),
        empty@ == Seq::<PoolCompletion>::empty(),
        out.room() >= told.products@.len(),
        after.reported(told, out, empty, report),
        0 <= k < told.products@.len(),
        awaits_of(told.products@[k].operation) matches Some((token, _))
            && told.driver.state_at(token.slot as int) matches OpState::Finished(_, result)
            && told.products@[k].operation->0.finished(result) matches ProductOp::Completed {
            completion,
            ..
        } && completion == answer,
    ensures
        out@.contains(answer),
        forall|c: PoolCompletion| #[trigger]
            out@.contains(c) && c.ends() == told.products@[k].operation->0.handle() ==> c == answer,
{
    told.lemma_facts();
    assert(served(told.driver, told.products@[k].operation));
    let n = told.driver.capacity() as int;
    let (passed, delivered, kept) = choose|passed: Pool, delivered: Pool, kept: Pool|
        {
            &&& #[trigger] passed.ring_pass(told, report.backend as int, report.reclaimed as int)
            &&& #[trigger] delivered.delivered(passed, out, empty)
            &&& #[trigger] kept.upkeep(delivered)
        };
    let (drained, taken) = choose|drained: Pool, taken: int|
        {
            &&& #[trigger] drained.drained(told)
            &&& #[trigger] passed.reclaimed_from(drained, taken)
        };
    let routed = choose|routed: Pool| #[trigger]
        routed.routed_to(told, n) && drained.promoted(routed);
    assert(routed.product_routed(told, k, n));
    assert(!routed.products.is_ripe(k));
    assert(drained.products@[k] == routed.products@[k]);
    let slots = passed.products@;
    let through = choose|through: int|
        {
            &&& 0 <= through <= slots.len()
            &&& delivered.products@ == #[trigger] ProductOps::cleared(slots, through)
            &&& out@ == empty@ + ProductOps::results(slots, through)
            &&& through < slots.len() ==> out@.len() == out.room()
        };
    lemma_delivered(slots, through, k);
    assert(out@ =~= ProductOps::results(slots, through));
    assert(through == slots.len());
    assert forall|c: PoolCompletion| #[trigger]
        out@.contains(c) && c.ends() == told.products@[k].operation->0.handle() implies c
        == answer by {
        let j = lemma_delivered_from(slots, through, c);
        assert(told.products.slot_ok(k));
        assert(told.products.slot_ok(j));
        assert(routed.product_routed(told, j, n));
        assert(drained.products@[j] == routed.products@[j] || drained.submitted_barrier(routed, j));
        tokens_are_distinct(
            k as u32,
            told.products@[k].generation,
            j as u32,
            told.products@[j].generation,
        );
    }
}

/// A delivered result comes from a slot.
proof fn lemma_delivered_from(slots: Seq<ProductOpSlot>, n: int, c: PoolCompletion) -> (j: int)
    requires
        0 <= n <= slots.len(),
        ProductOps::results(slots, n).contains(c),
    ensures
        0 <= j < n,
        slots[j].operation matches Some(ProductOp::Completed { completion, .. }) && completion == c,
    decreases n,
{
    if n == 0 {
        0
    } else {
        let all = ProductOps::results(slots, n);
        let earlier = ProductOps::results(slots, n - 1);
        let at = choose|at: int| 0 <= at < all.len() && all[at] == c;
        if at < earlier.len() {
            assert(earlier[at] == c);
            lemma_delivered_from(slots, n - 1, c)
        } else {
            n - 1
        }
    }
}

/// A write is answered with exactly the host's result: once the host has
/// recorded one for its driver operation, a poll into a batch with room for
/// every operation delivers that result under the write's token, the same number
/// of bytes or the same error, and delivers nothing else under it.
pub proof fn a_write_is_answered_with_its_result(
    told: Pool,
    after: Pool,
    out: PoolCompletionBatch,
    empty: PoolCompletionBatch,
    report: PollReport,
    k: int,
    token: PoolToken,
    issued: OpToken,
    result: Result<u32, IoError>,
)
    requires
        told.wf(),
        empty@ == Seq::<PoolCompletion>::empty(),
        out.room() >= told.products@.len(),
        after.reported(told, out, empty, report),
        0 <= k < told.products@.len(),
        told.products@[k].operation matches Some(
            ProductOp::Write { token: handed, driver_token, .. },
        ) && handed == token && driver_token == issued,
        told.driver.state_at(issued.slot as int) matches OpState::Finished(_, recorded) && recorded
            == result,
    ensures
        out@.contains(PoolCompletion::Write { token, result }),
        forall|c: PoolCompletion| #[trigger]
            out@.contains(c) && (match c {
                PoolCompletion::Write { token: other, .. } => other == token,
                PoolCompletion::Fsync { token: other, .. } => other == token,
            }) ==> c == (PoolCompletion::Write { token, result }),
{
    lemma_answered(told, after, out, empty, report, k, PoolCompletion::Write { token, result });
}

/// A barrier is answered with exactly what the host said of it: with success if
/// and only if the host reported success for its driver operation, and with the
/// host's own error otherwise. Nothing else is delivered under its token.
pub proof fn a_barrier_is_answered_with_its_result(
    told: Pool,
    after: Pool,
    out: PoolCompletionBatch,
    empty: PoolCompletionBatch,
    report: PollReport,
    k: int,
    token: PoolToken,
    issued: OpToken,
    result: Result<u32, IoError>,
)
    requires
        told.wf(),
        empty@ == Seq::<PoolCompletion>::empty(),
        out.room() >= told.products@.len(),
        after.reported(told, out, empty, report),
        0 <= k < told.products@.len(),
        told.products@[k].operation matches Some(
            ProductOp::Fsync { token: handed, driver_token, .. },
        ) && handed == token && driver_token == issued,
        told.driver.state_at(issued.slot as int) matches OpState::Finished(_, recorded) && recorded
            == result,
    ensures
        result is Ok ==> out@.contains(PoolCompletion::Fsync { token, result: Ok(()) }),
        result matches Err(error) ==> out@.contains(
            PoolCompletion::Fsync { token, result: Err(error) },
        ),
        forall|c: PoolCompletion| #[trigger]
            out@.contains(c) && (match c {
                PoolCompletion::Write { token: other, .. } => other == token,
                PoolCompletion::Fsync { token: other, .. } => other == token,
            }) ==> match c {
                PoolCompletion::Write { .. } => false,
                PoolCompletion::Fsync { result: delivered, .. } => match result {
                    Ok(_) => delivered == Ok::<(), IoError>(()),
                    Err(error) => delivered == Err::<(), IoError>(error),
                },
            },
{
    let delivered: Result<(), IoError> = match result {
        Ok(_) => Ok(()),
        Err(error) => Err(error),
    };
    lemma_answered(
        told,
        after,
        out,
        empty,
        report,
        k,
        PoolCompletion::Fsync { token, result: delivered },
    );
}

} // verus!
