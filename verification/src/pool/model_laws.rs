//! What the bounded model promises of its steps.

use crate::driver::FileId;
use crate::pool::cache::flight_at;
use crate::pool::clock::SpeculationOutcome;
use crate::pool::frames::ReadFrameIdx;
use crate::pool::model::{modeled_page, DrainSource, Guard, PoolModel};
use crate::pool::prediction_model::JoinedSpan;
use crate::pool::prefetch::ledger::{Prefetch, Terminal, WEAR_MAX};
use crate::pool::prefetch::pattern::PatternState;
use crate::pool::prefetch::Source;
use crate::pool::read_spans::{ReadSpan, SpanPage};
use crate::pool::residency::queued_in;
use crate::pool::span_routing::miss_of;
use crate::pool::speculation::a_credit_ends_one_way;
use crate::pool::PageId;
use vstd::prelude::*;

verus! {

/// One reclaim pass advances the epoch exactly when both readers are quiescent
/// or have seen it, and frees the frames two epochs past their eviction that no
/// handle retains; a younger eviction stays queued.
pub proof fn a_model_pass_frees_what_has_matured(
    before: PoolModel,
    after: PoolModel,
    taken: int,
    k: int,
)
    requires
        before.wf(),
        after.wf(),
        after.swept(before, taken),
        before.residency.epoch < u64::MAX,
        0 <= k < before.residency.evict_queue@.len(),
    ensures
        ({
            let frame = before.residency.evict_queue@[k].0;
            let tag = before.residency.evict_queue@[k].1;
            &&& after.residency.epoch == before.residency.epoch + (if forall|r: int|
                0 <= r < 2 ==> (#[trigger] before.residency.readers@[r]).guard_count == 0
                    || before.residency.readers@[r].local_epoch == before.residency.epoch {
                1int
            } else {
                0
            })
            &&& after.residency.epoch >= tag + 2 && before.residency.retention.handles(frame) == 0
                ==> after.residency.frames.residency(frame) is Free
            &&& after.residency.epoch >= tag + 2 && before.residency.retention.handles(frame) > 0
                ==> after.residency.frames.residency(frame) is Evicting
                && after.residency.retention.held(frame)
            &&& after.residency.epoch < tag + 2 ==> after.residency.frames.residency(
                frame,
            ) is Evicting && queued_in(after.residency.evict_queue@, frame)
        }),
{
    before.residency.lemma_facts();
    after.residency.lemma_facts();
    before.residency.retention.lemma_budget();
    let queue = before.residency.evict_queue@;
    let frame = queue[k].0;
    let returned = before.returned(taken);
    let pending = before.residency.retention.pending();
    let freed = before.residency.unretained(taken);
    if k < taken {
        before.residency.lemma_freed_entry(taken, k);
        assert(queue.take(taken)[k].0 == frame);
        assert(queued_in(queue.take(taken), frame));
        if before.residency.retention.handles(frame) == 0 {
            let j = choose|j: int| 0 <= j < freed.len() && freed[j] == frame;
            assert(returned[pending.len() + j] == frame);
        }
    } else {
        assert(after.residency.evict_queue@[k - taken].0 == frame);
    }
    if returned.contains(frame) {
        let j = choose|j: int| 0 <= j < returned.len() && returned[j] == frame;
        if j >= pending.len() {
            assert(freed[j - pending.len()] == frame);
            let l = before.residency.lemma_freed_only(taken, frame);
            assert(queue[l].0 == queue[k].0);
        } else {
            assert(pending.contains(frame));
        }
    }
    assert forall|r: int| 0 <= r < 2 implies (
    (#[trigger] before.residency.readers@[r]).guard_count == 0
        <==> before.residency.readers@[r].local_epoch == u64::MAX) by {}
}

/// The report of a pass counts what it did: the frames their last handle had
/// released, the evictions that matured, and those of them it freed; released
/// frames come first.
pub proof fn a_drain_report_counts_the_pass(before: PoolModel, after: PoolModel, taken: int)
    requires
        before.wf(),
        after.swept(before, taken),
    ensures
        before.report(taken).matured == before.residency.evict_queue@.len()
            - after.residency.evict_queue@.len(),
        before.report(taken).released == before.residency.retention.pending().len(),
        before.report(taken).released + before.report(taken).matured_freed == before.returned(
            taken,
        ).len(),
        before.report(taken).matured_freed <= before.report(taken).matured,
        before.residency.retention.pending().len() > 0 ==> before.report(taken).first == Some(
            DrainSource::Release,
        ),
        before.residency.retention.pending().len() == 0 && taken > 0 ==> before.report(taken).first
            == Some(DrainSource::Matured),
        before.residency.retention.pending().len() == 0 && taken == 0 ==> before.report(
            taken,
        ).first is None,
{
    before.residency.lemma_facts();
    before.residency.retention.lemma_budget();
    lemma_freed_among(before, taken);
}

/// No more frames are freed than queue entries are taken.
proof fn lemma_freed_among(model: PoolModel, taken: int)
    requires
        0 <= taken,
    ensures
        model.residency.unretained(taken).len() <= taken,
    decreases taken,
{
    if taken > 0 {
        lemma_freed_among(model, taken - 1);
    }
}

/// A reader's first pin takes the frame its page is mapped to, with the bytes
/// that are there, and nothing where the page is not mapped; a nested pin takes
/// again the frame the reader holds.
pub proof fn a_model_pin_takes_the_mapped_frame(
    before: PoolModel,
    after: PoolModel,
    reader: int,
    page: PageId,
    guard: Option<Guard>,
)
    requires
        before.wf(),
        0 <= reader < 2,
        before.may_pin(reader),
        after.pinned(before, reader, page, guard),
    ensures
        before.residency.readers@[reader].guard_count == 0 ==> (guard is Some
            <==> before.residency.table@.contains_key(page)),
        before.residency.readers@[reader].guard_count == 0 ==> (guard matches Some(g)
            ==> g.pin().pinned() == before.residency.table@[page]),
        before.residency.readers@[reader].guard_count > 0 ==> (guard matches Some(g)
            && g.pin().pinned() == ReadFrameIdx(before.held@[reader]@)),
        guard matches Some(g) ==> {
            &&& g.pin().holder() == reader
            &&& after.residency.frames == before.residency.frames
            &&& after.residency.readers@[reader].guard_count
                == before.residency.readers@[reader].guard_count + 1
            &&& after.clock.referenced(g.pin().pinned())
        },
        guard is None ==> after == before,
{
    before.residency.lemma_facts();
}

/// A file-aware get answers only for the live generation: for another it has
/// nothing and changes nothing, and a page of the live one that is not mapped
/// costs one check under the lock.
pub proof fn a_model_get_needs_the_live_generation(
    before: PoolModel,
    after: PoolModel,
    file_generation: u32,
    page: u32,
    guard: Option<Guard>,
)
    requires
        before.wf(),
        before.residency.readers@[0].guard_count == 0,
        after.got_file(before, file_generation, page, guard),
    ensures
        ({
            let live = before.files.entry_at(0) matches Some(entry) && entry.id.driver == 0
                && entry.id.slot == 0 && entry.id.generation == file_generation
                && entry.state is Live;
            let id = PageId {
                file: crate::driver::FileId { driver: 0, slot: 0, generation: file_generation },
                granule_idx: page,
            };
            &&& !live ==> guard is None && after == before
            &&& live && before.residency.table@.contains_key(id) ==> (guard matches Some(g)
                && g.pin().pinned() == before.residency.table@[id] && after.locked_checks
                == before.locked_checks)
            &&& live && !before.residency.table@.contains_key(id) ==> guard is None
                && after.locked_checks == before.locked_checks.wrapping_add(1)
                && after.residency == before.residency
        }),
{
}

/// A page that is made resident is mapped to its frame and holds its generation
/// in every byte; no other frame changes.
pub proof fn an_installed_page_holds_its_generation(
    before: PoolModel,
    after: PoolModel,
    frame: ReadFrameIdx,
    page: PageId,
    generation: u8,
    other: ReadFrameIdx,
    j: int,
)
    requires
        before.wf(),
        after.installed(before, frame, page, generation),
        before.residency.has(other),
        0 <= j < 4096,
    ensures
        after.residency.table@.contains_key(page),
        after.residency.table@[page] == frame,
        after.residency.frames.residency(frame) is Resident,
        after.residency.frames.contents(frame).len() == 4096,
        after.residency.frames.contents(frame)[j] == generation,
        other != frame ==> after.residency.frames.contents(other)
            == before.residency.frames.contents(other) && after.residency.frames.residency(other)
            == before.residency.frames.residency(other),
{
    if other != frame {
        assert(after.residency.frames.word(other) == before.residency.frames.word(other));
    }
}

/// A vectored completion completes exactly the pages it brings the last byte
/// of.
pub proof fn a_vector_completes_the_pages_it_reaches(before: PoolModel, bytes: u32, k: int)
    ensures
        k < before.reaches(bytes) <==> (k + 1) * 4096 <= before.books().flying().arrived() + bytes,
{
}

/// A landed page of a vector is mapped to its frame and holds its source byte
/// throughout.
pub proof fn a_landed_page_holds_its_source(before: PoolModel, after: PoolModel, k: int, j: int)
    requires
        after.holds_page(before, k),
        0 <= j < 4096,
    ensures
        ({
            let entry = before.books().miss.entry_at(miss_of(before.books().flying(), k))->0;
            &&& after.residency.table@.contains_key(entry.page)
            &&& after.residency.table@[entry.page] == entry.frame
            &&& after.residency.frames.contents(entry.frame).len() == 4096
            &&& after.residency.frames.contents(entry.frame)[j]
                == before.books().operation->0.contents@[k]
        }),
{
}

/// Joining a resident page changes nothing; joining a pending one adds one
/// waiter to its miss and to no other, and ends its prediction as demanded.
pub proof fn a_joined_page_gains_a_waiter(
    before: PoolModel,
    after: PoolModel,
    page: u32,
    joined: JoinedSpan,
)
    requires
        before.wf(),
        before.readahead is Some,
        after.span_joined(before, modeled_page(0, page), joined),
        forall|i: int| #[trigger]
            before.books().miss.is_pending(i) ==> before.books().interests@[i].waiters < u32::MAX,
    ensures
        ({
            let id = PageId { file: FileId { driver: 0, slot: 0, generation: 0 }, granule_idx: page };
            let (now, was) = (after.books(), before.books());
            &&& joined.wanted() == id
            &&& before.residency.table@.contains_key(id) ==> joined.interest() is None && after
                == before
            &&& !before.residency.table@.contains_key(id) ==> (joined.interest() matches Some((
                slot,
                generation,
            )) && {
                let entry = was.miss.entry_at(slot.0 as int)->0;
                &&& was.miss.is_pending(slot.0 as int)
                &&& entry.page == id
                &&& entry.generation == generation
                &&& now.miss == was.miss
                &&& now.reads_in_flight == was.reads_in_flight
                &&& now.interests@.len() == was.interests@.len()
                &&& forall|i: int|
                    0 <= i < was.interests@.len() ==> (#[trigger] now.interests@[i]).waiters
                        == was.interests@[i].waiters + (if i == slot.0 {
                        1int
                    } else {
                        0
                    })
                &&& now.prefetch.entry_of(entry.frame) is None
                &&& was.prefetch.entry_of(entry.frame) is Some ==> now.prefetch.stats().occupied
                    == was.prefetch.stats().occupied - 1 && now.prefetch.stats().demand_promoted
                    == was.prefetch.stats().demand_promoted + 1
                &&& after.residency == before.residency
            })
        }),
{
    before.residency.lemma_facts();
    let id = modeled_page(0, page);
    let (now, was) = (after.books(), before.books());
    if !before.residency.table@.contains_key(id) {
        let index = choose|index: int| #[trigger]
            before.pending_at(id, index) && after.page_joined(before, index, joined);
        was.miss.lemma_entry(index);
        let frame = was.miss.entry_at(index)->0.frame;
        assert(flight_at(before.residency.frames, was.miss.entry_at(index)->0));
        if was.prefetch.entry_of(frame) is Some {
            a_credit_ends_one_way(
                was.prefetch,
                now.prefetch,
                before.clock,
                frame,
                Terminal::Promoted(Some(0)),
            );
        }
    }
}

/// Reading a page leaves no guard behind and moves no page; only the clock
/// notices the use, and the first use of a prediction names its reader.
pub proof fn a_look_is_noticed_by_the_clock(
    before: PoolModel,
    after: PoolModel,
    reader: u32,
    frame: ReadFrameIdx,
)
    requires
        before.wf(),
        before.residency.has(frame),
        after.looked_at(before, reader, frame),
    ensures
        after.residency.frames == before.residency.frames,
        after.residency.table == before.residency.table,
        after.residency.readers@ == before.residency.readers@,
        after.residency.pins@ == before.residency.pins@,
        after.residency.evict_queue == before.residency.evict_queue,
        after.residency.epoch == before.residency.epoch,
        after.clock.referenced(frame),
        !before.clock.referenced(frame) && before.clock.speculation(frame) is Unconsumed
            ==> after.clock.speculation(frame) == SpeculationOutcome::Consumed(Some(reader)),
        forall|f: ReadFrameIdx|
            before.clock.has(f) && f != frame ==> #[trigger] after.clock.referenced(f)
                == before.clock.referenced(f) && after.clock.speculation(f)
                == before.clock.speculation(f),
{
    before.residency.lemma_facts();
}

/// A demand trains its own reader: with nothing to catch up on, a reader that
/// saw nothing yet follows from the page, and the other reader's stream is as it
/// was. No page moves and no read starts.
pub proof fn a_model_demand_trains_its_reader(
    before: PoolModel,
    after: PoolModel,
    reader: u32,
    page: PageId,
)
    requires
        before.wf(),
        before.readahead is Some,
        before.books().prefetch.queued_feedback().len() == 0,
        reader < 2,
        after.observed(before, reader, page),
    ensures
        ({
            let (now, was) = (after.books().prefetch, before.books().prefetch);
            &&& was.patterns()[reader as int].state is Empty ==> now.patterns()[reader as int].state
                == (PatternState::Following { last: page, run: 1 })
            &&& now.patterns().len() == 2
            &&& now.patterns()[1 - reader] == was.patterns()[1 - reader]
            &&& now.stats() == was.stats()
            &&& after.residency == before.residency
            &&& after.books().miss == before.books().miss
            &&& after.books().reads_in_flight == before.books().reads_in_flight
        }),
{
}

/// A frame that is parted from its page waits for its grace period: the page is
/// not mapped any more, the frame is queued under the present epoch with its
/// bytes, and a prediction it held is over.
pub proof fn a_dismissed_frame_waits(before: PoolModel, after: PoolModel, frame: ReadFrameIdx)
    requires
        before.wf(),
        before.readahead is Some,
        before.reclaimable(frame),
        after.dismissed(before, frame),
    ensures
        ({
            let page = before.residency.frames.page(frame)->0;
            let (now, was) = (after.books(), before.books());
            &&& !after.residency.table@.contains_key(page)
            &&& forall|other: PageId|
                other != page && before.residency.table@.contains_key(other) ==>
                #[trigger] after.residency.table@.contains_key(other)
                && after.residency.table@[other] == before.residency.table@[other]
            &&& after.residency.frames.residency(frame) is Evicting
            &&& after.residency.evict_queue@ == before.residency.evict_queue@.push(
                (frame, before.residency.epoch),
            )
            &&& after.residency.frames.contents(frame) == before.residency.frames.contents(frame)
            &&& now.prefetch.entry_of(frame) is None
            &&& was.prefetch.entry_of(frame) is Some ==> now.prefetch.stats().occupied
                == was.prefetch.stats().occupied - 1
            &&& was.prefetch.entry_of(frame) is None ==> now.prefetch.stats()
                == was.prefetch.stats()
            &&& now.reads_in_flight == was.reads_in_flight
        }),
{
    before.residency.lemma_facts();
    let (now, was) = (after.books(), before.books());
    if was.prefetch.entry_of(frame) is Some {
        a_credit_ends_one_way(was.prefetch, now.prefetch, before.clock, frame, Terminal::Evicted);
    }
}

/// A prediction that is made resident takes a credit for its reader: its page is
/// mapped to the frame, which holds the content in every byte, and the stream
/// predicts the page after it next, as far as its width reaches.
pub proof fn a_resident_prediction_takes_a_credit(
    before: PoolModel,
    after: PoolModel,
    reader: u32,
    frame: ReadFrameIdx,
    page: PageId,
    content: u8,
    j: int,
)
    requires
        before.wf(),
        after.wf(),
        reader < 2,
        before.residency.has(frame),
        before.predicts(reader, frame, page),
        before.books().prefetch.wear() + 1 < WEAR_MAX,
        after.predicted(before, reader, frame, page, content),
        0 <= j < 4096,
    ensures
        ({
            let (now, was) = (after.books().prefetch, before.books().prefetch);
            &&& after.residency.table@.contains_key(page)
            &&& after.residency.table@[page] == frame
            &&& after.residency.frames.residency(frame) is Resident
            &&& after.residency.frames.contents(frame).len() == 4096
            &&& after.residency.frames.contents(frame)[j] == content
            &&& now.entry_of(frame) matches Some(entry) && entry.page == page && (
            entry.source matches Source::Automatic { reader: asked, .. } && asked == reader)
            &&& now.stats().occupied == was.stats().occupied + 1
            &&& after.books().reads_in_flight == before.books().reads_in_flight
            &&& after.clock.speculation(frame) is Unconsumed
            &&& page.granule_idx < u32::MAX ==> (now.patterns()[reader as int].state matches
            PatternState::Streaming { next, .. } && next == page.granule_idx + 1)
            &&& now.patterns()[1 - reader] == was.patterns()[1 - reader]
        }),
{
    before.residency.lemma_facts();
    before.books().prefetch.lemma_books();
    let was = before.books().prefetch;
    let booked = choose|booked: Prefetch|
        {
            &&& #[trigger] booked.enrolled(was, page, frame, before.source_of(reader))
            &&& after.books().prefetch.repatterned(
                booked,
                reader,
                booked.patterns()[reader as int].advanced(),
            )
        };
    assert(booked.entry_of(frame) is Some);
}

/// A page of a vectored read takes the least free frame for itself, one credit
/// and one read: its miss waits with nothing filled yet.
pub proof fn an_admitted_page_takes_the_least_free_frame(
    before: PoolModel,
    after: PoolModel,
    page: PageId,
    taken: SpanPage,
    frame: ReadFrameIdx,
    other: ReadFrameIdx,
)
    requires
        before.wf(),
        before.readahead is Some,
        before.books().prefetch.stats().occupied < before.books().prefetch.credits(),
        before.residency.has(other),
        after.page_admitted(before, page, taken, frame),
    ensures
        before.residency.frames.residency(other) is Free ==> frame.0 <= other.0,
        other != frame ==> after.residency.frames.residency(other)
            == before.residency.frames.residency(other),
        after.residency.frames.residency(frame) is InFlight,
        after.residency.frames.page(frame) == Some(page),
        after.books().miss.entry_at(taken.slot.0 as int) matches Some(entry) && entry.page == page
            && entry.frame == frame && entry.filled == 0 && entry.outcome is Pending
            && entry.generation == taken.generation,
        after.books().interests@[taken.slot.0 as int].waiters == 0,
        after.books().prefetch.entry_of(frame) matches Some(entry) && entry.page == page
            && entry.source is Explicit,
        after.books().prefetch.stats().occupied == before.books().prefetch.stats().occupied + 1,
        after.books().reads_in_flight == before.books().reads_in_flight + 1,
{
    before.residency.lemma_facts();
    before.books().prefetch.lemma_books();
    if other != frame {
        assert(after.residency.frames.word(other) == before.residency.frames.word(other));
    }
}

/// A vectored read starts with one read for each of its pages, all of its bytes
/// to come and none arrived, from its first page on.
pub proof fn a_vector_starts_with_all_its_pages(
    before: PoolModel,
    after: PoolModel,
    first: u32,
    contents: Seq<u8>,
)
    requires
        after.span_admitted(before, first, contents),
    ensures
        after.books().reads_in_flight == before.books().reads_in_flight + contents.len(),
        after.books().operation matches Some(read) && read.contents@ == contents && read.remaining
            == contents.len() * 4096,
        after.books().flying().arrived() == 0,
        after.books().flying().pages_len() == contents.len(),
        after.books().flying().first_page() == (PageId {
            file: FileId { driver: 0, slot: 0, generation: 0 },
            granule_idx: first,
        }),
{
    let (steps, taken, frames) = choose|
        steps: Seq<PoolModel>,
        taken: Seq<SpanPage>,
        frames: Seq<ReadFrameIdx>,
    |
        {
            &&& #[trigger] PoolModel::admitting(steps, taken, frames, first, contents.len() as int)
            &&& steps[0].refreshed(before)
            &&& after.launched(steps[contents.len() as int], first, contents, taken)
        };
    lemma_admitted_reads(steps, taken, frames, first, contents.len() as int, contents.len() as int);
}

/// Each step of an admission adds one read.
proof fn lemma_admitted_reads(
    steps: Seq<PoolModel>,
    taken: Seq<SpanPage>,
    frames: Seq<ReadFrameIdx>,
    first: u32,
    count: int,
    k: int,
)
    requires
        PoolModel::admitting(steps, taken, frames, first, count),
        0 <= k <= count,
    ensures
        steps[k].books().reads_in_flight == steps[0].books().reads_in_flight + k,
    decreases k,
{
    if k > 0 {
        lemma_admitted_reads(steps, taken, frames, first, count, k - 1);
        assert(PoolModel::admitting_step(steps, taken, frames, first, k - 1));
    }
}

/// A completion returns a read for each page it completes. A vector that has all
/// its bytes is over; another has as many bytes more, and waits for the rest.
pub proof fn a_vector_ends_with_its_last_byte(before: PoolModel, after: PoolModel, bytes: u32)
    requires
        before.wf(),
        before.readahead is Some,
        before.books().operation is Some,
        bytes <= before.books().operation->0.remaining,
        after.span_completed(before, bytes),
    ensures
        ({
            let was = before.books();
            let arrived = was.flying().arrived();
            let now = after.books();
            &&& now.reads_in_flight == was.reads_in_flight - ((arrived + bytes) / 4096 - arrived
                / 4096)
            &&& now.operation is None <==> arrived + bytes == was.flying().pages_len() * 4096
            &&& now.operation matches Some(read) ==> read.remaining
                == was.operation->0.remaining - bytes && read.contents@
                == was.operation->0.contents@ && now.flying().arrived() == arrived + bytes
            &&& now.interests == was.interests
        }),
{
    let was = before.books();
    let span = was.flying();
    span.lemma_progress();
    let (given, steps) = choose|given: PoolModel, steps: Seq<PoolModel>|
        {
            &&& #[trigger] given.delivered(before, bytes)
            &&& #[trigger] PoolModel::landing(
                steps,
                span,
                span.complete_prefix() as int,
                before.reaches(bytes),
            )
            &&& steps[0].parked(given)
            &&& after.resumed(
                steps[before.reaches(bytes) - span.complete_prefix()],
                before,
                bytes,
            )
        };
    lemma_landed_reads(
        steps,
        span,
        span.complete_prefix() as int,
        before.reaches(bytes),
        before.reaches(bytes) - span.complete_prefix(),
    );
}

/// Each step of a landing returns one read.
proof fn lemma_landed_reads(steps: Seq<PoolModel>, span: ReadSpan, from: int, upto: int, k: int)
    requires
        PoolModel::landing(steps, span, from, upto),
        0 <= k <= upto - from,
    ensures
        steps[k].books().reads_in_flight == steps[0].books().reads_in_flight - k,
        steps[k].books().interests == steps[0].books().interests,
    decreases k,
{
    if k > 0 {
        lemma_landed_reads(steps, span, from, upto, k - 1);
        assert(PoolModel::landing_step(steps, span, from, k - 1));
    }
}

/// The page of a retiring file is evicted unless the file is leased or the page
/// is not mapped: its frame waits under the present epoch, and every other page
/// stays mapped where it was.
pub proof fn a_model_eviction_queues_its_frame(before: PoolModel, after: PoolModel, page: PageId)
    requires
        before.wf(),
        after.unmapped(before, page),
    ensures
        ({
            let leased = before.files.lease_at(0).count > 0;
            let frame = before.residency.table@[page];
            &&& leased || !before.residency.table@.contains_key(page) ==> after == before
            &&& !leased && before.residency.table@.contains_key(page) ==> {
                &&& !after.residency.table@.contains_key(page)
                &&& after.residency.frames.residency(frame) is Evicting
                &&& after.residency.frames.contents(frame) == before.residency.frames.contents(
                    frame,
                )
                &&& after.residency.evict_queue@ == before.residency.evict_queue@.push(
                    (frame, before.residency.epoch),
                )
                &&& after.residency.epoch == before.residency.epoch
                &&& after.files == before.files
                &&& forall|other: PageId|
                    other != page && before.residency.table@.contains_key(other) ==>
                    #[trigger] after.residency.table@.contains_key(other)
                    && after.residency.table@[other] == before.residency.table@[other]
            }
        }),
{
}

/// What the first `k` steps of a refilling come to.
proof fn lemma_refilled(
    steps: Seq<PoolModel>,
    start: PoolModel,
    end: PoolModel,
    freed: Seq<ReadFrameIdx>,
    page: PageId,
    generation: u8,
    k: int,
)
    requires
        PoolModel::refilling(steps, start, end, freed, page, generation),
        freed.no_duplicates(),
        forall|i: int| 0 <= i < freed.len() ==> start.residency.has(#[trigger] freed[i]),
        0 <= k <= freed.len(),
    ensures
        steps[k].residency.frames.same_shape(start.residency.frames),
        steps[k].files == start.files,
        forall|i: int|
            0 <= i < k ==> steps[k].residency.frames.residency(#[trigger] freed[i]) is Resident
                && steps[k].residency.frames.page(freed[i]) == Some(page)
                && steps[k].residency.frames.contents(freed[i]) == Seq::new(
                4096,
                |j: int| generation,
            ),
        k > 0 ==> steps[k].residency.table@.contains_key(page) && steps[k].residency.table@[page]
            == freed[k - 1],
        k == 0 ==> steps[k].residency.table@ == start.residency.table@,
        forall|p: PageId|
            p != page ==> #[trigger] steps[k].residency.table@.contains_key(p)
                == start.residency.table@.contains_key(p),
    decreases k,
{
    if k > 0 {
        lemma_refilled(steps, start, end, freed, page, generation, k - 1);
        assert(PoolModel::refill_step(steps, k - 1, freed, page, generation));
        let (now, was) = (steps[k], steps[k - 1]);
        assert forall|i: int| 0 <= i < k implies now.residency.frames.residency(
            #[trigger] freed[i],
        ) is Resident && now.residency.frames.page(freed[i]) == Some(page)
            && now.residency.frames.contents(freed[i]) == Seq::new(4096, |j: int| generation) by {
            assert(start.residency.has(freed[i]));
            if i < k - 1 {
                assert(freed[i] != freed[k - 1]);
                assert(now.residency.frames.word(freed[i]) == was.residency.frames.word(freed[i]));
            }
        }
    }
}

/// A polling pass puts the page into every frame it frees, and leaves it mapped
/// to the last of them; a pass that frees nothing maps nothing. The file of the
/// page becomes the live one where the pass was to renew it and freed a frame.
pub proof fn a_polling_pass_refills_what_it_frees(
    before: PoolModel,
    after: PoolModel,
    taken: int,
    page: PageId,
    generation: u8,
    renews: bool,
    i: int,
    j: int,
)
    requires
        before.wf(),
        after.passed(before, taken, page, generation, renews),
        page.file.driver == 0,
        page.file.slot == 0,
    ensures
        ({
            let freed = before.returned(taken);
            &&& freed.len() == 0 ==> after.residency.table == before.residency.table && after.files
                == before.files
            &&& freed.len() > 0 ==> after.residency.table@.contains_key(page)
                && after.residency.table@[page] == freed.last()
            &&& 0 <= i < freed.len() && 0 <= j < 4096
                ==> after.residency.frames.residency(freed[i]) is Resident
                && after.residency.frames.contents(freed[i])[j] == generation
            &&& freed.len() > 0 && renews ==> after.files.is_live(page.file)
            &&& !renews ==> after.files == before.files
            &&& forall|p: PageId|
                p != page ==> #[trigger] after.residency.table@.contains_key(p)
                    == before.residency.table@.contains_key(p)
        }),
{
    before.residency.lemma_facts();
    let freed = before.returned(taken);
    let (swept, filled) = choose|swept: PoolModel, filled: PoolModel|
        {
            &&& #[trigger] swept.swept(before, taken)
            &&& #[trigger] filled.refilled(swept, freed, page, generation)
            &&& if renews && freed.len() > 0 {
                after.reopened(filled, page.file)
            } else {
                after == filled
            }
        };
    let steps = choose|steps: Seq<PoolModel>| #[trigger]
        PoolModel::refilling(steps, swept, filled, freed, page, generation);
    assert forall|k: int| 0 <= k < freed.len() implies swept.residency.has(
        #[trigger] freed[k],
    ) by {
        assert(before.residency.has(freed[k]));
    }
    lemma_refilled(steps, swept, filled, freed, page, generation, freed.len() as int);
    if 0 <= i < freed.len() {
        assert(filled.residency.frames.residency(freed[i]) is Resident);
    }
}

/// A reopening pass gives up the page of the file that retires: unless the file
/// is leased, the page is not mapped any more afterwards.
pub proof fn a_reopening_pass_drops_the_retiring_page(
    before: PoolModel,
    after: PoolModel,
    taken: int,
    id: FileId,
    page: u32,
    generation: u8,
)
    requires
        before.wf(),
        after.renewed(before, taken, id, page, generation),
        before.files.entry_at(0) is Some,
        before.files.entry_at(0)->0.state is Retiring,
        before.files.entry_at(0)->0.id != id,
        before.files.lease_at(0).count == 0,
    ensures
        !after.residency.table@.contains_key(
            PageId { file: before.files.entry_at(0)->0.id, granule_idx: page },
        ),
{
    let target = PageId { file: before.files.entry_at(0)->0.id, granule_idx: page };
    let fresh = PageId { file: id, granule_idx: page };
    let parted = choose|parted: PoolModel|
        {
            &&& parted.unmapped(before, target)
            &&& #[trigger] after.passed(parted, taken, fresh, generation, true)
        };
    let freed = parted.returned(taken);
    let (swept, filled) = choose|swept: PoolModel, filled: PoolModel|
        {
            &&& #[trigger] swept.swept(parted, taken)
            &&& #[trigger] filled.refilled(swept, freed, fresh, generation)
            &&& if freed.len() > 0 {
                after.reopened(filled, fresh.file)
            } else {
                after == filled
            }
        };
    let steps = choose|steps: Seq<PoolModel>| #[trigger]
        PoolModel::refilling(steps, swept, filled, freed, fresh, generation);
    assert forall|k: int| 0 <= k < freed.len() implies swept.residency.has(
        #[trigger] freed[k],
    ) by {
        assert(parted.residency.has(freed[k]));
    }
    lemma_refilled(steps, swept, filled, freed, fresh, generation, freed.len() as int);
    assert(filled.residency.table@.contains_key(target) == swept.residency.table@.contains_key(
        target,
    ));
}

/// Taking in the releases empties the ring: each frame gives its share of the
/// budget back and is no longer held, and no release stays announced.
pub proof fn taken_releases_return_their_budget(before: PoolModel, after: PoolModel)
    requires
        before.wf(),
        after.emptied(before),
    ensures
        after.residency.retention.pending().len() == 0,
        after.residency.retention.stats().occupied_budget + before.residency.retention.pending().len()
            == before.residency.retention.stats().occupied_budget,
        after.residency.retention.stats().retained_evictions_held
            == before.residency.retention.stats().retained_evictions_held,
        forall|f: ReadFrameIdx| #[trigger]
            before.residency.retention.pending().contains(f) ==> !after.residency.retention.held(f),
        !after.wait.ring_pending,
        after.wait.current == before.wait.current,
{
    before.residency.lemma_facts();
    before.residency.retention.lemma_budget();
    assert forall|f: ReadFrameIdx| #[trigger]
        before.residency.retention.pending().contains(f) implies !after.residency.retention.held(
        f,
    ) by {
        assert(before.residency.has(f));
    }
}

/// A new model has every frame free and nothing mapped, queued, leased or
/// retained; both readers are quiescent, and its predictions, where it has any,
/// have all their credits.
pub proof fn a_new_model_is_empty(
    model: PoolModel,
    frames: u32,
    retained: u32,
    readahead: Option<u32>,
    f: ReadFrameIdx,
)
    requires
        model.opened(frames, retained, readahead),
    ensures
        model.residency.frames.frame_count() == frames,
        f.0 < frames ==> model.residency.frames.residency(f) is Free && !model.clock.referenced(f)
            && model.clock.speculation(f) is Absent,
        forall|p: PageId| !(#[trigger] model.residency.table@.contains_key(p)),
        model.residency.evict_queue@.len() == 0,
        model.residency.epoch == 0,
        model.residency.retention.budget() == retained,
        model.residency.retention.enabled() <==> retained != 0,
        model.residency.retention.pending().len() == 0,
        forall|r: int|
            0 <= r < 2 ==> (#[trigger] model.residency.readers@[r]).guard_count == 0
                && model.residency.readers@[r].local_epoch == u64::MAX,
        model.files.entry_at(0) is None,
        model.files.lease_at(0).count == 0,
        model.locked_checks == 0,
        model.wait.current == model.wait.consumed,
        !model.wait.ring_pending,
        model.readahead is Some <==> readahead is Some,
        readahead matches Some(capacity) ==> {
            &&& model.books().prefetch.credits() == capacity
            &&& model.books().prefetch.stats().occupied == 0
            &&& model.books().reads_in_flight == 0
            &&& model.books().operation is None
            &&& model.books().prefetch.patterns().len() == 2
            &&& model.books().prefetch.patterns()[0].state is Empty
            &&& model.books().prefetch.patterns()[1].state is Empty
        },
{
    model.residency.lemma_facts();
}

/// A page of a vector that lands is mapped to its frame under a new generation
/// and returns its read; its record stays for as long as somebody waits. A page
/// nobody predicted counts as used, and a predicted one is reported complete.
pub proof fn a_landed_model_page_is_noticed(before: PoolModel, after: PoolModel, index: int)
    requires
        before.wf(),
        before.readahead is Some,
        before.books().miss.is_pending(index),
        after.page_landed(before, index),
    ensures
        ({
            let (now, was) = (after.books(), before.books());
            let entry = was.miss.entry_at(index)->0;
            let frame = entry.frame;
            &&& after.residency.table@.contains_key(entry.page)
            &&& after.residency.table@[entry.page] == frame
            &&& after.residency.frames.residency(frame) is Resident
            &&& after.residency.frames.generation(frame) == before.residency.frames.generation(
                frame,
            ) + 1
            &&& after.residency.frames.contents(frame) == before.residency.frames.contents(frame)
            &&& now.reads_in_flight == was.reads_in_flight - 1
            &&& was.interests@[index].waiters == 0 ==> now.miss.entry_at(index) is None
            &&& was.interests@[index].waiters > 0 ==> (now.miss.entry_at(index) matches Some(left)
                && left.outcome is Succeeded && left.page == entry.page)
            &&& before.clock.speculation(frame) is Absent ==> after.clock.referenced(frame)
            &&& !(before.clock.speculation(frame) is Absent)
                ==> after.clock.completed_frames().contains(frame) && after.clock.referenced(frame)
                == before.clock.referenced(frame) && after.clock.speculation(frame)
                == before.clock.speculation(frame)
            &&& now.prefetch == was.prefetch
            &&& now.interests == was.interests
        }),
{
    before.residency.lemma_facts();
    assert(flight_at(before.residency.frames, before.books().miss.entry_at(index)->0));
}

} // verus!
