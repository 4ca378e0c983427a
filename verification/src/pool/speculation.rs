//! What speculative reads promise: the credits they take and give back, the
//! frames set aside for them, and whose turn it is.

use crate::pool::cache::Cache;
use crate::pool::clock::{Clock, SpeculationOutcome};
use crate::pool::control::Pool;
use crate::pool::frames::ReadFrameIdx;
use crate::pool::prefetch::feedback::Feedback;
use crate::pool::prefetch::ledger::{current, turn, Entry, Prefetch, Terminal};
use crate::pool::prefetch::pattern::PatternState;
use crate::pool::prefetch::{Admission, PrefetchReport, Source};
use crate::pool::readahead::tally;
use crate::pool::PageId;
use vstd::prelude::*;

verus! {

/// Every credit is accounted for: those given out are those that ended in a
/// demand, in an eviction or in a failure, and those that are out, of which
/// there are never more than configured.
pub proof fn credits_are_accounted_for(pool: Pool)
    requires
        pool.wf(),
    ensures
        ({
            let stats = pool.cache.prefetch.stats();
            &&& stats.admitted == stats.demand_promoted + stats.evicted_unused + stats.failed
                + stats.occupied
            &&& stats.occupied <= pool.cache.prefetch.credits()
        }),
{
    pool.lemma_facts();
    pool.cache.lemma_facts();
    pool.cache.prefetch.lemma_books();
}

/// A credit is given to one frame, for one page and source: one more is out and
/// given out in all, and one more automatically where a stream asked.
pub proof fn a_credit_is_given_to_its_frame(
    before: Prefetch,
    after: Prefetch,
    page: PageId,
    frame: ReadFrameIdx,
    source: Source,
)
    requires
        before.wf(),
        after.wf(),
        before.stats().admitted < u64::MAX,
        before.stats().automatic_admitted < u64::MAX,
        before.stats().occupied < before.credits(),
        frame.0 < after.frames(),
        after.enrolled(before, page, frame, source),
    ensures
        before.entry_of(frame) is None,
        after.entry_of(frame) matches Some(entry) && entry.page == page && entry.frame == frame
            && entry.source == source,
        forall|f: ReadFrameIdx|
            f.0 < after.frames() && f != frame ==> #[trigger] after.entry_of(f) == before.entry_of(
                f,
            ),
        after.stats().occupied == before.stats().occupied + 1,
        after.stats().admitted == before.stats().admitted + 1,
        source is Automatic ==> after.stats().automatic_admitted
            == before.stats().automatic_admitted + 1,
        source is Explicit ==> after.stats().automatic_admitted
            == before.stats().automatic_admitted,
        after.stats().demand_promoted == before.stats().demand_promoted,
        after.stats().evicted_unused == before.stats().evicted_unused,
        after.stats().failed == before.stats().failed,
        after.patterns() == before.patterns(),
{
    before.lemma_books();
}

/// A credit ends one way: as demanded where the page was used or is being asked
/// for, else as evicted or failed, as it was ended. It comes back, and nothing
/// else is counted.
pub proof fn a_credit_ends_one_way(
    before: Prefetch,
    after: Prefetch,
    clock: Clock,
    frame: ReadFrameIdx,
    terminal: Terminal,
)
    requires
        before.wf(),
        before.linked(clock),
        frame.0 < before.frames(),
        after.ended(before, clock, frame, terminal),
    ensures
        ({
            let was = before.stats();
            let is = after.stats();
            let used = clock.speculation(frame) is Consumed || terminal is Promoted;
            &&& after.entry_of(frame) is None
            &&& is.occupied == was.occupied - 1
            &&& is.admitted == was.admitted
            &&& is.automatic_admitted == was.automatic_admitted
            &&& is.demand_promoted == was.demand_promoted + (if used {
                1int
            } else {
                0
            })
            &&& is.evicted_unused == was.evicted_unused + (if !used && terminal is Evicted {
                1int
            } else {
                0
            })
            &&& is.failed == was.failed + (if !used && terminal is Failed {
                1int
            } else {
                0
            })
            &&& is.deferred == was.deferred
            &&& is.submission_refused == was.submission_refused
            &&& after.free_credits() == before.free_credits().push(before.credit_of(frame)->0)
            &&& forall|f: ReadFrameIdx|
                f.0 < before.frames() && f != frame ==> #[trigger] after.entry_of(f)
                    == before.entry_of(f)
        }),
{
    before.lemma_books();
    before.lemma_enrolled(frame);
}

/// A prediction its own reader used is fed back to that reader's stream, and no
/// other end of a credit is.
pub proof fn a_used_prediction_is_fed_back(
    before: Prefetch,
    after: Prefetch,
    clock: Clock,
    frame: ReadFrameIdx,
    terminal: Terminal,
)
    requires
        after.ended(before, clock, frame, terminal),
    ensures
        ({
            let entry = before.entry_of(frame)->0;
            let consumer = match clock.speculation(frame) {
                SpeculationOutcome::Consumed(reader) => reader,
                _ => match terminal {
                    Terminal::Promoted(reader) => reader,
                    _ => None,
                },
            };
            match entry.source {
                Source::Automatic { reader, incarnation } => if consumer == Some(reader) {
                    after.queued_feedback() == before.queued_feedback().push(
                        Feedback { reader, incarnation, page: entry.page },
                    )
                } else {
                    after.queued_feedback() == before.queued_feedback()
                },
                Source::Explicit => after.queued_feedback() == before.queued_feedback(),
            }
        }),
{
}

/// A prediction that went unused abandons its stream, if that is still the
/// stream that asked for it: the reader's pattern starts over under a new
/// incarnation. No other pattern moves.
pub proof fn an_unused_prediction_abandons_its_stream(
    before: Prefetch,
    after: Prefetch,
    clock: Clock,
    frame: ReadFrameIdx,
    terminal: Terminal,
    r: int,
)
    requires
        before.wf(),
        after.ended(before, clock, frame, terminal),
        0 <= r < before.patterns().len(),
        before.patterns()[r].incarnation < u64::MAX,
    ensures
        ({
            let entry = before.entry_of(frame)->0;
            let used = clock.speculation(frame) is Consumed || terminal is Promoted;
            let own = entry.source matches Source::Automatic { reader, incarnation } && reader == r
                && incarnation == before.patterns()[r].incarnation;
            &&& !used && own ==> after.patterns()[r].state is Empty
                && after.patterns()[r].incarnation == before.patterns()[r].incarnation + 1
            &&& used || !own ==> after.patterns()[r] == before.patterns()[r]
        }),
{
}

/// The reserve takes free frames while speculation is on, as many as there are
/// spare credits for and no more, from the top of the free stack; no frame is
/// lost or found.
pub proof fn the_reserve_takes_free_frames(before: Cache, after: Cache)
    requires
        before.wf(),
        after.refilled(before),
    ensures
        after.free@.len() + after.prefetch.reserved().len() == before.free@.len()
            + before.prefetch.reserved().len(),
        !before.prefetch.is_active() ==> after.free@ == before.free@ && after.prefetch.reserved()
            == before.prefetch.reserved(),
        before.prefetch.is_active() && before.free@.len() + before.prefetch.reserved().len()
            >= before.prefetch.credits() - before.prefetch.stats().occupied
            && before.prefetch.reserved().len() <= before.prefetch.credits()
            - before.prefetch.stats().occupied ==> after.prefetch.reserved().len()
            == before.prefetch.credits() - before.prefetch.stats().occupied,
        before.prefetch.is_active() && before.free@.len() + before.prefetch.reserved().len()
            < before.prefetch.credits() - before.prefetch.stats().occupied ==> after.free@.len()
            == 0,
        before.prefetch.reserved().len() >= before.prefetch.credits()
            - before.prefetch.stats().occupied ==> after.free@ == before.free@,
        forall|i: int|
            0 <= i < after.free@.len() ==> #[trigger] after.free@[i] == before.free@[i],
        forall|i: int|
            0 <= i < before.prefetch.reserved().len() ==> #[trigger] after.prefetch.reserved()[i]
                == before.prefetch.reserved()[i],
        forall|i: int|
            before.prefetch.reserved().len() <= i < after.prefetch.reserved().len()
                ==> #[trigger] after.prefetch.reserved()[i] == before.free@[before.free@.len() - 1
                - (i - before.prefetch.reserved().len())],
{
}

/// How many turns a reader waits is how far it is ahead of the one whose turn it
/// is, going round.
pub proof fn turns_go_round(first: u32, r: u32, readers: int)
    requires
        first < readers,
        r < readers,
    ensures
        0 <= turn(first, r, readers) < readers,
        (first + turn(first, r, readers)) % readers == r,
{
    let t = turn(first, r, readers);
    if r < first {
        assert((r + readers) % readers == r) by (nonlinear_arith)
            requires
                0 <= r < readers,
        ;
    } else {
        assert(r as int % readers == r) by (nonlinear_arith)
            requires
                0 <= r < readers,
        ;
    }
}

/// Streams are asked in turn: a reader that has a prediction is passed over only
/// for one whose turn comes earlier, and the next turn starts behind the one
/// that was served. Where no reader has a prediction nothing is asked for.
pub proof fn streams_are_asked_in_turn(
    before: Prefetch,
    after: Prefetch,
    request: Option<(PageId, Source)>,
    r: u32,
)
    requires
        after.next_turn(before, request),
        r < before.patterns().len(),
        before.cursor() < before.patterns().len(),
        before.patterns()[r as int].prediction(r) is Some,
    ensures
        request is Some,
        request matches Some((_, source)) && source matches Source::Automatic { reader, .. } && reader
            < before.patterns().len()
            && before.patterns()[reader as int].prediction(reader) == request
            && turn(before.cursor(), reader, before.patterns().len() as int) <= turn(
            before.cursor(),
            r,
            before.patterns().len() as int,
        ) && (after.cursor() == reader + 1 || reader + 1 == before.patterns().len()
            && after.cursor() == 0),
{
    if request is None {
        assert(before.patterns()[r as int].prediction(r) is None);
    } else {
        let (_, source) = request->0;
        let reader = source->reader;
        let readers = before.patterns().len() as int;
        if turn(before.cursor(), r, readers) < turn(before.cursor(), reader, readers) {
            assert(before.patterns()[r as int].prediction(r) is None);
        }
    }
}

/// Cleaning up takes the pages of abandoned streams and no others: a credit
/// loses its page exactly where a stream asked for it that has been abandoned
/// since, and the page is resident with nobody waiting to collect it.
pub proof fn cleaning_up_takes_abandoned_pages(before: Cache, after: Cache, i: int, entry: Entry)
    requires
        before.wf(),
        after.without_stale(before),
        0 <= i < before.prefetch.credits(),
        before.prefetch.entry_at(i) == Some(entry),
    ensures
        ({
            let abandoned = match entry.source {
                Source::Explicit => false,
                Source::Automatic { reader, incarnation } => !(reader
                    < before.prefetch.patterns().len()
                    && before.prefetch.patterns()[reader as int].incarnation == incarnation),
            };
            &&& abandoned && before.evictable(entry.frame) ==> after.prefetch.entry_at(i) is None
            &&& !(abandoned && before.evictable(entry.frame)) ==> after.prefetch.entry_at(i)
                == Some(entry)
        }),
        after.free@ == before.free@,
        after.prefetch.patterns() == before.prefetch.patterns(),
{
    assert(after.prefetch.entry_at(i) == (if before.stale_at(i) {
        None::<Entry>
    } else {
        before.prefetch.entry_at(i)
    }));
}

/// A prefetch examines as many pages as the limit allows, from the first on; the
/// rest is deferred, and what is deferred is counted. The owner loop is woken
/// exactly where something was admitted or deferred.
pub proof fn a_prefetch_examines_a_prefix(
    before: Pool,
    after: Pool,
    pages: Seq<PageId>,
    report: PrefetchReport,
)
    requires
        before.wf(),
        after.prefetched(before, pages, report),
    ensures
        before.window(pages).len() <= before.cache.prefetch.limit(),
        before.window(pages).len() <= pages.len(),
        before.window(pages).len() == before.cache.prefetch.limit() || before.window(pages).len()
            == pages.len(),
        forall|i: int|
            0 <= i < before.window(pages).len() ==> #[trigger] before.window(pages)[i] == pages[i],
        report.deferred >= pages.len() - before.window(pages).len(),
        report.resident + report.pending + report.admitted + report.rejected
            <= before.window(pages).len(),
        report.admitted > 0 || report.deferred > 0 ==> after.wait.current
            == before.wait.current.wrapping_add(1),
        report.admitted == 0 && report.deferred == 0 ==> after.wait == before.wait,
        after.cache.prefetch.stats().deferred == before.cache.prefetch.stats().deferred.wrapping_add(
            report.deferred,
        ),
        after.cache.prefetch.is_active() == (before.cache.prefetch.credits() > 0),
{
    let (trace, outcomes) = choose|trace: Seq<Pool>, outcomes: Seq<Admission>|
        {
            &&& #[trigger] Pool::requested_all(trace, before.window(pages), outcomes)
            &&& outcomes.len() == before.window(pages).len()
            &&& trace[0].engaged(before)
            &&& after.noted(trace.last(), report)
            &&& report.resident == tally(outcomes, Admission::Resident)
            &&& report.pending == tally(outcomes, Admission::Pending)
            &&& report.admitted == tally(outcomes, Admission::Admitted)
            &&& report.deferred == tally(outcomes, Admission::Deferred) + pages.len()
                - outcomes.len()
            &&& report.rejected == tally(outcomes, Admission::Rejected)
        };
    lemma_tallies(outcomes);
    lemma_trace_counts(trace, before.window(pages), outcomes, outcomes.len() as int);
}

/// Every outcome is tallied under one kind.
proof fn lemma_tallies(outcomes: Seq<Admission>)
    ensures
        tally(outcomes, Admission::Resident) >= 0,
        tally(outcomes, Admission::Pending) >= 0,
        tally(outcomes, Admission::Admitted) >= 0,
        tally(outcomes, Admission::Deferred) >= 0,
        tally(outcomes, Admission::Rejected) >= 0,
        tally(outcomes, Admission::Resident) + tally(outcomes, Admission::Pending) + tally(
            outcomes,
            Admission::Admitted,
        ) + tally(outcomes, Admission::Deferred) + tally(outcomes, Admission::Rejected)
            <= outcomes.len(),
    decreases outcomes.len(),
{
    if outcomes.len() > 0 {
        lemma_tallies(outcomes.drop_last());
    }
}

/// One attempt to read a page ahead counts nothing as deferred and wakes nobody.
proof fn lemma_attempt_counts(before: Pool, after: Pool, page: PageId, outcome: Admission)
    requires
        after.admission(before, page, Source::Explicit, outcome),
    ensures
        after.wait == before.wait,
        after.cache.prefetch.stats().deferred == before.cache.prefetch.stats().deferred,
        after.cache.prefetch.is_active() == before.cache.prefetch.is_active(),
{
    let calm = choose|calm: Pool|
        {
            &&& #[trigger] calm.calmed(before)
            &&& after.decided(calm, page, Source::Explicit, outcome)
        };
    if after != calm {
        let filled = choose|filled: Pool|
            {
                &&& #[trigger] filled.replenished(calm)
                &&& if filled.cache.prefetch.reserved().len() == 0 {
                    outcome is Deferred && after == filled
                } else if !filled.driver.has_room() {
                    outcome is Deferred && after.refused(filled)
                } else {
                    outcome is Admitted && after.speculated(filled, page, Source::Explicit)
                }
            };
    }
}

proof fn lemma_trace_counts(
    trace: Seq<Pool>,
    window: Seq<PageId>,
    outcomes: Seq<Admission>,
    n: int,
)
    requires
        Pool::requested_all(trace, window, outcomes),
        0 <= n <= outcomes.len(),
    ensures
        trace[n].wait == trace[0].wait,
        trace[n].cache.prefetch.stats().deferred == trace[0].cache.prefetch.stats().deferred,
        trace[n].cache.prefetch.is_active() == trace[0].cache.prefetch.is_active(),
    decreases n,
{
    if n > 0 {
        lemma_trace_counts(trace, window, outcomes, n - 1);
        let before = trace[n - 1];
        let after = trace[(n - 1) + 1];
        assert(after.requested(before, window[n - 1], window, outcomes[n - 1]));
        let (tried, first) = choose|tried: Pool, first: Admission|
            {
                &&& #[trigger] tried.admission(before, window[n - 1], Source::Explicit, first)
                &&& if first is Deferred {
                    after.retried(tried, window[n - 1], window, outcomes[n - 1])
                } else {
                    after == tried && outcomes[n - 1] == first
                }
            };
        lemma_attempt_counts(before, tried, window[n - 1], first);
        if first is Deferred {
            let freed = choose|freed: Pool|
                {
                    &&& #[trigger] freed.replaced(tried, window)
                    &&& after.admission(freed, window[n - 1], Source::Explicit, outcomes[n - 1])
                };
            if freed != tried {
                let settled = choose|settled: Cache|
                    {
                        &&& settled.wf()
                        &&& settled.same_but_ledger(tried.cache)
                        &&& #[trigger] settled.prefetch.reconciled(
                            tried.cache.prefetch,
                            tried.cache.clock,
                            settled.clock,
                        )
                        &&& (freed.cache == settled && forall|i: int|
                            !(#[trigger] settled.unused_at(window, i))) || freed.took_unused(
                            settled,
                            window,
                        )
                    };
            }
            lemma_attempt_counts(freed, after, window[n - 1], outcomes[n - 1]);
        }
    }
}

/// A prefetch of one cold page of a live file is admitted whenever a credit, a
/// read, a miss record, a spare frame and a ring slot are to be had.
pub proof fn a_prefetch_with_room_is_admitted(
    before: Pool,
    after: Pool,
    page: PageId,
    report: PrefetchReport,
    record: int,
    slot: int,
)
    requires
        before.wf(),
        before.files.is_live(page.file),
        !before.cache.residency.table@.contains_key(page),
        forall|i: int|
            0 <= i < before.cache.miss.capacity() && (
            #[trigger] before.cache.miss.entry_at(i)) is Some && before.cache.miss.entry_at(
                i,
            )->0.page == page ==> !(before.cache.miss.entry_at(i)->0.outcome is Pending),
        before.cache.prefetch.stats().occupied < before.cache.prefetch.credits(),
        before.cache.reads_in_flight < before.cache.read_limit(),
        0 <= record < before.cache.miss.capacity(),
        before.cache.miss.entry_at(record) matches Some(entry) ==> !(entry.outcome is Pending)
            && before.cache.interests@[record].waiters == 0,
        before.cache.prefetch.reserved().len() > 0 || before.cache.free@.len() > 0,
        0 <= slot < before.driver.capacity(),
        before.driver.state_at(slot) is Vacant,
        before.cache.prefetch.limit() >= 1,
        after.prefetched(before, seq![page], report),
    ensures
        report.admitted == 1,
        report.deferred == 0,
        report.resident == 0,
        report.pending == 0,
        report.rejected == 0,
{
    before.lemma_facts();
    before.cache.lemma_facts();
    before.cache.prefetch.lemma_books();
    let pages = seq![page];
    let window = before.window(pages);
    assert(window =~= pages);
    let (trace, outcomes) = choose|trace: Seq<Pool>, outcomes: Seq<Admission>|
        {
            &&& #[trigger] Pool::requested_all(trace, window, outcomes)
            &&& outcomes.len() == window.len()
            &&& trace[0].engaged(before)
            &&& after.noted(trace.last(), report)
            &&& report.resident == tally(outcomes, Admission::Resident)
            &&& report.pending == tally(outcomes, Admission::Pending)
            &&& report.admitted == tally(outcomes, Admission::Admitted)
            &&& report.deferred == tally(outcomes, Admission::Deferred) + pages.len()
                - outcomes.len()
            &&& report.rejected == tally(outcomes, Admission::Rejected)
        };
    let start = trace[0];
    let zero: int = 0;
    assert(trace[zero + 1].requested(trace[zero], window[0], window, outcomes[0]));
    let (tried, first) = choose|tried: Pool, first: Admission|
        {
            &&& #[trigger] tried.admission(start, page, Source::Explicit, first)
            &&& if first is Deferred {
                trace[1].retried(tried, page, window, outcomes[0])
            } else {
                trace[1] == tried && outcomes[0] == first
            }
        };
    let calm = choose|calm: Pool|
        {
            &&& #[trigger] calm.calmed(start)
            &&& tried.decided(calm, page, Source::Explicit, first)
        };
    assert(!calm.cache.pending(page)) by {
        if calm.cache.pending(page) {
            let i = choose|i: int| #[trigger]
                calm.cache.miss.is_pending(i) && calm.cache.miss.entry_at(i)->0.page == page;
            assert(before.cache.miss.entry_at(i) is Some);
        }
    }
    assert(calm.cache.miss.reusable(calm.cache.interests, record));
    assert(calm.driver.state_at(slot) is Vacant);
    assert(outcomes.drop_last() =~= Seq::<Admission>::empty());
    assert(outcomes.last() is Admitted);
    reveal_with_fuel(tally, 2);
}

/// Where every credit is out, one is made available by evicting an unused page
/// outside the window, that of the lowest credit: its frame leaves the cache,
/// its credit comes back, and every other page stays mapped.
pub proof fn a_replacement_takes_one_unused_page(
    before: Pool,
    after: Pool,
    window: Seq<PageId>,
    page: PageId,
)
    requires
        before.wf(),
        after.replaced(before, window),
        before.cache.residency.table@.contains_key(page),
        !after.cache.residency.table@.contains_key(page),
    ensures
        before.cache.prefetch.stats().occupied == before.cache.prefetch.credits(),
        !window.contains(page),
        before.cache.evictable(before.cache.residency.table@[page]),
        before.cache.prefetch.entry_of(before.cache.residency.table@[page]) is Some,
        !(before.cache.clock.speculation(before.cache.residency.table@[page]) is Consumed),
        after.cache.residency.frames.residency(before.cache.residency.table@[page]) is Evicting,
        forall|p: PageId|
            p != page && before.cache.residency.table@.contains_key(p)
                ==> #[trigger] after.cache.residency.table@.contains_key(p),
{
    before.lemma_facts();
    before.cache.lemma_facts();
    before.cache.residency.lemma_facts();
    before.cache.prefetch.lemma_books();
    let settled = choose|settled: Cache|
        {
            &&& settled.wf()
            &&& settled.same_but_ledger(before.cache)
            &&& #[trigger] settled.prefetch.reconciled(
                before.cache.prefetch,
                before.cache.clock,
                settled.clock,
            )
            &&& (after.cache == settled && forall|i: int|
                !(#[trigger] settled.unused_at(window, i))) || after.took_unused(settled, window)
        };
    let k = choose|k: int|
        {
            &&& #[trigger] settled.unused_at(window, k)
            &&& after.cache.unmapped(settled, settled.prefetch.entry_at(k)->0.frame)
        };
    settled.lemma_facts();
    settled.residency.lemma_facts();
    settled.prefetch.lemma_entry(k);
    let gone = settled.prefetch.entry_at(k)->0;
    assert(settled.residency.frames.page(gone.frame) == Some(gone.page));
    assert(before.cache.residency.table@[page] == gone.frame);
    assert(settled.prefetch.entry_of(gone.frame) is Some);
}

/// A cold demand trains its reader: a reader that is predicted for and saw
/// nothing yet follows from the page it asked for.
pub proof fn a_first_demand_is_followed(before: Pool, after: Pool, reader: u32, page: PageId)
    requires
        before.wf(),
        after.demanded(before, reader, page),
        before.cache.prefetch.queued_feedback().len() == 0,
        reader < before.cache.prefetch.patterns().len(),
        before.cache.prefetch.patterns()[reader as int].state is Empty,
    ensures
        after.cache.prefetch.patterns().len() == before.cache.prefetch.patterns().len(),
        after.cache.prefetch.patterns()[reader as int].state == (PatternState::Following {
            last: page,
            run: 1,
        }),
        after.cache.miss == before.cache.miss,
        after.cache.free == before.cache.free,
        after.cache.residency == before.cache.residency,
        after.driver == before.driver,
{
    let calm = choose|calm: Prefetch|
        {
            &&& #[trigger] calm.caught_up(
                before.cache.prefetch,
                before.cache.clock,
                after.cache.clock,
            )
            &&& after.cache.prefetch.trained(calm, reader, page)
        };
}

/// A stream whose request was served moves on past the page; one whose file is
/// gone starts over; and one that was deferred asks for the same page again.
pub proof fn a_stream_goes_by_its_outcome(
    tried: Pool,
    after: Pool,
    reader: u32,
    demand: PageId,
    next: u32,
    width: u32,
    outcome: Admission,
)
    requires
        after.followed(tried, reader, outcome),
        reader < tried.cache.prefetch.patterns().len(),
        tried.cache.prefetch.patterns()[reader as int].state == (PatternState::Streaming {
            demand,
            next,
            width,
        }),
        next < u32::MAX,
    ensures
        outcome is Deferred || outcome is Obsolete ==> after == tried,
        outcome is Rejected ==> after.cache.prefetch.patterns()[reader as int].state is Empty,
        outcome is Admitted || outcome is Resident || outcome is Pending
            ==> after.cache.prefetch.patterns()[reader as int].state == (PatternState::Streaming {
            demand,
            next: (next + 1) as u32,
            width,
        }),
        after.driver == tried.driver,
        after.cache.miss == tried.cache.miss,
{
}

/// A readahead pass ends for a cause: as many requests as there are credits, a
/// request that found no room, or no stream that asks.
pub proof fn a_readahead_pass_ends_for_a_cause(pool: Pool, outcomes: Seq<Admission>, r: u32)
    requires
        pool.exhausted(outcomes),
        r < pool.cache.prefetch.patterns().len(),
        pool.cache.prefetch.patterns()[r as int].prediction(r) is Some,
    ensures
        outcomes.len() <= pool.cache.prefetch.credits(),
        outcomes.len() == pool.cache.prefetch.credits() || outcomes.len() > 0
            && outcomes.last() is Deferred,
{
}

/// A reconciliation returns the credits of used pages and no others: a frame
/// loses its credit exactly where its page was used, each counts as demanded,
/// and nothing is left to be fed back or noticed.
pub proof fn a_reconciliation_returns_used_credits(
    before: Prefetch,
    after: Prefetch,
    was: Clock,
    is: Clock,
    frame: ReadFrameIdx,
)
    requires
        before.wf(),
        before.linked(was),
        after.reconciled(before, was, is),
        frame.0 < before.frames(),
        is.has(frame),
    ensures
        was.speculation(frame) is Consumed ==> after.entry_of(frame) is None
            && is.speculation(frame) is Absent,
        !(was.speculation(frame) is Consumed) ==> after.entry_of(frame) == before.entry_of(frame)
            && is.speculation(frame) == was.speculation(frame),
        after.stats().demand_promoted - before.stats().demand_promoted == before.stats().occupied
            - after.stats().occupied,
        after.stats().occupied <= before.stats().occupied,
        after.stats().evicted_unused == before.stats().evicted_unused,
        after.stats().failed == before.stats().failed,
        after.stats().admitted == before.stats().admitted,
        after.queued_feedback().len() == 0,
        is.referenced(frame) == was.referenced(frame),
        after.reserved() == before.reserved(),
{
}

/// Topping up evicts nothing while the spare frames cover the spare credits, and
/// never more frames than those lack; while speculation is off it does nothing.
pub proof fn topping_up_evicts_what_is_lacking(before: Cache, after: Cache)
    requires
        before.wf(),
        after.topped_up(before),
    ensures
        !before.prefetch.is_active() ==> after == before,
        before.free@.len() + before.prefetch.reserved().len() >= before.prefetch.credits()
            - before.prefetch.stats().occupied && before.prefetch.reserved().len()
            <= before.prefetch.credits() - before.prefetch.stats().occupied
            ==> after.residency == before.residency,
        after.residency.evict_queue@.len() >= before.residency.evict_queue@.len(),
        before.prefetch.is_active() && before.free@.len() + before.prefetch.reserved().len()
            < before.prefetch.credits() - before.prefetch.stats().occupied
            ==> after.residency.evict_queue@.len() <= before.residency.evict_queue@.len() || (
        after.residency.evict_queue@.len() <= before.prefetch.credits()
            - before.prefetch.stats().occupied - before.prefetch.reserved().len()
            - before.free@.len()),
{
    if before.prefetch.is_active() {
        let trace = choose|trace: Seq<Cache>|
            {
                &&& #[trigger] Cache::evicted_in_turn(trace)
                &&& 1 <= trace.len() <= trace[0].shortfall() + 1
                &&& trace[0].refilled(before)
                &&& if trace.len() == trace[0].shortfall() + 1 {
                    after == trace.last()
                } else {
                    after.victimized(trace.last(), false)
                }
            };
        lemma_evictions_counted(trace, trace.len() - 1);
        the_reserve_takes_free_frames(before, trace[0]);
        if trace.len() < trace[0].shortfall() + 1 {
            lemma_hopeless(trace.last(), after);
        }
    }
}

/// An eviction that found nothing leaves every frame where it was.
proof fn lemma_hopeless(before: Cache, after: Cache)
    requires
        after.victimized(before, false),
    ensures
        after.residency == before.residency,
{
}

/// Each eviction of a run queues one frame.
proof fn lemma_evictions_counted(trace: Seq<Cache>, n: int)
    requires
        Cache::evicted_in_turn(trace),
        0 <= n < trace.len(),
    ensures
        trace[n].residency.evict_queue@.len() == trace[0].residency.evict_queue@.len() + n,
    decreases n,
{
    if n > 0 {
        lemma_evictions_counted(trace, n - 1);
        assert(trace[(n - 1) + 1].victimized(trace[n - 1], true));
    }
}

} // verus!
