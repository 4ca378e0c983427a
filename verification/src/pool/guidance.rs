//! What moves a reader's stream and what spends a frame's second chance: the
//! single steps the readahead ledger and the clock take.

use crate::driver::{IoMode, OpState, Request};
use crate::error::IoError;
use crate::pool::cache::Cache;
use crate::pool::clock::{distance, Clock};
use crate::pool::control::Pool;
use crate::pool::frames::ReadFrameIdx;
use crate::pool::prefetch::feedback::Feedback;
use crate::pool::prefetch::ledger::{current, Prefetch, Terminal};
use crate::pool::prefetch::pattern::PatternState;
use crate::pool::prefetch::{Admission, Source};
use crate::pool::routing::{verdict, ReadOutcome};
use crate::pool::PageId;
use vstd::prelude::*;

verus! {

/// The reader of a prediction's source.
pub open spec fn issued_for(source: Source, reader: int) -> bool {
    source matches Source::Automatic { reader: owner, .. } && owner == reader
}

/// `reader`'s pattern took in feedback that `start` owes to it.
pub open spec fn fed(
    before: Prefetch,
    after: Prefetch,
    start: (Prefetch, Clock),
    reader: int,
) -> bool {
    exists|x: Feedback|
        {
            &&& #[trigger] start.0.owes(start.1, x)
            &&& x.reader == reader
            &&& after.patterns()[reader] == before.patterns()[reader].confirmed(
                x.page,
                x.incarnation,
                before.credits() as u32,
            )
        }
}

/// `reader`'s stream asked for a page: it moves on, or starts anew where the
/// request was rejected.
pub open spec fn asked(before: Prefetch, after: Prefetch, reader: int) -> bool {
    &&& before.patterns()[reader].prediction(reader as u32) is Some
    &&& after.patterns()[reader] == before.patterns()[reader].advanced()
        || after.patterns()[reader] == before.patterns()[reader].restarted(PatternState::Empty)
}

/// A current prediction of `reader` failed or went unused, which abandons its
/// stream.
pub open spec fn forfeited(before: Prefetch, after: Prefetch, reader: int) -> bool {
    exists|f: ReadFrameIdx|
        {
            &&& f.0 < before.frames()
            &&& (#[trigger] before.entry_of(f)) is Some
            &&& issued_for(before.entry_of(f)->0.source, reader)
            &&& current(before.entry_of(f)->0.source, before.patterns())
            &&& after.entry_of(f) is None
            &&& after.patterns()[reader] == before.patterns()[reader].restarted(
                PatternState::Empty,
            )
        }
}

/// At most `reader`'s pattern moved, and only for a cause of its own.
pub open spec fn moved_alone(
    before: Prefetch,
    after: Prefetch,
    start: (Prefetch, Clock),
    reader: int,
) -> bool {
    &&& after.patterns().len() == before.patterns().len()
    &&& forall|q: int|
        0 <= q < before.patterns().len() && q != reader ==> #[trigger] after.patterns()[q]
            == before.patterns()[q]
    &&& 0 <= reader < before.patterns().len() ==> {
        ||| after.patterns()[reader] == before.patterns()[reader]
        ||| fed(before, after, start, reader)
        ||| asked(before, after, reader)
        ||| forfeited(before, after, reader)
    }
}

/// A prediction is filed only where its reader's stream asks for it.
pub open spec fn filed_on_request(before: Prefetch, after: Prefetch) -> bool {
    forall|f: ReadFrameIdx|
        f.0 < before.frames() && (#[trigger] after.entry_of(f)) is Some
            && after.entry_of(f)->0.source is Automatic ==> {
            let entry = after.entry_of(f)->0;
            let reader = entry.source->reader;
            ||| before.entry_of(f) == after.entry_of(f)
            ||| reader < before.patterns().len() && before.patterns()[reader as int].prediction(
                reader,
            ) == Some((entry.page, entry.source))
        }
}

/// A sweep of the hand passed `frame`, or went round once over set bits.
pub open spec fn passed(before: Clock, after: Clock, frame: ReadFrameIdx) -> bool {
    let hand = before.hand_position();
    let count = before.frame_count() as int;
    exists|victim: ReadFrameIdx|
        {
            &&& #[trigger] after.swept(before, victim)
            &&& distance(hand, frame.0 as int, count) < distance(hand, victim.0 as int, count)
                || before.referenced(victim)
        }
}

/// The second chance of `frame` is spent: the hand passed it, or a speculation
/// has started in it.
pub open spec fn spent(
    before: (Prefetch, Clock),
    after: (Prefetch, Clock),
    frame: ReadFrameIdx,
) -> bool {
    ||| passed(before.1, after.1, frame)
    ||| before.0.entry_of(frame) is None && after.0.entry_of(frame) is Some
}

/// One step of the ledger and the clock, under feedback owed in `start`.
pub open spec fn step(
    start: (Prefetch, Clock),
    before: (Prefetch, Clock),
    after: (Prefetch, Clock),
) -> bool {
    &&& after.0.frames() == before.0.frames()
    &&& after.1.frame_count() == before.1.frame_count()
    &&& exists|reader: int| #[trigger] moved_alone(before.0, after.0, start, reader)
    &&& filed_on_request(before.0, after.0)
    &&& forall|f: ReadFrameIdx|
        before.1.has(f) && #[trigger] before.1.referenced(f) && !after.1.referenced(f) ==> spent(
            before,
            after,
            f,
        )
}

/// The states of `trace` come one after the other in single steps.
pub open spec fn steps(start: (Prefetch, Clock), trace: Seq<(Prefetch, Clock)>) -> bool {
    &&& trace.len() > 0
    &&& forall|k: int|
        0 <= k < trace.len() - 1 ==> step(start, trace[k], #[trigger] trace[k + 1])
}

/// Single steps lead from `before` to `after`.
pub open spec fn leads(
    start: (Prefetch, Clock),
    before: (Prefetch, Clock),
    after: (Prefetch, Clock),
) -> bool {
    exists|trace: Seq<(Prefetch, Clock)>|
        {
            &&& #[trigger] steps(start, trace)
            &&& trace[0] == before
            &&& trace.last() == after
        }
}

/// What is owed to a reader was owed to it in `start`.
pub open spec fn owes_within(start: (Prefetch, Clock), now: (Prefetch, Clock)) -> bool {
    forall|x: Feedback| #[trigger] now.0.owes(now.1, x) ==> start.0.owes(start.1, x)
}

/// No feedback is queued or still to be harvested.
pub open spec fn quiet(now: (Prefetch, Clock)) -> bool {
    &&& paired(now)
    &&& now.0.queued_feedback().len() == 0
    &&& forall|f: ReadFrameIdx|
        f.0 < now.0.frames() ==> !((#[trigger] now.1.speculation(f)) is Consumed)
}

/// The ledger and the clock cover the same frames.
pub open spec fn paired(now: (Prefetch, Clock)) -> bool {
    now.1.frame_count() == now.0.frames()
}

/// The ledger and the clock of a cache.
pub open spec fn sight(cache: Cache) -> (Prefetch, Clock) {
    (cache.prefetch, cache.clock)
}

pub proof fn lemma_leads_nowhere(start: (Prefetch, Clock), now: (Prefetch, Clock))
    ensures
        leads(start, now, now),
{
    assert(steps(start, seq![now]));
}

pub proof fn lemma_leads_one(
    start: (Prefetch, Clock),
    before: (Prefetch, Clock),
    after: (Prefetch, Clock),
)
    requires
        step(start, before, after),
    ensures
        leads(start, before, after),
{
    assert(steps(start, seq![before, after]));
}

pub proof fn lemma_leads_on(
    start: (Prefetch, Clock),
    before: (Prefetch, Clock),
    middle: (Prefetch, Clock),
    after: (Prefetch, Clock),
)
    requires
        leads(start, before, middle),
        leads(start, middle, after),
    ensures
        leads(start, before, after),
{
    let left = choose|trace: Seq<(Prefetch, Clock)>|
        {
            &&& #[trigger] steps(start, trace)
            &&& trace[0] == before
            &&& trace.last() == middle
        };
    let right = choose|trace: Seq<(Prefetch, Clock)>|
        {
            &&& #[trigger] steps(start, trace)
            &&& trace[0] == middle
            &&& trace.last() == after
        };
    let both = left + right.skip(1);
    assert forall|k: int| 0 <= k < both.len() - 1 implies step(
        start,
        both[k],
        #[trigger] both[k + 1],
    ) by {
        if k + 1 < left.len() {
            assert(both[k] == left[k] && both[k + 1] == left[k + 1]);
        } else {
            let j = k + 1 - left.len();
            assert(both[k] == right[j]);
            assert(both[k + 1] == right[j + 1]);
        }
    }
    assert(both.last() == after);
    assert(steps(start, both));
}

/// A step that moves no stream, files no prediction and clears no bit.
pub proof fn lemma_bookkeeping(
    start: (Prefetch, Clock),
    before: (Prefetch, Clock),
    after: (Prefetch, Clock),
)
    requires
        after.0.frames() == before.0.frames(),
        after.1.frame_count() == before.1.frame_count(),
        after.0.patterns() == before.0.patterns(),
        forall|f: ReadFrameIdx|
            f.0 < before.0.frames() && (#[trigger] after.0.entry_of(f)) is Some
                ==> after.0.entry_of(f) == before.0.entry_of(f),
        forall|f: ReadFrameIdx|
            before.1.has(f) && #[trigger] before.1.referenced(f) ==> after.1.referenced(f),
    ensures
        leads(start, before, after),
{
    assert(moved_alone(before.0, after.0, start, 0));
    lemma_leads_one(start, before, after);
}

/// The end of a credit.
pub proof fn lemma_credit_ended(
    start: (Prefetch, Clock),
    before: (Prefetch, Clock),
    after: (Prefetch, Clock),
    frame: ReadFrameIdx,
    terminal: Terminal,
)
    requires
        paired(before),
        frame.0 < before.0.frames(),
        after.0.ended(before.0, before.1, frame, terminal),
        after.1.unmarked(before.1, frame),
        !(terminal is Promoted) || terminal == Terminal::Promoted(None),
    ensures
        paired(after),
        leads(start, before, after),
        owes_within(start, before) ==> owes_within(start, after),
        quiet(before) ==> quiet(after),
{
    let entry = before.0.entry_of(frame)->0;
    let reader = entry.source->reader as int;
    if after.0.patterns() != before.0.patterns() {
        assert(forfeited(before.0, after.0, reader)) by {
            assert(before.0.entry_of(frame) is Some);
        }
        assert(moved_alone(before.0, after.0, start, reader));
    } else {
        assert(moved_alone(before.0, after.0, start, 0));
    }
    lemma_leads_one(start, before, after);
    assert forall|x: Feedback| owes_within(start, before) && #[trigger] after.0.owes(
        after.1,
        x,
    ) implies start.0.owes(start.1, x) by {
        if after.0.queued_feedback().contains(x) {
            if !before.0.queued_feedback().contains(x) {
                let longer = after.0.queued_feedback();
                let k = choose|k: int| 0 <= k < longer.len() && longer[k] == x;
                if k < before.0.queued_feedback().len() {
                    assert(before.0.queued_feedback()[k] == x);
                }
                assert(before.0.harvest_at(before.1, frame) == Some(x));
                assert(before.0.harvest(before.1, x));
            }
        } else {
            let f = choose|f: ReadFrameIdx|
                f.0 < after.0.frames() && #[trigger] after.0.harvest_at(after.1, f) == Some(x);
            assert(after.0.entry_of(f) is Some);
            assert(after.1.has(f));
            assert(before.0.harvest_at(before.1, f) == Some(x));
            assert(before.0.harvest(before.1, x));
        }
        assert(before.0.owes(before.1, x));
    }
    if quiet(before) {
        assert forall|f: ReadFrameIdx| f.0 < after.0.frames() implies !((
        #[trigger] after.1.speculation(f)) is Consumed) by {
            assert(after.1.has(f));
            assert(!(before.1.speculation(f) is Consumed));
        }
        assert(!(before.1.speculation(frame) is Consumed));
    }
}

/// An eviction.
pub proof fn lemma_unmapping(start: (Prefetch, Clock), before: Cache, after: Cache, f: ReadFrameIdx)
    requires
        before.wf(),
        after.unmapped(before, f),
    ensures
        leads(start, sight(before), sight(after)),
        owes_within(start, sight(before)) ==> owes_within(start, sight(after)),
        quiet(sight(before)) ==> quiet(sight(after)),
{
    before.lemma_facts();
    before.residency.lemma_facts();
    assert(before.residency.has(f));
    if before.prefetch.entry_of(f) is Some {
        lemma_credit_ended(start, sight(before), sight(after), f, Terminal::Evicted);
    } else {
        lemma_leads_nowhere(start, sight(before));
    }
}

/// The consumed credits that have ended after `k` steps of a harvest.
proof fn lemma_harvest_leads(
    start: (Prefetch, Clock),
    trace: Seq<(Prefetch, Clock)>,
    frames: Seq<ReadFrameIdx>,
    k: int,
)
    requires
        Prefetch::harvests(trace, frames),
        paired(trace[0]),
        owes_within(start, trace[0]),
        forall|j: int|
            0 <= j < frames.len() ==> (#[trigger] frames[j]).0 < trace[0].0.frames(),
        0 <= k <= frames.len(),
    ensures
        leads(start, trace[0], trace[k]),
        paired(trace[k]),
        owes_within(start, trace[k]),
        trace[k].0.frames() == trace[0].0.frames(),
        trace[k].0.patterns().len() == trace[0].0.patterns().len(),
    decreases k,
{
    if k == 0 {
        lemma_leads_nowhere(start, trace[0]);
    } else {
        lemma_harvest_leads(start, trace, frames, k - 1);
        assert(Prefetch::harvests_at(trace, frames, k - 1));
        let frame = frames[k - 1];
        let (ledger, clock) = trace[k - 1];
        if ledger.entry_of(frame) is Some && clock.speculation(frame) is Consumed {
            lemma_credit_ended(start, trace[k - 1], trace[k], frame, Terminal::Promoted(None));
        } else {
            lemma_leads_nowhere(start, trace[k]);
        }
        lemma_leads_on(start, trace[0], trace[k - 1], trace[k]);
    }
}

/// The feedback that was handed out after `k` steps of a flush.
proof fn lemma_feeding_leads(
    start: (Prefetch, Clock),
    clock: Clock,
    trace: Seq<Prefetch>,
    order: Seq<Feedback>,
    k: int,
)
    requires
        Prefetch::feeds(trace, order),
        forall|x: Feedback| #[trigger]
            order.contains(x) ==> start.0.owes(start.1, x) && x.reader < trace[0].patterns().len(),
        0 <= k <= order.len(),
    ensures
        leads(start, (trace[0], clock), (trace[k], clock)),
        trace[k].frames() == trace[0].frames(),
        trace[k].patterns().len() == trace[0].patterns().len(),
    decreases k,
{
    if k == 0 {
        lemma_leads_nowhere(start, (trace[0], clock));
    } else {
        lemma_feeding_leads(start, clock, trace, order, k - 1);
        assert(Prefetch::feeds_at(trace, order, k - 1));
        let before = trace[k - 1];
        let after = trace[k];
        let x = order[k - 1];
        assert(order.contains(x));
        assert(start.0.owes(start.1, x));
        assert(fed(before, after, start, x.reader as int));
        assert(moved_alone(before, after, start, x.reader as int));
        lemma_leads_one(start, (before, clock), (after, clock));
        lemma_leads_on(start, (trace[0], clock), (before, clock), (after, clock));
    }
}

/// A reconciliation.
pub proof fn lemma_reconciling(
    start: (Prefetch, Clock),
    before: (Prefetch, Clock),
    after: (Prefetch, Clock),
)
    requires
        start.0.wf(),
        before.1.wf(),
        paired(before),
        owes_within(start, before),
        before.0.patterns().len() == start.0.patterns().len(),
        after.0.reconciled(before.0, before.1, after.1),
    ensures
        leads(start, before, after),
        quiet(after),
        owes_within(start, after),
        paired(after),
{
    let (trace, completed, consumed) = choose|
        trace: Seq<(Prefetch, Clock)>,
        completed: Seq<ReadFrameIdx>,
        consumed: Seq<ReadFrameIdx>,
    | #[trigger]
        after.0.tallies(before.0, before.1, after.1, trace, completed, consumed);
    let noted = trace[0];
    lemma_bookkeeping(start, before, noted);
    assert forall|x: Feedback| #[trigger] noted.0.owes(noted.1, x) implies start.0.owes(
        start.1,
        x,
    ) by {
        if !before.0.queued_feedback().contains(x) {
            let f = choose|f: ReadFrameIdx|
                f.0 < noted.0.frames() && #[trigger] noted.0.harvest_at(noted.1, f) == Some(x);
            assert(noted.0.entry_of(f) is Some);
            assert(noted.1.has(f));
            assert(noted.1.speculation(f) == before.1.speculation(f));
            assert(before.0.harvest_at(before.1, f) == Some(x));
        }
        assert(before.0.owes(before.1, x));
    }
    assert forall|j: int| 0 <= j < consumed.len() implies (#[trigger] consumed[j]).0
        < noted.0.frames() by {
        assert(consumed.contains(consumed[j]));
        before.1.lemma_notified(consumed[j]);
    }
    let n = consumed.len() as int;
    lemma_harvest_leads(start, trace, consumed, n);
    let harvested = trace[n];
    let (ledgers, order) = choose|ledgers: Seq<Prefetch>, order: Seq<Feedback>|
        {
            &&& #[trigger] Prefetch::feeds(ledgers, order)
            &&& crate::pool::prefetch::feedback::in_order(order)
            &&& order.to_multiset() == harvested.0.queued_feedback().to_multiset()
            &&& ledgers[0].relieved(harvested.0)
            &&& ledgers.last() == after.0
        };
    lemma_bookkeeping(start, harvested, (ledgers[0], after.1));
    assert forall|x: Feedback| #[trigger] order.contains(x) implies start.0.owes(start.1, x)
        && x.reader < ledgers[0].patterns().len() by {
        order.to_multiset_ensures();
        harvested.0.queued_feedback().to_multiset_ensures();
        assert(order.to_multiset().count(x) > 0);
        assert(harvested.0.queued_feedback().contains(x));
        assert(harvested.0.owes(harvested.1, x));
        start.0.lemma_feedback_reader(start.1, x);
    }
    lemma_feeding_leads(start, after.1, ledgers, order, order.len() as int);
    lemma_leads_on(start, before, noted, harvested);
    lemma_leads_on(start, before, harvested, (ledgers[0], after.1));
    lemma_leads_on(start, before, (ledgers[0], after.1), after);
    assert forall|f: ReadFrameIdx| f.0 < after.0.frames() implies !((
    #[trigger] after.1.speculation(f)) is Consumed) by {
        assert(after.1.has(f));
    }
    lemma_quiet_owes_nothing(start, after);
}

/// A quiet ledger owes nothing.
pub proof fn lemma_quiet_owes_nothing(start: (Prefetch, Clock), now: (Prefetch, Clock))
    requires
        quiet(now),
    ensures
        owes_within(start, now),
{
    assert forall|x: Feedback| #[trigger] now.0.owes(now.1, x) implies start.0.owes(start.1, x) by {
        if !now.0.queued_feedback().contains(x) {
            let f = choose|f: ReadFrameIdx|
                f.0 < now.0.frames() && #[trigger] now.0.harvest_at(now.1, f) == Some(x);
            assert(!(now.1.speculation(f) is Consumed));
        }
    }
}

/// Sweeps of the hand.
proof fn lemma_offers_lead(
    start: (Prefetch, Clock),
    ledger: Prefetch,
    trace: Seq<Clock>,
    victims: Seq<ReadFrameIdx>,
    k: int,
)
    requires
        Clock::offers(trace, victims),
        0 <= k <= victims.len(),
    ensures
        leads(start, (ledger, trace[0]), (ledger, trace[k])),
    decreases k,
{
    if k == 0 {
        lemma_leads_nowhere(start, (ledger, trace[0]));
    } else {
        lemma_offers_lead(start, ledger, trace, victims, k - 1);
        let before = (ledger, trace[k - 1]);
        let after = (ledger, trace[k]);
        assert(trace[k - 1 + 1].swept(trace[k - 1], victims[k - 1]));
        assert(moved_alone(ledger, ledger, start, 0));
        assert forall|f: ReadFrameIdx|
            before.1.has(f) && #[trigger] before.1.referenced(f) && !after.1.referenced(
                f,
            ) implies spent(before, after, f) by {
            assert(passed(before.1, after.1, f));
        }
        lemma_leads_one(start, before, after);
        lemma_leads_on(start, (ledger, trace[0]), before, after);
    }
}

/// An eviction of the frame the clock picks.
pub proof fn lemma_victim(start: (Prefetch, Clock), before: Cache, after: Cache, evicted: bool)
    requires
        before.wf(),
        after.victimized(before, evicted),
    ensures
        leads(start, sight(before), sight(after)),
        owes_within(start, sight(before)) ==> owes_within(start, sight(after)),
        quiet(sight(before)) ==> quiet(sight(after)),
{
    before.lemma_facts();
    let (middle, victims) = choose|middle: Cache, victims: Seq<ReadFrameIdx>|
        {
            &&& #[trigger] middle.offered(before, victims)
            &&& 0 < victims.len() <= 2 * before.frame_count() + 1
            &&& forall|k: int|
                0 <= k < victims.len() - 1 ==> !before.evictable(#[trigger] victims[k])
            &&& before.residency.has(victims.last())
            &&& evicted == before.evictable(victims.last())
            &&& if evicted {
                after.unmapped(middle, victims.last())
            } else {
                after == middle && victims.len() == 2 * before.frame_count() + 1
            }
        };
    let trace = choose|trace: Seq<Clock>|
        {
            &&& #[trigger] Clock::offers(trace, victims)
            &&& trace[0] == before.clock
            &&& trace.last() == middle.clock
        };
    lemma_offers_lead(start, before.prefetch, trace, victims, victims.len() as int);
    assert(sight(middle) == (before.prefetch, trace.last()));
    assert(owes_within(start, sight(before)) ==> owes_within(start, sight(middle))) by {
        assert forall|x: Feedback| owes_within(start, sight(before))
            && #[trigger] middle.prefetch.owes(middle.clock, x) implies start.0.owes(
            start.1,
            x,
        ) by {
            if !before.prefetch.queued_feedback().contains(x) {
                let f = choose|f: ReadFrameIdx|
                    f.0 < middle.prefetch.frames() && #[trigger] middle.prefetch.harvest_at(
                        middle.clock,
                        f,
                    ) == Some(x);
                assert(middle.clock.has(f));
                assert(before.prefetch.harvest_at(before.clock, f) == Some(x));
            }
            assert(before.prefetch.owes(before.clock, x));
            assert(sight(before).0.owes(sight(before).1, x));
        }
    }
    assert(quiet(sight(before)) ==> quiet(sight(middle))) by {
        assert forall|f: ReadFrameIdx|
            quiet(sight(before)) && f.0 < middle.prefetch.frames() implies !((
        #[trigger] middle.clock.speculation(f)) is Consumed) by {
            assert(middle.clock.has(f));
            assert(!(before.clock.speculation(f) is Consumed));
        }
    }
    if evicted {
        let frame = victims.last();
        if middle.prefetch.entry_of(frame) is Some {
            lemma_credit_ended(start, sight(middle), sight(after), frame, Terminal::Evicted);
        } else {
            lemma_leads_nowhere(start, sight(after));
        }
        lemma_leads_on(start, sight(before), sight(middle), sight(after));
    }
}

/// Evictions one after the other.
proof fn lemma_evictions_lead(
    start: (Prefetch, Clock),
    trace: Seq<Cache>,
    list: Seq<ReadFrameIdx>,
    k: int,
)
    requires
        Cache::evictions(trace, list),
        owes_within(start, sight(trace[0])),
        0 <= k <= list.len(),
    ensures
        leads(start, sight(trace[0]), sight(trace[k])),
        owes_within(start, sight(trace[k])),
    decreases k,
{
    if k == 0 {
        lemma_leads_nowhere(start, sight(trace[0]));
    } else {
        lemma_evictions_lead(start, trace, list, k - 1);
        assert(trace[k - 1 + 1].unmapped(trace[k - 1], list[k - 1]));
        assert(trace[k - 1].wf());
        lemma_unmapping(start, trace[k - 1], trace[k], list[k - 1]);
        lemma_leads_on(start, sight(trace[0]), sight(trace[k - 1]), sight(trace[k]));
    }
}

/// A retirement sweep.
pub proof fn lemma_evicted_each(
    start: (Prefetch, Clock),
    before: Cache,
    after: Cache,
    list: Seq<ReadFrameIdx>,
)
    requires
        owes_within(start, sight(before)),
        after.evicted_each(before, list),
    ensures
        leads(start, sight(before), sight(after)),
        owes_within(start, sight(after)),
        after.wf(),
{
    let trace = choose|trace: Seq<Cache>|
        {
            &&& #[trigger] Cache::evictions(trace, list)
            &&& trace[0] == before
            &&& trace.last() == after
        };
    lemma_evictions_lead(start, trace, list, list.len() as int);
    assert(trace[trace.len() - 1].wf());
}

/// Abandoned pages go.
proof fn lemma_cleaning_leads(start: (Prefetch, Clock), trace: Seq<Cache>, k: int)
    requires
        Cache::cleaned_all(trace),
        quiet(sight(trace[0])),
        0 <= k < trace.len(),
    ensures
        leads(start, sight(trace[0]), sight(trace[k])),
        quiet(sight(trace[k])),
    decreases k,
{
    if k == 0 {
        lemma_leads_nowhere(start, sight(trace[0]));
    } else {
        lemma_cleaning_leads(start, trace, k - 1);
        assert(trace[k - 1 + 1].cleaned_at(trace[k - 1], k - 1));
        assert(trace[k - 1].wf());
        if trace[k - 1].stale_at(k - 1) {
            lemma_unmapping(
                start,
                trace[k - 1],
                trace[k],
                trace[k - 1].prefetch.entry_at(k - 1)->0.frame,
            );
        } else {
            lemma_leads_nowhere(start, sight(trace[k]));
        }
        lemma_leads_on(start, sight(trace[0]), sight(trace[k - 1]), sight(trace[k]));
    }
}

pub proof fn lemma_without_stale(start: (Prefetch, Clock), before: Cache, after: Cache)
    requires
        quiet(sight(before)),
        after.without_stale(before),
    ensures
        leads(start, sight(before), sight(after)),
        quiet(sight(after)),
{
    let trace = choose|trace: Seq<Cache>|
        {
            &&& #[trigger] Cache::cleaned_all(trace)
            &&& trace.len() == before.prefetch.credits() + 1
            &&& trace[0] == before
            &&& trace.last() == after
        };
    lemma_cleaning_leads(start, trace, trace.len() - 1);
}

/// Frames are evicted toward the reserve.
proof fn lemma_turns_lead(start: (Prefetch, Clock), trace: Seq<Cache>, k: int)
    requires
        Cache::evicted_in_turn(trace),
        quiet(sight(trace[0])),
        0 <= k < trace.len(),
    ensures
        leads(start, sight(trace[0]), sight(trace[k])),
        quiet(sight(trace[k])),
    decreases k,
{
    if k == 0 {
        lemma_leads_nowhere(start, sight(trace[0]));
    } else {
        lemma_turns_lead(start, trace, k - 1);
        assert(trace[k - 1 + 1].victimized(trace[k - 1], true));
        assert(trace[k - 1].wf());
        lemma_victim(start, trace[k - 1], trace[k], true);
        lemma_leads_on(start, sight(trace[0]), sight(trace[k - 1]), sight(trace[k]));
    }
}

/// The reserve takes free frames.
pub proof fn lemma_refilling(start: (Prefetch, Clock), before: Cache, after: Cache)
    requires
        quiet(sight(before)),
        after.refilled(before),
    ensures
        leads(start, sight(before), sight(after)),
        quiet(sight(after)),
{
    lemma_bookkeeping(start, sight(before), sight(after));
}

pub proof fn lemma_topping_up(start: (Prefetch, Clock), before: Cache, after: Cache)
    requires
        quiet(sight(before)),
        after.topped_up(before),
    ensures
        leads(start, sight(before), sight(after)),
        quiet(sight(after)),
{
    if !before.prefetch.is_active() {
        lemma_leads_nowhere(start, sight(before));
    } else {
        let trace = choose|trace: Seq<Cache>|
            {
                &&& #[trigger] Cache::evicted_in_turn(trace)
                &&& 1 <= trace.len() <= trace[0].shortfall() + 1
                &&& trace[0].refilled(before)
                &&& if trace.len() == trace[0].shortfall() + 1 {
                    after == trace.last()
                } else {
                    after.victimized(trace.last(), false)
                }
            };
        lemma_refilling(start, before, trace[0]);
        lemma_turns_lead(start, trace, trace.len() - 1);
        lemma_leads_on(start, sight(before), sight(trace[0]), sight(trace.last()));
        if trace.len() != trace[0].shortfall() + 1 {
            assert(trace[trace.len() - 1].wf());
            lemma_victim(start, trace.last(), after, false);
            lemma_leads_on(start, sight(before), sight(trace.last()), sight(after));
        }
    }
}

/// The result of one read.
pub proof fn lemma_read_routing(
    start: (Prefetch, Clock),
    before: Cache,
    after: Cache,
    i: int,
    mode: IoMode,
    result: Result<u32, IoError>,
)
    requires
        before.wf(),
        before.miss.is_pending(i),
        owes_within(start, sight(before)),
        after.read_routed(before, i, mode, result),
    ensures
        leads(start, sight(before), sight(after)),
        owes_within(start, sight(after)),
{
    before.lemma_facts();
    let entry = before.miss.entry_at(i)->0;
    assert(crate::pool::cache::flight_at(before.residency.frames, entry));
    match verdict(mode, entry, before.granule_bytes() as int, result) {
        ReadOutcome::Filled => {
            lemma_bookkeeping(start, sight(before), sight(after));
            assert forall|x: Feedback| #[trigger] after.prefetch.owes(
                after.clock,
                x,
            ) implies start.0.owes(start.1, x) by {
                if !before.prefetch.queued_feedback().contains(x) {
                    let f = choose|f: ReadFrameIdx|
                        f.0 < after.prefetch.frames() && #[trigger] after.prefetch.harvest_at(
                            after.clock,
                            f,
                        ) == Some(x);
                    assert(after.clock.has(f));
                    assert(before.prefetch.harvest_at(before.clock, f) == Some(x));
                }
                assert(before.prefetch.owes(before.clock, x));
                assert(sight(before).0.owes(sight(before).1, x));
            }
        },
        ReadOutcome::Resumed { filled } => {
            lemma_leads_nowhere(start, sight(before));
        },
        ReadOutcome::Failed { errno } => {
            if before.prefetch.entry_of(entry.frame) is Some {
                lemma_credit_ended(
                    start,
                    sight(before),
                    sight(after),
                    entry.frame,
                    Terminal::Failed,
                );
            } else {
                lemma_leads_nowhere(start, sight(before));
            }
        },
    }
}

/// The results of the first `k` ring slots.
proof fn lemma_routing_leads(start: (Prefetch, Clock), pool: Pool, trace: Seq<Cache>, k: int)
    requires
        pool.cache_steps(trace),
        owes_within(start, sight(pool.cache)),
        0 <= k < trace.len(),
    ensures
        leads(start, sight(pool.cache), sight(trace[k])),
        owes_within(start, sight(trace[k])),
    decreases k,
{
    if k == 0 {
        lemma_leads_nowhere(start, sight(trace[0]));
    } else {
        lemma_routing_leads(start, pool, trace, k - 1);
        let before = trace[k - 1];
        let after = trace[k];
        assert(pool.routes(trace[k - 1], trace[k - 1 + 1], k - 1));
        assert(trace[k - 1].wf());
        match pool.driver.state_at(k - 1) {
            OpState::Finished(Request::Read { .. }, result) => {
                let i = choose|i: int|
                    {
                        &&& #[trigger] before.miss.is_pending(i)
                        &&& before.miss.entry_at(i)->0.token == pool.driver.token_at(k - 1)
                        &&& after.read_routed(
                            before,
                            i,
                            pool.mode_of(before.miss.entry_at(i)->0.page.file),
                            result,
                        )
                    };
                lemma_read_routing(
                    start,
                    before,
                    after,
                    i,
                    pool.mode_of(before.miss.entry_at(i)->0.page.file),
                    result,
                );
            },
            _ => {
                lemma_leads_nowhere(start, sight(after));
            },
        }
        lemma_leads_on(start, sight(pool.cache), sight(before), sight(after));
    }
}

/// A pass over the ring.
pub proof fn lemma_draining(start: (Prefetch, Clock), before: Pool, after: Pool)
    requires
        owes_within(start, sight(before.cache)),
        after.drained(before),
    ensures
        leads(start, sight(before.cache), sight(after.cache)),
        owes_within(start, sight(after.cache)),
{
    let bound = before.driver.capacity() as int;
    let routed = choose|routed: Pool|
        {
            &&& #[trigger] routed.routed_to(before, bound)
            &&& after.cache == routed.cache
        };
    let trace = choose|trace: Seq<Cache>|
        {
            &&& #[trigger] before.cache_steps(trace)
            &&& trace.len() == bound + 1
            &&& trace.last() == routed.cache
        };
    lemma_routing_leads(start, before, trace, bound);
}

/// A stream's request.
pub proof fn lemma_extending(
    start: (Prefetch, Clock),
    before: Pool,
    after: Pool,
    outcome: Admission,
)
    requires
        quiet(sight(before.cache)),
        after.extended(before, outcome),
    ensures
        leads(start, sight(before.cache), sight(after.cache)),
        quiet(sight(after.cache)),
{
    let (turned, page, source, tried) = choose|
        turned: Pool,
        page: PageId,
        source: Source,
        tried: Pool,
    |
        {
            &&& #[trigger] turned.turned_to(before, page, source)
            &&& #[trigger] tried.admission(turned, page, source, outcome)
            &&& after.followed(tried, source->reader, outcome)
        };
    let reader = source->reader as int;
    let zero = sight(before.cache);
    lemma_bookkeeping(start, zero, sight(turned.cache));
    let calm = choose|calm: Pool|
        {
            &&& #[trigger] calm.calmed(turned)
            &&& tried.decided(calm, page, source, outcome)
        };
    assert(calm == turned);
    assert(turned.cache.prefetch.patterns()[reader].prediction(source->reader) == Some(
        (page, source),
    ));
    lemma_deciding(start, turned, tried, page, source, outcome);
    lemma_leads_on(start, zero, sight(turned.cache), sight(tried.cache));
    match outcome {
        Admission::Deferred => {},
        Admission::Obsolete => {},
        _ => {
            assert(tried.cache.prefetch.patterns() == turned.cache.prefetch.patterns());
            assert(asked(tried.cache.prefetch, after.cache.prefetch, reader));
            assert(moved_alone(tried.cache.prefetch, after.cache.prefetch, start, reader));
            lemma_leads_one(start, sight(tried.cache), sight(after.cache));
            lemma_leads_on(start, zero, sight(tried.cache), sight(after.cache));
        },
    }
}

/// What a request comes to.
proof fn lemma_deciding(
    start: (Prefetch, Clock),
    calm: Pool,
    tried: Pool,
    page: PageId,
    source: Source,
    outcome: Admission,
)
    requires
        quiet(sight(calm.cache)),
        source is Automatic,
        source->reader < calm.cache.prefetch.patterns().len(),
        calm.cache.prefetch.patterns()[source->reader as int].prediction(source->reader) == Some(
            (page, source),
        ),
        tried.decided(calm, page, source, outcome),
    ensures
        leads(start, sight(calm.cache), sight(tried.cache)),
        quiet(sight(tried.cache)),
        tried.cache.prefetch.patterns() == calm.cache.prefetch.patterns(),
{
    lemma_leads_nowhere(start, sight(calm.cache));
    if tried != calm {
        let filled = choose|filled: Pool|
            {
                &&& #[trigger] filled.replenished(calm)
                &&& if filled.cache.prefetch.reserved().len() == 0 {
                    outcome is Deferred && tried == filled
                } else if !filled.driver.has_room() {
                    outcome is Deferred && tried.refused(filled)
                } else {
                    outcome is Admitted && tried.speculated(filled, page, source)
                }
            };
        lemma_refilling(start, calm.cache, filled.cache);
        if filled.cache.prefetch.reserved().len() == 0 {
        } else if !filled.driver.has_room() {
            lemma_bookkeeping(start, sight(filled.cache), sight(tried.cache));
            lemma_leads_on(start, sight(calm.cache), sight(filled.cache), sight(tried.cache));
        } else {
            let frame = filled.cache.prefetch.reserved().last();
            let popped = choose|popped: Prefetch|
                {
                    &&& popped.same_books(filled.cache.prefetch)
                    &&& popped.reserved() == filled.cache.prefetch.reserved().drop_last()
                    &&& #[trigger] tried.cache.prefetch.enrolled(popped, page, frame, source)
                };
            let before = (popped, filled.cache.clock);
            let after = sight(tried.cache);
            lemma_bookkeeping(start, sight(filled.cache), before);
            assert(moved_alone(before.0, after.0, start, 0));
            assert forall|f: ReadFrameIdx|
                before.1.has(f) && #[trigger] before.1.referenced(f) && !after.1.referenced(
                    f,
                ) implies spent(before, after, f) by {
                assert(after.1.has(f));
                assert(f == frame);
                assert(after.0.entry_of(f) is Some);
            }
            lemma_leads_one(start, before, after);
            lemma_leads_on(start, sight(calm.cache), sight(filled.cache), before);
            lemma_leads_on(start, sight(calm.cache), before, after);
            assert forall|f: ReadFrameIdx| f.0 < after.0.frames() implies !((
            #[trigger] after.1.speculation(f)) is Consumed) by {
                assert(after.1.has(f));
                assert(!(filled.cache.clock.speculation(f) is Consumed));
            }
        }
    }
}

/// Requests of the streams one after the other.
proof fn lemma_extensions_lead(
    start: (Prefetch, Clock),
    trace: Seq<Pool>,
    outcomes: Seq<Admission>,
    k: int,
)
    requires
        Pool::extended_all(trace, outcomes),
        quiet(sight(trace[0].cache)),
        0 <= k <= outcomes.len(),
    ensures
        leads(start, sight(trace[0].cache), sight(trace[k].cache)),
        quiet(sight(trace[k].cache)),
    decreases k,
{
    if k == 0 {
        lemma_leads_nowhere(start, sight(trace[0].cache));
    } else {
        lemma_extensions_lead(start, trace, outcomes, k - 1);
        assert(trace[k - 1 + 1].extended(trace[k - 1], outcomes[k - 1]));
        lemma_extending(start, trace[k - 1], trace[k], outcomes[k - 1]);
        lemma_leads_on(
            start,
            sight(trace[0].cache),
            sight(trace[k - 1].cache),
            sight(trace[k].cache),
        );
    }
}

/// Steps keep the number of frames and of readers.
pub proof fn lemma_leads_shape(start: (Prefetch, Clock), trace: Seq<(Prefetch, Clock)>, k: int)
    requires
        steps(start, trace),
        0 <= k < trace.len(),
    ensures
        trace[k].0.frames() == trace[0].0.frames(),
        trace[k].1.frame_count() == trace[0].1.frame_count(),
        trace[k].0.patterns().len() == trace[0].0.patterns().len(),
    decreases k,
{
    if k > 0 {
        lemma_leads_shape(start, trace, k - 1);
        assert(step(start, trace[k - 1], trace[k - 1 + 1]));
    }
}

/// The ledger is reconciled, abandoned pages are gone and the reserve is topped
/// up.
proof fn lemma_preparing(start: (Prefetch, Clock), before: Pool, after: Pool)
    requires
        start.0.wf(),
        before.cache.wf(),
        owes_within(start, sight(before.cache)),
        before.cache.prefetch.patterns().len() == start.0.patterns().len(),
        after.prepared(before),
    ensures
        leads(start, sight(before.cache), sight(after.cache)),
        quiet(sight(after.cache)),
{
    let (calm, swept) = choose|calm: Cache, swept: Cache|
        {
            &&& after.same_but_cache(before)
            &&& calm.wf()
            &&& swept.wf()
            &&& calm.same_but_ledger(before.cache)
            &&& calm.wear == before.cache.wear
            &&& #[trigger] calm.prefetch.reconciled(
                before.cache.prefetch,
                before.cache.clock,
                calm.clock,
            )
            &&& #[trigger] swept.without_stale(calm)
            &&& after.cache.topped_up(swept)
        };
    before.cache.lemma_facts();
    lemma_reconciling(start, sight(before.cache), sight(calm));
    lemma_without_stale(start, calm, swept);
    lemma_topping_up(start, swept, after.cache);
    lemma_leads_on(start, sight(before.cache), sight(calm), sight(swept));
    lemma_leads_on(start, sight(before.cache), sight(swept), sight(after.cache));
}

/// A readahead pass.
pub proof fn lemma_reading_ahead(start: (Prefetch, Clock), before: Pool, after: Pool)
    requires
        start.0.wf(),
        before.cache.wf(),
        owes_within(start, sight(before.cache)),
        before.cache.prefetch.patterns().len() == start.0.patterns().len(),
        after.readahead_from(before),
    ensures
        leads(start, sight(before.cache), sight(after.cache)),
        quiet(sight(after.cache)),
{
    if before.cache.prefetch.patterns().len() == 0 {
        lemma_preparing(start, before, after);
    } else {
        let (trace, outcomes) = choose|trace: Seq<Pool>, outcomes: Seq<Admission>|
            {
                &&& #[trigger] Pool::extended_all(trace, outcomes)
                &&& trace[0].prepared(before)
                &&& after.ended_readahead(trace.last(), outcomes)
            };
        lemma_preparing(start, before, trace[0]);
        lemma_extensions_lead(start, trace, outcomes, outcomes.len() as int);
        let last = trace.last();
        lemma_leads_on(start, sight(before.cache), sight(trace[0].cache), sight(last.cache));
        let idle = choose|idle: Pool|
            {
                &&& #[trigger] idle.exhausted(outcomes)
                &&& idle.same_but_cache(last)
                &&& idle.cache.same_accounts(last.cache)
                &&& idle.cache.prefetch.stats() == last.cache.prefetch.stats()
                &&& idle.cache.prefetch.is_active() == last.cache.prefetch.is_active()
                &&& idle.cache.prefetch.cursor() == last.cache.prefetch.cursor()
                &&& after.wound_up(idle, outcomes)
            };
        lemma_bookkeeping(start, sight(last.cache), sight(idle.cache));
        lemma_topping_up(start, idle.cache, after.cache);
        lemma_leads_on(start, sight(before.cache), sight(last.cache), sight(idle.cache));
        lemma_leads_on(start, sight(before.cache), sight(idle.cache), sight(after.cache));
    }
}

/// A poll is made of single steps, and leaves nothing owed.
pub proof fn lemma_polling(before: Pool, after: Pool, reclaimed: int)
    requires
        before.wf(),
        after.polled(before, reclaimed),
    ensures
        leads(sight(before.cache), sight(before.cache), sight(after.cache)),
        quiet(sight(after.cache)),
{
    let start = sight(before.cache);
    before.lemma_facts();
    before.cache.lemma_facts();
    let (ring, backend) = choose|ring: Pool, backend: int|
        {
            &&& #[trigger] ring.ring_pass(before, backend, reclaimed)
            &&& after.upkeep(ring)
        };
    let (drained, taken) = choose|drained: Pool, taken: int|
        {
            &&& #[trigger] drained.drained(before)
            &&& #[trigger] ring.reclaimed_from(drained, taken)
        };
    lemma_draining(start, before, drained);
    assert(sight(ring.cache) == sight(drained.cache));
    let retired = choose|retired: Pool|
        {
            &&& #[trigger] retired.retired_below(ring, ring.files.capacity() as int)
            &&& after.readahead_from(retired)
        };
    lemma_evicted_each(
        start,
        ring.cache,
        retired.cache,
        ring.sweep_order(ring.files.capacity() as int),
    );
    lemma_leads_on(start, start, sight(ring.cache), sight(retired.cache));
    let trace = choose|trace: Seq<(Prefetch, Clock)>|
        {
            &&& #[trigger] steps(start, trace)
            &&& trace[0] == start
            &&& trace.last() == sight(retired.cache)
        };
    lemma_leads_shape(start, trace, trace.len() - 1);
    lemma_reading_ahead(start, retired, after);
    lemma_leads_on(start, start, sight(retired.cache), sight(after.cache));
}

/// Nothing concerns `reader`: it has no prediction out, is owed no feedback and
/// asks for no page.
pub open spec fn unconcerned(now: (Prefetch, Clock), reader: int) -> bool {
    &&& forall|f: ReadFrameIdx|
        f.0 < now.0.frames() && (#[trigger] now.0.entry_of(f)) is Some ==> !issued_for(
            now.0.entry_of(f)->0.source,
            reader,
        )
    &&& forall|x: Feedback| #[trigger] now.0.owes(now.1, x) ==> x.reader != reader
    &&& now.0.patterns()[reader].prediction(reader as u32) is None
}

/// Steps leave a reader alone that nothing concerns.
pub proof fn lemma_left_alone(
    start: (Prefetch, Clock),
    trace: Seq<(Prefetch, Clock)>,
    reader: int,
    k: int,
)
    requires
        steps(start, trace),
        trace[0] == start,
        0 <= reader < start.0.patterns().len(),
        start.0.patterns().len() <= u32::MAX,
        unconcerned(start, reader),
        0 <= k < trace.len(),
    ensures
        trace[k].0.patterns().len() == start.0.patterns().len(),
        trace[k].0.patterns()[reader] == start.0.patterns()[reader],
        trace[k].0.frames() == start.0.frames(),
        forall|f: ReadFrameIdx|
            f.0 < start.0.frames() && (#[trigger] trace[k].0.entry_of(f)) is Some ==> !issued_for(
                trace[k].0.entry_of(f)->0.source,
                reader,
            ),
    decreases k,
{
    if k > 0 {
        lemma_left_alone(start, trace, reader, k - 1);
        let before = trace[k - 1];
        let after = trace[k];
        assert(step(start, before, trace[k - 1 + 1]));
        let r = choose|r: int| #[trigger] moved_alone(before.0, after.0, start, r);
        assert forall|f: ReadFrameIdx|
            f.0 < start.0.frames() && (#[trigger] after.0.entry_of(f)) is Some implies !issued_for(
            after.0.entry_of(f)->0.source,
            reader,
        ) by {
            if after.0.entry_of(f)->0.source is Automatic && before.0.entry_of(f)
                == after.0.entry_of(f) {
                assert(before.0.entry_of(f) is Some);
            }
        }
        if r == reader {
            assert(!forfeited(before.0, after.0, reader)) by {
                if forfeited(before.0, after.0, reader) {
                    let f = choose|f: ReadFrameIdx|
                        {
                            &&& f.0 < before.0.frames()
                            &&& (#[trigger] before.0.entry_of(f)) is Some
                            &&& issued_for(before.0.entry_of(f)->0.source, reader)
                        };
                    assert(before.0.entry_of(f) is Some);
                }
            }
        }
    }
}

/// Step `k` of `trace` spends the second chance of `frame`.
pub open spec fn spent_at(trace: Seq<(Prefetch, Clock)>, k: int, frame: ReadFrameIdx) -> bool {
    0 <= k < trace.len() - 1 && spent(trace[k], trace[k + 1], frame)
}

/// A bit that was set and is clear was cleared by one of the steps.
pub proof fn lemma_spent_somewhere(
    start: (Prefetch, Clock),
    trace: Seq<(Prefetch, Clock)>,
    frame: ReadFrameIdx,
    n: int,
) -> (k: int)
    requires
        steps(start, trace),
        0 <= n < trace.len(),
        trace[0].1.has(frame),
        trace[0].1.referenced(frame),
        !trace[n].1.referenced(frame),
    ensures
        spent_at(trace, k, frame),
    decreases n,
{
    assert(n > 0);
    lemma_leads_shape(start, trace, n - 1);
    assert(step(start, trace[n - 1], trace[n - 1 + 1]));
    if trace[n - 1].1.referenced(frame) {
        n - 1
    } else {
        lemma_spent_somewhere(start, trace, frame, n - 1)
    }
}

} // verus!
