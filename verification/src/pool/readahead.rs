//! Speculative reads: explicit windows and automatic streams.

use crate::driver::{FileId, OpToken};
use crate::pool::cache::Cache;
use crate::pool::control::{attended, file_ok, Pool, EFFORT_MAX};
use crate::pool::frames::ReadFrameIdx;
use crate::pool::holds::PendingToken;
use crate::pool::miss::MissSlot;
use crate::pool::prefetch::ledger::{current, traceable, WEAR_MAX};
use crate::pool::prefetch::pattern::PatternState;
use crate::pool::prefetch::{Admission, PrefetchReport, PrefetchStats, Source};
use crate::pool::PageId;
use vstd::prelude::*;

verus! {

/// How many of the outcomes are `kind`.
pub open spec fn tally(outcomes: Seq<Admission>, kind: Admission) -> int
    decreases outcomes.len(),
{
    if outcomes.len() == 0 {
        0
    } else if outcomes.last() == kind {
        tally(outcomes.drop_last(), kind) + 1
    } else {
        tally(outcomes.drop_last(), kind)
    }
}

impl Pool {
    /// Nothing but the cache differs.
    pub open spec fn same_but_cache(self, other: Pool) -> bool {
        &&& self.same_plane(other)
        &&& self.wait == other.wait
        &&& self.lifecycle == other.lifecycle
    }

    /// A step of the readahead ledger keeps the pool in order and every hold
    /// valid.
    pub(crate) proof fn lemma_ledger_kept(self, before: Pool)
        requires
            before.wf(),
            self.same_plane(before),
            self.cache.wf(),
            self.cache.same_shape(before.cache),
            self.cache.residency == before.cache.residency,
            self.cache.miss == before.cache.miss,
            self.cache.interests == before.cache.interests,
        ensures
            self.wf(),
            self.preserves(before),
    {
        before.lemma_facts();
        before.cache.lemma_facts();
        before.cache.residency.lemma_keeps_itself();
        self.lemma_cache_step(before);
        assert forall|a: int| #[trigger] before.at_hand(a) implies self.at_hand(a) by {
            if self.writing(a) {
                assert(before.writing(a));
            }
        }
    }

    /// Queued feedback has reached its streams.
    pub open spec fn calmed(self, other: Pool) -> bool {
        &&& self.same_but_cache(other)
        &&& self.cache.same_but_ledger(other.cache)
        &&& self.cache.wear == other.cache.wear
        &&& self.cache.prefetch.queued_feedback().len() == 0
        &&& if other.cache.prefetch.queued_feedback().len() == 0 {
            self == other
        } else {
            self.cache.prefetch.reconciled(
                other.cache.prefetch,
                other.cache.clock,
                self.cache.clock,
            )
        }
    }

    /// The reserve has taken free frames up to the spare credits.
    pub open spec fn replenished(self, other: Pool) -> bool {
        self.same_but_cache(other) && self.cache.refilled(other.cache)
    }

    /// A refused submission is counted, and nothing else has changed.
    pub open spec fn refused(self, other: Pool) -> bool {
        &&& self.same_but_cache(other)
        &&& self.cache.same_accounts(other.cache)
        &&& self.cache.prefetch.is_active() == other.cache.prefetch.is_active()
        &&& self.cache.prefetch.cursor() == other.cache.prefetch.cursor()
        &&& self.cache.prefetch.stats() == (PrefetchStats {
            submission_refused: other.cache.prefetch.stats().submission_refused.wrapping_add(1),
            ..other.cache.prefetch.stats()
        })
    }

    /// A speculative read of `page` has started in the frame on top of the
    /// reserve, under a credit.
    pub open spec fn speculated(self, other: Pool, page: PageId, source: Source) -> bool {
        exists|slot: MissSlot, issued: OpToken|
            {
                &&& other.first_record(slot)
                &&& #[trigger] self.began(
                    other,
                    slot,
                    page,
                    other.cache.prefetch.reserved().last(),
                    issued,
                    0,
                )
                &&& self.wait == other.wait
                &&& self.lifecycle == other.lifecycle
                &&& self.cache.wear == other.cache.wear + 2
                &&& self.cache.free == other.cache.free
                &&& self.cache.prefetch.drawn(other.cache.prefetch, page, source)
                &&& self.cache.clock.marked(
                    other.cache.clock,
                    other.cache.prefetch.reserved().last(),
                )
                &&& self.cache.prefetch.reserved() == other.cache.prefetch.reserved().drop_last()
                &&& self.cache.prefetch.patterns() == other.cache.prefetch.patterns()
                &&& self.cache.prefetch.queued_feedback().len() == 0
                &&& self.cache.prefetch.is_active() == other.cache.prefetch.is_active()
                &&& self.cache.prefetch.stats() == (PrefetchStats {
                    admitted: (other.cache.prefetch.stats().admitted + 1) as u64,
                    automatic_admitted: (other.cache.prefetch.stats().automatic_admitted + (
                    if source is Automatic {
                        1int
                    } else {
                        0
                    })) as u64,
                    occupied: (other.cache.prefetch.stats().occupied + 1) as u32,
                    ..other.cache.prefetch.stats()
                })
            }
    }

    /// A credit, a read credit and a miss record are to be had.
    pub open spec fn has_credit(self) -> bool {
        &&& self.cache.prefetch.stats().occupied < self.cache.prefetch.credits()
        &&& self.admits_read()
    }

    /// What a speculative request for `page` comes to, once queued feedback
    /// has been taken in.
    pub open spec fn admission(self, other: Pool, page: PageId, source: Source, outcome: Admission) -> bool {
        exists|calm: Pool|
            {
                &&& #[trigger] calm.calmed(other)
                &&& self.decided(calm, page, source, outcome)
            }
    }

    /// What a speculative request comes to when no feedback is queued: an
    /// abandoned stream's request is obsolete, a dead file's rejected, a
    /// resident or pending page needs none, and the rest is admitted as far as
    /// credits, frames and the ring reach.
    pub open spec fn decided(self, calm: Pool, page: PageId, source: Source, outcome: Admission) -> bool {
        if source is Automatic && !current(source, calm.cache.prefetch.patterns()) {
            outcome is Obsolete && self == calm
        } else if !calm.files.is_live(page.file) {
            outcome is Rejected && self == calm
        } else if calm.cache.mapped(page) {
            outcome is Resident && self == calm
        } else if calm.cache.pending(page) {
            outcome is Pending && self == calm
        } else if !calm.has_credit() {
            outcome is Deferred && self == calm
        } else {
            exists|filled: Pool|
                {
                    &&& #[trigger] filled.replenished(calm)
                    &&& if filled.cache.prefetch.reserved().len() == 0 {
                        outcome is Deferred && self == filled
                    } else if !filled.driver.has_room() {
                        outcome is Deferred && self.refused(filled)
                    } else {
                        outcome is Admitted && self.speculated(filled, page, source)
                    }
                }
        }
    }

    /// Whether an exact file generation is registered and live.
    pub fn file_is_live(&self, file: FileId) -> (live: bool)
        requires
            self.wf(),
        ensures
            live == self.files.is_live(file),
    {
        proof {
            self.lemma_facts();
        }
        if file.driver != self.identity || file.slot >= self.files.len() {
            return false;
        }
        self.files.file_is_live(file)
    }

    /// Admits one speculative request.
    #[verifier::rlimit(80)]
    #[verifier::spinoff_prover]
    pub fn prefetch_admit(&mut self, page: PageId, source: Source) -> (outcome: Admission)
        requires
            old(self).wf(),
            old(self).cache.wear + 3 <= WEAR_MAX,
            traceable(source, page, old(self).cache.prefetch.patterns()),
            source is Explicit ==> page.file.driver == old(self).identity,
        ensures
            final(self).wf(),
            final(self).preserves(*old(self)),
            old(self).cache.wear <= final(self).cache.wear <= old(self).cache.wear + 2,
            final(self).admission(*old(self), page, source, outcome),
            final(self).files == old(self).files,
            final(self).wait == old(self).wait,
            final(self).cache.prefetch.queued_feedback().len() == 0,
            final(self).cache.prefetch.is_active() == old(self).cache.prefetch.is_active(),
    {
        let ghost before = *self;
        proof {
            before.lemma_facts();
            before.cache.lemma_facts();
        }
        self.cache.reconcile_feedback();
        let ghost calm = *self;
        proof {
            calm.lemma_ledger_kept(before);
            calm.lemma_facts();
            calm.cache.lemma_facts();
            assert(calm.calmed(before));
            assert(traceable(source, page, calm.cache.prefetch.patterns()));
        }
        if self.cache.prefetch.source_obsolete(source) {
            return Admission::Obsolete;
        }
        if !self.file_is_live(page.file) {
            return Admission::Rejected;
        }
        proof {
            calm.files.lemma_slot(page.file.slot as int);
            assert(file_ok(calm.files, calm.driver, page.file.slot as int));
            calm.cache.residency.lemma_facts();
        }
        if self.cache.residency.table.lookup(page).is_some() {
            return Admission::Resident;
        }
        if self.cache.miss.find_pending(page).is_some() {
            proof {
                assert(calm.cache.pending(page));
            }
            return Admission::Pending;
        }
        if self.cache.prefetch.available() == 0 {
            return Admission::Deferred;
        }
        if self.cache.reads_in_flight >= self.cache.miss.pending_limit() {
            return Admission::Deferred;
        }
        let slot: MissSlot = match self.cache.miss.admission_slot(&self.cache.interests) {
            Some(slot) => slot,
            None => {
                return Admission::Deferred;
            },
        };
        proof {
            assert(calm.cache.miss.reusable(calm.cache.interests, slot.0 as int));
            assert(calm.has_credit());
        }
        self.cache.fill_reserve();
        let ghost filled = *self;
        proof {
            filled.lemma_ledger_kept(calm);
            filled.lemma_preserves_again(calm, before);
            filled.lemma_facts();
            filled.cache.lemma_facts();
            assert(filled.replenished(calm));
        }
        let frame: ReadFrameIdx = match self.cache.prefetch.reserve_top() {
            Some(frame) => frame,
            None => {
                return Admission::Deferred;
            },
        };
        let issued: OpToken = match self.submit_page_read(page, frame) {
            Some(token) => token,
            None => {
                self.cache.note_refused();
                proof {
                    self.lemma_ledger_kept(filled);
                    self.lemma_preserves_again(filled, before);
                    assert(self.refused(filled));
                }
                return Admission::Deferred;
            },
        };
        let _ = self.cache.begin_speculation(slot, page, issued, source);
        proof {
            self.lemma_began(filled, slot, page, frame, issued, 0);
            self.lemma_preserves_again(filled, before);
            assert(filled.first_record(slot));
            assert(self.began(
                filled,
                slot,
                page,
                filled.cache.prefetch.reserved().last(),
                issued,
                0,
            ));
            assert(self.speculated(filled, page, source));
        }
        Admission::Admitted
    }

    /// A step that only unmaps pages keeps the pool in order and every hold
    /// valid.
    pub(crate) proof fn lemma_shrunk_kept(self, before: Pool)
        requires
            before.wf(),
            self.same_plane(before),
            self.cache.wf(),
            self.cache.same_shape(before.cache),
            self.cache.shrunk(before.cache),
        ensures
            self.wf(),
            self.preserves(before),
    {
        before.lemma_facts();
        before.cache.lemma_facts();
        assert forall|i: int| #[trigger] attended(self.cache, i) implies attended(before.cache, i)
            && self.cache.miss.entry_at(i) == before.cache.miss.entry_at(i) by {
            assert(self.cache.miss.entry_at(i) == before.cache.miss.entry_at(i)
                || self.cache.miss.entry_at(i) is None);
        }
        self.lemma_cache_step(before);
        assert forall|t: PendingToken| #[trigger] before.redeems(t) implies self.redeems(t)
            && self.answers_as(before, t) by {
            let i = t.record().0 as int;
            assert(self.cache.miss.entry_at(i) == before.cache.miss.entry_at(i)
                || before.cache.miss.reusable(before.cache.interests, i));
            if before.cache.miss.entry_at(i)->0.outcome is Succeeded {
                before.lemma_arrived(t);
            }
        }
        assert forall|a: int| #[trigger] before.at_hand(a) implies self.at_hand(a) by {
            if self.writing(a) {
                assert(before.writing(a));
            }
        }
    }

    /// The ledger is reconciled, and the first unused speculative page outside
    /// `protected` is gone, if there is one.
    pub open spec fn evicted_unused(self, other: Pool, protected: Seq<PageId>) -> bool {
        &&& self.same_but_cache(other)
        &&& exists|settled: Cache|
            {
                &&& settled.wf()
                &&& settled.same_but_ledger(other.cache)
                &&& #[trigger] settled.prefetch.reconciled(
                    other.cache.prefetch,
                    other.cache.clock,
                    settled.clock,
                )
                &&& (self.cache == settled && forall|i: int|
                    !(#[trigger] settled.unused_at(protected, i))) || self.took_unused(
                    settled,
                    protected,
                )
            }
    }

    /// The unused page of the lowest credit outside `protected` is gone.
    pub open spec fn took_unused(self, settled: Cache, protected: Seq<PageId>) -> bool {
        exists|i: int|
            {
                &&& #[trigger] settled.unused_at(protected, i)
                &&& forall|k: int| 0 <= k < i ==> !(#[trigger] settled.unused_at(protected, k))
                &&& self.cache.unmapped(settled, settled.prefetch.entry_at(i)->0.frame)
            }
    }

    /// Makes a credit available by evicting an unused page outside `protected`,
    /// if no credit is.
    pub open spec fn replaced(self, other: Pool, protected: Seq<PageId>) -> bool {
        if other.cache.prefetch.stats().occupied < other.cache.prefetch.credits() {
            self == other
        } else {
            self.evicted_unused(other, protected)
        }
    }

    fn prefetch_replace_unused(&mut self, protected: &Vec<PageId>)
        requires
            old(self).wf(),
            old(self).cache.wear < WEAR_MAX,
        ensures
            final(self).wf(),
            final(self).preserves(*old(self)),
            final(self).replaced(*old(self), protected@),
            final(self).files == old(self).files,
            final(self).wait == old(self).wait,
            final(self).cache.wear == old(self).cache.wear,
            final(self).cache.prefetch.is_active() == old(self).cache.prefetch.is_active(),
    {
        let ghost before = *self;
        proof {
            before.lemma_facts();
            before.cache.lemma_facts();
            before.cache.prefetch.lemma_books();
            before.lemma_preserves_itself();
        }
        if self.cache.prefetch.available() == 0 {
            let evicted: bool = self.cache.prefetch_evict_unused(protected);
            proof {
                self.lemma_shrunk_kept(before);
                let settled = choose|settled: Cache|
                    {
                        &&& settled.wf()
                        &&& settled.same_but_ledger(before.cache)
                        &&& #[trigger] settled.prefetch.reconciled(
                            before.cache.prefetch,
                            before.cache.clock,
                            settled.clock,
                        )
                        &&& !evicted ==> self.cache == settled && forall|i: int|
                            !(#[trigger] settled.unused_at(protected@, i))
                        &&& evicted ==> self.took_unused(settled, protected@)
                    };
                assert(settled.prefetch.reconciled(
                    before.cache.prefetch,
                    before.cache.clock,
                    settled.clock,
                ));
            }
        }
    }

    /// An explicit request for `page` in the window `protected`: one attempt,
    /// and a second one after a replacement where the first was deferred.
    pub open spec fn requested(
        self,
        other: Pool,
        page: PageId,
        protected: Seq<PageId>,
        outcome: Admission,
    ) -> bool {
        exists|tried: Pool, first: Admission|
            {
                &&& #[trigger] tried.admission(other, page, Source::Explicit, first)
                &&& if first is Deferred {
                    self.retried(tried, page, protected, outcome)
                } else {
                    self == tried && outcome == first
                }
            }
    }

    /// The second attempt, after a replacement.
    pub open spec fn retried(
        self,
        tried: Pool,
        page: PageId,
        protected: Seq<PageId>,
        outcome: Admission,
    ) -> bool {
        exists|freed: Pool|
            {
                &&& #[trigger] freed.replaced(tried, protected)
                &&& self.admission(freed, page, Source::Explicit, outcome)
            }
    }

    fn prefetch_request(&mut self, page: PageId, protected: &Vec<PageId>) -> (outcome: Admission)
        requires
            old(self).wf(),
            old(self).cache.wear + 8 <= WEAR_MAX,
            page.file.driver == old(self).identity,
        ensures
            final(self).wf(),
            final(self).preserves(*old(self)),
            final(self).requested(*old(self), page, protected@, outcome),
            !(outcome is Obsolete),
            final(self).files == old(self).files,
            final(self).wait == old(self).wait,
            old(self).cache.wear <= final(self).cache.wear <= old(self).cache.wear + 4,
            final(self).cache.prefetch.is_active() == old(self).cache.prefetch.is_active(),
    {
        let ghost before = *self;
        let first: Admission = self.prefetch_admit(page, Source::Explicit);
        let ghost tried = *self;
        proof {
            assert(tried.admission(before, page, Source::Explicit, first));
        }
        if let Admission::Deferred = first {
            self.prefetch_replace_unused(protected);
            let ghost freed = *self;
            let outcome: Admission = self.prefetch_admit(page, Source::Explicit);
            proof {
                freed.lemma_preserves_again(tried, before);
                self.lemma_preserves_again(freed, before);
                assert(freed.replaced(tried, protected@));
                assert(self.retried(tried, page, protected@, outcome));
            }
            outcome
        } else {
            first
        }
    }

    /// The ledger is reconciled and speculation is switched on where there are
    /// credits.
    pub open spec fn engaged(self, other: Pool) -> bool {
        exists|calm: Cache|
            {
                &&& calm.same_but_ledger(other.cache)
                &&& calm.wear == other.cache.wear
                &&& #[trigger] calm.prefetch.reconciled(
                    other.cache.prefetch,
                    other.cache.clock,
                    calm.clock,
                )
                &&& self.same_but_cache(other)
                &&& self.cache.same_accounts(calm)
                &&& self.cache.prefetch.stats() == calm.prefetch.stats()
                &&& self.cache.prefetch.cursor() == calm.prefetch.cursor()
                &&& self.cache.prefetch.is_active() == (other.cache.prefetch.credits() > 0)
            }
    }

    /// The window of `pages` was requested page by page, with these outcomes.
    pub open spec fn requested_all(
        trace: Seq<Pool>,
        pages: Seq<PageId>,
        outcomes: Seq<Admission>,
    ) -> bool {
        &&& trace.len() == outcomes.len() + 1
        &&& outcomes.len() <= pages.len()
        &&& forall|i: int|
            0 <= i < outcomes.len() ==> (#[trigger] trace[i + 1]).requested(
                trace[i],
                pages[i],
                pages,
                outcomes[i],
            )
    }

    /// Requests residency for a bounded prefix of `pages` without creating
    /// guards; the rest of the window is deferred. Unconsumed pages outside
    /// the window may be evicted for it.
    #[verifier::rlimit(60)]
    pub fn prefetch(&mut self, pages: &[PageId]) -> (report: PrefetchReport)
        requires
            old(self).wf(),
            old(self).fit(),
            forall|i: int|
                0 <= i < pages@.len() && i < old(self).cache.prefetch.limit() ==> (
                #[trigger] pages@[i]).file.driver == old(self).identity,
        ensures
            final(self).wf(),
            final(self).preserves(*old(self)),
            old(self).cache.wear <= final(self).cache.wear <= old(self).cache.wear + EFFORT_MAX,
            final(self).prefetched(*old(self), pages@, report),
            report.requested == pages@.len(),
            report.requested == report.resident + report.pending + report.admitted
                + report.deferred + report.rejected,
    {
        let ghost before = *self;
        proof {
            before.lemma_facts();
            before.cache.lemma_facts();
            before.cache.prefetch.lemma_books();
        }
        self.cache.reconcile();
        let ghost calm = *self;
        let capacity: u32 = self.cache.prefetch.capacity();
        self.cache.activate(capacity > 0);
        let ghost start = *self;
        proof {
            calm.lemma_ledger_kept(before);
            start.lemma_ledger_kept(calm);
            start.lemma_preserves_again(calm, before);
            assert(calm.cache.prefetch.reconciled(
                before.cache.prefetch,
                before.cache.clock,
                calm.cache.clock,
            ));
            assert(start.engaged(before));
        }
        let limit: usize = self.cache.prefetch.request_limit();
        let examined: usize = if pages.len() <= limit {
            pages.len()
        } else {
            limit
        };
        let mut window: Vec<PageId> = Vec::new();
        let mut copied: usize = 0;
        while copied < examined
            invariant
                copied <= examined <= pages@.len(),
                window@ == pages@.take(copied as int),
            decreases examined - copied,
        {
            window.push(pages[copied]);
            copied = copied + 1;
            proof {
                assert(pages@.take(copied as int) =~= pages@.take(copied - 1).push(
                    pages@[copied - 1],
                ));
            }
        }
        let mut resident: u64 = 0;
        let mut pending: u64 = 0;
        let mut admitted: u64 = 0;
        let mut deferred: u64 = 0;
        let mut rejected: u64 = 0;
        let ghost mut trace: Seq<Pool> = seq![start];
        let ghost mut outcomes: Seq<Admission> = Seq::empty();
        let mut i: usize = 0;
        while i < examined
            invariant
                i <= examined,
                examined <= u32::MAX,
                examined == window@.len(),
                forall|k: int|
                    0 <= k < window@.len() ==> (#[trigger] window@[k]).file.driver
                        == before.identity,
                self.wf(),
                self.preserves(before),
                before.wf(),
                before.cache.wear + EFFORT_MAX <= WEAR_MAX,
                before.cache.wear <= self.cache.wear <= before.cache.wear + 4 * i,
                self.wait == before.wait,
                self.files == before.files,
                outcomes.len() == i,
                trace.len() == i + 1,
                trace[0] == start,
                trace.last() == *self,
                Pool::requested_all(trace, window@, outcomes),
                resident == tally(outcomes, Admission::Resident),
                pending == tally(outcomes, Admission::Pending),
                admitted == tally(outcomes, Admission::Admitted),
                deferred == tally(outcomes, Admission::Deferred),
                rejected == tally(outcomes, Admission::Rejected),
                resident + pending + admitted + deferred + rejected == i,
            decreases examined - i,
        {
            let ghost middle = *self;
            let outcome: Admission = self.prefetch_request(window[i], &window);
            proof {
                self.lemma_preserves_again(middle, before);
                let grown = outcomes.push(outcome);
                assert(grown.drop_last() =~= outcomes);
                let longer = trace.push(*self);
                assert forall|k: int|
                    0 <= k < grown.len() implies (#[trigger] longer[k + 1]).requested(
                    longer[k],
                    window@[k],
                    window@,
                    grown[k],
                ) by {
                    if k < outcomes.len() {
                        assert(longer[k + 1] == trace[k + 1]);
                        assert(longer[k] == trace[k]);
                    }
                }
                outcomes = grown;
                trace = longer;
            }
            match outcome {
                Admission::Resident => resident = resident + 1,
                Admission::Pending => pending = pending + 1,
                Admission::Admitted => admitted = admitted + 1,
                Admission::Deferred => deferred = deferred + 1,
                Admission::Rejected => rejected = rejected + 1,
                Admission::Obsolete => {},
            }
            i = i + 1;
        }
        let ghost last = *self;
        proof {
            last.lemma_facts();
        }
        let suffix: u64 = (pages.len() - examined) as u64;
        let postponed: u64 = deferred + suffix;
        let report = PrefetchReport {
            requested: pages.len() as u64,
            resident,
            pending,
            admitted,
            deferred: postponed,
            rejected,
        };
        self.cache.note_deferred(postponed);
        if admitted > 0 || postponed > 0 {
            self.wait.wake();
        }
        proof {
            self.lemma_ledger_kept(last);
            self.lemma_preserves_again(last, before);
            assert(window@ =~= before.window(pages@));
            assert(self.noted(last, report));
            assert(start.engaged(before));
            assert(Pool::requested_all(trace, window@, outcomes));
        }
        report
    }

    /// The deferred requests are counted, and admitted or deferred ones wake
    /// the owner loop.
    pub open spec fn noted(self, other: Pool, report: PrefetchReport) -> bool {
        &&& self.same_plane(other)
        &&& self.lifecycle == other.lifecycle
        &&& self.wait == (if report.admitted > 0 || report.deferred > 0 {
            other.wait.woken_once()
        } else {
            other.wait
        })
        &&& self.cache.same_accounts(other.cache)
        &&& self.cache.prefetch.is_active() == other.cache.prefetch.is_active()
        &&& self.cache.prefetch.cursor() == other.cache.prefetch.cursor()
        &&& self.cache.prefetch.stats() == (PrefetchStats {
            deferred: other.cache.prefetch.stats().deferred.wrapping_add(report.deferred),
            ..other.cache.prefetch.stats()
        })
    }

    /// The part of a window that is examined.
    pub open spec fn window(self, pages: Seq<PageId>) -> Seq<PageId> {
        if pages.len() <= self.cache.prefetch.limit() {
            pages
        } else {
            pages.take(self.cache.prefetch.limit() as int)
        }
    }

    /// How an explicit request for a window of pages ends.
    pub open spec fn prefetched(self, other: Pool, pages: Seq<PageId>, report: PrefetchReport) -> bool {
        exists|trace: Seq<Pool>, outcomes: Seq<Admission>|
            {
                &&& #[trigger] Pool::requested_all(trace, other.window(pages), outcomes)
                &&& outcomes.len() == other.window(pages).len()
                &&& trace[0].engaged(other)
                &&& self.noted(trace.last(), report)
                &&& report.resident == tally(outcomes, Admission::Resident)
                &&& report.pending == tally(outcomes, Admission::Pending)
                &&& report.admitted == tally(outcomes, Admission::Admitted)
                &&& report.deferred == tally(outcomes, Admission::Deferred) + pages.len()
                    - outcomes.len()
                &&& report.rejected == tally(outcomes, Admission::Rejected)
            }
    }

    /// The reconciled readahead counters.
    pub fn prefetch_stats(&mut self) -> (stats: PrefetchStats)
        requires
            old(self).wf(),
            old(self).fit(),
        ensures
            final(self).wf(),
            final(self).preserves(*old(self)),
            final(self).same_but_cache(*old(self)),
            final(self).cache.same_but_ledger(old(self).cache),
            final(self).cache.wear == old(self).cache.wear,
            final(self).cache.prefetch.reconciled(
                old(self).cache.prefetch,
                old(self).cache.clock,
                final(self).cache.clock,
            ),
            stats == (PrefetchStats {
                capacity: final(self).cache.prefetch.credits() as u32,
                reserve_free: final(self).cache.prefetch.reserved().len() as u32,
                reads_in_flight: final(self).cache.reads_in_flight,
                ..final(self).cache.prefetch.stats()
            }),
    {
        let ghost before = *self;
        proof {
            before.lemma_facts();
        }
        self.cache.reconcile();
        proof {
            self.lemma_ledger_kept(before);
            self.cache.lemma_facts();
        }
        let books: PrefetchStats = self.cache.prefetch.books();
        PrefetchStats {
            capacity: self.cache.prefetch.capacity(),
            reserve_free: self.cache.prefetch.reserve_len(),
            reads_in_flight: self.cache.reads_in_flight,
            ..books
        }
    }

    /// The ledger is reconciled, abandoned streams have lost their pages, and
    /// the reserve is topped up.
    pub open spec fn prepared(self, other: Pool) -> bool {
        exists|calm: Cache, swept: Cache|
            {
                &&& self.same_but_cache(other)
                &&& calm.wf()
                &&& swept.wf()
                &&& calm.same_but_ledger(other.cache)
                &&& calm.wear == other.cache.wear
                &&& #[trigger] calm.prefetch.reconciled(
                    other.cache.prefetch,
                    other.cache.clock,
                    calm.clock,
                )
                &&& #[trigger] swept.without_stale(calm)
                &&& self.cache.topped_up(swept)
            }
    }

    /// It is `page`'s turn, the next one a stream asks for.
    pub open spec fn turned_to(self, other: Pool, page: PageId, source: Source) -> bool {
        &&& self.same_but_cache(other)
        &&& self.cache.same_accounts(other.cache)
        &&& self.cache.prefetch.stats() == other.cache.prefetch.stats()
        &&& self.cache.prefetch.is_active()
        &&& self.cache.prefetch.next_turn(other.cache.prefetch, Some((page, source)))
    }

    /// What the outcome of a stream's request does to the stream: a rejected
    /// one starts anew, and a served one moves on.
    pub open spec fn followed(self, tried: Pool, reader: u32, outcome: Admission) -> bool {
        match outcome {
            Admission::Deferred => self == tried,
            Admission::Obsolete => self == tried,
            Admission::Rejected => {
                &&& self.same_but_cache(tried)
                &&& self.cache.same_but_ledger(tried.cache)
                &&& self.cache.clock == tried.cache.clock
                &&& self.cache.prefetch.repatterned(
                    tried.cache.prefetch,
                    reader,
                    tried.cache.prefetch.patterns()[reader as int].restarted(PatternState::Empty),
                )
            },
            _ => {
                &&& self.same_but_cache(tried)
                &&& self.cache.same_but_ledger(tried.cache)
                &&& self.cache.clock == tried.cache.clock
                &&& self.cache.prefetch.repatterned(
                    tried.cache.prefetch,
                    reader,
                    tried.cache.prefetch.patterns()[reader as int].advanced(),
                )
            },
        }
    }

    /// One request of a stream, with its outcome.
    pub open spec fn extended(self, other: Pool, outcome: Admission) -> bool {
        exists|turned: Pool, page: PageId, source: Source, tried: Pool|
            {
                &&& #[trigger] turned.turned_to(other, page, source)
                &&& #[trigger] tried.admission(turned, page, source, outcome)
                &&& self.followed(tried, source->reader, outcome)
            }
    }

    /// No stream asks for a page.
    pub open spec fn no_predictions(self) -> bool {
        forall|r: u32|
            r < self.cache.prefetch.patterns().len() ==> (
            #[trigger] self.cache.prefetch.patterns()[r as int]).prediction(r) is None
    }

    /// Requests the next page of a stream, if any stream asks for one.
    #[verifier::rlimit(60)]
    #[verifier::spinoff_prover]
    fn prefetch_extend(&mut self) -> (outcome: Option<Admission>)
        requires
            old(self).wf(),
            old(self).cache.prefetch.patterns().len() > 0,
            old(self).cache.wear + 8 <= WEAR_MAX,
        ensures
            final(self).wf(),
            final(self).preserves(*old(self)),
            final(self).wait == old(self).wait,
            final(self).files == old(self).files,
            old(self).cache.wear <= final(self).cache.wear <= old(self).cache.wear + 3,
            final(self).cache.prefetch.patterns().len() == old(self).cache.prefetch.patterns().len(),
            match outcome {
                Some(result) => final(self).extended(*old(self), result),
                None => {
                    &&& old(self).no_predictions()
                    &&& final(self).no_predictions()
                    &&& final(self).same_but_cache(*old(self))
                    &&& final(self).cache.same_accounts(old(self).cache)
                    &&& final(self).cache.prefetch.stats() == old(self).cache.prefetch.stats()
                    &&& final(self).cache.prefetch.is_active()
                        == old(self).cache.prefetch.is_active()
                    &&& final(self).cache.prefetch.cursor() == old(self).cache.prefetch.cursor()
                },
            },
    {
        let ghost before = *self;
        proof {
            before.lemma_facts();
            before.lemma_preserves_itself();
        }
        let request: (PageId, Source) = match self.cache.next_request() {
            Some(request) => request,
            None => {
                proof {
                    self.lemma_ledger_kept(before);
                }
                return None;
            },
        };
        let page: PageId = request.0;
        let source: Source = request.1;
        let ghost asked = *self;
        self.cache.activate(true);
        let ghost turned = *self;
        proof {
            asked.lemma_ledger_kept(before);
            turned.lemma_ledger_kept(asked);
            turned.lemma_preserves_again(asked, before);
            assert(turned.turned_to(before, page, source));
            assert(traceable(source, page, turned.cache.prefetch.patterns()));
        }
        let outcome: Admission = self.prefetch_admit(page, source);
        let ghost tried = *self;
        proof {
            assert(tried.admission(turned, page, source, outcome));
            tried.lemma_preserves_again(turned, before);
            tried.lemma_facts();
        }
        let reader: u32 = match source {
            Source::Automatic { reader, .. } => reader,
            Source::Explicit => 0,
        };
        match outcome {
            Admission::Deferred => {},
            Admission::Obsolete => {},
            Admission::Rejected => {
                self.cache.reset_reader(reader);
                proof {
                    self.lemma_ledger_kept(tried);
                    self.lemma_preserves_again(tried, before);
                }
            },
            _ => {
                proof {
                    tried.lemma_stream_kept(turned, page, source, outcome);
                }
                self.cache.issued(reader, page);
                proof {
                    self.lemma_ledger_kept(tried);
                    self.lemma_preserves_again(tried, before);
                }
            },
        }
        proof {
            assert(self.followed(tried, reader, outcome));
            assert(self.extended(before, outcome));
        }
        Some(outcome)
    }

    /// A stream whose request was served still asks for that page.
    proof fn lemma_stream_kept(self, turned: Pool, page: PageId, source: Source, outcome: Admission)
        requires
            self.admission(turned, page, source, outcome),
            source is Automatic,
            source->reader < turned.cache.prefetch.patterns().len(),
            turned.cache.prefetch.patterns()[source->reader as int].prediction(source->reader)
                == Some((page, source)),
            !(outcome is Obsolete),
            !(outcome is Rejected),
            !(outcome is Deferred),
        ensures
            source->reader < self.cache.prefetch.patterns().len(),
            self.cache.prefetch.patterns()[source->reader as int].state is Streaming,
            page == (PageId {
                file: self.cache.prefetch.patterns()[source->reader as int].state->demand.file,
                granule_idx: self.cache.prefetch.patterns()[source->reader as int].state->next,
            }),
    {
        let r = source->reader as int;
        let calm = choose|calm: Pool|
            {
                &&& #[trigger] calm.calmed(turned)
                &&& self.decided(calm, page, source, outcome)
            };
        assert(current(source, calm.cache.prefetch.patterns()));
        assert(self.cache.prefetch.patterns() == calm.cache.prefetch.patterns());
    }

    /// The streams' requests, one after the other, with these outcomes; none
    /// but the last is deferred.
    pub open spec fn extended_all(trace: Seq<Pool>, outcomes: Seq<Admission>) -> bool {
        &&& trace.len() == outcomes.len() + 1
        &&& forall|i: int|
            0 <= i < outcomes.len() ==> (#[trigger] trace[i + 1]).extended(trace[i], outcomes[i])
        &&& forall|i: int| 0 <= i < outcomes.len() - 1 ==> !((#[trigger] outcomes[i]) is Deferred)
    }

    /// The streams have asked as long as there were requests and credits, and
    /// at most once per credit.
    pub open spec fn exhausted(self, outcomes: Seq<Admission>) -> bool {
        &&& outcomes.len() <= self.cache.prefetch.credits()
        &&& {
            ||| outcomes.len() == self.cache.prefetch.credits()
            ||| outcomes.len() > 0 && outcomes.last() is Deferred
            ||| self.no_predictions()
        }
    }

    /// The reserve is topped up again, and admitted reads wake the owner loop.
    pub open spec fn wound_up(self, other: Pool, outcomes: Seq<Admission>) -> bool {
        &&& self.same_plane(other)
        &&& self.lifecycle == other.lifecycle
        &&& self.cache.topped_up(other.cache)
        &&& self.wait == (if tally(outcomes, Admission::Admitted) > 0 {
            other.wait.woken_once()
        } else {
            other.wait
        })
    }

    /// One readahead pass.
    pub open spec fn readahead_from(self, other: Pool) -> bool {
        if other.cache.prefetch.patterns().len() == 0 {
            self.prepared(other)
        } else {
            exists|trace: Seq<Pool>, outcomes: Seq<Admission>|
                {
                    &&& #[trigger] Pool::extended_all(trace, outcomes)
                    &&& trace[0].prepared(other)
                    &&& self.ended_readahead(trace.last(), outcomes)
                }
        }
    }

    /// The end of a readahead pass whose requests left the pool as `other`.
    pub open spec fn ended_readahead(self, other: Pool, outcomes: Seq<Admission>) -> bool {
        exists|idle: Pool|
            {
                &&& #[trigger] idle.exhausted(outcomes)
                &&& idle.same_but_cache(other)
                &&& idle.cache.same_accounts(other.cache)
                &&& idle.cache.prefetch.stats() == other.cache.prefetch.stats()
                &&& idle.cache.prefetch.is_active() == other.cache.prefetch.is_active()
                &&& idle.cache.prefetch.cursor() == other.cache.prefetch.cursor()
                &&& self.wound_up(idle, outcomes)
            }
    }

    /// Extends the confirmed streams.
    #[verifier::rlimit(80)]
    #[verifier::spinoff_prover]
    pub(crate) fn progress_prefetch(&mut self)
        requires
            old(self).wf(),
            old(self).cache.wear + 8 + 3 * old(self).cache.prefetch.credits() <= WEAR_MAX,
        ensures
            final(self).wf(),
            final(self).preserves(*old(self)),
            final(self).files == old(self).files,
            old(self).cache.wear <= final(self).cache.wear <= old(self).cache.wear + 3 * old(self).cache.prefetch.credits(),
            final(self).readahead_from(*old(self)),
    {
        let ghost before = *self;
        proof {
            before.lemma_facts();
            before.cache.lemma_facts();
            before.cache.prefetch.lemma_books();
        }
        self.cache.reconcile();
        let ghost calm = *self;
        self.cache.prefetch_evict_obsolete();
        let ghost swept = *self;
        self.cache.prefetch_top_up();
        let ghost start = *self;
        proof {
            calm.lemma_ledger_kept(before);
            swept.lemma_shrunk_kept(calm);
            start.lemma_shrunk_kept(swept);
            swept.lemma_preserves_again(calm, before);
            start.lemma_preserves_again(swept, before);
            assert(calm.cache.prefetch.reconciled(
                before.cache.prefetch,
                before.cache.clock,
                calm.cache.clock,
            ));
            assert(swept.cache.without_stale(calm.cache));
            assert(start.prepared(before));
            start.lemma_facts();
            start.cache.lemma_facts();
        }
        if self.cache.prefetch.pattern_count() == 0 {
            return;
        }
        let credits: u32 = self.cache.prefetch.capacity();
        let mut admitted: u32 = 0;
        let mut going: bool = true;
        let mut turns: u32 = 0;
        let ghost mut trace: Seq<Pool> = seq![start];
        let ghost mut outcomes: Seq<Admission> = Seq::empty();
        let ghost mut reached: Pool = start;
        while turns < credits && going
            invariant
                before.wf(),
                self.wf(),
                start.prepared(before),
                self.preserves(before),
                self.wait == before.wait,
                self.files == before.files,
                credits == before.cache.prefetch.credits(),
                before.cache.wear + 8 + 3 * credits <= WEAR_MAX,
                before.cache.wear <= self.cache.wear <= before.cache.wear + 3 * turns,
                self.cache.prefetch.patterns().len() == before.cache.prefetch.patterns().len(),
                self.cache.prefetch.patterns().len() > 0,
                turns <= credits,
                outcomes.len() <= turns,
                going ==> outcomes.len() == turns,
                trace.len() == outcomes.len() + 1,
                trace[0] == start,
                trace.last() == reached,
                Pool::extended_all(trace, outcomes),
                admitted == tally(outcomes, Admission::Admitted),
                admitted <= turns,
                going ==> *self == reached,
                going ==> forall|i: int|
                    0 <= i < outcomes.len() ==> !((#[trigger] outcomes[i]) is Deferred),
                !going ==> self.exhausted(outcomes),
                self.same_but_cache(reached),
                self.cache.same_accounts(reached.cache),
                self.cache.prefetch.stats() == reached.cache.prefetch.stats(),
                self.cache.prefetch.is_active() == reached.cache.prefetch.is_active(),
                self.cache.prefetch.cursor() == reached.cache.prefetch.cursor(),
            decreases credits - turns + (if going {
                1int
            } else {
                0
            }),
        {
            let ghost middle = *self;
            match self.prefetch_extend() {
                None => {
                    going = false;
                    proof {
                        self.lemma_preserves_again(middle, before);
                    }
                },
                Some(outcome) => {
                    proof {
                        self.lemma_preserves_again(middle, before);
                        let grown = outcomes.push(outcome);
                        assert(grown.drop_last() =~= outcomes);
                        let longer = trace.push(*self);
                        assert forall|k: int|
                            0 <= k < grown.len() implies (#[trigger] longer[k + 1]).extended(
                            longer[k],
                            grown[k],
                        ) by {
                            if k < outcomes.len() {
                                assert(longer[k + 1] == trace[k + 1]);
                                assert(longer[k] == trace[k]);
                            }
                        }
                        outcomes = grown;
                        trace = longer;
                        reached = *self;
                    }
                    if let Admission::Admitted = outcome {
                        admitted = admitted + 1;
                    }
                    if let Admission::Deferred = outcome {
                        going = false;
                    }
                    turns = turns + 1;
                },
            }
        }
        let ghost idle = *self;
        proof {
            idle.lemma_facts();
            assert(idle.exhausted(outcomes));
        }
        self.cache.prefetch_top_up();
        if admitted > 0 {
            self.wait.wake();
        }
        proof {
            self.lemma_shrunk_kept(idle);
            self.lemma_preserves_again(idle, before);
            assert(self.wound_up(idle, outcomes));
            assert(self.ended_readahead(trace.last(), outcomes));
            assert(Pool::extended_all(trace, outcomes));
        }
    }
}

} // verus!
