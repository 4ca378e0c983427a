//! Making room: draining the ring, reclaiming matured frames and evicting one
//! victim.

use crate::pool::control::Pool;
use crate::pool::frames::ReadFrameIdx;
use crate::pool::holds::PendingToken;
use crate::pool::prefetch::ledger::WEAR_MAX;
use crate::pool::routing::stages;
use crate::pool::PageId;
use crate::product::WaitState;
use vstd::prelude::*;

verus! {

impl Pool {
    /// No page and no read has been added, and no caller's hold was lost.
    pub open spec fn settles(self, other: Pool) -> bool {
        &&& self.preserves(other)
        &&& self.files == other.files
        &&& self.driver.same_files(other.driver)
        &&& self.lifecycle == other.lifecycle
        &&& self.products.admitted() == other.products.admitted()
        &&& self.cache.interests == other.cache.interests
        &&& self.cache.reads_in_flight <= other.cache.reads_in_flight
        &&& forall|p: PageId| #[trigger] self.cache.pending(p) ==> other.cache.pending(p)
        &&& forall|p: PageId| #[trigger]
            self.cache.mapped(p) ==> other.cache.mapped(p) || other.cache.pending(p)
        &&& forall|i: int|
            0 <= i < other.cache.miss.capacity() && #[trigger] other.cache.miss.reusable(
                other.cache.interests,
                i,
            ) ==> self.cache.miss.reusable(self.cache.interests, i)
    }

    /// Over two steps.
    pub proof fn lemma_settles_again(self, middle: Pool, before: Pool)
        requires
            before.wf(),
            middle.wf(),
            middle.settles(before),
            self.settles(middle),
        ensures
            self.settles(before),
    {
        self.lemma_preserves_again(middle, before);
        before.lemma_facts();
        middle.lemma_facts();
        before.cache.lemma_facts();
        middle.cache.lemma_facts();
        assert forall|p: PageId| #[trigger] self.cache.pending(p) implies before.cache.pending(
            p,
        ) by {
            assert(middle.cache.pending(p));
        }
        assert forall|p: PageId| #[trigger] self.cache.mapped(p) implies before.cache.mapped(p)
            || before.cache.pending(p) by {
            assert(middle.cache.mapped(p) || middle.cache.pending(p));
        }
        assert forall|i: int|
            0 <= i < before.cache.miss.capacity() && #[trigger] before.cache.miss.reusable(
                before.cache.interests,
                i,
            ) implies self.cache.miss.reusable(self.cache.interests, i) by {
            assert(middle.cache.miss.reusable(middle.cache.interests, i));
        }
        assert forall|s: int|
            0 <= s < self.driver.file_capacity() implies #[trigger] self.driver.handle_at(s)
            == before.driver.handle_at(s) by {
            assert(middle.driver.handle_at(s) == before.driver.handle_at(s));
        }
        assert forall|s: int|
            0 <= s < self.driver.file_capacity() implies #[trigger] self.driver.file_generation_at(
            s,
        ) == before.driver.file_generation_at(s) by {
            assert(middle.driver.file_generation_at(s) == before.driver.file_generation_at(s));
        }
    }

    /// A pass over the ring settles.
    #[verifier::rlimit(60)]
    #[verifier::spinoff_prover]
    pub proof fn lemma_drained(self, before: Pool)
        requires
            before.wf(),
            self.wf(),
            self.drained(before),
            self.driver.same_files(before.driver),
            self.same_shape(before),
        ensures
            self.settles(before),
    {
        let n = before.driver.capacity() as int;
        let routed = choose|routed: Pool|
            {
                &&& #[trigger] routed.routed_to(before, n)
                &&& self.cache == routed.cache
                &&& self.files == routed.files
                &&& self.arena == routed.arena
                &&& self.lifecycle == routed.lifecycle
                &&& self.promoted(routed)
                &&& self.wait == routed.wait.woken_times(
                    self.let_go(routed, routed.products@.len() as int),
                )
                &&& forall|s: int|
                    0 <= s < before.driver.capacity() ==> #[trigger] self.slot_promoted(routed, s)
            };
        before.lemma_facts();
        before.cache.lemma_facts();
        before.cache.residency.lemma_facts();
        self.lemma_facts();
        self.cache.lemma_facts();
        self.cache.residency.lemma_facts();
        assert forall|i: int| #[trigger] self.cache.miss.is_pending(i) implies
            before.cache.miss.is_pending(i) && before.cache.miss.entry_at(i)->0.page
            == self.cache.miss.entry_at(i)->0.page by {
            if before.cache.miss.is_pending(i) {
                assert(routed.miss_routed(before, i, n));
            } else {
                assert(self.cache.miss.entry_at(i) == before.cache.miss.entry_at(i));
            }
        }
        assert forall|p: PageId| #[trigger] self.cache.pending(p) implies before.cache.pending(
            p,
        ) by {
            let i = choose|i: int| #[trigger]
                self.cache.miss.is_pending(i) && self.cache.miss.entry_at(i)->0.page == p;
            assert(before.cache.miss.is_pending(i));
        }
        assert forall|p: PageId| #[trigger] self.cache.mapped(p) implies before.cache.mapped(p)
            || before.cache.pending(p) by {
            let f = self.cache.residency.table@[p];
            assert(self.cache.residency.frames.residency(f) is Resident);
            assert(self.cache.residency.frames.page(f) == Some(p));
            if before.cache.residency.frames.residency(f) is InFlight {
                assert(crate::pool::cache::flown(before.cache.miss, f));
                let i = choose|i: int| #[trigger]
                    before.cache.miss.is_pending(i) && before.cache.miss.entry_at(i)->0.frame == f;
                assert(crate::pool::cache::flight_at(
                    before.cache.residency.frames,
                    before.cache.miss.entry_at(i)->0,
                ));
                assert(routed.miss_routed(before, i, n));
            } else {
                assert(routed.same_frame(before, f));
                assert(before.cache.residency.frames.residency(f) is Resident);
            }
        }
        assert forall|i: int|
            0 <= i < before.cache.miss.capacity() && #[trigger] before.cache.miss.reusable(
                before.cache.interests,
                i,
            ) implies self.cache.miss.reusable(self.cache.interests, i) by {
            assert(!before.cache.miss.is_pending(i));
            assert(self.cache.miss.entry_at(i) == before.cache.miss.entry_at(i));
        }
        assert forall|t: PendingToken| #[trigger] before.redeems(t) implies self.redeems(t)
            && self.answers_as(before, t) by {
            let i = t.record().0 as int;
            if before.cache.miss.is_pending(i) {
                assert(routed.miss_routed(before, i, n));
            } else {
                assert(self.cache.miss.entry_at(i) == before.cache.miss.entry_at(i));
                if before.cache.miss.entry_at(i)->0.outcome is Succeeded {
                    before.lemma_arrived(t);
                    assert(routed.same_frame(before, before.cache.miss.entry_at(i)->0.frame));
                }
            }
        }
        assert forall|a: int| #[trigger] before.at_hand(a) implies self.at_hand(a)
            && self.arena.contents(a) == before.arena.contents(a) by {
            if before.written_back(a, n) {
                let s = choose|s: int|
                    0 <= s < n && s < before.driver.capacity() && (
                    #[trigger] before.driver.state_at(s)) is Finished && stages(
                        before.driver.request_at(s),
                        a,
                    );
                assert(stages(before.driver.request_at(s), a));
            }
            assert(self.arena.is_free(a) == before.arena.is_free(a));
            if self.writing(a) {
                let s = choose|s: int|
                    0 <= s < self.driver.capacity() && stages(
                        #[trigger] self.driver.request_at(s),
                        a,
                    );
                self.lemma_no_new_write(before, s);
                assert(stages(before.driver.request_at(s), a));
            }
        }
    }

    /// A pass over the ring starts no write.
    proof fn lemma_no_new_write(self, before: Pool, s: int)
        requires
            before.wf(),
            self.drained(before),
            0 <= s < self.driver.capacity(),
            self.driver.capacity() == before.driver.capacity(),
            self.driver.request_at(s) is Some,
            self.driver.request_at(s)->0 is Write,
        ensures
            self.driver.request_at(s) == before.driver.request_at(s),
    {
        let n = before.driver.capacity() as int;
        let routed = choose|routed: Pool|
            {
                &&& #[trigger] routed.routed_to(before, n)
                &&& forall|t: int|
                    0 <= t < before.driver.capacity() ==> #[trigger] self.slot_promoted(routed, t)
            };
        assert(self.slot_promoted(routed, s));
        assert(routed.slot_routed(before, s, n));
    }

    /// One reclamation pass: final releases and matured frames are free, and
    /// the epoch has advanced where every reader permits it.
    pub open spec fn reclaimed_from(self, other: Pool, taken: int) -> bool {
        &&& self.same_plane(other)
        &&& self.lifecycle == other.lifecycle
        &&& self.cache.reclaimed(other.cache, taken)
        &&& self.wait == (if other.cache.residency.retention.enabled() {
            WaitState { ring_pending: false, ..other.wait }
        } else {
            other.wait
        })
    }

    /// Advances the epoch and frees what no reader can still see.
    pub(crate) fn advance_and_reclaim(&mut self) -> (count: u32)
        requires
            old(self).wf(),
            old(self).cache.wear < WEAR_MAX,
        ensures
            final(self).wf(),
            final(self).settles(*old(self)),
            final(self).cache.wear == old(self).cache.wear + 1,
            exists|taken: int|
                {
                    &&& #[trigger] final(self).reclaimed_from(*old(self), taken)
                    &&& count == old(self).cache.returned(taken).len()
                },
    {
        let ghost before = *self;
        proof {
            before.lemma_facts();
            before.cache.lemma_facts();
            before.cache.residency.lemma_facts();
        }
        let count: u32 = self.cache.advance_and_reclaim(&mut self.wait);
        proof {
            let taken = choose|taken: int|
                {
                    &&& #[trigger] self.cache.reclaimed(before.cache, taken)
                    &&& count == before.cache.returned(taken).len()
                };
            self.lemma_cache_step(before);
            assert(self.reclaimed_from(before, taken));
            assert forall|t: PendingToken| #[trigger] before.redeems(t) implies self.redeems(t)
                && self.answers_as(before, t) by {
                if before.cache.miss.entry_at(t.record().0 as int)->0.outcome is Succeeded {
                    before.lemma_arrived(t);
                }
            }
            assert forall|p: PageId| #[trigger] self.cache.pending(p) implies before.cache.pending(
                p,
            ) by {
                let i = choose|i: int| #[trigger]
                    self.cache.miss.is_pending(i) && self.cache.miss.entry_at(i)->0.page == p;
                assert(before.cache.miss.is_pending(i));
            }
        }
        count
    }

    /// One eviction, if any frame can go.
    pub open spec fn evicted_from(self, other: Pool, evicted: bool) -> bool {
        &&& self.same_plane(other)
        &&& self.lifecycle == other.lifecycle
        &&& self.wait == other.wait
        &&& evicted <==> exists|f: ReadFrameIdx|
            other.cache.residency.has(f) && #[trigger] other.cache.evictable(f)
        &&& self.cache.victimized(other.cache, evicted)
    }

    /// Evicts the first frame the CLOCK hand finds, if any can go.
    #[verifier::rlimit(40)]
    pub(crate) fn evict_one_victim(&mut self) -> (evicted: bool)
        requires
            old(self).wf(),
        ensures
            final(self).wf(),
            final(self).settles(*old(self)),
            final(self).cache.wear == old(self).cache.wear,
            final(self).evicted_from(*old(self), evicted),
    {
        let ghost before = *self;
        proof {
            before.lemma_facts();
            before.cache.lemma_facts();
            before.cache.residency.lemma_facts();
        }
        let evicted: bool = self.cache.evict_one_victim();
        proof {
            if evicted {
                let (middle, victims) = choose|
                    middle: crate::pool::cache::Cache,
                    victims: Seq<ReadFrameIdx>,
                |
                    {
                        &&& #[trigger] middle.offered(before.cache, victims)
                        &&& before.cache.residency.has(victims.last())
                        &&& before.cache.evictable(victims.last())
                        &&& self.cache.unmapped(middle, victims.last())
                    };
                let frame = victims.last();
                assert(self.cache.unmapped(middle, frame));
                assert forall|i: int| #[trigger]
                    self.cache.miss.is_pending(i) <==> before.cache.miss.is_pending(i) by {
                    assert(self.cache.miss.is_pending(i) <==> middle.miss.is_pending(i));
                }
                self.lemma_cache_step(before);
                assert forall|i: int|
                    0 <= i < before.cache.miss.capacity() && #[trigger] before.cache.miss.reusable(
                        before.cache.interests,
                        i,
                    ) implies self.cache.miss.reusable(self.cache.interests, i) by {
                    assert(self.cache.miss.entry_at(i) == middle.miss.entry_at(i)
                        || self.cache.miss.entry_at(i) is None);
                }
                assert forall|t: PendingToken| #[trigger] before.redeems(t) implies self.redeems(t)
                    && self.answers_as(before, t) by {
                    let i = t.record().0 as int;
                    assert(self.cache.miss.entry_at(i) == middle.miss.entry_at(i)
                        || middle.miss.reusable(middle.interests, i));
                    if before.cache.miss.entry_at(i)->0.outcome is Succeeded {
                        before.lemma_arrived(t);
                    }
                }
                assert forall|p: PageId| #[trigger]
                    self.cache.mapped(p) implies before.cache.mapped(p) by {}
            } else {
                self.lemma_cache_step(before);
            }
            assert forall|p: PageId| #[trigger] self.cache.pending(p) implies before.cache.pending(
                p,
            ) by {
                let i = choose|i: int| #[trigger]
                    self.cache.miss.is_pending(i) && self.cache.miss.entry_at(i)->0.page == p;
                assert(before.cache.miss.is_pending(i));
            }
        }
        evicted
    }

    /// How a bounded attempt to find a free frame leaves the pool: at once if
    /// there is one, else after a pass over the ring and one reclamation, else
    /// after one eviction and another reclamation.
    pub open spec fn made_room(self, other: Pool) -> bool {
        if other.cache.free@.len() > 0 {
            self == other
        } else {
            exists|drained: Pool, reclaimed: Pool, taken: int|
                {
                    &&& #[trigger] drained.drained(other)
                    &&& #[trigger] reclaimed.reclaimed_from(drained, taken)
                    &&& if reclaimed.cache.free@.len() > 0 {
                        self == reclaimed
                    } else {
                        self.evicted_and_reclaimed(reclaimed)
                    }
                }
        }
    }

    /// One eviction and one reclamation.
    pub open spec fn evicted_and_reclaimed(self, other: Pool) -> bool {
        exists|victim: Pool, evicted: bool, taken: int|
            {
                &&& #[trigger] victim.evicted_from(other, evicted)
                &&& #[trigger] self.reclaimed_from(victim, taken)
            }
    }

    /// Looks for a free frame, with one bounded reclaim attempt before it
    /// concedes. Tells whether there is one.
    pub(crate) fn claim_frame(&mut self) -> (free: bool)
        requires
            old(self).wf(),
            old(self).cache.wear + old(self).driver.capacity() + 2 <= WEAR_MAX,
        ensures
            final(self).wf(),
            final(self).settles(*old(self)),
            old(self).cache.wear <= final(self).cache.wear <= old(self).cache.wear + old(self).driver.capacity() + 2,
            final(self).made_room(*old(self)),
            free == (final(self).cache.free@.len() > 0),
    {
        let ghost before = *self;
        proof {
            before.lemma_facts();
            before.cache.lemma_facts();
            before.lemma_preserves_itself();
        }
        if self.cache.free.len() > 0 {
            return true;
        }
        let _ = self.drain_completions();
        let ghost drained = *self;
        proof {
            drained.lemma_drained(before);
        }
        let _ = self.advance_and_reclaim();
        let ghost reclaimed = *self;
        let ghost taken = choose|taken: int| #[trigger] reclaimed.reclaimed_from(drained, taken);
        proof {
            reclaimed.lemma_settles_again(drained, before);
            reclaimed.lemma_facts();
            reclaimed.cache.lemma_facts();
        }
        if self.cache.free.len() > 0 {
            return true;
        }
        let evicted: bool = self.evict_one_victim();
        let ghost victim = *self;
        let _ = self.advance_and_reclaim();
        proof {
            let again = choose|again: int| #[trigger] self.reclaimed_from(victim, again);
            self.lemma_facts();
            self.cache.lemma_facts();
            victim.lemma_settles_again(reclaimed, before);
            self.lemma_settles_again(victim, before);
            assert(victim.evicted_from(reclaimed, evicted));
            assert(self.evicted_and_reclaimed(reclaimed));
        }
        self.cache.free.len() > 0
    }
}

} // verus!
