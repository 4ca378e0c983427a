//! Polling: results are routed and delivered, frames reclaimed, retirements
//! and readahead advanced.

use crate::pool::control::{awaited_product, awaits_of, served, Pool, EFFORT_MAX};
use crate::pool::prefetch::ledger::WEAR_MAX;
use crate::pool::product_ops::ProductOps;
use crate::pool::routing::finished_below;
use crate::product::{PollReport, PoolCompletion, PoolCompletionBatch, WaitState};
use vstd::prelude::*;

verus! {

impl Pool {
    /// Everything but the product operations is as in `other`.
    pub open spec fn same_but_products(self, other: Pool) -> bool {
        &&& self.cache == other.cache
        &&& self.files == other.files
        &&& self.driver == other.driver
        &&& self.arena == other.arena
        &&& self.wait == other.wait
        &&& self.lifecycle == other.lifecycle
        &&& self.write_slots == other.write_slots
        &&& self.identity == other.identity
    }

    /// Clearing completed operations keeps the pool in order.
    pub(crate) proof fn lemma_cleared(self, before: Pool, n: int)
        requires
            before.wf(),
            self.same_but_products(before),
            self.products.wf(),
            self.products@ == ProductOps::cleared(before.products@, n),
        ensures
            self.wf(),
            self.preserves(before),
    {
        before.lemma_facts();
        assert forall|k: int| 0 <= k < self.products@.len() implies served(
            self.driver,
            (#[trigger] self.products@[k]).operation,
        ) by {
            assert(served(before.driver, before.products@[k].operation));
        }
        assert forall|s: int|
            0 <= s < self.driver.capacity() && (#[trigger] self.driver.request_at(s)) is Some && !(
            self.driver.request_at(s)->0 is Read) implies awaited_product(
            self.driver,
            self.products,
            s,
        ) by {
            assert(awaited_product(before.driver, before.products, s));
            let k = choose|k: int|
                0 <= k < before.products@.len() && awaits_of(
                    (#[trigger] before.products@[k]).operation,
                ) == Some((before.driver.token_at(s), before.driver.request_at(s)->0.sort()));
            assert(self.products@[k] == before.products@[k]);
        }
        assert forall|k: int, l: int|
            0 <= k < self.products@.len() && 0 <= l < self.products@.len() && awaits_of(
                (#[trigger] self.products@[k]).operation,
            ) is Some && awaits_of(self.products@[k].operation) == awaits_of(
                (#[trigger] self.products@[l]).operation,
            ) implies k == l by {
            assert(self.products@[k] == before.products@[k]);
            assert(self.products@[l] == before.products@[l]);
        }
        assert forall|k: int|
            0 <= k < self.products@.len() && (#[trigger] self.products@[k]).operation
                is Some implies self.files.backs(self.products@[k].operation->0.target()) by {
            assert(before.products@[k].operation is Some);
        }
        self.lemma_whole();
        before.lemma_preserves_itself();
        assert forall|a: int| #[trigger] before.at_hand(a) implies self.at_hand(a) by {
            if self.writing(a) {
                assert(before.writing(a));
            }
        }
    }

    /// The results of the first `passed` operation slots have moved to the end
    /// of the batch.
    pub open spec fn delivered(
        self,
        other: Pool,
        out: PoolCompletionBatch,
        before: PoolCompletionBatch,
    ) -> bool {
        exists|passed: int|
            {
                &&& 0 <= passed <= other.products@.len()
                &&& self.same_but_products(other)
                &&& self.products.admitted() == other.products.admitted()
                &&& self.products@ == #[trigger] ProductOps::cleared(other.products@, passed)
                &&& out@ == before@ + ProductOps::results(other.products@, passed)
                &&& passed < other.products@.len() ==> out@.len() == out.room()
            }
    }

    /// Moves product results into the caller's batch, in slot order, as many
    /// as fit.
    pub(crate) fn deliver_product_completions(&mut self, out: &mut PoolCompletionBatch)
        requires
            old(self).wf(),
            old(out).wf(),
        ensures
            final(self).wf(),
            final(self).preserves(*old(self)),
            final(out).wf(),
            final(out).room() == old(out).room(),
            final(self).delivered(*old(self), *final(out), *old(out)),
    {
        let ghost before = *self;
        let ghost batch = *out;
        proof {
            before.lemma_facts();
        }
        let passed: u32 = self.products.deliver(out);
        proof {
            self.lemma_cleared(before, passed as int);
            assert(self.products@ == ProductOps::cleared(before.products@, passed as int));
        }
    }

    /// The results in the ring are routed and matured frames reclaimed.
    pub open spec fn ring_pass(self, other: Pool, backend: int, reclaimed: int) -> bool {
        exists|drained: Pool, taken: int|
            {
                &&& #[trigger] drained.drained(other)
                &&& drained.settles(other)
                &&& #[trigger] self.reclaimed_from(drained, taken)
                &&& self.settles(drained)
                &&& reclaimed == drained.cache.returned(taken).len()
                &&& backend == finished_below(other.driver, other.driver.capacity() as int)
            }
    }

    /// Retirements and streams have advanced.
    pub open spec fn upkeep(self, other: Pool) -> bool {
        exists|retired: Pool|
            {
                &&& #[trigger] retired.retired_below(other, other.files.capacity() as int)
                &&& self.readahead_from(retired)
                &&& self.preserves(retired)
            }
    }

    fn pass_over_ring(&mut self) -> (counts: (u32, u32))
        requires
            old(self).wf(),
            old(self).cache.wear + old(self).driver.capacity() + 1 <= WEAR_MAX,
        ensures
            final(self).wf(),
            final(self).settles(*old(self)),
            old(self).cache.wear <= final(self).cache.wear <= old(self).cache.wear + old(self).driver.capacity() + 1,
            final(self).ring_pass(*old(self), counts.0 as int, counts.1 as int),
    {
        let ghost before = *self;
        let backend: u32 = self.drain_completions();
        let ghost drained = *self;
        proof {
            drained.lemma_drained(before);
        }
        let reclaimed: u32 = self.advance_and_reclaim();
        proof {
            self.lemma_settles_again(drained, before);
            let taken = choose|taken: int|
                {
                    &&& #[trigger] self.reclaimed_from(drained, taken)
                    &&& reclaimed == drained.cache.returned(taken).len()
                };
            assert(drained.drained(before));
            assert(self.reclaimed_from(drained, taken));
        }
        (backend, reclaimed)
    }

    fn pass_over_upkeep(&mut self)
        requires
            old(self).wf(),
            old(self).cache.wear + 8 + 3 * old(self).cache.prefetch.credits() <= WEAR_MAX,
        ensures
            final(self).wf(),
            final(self).preserves(*old(self)),
            final(self).upkeep(*old(self)),
            old(self).cache.wear <= final(self).cache.wear <= old(self).cache.wear + 3 * old(self).cache.prefetch.credits(),
    {
        let ghost before = *self;
        self.progress_retirements();
        let ghost retired = *self;
        self.progress_prefetch();
        proof {
            self.lemma_preserves_again(retired, before);
            assert(retired.retired_below(before, before.files.capacity() as int));
        }
    }

    /// How a poll leaves the pool.
    pub open spec fn polled(self, other: Pool, reclaimed: int) -> bool {
        exists|passed: Pool, backend: int|
            {
                &&& #[trigger] passed.ring_pass(other, backend, reclaimed)
                &&& self.upkeep(passed)
            }
    }

    /// One pass: routes every result in the ring, reclaims matured frames, and
    /// advances retirements and streams. Tells how many frames were reclaimed.
    pub fn poll(&mut self) -> (reclaimed: u32)
        requires
            old(self).wf(),
            old(self).fit(),
        ensures
            final(self).wf(),
            final(self).preserves(*old(self)),
            old(self).cache.wear <= final(self).cache.wear <= old(self).cache.wear + EFFORT_MAX,
            final(self).polled(*old(self), reclaimed as int),
    {
        let ghost before = *self;
        proof {
            before.lemma_facts();
            before.cache.lemma_facts();
            before.driver.lemma_capacity();
            before.cache.prefetch.lemma_books();
        }
        let counts: (u32, u32) = self.pass_over_ring();
        let ghost passed = *self;
        self.pass_over_upkeep();
        proof {
            self.lemma_preserves_again(passed, before);
            assert(passed.ring_pass(before, counts.0 as int, counts.1 as int));
        }
        counts.1
    }

    /// How a poll that delivers results leaves the pool and the batch.
    pub open spec fn reported(
        self,
        other: Pool,
        out: PoolCompletionBatch,
        empty: PoolCompletionBatch,
        report: PollReport,
    ) -> bool {
        exists|passed: Pool, delivered: Pool, kept: Pool|
            {
                &&& #[trigger] passed.ring_pass(
                    other,
                    report.backend as int,
                    report.reclaimed as int,
                )
                &&& #[trigger] delivered.delivered(passed, out, empty)
                &&& #[trigger] kept.upkeep(delivered)
                &&& self.acknowledged(kept, report.backend > 0 || report.reclaimed > 0 || out@.len()
                    > 0)
            }
    }

    /// The pool, with its wakeups consumed where the pass made progress.
    pub open spec fn acknowledged(self, other: Pool, progress: bool) -> bool {
        &&& self.cache == other.cache
        &&& self.same_plane(other)
        &&& self.lifecycle == other.lifecycle
        &&& self.wait == (if progress {
            WaitState { consumed: other.wait.current, ..other.wait }
        } else {
            other.wait
        })
    }

    /// One pass that also delivers product results into `out`, as many as it
    /// holds.
    pub fn poll_report(&mut self, out: &mut PoolCompletionBatch) -> (report: PollReport)
        requires
            old(self).wf(),
            old(self).fit(),
            old(out).wf(),
        ensures
            final(self).wf(),
            final(self).preserves(*old(self)),
            old(self).cache.wear <= final(self).cache.wear <= old(self).cache.wear + EFFORT_MAX,
            final(out).wf(),
            final(out).room() == old(out).room(),
            exists|empty: PoolCompletionBatch|
                {
                    &&& empty@ == Seq::<PoolCompletion>::empty()
                    &&& #[trigger] final(self).reported(*old(self), *final(out), empty, report)
                },
    {
        let ghost before = *self;
        proof {
            before.lemma_facts();
            before.cache.lemma_facts();
            before.driver.lemma_capacity();
            before.cache.prefetch.lemma_books();
        }
        out.reset();
        let ghost empty = *out;
        let counts: (u32, u32) = self.pass_over_ring();
        let ghost passed = *self;
        self.deliver_product_completions(out);
        let ghost delivered = *self;
        self.pass_over_upkeep();
        let ghost kept = *self;
        let backend: u32 = counts.0;
        let reclaimed: u32 = counts.1;
        let report = PollReport::new(backend, reclaimed);
        if backend > 0 || reclaimed > 0 || out.iter().len() > 0 {
            self.wait.consume_current();
        }
        proof {
            kept.lemma_facts();
            self.lemma_whole();
            delivered.lemma_preserves_again(passed, before);
            kept.lemma_preserves_again(delivered, before);
            assert forall|a: int| #[trigger] before.at_hand(a) implies self.at_hand(a)
                && self.arena.contents(a) == before.arena.contents(a) by {
                assert(kept.at_hand(a));
                if self.writing(a) {
                    assert(kept.writing(a));
                }
            }
            assert(passed.ring_pass(before, report.backend as int, report.reclaimed as int));
            assert(delivered.delivered(passed, *out, empty));
            assert(kept.upkeep(delivered));
            assert(self.reported(before, *out, empty, report));
        }
        report
    }
}

} // verus!
