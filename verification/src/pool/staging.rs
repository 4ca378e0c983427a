//! Product operations: staged writes and durability barriers.

use crate::driver::{FileHandle, FileId, OpKind, OpToken, Request, SyncMode};
use crate::pool::control::{
    awaited_product, awaits_of, file_ok, lemma_after_submit, lemma_files_after_submit,
    lemma_reads_after_submit, served, staged, staging_of, Pool,
};
use crate::pool::product_ops::{ProductOp, ProductOpSlot};
use crate::pool::routing::stages;
use crate::product::{token_of, PoolSubmitError, PoolToken, PoolWriteArena, PoolWriteSlot};
use vstd::prelude::*;

verus! {

impl Pool {
    /// The window onto this pool's staging slots.
    pub fn write_arena(&self) -> (window: PoolWriteArena)
        ensures
            window == (PoolWriteArena {
                pool_identity: self.identity,
                enabled_slots: self.write_slots,
            }),
    {
        PoolWriteArena { pool_identity: self.identity, enabled_slots: self.write_slots }
    }

    /// Everything but the staging arena is as in `other`.
    pub open spec fn same_but_arena(self, other: Pool) -> bool {
        &&& self.cache == other.cache
        &&& self.files == other.files
        &&& self.products == other.products
        &&& self.driver == other.driver
        &&& self.wait == other.wait
        &&& self.lifecycle == other.lifecycle
        &&& self.write_slots == other.write_slots
        &&& self.identity == other.identity
    }

    /// Leases the lowest free staging slot among the enabled ones.
    pub fn lease_write_slot(&mut self) -> (slot: Option<PoolWriteSlot>)
        requires
            old(self).wf(),
        ensures
            final(self).wf(),
            final(self).preserves(*old(self)),
            final(self).same_but_arena(*old(self)),
            slot is Some <==> exists|i: int|
                0 <= i < old(self).arena.slot_count() && i < old(self).write_slots && #[trigger] old(self).arena.is_free(i),
            match slot {
                Some(leased) => {
                    &&& leased.slot.index() < old(self).write_slots
                    &&& final(self).arena.leased(old(self).arena, leased.slot)
                    &&& final(self).stages(leased)
                },
                None => *final(self) == *old(self),
            },
    {
        let ghost before = *self;
        proof {
            before.lemma_facts();
            before.lemma_preserves_itself();
        }
        let window: PoolWriteArena = self.write_arena();
        let slot: Option<PoolWriteSlot> = window.lease(&mut self.arena);
        proof {
            if slot is Some {
                let a = slot->0.slot.index() as int;
                assert forall|s: int| 0 <= s < self.driver.capacity() implies staged(
                    self.arena,
                    #[trigger] self.driver.request_at(s),
                ) by {
                    assert(staged(before.arena, before.driver.request_at(s)));
                }
                self.lemma_whole();
                assert forall|b: int| #[trigger] before.at_hand(b) implies self.at_hand(b) by {
                    assert(!self.arena.is_free(b));
                    if self.writing(b) {
                        assert(before.writing(b));
                    }
                }
                if self.writing(a) {
                    let s = choose|s: int|
                        0 <= s < self.driver.capacity() && stages(
                            #[trigger] self.driver.request_at(s),
                            a,
                        );
                    assert(staged(before.arena, before.driver.request_at(s)));
                }
                assert(!self.arena.is_free(a));
            }
        }
        slot
    }

    /// Writes bytes into a leased staging slot.
    pub fn fill_write_slot(&mut self, slot: &PoolWriteSlot, offset: u32, bytes: &[u8])
        requires
            old(self).wf(),
            old(self).stages(*slot),
            offset + bytes@.len() <= old(self).arena.granule_bytes(),
        ensures
            final(self).wf(),
            final(self).same_shape(*old(self)),
            final(self).same_but_arena(*old(self)),
            final(self).stages(*slot),
            forall|i: int|
                0 <= i < old(self).arena.slot_count() ==> #[trigger] final(self).arena.is_free(i)
                    == old(self).arena.is_free(i),
            forall|i: int|
                0 <= i < old(self).arena.slot_count() ==> #[trigger] final(self).arena.contents(i)
                    == (if i == slot.slot.index() {
                    crate::pool::frames::overwritten(
                        old(self).arena.contents(i),
                        offset as int,
                        bytes@,
                    )
                } else {
                    old(self).arena.contents(i)
                }),
    {
        let ghost before = *self;
        proof {
            before.lemma_facts();
        }
        self.arena.write(&slot.slot, offset, bytes);
        proof {
            assert forall|s: int| 0 <= s < self.driver.capacity() implies staged(
                self.arena,
                #[trigger] self.driver.request_at(s),
            ) by {
                assert(staged(before.arena, before.driver.request_at(s)));
            }
            self.lemma_whole();
            assert(!self.arena.is_free(slot.slot.index() as int));
            if self.writing(slot.slot.index() as int) {
                assert(before.writing(slot.slot.index() as int));
            }
        }
    }

    /// Gives an unsubmitted staging slot back.
    pub fn return_write_slot(&mut self, slot: PoolWriteSlot)
        requires
            old(self).wf(),
            old(self).stages(slot),
        ensures
            final(self).wf(),
            final(self).same_shape(*old(self)),
            final(self).same_but_arena(*old(self)),
            forall|i: int|
                0 <= i < old(self).arena.slot_count() ==> #[trigger] final(self).arena.is_free(i)
                    == (old(self).arena.is_free(i) || i == slot.slot.index()),
            forall|i: int|
                0 <= i < old(self).arena.slot_count() ==> #[trigger] final(self).arena.contents(i)
                    == old(self).arena.contents(i),
    {
        let ghost before = *self;
        proof {
            before.lemma_facts();
        }
        let ghost a = slot.slot.index() as int;
        let _ = self.arena.release(slot.slot.slot());
        proof {
            assert forall|s: int| 0 <= s < self.driver.capacity() implies staged(
                self.arena,
                #[trigger] self.driver.request_at(s),
            ) by {
                assert(staged(before.arena, before.driver.request_at(s)));
                if stages(before.driver.request_at(s), a) {
                    assert(before.writing(a));
                }
            }
            self.lemma_whole();
        }
    }

    /// A write of staging slot `staging` to `file` is admitted under `token`.
    pub open spec fn admitted_write(
        self,
        other: Pool,
        file: FileId,
        staging: u32,
        offset: u64,
        token: PoolToken,
    ) -> bool {
        exists|k: int, issued: OpToken|
            {
                &&& #[trigger] other.products.is_vacancy(k)
                &&& token == token_of(k as u32, (other.products@[k].generation + 1) as u32)
                &&& self.products.admitted() == other.products.admitted() + 1
                &&& self.products@ == other.products@.update(
                    k,
                    ProductOpSlot {
                        generation: (other.products@[k].generation + 1) as u32,
                        operation: Some(
                            ProductOp::Write {
                                token,
                                driver_token: issued,
                                file,
                                order: (other.products.admitted() + 1) as u64,
                            },
                        ),
                    },
                )
                &&& #[trigger] self.driver.submitted(
                    other.driver,
                    issued,
                    Request::Write { file, slot: staging, offset },
                )
            }
    }

    /// Admits a positional write of a staging slot. A refusal hands the slot
    /// back unchanged.
    #[verifier::rlimit(40)]
    pub fn submit_write(&mut self, file: FileId, slot: PoolWriteSlot, offset: u64) -> (outcome:
        Result<PoolToken, (PoolSubmitError, PoolWriteSlot)>)
        requires
            old(self).wf(),
            slot.pool_identity == old(self).identity ==> old(self).stages(slot)
                && old(self).files.addresses(file),
            old(self).products.can_mint(),
        ensures
            final(self).wf(),
            final(self).same_shape(*old(self)),
            outcome is Ok <==> {
                &&& slot.pool_identity == old(self).identity
                &&& old(self).files.is_live(file)
                &&& !old(self).products.is_full()
                &&& old(self).driver.has_room()
            },
            match outcome {
                Ok(token) => {
                    &&& final(self).cache == old(self).cache
                    &&& final(self).files == old(self).files
                    &&& final(self).arena == old(self).arena
                    &&& final(self).lifecycle == old(self).lifecycle
                    &&& final(self).wait == old(self).wait.woken_once()
                    &&& final(self).admitted_write(
                        *old(self),
                        file,
                        slot.slot.index(),
                        offset,
                        token,
                    )
                    &&& forall|a: int| #[trigger]
                        old(self).at_hand(a) && a != slot.slot.index() ==> final(self).at_hand(a)
                },
                Err((error, kept)) => {
                    &&& *final(self) == *old(self)
                    &&& kept == slot
                    &&& error == (if slot.pool_identity != old(self).identity {
                        PoolSubmitError::ForeignPool
                    } else if !old(self).files.is_live(file) {
                        PoolSubmitError::StaleFile { file }
                    } else {
                        PoolSubmitError::Full
                    })
                },
            },
    {
        let ghost before = *self;
        proof {
            before.lemma_facts();
        }
        if slot.pool_identity != self.identity {
            return Err((PoolSubmitError::ForeignPool, slot));
        }
        proof {
            before.files.lemma_slot(file.slot as int);
            assert(file_ok(before.files, before.driver, file.slot as int));
        }
        let handle: FileHandle = match self.files.live_file_handle(file) {
            Ok(handle) => handle,
            Err(error) => {
                return Err((error, slot));
            },
        };
        let index: u32 = match self.products.vacancy() {
            Some(index) => index,
            None => {
                return Err((PoolSubmitError::Full, slot));
            },
        };
        let staging: u32 = slot.slot.slot();
        let issued: OpToken = match self.driver.submit_write(&handle, staging, offset) {
            Ok(token) => token,
            Err(_) => {
                return Err((PoolSubmitError::Full, slot));
            },
        };
        proof {
            assert(before.products.is_vacancy(index as int));
        }
        let token: PoolToken = self.products.begin_write(index, issued, file);
        self.wait.wake();
        proof {
            self.lemma_write_admitted(before, index as int, issued, file, staging, offset);
            assert(before.products.is_vacancy(index as int));
            assert(self.driver.submitted(
                before.driver,
                issued,
                Request::Write { file, slot: staging, offset },
            ));
            assert(self.admitted_write(before, file, staging, offset, token));
            assert forall|a: int| #[trigger] before.at_hand(a) && a
                != staging implies self.at_hand(a) by {
                if self.writing(a) {
                    let s = choose|s: int|
                        0 <= s < self.driver.capacity() && stages(
                            #[trigger] self.driver.request_at(s),
                            a,
                        );
                    lemma_after_submit(
                        before.driver,
                        self.driver,
                        issued,
                        Request::Write { file, slot: staging, offset },
                    );
                    assert(s != issued.slot);
                    assert(stages(before.driver.request_at(s), a));
                }
            }
        }
        Ok(token)
    }

    /// Admitting a write keeps the pool in order.
    proof fn lemma_write_admitted(
        self,
        before: Pool,
        k: int,
        issued: OpToken,
        file: FileId,
        staging: u32,
        offset: u64,
    )
        requires
            before.wf(),
            before.files.backs(file),
            before.at_hand(staging as int),
            self.cache == before.cache,
            self.files == before.files,
            self.arena == before.arena,
            self.write_slots == before.write_slots,
            self.identity == before.identity,
            self.products.wf(),
            self.driver.wf(),
            0 <= k < before.products@.len(),
            before.products@[k].operation is None,
            self.products@.len() == before.products@.len(),
            self.products@[k].operation is Some,
            self.products@[k].operation->0 is Write,
            self.products@[k].operation->0.target() == file,
            self.products@[k].operation->0.awaits() == Some((issued, OpKind::Write)),
            forall|l: int|
                0 <= l < before.products@.len() && l != k ==> #[trigger] self.products@[l]
                    == before.products@[l],
            self.driver.submitted(
                before.driver,
                issued,
                Request::Write { file, slot: staging, offset },
            ),
        ensures
            self.wf(),
            self.same_shape(before),
    {
        before.lemma_facts();
        let request = Request::Write { file, slot: staging, offset };
        lemma_after_submit(before.driver, self.driver, issued, request);
        lemma_files_after_submit(before.files, before.driver, self.driver, issued, request);
        lemma_reads_after_submit(
            before.driver,
            self.driver,
            before.cache.miss,
            before.cache.granule_bytes() as int,
            issued,
            request,
        );
        assert forall|l: int| 0 <= l < self.products@.len() implies served(
            self.driver,
            (#[trigger] self.products@[l]).operation,
        ) by {
            if l != k {
                assert(served(before.driver, before.products@[l].operation));
                if let Some((t, kind)) = awaits_of(before.products@[l].operation) {
                    assert(before.driver.live(t));
                }
            }
        }
        assert forall|s: int|
            0 <= s < self.driver.capacity() && (#[trigger] self.driver.request_at(s)) is Some && !(
            self.driver.request_at(s)->0 is Read) implies awaited_product(
            self.driver,
            self.products,
            s,
        ) by {
            if s == issued.slot {
                assert(awaits_of(self.products@[k].operation) == Some((issued, OpKind::Write)));
            } else {
                assert(before.driver.request_at(s) is Some);
                assert(awaited_product(before.driver, before.products, s));
                let l = choose|l: int|
                    0 <= l < before.products@.len() && awaits_of(
                        (#[trigger] before.products@[l]).operation,
                    ) == Some((before.driver.token_at(s), before.driver.request_at(s)->0.sort()));
                assert(l != k);
                assert(self.products@[l] == before.products@[l]);
            }
        }
        assert forall|l: int, m: int|
            0 <= l < self.products@.len() && 0 <= m < self.products@.len() && awaits_of(
                (#[trigger] self.products@[l]).operation,
            ) is Some && awaits_of(self.products@[l].operation) == awaits_of(
                (#[trigger] self.products@[m]).operation,
            ) implies l == m by {
            if l != k {
                assert(served(before.driver, before.products@[l].operation));
            }
            if m != k {
                assert(served(before.driver, before.products@[m].operation));
            }
        }
        assert forall|s: int| 0 <= s < self.driver.capacity() implies staged(
            self.arena,
            #[trigger] self.driver.request_at(s),
        ) by {
            if s != issued.slot {
                assert(staged(before.arena, before.driver.request_at(s)));
            }
        }
        assert forall|s: int, t: int|
            0 <= s < self.driver.capacity() && 0 <= t < self.driver.capacity() && staging_of(
                #[trigger] self.driver.request_at(s),
            ) is Some && staging_of(self.driver.request_at(s)) == staging_of(
                #[trigger] self.driver.request_at(t),
            ) implies s == t by {
            if s != issued.slot && t != issued.slot {
                assert(before.driver.request_at(s) == self.driver.request_at(s));
                assert(before.driver.request_at(t) == self.driver.request_at(t));
            } else if s != t {
                let other = if s == issued.slot {
                    t
                } else {
                    s
                };
                assert(stages(before.driver.request_at(other), staging as int));
                assert(before.writing(staging as int));
            }
        }
        assert forall|l: int|
            0 <= l < self.products@.len() && (#[trigger] self.products@[l]).operation
                is Some implies self.files.backs(self.products@[l].operation->0.target()) by {
            if l != k {
                assert(before.products@[l].operation is Some);
            }
        }
        self.lemma_whole();
    }

    /// A barrier for `file` waits behind the writes admitted so far.
    pub open spec fn admitted_barrier(self, other: Pool, file: FileId, token: PoolToken) -> bool {
        exists|k: int|
            {
                &&& #[trigger] other.products.is_vacancy(k)
                &&& token == token_of(k as u32, (other.products@[k].generation + 1) as u32)
                &&& self.products.admitted() == other.products.admitted() + 1
                &&& self.products@ == other.products@.update(
                    k,
                    ProductOpSlot {
                        generation: (other.products@[k].generation + 1) as u32,
                        operation: Some(
                            ProductOp::FsyncHeld {
                                token,
                                file,
                                order: (other.products.admitted() + 1) as u64,
                            },
                        ),
                    },
                )
                &&& self.cache == other.cache
                &&& self.files == other.files
                &&& self.driver == other.driver
                &&& self.arena == other.arena
                &&& self.wait == other.wait
                &&& self.lifecycle == other.lifecycle
                &&& self.write_slots == other.write_slots
                &&& self.identity == other.identity
            }
    }

    /// A barrier for `file` is admitted, every barrier that can go is in the
    /// ring, and a waiter is woken for each of these and for the admission.
    pub open spec fn barred(self, other: Pool, file: FileId, token: PoolToken) -> bool {
        exists|held: Pool|
            {
                &&& #[trigger] held.admitted_barrier(other, file, token)
                &&& self.promoted(held)
                &&& self.wait == other.wait.woken_times(
                    self.let_go(held, held.products@.len() as int) + 1,
                )
            }
    }

    /// Admits a durability barrier behind the writes already admitted for the
    /// same file, and submits it once they all have their results.
    #[verifier::rlimit(40)]
    pub fn submit_fsync(&mut self, file: FileId, mode: SyncMode) -> (outcome: Result<
        PoolToken,
        PoolSubmitError,
    >)
        requires
            old(self).wf(),
            old(self).files.addresses(file),
            old(self).products.can_mint(),
        ensures
            final(self).wf(),
            final(self).same_shape(*old(self)),
            outcome is Ok <==> old(self).files.is_live(file) && !old(self).products.is_full(),
            match outcome {
                Ok(token) => {
                    &&& final(self).preserves(*old(self))
                    &&& final(self).cache == old(self).cache
                    &&& final(self).files == old(self).files
                    &&& final(self).arena == old(self).arena
                    &&& final(self).lifecycle == old(self).lifecycle
                    &&& final(self).barred(*old(self), file, token)
                },
                Err(error) => {
                    &&& *final(self) == *old(self)
                    &&& error == (if old(self).files.is_live(file) {
                        PoolSubmitError::Full
                    } else {
                        PoolSubmitError::StaleFile { file }
                    })
                },
            },
    {
        let ghost before = *self;
        proof {
            before.lemma_facts();
            before.files.lemma_slot(file.slot as int);
            assert(file_ok(before.files, before.driver, file.slot as int));
        }
        if let Err(error) = self.files.live_file_handle(file) {
            return Err(error);
        }
        let index: u32 = match self.products.vacancy() {
            Some(index) => index,
            None => {
                return Err(PoolSubmitError::Full);
            },
        };
        proof {
            assert(before.products.is_vacancy(index as int));
        }
        let token: PoolToken = self.products.begin_fsync(index, file);
        let ghost held = *self;
        proof {
            held.lemma_barrier_admitted(before, index as int, file);
            assert(held.admitted_barrier(before, file, token));
        }
        self.submit_held_fsyncs();
        let ghost sent = *self;
        self.wait.wake();
        proof {
            sent.lemma_facts();
            self.lemma_whole();
            before.lemma_preserves_itself();
            self.lemma_let_go_below(sent, held, held.products@.len() as int);
            assert(held.admitted_barrier(before, file, token));
            assert forall|a: int| #[trigger] before.at_hand(a) implies self.at_hand(a) by {
                if self.writing(a) {
                    let s = choose|s: int|
                        0 <= s < self.driver.capacity() && stages(
                            #[trigger] self.driver.request_at(s),
                            a,
                        );
                    if before.driver.state_at(s) is Vacant {
                        let state = self.driver.state_at(s);
                        assert(state is Vacant || state is Submitted && state->Submitted_0
                            is Fsync);
                    } else {
                        assert(self.driver.state_at(s) == before.driver.state_at(s));
                    }
                    assert(stages(before.driver.request_at(s), a));
                }
            }
        }
        assert(self.preserves(before));
        assert(self.barred(before, file, token));
        Ok(token)
    }

    /// Holding a barrier back keeps the pool in order.
    proof fn lemma_barrier_admitted(self, before: Pool, k: int, file: FileId)
        requires
            before.wf(),
            before.files.backs(file),
            self.cache == before.cache,
            self.files == before.files,
            self.driver == before.driver,
            self.arena == before.arena,
            self.write_slots == before.write_slots,
            self.identity == before.identity,
            self.products.wf(),
            0 <= k < before.products@.len(),
            before.products@[k].operation is None,
            self.products@.len() == before.products@.len(),
            self.products@[k].operation is Some,
            self.products@[k].operation->0 is FsyncHeld,
            self.products@[k].operation->0.target() == file,
            forall|l: int|
                0 <= l < before.products@.len() && l != k ==> #[trigger] self.products@[l]
                    == before.products@[l],
        ensures
            self.wf(),
            self.same_shape(before),
    {
        before.lemma_facts();
        assert forall|l: int| 0 <= l < self.products@.len() implies served(
            self.driver,
            (#[trigger] self.products@[l]).operation,
        ) by {
            if l != k {
                assert(served(before.driver, before.products@[l].operation));
            }
        }
        assert forall|s: int|
            0 <= s < self.driver.capacity() && (#[trigger] self.driver.request_at(s)) is Some && !(
            self.driver.request_at(s)->0 is Read) implies awaited_product(
            self.driver,
            self.products,
            s,
        ) by {
            assert(awaited_product(before.driver, before.products, s));
            let l = choose|l: int|
                0 <= l < before.products@.len() && awaits_of(
                    (#[trigger] before.products@[l]).operation,
                ) == Some((before.driver.token_at(s), before.driver.request_at(s)->0.sort()));
            assert(l != k);
            assert(self.products@[l] == before.products@[l]);
        }
        assert forall|l: int, m: int|
            0 <= l < self.products@.len() && 0 <= m < self.products@.len() && awaits_of(
                (#[trigger] self.products@[l]).operation,
            ) is Some && awaits_of(self.products@[l].operation) == awaits_of(
                (#[trigger] self.products@[m]).operation,
            ) implies l == m by {
            assert(l != k && m != k);
        }
        assert forall|l: int|
            0 <= l < self.products@.len() && (#[trigger] self.products@[l]).operation
                is Some implies self.files.backs(self.products@[l].operation->0.target()) by {
            if l != k {
                assert(before.products@[l].operation is Some);
            }
        }
        self.lemma_whole();
    }
}

} // verus!
