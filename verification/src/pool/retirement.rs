//! The life of a file in the pool: registration, leases and retirement.

use crate::driver::{Driver, FileHandle, FileId, HandleState, IoMode};
use crate::pool::cache::Cache;
use crate::pool::config::ResidentLeaseError;
use crate::pool::control::{attended, file_ok, served, Pool};
use crate::pool::files::{LeaseState, PoolFile, PoolFileState, ResidentFileLease};
use crate::pool::frames::{FrameState, ReadFrameIdx};
use crate::pool::holds::PendingToken;
use crate::pool::PageId;
use crate::product::RetireStatus;
use vstd::prelude::*;

verus! {

/// A change of file slots that touches no operation leaves the ring matched.
proof fn lemma_same_ring(self_driver: Driver, other: Driver, slot: int)
    requires
        self_driver.same_files_except(other, slot),
    ensures
        forall|s: int|
            0 <= s < other.capacity() ==> #[trigger] self_driver.request_at(s)
                == other.request_at(s),
        forall|s: int|
            0 <= s < other.capacity() ==> #[trigger] self_driver.token_at(s) == other.token_at(s),
{
    assert forall|s: int|
        0 <= s < other.capacity() implies #[trigger] self_driver.request_at(s) == other.request_at(
        s,
    ) by {
        assert(self_driver.state_at(s) == other.state_at(s));
    }
    assert forall|s: int|
        0 <= s < other.capacity() implies #[trigger] self_driver.token_at(s) == other.token_at(
        s,
    ) by {
        assert(self_driver.generation_at(s) == other.generation_at(s));
    }
}

impl Pool {
    /// Only file slot `slot` has changed, in the registry and in the driver.
    pub open spec fn same_but_file(self, other: Pool, slot: int) -> bool {
        &&& self.cache == other.cache
        &&& self.products == other.products
        &&& self.arena == other.arena
        &&& self.wait == other.wait
        &&& self.lifecycle == other.lifecycle
        &&& self.write_slots == other.write_slots
        &&& self.identity == other.identity
        &&& self.files.same_except(other.files, slot)
        &&& self.driver.same_files_except(other.driver, slot)
    }

    /// A step of one file slot keeps the pool in order, as long as every user
    /// of the slot's file keeps its handle.
    #[verifier::rlimit(40)]
    pub(crate) proof fn lemma_file_step(self, before: Pool, slot: int)
        requires
            before.wf(),
            0 <= slot < before.files.capacity(),
            self.products == before.products,
            self.arena == before.arena,
            self.write_slots == before.write_slots,
            self.identity == before.identity,
            self.cache == before.cache,
            self.files.wf(),
            self.driver.wf(),
            self.files.same_except(before.files, slot),
            self.driver.same_files_except(before.driver, slot),
            file_ok(self.files, self.driver, slot),
            forall|file: FileId| #[trigger]
                before.files.backs(file) && file.slot == slot && before.in_use(file)
                    ==> self.files.backs(file),
        ensures
            self.wf(),
            self.same_shape(before),
    {
        before.lemma_facts();
        before.cache.lemma_facts();
        lemma_same_ring(self.driver, before.driver, slot);
        assert forall|s: int| 0 <= s < self.files.capacity() implies #[trigger] file_ok(
            self.files,
            self.driver,
            s,
        ) by {
            if s != slot {
                assert(file_ok(before.files, before.driver, s));
                assert(self.files.entry_at(s) == before.files.entry_at(s));
                assert(self.driver.handle_at(s) == before.driver.handle_at(s));
                assert(self.driver.file_generation_at(s) == before.driver.file_generation_at(s));
            }
        }
        assert forall|file: FileId| #[trigger]
            before.files.backs(file) && before.in_use(file) implies self.files.backs(file) by {
            if file.slot != slot {
                assert(self.files.entry_at(file.slot as int) == before.files.entry_at(
                    file.slot as int,
                ));
            }
        }
        assert forall|i: int| #[trigger] self.cache.miss.is_pending(i) implies self.files.backs(
            self.cache.miss.entry_at(i)->0.page.file,
        ) by {
            let file = self.cache.miss.entry_at(i)->0.page.file;
            assert(before.files.backs(file));
            assert(before.cache.miss.live_for(before.cache.interests, file, i));
            assert(before.in_use(file));
        }
        assert forall|i: int| #[trigger] attended(self.cache, i) implies self.files.backs(
            self.cache.miss.entry_at(i)->0.page.file,
        ) by {
            let file = self.cache.miss.entry_at(i)->0.page.file;
            assert(attended(before.cache, i));
            assert(before.files.backs(file));
            before.cache.miss.lemma_entry(i);
            assert(before.cache.miss.live_for(before.cache.interests, file, i));
            assert(before.in_use(file));
        }
        assert forall|k: int|
            0 <= k < self.products@.len() && (#[trigger] self.products@[k]).operation
                is Some implies self.files.backs(self.products@[k].operation->0.target()) by {
            let file = self.products@[k].operation->0.target();
            assert(before.files.backs(file));
            assert(before.products.uses_at(k, file));
            assert(before.in_use(file));
        }
        assert forall|f: ReadFrameIdx|
            self.cache.residency.has(f) && #[trigger] self.cache.residency.frames.published(
                f,
            ) implies self.files.backs(self.cache.residency.frames.page(f)->0.file) by {
            let file = self.cache.residency.frames.page(f)->0.file;
            assert(before.files.backs(file));
            assert(before.cache.frame_of(file, f));
            assert(before.in_use(file));
        }
        self.lemma_ring_kept(before, slot);
        self.lemma_whole();
    }

    /// The ring's side of a file step.
    pub(crate) proof fn lemma_ring_kept(self, before: Pool, slot: int)
        requires
            before.wf(),
            self.driver.wf(),
            self.cache == before.cache,
            self.products == before.products,
            self.arena == before.arena,
            self.driver.same_files_except(before.driver, slot),
        ensures
            crate::pool::control::reads_ok(
                self.driver,
                self.cache.miss,
                self.cache.granule_bytes() as int,
            ),
            crate::pool::control::products_ok(self.driver, self.products),
            crate::pool::control::staging_ok(self.driver, self.arena),
            forall|a: int| #[trigger] before.at_hand(a) ==> self.at_hand(a),
    {
        before.lemma_facts();
        lemma_same_ring(self.driver, before.driver, slot);
        assert forall|t: crate::driver::OpToken| #[trigger] before.driver.live(
            t,
        ) implies self.driver.live(t) by {
            assert(self.driver.state_at(t.slot as int) == before.driver.state_at(t.slot as int));
            assert(self.driver.generation_at(t.slot as int) == before.driver.generation_at(
                t.slot as int,
            ));
        }
        assert forall|i: int| #[trigger] self.cache.miss.is_pending(i) implies self.driver.live(
            self.cache.miss.entry_at(i)->0.token,
        ) by {
            assert(before.driver.live(before.cache.miss.entry_at(i)->0.token));
        }
        assert forall|s: int|
            0 <= s < self.driver.capacity() && (#[trigger] self.driver.request_at(s)) is Some
                && self.driver.request_at(s)->0 is Read implies crate::pool::control::awaited_read(
            self.driver,
            self.cache.miss,
            s,
        ) by {
            assert(crate::pool::control::awaited_read(before.driver, before.cache.miss, s));
            assert(self.driver.token_at(s) == before.driver.token_at(s));
        }
        assert forall|s: int| 0 <= s < self.driver.capacity() implies
            crate::pool::control::sound_result(#[trigger] self.driver.state_at(s)) by {
            assert(crate::pool::control::sound_result(before.driver.state_at(s)));
            assert(self.driver.state_at(s) == before.driver.state_at(s));
        }
        assert forall|k: int| 0 <= k < self.products@.len() implies served(
            self.driver,
            (#[trigger] self.products@[k]).operation,
        ) by {
            assert(served(before.driver, before.products@[k].operation));
        }
        assert forall|s: int|
            0 <= s < self.driver.capacity() && (#[trigger] self.driver.request_at(s)) is Some && !(
            self.driver.request_at(s)->0 is Read) implies crate::pool::control::awaited_product(
            self.driver,
            self.products,
            s,
        ) by {
            assert(crate::pool::control::awaited_product(before.driver, before.products, s));
            assert(self.driver.token_at(s) == before.driver.token_at(s));
        }
        assert forall|s: int| 0 <= s < self.driver.capacity() implies
            crate::pool::control::staged(self.arena, #[trigger] self.driver.request_at(s)) by {
            assert(crate::pool::control::staged(before.arena, before.driver.request_at(s)));
        }
        assert forall|s: int, t: int|
            0 <= s < self.driver.capacity() && 0 <= t < self.driver.capacity()
                && crate::pool::control::staging_of(#[trigger] self.driver.request_at(s)) is Some
                && crate::pool::control::staging_of(self.driver.request_at(s))
                == crate::pool::control::staging_of(
                #[trigger] self.driver.request_at(t),
            ) implies s == t by {
            assert(before.driver.request_at(s) == self.driver.request_at(s));
            assert(before.driver.request_at(t) == self.driver.request_at(t));
        }
        assert forall|a: int| #[trigger] before.at_hand(a) implies self.at_hand(a) by {
            if self.writing(a) {
                let s = choose|s: int|
                    0 <= s < self.driver.capacity() && crate::pool::routing::stages(
                        #[trigger] self.driver.request_at(s),
                        a,
                    );
                assert(crate::pool::routing::stages(before.driver.request_at(s), a));
            }
        }
    }

    /// A miss, a product operation or a published frame uses `file`.
    pub open spec fn in_use(self, file: FileId) -> bool {
        ||| exists|i: int|
            0 <= i < self.cache.miss.capacity() && #[trigger] self.cache.miss.live_for(
                self.cache.interests,
                file,
                i,
            )
        ||| self.products.uses(file)
        ||| self.cache.holds_frames(file)
    }

    /// Registers a file the host has opened in `mode`.
    pub fn open(&mut self, mode: IoMode) -> (file: Option<FileId>)
        requires
            old(self).wf(),
        ensures
            final(self).wf(),
            final(self).preserves(*old(self)),
            match file {
                Some(id) => {
                    let slot = id.slot as int;
                    &&& old(self).driver.openable(slot)
                    &&& forall|s: int| 0 <= s < slot ==> !(#[trigger] old(self).driver.openable(s))
                    &&& id.driver == old(self).identity
                    &&& id.generation == old(self).driver.file_generation_at(slot) + 1
                    &&& final(self).files.registered(
                        old(self).files,
                        id,
                        Some(FileHandle { file: id, mode }),
                    )
                    &&& final(self).files.is_live(id)
                    &&& final(self).driver.same_files_except(old(self).driver, slot)
                    &&& final(self).driver.handle_at(slot) == HandleState::Open(mode)
                    &&& final(self).driver.file_generation_at(slot) == id.generation
                    &&& final(self).products == old(self).products
                    &&& final(self).arena == old(self).arena
                    &&& final(self).wait == old(self).wait
                    &&& final(self).lifecycle == old(self).lifecycle
                    &&& final(self).cache.same_flow(old(self).cache)
                    &&& final(self).cache.clock == old(self).cache.clock
                    &&& final(self).cache.residency.same_but_retention(old(self).cache.residency)
                    &&& final(self).cache.residency.retention.same_frames(
                        old(self).cache.residency.retention,
                    )
                    &&& final(self).cache.residency.retention.stats()
                        == old(self).cache.residency.retention.stats()
                    &&& forall|s: int|
                        0 <= s < old(self).cache.residency.retention.file_slots()
                            ==> #[trigger] final(self).cache.residency.retention.is_retiring(s) == (
                        old(self).cache.residency.retention.is_retiring(s) && s != slot)
                },
                None => {
                    &&& *final(self) == *old(self)
                    &&& forall|s: int|
                        0 <= s < old(self).files.capacity() ==> !(#[trigger] old(self).driver.openable(s))
                },
            },
    {
        let ghost before = *self;
        proof {
            before.lemma_facts();
            before.cache.lemma_facts();
            before.lemma_preserves_itself();
            before.driver.lemma_capacity();
        }
        let handle: FileHandle = match self.driver.open(mode) {
            Some(handle) => handle,
            None => {
                return None;
            },
        };
        let file: FileId = handle.file;
        let ghost slot = file.slot as int;
        proof {
            before.files.lemma_slot(slot);
            assert(file_ok(before.files, before.driver, slot));
        }
        self.files.publish_live_file(file, Some(handle));
        let ghost listed = *self;
        proof {
            assert(!exists|other: FileId| before.files.backs(other) && other.slot == slot);
            listed.lemma_file_step(before, slot);
            listed.lemma_ring_kept(before, slot);
        }
        self.cache.clear_file_retiring(file.slot);
        proof {
            self.lemma_cache_step(listed);
            self.lemma_facts();
            self.cache.lemma_facts();
            self.cache.residency.lemma_same_holds(listed.cache.residency);
            listed.lemma_facts();
            listed.cache.lemma_facts();
            listed.cache.residency.lemma_keeps_itself();
            assert forall|l: ResidentFileLease| #[trigger] before.files.grants(
                l,
            ) implies self.files.grants(l) by {
                if l.protects().slot != file.slot {
                    assert(self.files.lease_at(l.protects().slot as int) == before.files.lease_at(
                        l.protects().slot as int,
                    ));
                } else {
                    assert(before.files.slot_ok(slot));
                }
            }
            assert forall|a: int| #[trigger] before.at_hand(a) implies self.at_hand(a) by {
                assert(listed.at_hand(a));
                if self.writing(a) {
                    assert(listed.writing(a));
                }
            }
        }
        Some(file)
    }

    /// Acquires a lease on an exact live file generation.
    pub fn lease_file(&mut self, file: FileId) -> (lease: Result<
        ResidentFileLease,
        ResidentLeaseError,
    >)
        requires
            old(self).wf(),
            old(self).files.addresses(file),
        ensures
            final(self).wf(),
            final(self).preserves(*old(self)),
            lease is Ok <==> old(self).files.is_live(file) && old(self).files.lease_at(
                file.slot as int,
            ).count < u32::MAX,
            match lease {
                Ok(l) => {
                    &&& l.protects() == file
                    &&& final(self).files.grants(l)
                    &&& final(self).same_but_file(*old(self), file.slot as int)
                    &&& final(self).driver == old(self).driver
                    &&& final(self).files.entry_at(file.slot as int) == old(self).files.entry_at(
                        file.slot as int,
                    )
                    &&& final(self).files.lease_at(file.slot as int) == (LeaseState {
                        count: (old(self).files.lease_at(file.slot as int).count + 1) as u32,
                        ..old(self).files.lease_at(file.slot as int)
                    })
                },
                Err(error) => {
                    &&& *final(self) == *old(self)
                    &&& error == (if old(self).files.is_live(file) {
                        ResidentLeaseError::Exhausted { file }
                    } else {
                        ResidentLeaseError::StaleFile { file }
                    })
                },
            },
    {
        let ghost before = *self;
        let ghost slot = file.slot as int;
        proof {
            before.lemma_facts();
            before.cache.lemma_facts();
            before.lemma_preserves_itself();
            before.files.lemma_slot(slot);
            assert(file_ok(before.files, before.driver, slot));
        }
        let lease: Result<ResidentFileLease, ResidentLeaseError> = self.files.lease_file(file);
        proof {
            if lease is Ok {
                self.lemma_file_step(before, slot);
                self.lemma_ring_kept(before, slot);
                assert forall|l: ResidentFileLease| #[trigger] before.files.grants(
                    l,
                ) implies self.files.grants(l) by {
                    if l.protects().slot != file.slot {
                        assert(self.files.lease_at(l.protects().slot as int)
                            == before.files.lease_at(l.protects().slot as int));
                    }
                }
            }
        }
        lease
    }

    /// Drops a lease; the last one of a file wakes the owner loop.
    pub fn release_lease(&mut self, lease: ResidentFileLease)
        requires
            old(self).wf(),
            old(self).files.grants(lease),
        ensures
            final(self).wf(),
            final(self).same_shape(*old(self)),
            final(self).cache == old(self).cache,
            final(self).products == old(self).products,
            final(self).driver == old(self).driver,
            final(self).arena == old(self).arena,
            final(self).lifecycle == old(self).lifecycle,
            final(self).files.same_except(old(self).files, lease.protects().slot as int),
            final(self).files.entry_at(lease.protects().slot as int) == old(self).files.entry_at(
                lease.protects().slot as int,
            ),
            final(self).files.lease_at(lease.protects().slot as int) == (LeaseState {
                count: (old(self).files.lease_at(lease.protects().slot as int).count - 1) as u32,
                ..old(self).files.lease_at(lease.protects().slot as int)
            }),
            final(self).wait == (if old(self).files.lease_at(lease.protects().slot as int).count
                == 1 {
                old(self).wait.woken_once()
            } else {
                old(self).wait
            }),
    {
        let ghost before = *self;
        let ghost slot = lease.protects().slot as int;
        proof {
            before.lemma_facts();
            before.files.lemma_slot(slot);
            assert(file_ok(before.files, before.driver, slot));
        }
        let last: bool = self.files.release_lease(lease);
        if last {
            self.wait.wake();
        }
        proof {
            self.lemma_file_step(before, slot);
        }
    }

    /// The file in slot `s` is retiring and no lease holds it.
    pub open spec fn retiring_at(self, s: int) -> bool {
        &&& self.files.entry_at(s) matches Some(entry) && entry.state is Retiring
        &&& self.files.lease_at(s).count == 0
    }

    /// The frames that retirement evicts from the first `n` file slots.
    pub open spec fn swept(self, n: int) -> Set<ReadFrameIdx> {
        Set::new(|f: ReadFrameIdx| exists|s: int| 0 <= s < n && #[trigger] self.sweeps(s, f))
    }

    /// Frame `f` can go and holds a page of the file that retires in slot `s`.
    pub open spec fn sweeps(self, s: int, f: ReadFrameIdx) -> bool {
        &&& self.retiring_at(s)
        &&& self.cache.retirable(self.files.entry_at(s)->0.id, f)
    }

    /// The frames that retirement evicts from file slot `s`, in order.
    pub open spec fn slot_order(self, s: int) -> Seq<ReadFrameIdx> {
        if self.retiring_at(s) {
            self.cache.leavers(self.files.entry_at(s)->0.id)
        } else {
            Seq::empty()
        }
    }

    /// The frames that retirement evicts from the first `n` file slots, in
    /// order.
    pub open spec fn sweep_order(self, n: int) -> Seq<ReadFrameIdx>
        decreases n,
    {
        if n <= 0 {
            Seq::empty()
        } else {
            self.sweep_order(n - 1) + self.slot_order(n - 1)
        }
    }

    /// What a retirement pass makes of file slot `s`: an unused retiring file
    /// gives its handle up, and is retired once the host has closed it.
    pub open spec fn retired_slot(self, other: Pool, s: int) -> bool {
        let entry = other.files.entry_at(s)->0;
        &&& self.files.lease_at(s) == other.files.lease_at(s)
        &&& self.driver.file_generation_at(s) == other.driver.file_generation_at(s)
        &&& if !other.retiring_at(s) || other.in_use(entry.id) {
            &&& self.files.entry_at(s) == other.files.entry_at(s)
            &&& self.driver.handle_at(s) == other.driver.handle_at(s)
        } else if entry.handle is Some {
            &&& self.files.entry_at(s) == Some(PoolFile { handle: None, ..entry })
            &&& self.driver.handle_at(s) is Closing
        } else if other.driver.handle_at(s) is Closed {
            &&& self.files.entry_at(s) == Some(PoolFile { state: PoolFileState::Retired, ..entry })
            &&& self.driver.handle_at(s) is Vacant
        } else {
            &&& self.files.entry_at(s) == other.files.entry_at(s)
            &&& self.driver.handle_at(s) == other.driver.handle_at(s)
        }
    }

    /// File slot `s` is as it was.
    pub open spec fn same_slot(self, other: Pool, s: int) -> bool {
        &&& self.files.entry_at(s) == other.files.entry_at(s)
        &&& self.files.lease_at(s) == other.files.lease_at(s)
        &&& self.driver.handle_at(s) == other.driver.handle_at(s)
        &&& self.driver.file_generation_at(s) == other.driver.file_generation_at(s)
    }

    /// A retirement pass over the first `n` file slots.
    pub open spec fn retired_below(self, other: Pool, n: int) -> bool {
        &&& self.preserves(other)
        &&& self.products == other.products
        &&& self.arena == other.arena
        &&& self.wait == other.wait
        &&& self.lifecycle == other.lifecycle
        &&& self.driver.same_ops(other.driver)
        &&& self.cache.retired_from(
            other.cache,
            other.sweep_order(n),
            other.swept(n),
        )
        &&& forall|s: int| 0 <= s < n ==> #[trigger] self.retired_slot(other, s)
        &&& forall|s: int|
            n <= s < other.files.capacity() ==> #[trigger] self.same_slot(other, s)
    }

    /// A sweep changes neither which files are in use nor what callers hold.
    #[verifier::rlimit(40)]
    proof fn lemma_swept(
        self,
        before: Pool,
        list: Seq<ReadFrameIdx>,
        gone: Set<ReadFrameIdx>,
    )
        requires
            before.wf(),
            self.same_plane(before),
            self.cache.wf(),
            self.cache.same_shape(before.cache),
            self.cache.residency.keeps(before.cache.residency),
            self.cache.retired_from(before.cache, list, gone),
            forall|f: ReadFrameIdx| #[trigger]
                gone.contains(f) ==> before.cache.residency.has(f)
                    && before.cache.residency.frames.residency(f) is Resident,
        ensures
            self.wf(),
            self.preserves(before),
            forall|used: FileId| #[trigger] self.in_use(used) == before.in_use(used),
    {
        before.lemma_facts();
        before.cache.lemma_facts();
        self.cache.lemma_facts();
        assert forall|i: int| #[trigger] attended(self.cache, i) implies attended(before.cache, i)
            && self.cache.miss.entry_at(i) == before.cache.miss.entry_at(i) by {
            assert(self.cache.miss.entry_at(i) == before.cache.miss.entry_at(i)
                || self.cache.miss.entry_at(i) is None);
        }
        self.lemma_cache_step(before);
        assert forall|t: PendingToken| #[trigger] before.redeems(t) implies self.redeems(t)
            && self.answers_as(before, t) by {
            let i = t.record().0 as int;
            assert(self.cache.miss.entry_at(i) == before.cache.miss.entry_at(i)
                || before.cache.miss.reusable(before.cache.interests, i));
            if before.cache.miss.entry_at(i)->0.outcome is Succeeded {
                before.lemma_arrived(t);
            }
        }
        assert forall|used: FileId| #[trigger] self.in_use(used) == before.in_use(used) by {
            assert forall|i: int|
                0 <= i < before.cache.miss.capacity() implies #[trigger] self.cache.miss.live_for(
                self.cache.interests,
                used,
                i,
            ) == before.cache.miss.live_for(before.cache.interests, used, i) by {
                assert(self.cache.miss.entry_at(i) == before.cache.miss.entry_at(i)
                    || self.cache.miss.entry_at(i) is None && before.cache.miss.reusable(
                    before.cache.interests,
                    i,
                ));
            }
            if exists|i: int|
                0 <= i < before.cache.miss.capacity() && #[trigger] before.cache.miss.live_for(
                    before.cache.interests,
                    used,
                    i,
                ) {
                let i = choose|i: int|
                    0 <= i < before.cache.miss.capacity() && #[trigger] before.cache.miss.live_for(
                        before.cache.interests,
                        used,
                        i,
                    );
                assert(self.cache.miss.live_for(self.cache.interests, used, i));
            }
            assert forall|f: ReadFrameIdx| #[trigger]
                self.cache.frame_of(used, f) == before.cache.frame_of(used, f) by {
                if before.cache.residency.has(f) {
                    assert(self.cache.residency.frames.residency(f) == (if gone.contains(f) {
                        FrameState::Evicting
                    } else {
                        before.cache.residency.frames.residency(f)
                    }));
                }
            }
            if before.cache.holds_frames(used) {
                let f = choose|f: ReadFrameIdx| #[trigger] before.cache.frame_of(used, f);
                assert(self.cache.frame_of(used, f));
            }
        }
    }

    /// Whether a miss, a product operation or a published frame uses `file`.
    pub fn uses_file(&self, file: FileId) -> (used: bool)
        requires
            self.wf(),
        ensures
            used == self.in_use(file),
    {
        proof {
            self.lemma_facts();
            self.cache.lemma_facts();
        }
        if self.cache.miss.has_live_for_file(file, &self.cache.interests) {
            return true;
        }
        if self.cache.file_has_frames(file) {
            return true;
        }
        self.products.has_live_for_file(file)
    }

    /// Advances the retirement in one file slot.
    #[verifier::rlimit(40)]
    #[verifier::spinoff_prover]
    fn progress_retirement(&mut self, slot: u32)
        requires
            old(self).wf(),
            slot < old(self).files.capacity(),
        ensures
            final(self).wf(),
            final(self).preserves(*old(self)),
            final(self).cache.wear == old(self).cache.wear,
            final(self).products == old(self).products,
            final(self).arena == old(self).arena,
            final(self).wait == old(self).wait,
            final(self).lifecycle == old(self).lifecycle,
            final(self).driver.same_ops(old(self).driver),
            final(self).retired_slot(*old(self), slot as int),
            forall|s: int|
                0 <= s < old(self).files.capacity() && s != slot ==> #[trigger] final(self).same_slot(*old(self), s),
            forall|used: FileId| #[trigger] final(self).in_use(used) == old(self).in_use(used),
            final(self).cache.retired_from(
                old(self).cache,
                old(self).slot_order(slot as int),
                Set::new(|f: ReadFrameIdx| old(self).sweeps(slot as int, f)),
            ),
    {
        let ghost before = *self;
        let ghost at = slot as int;
        let ghost none = Set::new(|f: ReadFrameIdx| before.sweeps(at, f));
        proof {
            before.lemma_facts();
            before.cache.lemma_facts();
            before.lemma_preserves_itself();
            before.files.lemma_slot(at);
            before.driver.lemma_capacity();
            assert(file_ok(before.files, before.driver, at));
            assert(Cache::evictions(seq![before.cache], Seq::empty()));
        }
        let entry: Option<PoolFile> = self.files.entry(slot);
        let file: FileId = match entry {
            Some(entry) => match entry.state {
                PoolFileState::Retiring => entry.id,
                _ => {
                    return;
                },
            },
            None => {
                return;
            },
        };
        if self.files.lease_count(slot) > 0 {
            return;
        }
        self.cache.retire_file_frames(file);
        let ghost middle = *self;
        proof {
            let gone = Set::new(|f: ReadFrameIdx| before.cache.retirable(file, f));
            assert(gone =~= none);
            middle.lemma_swept(before, before.cache.leavers(file), gone);
            middle.lemma_facts();
            assert(file_ok(middle.files, middle.driver, at));
        }
        if self.uses_file(file) {
            return;
        }
        let taken: Option<FileHandle> = self.files.take_handle(slot);
        if let Some(handle) = taken {
            proof {
                assert(middle.driver.is_open(handle));
            }
            self.driver.close(handle);
        }
        if self.driver.is_closed(file) {
            self.files.retire(slot);
            self.driver.vacate(file);
        }
        proof {
            assert(file_ok(self.files, self.driver, at));
            assert forall|other: FileId| #[trigger]
                middle.files.backs(other) && other.slot == at && middle.in_use(
                    other,
                ) implies self.files.backs(other) by {
                assert(other == file);
            }
            self.lemma_file_step(middle, at);
            self.lemma_ring_kept(middle, at);
            assert forall|l: ResidentFileLease| #[trigger] middle.files.grants(
                l,
            ) implies self.files.grants(l) by {
                if l.protects().slot != slot {
                    assert(self.files.lease_at(l.protects().slot as int) == middle.files.lease_at(
                        l.protects().slot as int,
                    ));
                }
            }
            self.lemma_facts();
            self.cache.lemma_facts();
            self.cache.residency.lemma_keeps_itself();
            assert(self.preserves(middle));
            self.lemma_preserves_again(middle, before);
            assert forall|used: FileId| #[trigger] self.in_use(used) == before.in_use(used) by {
                assert(middle.in_use(used) == before.in_use(used));
            }
        }
    }

    /// One slot more of a retirement pass.
    #[verifier::rlimit(40)]
    #[verifier::spinoff_prover]
    proof fn lemma_retired_one(self, middle: Pool, before: Pool, slot: int)
        requires
            before.wf(),
            middle.wf(),
            self.wf(),
            0 <= slot < before.files.capacity(),
            middle.retired_below(before, slot),
            forall|used: FileId| #[trigger] middle.in_use(used) == before.in_use(used),
            self.preserves(middle),
            self.products == middle.products,
            self.arena == middle.arena,
            self.wait == middle.wait,
            self.lifecycle == middle.lifecycle,
            self.driver.same_ops(middle.driver),
            self.retired_slot(middle, slot),
            forall|s: int|
                0 <= s < middle.files.capacity() && s != slot ==> #[trigger] self.same_slot(
                    middle,
                    s,
                ),
            self.cache.retired_from(
                middle.cache,
                middle.slot_order(slot),
                Set::new(|f: ReadFrameIdx| middle.sweeps(slot, f)),
            ),
        ensures
            self.retired_below(before, slot + 1),
    {
        let second = Set::new(|f: ReadFrameIdx| middle.sweeps(slot, f));
        before.lemma_facts();
        before.cache.lemma_facts();
        middle.lemma_facts();
        middle.cache.lemma_facts();
        self.lemma_preserves_again(middle, before);
        assert(middle.same_slot(before, slot));
        self.cache.lemma_retired_both(
            middle.cache,
            before.cache,
            before.sweep_order(slot),
            before.swept(slot),
            middle.slot_order(slot),
            second,
        );
        assert forall|f: ReadFrameIdx| #[trigger] middle.sweeps(slot, f) == before.sweeps(
            slot,
            f,
        ) by {
            if middle.sweeps(slot, f) {
                self.lemma_sweep_kept(middle, before, slot, f);
            }
            if before.sweeps(slot, f) {
                before.lemma_swept_once(slot, f);
                self.lemma_sweep_again(middle, before, slot, f);
            }
        }
        if before.retiring_at(slot) {
            middle.lemma_same_leavers(before, slot, before.cache.frame_count() as int);
        }
        assert forall|f: ReadFrameIdx| #[trigger]
            before.swept(slot).union(second).contains(f) == before.swept(slot + 1).contains(f) by {
            if middle.sweeps(slot, f) {
                self.lemma_sweep_kept(middle, before, slot, f);
                assert(before.sweeps(slot, f));
            }
            if before.swept(slot).contains(f) {
                let s = choose|s: int| 0 <= s < slot && #[trigger] before.sweeps(s, f);
                assert(before.sweeps(s, f));
            }
            if before.swept(slot + 1).contains(f) {
                let s = choose|s: int| 0 <= s < slot + 1 && #[trigger] before.sweeps(s, f);
                if s < slot {
                    assert(before.swept(slot).contains(f));
                } else {
                    if !before.swept(slot).contains(f) {
                        self.lemma_sweep_again(middle, before, slot, f);
                    }
                }
            }
        }
        assert(before.swept(slot).union(second) =~= before.swept(slot + 1));
        assert forall|s: int| 0 <= s < slot + 1 implies #[trigger] self.retired_slot(before, s) by {
            if s < slot {
                assert(middle.retired_slot(before, s));
                assert(self.same_slot(middle, s));
            } else {
                assert(middle.in_use(before.files.entry_at(slot)->0.id) == before.in_use(
                    before.files.entry_at(slot)->0.id,
                ));
            }
        }
        assert forall|s: int|
            slot + 1 <= s < before.files.capacity() implies #[trigger] self.same_slot(
            before,
            s,
        ) by {
            assert(middle.same_slot(before, s));
            assert(self.same_slot(middle, s));
        }
        assert forall|s: int|
            0 <= s < self.driver.capacity() implies #[trigger] self.driver.state_at(s)
            == before.driver.state_at(s) by {
            assert(middle.driver.state_at(s) == before.driver.state_at(s));
        }
        assert forall|s: int|
            0 <= s < self.driver.capacity() implies #[trigger] self.driver.generation_at(s)
            == before.driver.generation_at(s) by {
            assert(middle.driver.generation_at(s) == before.driver.generation_at(s));
        }
    }

    /// A frame goes with one file slot alone.
    proof fn lemma_swept_once(self, slot: int, f: ReadFrameIdx)
        requires
            self.wf(),
            0 <= slot < self.files.capacity(),
            self.sweeps(slot, f),
        ensures
            !self.swept(slot).contains(f),
    {
        self.lemma_facts();
        if self.swept(slot).contains(f) {
            let s = choose|s: int| 0 <= s < slot && #[trigger] self.sweeps(s, f);
            self.files.lemma_slot(s);
            self.files.lemma_slot(slot);
        }
    }

    /// The frames of one file leave in the same order after others have gone.
    proof fn lemma_same_leavers(self, before: Pool, slot: int, n: int)
        requires
            self.retiring_at(slot) && before.retiring_at(slot),
            self.files.entry_at(slot) == before.files.entry_at(slot),
            self.cache.frame_pages == before.cache.frame_pages,
            forall|f: ReadFrameIdx| #[trigger] self.sweeps(slot, f) == before.sweeps(slot, f),
        ensures
            self.cache.leaving(before.files.entry_at(slot)->0.id, n) == before.cache.leaving(
                before.files.entry_at(slot)->0.id,
                n,
            ),
        decreases n,
    {
        if n > 0 {
            self.lemma_same_leavers(before, slot, n - 1);
            let frame = ReadFrameIdx((n - 1) as u32);
            assert(self.sweeps(slot, frame) == before.sweeps(slot, frame));
        }
    }

    /// What a later sweep takes could go at the start.
    proof fn lemma_sweep_kept(self, middle: Pool, before: Pool, slot: int, f: ReadFrameIdx)
        requires
            before.wf(),
            0 <= slot < before.files.capacity(),
            middle.retired_below(before, slot),
            middle.sweeps(slot, f),
        ensures
            before.sweeps(slot, f),
    {
        before.lemma_facts();
        before.cache.lemma_facts();
        assert(middle.same_slot(before, slot));
        assert(middle.cache.residency.frames.residency(f) is Resident);
        assert(!before.swept(slot).contains(f));
        assert(middle.cache.miss.protection(f) == before.cache.miss.protection(f));
    }

    /// What could go at the start and was not taken can go still.
    proof fn lemma_sweep_again(self, middle: Pool, before: Pool, slot: int, f: ReadFrameIdx)
        requires
            before.wf(),
            0 <= slot < before.files.capacity(),
            middle.retired_below(before, slot),
            before.sweeps(slot, f),
            !before.swept(slot).contains(f),
        ensures
            middle.sweeps(slot, f),
    {
        before.lemma_facts();
        before.cache.lemma_facts();
        assert(middle.same_slot(before, slot));
        assert(middle.cache.residency.frames.residency(f)
            == before.cache.residency.frames.residency(f));
        assert(middle.cache.miss.protection(f) == before.cache.miss.protection(f));
    }

    /// Advances every retirement as far as it can go now.
    pub(crate) fn progress_retirements(&mut self)
        requires
            old(self).wf(),
        ensures
            final(self).wf(),
            final(self).cache.wear == old(self).cache.wear,
            final(self).retired_below(*old(self), old(self).files.capacity() as int),
    {
        let ghost before = *self;
        proof {
            before.lemma_facts();
            before.cache.lemma_facts();
            before.lemma_preserves_itself();
            assert(before.swept(0) =~= Set::empty());
            assert(Cache::evictions(seq![before.cache], Seq::empty()));
            assert(before.retired_below(before, 0));
        }
        let count: u32 = self.files.len();
        let mut slot: u32 = 0;
        while slot < count
            invariant
                before == *old(self),
                before.wf(),
                self.wf(),
                count == before.files.capacity(),
                slot <= count,
                self.cache.wear == before.cache.wear,
                self.retired_below(before, slot as int),
                forall|used: FileId| #[trigger] self.in_use(used) == before.in_use(used),
            decreases count - slot,
        {
            let ghost middle = *self;
            proof {
                middle.lemma_facts();
            }
            self.progress_retirement(slot);
            proof {
                self.lemma_retired_one(middle, before, slot as int);
                assert forall|used: FileId| #[trigger] self.in_use(used) == before.in_use(
                    used,
                ) by {
                    assert(middle.in_use(used) == before.in_use(used));
                }
            }
            slot = slot + 1;
        }
    }

    /// A file that this call started or advanced to retire.
    pub open spec fn retired(self, other: Pool, file: FileId) -> bool {
        exists|marked: Pool|
            {
                &&& #[trigger] marked.marked_retiring(other, file)
                &&& self.retired_below(marked, marked.files.capacity() as int)
            }
    }

    /// `file` is marked retiring, in the registry and for retention.
    pub open spec fn marked_retiring(self, other: Pool, file: FileId) -> bool {
        &&& self.products == other.products
        &&& self.driver == other.driver
        &&& self.arena == other.arena
        &&& self.wait == other.wait
        &&& self.lifecycle == other.lifecycle
        &&& self.write_slots == other.write_slots
        &&& self.identity == other.identity
        &&& self.files.same_except(other.files, file.slot as int)
        &&& self.files.lease_at(file.slot as int) == other.files.lease_at(file.slot as int)
        &&& self.files.entry_at(file.slot as int) == Some(
            PoolFile {
                state: PoolFileState::Retiring,
                ..other.files.entry_at(file.slot as int)->0
            },
        )
        &&& self.cache.same_flow(other.cache)
        &&& self.cache.clock == other.cache.clock
        &&& self.cache.residency.same_but_retention(other.cache.residency)
        &&& self.cache.residency.retention.same_frames(other.cache.residency.retention)
        &&& self.cache.residency.retention.stats() == other.cache.residency.retention.stats()
        &&& forall|s: int|
            0 <= s < other.cache.residency.retention.file_slots()
                ==> #[trigger] self.cache.residency.retention.is_retiring(s) == (
            other.cache.residency.retention.is_retiring(s) || s == file.slot)
    }

    /// `file` is registered and not yet retired.
    pub open spec fn serves(self, file: FileId) -> bool {
        self.files.entry_at(file.slot as int) matches Some(entry) && entry.id == file && !(
        entry.state is Retired)
    }

    /// Starts or advances the retirement of a file. The first call reports
    /// `Retiring` even if nothing uses the file any more.
    #[verifier::rlimit(40)]
    pub fn retire_file(&mut self, file: FileId) -> (status: RetireStatus)
        requires
            old(self).wf(),
            old(self).files.addresses(file),
        ensures
            final(self).wf(),
            final(self).preserves(*old(self)),
            final(self).cache.wear == old(self).cache.wear,
            !final(self).files.is_live(file),
            if old(self).serves(file) {
                &&& final(self).retired(*old(self), file)
                &&& status == (if old(self).files.is_live(file) || final(self).serves(file) {
                    RetireStatus::Retiring
                } else {
                    RetireStatus::Retired
                })
            } else {
                *final(self) == *old(self) && status is Retired
            },
    {
        let ghost before = *self;
        let ghost at = file.slot as int;
        proof {
            before.lemma_facts();
            before.cache.lemma_facts();
            before.lemma_preserves_itself();
            before.files.lemma_slot(at);
            assert(file_ok(before.files, before.driver, at));
        }
        let entry: PoolFile = match self.files.entry(file.slot) {
            Some(entry) => entry,
            None => {
                return RetireStatus::Retired;
            },
        };
        if entry.id != file {
            return RetireStatus::Retired;
        }
        if let PoolFileState::Retired = entry.state {
            return RetireStatus::Retired;
        }
        let started: bool = self.files.begin_file_retirement(file);
        let ghost listed = *self;
        proof {
            listed.lemma_file_step(before, at);
            listed.lemma_ring_kept(before, at);
            assert forall|l: ResidentFileLease| #[trigger] before.files.grants(
                l,
            ) implies listed.files.grants(l) by {
                if l.protects().slot != file.slot {
                    assert(listed.files.lease_at(l.protects().slot as int)
                        == before.files.lease_at(l.protects().slot as int));
                }
            }
            listed.lemma_facts();
        }
        self.cache.mark_file_retiring(file.slot);
        let ghost marked = *self;
        proof {
            marked.lemma_cache_step(listed);
            marked.lemma_facts();
            marked.cache.lemma_facts();
            listed.cache.lemma_facts();
            marked.cache.residency.lemma_same_holds(listed.cache.residency);
            assert(marked.preserves(before)) by {
                assert forall|a: int| #[trigger] before.at_hand(a) implies marked.at_hand(a) by {
                    assert(listed.at_hand(a));
                    if marked.writing(a) {
                        assert(listed.writing(a));
                    }
                }
            }
            assert(marked.marked_retiring(before, file));
        }
        self.progress_retirements();
        proof {
            self.lemma_preserves_again(marked, before);
            assert(self.retired_slot(marked, at));
        }
        if started {
            return RetireStatus::Retiring;
        }
        match self.files.entry(file.slot) {
            Some(entry) => match entry.state {
                PoolFileState::Retired => RetireStatus::Retired,
                _ => RetireStatus::Retiring,
            },
            None => RetireStatus::Retired,
        }
    }
}

/// A retired file has no users left: no miss, token, product operation,
/// published frame or lease refers to it, and its driver slot is free again.
pub proof fn a_retired_file_has_no_users(pool: Pool, file: FileId)
    requires
        pool.wf(),
        pool.files.addresses(file),
        pool.files.entry_at(file.slot as int) is Some,
        pool.files.entry_at(file.slot as int)->0.id == file,
        pool.files.entry_at(file.slot as int)->0.state is Retired,
    ensures
        !pool.in_use(file),
        pool.files.lease_at(file.slot as int).count == 0,
        pool.driver.handle_at(file.slot as int) is Vacant,
        forall|token: PendingToken| #[trigger] pool.redeems(token) ==> token.asked().file != file,
        forall|p: PageId| #[trigger] pool.cache.mapped(p) ==> p.file != file,
{
    pool.lemma_facts();
    pool.cache.lemma_facts();
    pool.cache.residency.lemma_facts();
    pool.files.lemma_slot(file.slot as int);
    assert(file_ok(pool.files, pool.driver, file.slot as int));
    assert(!pool.files.backs(file));
    if exists|i: int|
        0 <= i < pool.cache.miss.capacity() && #[trigger] pool.cache.miss.live_for(
            pool.cache.interests,
            file,
            i,
        ) {
        let i = choose|i: int|
            0 <= i < pool.cache.miss.capacity() && #[trigger] pool.cache.miss.live_for(
                pool.cache.interests,
                file,
                i,
            );
        pool.cache.miss.lemma_entry(i);
        assert(pool.cache.miss.is_pending(i) || attended(pool.cache, i));
    }
    if pool.products.uses(file) {
        let k = choose|k: int| 0 <= k < pool.products@.len() && #[trigger] pool.products.uses_at(
            k,
            file,
        );
        assert(pool.products@[k].operation is Some);
    }
    if pool.cache.holds_frames(file) {
        let f = choose|f: ReadFrameIdx| #[trigger] pool.cache.frame_of(file, f);
        assert(pool.cache.residency.frames.published(f));
    }
    assert forall|token: PendingToken| #[trigger] pool.redeems(token) implies token.asked().file
        != file by {
        assert(attended(pool.cache, token.record().0 as int));
    }
    assert forall|p: PageId| #[trigger] pool.cache.mapped(p) implies p.file != file by {
        let f = pool.cache.residency.table@[p];
        assert(pool.cache.residency.frames.residency(f) is Resident);
        assert(pool.cache.residency.frames.page(f) == Some(p));
        assert(pool.cache.residency.frames.published(f));
    }
}

} // verus!
