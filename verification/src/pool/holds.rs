//! What callers hold of a pool: guards, retained frames, pending tokens, file
//! leases and staging slots.

use crate::driver::FileId;
use crate::pool::control::Pool;
use crate::pool::epoch::{FrameGuard, ReaderCtx};
use crate::pool::files::ResidentFileLease;
use crate::pool::frames::ReadFrameIdx;
use crate::pool::miss::{MissOutcome, MissSlot};
use crate::pool::retention::RetainedFrame;
use crate::pool::PageId;
use crate::product::PoolWriteSlot;
use vstd::prelude::*;

verus! {

/// One caller's interest in a read that was in flight when it asked.
///
/// A token is redeemed or dropped through its pool exactly once.
#[derive(Debug, PartialEq, Eq, Structural)]
pub struct PendingToken {
    page: PageId,
    slot: MissSlot,
    generation: u64,
    pool: u64,
}

impl PendingToken {
    pub closed spec fn asked(self) -> PageId {
        self.page
    }

    pub closed spec fn record(self) -> MissSlot {
        self.slot
    }

    pub closed spec fn turn(self) -> u64 {
        self.generation
    }

    pub closed spec fn owner(self) -> u64 {
        self.pool
    }

    pub(crate) fn new(page: PageId, slot: MissSlot, generation: u64, pool: u64) -> (token: Self)
        ensures
            token.asked() == page,
            token.record() == slot,
            token.turn() == generation,
            token.owner() == pool,
    {
        PendingToken { page, slot, generation, pool }
    }

    /// The page the read is for.
    pub fn page(&self) -> (page: PageId)
        ensures
            page == self.asked(),
    {
        self.page
    }

    pub(crate) fn slot(&self) -> (slot: MissSlot)
        ensures
            slot == self.record(),
    {
        self.slot
    }

    pub(crate) fn generation(&self) -> (generation: u64)
        ensures
            generation == self.turn(),
    {
        self.generation
    }

    pub(crate) fn pool(&self) -> (pool: u64)
        ensures
            pool == self.owner(),
    {
        self.pool
    }
}

impl Pool {
    /// `token` was minted by this pool and not redeemed yet.
    pub open spec fn redeems(self, token: PendingToken) -> bool {
        &&& token.owner() == self.identity
        &&& self.cache.awaited(token.record(), token.turn())
        &&& self.cache.miss.entry_at(token.record().0 as int) matches Some(entry)
            && entry.generation == token.turn() && entry.page == token.asked()
    }

    /// A write in the ring reads staging slot `a`.
    pub open spec fn writing(self, a: int) -> bool {
        exists|s: int|
            0 <= s < self.driver.capacity() && crate::pool::routing::stages(
                #[trigger] self.driver.request_at(s),
                a,
            )
    }

    /// Staging slot `a` is leased and no write reads it.
    pub open spec fn at_hand(self, a: int) -> bool {
        &&& 0 <= a < self.arena.slot_count()
        &&& !self.arena.is_free(a)
        &&& !self.writing(a)
    }

    /// `slot` is a staging slot of this pool in the caller's hands.
    pub open spec fn stages(self, slot: PoolWriteSlot) -> bool {
        &&& slot.pool_identity == self.identity
        &&& self.arena.holds(slot.slot)
        &&& self.at_hand(slot.slot.index() as int)
    }

    /// `file` names a generation of its slot that has been and is not live.
    pub open spec fn expired(self, file: FileId) -> bool {
        &&& file.slot < self.files.capacity()
        &&& file.generation <= self.driver.file_generation_at(file.slot as int)
        &&& !self.files.is_live(file)
    }

    /// Once the read `token` waits for has ended, its outcome stands, and a
    /// page that arrived keeps its frame and its bytes.
    pub open spec fn answers_as(self, other: Pool, token: PendingToken) -> bool {
        let i = token.record().0 as int;
        let entry = other.cache.miss.entry_at(i)->0;
        entry.outcome != MissOutcome::Pending ==> {
            &&& self.cache.miss.entry_at(i) == Some(entry)
            &&& entry.outcome is Succeeded ==> self.cache.residency.frames.contents(entry.frame)
                == other.cache.residency.frames.contents(entry.frame)
        }
    }

    /// Everything callers hold is as good as before: the frames they can read
    /// or wait for and the staged granules keep their bytes, and no guard,
    /// handle, token, lease, staging slot or registration is lost. A file
    /// generation that is over stays over.
    pub open spec fn preserves(self, other: Pool) -> bool {
        &&& self.same_shape(other)
        &&& self.cache.residency.keeps(other.cache.residency)
        &&& self.cache.residency.same_holds(other.cache.residency)
        &&& forall|i: int|
            0 <= i < other.cache.residency.readers@.len()
                ==> (#[trigger] self.cache.residency.readers@[i]).occupied
                == other.cache.residency.readers@[i].occupied
                && self.cache.residency.readers@[i].guard_count
                == other.cache.residency.readers@[i].guard_count
        &&& forall|t: PendingToken| #[trigger]
            other.redeems(t) ==> self.redeems(t) && self.answers_as(other, t)
        &&& forall|l: ResidentFileLease| #[trigger] other.files.grants(l) ==> self.files.grants(l)
        &&& forall|a: int| #[trigger] other.at_hand(a) ==> self.at_hand(a)
        &&& forall|a: int|
            0 <= a < other.arena.slot_count() ==> #[trigger] self.arena.contents(a)
                == other.arena.contents(a)
        &&& forall|file: FileId| #[trigger] other.expired(file) ==> self.expired(file)
    }

    /// A page that arrived is resident while somebody waits for it.
    pub proof fn lemma_arrived(self, token: PendingToken)
        requires
            self.wf(),
            self.redeems(token),
            self.cache.miss.entry_at(token.record().0 as int)->0.outcome is Succeeded,
        ensures
            ({
                let frame = self.cache.miss.entry_at(token.record().0 as int)->0.frame;
                &&& self.cache.residency.has(frame)
                &&& self.cache.residency.frames.residency(frame) is Resident
                &&& self.cache.residency.frames.page(frame) == Some(token.asked())
                &&& self.cache.mapped(token.asked())
                &&& self.cache.residency.table@[token.asked()] == frame
            }),
    {
        self.lemma_facts();
        self.cache.lemma_facts();
        self.cache.residency.lemma_facts();
        let i = token.record().0 as int;
        self.cache.miss.lemma_entry(i);
        let frame = self.cache.miss.entry_at(i)->0.frame;
        assert(self.cache.miss.protection(frame) is Some);
        assert(self.cache.residency.table@.contains_key(token.asked()));
    }

    /// Preservation over two steps.
    pub proof fn lemma_preserves_again(self, middle: Pool, before: Pool)
        requires
            middle.preserves(before),
            self.preserves(middle),
        ensures
            self.preserves(before),
    {
        self.cache.residency.lemma_keeps_again(middle.cache.residency, before.cache.residency);
        assert forall|f: ReadFrameIdx|
            before.cache.residency.has(f) implies #[trigger] self.cache.residency.retention.handles(
            f,
        ) == before.cache.residency.retention.handles(f) by {
            assert(middle.cache.residency.has(f));
            assert(middle.cache.residency.retention.handles(f)
                == before.cache.residency.retention.handles(f));
        }
        assert forall|i: int|
            0 <= i < before.cache.residency.readers@.len() implies (
        #[trigger] self.cache.residency.readers@[i]).occupied
            == before.cache.residency.readers@[i].occupied
            && self.cache.residency.readers@[i].guard_count
            == before.cache.residency.readers@[i].guard_count by {
            assert(middle.cache.residency.readers@[i].occupied
                == before.cache.residency.readers@[i].occupied);
        }
        assert forall|a: int| #[trigger] before.at_hand(a) implies self.at_hand(a)
            && self.arena.contents(a) == before.arena.contents(a) by {
            assert(middle.at_hand(a));
        }
    }

    /// A pool preserves itself.
    pub proof fn lemma_preserves_itself(self)
        requires
            self.wf(),
        ensures
            self.preserves(self),
    {
        self.lemma_facts();
        self.cache.lemma_facts();
        self.cache.residency.lemma_keeps_itself();
    }
}

/// What callers hold stays valid: after any step that preserves the pool,
/// every guard still borrows its frame with the same bytes, every retained
/// handle still keeps its frame with the same bytes, every reader is still
/// registered, every token can be redeemed, every lease stands, and every
/// staging slot is still its holder's with the same bytes.
pub proof fn holds_stay_valid(
    before: Pool,
    after: Pool,
    guard: FrameGuard,
    handle: RetainedFrame,
    reader: ReaderCtx,
    token: PendingToken,
    lease: ResidentFileLease,
    slot: PoolWriteSlot,
)
    requires
        before.wf(),
        after.preserves(before),
    ensures
        before.lends(guard) ==> after.lends(guard)
            && after.cache.residency.frames.contents(guard.pinned())
            == before.cache.residency.frames.contents(guard.pinned()),
        before.retains(handle) ==> after.retains(handle)
            && after.cache.residency.frames.contents(handle.kept())
            == before.cache.residency.frames.contents(handle.kept()),
        before.registered(reader) ==> after.registered(reader),
        before.redeems(token) ==> after.redeems(token) && after.answers_as(before, token),
        before.files.grants(lease) ==> after.files.grants(lease),
        before.stages(slot) ==> after.stages(slot) && after.arena.contents(
            slot.slot.index() as int,
        ) == before.arena.contents(slot.slot.index() as int),
{
    before.lemma_facts();
    before.cache.lemma_facts();
    before.cache.residency.lemma_facts();
    if before.lends(guard) {
        assert(before.cache.residency.pinned(guard.holder() as int, guard.pinned()));
        assert(before.cache.residency.pins@[guard.holder() as int].count(guard.pinned()) > 0);
        assert(before.cache.residency.protected(guard.pinned()));
        assert(after.cache.residency.pinned(guard.holder() as int, guard.pinned()));
    }
    if before.retains(handle) {
        assert(before.cache.residency.protected(handle.kept()));
    }
    if before.registered(reader) {
        assert(after.cache.residency.readers@[reader.index() as int].occupied
            == before.cache.residency.readers@[reader.index() as int].occupied);
    }
}

} // verus!
