//! Routing the results in the ring to the misses and product operations that
//! wait for them.

use crate::driver::{
    Completion, Driver, FileHandle, FileId, IoMode, OpKind, OpState, OpToken, Request,
};
use crate::error::IoError;
use crate::pool::cache::Cache;
use crate::pool::control::{
    attended, awaited_product, awaited_read, awaits_of, file_ok, files_ok, lemma_after_submit,
    lemma_files_after_submit, lemma_staging_after_submit, products_ok, read_of, reads_ok, served,
    sound_result, staged, staging_of, staging_ok, Pool, SHORT_READ_EOF_ERRNO,
};
use crate::pool::files::Files;
use crate::pool::frames::ReadFrameIdx;
use crate::pool::miss::{MissEntry, MissOutcome, MissTable};
use crate::pool::prefetch::ledger::WEAR_MAX;
use crate::pool::product_ops::{ProductOp, ProductOpSlot, ProductOps};
use crate::pool::write_arena::WriteArena;
use crate::pool::PageId;
use vstd::prelude::*;

verus! {

/// Vacating one slot leaves every other operation where it was.
pub(crate) proof fn lemma_after_vacating(before: Driver, after: Driver, slot: int)
    requires
        before.wf(),
        0 <= slot < before.capacity(),
        after.restated(before, slot, OpState::Vacant),
    ensures
        after.request_at(slot) is None,
        forall|t: OpToken| #[trigger]
            before.live(t) && t.slot != slot ==> after.live(t) && after.request_at(t.slot as int)
                == before.request_at(t.slot as int),
        forall|s: int|
            0 <= s < after.capacity() && s != slot ==> #[trigger] after.request_at(s)
                == before.request_at(s),
        forall|s: int|
            0 <= s < after.capacity() ==> #[trigger] after.token_at(s) == before.token_at(s),
{
    assert forall|t: OpToken| #[trigger] before.live(t) && t.slot != slot implies after.live(t)
        && after.request_at(t.slot as int) == before.request_at(t.slot as int) by {
        assert(after.state_at(t.slot as int) == before.state_at(t.slot as int));
        assert(after.generation_at(t.slot as int) == before.generation_at(t.slot as int));
    }
    assert forall|s: int|
        0 <= s < after.capacity() && s != slot implies #[trigger] after.request_at(s)
        == before.request_at(s) by {
        assert(after.state_at(s) == before.state_at(s));
    }
    assert forall|s: int| 0 <= s < after.capacity() implies #[trigger] after.token_at(s)
        == before.token_at(s) by {
        assert(after.generation_at(s) == before.generation_at(s));
    }
}

/// Vacating a slot touches no file.
pub(crate) proof fn lemma_files_after_vacating(files: Files, before: Driver, after: Driver, slot: int)
    requires
        files_ok(files, before),
        after.restated(before, slot, OpState::Vacant),
    ensures
        files_ok(files, after),
{
    assert forall|s: int| 0 <= s < files.capacity() implies #[trigger] file_ok(files, after, s) by {
        assert(file_ok(files, before, s));
        assert(after.handle_at(s) == before.handle_at(s));
        assert(after.file_generation_at(s) == before.file_generation_at(s));
    }
}

/// Vacating the slot of a read leaves the product operations matched.
pub(crate) proof fn lemma_products_after_vacating(
    before: Driver,
    after: Driver,
    products: ProductOps,
    slot: int,
)
    requires
        before.wf(),
        0 <= slot < before.capacity(),
        products_ok(before, products),
        before.request_at(slot) is Some,
        before.request_at(slot)->0 is Read,
        after.restated(before, slot, OpState::Vacant),
    ensures
        products_ok(after, products),
{
    lemma_after_vacating(before, after, slot);
    assert forall|k: int| 0 <= k < products@.len() implies served(
        after,
        (#[trigger] products@[k]).operation,
    ) by {
        assert(served(before, products@[k].operation));
        if let Some((t, kind)) = awaits_of(products@[k].operation) {
            assert(before.live(t));
            assert(t.slot != slot);
        }
    }
    assert forall|s: int|
        0 <= s < after.capacity() && (#[trigger] after.request_at(s)) is Some && !(
        after.request_at(s)->0 is Read) implies awaited_product(after, products, s) by {
        assert(s != slot);
        assert(before.request_at(s) is Some);
        assert(awaited_product(before, products, s));
        assert(after.token_at(s) == before.token_at(s));
    }
}

/// Vacating the slot of a write or a barrier leaves the reads matched.
pub(crate) proof fn lemma_reads_after_vacating(
    before: Driver,
    after: Driver,
    miss: MissTable,
    granule: int,
    slot: int,
)
    requires
        before.wf(),
        0 <= slot < before.capacity(),
        reads_ok(before, miss, granule),
        before.request_at(slot) is Some,
        !(before.request_at(slot)->0 is Read),
        after.restated(before, slot, OpState::Vacant),
    ensures
        reads_ok(after, miss, granule),
{
    lemma_after_vacating(before, after, slot);
    assert forall|i: int| #[trigger] miss.is_pending(i) implies after.live(
        miss.entry_at(i)->0.token,
    ) && after.request_at(miss.entry_at(i)->0.token.slot as int) == Some(
        read_of(miss.entry_at(i)->0, granule),
    ) by {
        assert(before.live(miss.entry_at(i)->0.token));
    }
    assert forall|s: int|
        0 <= s < after.capacity() && (#[trigger] after.request_at(s)) is Some && after.request_at(
            s,
        )->0 is Read implies awaited_read(after, miss, s) by {
        assert(s != slot);
        assert(before.request_at(s) is Some);
        assert(awaited_read(before, miss, s));
        assert(after.token_at(s) == before.token_at(s));
    }
    assert forall|s: int| 0 <= s < after.capacity() implies sound_result(
        #[trigger] after.state_at(s),
    ) by {
        if s != slot {
            assert(sound_result(before.state_at(s)));
        }
    }
}

/// Submitting a read leaves the product operations matched.
pub(crate) proof fn lemma_products_after_read(
    before: Driver,
    after: Driver,
    products: ProductOps,
    token: OpToken,
    request: Request,
)
    requires
        before.wf(),
        products_ok(before, products),
        request is Read,
        after.submitted(before, token, request),
    ensures
        products_ok(after, products),
{
    lemma_after_submit(before, after, token, request);
    assert forall|k: int| 0 <= k < products@.len() implies served(
        after,
        (#[trigger] products@[k]).operation,
    ) by {
        assert(served(before, products@[k].operation));
        if let Some((t, kind)) = awaits_of(products@[k].operation) {
            assert(before.live(t));
        }
    }
    assert forall|s: int|
        0 <= s < after.capacity() && (#[trigger] after.request_at(s)) is Some && !(
        after.request_at(s)->0 is Read) implies awaited_product(after, products, s) by {
        assert(s != token.slot);
        assert(before.request_at(s) is Some);
        assert(awaited_product(before, products, s));
        assert(after.token_at(s) == before.token_at(s));
    }
}

/// Vacating a slot leaves the staging slots matched.
pub(crate) proof fn lemma_staging_after_vacating(before: Driver, after: Driver, arena: WriteArena, slot: int)
    requires
        before.wf(),
        0 <= slot < before.capacity(),
        staging_ok(before, arena),
        after.restated(before, slot, OpState::Vacant),
    ensures
        staging_ok(after, arena),
{
    lemma_after_vacating(before, after, slot);
    assert forall|s: int| 0 <= s < after.capacity() implies staged(
        arena,
        #[trigger] after.request_at(s),
    ) by {
        if s != slot {
            assert(staged(arena, before.request_at(s)));
        }
    }
    assert forall|s: int, t: int|
        0 <= s < after.capacity() && 0 <= t < after.capacity() && staging_of(
            #[trigger] after.request_at(s),
        ) is Some && staging_of(after.request_at(s)) == staging_of(
            #[trigger] after.request_at(t),
        ) implies s == t by {
        assert(s != slot && t != slot);
        assert(before.request_at(s) == after.request_at(s));
        assert(before.request_at(t) == after.request_at(t));
    }
}

/// The file offset and length of the read that fills a page's granule from
/// `filled` bytes on.
pub fn read_span(page: PageId, granule: u32, filled: u32) -> (span: (u64, u32))
    requires
        filled <= granule,
    ensures
        span.0 == page.granule_idx * granule + filled,
        span.1 == granule - filled,
{
    proof {
        assert(page.granule_idx * granule <= 0xffff_ffff * 0xffff_ffff) by (nonlinear_arith)
            requires
                page.granule_idx <= 0xffff_ffff,
                granule <= 0xffff_ffff,
        ;
    }
    let base: u64 = page.granule_idx() as u64 * granule as u64;
    (base + filled as u64, granule - filled)
}

/// Direct I/O needs its file offset, memory offset and length aligned.
pub open spec fn aligned_remainder(
    mode: IoMode,
    file_offset: int,
    destination_offset: int,
    len: int,
) -> bool {
    match mode {
        IoMode::Buffered => true,
        IoMode::Direct(alignment) => alignment.divides(file_offset) && alignment.divides(
            destination_offset,
        ) && alignment.divides(len),
    }
}

/// Whether the rest of a short read can be read in the file's mode.
pub fn remainder_satisfies_io_mode(
    io_mode: IoMode,
    file_offset: u64,
    destination_offset: u32,
    len: u32,
) -> (satisfied: bool)
    ensures
        satisfied == aligned_remainder(
            io_mode,
            file_offset as int,
            destination_offset as int,
            len as int,
        ),
{
    match io_mode {
        IoMode::Buffered => true,
        IoMode::Direct(alignment) => {
            if !alignment.check(file_offset) {
                return false;
            }
            if !alignment.check(destination_offset as u64) {
                return false;
            }
            if !alignment.check(len as u64) {
                return false;
            }
            true
        },
    }
}

/// What the result of a read means for its miss.
#[derive(Debug, Clone, Copy, PartialEq, Eq, Structural)]
pub enum ReadOutcome {
    /// The granule is full.
    Filled,
    /// The rest of the granule is read next.
    Resumed { filled: u32 },
    /// The read has failed.
    Failed { errno: i32 },
}

/// What the result of a read means: no bytes is the end of the file, a short
/// read goes on where direct I/O can, and an error without an errno counts as
/// an I/O error.
pub open spec fn verdict(
    mode: IoMode,
    entry: MissEntry,
    granule: int,
    result: Result<u32, IoError>,
) -> ReadOutcome {
    match result {
        Ok(bytes) => {
            let filled = entry.filled + bytes;
            if bytes == 0 {
                ReadOutcome::Failed { errno: SHORT_READ_EOF_ERRNO }
            } else if filled >= granule {
                ReadOutcome::Filled
            } else if aligned_remainder(
                mode,
                entry.page.granule_idx * granule + filled,
                filled,
                granule - filled,
            ) {
                ReadOutcome::Resumed { filled: filled as u32 }
            } else {
                ReadOutcome::Failed { errno: SHORT_READ_EOF_ERRNO }
            }
        },
        Err(error) => ReadOutcome::Failed {
            errno: match error.raw {
                Some(errno) => errno,
                None => SHORT_READ_EOF_ERRNO,
            },
        },
    }
}

/// Decides what the result of a read means for its miss.
pub fn read_outcome(
    mode: IoMode,
    entry: &MissEntry,
    granule: u32,
    result: Result<u32, IoError>,
) -> (outcome: ReadOutcome)
    requires
        entry.filled <= granule,
        result matches Ok(bytes) ==> bytes <= granule - entry.filled,
    ensures
        outcome == verdict(mode, *entry, granule as int, result),
{
    match result {
        Ok(bytes) => {
            if bytes == 0 {
                return ReadOutcome::Failed { errno: SHORT_READ_EOF_ERRNO };
            }
            let filled: u32 = entry.filled + bytes;
            if filled >= granule {
                return ReadOutcome::Filled;
            }
            let span: (u64, u32) = read_span(entry.page, granule, filled);
            if remainder_satisfies_io_mode(mode, span.0, filled, span.1) {
                ReadOutcome::Resumed { filled }
            } else {
                ReadOutcome::Failed { errno: SHORT_READ_EOF_ERRNO }
            }
        },
        Err(error) => {
            let errno: i32 = match error.raw_os_error() {
                Some(errno) => errno,
                None => SHORT_READ_EOF_ERRNO,
            };
            ReadOutcome::Failed { errno }
        },
    }
}

/// The results that wait in the first `n` slots of the ring.
pub open spec fn finished_below(driver: Driver, n: int) -> int
    decreases n,
{
    if n <= 0 {
        0
    } else if driver.state_at(n - 1) is Finished {
        finished_below(driver, n - 1) + 1
    } else {
        finished_below(driver, n - 1)
    }
}

/// `request` is a write from staging slot `a`.
pub open spec fn stages(request: Option<Request>, a: int) -> bool {
    match staging_of(request) {
        Some(slot) => slot == a,
        None => false,
    }
}

/// A product operation waits for the driver operation in ring slot `slot`.
pub open spec fn waits_in(operation: Option<ProductOp>, slot: u32) -> bool {
    match awaits_of(operation) {
        Some((token, _)) => token.slot == slot,
        None => false,
    }
}

impl Cache {
    /// `self` is `other` once the result of the read in miss slot `i` was
    /// routed: the page is published, the rest of it is asked for, or the read
    /// has failed.
    pub open spec fn read_routed(
        self,
        other: Cache,
        i: int,
        mode: IoMode,
        result: Result<u32, IoError>,
    ) -> bool {
        let entry = other.miss.entry_at(i)->0;
        match verdict(mode, entry, other.granule_bytes() as int, result) {
            ReadOutcome::Filled => {
                &&& self.landed(other, i)
                &&& self.noticed(other, entry.frame)
            },
            ReadOutcome::Resumed { filled } => {
                &&& self.same_but_miss(other)
                &&& self.miss.same_except(other.miss, i)
                &&& self.miss.pending_count() == other.miss.pending_count()
                &&& self.miss.entry_at(i) == Some(
                    MissEntry { filled, token: self.miss.entry_at(i)->0.token, ..entry },
                )
            },
            ReadOutcome::Failed { errno } => self.failed(other, i, errno),
        }
    }
}

impl Pool {
    /// Routing ring slot `slot` takes the cache from `before` to `after`: the
    /// result of a read reaches its miss, and anything else leaves the cache
    /// alone.
    pub open spec fn routes(self, before: Cache, after: Cache, slot: int) -> bool {
        match self.driver.state_at(slot) {
            OpState::Finished(Request::Read { .. }, result) => exists|i: int|
                {
                    &&& #[trigger] before.miss.is_pending(i)
                    &&& before.miss.entry_at(i)->0.token == self.driver.token_at(slot)
                    &&& after.read_routed(
                        before,
                        i,
                        self.mode_of(before.miss.entry_at(i)->0.page.file),
                        result,
                    )
                },
            _ => after == before,
        }
    }

    /// The caches of `trace` come one after the other as the ring slots are
    /// routed in order.
    pub open spec fn cache_steps(self, trace: Seq<Cache>) -> bool {
        &&& trace.len() > 0
        &&& trace[0] == self.cache
        &&& forall|k: int| 0 <= k < trace.len() ==> (#[trigger] trace[k]).wf()
        &&& forall|k: int|
            0 <= k < trace.len() - 1 ==> self.routes(trace[k], #[trigger] trace[k + 1], k)
    }

    /// The cache is that of `other` once the ring slots below `bound` were
    /// routed.
    pub open spec fn cache_routed(self, other: Pool, bound: int) -> bool {
        exists|trace: Seq<Cache>|
            {
                &&& #[trigger] other.cache_steps(trace)
                &&& trace.len() == bound + 1
                &&& trace.last() == self.cache
            }
    }

    /// The record an ended read leaves: none once nobody waits for it.
    pub open spec fn left_behind(self, i: int, outcome: MissOutcome) -> Option<MissEntry> {
        if self.cache.interests@[i].waiters == 0 {
            None
        } else {
            Some(MissEntry { outcome, ..self.cache.miss.entry_at(i)->0 })
        }
    }

    /// The mode of the handle a file is registered with.
    pub open spec fn mode_of(self, file: FileId) -> IoMode {
        self.files.entry_at(file.slot as int)->0.handle->0.mode
    }

    /// Frame `f` is as it was.
    pub open spec fn same_frame(self, other: Pool, f: ReadFrameIdx) -> bool {
        &&& self.cache.residency.frames.word(f) == other.cache.residency.frames.word(f)
        &&& self.cache.residency.frames.page(f) == other.cache.residency.frames.page(f)
        &&& self.cache.residency.frames.contents(f) == other.cache.residency.frames.contents(f)
    }

    /// The miss in slot `i` has ended or gone on as its read's result says.
    pub open spec fn miss_ended(self, other: Pool, i: int, result: Result<u32, IoError>) -> bool {
        let entry = other.cache.miss.entry_at(i)->0;
        let granule = other.cache.granule_bytes() as int;
        match verdict(other.mode_of(entry.page.file), entry, granule, result) {
            ReadOutcome::Filled => {
                &&& self.cache.miss.entry_at(i) == other.left_behind(i, MissOutcome::Succeeded)
                &&& self.cache.residency.frames.residency(entry.frame) is Resident
                &&& self.cache.residency.frames.page(entry.frame) == Some(entry.page)
                &&& self.cache.residency.frames.contents(entry.frame)
                    == other.cache.residency.frames.contents(entry.frame)
            },
            ReadOutcome::Resumed { filled } => {
                let token = self.cache.miss.entry_at(i)->0.token;
                &&& self.cache.miss.entry_at(i) == Some(MissEntry { filled, token, ..entry })
                &&& self.driver.live(token)
                &&& self.driver.state_at(token.slot as int) == OpState::Submitted(
                    read_of(self.cache.miss.entry_at(i)->0, granule),
                )
                &&& self.same_frame(other, entry.frame)
            },
            ReadOutcome::Failed { errno } => {
                &&& self.cache.miss.entry_at(i) == other.left_behind(i, MissOutcome::Failed(errno))
                &&& self.cache.residency.frames.residency(entry.frame) is Free
            },
        }
    }

    /// The miss in slot `i` and its frame are as they were.
    pub open spec fn miss_same(self, other: Pool, i: int) -> bool {
        &&& self.cache.miss.entry_at(i) == other.cache.miss.entry_at(i)
        &&& self.same_frame(other, other.cache.miss.entry_at(i)->0.frame)
    }

    /// The miss in slot `i` is routed if its read has a result in a ring slot
    /// below `bound`, and is as it was otherwise.
    pub open spec fn miss_routed(self, other: Pool, i: int, bound: int) -> bool {
        let slot = other.cache.miss.entry_at(i)->0.token.slot as int;
        match other.driver.state_at(slot) {
            OpState::Finished(_, result) => if slot < bound {
                self.miss_ended(other, i, result)
            } else {
                self.miss_same(other, i)
            },
            _ => self.miss_same(other, i),
        }
    }

    /// The product operation in slot `k`, if its driver operation has a result
    /// in a ring slot below `bound`.
    pub open spec fn product_routed(self, other: Pool, k: int, bound: int) -> bool {
        self.products@[k] == (match awaits_of(other.products@[k].operation) {
            Some((token, _)) => match other.driver.state_at(token.slot as int) {
                OpState::Finished(_, result) => if token.slot < bound {
                    ProductOpSlot {
                        generation: other.products@[k].generation,
                        operation: Some(other.products@[k].operation->0.finished(result)),
                    }
                } else {
                    other.products@[k]
                },
                _ => other.products@[k],
            },
            None => other.products@[k],
        })
    }

    /// A write from staging slot `a` has its result in a ring slot below
    /// `bound`.
    pub open spec fn written_back(self, a: int, bound: int) -> bool {
        exists|s: int|
            0 <= s < bound && s < self.driver.capacity() && (#[trigger] self.driver.state_at(
                s,
            )) is Finished && stages(self.driver.request_at(s), a)
    }

    /// The results in the ring slots below `bound` are routed, and nothing else
    /// has changed.
    pub open spec fn routed_to(self, other: Pool, bound: int) -> bool {
        &&& self.same_shape(other)
        &&& self.files == other.files
        &&& self.wait == other.wait
        &&& self.lifecycle == other.lifecycle
        &&& self.cache.interests == other.cache.interests
        &&& self.cache.reads_in_flight <= other.cache.reads_in_flight
        &&& self.cache.residency.readers == other.cache.residency.readers
        &&& self.cache.residency.pins == other.cache.residency.pins
        &&& self.cache.residency.evict_queue == other.cache.residency.evict_queue
        &&& self.cache.residency.retention == other.cache.residency.retention
        &&& self.cache.residency.epoch == other.cache.residency.epoch
        &&& self.cache.residency.keeps(other.cache.residency)
        &&& self.cache.prefetch.reserved() == other.cache.prefetch.reserved()
        &&& self.cache_routed(other, bound)
        &&& self.products.admitted() == other.products.admitted()
        &&& self.driver.same_files(other.driver)
        &&& forall|i: int| #[trigger]
            other.cache.miss.is_pending(i) ==> self.miss_routed(other, i, bound)
        &&& forall|i: int|
            0 <= i < other.cache.miss.capacity() && !other.cache.miss.is_pending(i)
                ==> #[trigger] self.cache.miss.entry_at(i) == other.cache.miss.entry_at(i)
        &&& forall|f: ReadFrameIdx|
            other.cache.residency.has(f) && !(#[trigger] other.cache.residency.frames.residency(
                f,
            ) is InFlight) ==> self.same_frame(other, f)
        &&& forall|k: int|
            0 <= k < other.products@.len() ==> #[trigger] self.product_routed(other, k, bound)
        &&& forall|a: int|
            0 <= a < other.arena.slot_count() ==> #[trigger] self.arena.is_free(a) == (
            other.arena.is_free(a) || other.written_back(a, bound))
        &&& forall|a: int|
            0 <= a < other.arena.slot_count() ==> #[trigger] self.arena.contents(a)
                == other.arena.contents(a)
        &&& forall|s: int|
            0 <= s < other.driver.capacity() ==> #[trigger] self.slot_routed(other, s, bound)
    }

    /// What routing makes of ring slot `s`: a routed result leaves it, and a
    /// vacant slot may take the rest of a short read.
    pub open spec fn slot_routed(self, other: Pool, s: int, bound: int) -> bool {
        let state = self.driver.state_at(s);
        if other.driver.state_at(s) is Vacant || other.driver.state_at(s) is Finished && s < bound {
            ||| state is Vacant && self.driver.generation_at(s) == other.driver.generation_at(s)
            ||| state is Submitted && state->Submitted_0 is Read && self.driver.generation_at(s)
                == other.driver.generation_at(s).wrapping_add(1)
        } else {
            state == other.driver.state_at(s) && self.driver.generation_at(s)
                == other.driver.generation_at(s)
        }
    }

    /// The pool is `other` with the result in ring slot `slot` taken out.
    spec fn taken_from(self, other: Pool, slot: int) -> bool {
        &&& self.cache == other.cache
        &&& self.files == other.files
        &&& self.products == other.products
        &&& self.arena == other.arena
        &&& self.wait == other.wait
        &&& self.lifecycle == other.lifecycle
        &&& self.write_slots == other.write_slots
        &&& self.identity == other.identity
        &&& self.driver.wf()
        &&& self.driver.restated(other.driver, slot, OpState::Vacant)
    }

    /// Two misses in flight never wait for one ring slot.
    proof fn lemma_one_reader_per_slot(self, i: int, j: int)
        requires
            self.wf(),
            self.cache.miss.is_pending(i),
            self.cache.miss.is_pending(j),
            self.cache.miss.entry_at(i)->0.token.slot == self.cache.miss.entry_at(j)->0.token.slot,
        ensures
            i == j,
    {
        self.lemma_facts();
        self.cache.lemma_facts();
    }

    /// The end of a read keeps the pool in order.
    proof fn lemma_read_ended(self, before: Pool, i: int, slot: int)
        requires
            before.wf(),
            before.cache.miss.is_pending(i),
            before.cache.miss.entry_at(i)->0.token.slot == slot,
            self.files == before.files,
            self.products == before.products,
            self.arena == before.arena,
            self.write_slots == before.write_slots,
            self.identity == before.identity,
            self.driver.wf(),
            self.driver.restated(before.driver, slot, OpState::Vacant),
            self.cache.wf(),
            self.cache.same_shape(before.cache),
            self.cache.miss.same_except(before.cache.miss, i),
            self.cache.miss.entry_at(i) is None || !(self.cache.miss.entry_at(i)->0.outcome
                == MissOutcome::Pending),
            forall|f: ReadFrameIdx|
                self.cache.residency.has(f) && f != before.cache.miss.entry_at(i)->0.frame
                    ==> #[trigger] self.cache.residency.frames.word(f)
                    == before.cache.residency.frames.word(f),
            forall|f: ReadFrameIdx|
                self.cache.residency.has(f) && f != before.cache.miss.entry_at(i)->0.frame
                    ==> #[trigger] self.cache.residency.frames.page(f)
                    == before.cache.residency.frames.page(f),
            self.cache.residency.frames.published(before.cache.miss.entry_at(i)->0.frame)
                ==> self.cache.residency.frames.page(before.cache.miss.entry_at(i)->0.frame)
                == Some(before.cache.miss.entry_at(i)->0.page),
            self.cache.interests == before.cache.interests,
            self.cache.miss.entry_at(i) is Some ==> self.cache.miss.entry_at(i)->0.page
                == before.cache.miss.entry_at(i)->0.page,
        ensures
            self.wf(),
            self.same_shape(before),
            !self.cache.miss.is_pending(i),
    {
        before.lemma_facts();
        let entry = before.cache.miss.entry_at(i)->0;
        lemma_after_vacating(before.driver, self.driver, slot);
        lemma_files_after_vacating(before.files, before.driver, self.driver, slot);
        assert(!self.cache.miss.is_pending(i));
        assert forall|j: int| #[trigger]
            self.cache.miss.is_pending(j) <==> before.cache.miss.is_pending(j) && j != i by {
            if 0 <= j < self.cache.miss.capacity() && j != i {
                assert(self.cache.miss.entry_at(j) == before.cache.miss.entry_at(j));
            }
        }
        assert forall|j: int| #[trigger] self.cache.miss.is_pending(j) implies self.driver.live(
            self.cache.miss.entry_at(j)->0.token,
        ) && self.driver.request_at(self.cache.miss.entry_at(j)->0.token.slot as int) == Some(
            read_of(self.cache.miss.entry_at(j)->0, self.cache.granule_bytes() as int),
        ) by {
            assert(before.cache.miss.is_pending(j));
            assert(self.cache.miss.entry_at(j) == before.cache.miss.entry_at(j));
            if before.cache.miss.entry_at(j)->0.token.slot == slot {
                before.lemma_one_reader_per_slot(i, j);
            }
            assert(before.driver.live(before.cache.miss.entry_at(j)->0.token));
        }
        assert forall|s: int|
            0 <= s < self.driver.capacity() && (#[trigger] self.driver.request_at(s)) is Some
                && self.driver.request_at(s)->0 is Read implies awaited_read(
            self.driver,
            self.cache.miss,
            s,
        ) by {
            assert(s != slot);
            assert(before.driver.request_at(s) is Some);
            assert(awaited_read(before.driver, before.cache.miss, s));
            let j = choose|j: int| #[trigger]
                before.cache.miss.is_pending(j) && before.cache.miss.entry_at(j)->0.token
                    == before.driver.token_at(s);
            before.driver.lemma_capacity();
            assert(j != i);
            assert(self.cache.miss.is_pending(j));
            assert(self.cache.miss.entry_at(j) == before.cache.miss.entry_at(j));
            assert(self.driver.token_at(s) == before.driver.token_at(s));
        }
        assert forall|s: int| 0 <= s < self.driver.capacity() implies sound_result(
            #[trigger] self.driver.state_at(s),
        ) by {
            if s != slot {
                assert(sound_result(before.driver.state_at(s)));
            }
        }
        assert(before.driver.request_at(slot)->0 is Read);
        lemma_products_after_vacating(before.driver, self.driver, before.products, slot);
        lemma_staging_after_vacating(before.driver, self.driver, before.arena, slot);
        assert forall|j: int| #[trigger] self.cache.miss.is_pending(j) implies self.files.backs(
            self.cache.miss.entry_at(j)->0.page.file,
        ) by {
            assert(before.cache.miss.is_pending(j));
            assert(self.cache.miss.entry_at(j) == before.cache.miss.entry_at(j));
        }
        assert forall|j: int| #[trigger] attended(self.cache, j) implies self.files.backs(
            self.cache.miss.entry_at(j)->0.page.file,
        ) by {
            if j != i {
                assert(self.cache.miss.entry_at(j) == before.cache.miss.entry_at(j));
                assert(attended(before.cache, j));
            }
        }
        assert forall|f: ReadFrameIdx|
            self.cache.residency.has(f) && #[trigger] self.cache.residency.frames.published(
                f,
            ) implies self.files.backs(self.cache.residency.frames.page(f)->0.file) by {
            if f != entry.frame {
                assert(self.cache.residency.frames.word(f)
                    == before.cache.residency.frames.word(f));
                assert(before.cache.residency.frames.published(f));
                assert(self.cache.residency.frames.page(f) == before.cache.residency.frames.page(
                    f,
                ));
            }
        }
        self.lemma_whole();
    }

    /// Going on with a short read keeps the pool in order.
    proof fn lemma_read_resumed(
        self,
        before: Pool,
        middle: Pool,
        i: int,
        slot: int,
        filled: u32,
        token: OpToken,
    )
        requires
            before.wf(),
            before.cache.miss.is_pending(i),
            before.cache.miss.entry_at(i)->0.token.slot == slot,
            middle.taken_from(before, slot),
            self.files == before.files,
            self.products == before.products,
            self.arena == before.arena,
            self.write_slots == before.write_slots,
            self.identity == before.identity,
            self.driver.wf(),
            before.cache.granule_bytes() <= u32::MAX,
            self.driver.submitted(
                middle.driver,
                token,
                read_of(
                    MissEntry { filled, token, ..before.cache.miss.entry_at(i)->0 },
                    before.cache.granule_bytes() as int,
                ),
            ),
            self.cache.wf(),
            self.cache.same_shape(before.cache),
            self.cache.same_but_miss(before.cache),
            self.cache.miss.same_except(before.cache.miss, i),
            self.cache.miss.entry_at(i) == Some(
                MissEntry { filled, token, ..before.cache.miss.entry_at(i)->0 },
            ),
        ensures
            self.wf(),
            self.same_shape(before),
            self.driver.same_files(before.driver),
            forall|s: int|
                0 <= s < before.driver.capacity() && s != slot && !((
                #[trigger] before.driver.state_at(s)) is Vacant) ==> self.driver.state_at(s)
                    == before.driver.state_at(s) && self.driver.generation_at(s)
                    == before.driver.generation_at(s),
            !(self.driver.state_at(slot) is Finished),
    {
        before.lemma_facts();
        let request = read_of(
            self.cache.miss.entry_at(i)->0,
            before.cache.granule_bytes() as int,
        );
        lemma_after_vacating(before.driver, middle.driver, slot);
        lemma_files_after_vacating(before.files, before.driver, middle.driver, slot);
        lemma_after_submit(middle.driver, self.driver, token, request);
        lemma_files_after_submit(before.files, middle.driver, self.driver, token, request);
        assert(before.driver.request_at(slot)->0 is Read);
        lemma_products_after_vacating(before.driver, middle.driver, before.products, slot);
        lemma_products_after_read(middle.driver, self.driver, before.products, token, request);
        lemma_staging_after_vacating(before.driver, middle.driver, before.arena, slot);
        lemma_staging_after_submit(middle.driver, self.driver, before.arena, token, request);
        assert forall|j: int| #[trigger]
            self.cache.miss.is_pending(j) <==> before.cache.miss.is_pending(j) by {
            if 0 <= j < self.cache.miss.capacity() && j != i {
                assert(self.cache.miss.entry_at(j) == before.cache.miss.entry_at(j));
            }
        }
        assert forall|j: int| #[trigger] self.cache.miss.is_pending(j) implies self.driver.live(
            self.cache.miss.entry_at(j)->0.token,
        ) && self.driver.request_at(self.cache.miss.entry_at(j)->0.token.slot as int) == Some(
            read_of(self.cache.miss.entry_at(j)->0, self.cache.granule_bytes() as int),
        ) by {
            if j != i {
                assert(before.cache.miss.is_pending(j));
                assert(self.cache.miss.entry_at(j) == before.cache.miss.entry_at(j));
                if before.cache.miss.entry_at(j)->0.token.slot == slot {
                    before.lemma_one_reader_per_slot(i, j);
                }
                assert(before.driver.live(before.cache.miss.entry_at(j)->0.token));
                assert(middle.driver.live(before.cache.miss.entry_at(j)->0.token));
            }
        }
        assert forall|s: int|
            0 <= s < self.driver.capacity() && (#[trigger] self.driver.request_at(s)) is Some
                && self.driver.request_at(s)->0 is Read implies awaited_read(
            self.driver,
            self.cache.miss,
            s,
        ) by {
            if s == token.slot {
                assert(self.cache.miss.is_pending(i));
            } else {
                assert(middle.driver.request_at(s) is Some);
                assert(s != slot);
                assert(before.driver.request_at(s) is Some);
                assert(awaited_read(before.driver, before.cache.miss, s));
                let j = choose|j: int| #[trigger]
                    before.cache.miss.is_pending(j) && before.cache.miss.entry_at(j)->0.token
                        == before.driver.token_at(s);
                before.driver.lemma_capacity();
                assert(j != i);
                assert(self.cache.miss.is_pending(j));
                assert(self.cache.miss.entry_at(j) == before.cache.miss.entry_at(j));
                assert(middle.driver.token_at(s) == before.driver.token_at(s));
                assert(self.driver.token_at(s) == middle.driver.token_at(s));
            }
        }
        assert forall|s: int| 0 <= s < self.driver.capacity() implies sound_result(
            #[trigger] self.driver.state_at(s),
        ) by {
            if s != token.slot {
                assert(self.driver.state_at(s) == middle.driver.state_at(s));
                if s != slot {
                    assert(middle.driver.state_at(s) == before.driver.state_at(s));
                    assert(sound_result(before.driver.state_at(s)));
                }
            }
        }
        assert forall|j: int| #[trigger] attended(self.cache, j) implies self.files.backs(
            self.cache.miss.entry_at(j)->0.page.file,
        ) by {
            if j != i {
                assert(self.cache.miss.entry_at(j) == before.cache.miss.entry_at(j));
                assert(attended(before.cache, j));
            }
        }
        assert forall|j: int| #[trigger] self.cache.miss.is_pending(j) implies self.files.backs(
            self.cache.miss.entry_at(j)->0.page.file,
        ) by {
            assert(before.cache.miss.is_pending(j));
            if j != i {
                assert(self.cache.miss.entry_at(j) == before.cache.miss.entry_at(j));
            }
        }
        assert forall|s: int|
            0 <= s < self.driver.file_capacity() implies #[trigger] self.driver.handle_at(s)
            == before.driver.handle_at(s) by {
            assert(middle.driver.handle_at(s) == before.driver.handle_at(s));
        }
        assert forall|s: int|
            0 <= s < self.driver.file_capacity() implies #[trigger] self.driver.file_generation_at(
            s,
        ) == before.driver.file_generation_at(s) by {
            assert(middle.driver.file_generation_at(s) == before.driver.file_generation_at(s));
        }
        assert forall|s: int|
            0 <= s < before.driver.capacity() && s != slot && !((#[trigger] before.driver.state_at(
                s,
            )) is Vacant) implies self.driver.state_at(s) == before.driver.state_at(s)
            && self.driver.generation_at(s) == before.driver.generation_at(s) by {
            assert(middle.driver.state_at(s) == before.driver.state_at(s));
            assert(middle.driver.generation_at(s) == before.driver.generation_at(s));
            assert(s != token.slot);
        }
        if slot != token.slot {
            assert(self.driver.state_at(slot) == middle.driver.state_at(slot));
        }
        self.lemma_whole();
    }

    /// Routes the result of a read to its miss.
    #[verifier::rlimit(80)]
    #[verifier::spinoff_prover]
    fn route_read(&mut self, Ghost(before): Ghost<Pool>, completion: Completion)
        requires
            before.wf(),
            before.cache.wear < WEAR_MAX,
            completion.token.slot < before.driver.capacity(),
            completion.token == before.driver.token_at(completion.token.slot as int),
            before.driver.state_at(completion.token.slot as int) == OpState::Finished(
                completion.request,
                completion.result,
            ),
            completion.request is Read,
            old(self).taken_from(before, completion.token.slot as int),
        ensures
            final(self).wf(),
            final(self).same_shape(before),
            final(self).files == before.files,
            final(self).products == before.products,
            final(self).arena == before.arena,
            final(self).wait == before.wait,
            final(self).lifecycle == before.lifecycle,
            final(self).cache.interests == before.cache.interests,
            final(self).cache.reads_in_flight <= before.cache.reads_in_flight,
            final(self).cache.residency.readers == before.cache.residency.readers,
            final(self).cache.residency.pins == before.cache.residency.pins,
            final(self).cache.residency.evict_queue == before.cache.residency.evict_queue,
            final(self).cache.residency.retention == before.cache.residency.retention,
            final(self).cache.residency.epoch == before.cache.residency.epoch,
            final(self).cache.residency.keeps(before.cache.residency),
            final(self).cache.prefetch.reserved() == before.cache.prefetch.reserved(),
            final(self).driver.same_files(before.driver),
            before.cache.wear <= final(self).cache.wear <= before.cache.wear + 1,
            exists|i: int|
                {
                    &&& before.cache.miss.is_pending(i)
                    &&& before.cache.miss.entry_at(i)->0.token == completion.token
                    &&& #[trigger] final(self).miss_ended(before, i, completion.result)
                    &&& final(self).cache.read_routed(
                        before.cache,
                        i,
                        before.mode_of(before.cache.miss.entry_at(i)->0.page.file),
                        completion.result,
                    )
                    &&& final(self).cache.miss.same_except(before.cache.miss, i)
                    &&& forall|f: ReadFrameIdx|
                        before.cache.residency.has(f) && f
                            != before.cache.miss.entry_at(i)->0.frame
                            ==> #[trigger] final(self).same_frame(before, f)
                },
            forall|s: int|
                0 <= s < before.driver.capacity() && s != completion.token.slot && !((
                #[trigger] before.driver.state_at(s)) is Vacant) ==> final(self).driver.state_at(s)
                    == before.driver.state_at(s) && final(self).driver.generation_at(s)
                    == before.driver.generation_at(s),
            forall|s: int|
                0 <= s < before.driver.capacity() && (s == completion.token.slot
                    || before.driver.state_at(s) is Vacant) ==> {
                    let state = #[trigger] final(self).driver.state_at(s);
                    ||| state is Vacant && final(self).driver.generation_at(s) == before.driver.generation_at(s)
                    ||| state is Submitted && state->Submitted_0 is Read && final(self).driver.generation_at(s)
                        == before.driver.generation_at(s).wrapping_add(1)
                },
    {
        let ghost slot = completion.token.slot as int;
        proof {
            before.lemma_facts();
            before.cache.lemma_facts();
            assert(before.driver.request_at(slot) is Some);
            assert(awaited_read(before.driver, before.cache.miss, slot));
            assert(before.cache.residency.frames.wf()) by {
                before.cache.residency.lemma_facts();
            }
            before.cache.residency.frames.lemma_positive();
        }
        let index: usize = match self.cache.miss.find_by_token(completion.token) {
            Some(index) => index,
            None => {
                return;
            },
        };
        let ghost i = index as int;
        let entry: MissEntry = self.cache.miss.entry(index).unwrap();
        let granule: u32 = self.cache.residency.frames.granule();
        let handle: FileHandle = self.files.registered_file(entry.page.file);
        proof {
            assert(before.cache.miss.is_pending(i));
            assert(crate::pool::cache::flight_at(before.cache.residency.frames, entry));
            assert(before.files.backs(entry.page.file));
            assert(before.driver.request_at(slot) == Some(read_of(entry, granule as int)));
            assert(sound_result(before.driver.state_at(slot)));
            let file = entry.page.file;
            before.files.lemma_slot(file.slot as int);
            assert(file_ok(before.files, before.driver, file.slot as int));
            assert(self.driver.handle_at(file.slot as int) == before.driver.handle_at(
                file.slot as int,
            ));
            assert(self.driver.file_generation_at(file.slot as int)
                == before.driver.file_generation_at(file.slot as int));
            assert(self.driver.is_open(handle));
            assert(self.driver.state_at(slot) is Vacant);
            assert(self.driver.has_room());
        }
        match read_outcome(handle.io_mode(), &entry, granule, completion.result) {
            ReadOutcome::Filled => {
                self.cache.finish_success(index);
                proof {
                    self.lemma_read_ended(before, i, slot);
                    assert(self.miss_ended(before, i, completion.result));
                }
            },
            ReadOutcome::Failed { errno } => {
                self.cache.finish_failure(index, errno);
                proof {
                    self.lemma_read_ended(before, i, slot);
                    assert(self.miss_ended(before, i, completion.result));
                }
            },
            ReadOutcome::Resumed { filled } => {
                let span: (u64, u32) = read_span(entry.page, granule, filled);
                let ghost middle = *self;
                if let Ok(token) = self.driver.submit_read(
                    &handle,
                    entry.frame,
                    span.0,
                    filled,
                    span.1,
                ) {
                    self.cache.advance_remainder(index, filled, token);
                    proof {
                        self.lemma_read_resumed(before, middle, i, slot, filled, token);
                        before.cache.residency.lemma_keeps_itself();
                        assert(self.miss_ended(before, i, completion.result));
                        assert forall|s: int|
                            0 <= s < before.driver.capacity() && (s == slot
                                || before.driver.state_at(s) is Vacant) implies {
                            let state = #[trigger] self.driver.state_at(s);
                            ||| state is Vacant && self.driver.generation_at(s) == before.driver.generation_at(s)
                            ||| state is Submitted && state->Submitted_0 is Read && self.driver.generation_at(s)
                                == before.driver.generation_at(s).wrapping_add(1)
                        } by {
                            if s != token.slot {
                                assert(self.driver.state_at(s) == middle.driver.state_at(s));
                            }
                        }
                    }
                }
            },
        }
    }

    /// Routes the result of a write or a barrier to its product operation, and
    /// gives a written staging slot back.
    #[verifier::rlimit(60)]
    #[verifier::spinoff_prover]
    fn finish_product_completion(&mut self, Ghost(before): Ghost<Pool>, completion: Completion)
        requires
            before.wf(),
            completion.token.slot < before.driver.capacity(),
            completion.token == before.driver.token_at(completion.token.slot as int),
            before.driver.state_at(completion.token.slot as int) == OpState::Finished(
                completion.request,
                completion.result,
            ),
            !(completion.request is Read),
            old(self).taken_from(before, completion.token.slot as int),
        ensures
            final(self).wf(),
            final(self).same_shape(before),
            final(self).cache == before.cache,
            final(self).files == before.files,
            final(self).wait == before.wait,
            final(self).lifecycle == before.lifecycle,
            final(self).driver == old(self).driver,
            final(self).products.admitted() == before.products.admitted(),
            exists|k: int|
                {
                    &&& 0 <= k < before.products@.len()
                    &&& awaits_of((#[trigger] before.products@[k]).operation) == Some(
                        (completion.token, completion.request.sort()),
                    )
                    &&& final(self).products@ == before.products@.update(
                        k,
                        ProductOpSlot {
                            generation: before.products@[k].generation,
                            operation: Some(
                                before.products@[k].operation->0.finished(completion.result),
                            ),
                        },
                    )
                },
            forall|a: int|
                0 <= a < before.arena.slot_count() ==> #[trigger] final(self).arena.is_free(a) == (
                before.arena.is_free(a) || stages(Some(completion.request), a)),
            forall|a: int|
                0 <= a < before.arena.slot_count() ==> #[trigger] final(self).arena.contents(a)
                    == before.arena.contents(a),
    {
        let ghost slot = completion.token.slot as int;
        let ghost start = *self;
        proof {
            before.lemma_facts();
            assert(before.driver.request_at(slot) == Some(completion.request));
            assert(awaited_product(before.driver, before.products, slot));
            assert(staged(before.arena, before.driver.request_at(slot)));
        }
        let kind: OpKind = completion.request.kind();
        let ghost sort = completion.request.sort();
        let found: Option<u32> = self.products.finish(completion.token, kind, completion.result);
        proof {
            let k = choose|k: int|
                0 <= k < before.products@.len() && awaits_of(
                    (#[trigger] before.products@[k]).operation,
                ) == Some((before.driver.token_at(slot), before.driver.request_at(slot)->0.sort()));
            assert(before.products.waits_at(k, completion.token, sort));
        }
        if let Request::Write { slot: staging, .. } = completion.request {
            let _ = self.arena.release(staging);
        }
        proof {
            let k = found->0 as int;
            assert(awaits_of(before.products@[k].operation) == Some((completion.token, sort)));
            lemma_after_vacating(before.driver, self.driver, slot);
            lemma_files_after_vacating(before.files, before.driver, self.driver, slot);
            lemma_reads_after_vacating(
                before.driver,
                self.driver,
                before.cache.miss,
                before.cache.granule_bytes() as int,
                slot,
            );
            assert forall|l: int| 0 <= l < self.products@.len() implies served(
                self.driver,
                (#[trigger] self.products@[l]).operation,
            ) by {
                if l != k {
                    assert(self.products@[l] == before.products@[l]);
                    assert(served(before.driver, before.products@[l].operation));
                    if let Some((t, other)) = awaits_of(before.products@[l].operation) {
                        assert(before.driver.live(t));
                        if t.slot == slot {
                            assert(t == completion.token);
                            assert(awaits_of(before.products@[l].operation) == awaits_of(
                                before.products@[k].operation,
                            ));
                        }
                    }
                }
            }
            assert forall|s: int|
                0 <= s < self.driver.capacity() && (#[trigger] self.driver.request_at(s)) is Some
                    && !(self.driver.request_at(s)->0 is Read) implies awaited_product(
                self.driver,
                self.products,
                s,
            ) by {
                assert(s != slot);
                assert(before.driver.request_at(s) is Some);
                assert(awaited_product(before.driver, before.products, s));
                let l = choose|l: int|
                    0 <= l < before.products@.len() && awaits_of(
                        (#[trigger] before.products@[l]).operation,
                    ) == Some((before.driver.token_at(s), before.driver.request_at(s)->0.sort()));
                before.driver.lemma_capacity();
                assert(l != k);
                assert(self.products@[l] == before.products@[l]);
                assert(self.driver.token_at(s) == before.driver.token_at(s));
            }
            assert forall|l: int, m: int|
                0 <= l < self.products@.len() && 0 <= m < self.products@.len() && awaits_of(
                    (#[trigger] self.products@[l]).operation,
                ) is Some && awaits_of(self.products@[l].operation) == awaits_of(
                    (#[trigger] self.products@[m]).operation,
                ) implies l == m by {
                assert(l != k && m != k);
                assert(self.products@[l] == before.products@[l]);
                assert(self.products@[m] == before.products@[m]);
            }
            assert forall|s: int| 0 <= s < self.driver.capacity() implies staged(
                self.arena,
                #[trigger] self.driver.request_at(s),
            ) by {
                if s != slot {
                    assert(self.driver.request_at(s) == before.driver.request_at(s));
                    assert(staged(before.arena, before.driver.request_at(s)));
                }
            }
            lemma_staging_after_vacating(before.driver, self.driver, before.arena, slot);
            assert forall|l: int|
                0 <= l < self.products@.len() && (#[trigger] self.products@[l]).operation
                    is Some implies self.files.backs(self.products@[l].operation->0.target()) by {
                assert(before.products@[l].operation is Some);
            }
            self.lemma_whole();
        }
    }

    /// Takes the result in ring slot `slot`, if there is one, and routes it.
    #[verifier::rlimit(60)]
    #[verifier::spinoff_prover]
    fn route_completion(&mut self, slot: u32) -> (routed: bool)
        requires
            old(self).wf(),
            slot < old(self).driver.capacity(),
            old(self).cache.wear < WEAR_MAX,
        ensures
            final(self).wf(),
            routed == (old(self).driver.state_at(slot as int) is Finished),
            old(self).cache.wear <= final(self).cache.wear <= old(self).cache.wear + 1,
            !routed ==> *final(self) == *old(self),
            final(self).same_shape(*old(self)),
            final(self).files == old(self).files,
            final(self).wait == old(self).wait,
            final(self).lifecycle == old(self).lifecycle,
            final(self).cache.interests == old(self).cache.interests,
            final(self).cache.reads_in_flight <= old(self).cache.reads_in_flight,
            final(self).cache.residency.readers == old(self).cache.residency.readers,
            final(self).cache.residency.pins == old(self).cache.residency.pins,
            final(self).cache.residency.evict_queue == old(self).cache.residency.evict_queue,
            final(self).cache.residency.retention == old(self).cache.residency.retention,
            final(self).cache.residency.epoch == old(self).cache.residency.epoch,
            final(self).cache.residency.keeps(old(self).cache.residency),
            final(self).cache.prefetch.reserved() == old(self).cache.prefetch.reserved(),
            old(self).routes(old(self).cache, final(self).cache, slot as int),
            final(self).products.admitted() == old(self).products.admitted(),
            final(self).driver.same_files(old(self).driver),
            forall|i: int| #[trigger]
                old(self).cache.miss.is_pending(i) ==> {
                    let entry = old(self).cache.miss.entry_at(i)->0;
                    match old(self).driver.state_at(slot as int) {
                        OpState::Finished(_, result) => if entry.token.slot == slot {
                            final(self).miss_ended(*old(self), i, result)
                        } else {
                            final(self).miss_same(*old(self), i)
                        },
                        _ => final(self).miss_same(*old(self), i),
                    }
                },
            forall|i: int|
                0 <= i < old(self).cache.miss.capacity() && !old(self).cache.miss.is_pending(i)
                    ==> #[trigger] final(self).cache.miss.entry_at(i) == old(self).cache.miss.entry_at(
                    i,
                ),
            forall|f: ReadFrameIdx|
                old(self).cache.residency.has(f) && !(#[trigger] old(self).cache.residency.frames.residency(
                    f,
                ) is InFlight) ==> final(self).same_frame(*old(self), f),
            forall|k: int|
                0 <= k < old(self).products@.len() ==> #[trigger] final(self).products@[k] == (
                match old(self).driver.state_at(slot as int) {
                    OpState::Finished(_, result) => if waits_in(
                        old(self).products@[k].operation,
                        slot,
                    ) {
                        ProductOpSlot {
                            generation: old(self).products@[k].generation,
                            operation: Some(old(self).products@[k].operation->0.finished(result)),
                        }
                    } else {
                        old(self).products@[k]
                    },
                    _ => old(self).products@[k],
                }),
            forall|a: int|
                0 <= a < old(self).arena.slot_count() ==> #[trigger] final(self).arena.is_free(a)
                    == (old(self).arena.is_free(a) || routed && stages(
                    old(self).driver.request_at(slot as int),
                    a,
                )),
            forall|a: int|
                0 <= a < old(self).arena.slot_count() ==> #[trigger] final(self).arena.contents(a)
                    == old(self).arena.contents(a),
            forall|s: int|
                0 <= s < old(self).driver.capacity() && s != slot && !((#[trigger] old(self).driver.state_at(
                    s,
                )) is Vacant) ==> final(self).driver.state_at(s) == old(self).driver.state_at(s)
                    && final(self).driver.generation_at(s) == old(self).driver.generation_at(s),
            forall|s: int|
                0 <= s < old(self).driver.capacity() && (routed && s == slot || old(self).driver.state_at(
                    s,
                ) is Vacant) ==> {
                    let state = #[trigger] final(self).driver.state_at(s);
                    ||| state is Vacant && final(self).driver.generation_at(s) == old(self).driver.generation_at(s)
                    ||| state is Submitted && state->Submitted_0 is Read && final(self).driver.generation_at(s)
                        == old(self).driver.generation_at(s).wrapping_add(1)
                },
    {
        let ghost before = *self;
        proof {
            before.lemma_facts();
            before.cache.lemma_facts();
            before.driver.lemma_capacity();
            before.cache.residency.lemma_keeps_itself();
        }
        let completion: Completion = match self.driver.take_completion(slot) {
            Some(completion) => completion,
            None => {
                return false;
            },
        };
        proof {
            assert(before.driver.request_at(slot as int) == Some(completion.request));
            assert forall|k: int|
                0 <= k < before.products@.len() && waits_in(
                    (#[trigger] before.products@[k]).operation,
                    slot,
                ) implies awaits_of(before.products@[k].operation) == Some(
                (completion.token, completion.request.sort()),
            ) by {
                assert(served(before.driver, before.products@[k].operation));
            }
        }
        if let Request::Read { .. } = completion.request {
            self.route_read(Ghost(before), completion);
            proof {
                let i = choose|i: int|
                    {
                        &&& before.cache.miss.is_pending(i)
                        &&& before.cache.miss.entry_at(i)->0.token == completion.token
                        &&& #[trigger] self.miss_ended(before, i, completion.result)
                        &&& self.cache.read_routed(
                            before.cache,
                            i,
                            before.mode_of(before.cache.miss.entry_at(i)->0.page.file),
                            completion.result,
                        )
                        &&& self.cache.miss.same_except(before.cache.miss, i)
                        &&& forall|f: ReadFrameIdx|
                            before.cache.residency.has(f) && f
                                != before.cache.miss.entry_at(i)->0.frame
                                ==> #[trigger] self.same_frame(before, f)
                    };
                assert forall|j: int| #[trigger] before.cache.miss.is_pending(j) implies (
                if before.cache.miss.entry_at(j)->0.token.slot == slot {
                    self.miss_ended(before, j, completion.result)
                } else {
                    self.miss_same(before, j)
                }) by {
                    if before.cache.miss.entry_at(j)->0.token.slot == slot {
                        before.lemma_one_reader_per_slot(i, j);
                    } else {
                        assert(j != i);
                        assert(crate::pool::cache::flight_at(
                            before.cache.residency.frames,
                            before.cache.miss.entry_at(j)->0,
                        ));
                        assert(self.same_frame(before, before.cache.miss.entry_at(j)->0.frame));
                    }
                }
                assert forall|f: ReadFrameIdx|
                    before.cache.residency.has(f)
                        && !(#[trigger] before.cache.residency.frames.residency(
                        f,
                    ) is InFlight) implies self.same_frame(before, f) by {
                    assert(crate::pool::cache::flight_at(
                        before.cache.residency.frames,
                        before.cache.miss.entry_at(i)->0,
                    ));
                }
            }
        } else {
            self.finish_product_completion(Ghost(before), completion);
            proof {
                assert forall|j: int| #[trigger] before.cache.miss.is_pending(
                    j,
                ) implies before.cache.miss.entry_at(j)->0.token.slot != slot by {
                    assert(before.driver.live(before.cache.miss.entry_at(j)->0.token));
                }
                assert forall|k: int, l: int|
                    0 <= k < before.products@.len() && 0 <= l < before.products@.len()
                        && awaits_of((#[trigger] before.products@[k]).operation) == Some(
                        (completion.token, completion.request.sort()),
                    ) && awaits_of((#[trigger] before.products@[l]).operation) == Some(
                        (completion.token, completion.request.sort()),
                    ) implies k == l by {
                }
            }
        }
        true
    }

    /// Routing one slot more.
    #[verifier::rlimit(60)]
    #[verifier::spinoff_prover]
    proof fn lemma_routed_one(self, middle: Pool, before: Pool, slot: int, routed: bool)
        requires
            before.wf(),
            middle.wf(),
            self.wf(),
            0 <= slot < before.driver.capacity(),
            middle.routed_to(before, slot),
            self.same_shape(middle),
            self.files == middle.files,
            self.wait == middle.wait,
            self.lifecycle == middle.lifecycle,
            self.cache.interests == middle.cache.interests,
            self.cache.reads_in_flight <= middle.cache.reads_in_flight,
            self.cache.residency.readers == middle.cache.residency.readers,
            self.cache.residency.pins == middle.cache.residency.pins,
            self.cache.residency.evict_queue == middle.cache.residency.evict_queue,
            self.cache.residency.retention == middle.cache.residency.retention,
            self.cache.residency.epoch == middle.cache.residency.epoch,
            self.cache.residency.keeps(middle.cache.residency),
            self.cache.prefetch.reserved() == middle.cache.prefetch.reserved(),
            middle.routes(middle.cache, self.cache, slot),
            self.products.admitted() == middle.products.admitted(),
            self.driver.same_files(middle.driver),
            routed == (middle.driver.state_at(slot) is Finished),
            forall|i: int| #[trigger]
                middle.cache.miss.is_pending(i) ==> {
                    let entry = middle.cache.miss.entry_at(i)->0;
                    match middle.driver.state_at(slot) {
                        OpState::Finished(_, result) => if entry.token.slot == slot {
                            self.miss_ended(middle, i, result)
                        } else {
                            self.miss_same(middle, i)
                        },
                        _ => self.miss_same(middle, i),
                    }
                },
            forall|i: int|
                0 <= i < middle.cache.miss.capacity() && !middle.cache.miss.is_pending(i)
                    ==> #[trigger] self.cache.miss.entry_at(i) == middle.cache.miss.entry_at(i),
            forall|f: ReadFrameIdx|
                middle.cache.residency.has(f)
                    && !(#[trigger] middle.cache.residency.frames.residency(f) is InFlight)
                    ==> self.same_frame(middle, f),
            forall|k: int|
                0 <= k < middle.products@.len() ==> #[trigger] self.products@[k] == (
                match middle.driver.state_at(slot) {
                    OpState::Finished(_, result) => if waits_in(
                        middle.products@[k].operation,
                        slot as u32,
                    ) {
                        ProductOpSlot {
                            generation: middle.products@[k].generation,
                            operation: Some(middle.products@[k].operation->0.finished(result)),
                        }
                    } else {
                        middle.products@[k]
                    },
                    _ => middle.products@[k],
                }),
            forall|a: int|
                0 <= a < middle.arena.slot_count() ==> #[trigger] self.arena.is_free(a) == (
                middle.arena.is_free(a) || routed && stages(middle.driver.request_at(slot), a)),
            forall|a: int|
                0 <= a < middle.arena.slot_count() ==> #[trigger] self.arena.contents(a)
                    == middle.arena.contents(a),
            forall|s: int|
                0 <= s < middle.driver.capacity() && s != slot && !((
                #[trigger] middle.driver.state_at(s)) is Vacant) ==> self.driver.state_at(s)
                    == middle.driver.state_at(s) && self.driver.generation_at(s)
                    == middle.driver.generation_at(s),
            forall|s: int|
                0 <= s < middle.driver.capacity() && (routed && s == slot || middle.driver.state_at(
                    s,
                ) is Vacant) ==> {
                    let state = #[trigger] self.driver.state_at(s);
                    ||| state is Vacant && self.driver.generation_at(s) == middle.driver.generation_at(s)
                    ||| state is Submitted && state->Submitted_0 is Read && self.driver.generation_at(s)
                        == middle.driver.generation_at(s).wrapping_add(1)
                },
            !routed ==> self == middle,
        ensures
            self.routed_to(before, slot + 1),
    {
        before.lemma_facts();
        before.cache.lemma_facts();
        middle.lemma_facts();
        middle.cache.lemma_facts();
        before.driver.lemma_capacity();
        assert(middle.slot_routed(before, slot, slot));
        if !routed {
            assert(!(before.driver.state_at(slot) is Finished));
        } else {
            assert(middle.driver.state_at(slot) == before.driver.state_at(slot));
        }
        assert forall|s: int| 0 <= s < before.driver.capacity() implies #[trigger] self.slot_routed(
            before,
            s,
            slot + 1,
        ) by {
            assert(middle.slot_routed(before, s, slot));
            if s != slot {
                if !(middle.driver.state_at(s) is Vacant) {
                    assert(self.driver.state_at(s) == middle.driver.state_at(s));
                } else {
                    let state = self.driver.state_at(s);
                    assert(state is Vacant || state is Submitted && state->Submitted_0 is Read);
                }
            }
        }
        assert forall|i: int| #[trigger] before.cache.miss.is_pending(i) implies self.miss_routed(
            before,
            i,
            slot + 1,
        ) by {
            let entry = before.cache.miss.entry_at(i)->0;
            let at = entry.token.slot as int;
            assert(before.driver.live(entry.token));
            assert(crate::pool::cache::flight_at(before.cache.residency.frames, entry));
            assert(middle.miss_routed(before, i, slot));
            if before.driver.state_at(at) is Finished && at < slot {
                let result = before.driver.state_at(at)->Finished_1;
                match verdict(
                    before.mode_of(entry.page.file),
                    entry,
                    before.cache.granule_bytes() as int,
                    result,
                ) {
                    ReadOutcome::Resumed { filled } => {
                        let token = middle.cache.miss.entry_at(i)->0.token;
                        assert(middle.cache.miss.is_pending(i));
                        assert(token.slot != slot || !routed);
                        assert(self.miss_same(middle, i));
                        assert(self.driver.state_at(token.slot as int) == middle.driver.state_at(
                            token.slot as int,
                        ));
                    },
                    _ => {
                        assert(!middle.cache.miss.is_pending(i));
                        assert(self.cache.miss.entry_at(i) == middle.cache.miss.entry_at(i));
                        assert(self.same_frame(middle, entry.frame)) by {
                            assert(!(middle.cache.residency.frames.residency(
                                entry.frame,
                            ) is InFlight));
                        }
                    },
                }
            } else {
                assert(middle.miss_same(before, i));
                assert(middle.cache.miss.is_pending(i));
            }
        }
        assert forall|i: int|
            0 <= i < before.cache.miss.capacity() && !before.cache.miss.is_pending(
                i,
            ) implies #[trigger] self.cache.miss.entry_at(i) == before.cache.miss.entry_at(i) by {
            assert(middle.cache.miss.entry_at(i) == before.cache.miss.entry_at(i));
            assert(!middle.cache.miss.is_pending(i));
        }
        assert forall|f: ReadFrameIdx|
            before.cache.residency.has(f) && !(#[trigger] before.cache.residency.frames.residency(
                f,
            ) is InFlight) implies self.same_frame(before, f) by {
            assert(middle.same_frame(before, f));
            assert(middle.cache.residency.frames.word(f) == before.cache.residency.frames.word(f));
            assert(!(middle.cache.residency.frames.residency(f) is InFlight));
            assert(self.same_frame(middle, f));
        }
        assert forall|k: int|
            0 <= k < before.products@.len() implies #[trigger] self.product_routed(
            before,
            k,
            slot + 1,
        ) by {
            assert(middle.product_routed(before, k, slot));
            assert(served(before.driver, before.products@[k].operation));
        }
        assert forall|a: int|
            0 <= a < before.arena.slot_count() implies #[trigger] self.arena.is_free(a) == (
        before.arena.is_free(a) || before.written_back(a, slot + 1)) by {
            assert(middle.arena.is_free(a) == (before.arena.is_free(a) || before.written_back(
                a,
                slot,
            )));
            if before.written_back(a, slot) {
                let s = choose|s: int|
                    0 <= s < slot && s < before.driver.capacity() && (
                    #[trigger] before.driver.state_at(s)) is Finished && stages(
                        before.driver.request_at(s),
                        a,
                    );
                assert(before.driver.state_at(s) is Finished);
            }
            if before.written_back(a, slot + 1) {
                let s = choose|s: int|
                    0 <= s < slot + 1 && s < before.driver.capacity() && (
                    #[trigger] before.driver.state_at(s)) is Finished && stages(
                        before.driver.request_at(s),
                        a,
                    );
                if s < slot {
                    assert(before.driver.state_at(s) is Finished);
                    assert(before.written_back(a, slot));
                }
            }
            if routed && stages(middle.driver.request_at(slot), a) {
                assert(before.driver.state_at(slot) is Finished);
            }
        }
        self.cache.residency.lemma_keeps_again(middle.cache.residency, before.cache.residency);
        self.lemma_facts();
        self.lemma_cache_routed_one(middle, before, slot);
    }

    /// One step more for the cache.
    proof fn lemma_cache_routed_one(self, middle: Pool, before: Pool, slot: int)
        requires
            before.wf(),
            self.cache.wf(),
            0 <= slot < before.driver.capacity(),
            middle.cache_routed(before, slot),
            middle.files == before.files,
            middle.routes(middle.cache, self.cache, slot),
            middle.slot_routed(before, slot, slot),
            middle.driver.token_at(slot) == before.driver.token_at(slot) || !(
            before.driver.state_at(slot) is Finished),
        ensures
            self.cache_routed(before, slot + 1),
    {
        let trace = choose|trace: Seq<Cache>|
            {
                &&& #[trigger] before.cache_steps(trace)
                &&& trace.len() == slot + 1
                &&& trace.last() == middle.cache
            };
        let longer = trace.push(self.cache);
        assert forall|k: int| 0 <= k < longer.len() implies (#[trigger] longer[k]).wf() by {
            if k < trace.len() {
                assert(longer[k] == trace[k]);
            }
        }
        assert forall|k: int| 0 <= k < longer.len() - 1 implies before.routes(
            longer[k],
            #[trigger] longer[k + 1],
            k,
        ) by {
            if k < slot {
                assert(before.routes(trace[k], trace[k + 1], k));
                assert(longer[k] == trace[k] && longer[k + 1] == trace[k + 1]);
            } else {
                assert(longer[k] == middle.cache && longer[k + 1] == self.cache);
            }
        }
        assert(before.cache_steps(longer));
    }

    /// Routes every result that waits in the ring, in slot order.
    #[verifier::rlimit(40)]
    fn route_completion_batch(&mut self) -> (count: u32)
        requires
            old(self).wf(),
            old(self).cache.wear + old(self).driver.capacity() <= WEAR_MAX,
        ensures
            final(self).wf(),
            final(self).routed_to(*old(self), old(self).driver.capacity() as int),
            old(self).cache.wear <= final(self).cache.wear <= old(self).cache.wear + old(self).driver.capacity(),
            count == finished_below(old(self).driver, old(self).driver.capacity() as int),
    {
        let ghost before = *self;
        proof {
            before.lemma_facts();
            before.cache.lemma_facts();
            before.driver.lemma_capacity();
            before.cache.residency.lemma_keeps_itself();
            assert(before.routed_to(before, 0)) by {
                assert(before.cache_steps(seq![before.cache]));
                assert forall|i: int| #[trigger]
                    before.cache.miss.is_pending(i) implies before.miss_routed(before, i, 0) by {}
            }
        }
        let capacity: u32 = self.driver.queue_capacity();
        let mut count: u32 = 0;
        let mut slot: u32 = 0;
        while slot < capacity
            invariant
                before == *old(self),
                before.wf(),
                self.wf(),
                capacity == before.driver.capacity(),
                slot <= capacity,
                before.cache.wear + capacity <= WEAR_MAX,
                self.routed_to(before, slot as int),
                before.cache.wear <= self.cache.wear <= before.cache.wear + slot,
                count == finished_below(before.driver, slot as int),
                count <= slot,
            decreases capacity - slot,
        {
            let ghost middle = *self;
            proof {
                middle.lemma_facts();
                assert(middle.slot_routed(before, slot as int, slot as int));
            }
            let routed: bool = self.route_completion(slot);
            proof {
                self.lemma_routed_one(middle, before, slot as int, routed);
            }
            if routed {
                count = count + 1;
            }
            slot = slot + 1;
        }
        count
    }

    /// The pool after a pass over the ring: the results are routed, and the
    /// barriers they let go are in the ring.
    pub open spec fn drained(self, other: Pool) -> bool {
        exists|routed: Pool|
            {
                &&& #[trigger] routed.routed_to(other, other.driver.capacity() as int)
                &&& self.cache == routed.cache
                &&& self.files == routed.files
                &&& self.arena == routed.arena
                &&& self.lifecycle == routed.lifecycle
                &&& self.promoted(routed)
                &&& self.wait == routed.wait.woken_times(
                    self.let_go(routed, routed.products@.len() as int),
                )
                &&& forall|s: int|
                    0 <= s < other.driver.capacity() ==> #[trigger] self.slot_promoted(routed, s)
            }
    }

    /// What submitting barriers makes of ring slot `s`.
    pub open spec fn slot_promoted(self, other: Pool, s: int) -> bool {
        let state = self.driver.state_at(s);
        if other.driver.state_at(s) is Vacant {
            ||| state is Vacant && self.driver.generation_at(s) == other.driver.generation_at(s)
            ||| state is Submitted && state->Submitted_0 is Fsync && self.driver.generation_at(s)
                == other.driver.generation_at(s).wrapping_add(1)
        } else {
            state == other.driver.state_at(s) && self.driver.generation_at(s)
                == other.driver.generation_at(s)
        }
    }

    /// Routes every result that waits in the ring, then submits the barriers
    /// whose writes all have their results.
    pub(crate) fn drain_completions(&mut self) -> (count: u32)
        requires
            old(self).wf(),
            old(self).cache.wear + old(self).driver.capacity() <= WEAR_MAX,
        ensures
            final(self).wf(),
            final(self).same_shape(*old(self)),
            final(self).drained(*old(self)),
            old(self).cache.wear <= final(self).cache.wear <= old(self).cache.wear + old(self).driver.capacity(),
            count == finished_below(old(self).driver, old(self).driver.capacity() as int),
            forall|s: int|
                0 <= s < final(self).driver.capacity() ==> !((
                #[trigger] final(self).driver.state_at(s)) is Finished),
            final(self).driver.same_files(old(self).driver),
    {
        let ghost before = *self;
        let count: u32 = self.route_completion_batch();
        let ghost routed = *self;
        self.submit_held_fsyncs();
        proof {
            assert(routed.routed_to(before, before.driver.capacity() as int));
            assert forall|s: int| 0 <= s < self.driver.capacity() implies !((
            #[trigger] self.driver.state_at(s)) is Finished) by {
                assert(routed.slot_routed(before, s, before.driver.capacity() as int));
            }
        }
        count
    }
}

} // verus!
