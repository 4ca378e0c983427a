//! The pool: the page cache over the driver ring, with the file registry and
//! the product operations.
//!
//! The host performs the I/O. It takes submitted operations, reports each
//! result under the operation's token, and polls; polling routes the results.

use crate::driver::{
    Driver, FileHandle, FileId, HandleState, IoMode, OpKind, OpState, OpToken, RegistrationPolicy,
    RegistrationPosture, Request, SyncMode,
};
use crate::pool::cache::Cache;
use crate::pool::config::{PoolBuildError, PoolBuilder, PoolConfigError, RegisterError};
use crate::pool::epoch::{FrameGuard, ReaderCtx};
use crate::pool::files::Files;
use crate::pool::frames::{ArenaIds, ReadFrameIdx};
use crate::pool::miss::{MissEntry, MissTable};
use crate::pool::prefetch::ledger::WEAR_MAX;
use crate::pool::prefetch::pattern::PatternState;
use crate::pool::product_ops::{ProductOp, ProductOps};
use crate::pool::residency::Residency;
use crate::pool::write_arena::WriteArena;
use crate::pool::PageId;
use crate::product::{LifecycleCounters, PoolWakeHandle, WaitState};
use vstd::prelude::*;

verus! {

/// A read that makes no progress ends before the granule is full; no errno
/// names that, so the pool reports an I/O error.
pub const SHORT_READ_EOF_ERRNO: i32 = 5;

/// No single call takes more steps than this.
pub const EFFORT_MAX: u64 = 0x10_0000_0000;

/// The frame pool.
pub struct Pool {
    pub cache: Cache,
    pub files: Files,
    pub products: ProductOps,
    pub driver: Driver,
    pub arena: WriteArena,
    pub wait: WaitState,
    pub lifecycle: LifecycleCounters,
    pub write_slots: u32,
    pub identity: u64,
}

/// The read a pending miss waits for.
pub open spec fn read_of(entry: MissEntry, granule: int) -> Request {
    Request::Read {
        file: entry.page.file,
        frame: entry.frame,
        destination_offset: entry.filled,
        offset: (entry.page.granule_idx * granule + entry.filled) as u64,
        len: (granule - entry.filled) as u32,
    }
}

/// The misses in flight and the reads in the ring stand for one another.
pub open spec fn reads_ok(driver: Driver, miss: MissTable, granule: int) -> bool {
    &&& forall|i: int| #[trigger]
        miss.is_pending(i) ==> driver.live(miss.entry_at(i)->0.token) && driver.request_at(
            miss.entry_at(i)->0.token.slot as int,
        ) == Some(read_of(miss.entry_at(i)->0, granule))
    &&& forall|s: int|
        0 <= s < driver.capacity() && (#[trigger] driver.request_at(s)) is Some
            && driver.request_at(s)->0 is Read ==> awaited_read(driver, miss, s)
    &&& forall|s: int|
        0 <= s < driver.capacity() ==> sound_result(#[trigger] driver.state_at(s))
}

/// Some pending miss waits for the read in ring slot `s`.
pub open spec fn awaited_read(driver: Driver, miss: MissTable, s: int) -> bool {
    exists|i: int| #[trigger]
        miss.is_pending(i) && miss.entry_at(i)->0.token == driver.token_at(s)
}

/// A read delivers no more than it was asked for, and a failure has an errno.
pub open spec fn sound_result(state: OpState) -> bool {
    match state {
        OpState::Finished(request, Ok(bytes)) => request matches Request::Read { len, .. } ==> bytes
            <= len,
        OpState::Finished(_, Err(error)) => error.raw != Some(0i32),
        _ => true,
    }
}

/// The product operations that wait and the writes and barriers in the ring
/// stand for one another.
pub open spec fn products_ok(driver: Driver, products: ProductOps) -> bool {
    &&& forall|k: int|
        0 <= k < products@.len() ==> served(driver, (#[trigger] products@[k]).operation)
    &&& forall|s: int|
        0 <= s < driver.capacity() && (#[trigger] driver.request_at(s)) is Some && !(
        driver.request_at(s)->0 is Read) ==> awaited_product(driver, products, s)
    &&& forall|k: int, l: int|
        0 <= k < products@.len() && 0 <= l < products@.len() && awaits_of(
            (#[trigger] products@[k]).operation,
        ) is Some && awaits_of(products@[k].operation) == awaits_of(
            (#[trigger] products@[l]).operation,
        ) ==> k == l
}

pub open spec fn awaits_of(operation: Option<ProductOp>) -> Option<(OpToken, OpKind)> {
    match operation {
        Some(op) => op.awaits(),
        None => None,
    }
}

/// The driver operation a product operation waits for is in the ring.
pub open spec fn served(driver: Driver, operation: Option<ProductOp>) -> bool {
    awaits_of(operation) matches Some((token, kind)) ==> driver.live(token) && driver.request_at(
        token.slot as int,
    )->0.sort() == kind && driver.request_at(token.slot as int)->0.target()
        == operation->0.target()
}

pub open spec fn awaited_product(driver: Driver, products: ProductOps, s: int) -> bool {
    exists|k: int|
        0 <= k < products@.len() && awaits_of((#[trigger] products@[k]).operation) == Some(
            (driver.token_at(s), driver.request_at(s)->0.sort()),
        )
}

/// The staging slots of the writes in the ring are leased, each to one write.
pub open spec fn staging_ok(driver: Driver, arena: WriteArena) -> bool {
    &&& forall|s: int|
        0 <= s < driver.capacity() ==> staged(arena, #[trigger] driver.request_at(s))
    &&& forall|s: int, t: int|
        0 <= s < driver.capacity() && 0 <= t < driver.capacity() && staging_of(
            #[trigger] driver.request_at(s),
        ) is Some && staging_of(driver.request_at(s)) == staging_of(
            #[trigger] driver.request_at(t),
        ) ==> s == t
}

pub open spec fn staging_of(request: Option<Request>) -> Option<u32> {
    match request {
        Some(Request::Write { slot, .. }) => Some(slot),
        _ => None,
    }
}

pub open spec fn staged(arena: WriteArena, request: Option<Request>) -> bool {
    staging_of(request) matches Some(slot) ==> slot < arena.slot_count() && !arena.is_free(
        slot as int,
    )
}

/// A registered file and the driver's handle of its slot agree.
pub open spec fn file_ok(files: Files, driver: Driver, s: int) -> bool {
    match files.entry_at(s) {
        None => driver.handle_at(s) is Vacant,
        Some(entry) => {
            &&& driver.file_generation_at(s) == entry.id.generation
            &&& entry.state is Live ==> entry.handle is Some
            &&& match entry.handle {
                Some(handle) => driver.handle_at(s) == HandleState::Open(handle.mode),
                None => if entry.state is Retired {
                    driver.handle_at(s) is Vacant
                } else {
                    driver.handle_at(s) is Closing || driver.handle_at(s) is Closed
                },
            }
        },
    }
}

pub open spec fn files_ok(files: Files, driver: Driver) -> bool {
    &&& driver.file_capacity() == files.capacity()
    &&& driver.owner() == files.owner()
    &&& forall|s: int| 0 <= s < files.capacity() ==> #[trigger] file_ok(files, driver, s)
}

/// Every miss in flight, every record somebody waits for, every product
/// operation and every published frame has a file with a handle.
pub open spec fn backed_ok(files: Files, cache: Cache, products: ProductOps) -> bool {
    &&& forall|i: int| #[trigger]
        cache.miss.is_pending(i) ==> files.backs(cache.miss.entry_at(i)->0.page.file)
    &&& forall|i: int| #[trigger]
        attended(cache, i) ==> files.backs(cache.miss.entry_at(i)->0.page.file)
    &&& forall|k: int|
        0 <= k < products@.len() && (#[trigger] products@[k]).operation is Some ==> files.backs(
            products@[k].operation->0.target(),
        )
    &&& forall|f: ReadFrameIdx|
        cache.residency.has(f) && #[trigger] cache.residency.frames.published(f) ==> files.backs(
            cache.residency.frames.page(f)->0.file,
        )
}

/// Somebody waits for the record in slot `i`.
pub open spec fn attended(cache: Cache, i: int) -> bool {
    &&& 0 <= i < cache.miss.capacity()
    &&& cache.miss.entry_at(i) is Some
    &&& cache.interests@[i].waiters > 0
}

/// The same misses are in flight.
pub open spec fn same_flights(miss: MissTable, other: MissTable) -> bool {
    &&& forall|i: int| #[trigger] miss.is_pending(i) <==> other.is_pending(i)
    &&& forall|i: int| #[trigger] miss.is_pending(i) ==> miss.entry_at(i) == other.entry_at(i)
}

/// A submission leaves every other live operation where it was.
pub(crate) proof fn lemma_after_submit(before: Driver, after: Driver, token: OpToken, request: Request)
    requires
        before.wf(),
        after.submitted(before, token, request),
    ensures
        after.live(token),
        after.request_at(token.slot as int) == Some(request),
        after.token_at(token.slot as int) == token,
        before.request_at(token.slot as int) is None,
        forall|t: OpToken| #[trigger]
            before.live(t) ==> after.live(t) && t.slot != token.slot && after.request_at(
                t.slot as int,
            ) == before.request_at(t.slot as int),
        forall|s: int|
            0 <= s < after.capacity() && s != token.slot ==> #[trigger] after.request_at(s)
                == before.request_at(s),
        forall|s: int|
            0 <= s < after.capacity() && s != token.slot ==> #[trigger] after.token_at(s)
                == before.token_at(s),
{
    assert forall|t: OpToken| #[trigger] before.live(t) implies after.live(t) && t.slot
        != token.slot && after.request_at(t.slot as int) == before.request_at(t.slot as int) by {
        assert(t.slot != token.slot);
        assert(after.state_at(t.slot as int) == before.state_at(t.slot as int));
        assert(after.generation_at(t.slot as int) == before.generation_at(t.slot as int));
    }
    assert forall|s: int|
        0 <= s < after.capacity() && s != token.slot implies #[trigger] after.request_at(s)
        == before.request_at(s) by {
        assert(after.state_at(s) == before.state_at(s));
    }
    assert forall|s: int|
        0 <= s < after.capacity() && s != token.slot implies #[trigger] after.token_at(s)
        == before.token_at(s) by {
        assert(after.generation_at(s) == before.generation_at(s));
    }
}

/// A submission touches no file.
pub(crate) proof fn lemma_files_after_submit(
    files: Files,
    before: Driver,
    after: Driver,
    token: OpToken,
    request: Request,
)
    requires
        files_ok(files, before),
        after.submitted(before, token, request),
    ensures
        files_ok(files, after),
{
    assert forall|s: int| 0 <= s < files.capacity() implies #[trigger] file_ok(files, after, s) by {
        assert(file_ok(files, before, s));
        assert(after.handle_at(s) == before.handle_at(s));
        assert(after.file_generation_at(s) == before.file_generation_at(s));
    }
}

/// A submission that reads nothing leaves the reads matched.
pub(crate) proof fn lemma_reads_after_submit(
    before: Driver,
    after: Driver,
    miss: MissTable,
    granule: int,
    token: OpToken,
    request: Request,
)
    requires
        before.wf(),
        reads_ok(before, miss, granule),
        after.submitted(before, token, request),
        !(request is Read),
    ensures
        reads_ok(after, miss, granule),
{
    lemma_after_submit(before, after, token, request);
    assert forall|i: int| #[trigger] miss.is_pending(i) implies after.live(
        miss.entry_at(i)->0.token,
    ) && after.request_at(miss.entry_at(i)->0.token.slot as int) == Some(
        read_of(miss.entry_at(i)->0, granule),
    ) by {
        assert(before.live(miss.entry_at(i)->0.token));
    }
    assert forall|s: int|
        0 <= s < after.capacity() && (#[trigger] after.request_at(s)) is Some && after.request_at(
            s,
        )->0 is Read implies awaited_read(after, miss, s) by {
        assert(s != token.slot);
        assert(before.request_at(s) is Some);
        assert(awaited_read(before, miss, s));
        assert(after.token_at(s) == before.token_at(s));
    }
    assert forall|s: int| 0 <= s < after.capacity() implies sound_result(
        #[trigger] after.state_at(s),
    ) by {
        if s != token.slot {
            assert(sound_result(before.state_at(s)));
        }
    }
}

/// A submission that writes nothing leaves the staging slots matched.
pub(crate) proof fn lemma_staging_after_submit(
    before: Driver,
    after: Driver,
    arena: WriteArena,
    token: OpToken,
    request: Request,
)
    requires
        before.wf(),
        staging_ok(before, arena),
        after.submitted(before, token, request),
        !(request is Write),
    ensures
        staging_ok(after, arena),
{
    lemma_after_submit(before, after, token, request);
    assert forall|s: int| 0 <= s < after.capacity() implies staged(
        arena,
        #[trigger] after.request_at(s),
    ) by {
        if s != token.slot {
            assert(staged(arena, before.request_at(s)));
        }
    }
    assert forall|s: int, t: int|
        0 <= s < after.capacity() && 0 <= t < after.capacity() && staging_of(
            #[trigger] after.request_at(s),
        ) is Some && staging_of(after.request_at(s)) == staging_of(
            #[trigger] after.request_at(t),
        ) implies s == t by {
        assert(s != token.slot && t != token.slot);
        assert(before.request_at(s) == after.request_at(s));
        assert(before.request_at(t) == after.request_at(t));
    }
}

/// The ripe barrier in product slot `k` has gone into the ring as `issued`.
pub open spec fn went_out(
    products: ProductOps,
    driver: Driver,
    before: ProductOps,
    ring: Driver,
    k: int,
    issued: OpToken,
) -> bool {
    let held = before@[k];
    &&& driver.submitted(ring, issued, Request::Fsync { file: held.operation->0.target() })
    &&& products.admitted() == before.admitted()
    &&& products@ == before@.update(
        k,
        crate::pool::product_ops::ProductOpSlot {
            generation: held.generation,
            operation: Some(
                ProductOp::Fsync {
                    token: held.operation->0.handle(),
                    driver_token: issued,
                    file: held.operation->0.target(),
                },
            ),
        },
    )
}

/// What turn `k` does to the product operations and the ring: a ripe barrier in
/// product slot `k` is submitted if the ring has room, and nothing else changes.
pub open spec fn took_turn(trace: Seq<(ProductOps, Driver)>, k: int) -> bool {
    if trace[k].0.is_ripe(k) && trace[k].1.has_room() {
        exists|issued: OpToken| #[trigger]
            went_out(trace[k + 1].0, trace[k + 1].1, trace[k].0, trace[k].1, k, issued)
    } else {
        trace[k + 1] == trace[k]
    }
}

/// The first `n` product slots have taken their turns, one after another.
pub open spec fn turns(trace: Seq<(ProductOps, Driver)>, n: int) -> bool {
    &&& trace.len() == n + 1
    &&& forall|k: int| 0 <= k < n ==> #[trigger] took_turn(trace, k)
}

/// A ring without room has none after a further submission was accepted.
pub(crate) proof fn lemma_full_stays_full(before: Driver, after: Driver)
    requires
        !before.has_room(),
        after.capacity() == before.capacity(),
        forall|i: int|
            0 <= i < before.capacity() && !((#[trigger] before.state_at(i)) is Vacant) ==> !(
            after.state_at(i) is Vacant),
    ensures
        !after.has_room(),
{
    if after.has_room() {
        let i = choose|i: int| 0 <= i < after.capacity() && (#[trigger] after.state_at(i)) is Vacant;
        assert(before.state_at(i) is Vacant);
    }
}

/// Submitting one barrier does not make another ripe or unripe.
pub(crate) proof fn lemma_ripe_kept(before: ProductOps, after: ProductOps, index: int, k: int)
    requires
        0 <= index < before@.len(),
        before@[index].operation is Some,
        before@[index].operation->0 is FsyncHeld,
        after@.len() == before@.len(),
        after@[index].operation is Some,
        after@[index].operation->0 is Fsync,
        forall|j: int| 0 <= j < before@.len() && j != index ==> #[trigger] after@[j] == before@[j],
        0 <= k < before@.len(),
        k != index,
    ensures
        after.is_ripe(k) == before.is_ripe(k),
{
    if let Some(ProductOp::FsyncHeld { file, order, .. }) = before@[k].operation {
        assert(after@[k] == before@[k]);
        if before.write_before(file, order) {
            let j = choose|j: int| 0 <= j < before@.len() && #[trigger] before.write_at(j, file, order);
            assert(after.write_at(j, file, order));
        }
        if after.write_before(file, order) {
            let j = choose|j: int| 0 <= j < after@.len() && #[trigger] after.write_at(j, file, order);
            assert(before.write_at(j, file, order));
        }
    } else {
        assert(after@[k] == before@[k]);
    }
}

/// A barrier that is ripe now was ripe before others were submitted.
pub(crate) proof fn lemma_ripe_before(before: ProductOps, after: ProductOps, k: int)
    requires
        after.is_ripe(k),
        after@.len() == before@.len(),
        after@[k] == before@[k],
        forall|j: int|
            0 <= j < before@.len() ==> #[trigger] after@[j] == before@[j] || before.is_ripe(j),
    ensures
        before.is_ripe(k),
{
    if let Some(ProductOp::FsyncHeld { file, order, .. }) = before@[k].operation {
        if before.write_before(file, order) {
            let j = choose|j: int| 0 <= j < before@.len() && #[trigger] before.write_at(j, file, order);
            assert(after@[j] == before@[j]);
            assert(after.write_at(j, file, order));
        }
    }
}

impl Pool {
    pub closed spec fn shaped(self) -> bool {
        &&& self.cache.wf()
        &&& self.files.wf()
        &&& self.products.wf()
        &&& self.driver.wf()
        &&& self.arena.wf()
        &&& self.files.owner() == self.identity
        &&& self.arena.identity() == self.identity
        &&& self.cache.frame_pages.file_capacity() == self.files.capacity()
        &&& self.cache.residency.retention.enabled()
            ==> self.cache.residency.retention.file_slots() == self.files.capacity()
    }

    pub closed spec fn wf(self) -> bool {
        &&& self.shaped()
        &&& files_ok(self.files, self.driver)
        &&& backed_ok(self.files, self.cache, self.products)
        &&& reads_ok(self.driver, self.cache.miss, self.cache.granule_bytes() as int)
        &&& products_ok(self.driver, self.products)
        &&& staging_ok(self.driver, self.arena)
    }

    /// The invariant, part by part.
    pub proof fn lemma_facts(self)
        requires
            self.wf(),
        ensures
            self.cache.wf(),
            self.files.wf(),
            self.products.wf(),
            self.driver.wf(),
            self.arena.wf(),
            self.files.owner() == self.identity,
            self.arena.identity() == self.identity,
            self.cache.frame_pages.file_capacity() == self.files.capacity(),
            self.cache.residency.retention.enabled()
                ==> self.cache.residency.retention.file_slots() == self.files.capacity(),
            files_ok(self.files, self.driver),
            backed_ok(self.files, self.cache, self.products),
            reads_ok(self.driver, self.cache.miss, self.cache.granule_bytes() as int),
            products_ok(self.driver, self.products),
            staging_ok(self.driver, self.arena),
    {
    }

    /// The parts make the invariant.
    pub(crate) proof fn lemma_whole(self)
        requires
            self.cache.wf(),
            self.files.wf(),
            self.products.wf(),
            self.driver.wf(),
            self.arena.wf(),
            self.files.owner() == self.identity,
            self.arena.identity() == self.identity,
            self.cache.frame_pages.file_capacity() == self.files.capacity(),
            self.cache.residency.retention.enabled()
                ==> self.cache.residency.retention.file_slots() == self.files.capacity(),
            files_ok(self.files, self.driver),
            backed_ok(self.files, self.cache, self.products),
            reads_ok(self.driver, self.cache.miss, self.cache.granule_bytes() as int),
            products_ok(self.driver, self.products),
            staging_ok(self.driver, self.arena),
        ensures
            self.wf(),
    {
    }

    /// The geometry, which no operation changes.
    pub open spec fn same_shape(self, other: Pool) -> bool {
        &&& self.cache.same_shape(other.cache)
        &&& self.driver.same_shape(other.driver)
        &&& self.arena.same_shape(other.arena)
        &&& self.files.owner() == other.files.owner()
        &&& self.files.capacity() == other.files.capacity()
        &&& self.products@.len() == other.products@.len()
        &&& self.write_slots == other.write_slots
        &&& self.identity == other.identity
    }

    /// The steps taken so far. Every call requires it to leave room for
    /// `EFFORT_MAX` more.
    pub fn wear(&self) -> (wear: u64)
        ensures
            wear == self.cache.wear,
    {
        self.cache.wear
    }

    /// The counters leave room for another call.
    pub open spec fn fit(self) -> bool {
        self.cache.wear + EFFORT_MAX <= WEAR_MAX
    }

    /// Whether the counters leave room for another call.
    pub fn has_wear_left(&self) -> (left: bool)
        ensures
            left == self.fit(),
    {
        self.cache.wear <= WEAR_MAX - EFFORT_MAX
    }

    /// A pool over an empty cache and an idle ring.
    pub fn try_preallocated(config: PoolBuilder, driver: Driver, cache: Cache) -> (pool: Self)
        requires
            driver.wf(),
            forall|i: int| 0 <= i < driver.capacity() ==> (#[trigger] driver.state_at(i)) is Vacant,
            forall|s: int|
                0 <= s < driver.file_capacity() ==> (#[trigger] driver.handle_at(s)) is Vacant,
            driver.file_capacity() == config.files,
            cache.wf(),
            forall|i: int|
                0 <= i < cache.miss.capacity() ==> (#[trigger] cache.miss.entry_at(i)) is None,
            forall|f: ReadFrameIdx|
                cache.residency.has(f) ==> #[trigger] cache.residency.frames.residency(f) is Free,
            cache.frame_pages.file_capacity() == config.files,
            cache.residency.retention.enabled() ==> cache.residency.retention.file_slots()
                == config.files,
            crate::num::power_of_two(config.granule_bytes as int),
        ensures
            pool.wf(),
            pool.cache == cache,
            pool.driver == driver,
            pool.identity == driver.owner(),
            pool.write_slots == config.staging,
            pool.arena.fresh(
                if config.staging == 0 {
                    1
                } else {
                    config.staging
                },
                config.granule_bytes,
                driver.owner(),
            ),
            pool.products@ == Seq::new(
                config.product_ops as nat,
                |i: int|
                    crate::pool::product_ops::ProductOpSlot { generation: 0, operation: None },
            ),
            pool.products.admitted() == 0,
            forall|s: int| 0 <= s < config.files ==> (#[trigger] pool.files.entry_at(s)) is None,
            forall|file: FileId| !(#[trigger] pool.files.is_live(file)),
            pool.wait == (WaitState {
                current: 1,
                consumed: 1,
                ring_pending: false,
                parks_entered: 0,
                parks_in_progress: 0,
                parks_exited: 0,
                wake_exits: 0,
                timeout_exits: 0,
            }),
            pool.lifecycle == (LifecycleCounters {
                registered_readers: 0,
                reader_releases: 0,
                live_pending_interests: 0,
                pending_releases: 0,
                backend_ops_in_flight: 0,
                backend_completions: 0,
                quiesce_calls: 0,
            }),
    {
        let identity: u64 = driver.identity();
        let files = Files::new(identity, config.files);
        let products = ProductOps::new(config.product_ops);
        let slots: u32 = if config.staging == 0 {
            1
        } else {
            config.staging
        };
        let arena = WriteArena::preallocated(slots, config.granule_bytes, identity);
        let mut wait = WaitState::default();
        wait.wake();
        wait.consume_current();
        let pool = Pool {
            cache,
            files,
            products,
            driver,
            arena,
            wait,
            lifecycle: LifecycleCounters::new(),
            write_slots: config.staging,
            identity,
        };
        proof {
            assert forall|s: int| 0 <= s < pool.driver.capacity() implies (
            #[trigger] pool.driver.request_at(s)) is None by {
                assert(pool.driver.state_at(s) is Vacant);
            }
            assert(forall|i: int| !(#[trigger] pool.cache.miss.is_pending(i)));
        }
        pool
    }
}

impl PoolBuilder {
    /// The configuration faults, the speculative credits among them.
    pub open spec fn build_fault(self) -> Option<PoolConfigError> {
        if self.fault() is Some {
            self.fault()
        } else if self.prefetch_credits() > self.spare_frames() {
            Some(
                PoolConfigError::PrefetchHeadroomTooLarge {
                    requested: self.prefetch_credits() as u32,
                    available: self.spare_frames() as u32,
                },
            )
        } else {
            None
        }
    }

    /// The frames do not fit the page table or the address space.
    pub open spec fn oversized(self) -> bool {
        self.frames > 0x4000_0000 || self.frames * self.granule_bytes > usize::MAX
    }

    /// Builds a pool over a ring of its own, with room for every read and
    /// every product operation. The host says whether it has a table for
    /// registered buffers and registered them, whether it locked both arenas,
    /// and what it may lock.
    pub fn build(
        self,
        ids: &mut ArenaIds,
        identity: u64,
        posture: RegistrationPosture,
        locked: bool,
        has_buffer_table: bool,
        memlock_limit_bytes: u64,
    ) -> (pool: Result<Pool, PoolBuildError>)
        requires
            old(ids).issued() < u32::MAX,
        ensures
            pool is Ok <==> self.build_fault() is None && !self.oversized() && self.policy_fault(
                posture,
                locked,
                has_buffer_table,
                memlock_limit_bytes,
            ) is None,
            match pool {
                Err(error) => {
                    &&& *final(ids) == *old(ids)
                    &&& error == (match self.build_fault() {
                        Some(fault) => PoolBuildError::Configuration(fault),
                        None => if self.oversized() {
                            PoolBuildError::Allocation
                        } else {
                            PoolBuildError::Configuration(
                                self.policy_fault(
                                    posture,
                                    locked,
                                    has_buffer_table,
                                    memlock_limit_bytes,
                                )->0,
                            )
                        },
                    })
                },
                Ok(p) => {
                    &&& p.built(self)
                    &&& p.identity == identity
                    &&& p.driver.capacity() == (if self.reads + self.product_ops == 0 {
                        1
                    } else {
                        self.reads + self.product_ops
                    })
                    &&& p.driver.buffers() == self.granted(posture)
                    &&& p.driver.is_locked() == locked
                    &&& forall|s: int|
                        0 <= s < self.files ==> #[trigger] p.driver.file_generation_at(s) == 0
                },
            },
    {
        if let Err(error) = self.validate() {
            return Err(PoolBuildError::Configuration(error));
        }
        if let Err(error) = self.prefetch_capacity() {
            return Err(PoolBuildError::Configuration(error));
        }
        proof {
            let frames = self.frames as int;
            let granule = self.granule_bytes as int;
            assert(0 <= frames * granule <= 0xffff_ffff * 0xffff_ffff) by (nonlinear_arith)
                requires
                    0 <= frames <= 0xffff_ffff,
                    0 <= granule <= 0xffff_ffff,
            ;
        }
        if self.frames > 0x4000_0000 || (self.frames as u64) * (self.granule_bytes as u64)
            > usize::MAX as u64 {
            return Err(PoolBuildError::Allocation);
        }
        if let Err(error) = self.check_policies(
            posture,
            locked,
            has_buffer_table,
            memlock_limit_bytes,
        ) {
            return Err(PoolBuildError::Configuration(error));
        }
        let queue: u32 = self.reads + self.product_ops;
        let capacity: u32 = if queue == 0 {
            1
        } else {
            queue
        };
        let runs: RegistrationPosture = match self.registration_policy {
            RegistrationPolicy::Unregistered => RegistrationPosture::Unregistered,
            _ => posture,
        };
        let driver = Driver::new(identity, capacity, self.files, runs, locked);
        self.build_on(ids, driver)
    }

    /// Builds a pool over an idle ring with the configured file slots.
    pub fn build_on(self, ids: &mut ArenaIds, driver: Driver) -> (pool: Result<
        Pool,
        PoolBuildError,
    >)
        requires
            old(ids).issued() < u32::MAX,
            driver.wf(),
            driver.file_capacity() == self.files,
            forall|i: int| 0 <= i < driver.capacity() ==> (#[trigger] driver.state_at(i)) is Vacant,
            forall|s: int|
                0 <= s < driver.file_capacity() ==> (#[trigger] driver.handle_at(s)) is Vacant,
        ensures
            pool is Ok <==> self.build_fault() is None && !self.oversized(),
            match pool {
                Err(error) => {
                    &&& *final(ids) == *old(ids)
                    &&& error == (match self.build_fault() {
                        Some(fault) => PoolBuildError::Configuration(fault),
                        None => PoolBuildError::Allocation,
                    })
                },
                Ok(p) => p.built(self) && p.driver == driver && p.identity == driver.owner(),
            },
    {
        if let Err(error) = self.validate() {
            return Err(PoolBuildError::Configuration(error));
        }
        let credits: u32 = match self.prefetch_capacity() {
            Ok(credits) => credits,
            Err(error) => {
                return Err(PoolBuildError::Configuration(error));
            },
        };
        if self.frames > 0x4000_0000 {
            return Err(PoolBuildError::Allocation);
        }
        proof {
            crate::pool::config::accepted_capacities_leave_room_for_every_read(self);
        }
        match Cache::new(
            ids,
            self.frames,
            self.granule_bytes,
            self.readers,
            self.reads,
            self.retained,
            self.files,
            credits,
            self.mode,
        ) {
            Some(cache) => Ok(Pool::try_preallocated(self, driver, cache)),
            None => Err(PoolBuildError::Allocation),
        }
    }
}

impl Pool {
    /// `self` is a new pool of the given configuration: nothing is resident,
    /// in flight, registered or admitted.
    pub open spec fn built(self, config: PoolBuilder) -> bool {
        &&& self.wf()
        &&& self.fit()
        &&& self.cache.blank(
            config.frames,
            config.granule_bytes,
            config.readers,
            config.reads,
            config.retained,
            config.files,
            config.prefetch_credits() as u32,
            config.mode,
        )
        &&& self.files.capacity() == config.files
        &&& forall|s: int| 0 <= s < config.files ==> (#[trigger] self.files.entry_at(s)) is None
        &&& forall|file: FileId| !(#[trigger] self.files.is_live(file))
        &&& self.products@ == Seq::new(
            config.product_ops as nat,
            |i: int| crate::pool::product_ops::ProductOpSlot { generation: 0, operation: None },
        )
        &&& self.products.admitted() == 0
        &&& self.products.is_idle()
        &&& self.write_slots == config.staging
        &&& self.arena.fresh(
            if config.staging == 0 {
                1
            } else {
                config.staging
            },
            config.granule_bytes,
            self.identity,
        )
        &&& forall|i: int|
            0 <= i < self.driver.capacity() ==> (#[trigger] self.driver.state_at(i)) is Vacant
        &&& forall|s: int|
            0 <= s < self.driver.file_capacity() ==> (#[trigger] self.driver.handle_at(
                s,
            )) is Vacant
        &&& self.wait.current == self.wait.consumed
        &&& !self.wait.ring_pending
        &&& self.lifecycle.registered_readers == 0
        &&& self.lifecycle.live_pending_interests == 0
    }

    /// The configuration of a pool.
    pub fn builder() -> (builder: PoolBuilder)
        ensures
            builder == (PoolBuilder {
                frames: 0,
                granule_bytes: crate::pool::GRANULE_DEFAULT,
                readers: 0,
                guards_per_reader: 0,
                reads: 0,
                headroom: 0,
                retained: 0,
                staging: 0,
                product_ops: 0,
                files: crate::driver::DEFAULT_REGISTERED_FILE_CAPACITY,
                registration_policy: crate::driver::RegistrationPolicy::Auto,
                arena_lock: crate::driver::ArenaLockPolicy::BestEffort,
                credits: None,
                mode: crate::pool::prefetch::Readahead::Automatic,
            }),
    {
        PoolBuilder::default()
    }

    /// Everything but the cache, the wait state and the counters.
    pub open spec fn same_plane(self, other: Pool) -> bool {
        &&& self.files == other.files
        &&& self.products == other.products
        &&& self.driver == other.driver
        &&& self.arena == other.arena
        &&& self.write_slots == other.write_slots
        &&& self.identity == other.identity
    }

    /// A step of the cache that starts and ends no read keeps the pool in
    /// order.
    pub(crate) proof fn lemma_cache_step(self, before: Pool)
        requires
            before.wf(),
            self.same_plane(before),
            self.cache.wf(),
            self.cache.same_shape(before.cache),
            same_flights(self.cache.miss, before.cache.miss),
            forall|i: int| #[trigger]
                attended(self.cache, i) ==> (attended(before.cache, i)
                    || before.cache.miss.is_pending(i)) && self.cache.miss.entry_at(i)->0.page
                    == before.cache.miss.entry_at(i)->0.page,
            forall|f: ReadFrameIdx|
                self.cache.residency.has(f) && #[trigger] self.cache.residency.frames.published(f)
                    ==> before.cache.residency.frames.published(f)
                    && self.cache.residency.frames.page(f) == before.cache.residency.frames.page(f),
        ensures
            self.wf(),
            self.same_shape(before),
    {
        assert forall|i: int| #[trigger] self.cache.miss.is_pending(i) implies self.files.backs(
            self.cache.miss.entry_at(i)->0.page.file,
        ) by {
            assert(before.cache.miss.is_pending(i));
        }
        assert forall|i: int| #[trigger] self.cache.miss.is_pending(i) implies self.driver.live(
            self.cache.miss.entry_at(i)->0.token,
        ) && self.driver.request_at(self.cache.miss.entry_at(i)->0.token.slot as int) == Some(
            read_of(self.cache.miss.entry_at(i)->0, self.cache.granule_bytes() as int),
        ) by {
            assert(before.cache.miss.is_pending(i));
        }
        assert forall|s: int|
            0 <= s < self.driver.capacity() && (#[trigger] self.driver.request_at(s)) is Some
                && self.driver.request_at(s)->0 is Read implies awaited_read(
            self.driver,
            self.cache.miss,
            s,
        ) by {
            assert(awaited_read(before.driver, before.cache.miss, s));
            let i = choose|i: int| #[trigger]
                before.cache.miss.is_pending(i) && before.cache.miss.entry_at(i)->0.token
                    == before.driver.token_at(s);
            assert(self.cache.miss.is_pending(i));
        }
        assert forall|f: ReadFrameIdx|
            self.cache.residency.has(f) && #[trigger] self.cache.residency.frames.published(
                f,
            ) implies self.files.backs(self.cache.residency.frames.page(f)->0.file) by {
            assert(before.cache.residency.frames.published(f));
        }
    }

    /// `reader` is registered with this pool.
    pub open spec fn registered(self, reader: ReaderCtx) -> bool {
        &&& reader.pool() == self.cache.residency.frames.arena()
        &&& reader.index() < self.cache.residency.readers@.len()
        &&& self.cache.residency.readers@[reader.index() as int].occupied
    }

    /// The reader in `slot` starts untrained: what an earlier reader of the slot
    /// was predicted to ask for is not carried over.
    pub open spec fn untrained(self, other: Pool, slot: u32) -> bool {
        if slot < other.cache.prefetch.patterns().len() {
            &&& self.cache.wear == other.cache.wear + 1
            &&& self.cache.prefetch.repatterned(
                other.cache.prefetch,
                slot,
                other.cache.prefetch.patterns()[slot as int].restarted(PatternState::Empty),
            )
        } else {
            &&& self.cache.wear == other.cache.wear
            &&& self.cache.prefetch == other.cache.prefetch
        }
    }

    /// Claims a reader registration slot, whose readahead starts anew;
    /// registration beyond the capacity fails rather than waits.
    pub fn register_reader(&mut self) -> (reader: Result<ReaderCtx, RegisterError>)
        requires
            old(self).wf(),
            old(self).fit(),
        ensures
            final(self).wf(),
            final(self).same_shape(*old(self)),
            final(self).same_plane(*old(self)),
            final(self).wait == old(self).wait,
            reader is Ok <==> exists|i: int|
                0 <= i < old(self).cache.residency.readers@.len() && !(#[trigger] old(self).cache.residency.readers@[i]).occupied,
            match reader {
                Ok(ctx) => {
                    &&& final(self).may_pin(ctx)
                    &&& final(self).cache.residency.pins@[ctx.index() as int].len() == 0
                    &&& !old(self).cache.residency.readers@[ctx.index() as int].occupied
                    &&& forall|i: int|
                        0 <= i < ctx.index() ==> (#[trigger] old(self).cache.residency.readers@[i]).occupied
                    &&& final(self).untrained(*old(self), ctx.index())
                    &&& final(self).cache.free == old(self).cache.free
                    &&& final(self).cache.frame_pages == old(self).cache.frame_pages
                    &&& final(self).cache.miss == old(self).cache.miss
                    &&& final(self).cache.interests == old(self).cache.interests
                    &&& final(self).cache.writes == old(self).cache.writes
                    &&& final(self).cache.reads_in_flight == old(self).cache.reads_in_flight
                    &&& final(self).cache.clock == old(self).cache.clock
                    &&& final(self).cache.residency.same_but_readers(old(self).cache.residency)
                    &&& final(self).cache.residency.pins@ == old(self).cache.residency.pins@
                    &&& final(self).cache.residency.readers@ == old(self).cache.residency.readers@.update(
                        ctx.index() as int,
                        crate::pool::epoch::ReaderSlot {
                            occupied: true,
                            ..old(self).cache.residency.readers@[ctx.index() as int]
                        },
                    )
                    &&& final(self).lifecycle == (LifecycleCounters {
                        registered_readers: old(self).lifecycle.registered_readers.wrapping_add(1),
                        ..old(self).lifecycle
                    })
                },
                Err(error) => {
                    &&& *final(self) == *old(self)
                    &&& error == RegisterError::AtCapacity {
                        max_concurrent_readers: old(self).cache.residency.readers@.len() as u32,
                    }
                },
            },
    {
        let ghost before = *self;
        proof {
            before.cache.lemma_facts();
            before.cache.residency.lemma_facts();
        }
        match self.cache.register() {
            Some(ctx) => {
                self.lifecycle.register_reader();
                let ghost seated = *self;
                proof {
                    seated.lemma_cache_step(before);
                }
                if ctx.slot() < self.cache.prefetch.pattern_count() {
                    self.cache.reset_reader(ctx.slot());
                    proof {
                        self.lemma_cache_step(seated);
                    }
                }
                proof {
                    assert(!before.cache.residency.readers@[ctx.index() as int].occupied);
                }
                Ok(ctx)
            },
            None => {
                let capacity: usize = self.cache.residency.readers.slots().len();
                Err(RegisterError::AtCapacity { max_concurrent_readers: capacity as u32 })
            },
        }
    }

    /// Gives a reader's slot back once its guards are gone.
    pub fn release_reader(&mut self, reader: ReaderCtx)
        requires
            old(self).wf(),
            old(self).registered(reader),
            old(self).cache.residency.pins@[reader.index() as int].len() == 0,
        ensures
            final(self).wf(),
            final(self).same_shape(*old(self)),
            final(self).same_plane(*old(self)),
            final(self).wait == old(self).wait,
            final(self).cache.same_flow(old(self).cache),
            final(self).cache.clock == old(self).cache.clock,
            final(self).cache.residency.same_but_readers(old(self).cache.residency),
            final(self).cache.residency.pins@ == old(self).cache.residency.pins@,
            final(self).cache.residency.readers@ == old(self).cache.residency.readers@.update(
                reader.index() as int,
                crate::pool::epoch::ReaderSlot {
                    occupied: false,
                    local_epoch: crate::pool::epoch::QUIESCENT,
                    guard_count: 0,
                },
            ),
            final(self).lifecycle == (LifecycleCounters {
                registered_readers: old(self).lifecycle.registered_readers.wrapping_sub(1),
                reader_releases: old(self).lifecycle.reader_releases.wrapping_add(1),
                ..old(self).lifecycle
            }),
    {
        let ghost before = *self;
        self.cache.vacate(reader.slot());
        self.lifecycle.release_reader();
        proof {
            self.lemma_cache_step(before);
        }
    }

    /// `guard` borrows a frame of this pool.
    pub open spec fn lends(self, guard: FrameGuard) -> bool {
        self.cache.residency.live(guard) && guard.owner() < self.files.capacity()
    }

    /// The bytes a guard borrows.
    pub fn guarded_bytes(&self, guard: &FrameGuard) -> (bytes: &[u8])
        requires
            self.wf(),
            self.lends(*guard),
        ensures
            bytes@ == self.cache.residency.frames.contents(guard.pinned()),
            bytes@.len() == self.cache.granule_bytes(),
    {
        proof {
            self.cache.lemma_facts();
            self.cache.residency.lemma_facts();
            let r = guard.holder() as int;
            assert(self.cache.residency.pins@[r].count(guard.pinned()) > 0);
        }
        self.cache.residency.frames.frame_bytes(guard.frame())
    }

    /// Drops a guard.
    pub fn drop_guard(&mut self, guard: FrameGuard)
        requires
            old(self).wf(),
            old(self).lends(guard),
        ensures
            final(self).wf(),
            final(self).same_shape(*old(self)),
            final(self).same_plane(*old(self)),
            final(self).wait == old(self).wait,
            final(self).lifecycle == old(self).lifecycle,
            final(self).cache.same_flow(old(self).cache),
            final(self).cache.clock == old(self).cache.clock,
            final(self).cache.residency.unpinned(
                old(self).cache.residency,
                guard.holder() as int,
                guard.pinned(),
            ),
    {
        let ghost before = *self;
        self.cache.unpin(guard.reader(), guard.frame());
        proof {
            self.lemma_cache_step(before);
        }
    }

    /// `handle` retains a frame of this pool.
    pub open spec fn retains(self, handle: crate::pool::retention::RetainedFrame) -> bool {
        &&& handle.pool() == self.cache.residency.frames.arena()
        &&& self.cache.residency.has(handle.kept())
        &&& self.cache.residency.retention.enabled()
        &&& self.cache.residency.retention.handles(handle.kept()) > 0
    }

    /// Turns a guard into a retained handle; a refusal hands the live guard
    /// back.
    pub fn into_retained(&mut self, guard: FrameGuard) -> (outcome: Result<
        crate::pool::retention::RetainedFrame,
        crate::pool::retention::RetainRefused,
    >)
        requires
            old(self).wf(),
            old(self).lends(guard),
        ensures
            final(self).wf(),
            final(self).same_shape(*old(self)),
            final(self).same_plane(*old(self)),
            final(self).wait == old(self).wait,
            final(self).lifecycle == old(self).lifecycle,
            final(self).cache.same_flow(old(self).cache),
            final(self).cache.clock == old(self).cache.clock,
            outcome is Ok <==> old(self).cache.residency.retention.admits(guard.pinned()) && !old(self).cache.residency.retention.is_retiring(guard.owner() as int),
            match outcome {
                Ok(handle) => {
                    &&& handle.kept() == guard.pinned()
                    &&& final(self).retains(handle)
                    &&& final(self).cache.residency.retention.retained(
                        old(self).cache.residency.retention,
                        guard.pinned(),
                    )
                    &&& final(self).cache.residency.unpinned(
                        Residency {
                            retention: final(self).cache.residency.retention,
                            ..old(self).cache.residency
                        },
                        guard.holder() as int,
                        guard.pinned(),
                    )
                },
                Err(refused) => {
                    &&& refused.guard == guard
                    &&& refused.reason == (if old(self).cache.residency.retention.admits(
                        guard.pinned(),
                    ) {
                        crate::pool::retention::RetainRefusedReason::FileRetiring
                    } else {
                        crate::pool::retention::RetainRefusedReason::Exhausted
                    })
                    &&& final(self).lends(refused.guard)
                    &&& final(self).cache.residency.same_but_retention(old(self).cache.residency)
                    &&& final(self).cache.residency.retention.refused(
                        old(self).cache.residency.retention,
                        guard.pinned(),
                    )
                },
            },
    {
        let ghost before = *self;
        proof {
            before.lemma_facts();
            before.cache.lemma_facts();
            before.cache.residency.lemma_facts();
            assert(before.cache.residency.pins@[guard.holder() as int].count(guard.pinned()) > 0);
        }
        let reader: u32 = guard.reader();
        let frame: ReadFrameIdx = guard.frame();
        let file_slot: u32 = guard.file_slot();
        match self.cache.promote(reader, frame, file_slot) {
            Ok(()) => {
                let ghost kept = *self;
                proof {
                    kept.cache.lemma_facts();
                    kept.cache.residency.lemma_facts();
                    assert(kept.cache.residency.retention.has(frame));
                    assert(kept.cache.residency.retention.handles(frame) > 0);
                }
                self.cache.unpin(reader, frame);
                proof {
                    self.lemma_cache_step(before);
                }
                Ok(
                    crate::pool::retention::RetainedFrame::new(
                        self.cache.residency.frames.id(),
                        frame,
                    ),
                )
            },
            Err(reason) => {
                proof {
                    self.lemma_cache_step(before);
                }
                Err(crate::pool::retention::RetainRefused { guard, reason })
            },
        }
    }

    /// The bytes a retained handle keeps.
    pub fn retained_bytes(&self, handle: &crate::pool::retention::RetainedFrame) -> (bytes: &[u8])
        requires
            self.wf(),
            self.retains(*handle),
        ensures
            bytes@ == self.cache.residency.frames.contents(handle.kept()),
            bytes@.len() == self.cache.granule_bytes(),
    {
        proof {
            self.cache.lemma_facts();
            self.cache.residency.lemma_facts();
        }
        self.cache.residency.frames.frame_bytes(handle.frame())
    }

    /// Drops a retained handle.
    pub fn release_retained(&mut self, handle: crate::pool::retention::RetainedFrame)
        requires
            old(self).wf(),
            old(self).fit(),
            old(self).retains(handle),
        ensures
            final(self).wf(),
            final(self).same_shape(*old(self)),
            final(self).same_plane(*old(self)),
            final(self).lifecycle == old(self).lifecycle,
            final(self).cache.same_flow(Cache { wear: final(self).cache.wear, ..old(self).cache }),
            final(self).cache.wear == old(self).cache.wear + 1,
            final(self).cache.clock == old(self).cache.clock,
            final(self).cache.residency.keeps(old(self).cache.residency),
            final(self).cache.residency.same_but_retention(old(self).cache.residency),
            final(self).cache.residency.retention.released(
                old(self).cache.residency.retention,
                handle.kept(),
            ),
            final(self).wait == old(self).cache.residency.retention.notified(handle.kept(), old(self).wait),
    {
        let ghost before = *self;
        proof {
            before.lemma_facts();
        }
        self.cache.release(handle.frame(), &mut self.wait);
        proof {
            self.lemma_cache_step(before);
        }
    }

    /// The retention counters.
    pub fn retention_stats(&self) -> (stats: crate::pool::retention::RetentionStats)
        ensures
            stats == self.cache.residency.retention.stats(),
    {
        self.cache.residency.retention.retention_stats()
    }

    /// The buffer-registration posture the driver runs.
    pub fn registration_posture(&self) -> (posture: RegistrationPosture)
        ensures
            posture == self.driver.buffers(),
    {
        self.driver.registration_posture()
    }

    /// Whether both arenas are locked in memory.
    pub fn arena_locked(&self) -> (locked: bool)
        ensures
            locked == self.driver.is_locked(),
    {
        self.driver.arena_locked()
    }

    /// The external wake capability.
    pub fn wake_handle(&self) -> (handle: PoolWakeHandle)
        ensures
            handle.pool_identity == self.identity,
    {
        PoolWakeHandle { pool_identity: self.identity }
    }

    /// The negotiated mode of an exact live or retiring file generation.
    pub fn io_mode(&self, file: FileId) -> (mode: Option<IoMode>)
        requires
            self.wf(),
            self.files.addresses(file),
        ensures
            mode == (match self.files.entry_at(file.slot as int) {
                Some(entry) => if entry.id == file && !(entry.state is Retired) {
                    match entry.handle {
                        Some(handle) => Some(handle.mode),
                        None => None,
                    }
                } else {
                    None
                },
                None => None,
            }),
    {
        self.files.io_mode(file)
    }

    /// Every product operation stays as it was, or is a ripe barrier that went
    /// into the ring.
    pub open spec fn moved(self, other: Pool) -> bool {
        &&& self.products@.len() == other.products@.len()
        &&& self.products.admitted() == other.products.admitted()
        &&& forall|k: int|
            0 <= k < other.products@.len() ==> #[trigger] self.products@[k] == other.products@[k]
                || other.products.is_ripe(k) && self.submitted_barrier(other, k)
    }

    /// What the operations held back become when the ripe ones are submitted:
    /// each slot takes its turn, and a barrier that is still ripe found the ring
    /// full.
    pub open spec fn promoted(self, other: Pool) -> bool {
        &&& self.moved(other)
        &&& exists|trace: Seq<(ProductOps, Driver)>|
            {
                &&& #[trigger] turns(trace, other.products@.len() as int)
                &&& trace[0] == (other.products, other.driver)
                &&& trace.last() == (self.products, self.driver)
            }
        &&& (exists|k: int| #[trigger] self.products.is_ripe(k)) ==> !self.driver.has_room()
    }

    /// The barrier held in slot `k` is in the ring.
    pub open spec fn submitted_barrier(self, other: Pool, k: int) -> bool {
        &&& self.products@[k].generation == other.products@[k].generation
        &&& self.products@[k].operation is Some
        &&& self.products@[k].operation->0 is Fsync
        &&& self.products@[k].operation->0.handle() == other.products@[k].operation->0.handle()
        &&& self.products@[k].operation->0.target() == other.products@[k].operation->0.target()
    }

    /// How many of the barriers in the first `n` product slots went into the
    /// ring.
    pub open spec fn let_go(self, other: Pool, n: int) -> nat
        decreases n,
    {
        if n <= 0 {
            0
        } else {
            self.let_go(other, n - 1) + if self.products@[n - 1] == other.products@[n - 1] {
                0nat
            } else {
                1nat
            }
        }
    }

    /// The count speaks of the slots below `n` alone.
    pub proof fn lemma_let_go_below(self, middle: Pool, before: Pool, n: int)
        requires
            forall|k: int| 0 <= k < n ==> #[trigger] self.products@[k] == middle.products@[k],
        ensures
            self.let_go(before, n) == middle.let_go(before, n),
        decreases n,
    {
        if n > 0 {
            self.lemma_let_go_below(middle, before, n - 1);
        }
    }

    /// Submits every barrier whose earlier writes have their results, in slot
    /// order, as far as the ring has room, and wakes a waiter for each.
    #[verifier::rlimit(40)]
    pub(crate) fn submit_held_fsyncs(&mut self)
        requires
            old(self).wf(),
        ensures
            final(self).wf(),
            final(self).same_shape(*old(self)),
            final(self).cache == old(self).cache,
            final(self).files == old(self).files,
            final(self).arena == old(self).arena,
            final(self).lifecycle == old(self).lifecycle,
            final(self).promoted(*old(self)),
            final(self).driver.same_files(old(self).driver),
            forall|s: int|
                0 <= s < old(self).driver.capacity() && !((#[trigger] old(self).driver.state_at(
                    s,
                )) is Vacant) ==> final(self).driver.state_at(s) == old(self).driver.state_at(s)
                    && final(self).driver.generation_at(s) == old(self).driver.generation_at(s),
            forall|s: int|
                0 <= s < old(self).driver.capacity() && old(self).driver.state_at(s) is Vacant ==> {
                    let state = #[trigger] final(self).driver.state_at(s);
                    ||| state is Vacant && final(self).driver.generation_at(s) == old(self).driver.generation_at(s)
                    ||| state is Submitted && state->Submitted_0 is Fsync && final(self).driver.generation_at(s)
                        == old(self).driver.generation_at(s).wrapping_add(1)
                },
            final(self).wait == old(self).wait.woken_times(
                final(self).let_go(*old(self), old(self).products@.len() as int),
            ),
    {
        let ghost before = *self;
        proof {
            before.lemma_facts();
        }
        let count: u32 = self.products.len();
        let mut index: u32 = 0;
        let ghost mut trace: Seq<(ProductOps, Driver)> = seq![(before.products, before.driver)];
        while index < count
            invariant
                before == *old(self),
                before.wf(),
                self.wf(),
                self.same_shape(before),
                self.cache == before.cache,
                self.files == before.files,
                self.arena == before.arena,
                self.lifecycle == before.lifecycle,
                self.moved(before),
                turns(trace, index as int),
                trace[0] == (before.products, before.driver),
                trace.last() == (self.products, self.driver),
                self.driver.same_files(before.driver),
                forall|s: int|
                    0 <= s < before.driver.capacity() && !((#[trigger] before.driver.state_at(
                        s,
                    )) is Vacant) ==> self.driver.state_at(s) == before.driver.state_at(s)
                        && self.driver.generation_at(s) == before.driver.generation_at(s),
                forall|s: int|
                    0 <= s < before.driver.capacity() && before.driver.state_at(s) is Vacant ==> {
                        let state = #[trigger] self.driver.state_at(s);
                        ||| state is Vacant && self.driver.generation_at(s) == before.driver.generation_at(s)
                        ||| state is Submitted && state->Submitted_0 is Fsync && self.driver.generation_at(s)
                            == before.driver.generation_at(s).wrapping_add(1)
                    },
                index <= count,
                count == self.products@.len(),
                count == before.products@.len(),
                forall|k: int|
                    index <= k < count ==> #[trigger] self.products@[k] == before.products@[k],
                forall|k: int|
                    0 <= k < index && #[trigger] self.products.is_ripe(k)
                        ==> !self.driver.has_room(),
                self.wait == before.wait.woken_times(self.let_go(before, index as int)),
            decreases count - index,
        {
            let ghost middle = *self;
            proof {
                middle.lemma_facts();
            }
            if let Some(file) = self.products.ripe(index) {
                proof {
                    assert(middle.products@[index as int].operation is Some);
                    assert(middle.files.backs(file));
                }
                let handle: FileHandle = self.files.registered_file(file);
                proof {
                    middle.files.lemma_slot(file.slot as int);
                    assert(file_ok(middle.files, middle.driver, file.slot as int));
                    assert(middle.driver.is_open(handle));
                }
                if let Ok(token) = self.driver.submit_fsync(&handle, SyncMode::Full) {
                    self.products.promote(index, token);
                    self.wait.wake();
                    proof {
                        self.lemma_promoted(middle, index as int, token);
                        self.lemma_let_go_below(middle, before, index as int);
                        assert forall|k: int| 0 <= k < count && k
                            != index implies #[trigger] self.products.is_ripe(k)
                            == middle.products.is_ripe(k) by {
                            lemma_ripe_kept(middle.products, self.products, index as int, k);
                        }
                        assert(self.products@[index as int] != before.products@[index as int]);
                        assert(before.products.is_ripe(index as int)) by {
                            lemma_ripe_before(before.products, middle.products, index as int);
                        }
                        assert forall|k: int|
                            0 <= k < index && #[trigger] self.products.is_ripe(
                                k,
                            ) implies !self.driver.has_room() by {
                            assert(middle.products.is_ripe(k));
                            lemma_full_stays_full(middle.driver, self.driver);
                        }
                        assert forall|s: int|
                            0 <= s < before.driver.capacity() && !((
                            #[trigger] before.driver.state_at(s)) is Vacant) implies self.driver.state_at(
                            s,
                        ) == before.driver.state_at(s) && self.driver.generation_at(s)
                            == before.driver.generation_at(s) by {
                            assert(middle.driver.state_at(s) == before.driver.state_at(s));
                            assert(s != token.slot);
                        }
                        assert forall|s: int|
                            0 <= s < before.driver.capacity() && before.driver.state_at(
                                s,
                            ) is Vacant implies {
                            let state = #[trigger] self.driver.state_at(s);
                            ||| state is Vacant && self.driver.generation_at(s) == before.driver.generation_at(s)
                            ||| state is Submitted && state->Submitted_0 is Fsync && self.driver.generation_at(s)
                                == before.driver.generation_at(s).wrapping_add(1)
                        } by {
                            if s != token.slot {
                                assert(self.driver.state_at(s) == middle.driver.state_at(s));
                            }
                        }
                        assert forall|s: int|
                            0 <= s < self.driver.file_capacity() implies #[trigger] self.driver.handle_at(
                            s,
                        ) == before.driver.handle_at(s) by {
                            assert(middle.driver.handle_at(s) == before.driver.handle_at(s));
                        }
                        assert forall|s: int|
                            0 <= s < self.driver.file_capacity() implies #[trigger] self.driver.file_generation_at(
                            s,
                        ) == before.driver.file_generation_at(s) by {
                            assert(middle.driver.file_generation_at(s)
                                == before.driver.file_generation_at(s));
                        }
                    }
                }
            }
            proof {
                let shorter = trace;
                trace = trace.push((self.products, self.driver));
                assert(trace[index as int] == (middle.products, middle.driver));
                assert(trace[index + 1] == (self.products, self.driver));
                if middle.products.is_ripe(index as int) && middle.driver.has_room() {
                    let issued = self.products@[index as int].operation->0->Fsync_driver_token;
                    let k = index as int;
                    assert(went_out(
                        trace[k + 1].0,
                        trace[k + 1].1,
                        trace[k].0,
                        trace[k].1,
                        k,
                        issued,
                    ));
                }
                assert(took_turn(trace, index as int));
                assert forall|k: int| 0 <= k < index implies #[trigger] took_turn(trace, k) by {
                    assert(took_turn(shorter, k));
                    assert(trace[k] == shorter[k] && trace[k + 1] == shorter[k + 1]);
                }
            }
            index = index + 1;
        }
    }

    /// Submitting one held barrier keeps the pool in order.
    pub(crate) proof fn lemma_promoted(self, before: Pool, index: int, token: OpToken)
        requires
            before.wf(),
            before.products.is_ripe(index),
            self.cache == before.cache,
            self.files == before.files,
            self.arena == before.arena,
            self.write_slots == before.write_slots,
            self.identity == before.identity,
            self.products.wf(),
            self.products@ == before.products@.update(
                index,
                crate::pool::product_ops::ProductOpSlot {
                    generation: before.products@[index].generation,
                    operation: Some(
                        ProductOp::Fsync {
                            token: before.products@[index].operation->0.handle(),
                            driver_token: token,
                            file: before.products@[index].operation->0.target(),
                        },
                    ),
                },
            ),
            self.driver.wf(),
            self.driver.submitted(
                before.driver,
                token,
                Request::Fsync { file: before.products@[index].operation->0.target() },
            ),
        ensures
            self.wf(),
            self.same_shape(before),
    {
        let request = Request::Fsync { file: before.products@[index].operation->0.target() };
        lemma_after_submit(before.driver, self.driver, token, request);
        lemma_files_after_submit(before.files, before.driver, self.driver, token, request);
        lemma_reads_after_submit(
            before.driver,
            self.driver,
            before.cache.miss,
            before.cache.granule_bytes() as int,
            token,
            request,
        );
        lemma_staging_after_submit(before.driver, self.driver, before.arena, token, request);
        let target = before.products@[index].operation->0.target();
        assert forall|k: int| 0 <= k < self.products@.len() implies served(
            self.driver,
            (#[trigger] self.products@[k]).operation,
        ) by {
            if k != index {
                assert(served(before.driver, before.products@[k].operation));
                if let Some((t, kind)) = awaits_of(before.products@[k].operation) {
                    assert(before.driver.live(t));
                    assert(self.driver.request_at(t.slot as int) == before.driver.request_at(
                        t.slot as int,
                    ));
                }
            }
        }
        assert forall|s: int|
            0 <= s < self.driver.capacity() && (#[trigger] self.driver.request_at(s)) is Some && !(
            self.driver.request_at(s)->0 is Read) implies awaited_product(
            self.driver,
            self.products,
            s,
        ) by {
            if s == token.slot {
                assert(awaits_of(self.products@[index].operation) == Some((token, OpKind::Fsync)));
            } else {
                assert(before.driver.request_at(s) is Some);
                assert(awaited_product(before.driver, before.products, s));
                let k = choose|k: int|
                    0 <= k < before.products@.len() && awaits_of(
                        (#[trigger] before.products@[k]).operation,
                    ) == Some((before.driver.token_at(s), before.driver.request_at(s)->0.sort()));
                assert(k != index);
                assert(self.products@[k] == before.products@[k]);
            }
        }
        assert forall|k: int, l: int|
            0 <= k < self.products@.len() && 0 <= l < self.products@.len() && awaits_of(
                (#[trigger] self.products@[k]).operation,
            ) is Some && awaits_of(self.products@[k].operation) == awaits_of(
                (#[trigger] self.products@[l]).operation,
            ) implies k == l by {
            if k != index {
                assert(served(before.driver, before.products@[k].operation));
            }
            if l != index {
                assert(served(before.driver, before.products@[l].operation));
            }
        }
        assert forall|k: int|
            0 <= k < self.products@.len() && (#[trigger] self.products@[k]).operation
                is Some implies self.files.backs(self.products@[k].operation->0.target()) by {
            assert(before.products@[k].operation is Some);
        }
    }
}

} // verus!
