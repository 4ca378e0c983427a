//! Pool capacities, their validation, and the refusals of the pool's surface.

use crate::driver::{
    ArenaLockPolicy, FileId, RegistrationPolicy, RegistrationPosture,
    DEFAULT_REGISTERED_FILE_CAPACITY,
};
use crate::error::IoError;
use crate::num::{is_power_of_two, lemma_power_of_two_bound, power_of_two};
use crate::pool::prefetch::Readahead;
use crate::pool::release_ring::RING_CAPACITY_MAX;
use crate::pool::{PageId, GRANULE_DEFAULT, SECTOR_BYTES};
use crate::product::{a_named_file_is_quoted, append_file, file_text};
use crate::text::{append_decimal, decimal, lemma_quotes, quotes};
use vstd::prelude::*;
use vstd::string::*;

verus! {

/// Expected refusal of a residency lookup.
#[derive(Debug, Clone, Copy, PartialEq, Eq, Hash, Structural)]
pub enum GetError {
    /// The file generation is retired or has been replaced.
    StaleFile { page: PageId },
}

impl GetError {
    pub open spec fn text(self) -> Seq<char> {
        match self {
            GetError::StaleFile { page } => "stale file for page PageId { file: "@ + file_text(
                page.file,
            ) + ", granule_idx: "@ + decimal(page.granule_idx as nat) + " }"@,
        }
    }

    pub fn message(&self) -> (message: String)
        ensures
            message@ == self.text(),
    {
        match self {
            GetError::StaleFile { page } => {
                let mut out: String = String::from_str("stale file for page PageId { file: ");
                append_file(&mut out, page.file());
                out.append(", granule_idx: ");
                append_decimal(&mut out, page.granule_idx() as u64);
                out.append(" }");
                out
            },
        }
    }
}

/// Expected refusal to acquire a resident-file capability.
#[derive(Debug, Clone, Copy, PartialEq, Eq, Structural)]
pub enum ResidentLeaseError {
    /// The file generation is retired or has been replaced.
    StaleFile { file: FileId },
    /// The file slot cannot admit another bounded lease.
    Exhausted { file: FileId },
}

/// Why a pool configuration is rejected at build, before any frame is
/// allocated.
#[derive(Debug, Clone, Copy, PartialEq, Eq, Structural)]
pub enum PoolConfigError {
    /// Retention bookkeeping cannot represent the requested fixed budget.
    RetentionUnrepresentable { requested: u32, limit: u32 },
    /// `frame_count` is below the deadlock-freedom watermark.
    BelowWatermark { frame_count: u32, watermark: u32 },
    /// `miss_headroom` is below three frames per concurrent read.
    MissHeadroomTooSmall { miss_headroom: u32, minimum: u32 },
    /// `granule` is not a power of two.
    GranuleNotPowerOfTwo { granule: u32 },
    /// `granule` is below the sector floor of direct I/O.
    GranuleBelowSector { granule: u32, sector: u32 },
    /// Read and product queue reservations overflow their fixed bound.
    QueueCapacityOverflow { max_inflight_reads: u32, max_inflight_product_ops: u32 },
    /// More speculative credits than spare frames.
    PrefetchHeadroomTooLarge { requested: u32, available: u32 },
    /// The host's memory-lock limit refused an explicit registration.
    RegistrationRefused { arena_bytes: u64, memlock_limit_bytes: u64 },
    /// An explicit registration on a backend with no buffer table.
    RegistrationUnsupported,
    /// The host refused a required arena lock.
    ArenaLockRefused { arena_bytes: u64, memlock_limit_bytes: u64 },
}

impl PoolConfigError {
    pub open spec fn text(self) -> Seq<char> {
        match self {
            PoolConfigError::RetentionUnrepresentable { requested, limit } =>
                "retention-capacity request "@ + decimal(requested as nat)
                + " exceeds the representable limit "@ + decimal(limit as nat),
            PoolConfigError::BelowWatermark { frame_count, watermark } => "frame count "@ + decimal(
                frame_count as nat,
            ) + " below the deadlock-freedom watermark "@ + decimal(watermark as nat),
            PoolConfigError::MissHeadroomTooSmall { miss_headroom, minimum } => "miss headroom "@
                + decimal(miss_headroom as nat) + " below the minimum "@ + decimal(minimum as nat),
            PoolConfigError::GranuleNotPowerOfTwo { granule } => "granule "@ + decimal(
                granule as nat,
            ) + " is not a power of two"@,
            PoolConfigError::GranuleBelowSector { granule, sector } => "granule "@ + decimal(
                granule as nat,
            ) + " below the sector floor "@ + decimal(sector as nat),
            PoolConfigError::QueueCapacityOverflow {
                max_inflight_reads,
                max_inflight_product_ops,
            } => "read capacity "@ + decimal(max_inflight_reads as nat) + " plus product capacity "@
                + decimal(max_inflight_product_ops as nat) + " overflows"@,
            PoolConfigError::PrefetchHeadroomTooLarge { requested, available } =>
                "prefetch headroom "@ + decimal(requested as nat) + " exceeds the spare frames "@
                + decimal(available as nat),
            PoolConfigError::RegistrationRefused { arena_bytes, memlock_limit_bytes } =>
                "buffer registration of "@ + decimal(arena_bytes as nat)
                + " bytes refused against RLIMIT_MEMLOCK "@ + decimal(memlock_limit_bytes as nat)
                + "; grant CAP_IPC_LOCK, raise the limit, or select Unregistered"@,
            PoolConfigError::RegistrationUnsupported =>
                "the eager backend has no buffer table to register"@,
            PoolConfigError::ArenaLockRefused { arena_bytes, memlock_limit_bytes } => "locking "@
                + decimal(arena_bytes as nat) + " arena bytes refused against RLIMIT_MEMLOCK "@
                + decimal(memlock_limit_bytes as nat)
                + "; grant CAP_IPC_LOCK or raise the limit"@,
        }
    }

    pub fn message(&self) -> (message: String)
        ensures
            message@ == self.text(),
    {
        match self {
            PoolConfigError::RetentionUnrepresentable { requested, limit } => {
                let mut out: String = String::from_str("retention-capacity request ");
                append_decimal(&mut out, *requested as u64);
                out.append(" exceeds the representable limit ");
                append_decimal(&mut out, *limit as u64);
                out
            },
            PoolConfigError::BelowWatermark { frame_count, watermark } => {
                let mut out: String = String::from_str("frame count ");
                append_decimal(&mut out, *frame_count as u64);
                out.append(" below the deadlock-freedom watermark ");
                append_decimal(&mut out, *watermark as u64);
                out
            },
            PoolConfigError::MissHeadroomTooSmall { miss_headroom, minimum } => {
                let mut out: String = String::from_str("miss headroom ");
                append_decimal(&mut out, *miss_headroom as u64);
                out.append(" below the minimum ");
                append_decimal(&mut out, *minimum as u64);
                out
            },
            PoolConfigError::GranuleNotPowerOfTwo { granule } => {
                let mut out: String = String::from_str("granule ");
                append_decimal(&mut out, *granule as u64);
                out.append(" is not a power of two");
                out
            },
            PoolConfigError::GranuleBelowSector { granule, sector } => {
                let mut out: String = String::from_str("granule ");
                append_decimal(&mut out, *granule as u64);
                out.append(" below the sector floor ");
                append_decimal(&mut out, *sector as u64);
                out
            },
            PoolConfigError::QueueCapacityOverflow {
                max_inflight_reads,
                max_inflight_product_ops,
            } => {
                let mut out: String = String::from_str("read capacity ");
                append_decimal(&mut out, *max_inflight_reads as u64);
                out.append(" plus product capacity ");
                append_decimal(&mut out, *max_inflight_product_ops as u64);
                out.append(" overflows");
                out
            },
            PoolConfigError::PrefetchHeadroomTooLarge { requested, available } => {
                let mut out: String = String::from_str("prefetch headroom ");
                append_decimal(&mut out, *requested as u64);
                out.append(" exceeds the spare frames ");
                append_decimal(&mut out, *available as u64);
                out
            },
            PoolConfigError::RegistrationRefused { arena_bytes, memlock_limit_bytes } => {
                let mut out: String = String::from_str("buffer registration of ");
                append_decimal(&mut out, *arena_bytes);
                out.append(" bytes refused against RLIMIT_MEMLOCK ");
                append_decimal(&mut out, *memlock_limit_bytes);
                out.append("; grant CAP_IPC_LOCK, raise the limit, or select Unregistered");
                out
            },
            PoolConfigError::RegistrationUnsupported => String::from_str(
                "the eager backend has no buffer table to register",
            ),
            PoolConfigError::ArenaLockRefused { arena_bytes, memlock_limit_bytes } => {
                let mut out: String = String::from_str("locking ");
                append_decimal(&mut out, *arena_bytes);
                out.append(" arena bytes refused against RLIMIT_MEMLOCK ");
                append_decimal(&mut out, *memlock_limit_bytes);
                out.append("; grant CAP_IPC_LOCK or raise the limit");
                out
            },
        }
    }
}

/// Failure to construct a pool.
#[derive(Debug, Clone, Copy, PartialEq, Eq, Structural)]
pub enum PoolBuildError {
    /// The fixed capacities violate a pool invariant.
    Configuration(PoolConfigError),
    /// A fixed-capacity allocation could not be satisfied.
    Allocation,
    /// The driver could not initialize its operating resources.
    Driver(IoError),
}

impl PoolBuildError {
    pub open spec fn text(self) -> Seq<char> {
        match self {
            PoolBuildError::Configuration(error) => "invalid pool configuration: "@ + error.text(),
            PoolBuildError::Allocation => "pool allocation failed"@,
            PoolBuildError::Driver(error) => "driver initialization failed: "@ + error.text(),
        }
    }

    pub fn message(&self) -> (message: String)
        ensures
            message@ == self.text(),
    {
        match self {
            PoolBuildError::Configuration(error) => {
                let mut out: String = String::from_str("invalid pool configuration: ");
                let detail: String = error.message();
                out.append(detail.as_str());
                out
            },
            PoolBuildError::Allocation => String::from_str("pool allocation failed"),
            PoolBuildError::Driver(error) => {
                let mut out: String = String::from_str("driver initialization failed: ");
                let detail: String = error.message();
                out.append(detail.as_str());
                out
            },
        }
    }
}

/// Why a reader registration is refused.
#[derive(Debug, Clone, Copy, PartialEq, Eq, Structural)]
pub enum RegisterError {
    /// Every registration slot is occupied.
    AtCapacity { max_concurrent_readers: u32 },
}

impl RegisterError {
    pub open spec fn text(self) -> Seq<char> {
        match self {
            RegisterError::AtCapacity { max_concurrent_readers } =>
                "reader registration at capacity "@ + decimal(max_concurrent_readers as nat),
        }
    }

    pub fn message(&self) -> (message: String)
        ensures
            message@ == self.text(),
    {
        match self {
            RegisterError::AtCapacity { max_concurrent_readers } => {
                let mut out: String = String::from_str("reader registration at capacity ");
                append_decimal(&mut out, *max_concurrent_readers as u64);
                out
            },
        }
    }
}

/// Per-reader hit and eviction tallies.
#[derive(Debug, Clone, Copy, PartialEq, Eq, Structural)]
pub struct ReaderCounters {
    pub hit_count: u32,
    pub eviction_count: u32,
}

/// One more than `count`, stopping at the counter's end.
pub open spec fn tallied(count: u32) -> u32 {
    if count == u32::MAX {
        count
    } else {
        (count + 1) as u32
    }
}

impl ReaderCounters {
    #[must_use]
    pub fn new() -> (counters: Self)
        ensures
            counters == (ReaderCounters { hit_count: 0, eviction_count: 0 }),
    {
        ReaderCounters { hit_count: 0, eviction_count: 0 }
    }

    pub fn record_hit(&mut self)
        ensures
            *final(self) == (ReaderCounters {
                hit_count: tallied(old(self).hit_count),
                ..*old(self)
            }),
    {
        self.hit_count = self.hit_count.saturating_add(1);
    }

    pub fn record_eviction(&mut self)
        ensures
            *final(self) == (ReaderCounters {
                eviction_count: tallied(old(self).eviction_count),
                ..*old(self)
            }),
    {
        self.eviction_count = self.eviction_count.saturating_add(1);
    }

    #[must_use]
    pub fn hits(&self) -> (hits: u32)
        ensures
            hits == self.hit_count,
    {
        self.hit_count
    }

    #[must_use]
    pub fn evictions(&self) -> (evictions: u32)
        ensures
            evictions == self.eviction_count,
    {
        self.eviction_count
    }
}

impl Default for ReaderCounters {
    fn default() -> (counters: Self)
        ensures
            counters == (ReaderCounters { hit_count: 0, eviction_count: 0 }),
    {
        Self::new()
    }
}

/// Fixes every pool capacity up front.
#[derive(Debug, Clone, Copy, PartialEq, Eq, Structural)]
pub struct PoolBuilder {
    pub frames: u32,
    pub granule_bytes: u32,
    pub readers: u32,
    pub guards_per_reader: u32,
    pub reads: u32,
    pub headroom: u32,
    pub retained: u32,
    pub staging: u32,
    pub product_ops: u32,
    pub files: u32,
    pub registration_policy: RegistrationPolicy,
    pub arena_lock: ArenaLockPolicy,
    pub credits: Option<u32>,
    pub mode: Readahead,
}

impl Default for PoolBuilder {
    fn default() -> (builder: Self)
        ensures
            builder == (PoolBuilder {
                frames: 0,
                granule_bytes: GRANULE_DEFAULT,
                readers: 0,
                guards_per_reader: 0,
                reads: 0,
                headroom: 0,
                retained: 0,
                staging: 0,
                product_ops: 0,
                files: DEFAULT_REGISTERED_FILE_CAPACITY,
                registration_policy: RegistrationPolicy::Auto,
                arena_lock: ArenaLockPolicy::BestEffort,
                credits: None,
                mode: Readahead::Automatic,
            }),
    {
        PoolBuilder {
            frames: 0,
            granule_bytes: GRANULE_DEFAULT,
            readers: 0,
            guards_per_reader: 0,
            reads: 0,
            headroom: 0,
            retained: 0,
            staging: 0,
            product_ops: 0,
            files: DEFAULT_REGISTERED_FILE_CAPACITY,
            registration_policy: RegistrationPolicy::Auto,
            arena_lock: ArenaLockPolicy::BestEffort,
            credits: None,
            mode: Readahead::Automatic,
        }
    }
}

impl PoolBuilder {
    /// Frames the readers' guards and the misses may hold at once, and at
    /// least one.
    pub open spec fn working_set(self) -> int {
        let held = self.readers * self.guards_per_reader + self.headroom;
        if held < 1 {
            1
        } else {
            held
        }
    }

    /// The frames below which the pool could deadlock.
    pub open spec fn watermark(self) -> int {
        self.working_set() + self.retained
    }

    /// Retention counters can represent the budget and the readers.
    pub open spec fn retention_fault(self) -> Option<PoolConfigError> {
        if self.retained > RING_CAPACITY_MAX {
            Some(
                PoolConfigError::RetentionUnrepresentable {
                    requested: self.retained,
                    limit: RING_CAPACITY_MAX,
                },
            )
        } else if self.retained > u32::MAX - self.readers {
            Some(
                PoolConfigError::RetentionUnrepresentable {
                    requested: self.retained,
                    limit: (u32::MAX - self.readers) as u32,
                },
            )
        } else if self.readers == u32::MAX {
            Some(
                PoolConfigError::RetentionUnrepresentable {
                    requested: self.readers,
                    limit: (u32::MAX - 1) as u32,
                },
            )
        } else {
            None
        }
    }

    /// The first rule the capacities break, in order of precedence.
    pub open spec fn fault(self) -> Option<PoolConfigError> {
        if self.reads + self.product_ops > u32::MAX {
            Some(
                PoolConfigError::QueueCapacityOverflow {
                    max_inflight_reads: self.reads,
                    max_inflight_product_ops: self.product_ops,
                },
            )
        } else if !power_of_two(self.granule_bytes as int) {
            Some(PoolConfigError::GranuleNotPowerOfTwo { granule: self.granule_bytes })
        } else if self.granule_bytes < SECTOR_BYTES {
            Some(
                PoolConfigError::GranuleBelowSector {
                    granule: self.granule_bytes,
                    sector: SECTOR_BYTES,
                },
            )
        } else if self.retention_fault() is Some {
            self.retention_fault()
        } else if 3 * self.reads > u32::MAX {
            Some(
                PoolConfigError::MissHeadroomTooSmall {
                    miss_headroom: self.headroom,
                    minimum: u32::MAX,
                },
            )
        } else if self.headroom < 3 * self.reads {
            Some(
                PoolConfigError::MissHeadroomTooSmall {
                    miss_headroom: self.headroom,
                    minimum: (3 * self.reads) as u32,
                },
            )
        } else if self.frames < self.watermark() {
            Some(
                PoolConfigError::BelowWatermark {
                    frame_count: self.frames,
                    watermark: if self.watermark() <= u32::MAX {
                        self.watermark() as u32
                    } else {
                        u32::MAX
                    },
                },
            )
        } else {
            None
        }
    }

    /// The bytes of both arenas, frames and staging slots.
    pub open spec fn arena_bytes(self) -> int {
        (self.frames + (if self.staging == 0 {
            1
        } else {
            self.staging as int
        })) * self.granule_bytes
    }

    /// What the policies refuse of a host that registers buffers or not, has a
    /// table for them or not, and has locked the arenas or not.
    pub open spec fn policy_fault(
        self,
        posture: RegistrationPosture,
        locked: bool,
        has_buffer_table: bool,
        memlock_limit_bytes: u64,
    ) -> Option<PoolConfigError> {
        if self.registration_policy == RegistrationPolicy::Registered && !has_buffer_table {
            Some(PoolConfigError::RegistrationUnsupported)
        } else if self.registration_policy == RegistrationPolicy::Registered && posture
            != RegistrationPosture::Registered {
            Some(
                PoolConfigError::RegistrationRefused {
                    arena_bytes: self.arena_bytes() as u64,
                    memlock_limit_bytes,
                },
            )
        } else if self.arena_lock == ArenaLockPolicy::Required && !locked {
            Some(
                PoolConfigError::ArenaLockRefused {
                    arena_bytes: self.arena_bytes() as u64,
                    memlock_limit_bytes,
                },
            )
        } else {
            None
        }
    }

    /// The posture a driver runs: that of the host, unless the policy asks for
    /// none.
    pub open spec fn granted(self, posture: RegistrationPosture) -> RegistrationPosture {
        if self.registration_policy == RegistrationPolicy::Unregistered {
            RegistrationPosture::Unregistered
        } else {
            posture
        }
    }

    /// Holds what the host gave against the registration and lock policies.
    pub fn check_policies(
        self,
        posture: RegistrationPosture,
        locked: bool,
        has_buffer_table: bool,
        memlock_limit_bytes: u64,
    ) -> (checked: Result<(), PoolConfigError>)
        requires
            self.fault() is None,
            self.frames <= 0x4000_0000,
        ensures
            0 <= self.arena_bytes() <= u64::MAX,
            checked is Ok <==> self.policy_fault(
                posture,
                locked,
                has_buffer_table,
                memlock_limit_bytes,
            ) is None,
            checked matches Err(error) ==> self.policy_fault(
                posture,
                locked,
                has_buffer_table,
                memlock_limit_bytes,
            ) == Some(error),
    {
        let slots: u64 = if self.staging == 0 {
            1
        } else {
            self.staging as u64
        };
        let count: u64 = self.frames as u64 + slots;
        proof {
            lemma_power_of_two_bound(self.granule_bytes);
            let granule = self.granule_bytes as int;
            assert(0 <= count * granule <= 0x1_4000_0000 * 0x8000_0000) by (nonlinear_arith)
                requires
                    0 <= count <= 0x1_4000_0000,
                    0 <= granule <= 0x8000_0000,
            ;
        }
        let arena_bytes: u64 = count * (self.granule_bytes as u64);
        if self.registration_policy == RegistrationPolicy::Registered {
            if !has_buffer_table {
                return Err(PoolConfigError::RegistrationUnsupported);
            }
            if posture != RegistrationPosture::Registered {
                return Err(
                    PoolConfigError::RegistrationRefused { arena_bytes, memlock_limit_bytes },
                );
            }
        }
        if self.arena_lock == ArenaLockPolicy::Required && !locked {
            return Err(PoolConfigError::ArenaLockRefused { arena_bytes, memlock_limit_bytes });
        }
        Ok(())
    }

    /// Frames no guard, miss or retained handle may need.
    pub open spec fn spare_frames(self) -> int {
        let committed = self.readers * self.guards_per_reader + self.headroom + self.retained;
        if committed >= self.frames {
            0
        } else {
            self.frames - committed
        }
    }

    /// The speculative credits: those asked for, or else as many as spare
    /// frames and reads leave, at most 32.
    pub open spec fn prefetch_credits(self) -> int {
        match self.credits {
            Some(credits) => credits as int,
            None => {
                let reads = if self.reads == 0 {
                    0
                } else {
                    self.reads - 1
                };
                let shared = if self.spare_frames() <= reads {
                    self.spare_frames()
                } else {
                    reads
                };
                if shared <= 32 {
                    shared
                } else {
                    32
                }
            },
        }
    }

    /// Sets the total number of resident frames.
    #[must_use]
    pub fn frame_count(self, frame_count: u32) -> (builder: Self)
        ensures
            builder == (PoolBuilder { frames: frame_count, ..self }),
    {
        PoolBuilder { frames: frame_count, ..self }
    }

    /// Sets the power-of-two bytes per file extent and frame.
    #[must_use]
    pub fn granule(self, granule: u32) -> (builder: Self)
        ensures
            builder == (PoolBuilder { granule_bytes: granule, ..self }),
    {
        PoolBuilder { granule_bytes: granule, ..self }
    }

    /// Sets the fixed number of reader registration slots.
    #[must_use]
    pub fn max_concurrent_readers(self, max_concurrent_readers: u32) -> (builder: Self)
        ensures
            builder == (PoolBuilder { readers: max_concurrent_readers, ..self }),
    {
        PoolBuilder { readers: max_concurrent_readers, ..self }
    }

    /// Sets the maximum simultaneous guards held by one reader.
    #[must_use]
    pub fn peak_guards_per_reader(self, peak_guards_per_reader: u32) -> (builder: Self)
        ensures
            builder == (PoolBuilder { guards_per_reader: peak_guards_per_reader, ..self }),
    {
        PoolBuilder { guards_per_reader: peak_guards_per_reader, ..self }
    }

    /// Sets the maximum reads admitted concurrently.
    #[must_use]
    pub fn max_inflight_reads(self, max_inflight_reads: u32) -> (builder: Self)
        ensures
            builder == (PoolBuilder { reads: max_inflight_reads, ..self }),
    {
        PoolBuilder { reads: max_inflight_reads, ..self }
    }

    /// Sets the frames reserved for misses and epoch reclamation.
    #[must_use]
    pub fn miss_headroom(self, miss_headroom: u32) -> (builder: Self)
        ensures
            builder == (PoolBuilder { headroom: miss_headroom, ..self }),
    {
        PoolBuilder { headroom: miss_headroom, ..self }
    }

    /// Sets how many distinct frames handles may retain.
    #[must_use]
    pub fn max_retained_frames(self, max_retained_frames: u32) -> (builder: Self)
        ensures
            builder == (PoolBuilder { retained: max_retained_frames, ..self }),
    {
        PoolBuilder { retained: max_retained_frames, ..self }
    }

    /// Sets the exact number of product write staging slots.
    #[must_use]
    pub fn write_slots(self, write_slots: u32) -> (builder: Self)
        ensures
            builder == (PoolBuilder { staging: write_slots, ..self }),
    {
        PoolBuilder { staging: write_slots, ..self }
    }

    /// Sets the total admitted plus retained product-operation bound.
    #[must_use]
    pub fn max_inflight_product_ops(self, operations: u32) -> (builder: Self)
        ensures
            builder == (PoolBuilder { product_ops: operations, ..self }),
    {
        PoolBuilder { product_ops: operations, ..self }
    }

    /// Sets the exact number of registered file slots.
    #[must_use]
    pub fn registered_file_capacity(self, registered_file_capacity: u32) -> (builder: Self)
        ensures
            builder == (PoolBuilder { files: registered_file_capacity, ..self }),
    {
        PoolBuilder { files: registered_file_capacity, ..self }
    }

    /// Sets the buffer-registration posture: `Auto` takes what the host gives,
    /// an explicit posture is honoured or refused.
    #[must_use]
    pub fn registration_posture(self, registration_policy: RegistrationPolicy) -> (builder: Self)
        ensures
            builder == (PoolBuilder { registration_policy, ..self }),
    {
        PoolBuilder { registration_policy, ..self }
    }

    /// Makes a refused arena lock a build failure,
    /// `PoolConfigError::ArenaLockRefused`.
    #[must_use]
    pub fn require_locked(self) -> (builder: Self)
        ensures
            builder == (PoolBuilder { arena_lock: ArenaLockPolicy::Required, ..self }),
    {
        PoolBuilder { arena_lock: ArenaLockPolicy::Required, ..self }
    }

    /// Sets speculative credits, covering both in-flight and unconsumed pages.
    /// Zero disables all speculative admission.
    #[must_use]
    pub fn prefetch_headroom(self, credits: u32) -> (builder: Self)
        ensures
            builder == (PoolBuilder { credits: Some(credits), ..self }),
    {
        PoolBuilder { credits: Some(credits), ..self }
    }

    /// Selects automatic sequential detection.
    #[must_use]
    pub fn readahead(self, mode: Readahead) -> (builder: Self)
        ensures
            builder == (PoolBuilder { mode, ..self }),
    {
        PoolBuilder { mode, ..self }
    }

    /// Validates the capacities, naming the first rule they break.
    pub fn validate(self) -> (valid: Result<(), PoolConfigError>)
        ensures
            valid is Ok <==> self.fault() is None,
            valid matches Err(error) ==> self.fault() == Some(error),
    {
        if self.reads as u64 + self.product_ops as u64 > u32::MAX as u64 {
            return Err(
                PoolConfigError::QueueCapacityOverflow {
                    max_inflight_reads: self.reads,
                    max_inflight_product_ops: self.product_ops,
                },
            );
        }
        if !is_power_of_two(self.granule_bytes) {
            return Err(PoolConfigError::GranuleNotPowerOfTwo { granule: self.granule_bytes });
        }
        if self.granule_bytes < SECTOR_BYTES {
            return Err(
                PoolConfigError::GranuleBelowSector {
                    granule: self.granule_bytes,
                    sector: SECTOR_BYTES,
                },
            );
        }
        match self.validate_retention_capacity() {
            Ok(()) => {},
            Err(error) => {
                return Err(error);
            },
        }
        let minimum: u64 = 3 * (self.reads as u64);
        if minimum > u32::MAX as u64 {
            return Err(
                PoolConfigError::MissHeadroomTooSmall {
                    miss_headroom: self.headroom,
                    minimum: u32::MAX,
                },
            );
        }
        if (self.headroom as u64) < minimum {
            return Err(
                PoolConfigError::MissHeadroomTooSmall {
                    miss_headroom: self.headroom,
                    minimum: minimum as u32,
                },
            );
        }
        let guards: u64 = self.guard_frames();
        let held: u64 = guards + self.headroom as u64;
        let watermark: u64 = (if held < 1 {
            1
        } else {
            held
        }) + self.retained as u64;
        if (self.frames as u64) < watermark {
            return Err(
                PoolConfigError::BelowWatermark {
                    frame_count: self.frames,
                    watermark: if watermark <= u32::MAX as u64 {
                        watermark as u32
                    } else {
                        u32::MAX
                    },
                },
            );
        }
        Ok(())
    }

    /// The frames all readers' guards can pin.
    fn guard_frames(&self) -> (guards: u64)
        ensures
            guards == self.readers * self.guards_per_reader,
            guards <= 0xffff_fffe_0000_0001,
    {
        let readers: u32 = self.readers;
        let guards: u32 = self.guards_per_reader;
        assert(readers * guards <= 0xffff_ffff * 0xffff_ffff) by (nonlinear_arith)
            requires
                readers <= 0xffff_ffff,
                guards <= 0xffff_ffff,
        ;
        readers as u64 * guards as u64
    }

    pub fn validate_retention_capacity(&self) -> (valid: Result<(), PoolConfigError>)
        ensures
            valid is Ok <==> self.retention_fault() is None,
            valid matches Err(error) ==> self.retention_fault() == Some(error),
    {
        if self.retained > RING_CAPACITY_MAX {
            return Err(
                PoolConfigError::RetentionUnrepresentable {
                    requested: self.retained,
                    limit: RING_CAPACITY_MAX,
                },
            );
        }
        let tally_limit: u32 = u32::MAX - self.readers;
        if self.retained > tally_limit {
            return Err(
                PoolConfigError::RetentionUnrepresentable {
                    requested: self.retained,
                    limit: tally_limit,
                },
            );
        }
        if self.readers == u32::MAX {
            return Err(
                PoolConfigError::RetentionUnrepresentable {
                    requested: self.readers,
                    limit: u32::MAX - 1,
                },
            );
        }
        Ok(())
    }

    /// The speculative credits, refused where they exceed the spare frames.
    pub fn prefetch_capacity(&self) -> (credits: Result<u32, PoolConfigError>)
        ensures
            credits is Ok <==> self.prefetch_credits() <= self.spare_frames(),
            credits matches Ok(n) ==> n == self.prefetch_credits(),
            credits matches Err(error) ==> error == (PoolConfigError::PrefetchHeadroomTooLarge {
                requested: self.prefetch_credits() as u32,
                available: self.spare_frames() as u32,
            }),
            self.credits is None ==> credits is Ok,
    {
        let guards: u64 = self.guard_frames();
        let committed: u64 = guards + self.headroom as u64 + self.retained as u64;
        let spare: u32 = if committed >= self.frames as u64 {
            0
        } else {
            (self.frames as u64 - committed) as u32
        };
        let credits: u32 = match self.credits {
            Some(credits) => credits,
            None => {
                let reads: u32 = if self.reads == 0 {
                    0
                } else {
                    self.reads - 1
                };
                let shared: u32 = if spare <= reads {
                    spare
                } else {
                    reads
                };
                if shared <= 32 {
                    shared
                } else {
                    32
                }
            },
        };
        if credits > spare {
            return Err(
                PoolConfigError::PrefetchHeadroomTooLarge { requested: credits, available: spare },
            );
        }
        Ok(credits)
    }
}

/// An accepted configuration cannot starve: beyond every guard the readers
/// can hold and every frame handles can retain, three frames are left for
/// each read, one in flight and two through their grace periods.
pub proof fn accepted_capacities_leave_room_for_every_read(builder: PoolBuilder)
    requires
        builder.fault() is None,
    ensures
        builder.frames > 0,
        builder.frames - builder.readers * builder.guards_per_reader - builder.retained >= 3
            * builder.reads,
        power_of_two(builder.granule_bytes as int),
        builder.granule_bytes >= SECTOR_BYTES,
{
}

/// Speculation never eats into committed frames: the guards, the misses, the
/// retained handles and the speculative credits all fit the arena at once.
pub proof fn credits_come_out_of_spare_frames(builder: PoolBuilder)
    requires
        builder.fault() is None,
        builder.prefetch_credits() <= builder.spare_frames(),
    ensures
        builder.readers * builder.guards_per_reader + builder.headroom + builder.retained
            + builder.prefetch_credits() <= builder.frames,
{
}

/// A reader's counts go up by one at a time and stop at their end.
pub proof fn counts_stop_at_their_end(count: u32)
    ensures
        count < 0xffff_ffff ==> tallied(count) == count + 1,
        count == 0xffff_ffff ==> tallied(count) == count,
{
}

/// A refusal quotes the numbers that led to it.
pub proof fn a_refusal_quotes_its_numbers(error: PoolConfigError)
    ensures
        match error {
            PoolConfigError::RetentionUnrepresentable { requested, limit } => quotes(
                error.text(),
                requested as int,
            ) && quotes(error.text(), limit as int),
            PoolConfigError::BelowWatermark { frame_count, watermark } => quotes(
                error.text(),
                frame_count as int,
            ) && quotes(error.text(), watermark as int),
            PoolConfigError::MissHeadroomTooSmall { miss_headroom, minimum } => quotes(
                error.text(),
                miss_headroom as int,
            ) && quotes(error.text(), minimum as int),
            PoolConfigError::GranuleNotPowerOfTwo { granule } => quotes(
                error.text(),
                granule as int,
            ),
            PoolConfigError::GranuleBelowSector { granule, sector } => quotes(
                error.text(),
                granule as int,
            ) && quotes(error.text(), sector as int),
            PoolConfigError::QueueCapacityOverflow {
                max_inflight_reads,
                max_inflight_product_ops,
            } => quotes(error.text(), max_inflight_reads as int) && quotes(
                error.text(),
                max_inflight_product_ops as int,
            ),
            PoolConfigError::PrefetchHeadroomTooLarge { requested, available } => quotes(
                error.text(),
                requested as int,
            ) && quotes(error.text(), available as int),
            PoolConfigError::RegistrationRefused { arena_bytes, memlock_limit_bytes } => quotes(
                error.text(),
                arena_bytes as int,
            ) && quotes(error.text(), memlock_limit_bytes as int),
            PoolConfigError::RegistrationUnsupported => true,
            PoolConfigError::ArenaLockRefused { arena_bytes, memlock_limit_bytes } => quotes(
                error.text(),
                arena_bytes as int,
            ) && quotes(error.text(), memlock_limit_bytes as int),
        },
{
    match error {
        PoolConfigError::RetentionUnrepresentable { requested, limit } => {
            lemma_quotes_both(
                "retention-capacity request "@,
                requested as nat,
                " exceeds the representable limit "@,
                limit as nat,
                Seq::empty(),
            );
            assert(error.text() + Seq::<char>::empty() =~= error.text());
        },
        PoolConfigError::BelowWatermark { frame_count, watermark } => {
            lemma_quotes_both(
                "frame count "@,
                frame_count as nat,
                " below the deadlock-freedom watermark "@,
                watermark as nat,
                Seq::empty(),
            );
            assert(error.text() + Seq::<char>::empty() =~= error.text());
        },
        PoolConfigError::MissHeadroomTooSmall { miss_headroom, minimum } => {
            lemma_quotes_both(
                "miss headroom "@,
                miss_headroom as nat,
                " below the minimum "@,
                minimum as nat,
                Seq::empty(),
            );
            assert(error.text() + Seq::<char>::empty() =~= error.text());
        },
        PoolConfigError::GranuleNotPowerOfTwo { granule } => {
            lemma_quotes("granule "@, granule as nat, " is not a power of two"@);
        },
        PoolConfigError::GranuleBelowSector { granule, sector } => {
            lemma_quotes_both(
                "granule "@,
                granule as nat,
                " below the sector floor "@,
                sector as nat,
                Seq::empty(),
            );
            assert(error.text() + Seq::<char>::empty() =~= error.text());
        },
        PoolConfigError::QueueCapacityOverflow {
            max_inflight_reads,
            max_inflight_product_ops,
        } => {
            lemma_quotes_both(
                "read capacity "@,
                max_inflight_reads as nat,
                " plus product capacity "@,
                max_inflight_product_ops as nat,
                " overflows"@,
            );
        },
        PoolConfigError::PrefetchHeadroomTooLarge { requested, available } => {
            lemma_quotes_both(
                "prefetch headroom "@,
                requested as nat,
                " exceeds the spare frames "@,
                available as nat,
                Seq::empty(),
            );
            assert(error.text() + Seq::<char>::empty() =~= error.text());
        },
        PoolConfigError::RegistrationRefused { arena_bytes, memlock_limit_bytes } => {
            lemma_quotes_both(
                "buffer registration of "@,
                arena_bytes as nat,
                " bytes refused against RLIMIT_MEMLOCK "@,
                memlock_limit_bytes as nat,
                "; grant CAP_IPC_LOCK, raise the limit, or select Unregistered"@,
            );
        },
        PoolConfigError::RegistrationUnsupported => {},
        PoolConfigError::ArenaLockRefused { arena_bytes, memlock_limit_bytes } => {
            lemma_quotes_both(
                "locking "@,
                arena_bytes as nat,
                " arena bytes refused against RLIMIT_MEMLOCK "@,
                memlock_limit_bytes as nat,
                "; grant CAP_IPC_LOCK or raise the limit"@,
            );
        },
    }
}

/// A text quotes both numbers that were written into it.
proof fn lemma_quotes_both(
    front: Seq<char>,
    first: nat,
    between: Seq<char>,
    second: nat,
    back: Seq<char>,
)
    ensures
        quotes(front + decimal(first) + between + decimal(second) + back, first as int),
        quotes(front + decimal(first) + between + decimal(second) + back, second as int),
{
    let text = front + decimal(first) + between + decimal(second) + back;
    lemma_quotes(front, first, between + decimal(second) + back);
    assert(text =~= front + decimal(first) + (between + decimal(second) + back));
    lemma_quotes(front + decimal(first) + between, second, back);
}

/// A lookup that is refused quotes the page it was for, and a registration that
/// is refused the readers there can be.
pub proof fn a_refused_lookup_names_its_page(page: PageId, readers: u32)
    ensures
        ({
            let text = (GetError::StaleFile { page }).text();
            &&& quotes(text, page.file.driver as int)
            &&& quotes(text, page.file.slot as int)
            &&& quotes(text, page.file.generation as int)
            &&& quotes(text, page.granule_idx as int)
        }),
        quotes(
            (RegisterError::AtCapacity { max_concurrent_readers: readers }).text(),
            readers as int,
        ),
{
    let text = (GetError::StaleFile { page }).text();
    let front = "stale file for page PageId { file: "@;
    let back = ", granule_idx: "@ + decimal(page.granule_idx as nat) + " }"@;
    a_named_file_is_quoted(front, page.file, back);
    assert(text =~= front + file_text(page.file) + back);
    lemma_quotes(
        front + file_text(page.file) + ", granule_idx: "@,
        page.granule_idx as nat,
        " }"@,
    );
    let full = (RegisterError::AtCapacity { max_concurrent_readers: readers }).text();
    lemma_quotes("reader registration at capacity "@, readers as nat, Seq::empty());
    assert(full + Seq::<char>::empty() =~= full);
}

/// A failed construction ends with the text of its cause.
pub proof fn a_failed_construction_tells_its_cause(fault: PoolConfigError, error: IoError)
    ensures
        fault.text().is_suffix_of(PoolBuildError::Configuration(fault).text()),
        error.text().is_suffix_of(PoolBuildError::Driver(error).text()),
{
    let whole = PoolBuildError::Configuration(fault).text();
    assert(whole.subrange(whole.len() - fault.text().len(), whole.len() as int) =~= fault.text());
    let other = PoolBuildError::Driver(error).text();
    assert(other.subrange(other.len() - error.text().len(), other.len() as int) =~= error.text());
}

} // verus!
