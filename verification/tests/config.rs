use dios::driver::{FileId, RegistrationPolicy, RegistrationPosture};
use dios::error::IoError;
use dios::pool::config::{
    GetError, PoolBuildError, PoolBuilder, PoolConfigError, ReaderCounters, RegisterError,
};
use dios::pool::frames::ArenaIds;
use dios::pool::prefetch::Readahead;
use dios::pool::release_ring::RING_CAPACITY_MAX;
use dios::pool::{PageId, GRANULE_DEFAULT, SECTOR_BYTES};
use dios::product::PoolSubmitError;

fn accepted() -> PoolBuilder {
    PoolBuilder::default()
        .frame_count(20)
        .max_concurrent_readers(2)
        .peak_guards_per_reader(3)
        .max_inflight_reads(4)
        .miss_headroom(12)
        .max_retained_frames(1)
}

#[test]
fn capacities_above_the_watermark_are_accepted() {
    assert_eq!(accepted().validate(), Ok(()));
    assert_eq!(accepted().frame_count(19).validate(), Ok(()));
}

#[test]
fn the_watermark_counts_guards_misses_and_retained_frames() {
    assert_eq!(
        accepted().frame_count(18).validate(),
        Err(PoolConfigError::BelowWatermark { frame_count: 18, watermark: 19 })
    );
    assert_eq!(
        PoolBuilder::default().validate(),
        Err(PoolConfigError::BelowWatermark { frame_count: 0, watermark: 1 })
    );
    assert_eq!(
        accepted()
            .max_concurrent_readers(u32::MAX - 1)
            .peak_guards_per_reader(u32::MAX)
            .validate(),
        Err(PoolConfigError::BelowWatermark { frame_count: 20, watermark: u32::MAX })
    );
}

#[test]
fn each_read_needs_three_headroom_frames() {
    assert_eq!(
        accepted().miss_headroom(11).validate(),
        Err(PoolConfigError::MissHeadroomTooSmall { miss_headroom: 11, minimum: 12 })
    );
    assert_eq!(
        accepted().max_inflight_reads(0x6000_0000).validate(),
        Err(PoolConfigError::MissHeadroomTooSmall { miss_headroom: 12, minimum: u32::MAX })
    );
}

#[test]
fn a_granule_is_a_power_of_two_of_at_least_one_sector() {
    assert_eq!(
        accepted().granule(5000).validate(),
        Err(PoolConfigError::GranuleNotPowerOfTwo { granule: 5000 })
    );
    assert_eq!(
        accepted().granule(0).validate(),
        Err(PoolConfigError::GranuleNotPowerOfTwo { granule: 0 })
    );
    assert_eq!(
        accepted().granule(2048).validate(),
        Err(PoolConfigError::GranuleBelowSector { granule: 2048, sector: SECTOR_BYTES })
    );
    assert_eq!(accepted().granule(2 * GRANULE_DEFAULT).validate(), Ok(()));
}

#[test]
fn retention_stays_representable() {
    assert_eq!(
        accepted().max_retained_frames(RING_CAPACITY_MAX + 1).validate(),
        Err(PoolConfigError::RetentionUnrepresentable {
            requested: RING_CAPACITY_MAX + 1,
            limit: RING_CAPACITY_MAX,
        })
    );
    assert_eq!(
        accepted().max_concurrent_readers(u32::MAX).validate(),
        Err(PoolConfigError::RetentionUnrepresentable { requested: 1, limit: 0 })
    );
    assert_eq!(
        accepted()
            .max_concurrent_readers(u32::MAX)
            .max_retained_frames(0)
            .validate_retention_capacity(),
        Err(PoolConfigError::RetentionUnrepresentable {
            requested: u32::MAX,
            limit: u32::MAX - 1,
        })
    );
}

#[test]
fn queue_reservations_must_not_overflow() {
    assert_eq!(
        accepted().max_inflight_product_ops(u32::MAX).validate(),
        Err(PoolConfigError::QueueCapacityOverflow {
            max_inflight_reads: 4,
            max_inflight_product_ops: u32::MAX,
        })
    );
}

#[test]
fn speculative_credits_fit_the_spare_frames() {
    assert_eq!(accepted().prefetch_capacity(), Ok(1));
    assert_eq!(accepted().frame_count(40).prefetch_capacity(), Ok(3));
    assert_eq!(accepted().frame_count(40).prefetch_headroom(21).prefetch_capacity(), Ok(21));
    assert_eq!(
        accepted().frame_count(40).prefetch_headroom(22).prefetch_capacity(),
        Err(PoolConfigError::PrefetchHeadroomTooLarge { requested: 22, available: 21 })
    );
    assert_eq!(
        PoolBuilder::default()
            .frame_count(1000)
            .max_inflight_reads(100)
            .miss_headroom(300)
            .prefetch_capacity(),
        Ok(32)
    );
}

#[test]
fn the_builder_keeps_what_it_is_told() {
    let builder = PoolBuilder::default()
        .write_slots(3)
        .registered_file_capacity(5)
        .readahead(Readahead::Disabled)
        .require_locked();
    assert_eq!(builder.staging, 3);
    assert_eq!(builder.files, 5);
    assert_eq!(builder.mode, Readahead::Disabled);
    assert_ne!(builder, PoolBuilder::default());
}

#[test]
fn configuration_messages() {
    let text = |error: PoolConfigError| error.message();
    assert_eq!(
        text(PoolConfigError::RetentionUnrepresentable { requested: 9, limit: 4 }),
        "retention-capacity request 9 exceeds the representable limit 4"
    );
    assert_eq!(
        text(PoolConfigError::BelowWatermark { frame_count: 18, watermark: 19 }),
        "frame count 18 below the deadlock-freedom watermark 19"
    );
    assert_eq!(
        text(PoolConfigError::MissHeadroomTooSmall { miss_headroom: 2, minimum: 12 }),
        "miss headroom 2 below the minimum 12"
    );
    assert_eq!(
        text(PoolConfigError::GranuleNotPowerOfTwo { granule: 5000 }),
        "granule 5000 is not a power of two"
    );
    assert_eq!(
        text(PoolConfigError::GranuleBelowSector { granule: 512, sector: 4096 }),
        "granule 512 below the sector floor 4096"
    );
    assert_eq!(
        text(PoolConfigError::QueueCapacityOverflow {
            max_inflight_reads: 10,
            max_inflight_product_ops: 20,
        }),
        "read capacity 10 plus product capacity 20 overflows"
    );
    assert_eq!(
        text(PoolConfigError::PrefetchHeadroomTooLarge { requested: 8, available: 7 }),
        "prefetch headroom 8 exceeds the spare frames 7"
    );
    assert_eq!(
        text(PoolConfigError::RegistrationRefused {
            arena_bytes: 8192,
            memlock_limit_bytes: 4096,
        }),
        "buffer registration of 8192 bytes refused against RLIMIT_MEMLOCK 4096; \
         grant CAP_IPC_LOCK, raise the limit, or select Unregistered"
    );
    assert_eq!(
        text(PoolConfigError::RegistrationUnsupported),
        "the eager backend has no buffer table to register"
    );
    assert_eq!(
        text(PoolConfigError::ArenaLockRefused { arena_bytes: 1, memlock_limit_bytes: 0 }),
        "locking 1 arena bytes refused against RLIMIT_MEMLOCK 0; \
         grant CAP_IPC_LOCK or raise the limit"
    );
}

#[test]
fn surface_messages() {
    let file = FileId::new(7, 1, 12);
    assert_eq!(
        PoolBuildError::Configuration(PoolConfigError::RegistrationUnsupported).message(),
        "invalid pool configuration: the eager backend has no buffer table to register"
    );
    assert_eq!(PoolBuildError::Allocation.message(), "pool allocation failed");
    assert_eq!(
        PoolBuildError::Driver(IoError::from_raw(12)).message(),
        "driver initialization failed: os error 12"
    );
    assert_eq!(IoError::from_raw(-5).message(), "os error -5");
    assert_eq!(IoError { raw: None }.message(), "unspecified I/O error");
    assert_eq!(
        RegisterError::AtCapacity { max_concurrent_readers: 100 }.message(),
        "reader registration at capacity 100"
    );
    assert_eq!(
        GetError::StaleFile { page: PageId::new(file, 30) }.message(),
        "stale file for page PageId { file: FileId { driver: 7, slot: 1, generation: 12 }, \
         granule_idx: 30 }"
    );
    assert_eq!(PoolSubmitError::Full.message(), "product operation capacity full");
    assert_eq!(
        PoolSubmitError::StaleFile { file }.message(),
        "stale product file FileId { driver: 7, slot: 1, generation: 12 }"
    );
    assert_eq!(PoolSubmitError::ForeignPool.message(), "write slot belongs to another pool");
}

#[test]
fn reader_tallies_stop_at_their_end() {
    let mut counters = ReaderCounters::new();
    counters.record_hit();
    counters.record_hit();
    counters.record_eviction();
    assert_eq!((counters.hits(), counters.evictions()), (2, 1));
    let mut full = ReaderCounters { hit_count: u32::MAX, eviction_count: u32::MAX };
    full.record_hit();
    full.record_eviction();
    assert_eq!((full.hits(), full.evictions()), (u32::MAX, u32::MAX));
    assert_eq!(ReaderCounters::default(), ReaderCounters::new());
}

fn host_refusal(
    builder: PoolBuilder,
    posture: RegistrationPosture,
    locked: bool,
    has_buffer_table: bool,
) -> Option<PoolBuildError> {
    let mut ids = ArenaIds::new();
    builder.build(&mut ids, 1, posture, locked, has_buffer_table, 65536).err()
}

#[test]
fn a_required_lock_is_honoured_or_refused() {
    let required = accepted().granule(4096).write_slots(3).require_locked();
    let refused = PoolConfigError::ArenaLockRefused {
        arena_bytes: 23 * 4096,
        memlock_limit_bytes: 65536,
    };
    assert_eq!(
        host_refusal(required, RegistrationPosture::Unregistered, false, false),
        Some(PoolBuildError::Configuration(refused))
    );
    assert_eq!(host_refusal(required, RegistrationPosture::Unregistered, true, false), None);
    assert_eq!(
        host_refusal(accepted(), RegistrationPosture::Unregistered, false, false),
        None
    );
}

#[test]
fn an_explicit_posture_is_honoured_or_refused() {
    let registered = accepted()
        .granule(4096)
        .registration_posture(RegistrationPolicy::Registered);
    assert_eq!(
        host_refusal(registered, RegistrationPosture::Unregistered, false, false),
        Some(PoolBuildError::Configuration(PoolConfigError::RegistrationUnsupported))
    );
    let refused = PoolConfigError::RegistrationRefused {
        arena_bytes: 21 * 4096,
        memlock_limit_bytes: 65536,
    };
    assert_eq!(
        host_refusal(registered, RegistrationPosture::Unregistered, false, true),
        Some(PoolBuildError::Configuration(refused))
    );
    assert_eq!(host_refusal(registered, RegistrationPosture::Registered, false, true), None);
    for (policy, given, run) in [
        (
            RegistrationPolicy::Auto,
            RegistrationPosture::Registered,
            RegistrationPosture::Registered,
        ),
        (
            RegistrationPolicy::Auto,
            RegistrationPosture::Unregistered,
            RegistrationPosture::Unregistered,
        ),
        (
            RegistrationPolicy::Unregistered,
            RegistrationPosture::Registered,
            RegistrationPosture::Unregistered,
        ),
    ] {
        let mut ids = ArenaIds::new();
        let Ok(pool) = accepted()
            .registration_posture(policy)
            .build(&mut ids, 1, given, true, true, 0)
        else {
            panic!("the policy takes what the host gives");
        };
        assert_eq!(pool.registration_posture(), run);
        assert!(pool.arena_locked());
    }
}
