//! What a configuration has to meet, and what the pool built from it has.

use crate::driver::RegistrationPosture;
use crate::num::{lemma_power_of_two_bound, power_of_two};
use crate::pool::config::{PoolBuilder, PoolConfigError};
use crate::pool::control::Pool;
use crate::pool::frames::ReadFrameIdx;
use vstd::prelude::*;

verus! {

/// The capacities that are accepted: reads and product operations that can be
/// counted together, a granule that is a power of two and no smaller than 4096
/// bytes, a retention budget that the ring and the counters can represent, a
/// miss headroom of three frames for each read, and enough frames for every
/// guard, miss and retained handle at once.
pub proof fn accepted_capacities(config: PoolBuilder)
    ensures
        config.fault() is None <==> {
            &&& config.reads + config.product_ops <= 0xffff_ffff
            &&& power_of_two(config.granule_bytes as int)
            &&& config.granule_bytes >= 4096
            &&& config.retained <= 0x8000_0000
            &&& config.retained + config.readers <= 0xffff_ffff
            &&& config.readers < 0xffff_ffff
            &&& config.headroom >= 3 * config.reads
            &&& config.frames >= config.readers * config.guards_per_reader + config.headroom
                + config.retained
            &&& config.frames >= 1 + config.retained
        },
{
    assert(config.readers * config.guards_per_reader >= 0) by (nonlinear_arith);
}

/// A refused configuration is told the first rule it breaks, with the numbers
/// that break it and the limit they miss.
pub proof fn a_refusal_names_the_rule_it_breaks(config: PoolBuilder)
    ensures
        match config.fault() {
            None => true,
            Some(PoolConfigError::QueueCapacityOverflow {
                max_inflight_reads,
                max_inflight_product_ops,
            }) => {
                &&& max_inflight_reads == config.reads
                &&& max_inflight_product_ops == config.product_ops
                &&& config.reads + config.product_ops > 0xffff_ffff
            },
            Some(PoolConfigError::GranuleNotPowerOfTwo { granule }) => {
                &&& granule == config.granule_bytes
                &&& !power_of_two(granule as int)
                &&& config.reads + config.product_ops <= 0xffff_ffff
            },
            Some(PoolConfigError::GranuleBelowSector { granule, sector }) => {
                &&& granule == config.granule_bytes
                &&& sector == 4096
                &&& granule < 4096
                &&& power_of_two(granule as int)
                &&& config.reads + config.product_ops <= 0xffff_ffff
            },
            Some(PoolConfigError::RetentionUnrepresentable { requested, limit }) => {
                &&& config.reads + config.product_ops <= 0xffff_ffff
                &&& power_of_two(config.granule_bytes as int)
                &&& config.granule_bytes >= 4096
                &&& requested > limit
                &&& {
                    ||| requested == config.retained && limit == 0x8000_0000
                    ||| requested == config.retained && config.retained <= 0x8000_0000 && limit
                        + config.readers == 0xffff_ffff
                    ||| requested == config.readers && config.retained == 0 && limit == 0xffff_fffe
                }
            },
            Some(PoolConfigError::MissHeadroomTooSmall { miss_headroom, minimum }) => {
                &&& miss_headroom == config.headroom
                &&& config.headroom < 3 * config.reads
                &&& minimum == 3 * config.reads || 3 * config.reads > 0xffff_ffff && minimum
                    == 0xffff_ffff
                &&& config.reads + config.product_ops <= 0xffff_ffff
                &&& power_of_two(config.granule_bytes as int)
                &&& config.granule_bytes >= 4096
                &&& config.retained <= 0x8000_0000
                &&& config.retained + config.readers <= 0xffff_ffff
                &&& config.readers < 0xffff_ffff
            },
            Some(PoolConfigError::BelowWatermark { frame_count, watermark }) => {
                &&& frame_count == config.frames
                &&& config.headroom >= 3 * config.reads
                &&& watermark == 0xffff_ffff || forall|n: u32|
                    (#[trigger] (PoolBuilder { frames: n, ..config }).fault()) is None <==> n
                        >= watermark
                &&& frame_count < watermark || forall|n: u32|
                    (#[trigger] (PoolBuilder { frames: n, ..config }).fault()) is Some
            },
            Some(_) => false,
        },
{
    assert(config.readers * config.guards_per_reader >= 0) by (nonlinear_arith);
    accepted_capacities(config);
}

/// The spare frames are those left once every guard, every miss and every
/// retained handle has one.
pub proof fn spare_frames_are_what_nobody_may_need(config: PoolBuilder)
    ensures
        config.fault() is None ==> config.spare_frames() + config.readers
            * config.guards_per_reader + config.headroom + config.retained == config.frames,
        config.frames <= config.readers * config.guards_per_reader + config.headroom
            + config.retained ==> config.spare_frames() == 0,
        config.spare_frames() >= 0,
{
    accepted_capacities(config);
}

/// The speculative credits are those asked for; where none are asked for they
/// are as many as the spare frames, all reads but one, and 32 allow.
pub proof fn credits_are_as_many_as_allowed(config: PoolBuilder, more: int)
    ensures
        config.credits matches Some(asked) ==> config.prefetch_credits() == asked,
        config.credits is None ==> {
            &&& 0 <= config.prefetch_credits() <= 32
            &&& config.prefetch_credits() <= config.spare_frames()
            &&& config.reads > 0 ==> config.prefetch_credits() < config.reads
            &&& config.reads == 0 ==> config.prefetch_credits() == 0
            &&& 0 <= more <= 32 && more <= config.spare_frames() && more < config.reads ==> more
                <= config.prefetch_credits()
        },
{
    spare_frames_are_what_nobody_may_need(config);
}

/// A configuration builds exactly where its capacities are accepted, its
/// speculative credits have spare frames behind them, and the frames can be
/// addressed; credits beyond the spare frames are refused with both numbers.
pub proof fn credits_need_spare_frames(config: PoolBuilder)
    ensures
        config.build_fault() is None <==> config.fault() is None && config.prefetch_credits()
            <= config.spare_frames(),
        config.fault() is Some ==> config.build_fault() == config.fault(),
        config.fault() is None && config.prefetch_credits() > config.spare_frames()
            ==> (config.build_fault() matches Some(
            PoolConfigError::PrefetchHeadroomTooLarge { requested, available },
        ) && requested == config.prefetch_credits() && available == config.spare_frames()),
        config.oversized() <==> config.frames > 0x4000_0000 || config.frames
            * config.granule_bytes > usize::MAX,
{
    spare_frames_are_what_nobody_may_need(config);
    accepted_capacities(config);
    assert(config.readers * config.guards_per_reader >= 0) by (nonlinear_arith);
}

/// A required registration is refused exactly where the host has no buffer table
/// or did not register, a required lock exactly where the arenas are not locked;
/// what is refused is told the bytes of all frames and staging slots, of which
/// there is at least one. Nothing else is refused, and a pool that asks for no
/// registration runs without.
pub proof fn policies_refuse_what_they_require(
    config: PoolBuilder,
    posture: RegistrationPosture,
    locked: bool,
    has_buffer_table: bool,
    limit: u64,
)
    requires
        config.fault() is None,
        config.frames <= 0x4000_0000,
    ensures
        ({
            let fault = config.policy_fault(posture, locked, has_buffer_table, limit);
            let bytes = if config.staging == 0 {
                config.frames * config.granule_bytes + config.granule_bytes
            } else {
                config.frames * config.granule_bytes + config.staging * config.granule_bytes
            };
            &&& fault is None <==> (config.registration_policy is Registered ==> has_buffer_table
                && posture is Registered) && (config.arena_lock is Required ==> locked)
            &&& fault matches Some(error) ==> match error {
                PoolConfigError::RegistrationUnsupported => config.registration_policy is Registered
                    && !has_buffer_table,
                PoolConfigError::RegistrationRefused { arena_bytes, memlock_limit_bytes } =>
                config.registration_policy is Registered && has_buffer_table && !(
                posture is Registered) && arena_bytes == bytes && memlock_limit_bytes == limit,
                PoolConfigError::ArenaLockRefused { arena_bytes, memlock_limit_bytes } =>
                config.arena_lock is Required && !locked && (
                config.registration_policy is Registered ==> has_buffer_table
                    && posture is Registered) && arena_bytes == bytes && memlock_limit_bytes
                    == limit,
                _ => false,
            }
            &&& config.registration_policy is Unregistered ==> config.granted(
                posture,
            ) is Unregistered
            &&& !(config.registration_policy is Unregistered) ==> config.granted(posture) == posture
        }),
{
    let frames = config.frames;
    let staging = config.staging;
    let granule = config.granule_bytes;
    accepted_capacities(config);
    lemma_power_of_two_bound(granule);
    assert((frames + staging) * granule == frames * granule + staging * granule
        && (frames + 1) * granule == frames * granule + granule && 0 <= frames * granule + staging
        * granule <= 0x8000_0000 * 0x1_4000_0000 && 0 <= frames * granule + granule <= 0x8000_0000
        * 0x4000_0001) by (nonlinear_arith)
        requires
            0 <= frames <= 0x4000_0000,
            0 <= staging <= 0xffff_ffff,
            0 <= granule <= 0x8000_0000,
    ;
    if staging == 0 {
        assert(config.arena_bytes() == (frames + 1) * granule);
    } else {
        assert(config.arena_bytes() == (frames + staging) * granule);
    }
}

/// A new pool has what was configured: its frames, granule, readers, reads,
/// product operations, staging slots, files and credits, every frame free and
/// nothing resident; it examines four times as many pages of a request as the
/// larger of its credits and reads, and at least one.
pub proof fn a_new_pool_has_what_was_configured(config: PoolBuilder, pool: Pool)
    requires
        config.build_fault() is None,
        pool.built(config),
    ensures
        pool.cache.frame_count() == config.frames,
        pool.cache.granule_bytes() == config.granule_bytes,
        pool.cache.residency.readers@.len() == config.readers,
        pool.cache.residency.retention.budget() == config.retained,
        pool.cache.read_limit() == config.reads,
        pool.cache.reads_in_flight == 0,
        pool.products@.len() == config.product_ops,
        pool.files.capacity() == config.files,
        pool.write_slots == config.staging,
        config.staging > 0 ==> pool.arena.slot_count() == config.staging,
        config.staging == 0 ==> pool.arena.slot_count() == 1,
        pool.cache.prefetch.credits() == config.prefetch_credits(),
        pool.cache.prefetch.stats().occupied == 0,
        !pool.cache.prefetch.is_active(),
        pool.cache.prefetch.patterns().len() == (if config.mode is Automatic
            && config.prefetch_credits() > 0 {
            config.readers as int
        } else {
            0
        }),
        pool.cache.prefetch.limit() >= 1,
        config.prefetch_credits() >= config.reads && 0 < 4 * config.prefetch_credits()
            <= 0xffff_ffff ==> pool.cache.prefetch.limit() == 4 * config.prefetch_credits(),
        config.prefetch_credits() <= config.reads && 0 < 4 * config.reads <= 0xffff_ffff
            ==> pool.cache.prefetch.limit() == 4 * config.reads,
        4 * config.prefetch_credits() > 0xffff_ffff || 4 * config.reads > 0xffff_ffff
            ==> pool.cache.prefetch.limit() == 0xffff_ffff,
        config.prefetch_credits() == 0 && config.reads == 0 ==> pool.cache.prefetch.limit() == 1,
        pool.cache.free@.len() == config.frames,
        forall|f: ReadFrameIdx|
            f.0 < config.frames ==> pool.cache.residency.frames.residency(f) is Free
                && #[trigger] pool.cache.free@[config.frames - 1 - f.0] == f,
        forall|p: crate::pool::PageId| !(#[trigger] pool.cache.residency.table@.contains_key(p)),
{
    credits_need_spare_frames(config);
    spare_frames_are_what_nobody_may_need(config);
    credits_are_as_many_as_allowed(config, 0);
}

/// Predictions are issued a vector at a time, 128 KiB or 32 pages of it at most,
/// where credits and all reads but one can carry two vectors, and one by one
/// otherwise.
pub proof fn predictions_are_issued_by_the_vector(config: PoolBuilder, pool: Pool)
    requires
        config.build_fault() is None,
        pool.built(config),
    ensures
        ({
            let width = pool.cache.prefetch.automatic();
            let granule = config.granule_bytes;
            &&& 1 <= width <= 32
            &&& width > 1 ==> width * granule <= 131072
            &&& width > 1 ==> 2 * width <= config.prefetch_credits() && 2 * width < config.reads
            &&& forall|n: u32|
                1 < n <= 32 && #[trigger] (n * granule) <= 131072 && (n < 32 && (n + 1) * granule
                    > 131072 || n == 32) && 2 * n <= config.prefetch_credits() && 2 * n
                    < config.reads ==> width == n
        }),
{
    credits_need_spare_frames(config);
    spare_frames_are_what_nobody_may_need(config);
    accepted_capacities(config);
    credits_are_as_many_as_allowed(config, 0);
    let granule = config.granule_bytes as int;
    let whole = 131072int / granule;
    assert(whole * granule <= 131072 < (whole + 1) * granule && 0 <= whole) by (nonlinear_arith)
        requires
            granule >= 4096,
            whole == 131072int / granule,
    ;
    assert(whole <= 32) by (nonlinear_arith)
        requires
            granule >= 4096,
            whole * granule <= 131072,
    ;
    assert forall|n: u32|
        1 < n <= 32 && #[trigger] (n * granule) <= 131072 && (n < 32 && (n + 1) * granule > 131072
            || n == 32) implies n == whole by {
        assert(n <= whole) by (nonlinear_arith)
            requires
                n * granule <= 131072,
                131072 < (whole + 1) * granule,
                granule > 0,
        ;
        if n < 32 {
            assert(whole <= n) by (nonlinear_arith)
                requires
                    (n + 1) * granule > 131072,
                    whole * granule <= 131072,
                    granule > 0,
            ;
        }
    }
}

} // verus!
