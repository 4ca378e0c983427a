use dios::driver::{FileId, IoMode, OpKind, RegistrationPosture, Request, SyncMode};
use dios::error::IoError;
use dios::pool::config::{GetError, PoolBuilder, RegisterError, ResidentLeaseError};
use dios::pool::control::{Pool, SHORT_READ_EOF_ERRNO};
use dios::pool::demand::{Get, ReadyResult};
use dios::pool::epoch::{FrameGuard, ReaderCtx};
use dios::pool::frames::{ArenaIds, FrameState};
use dios::pool::holds::PendingToken;
use dios::pool::host::Shutdown;
use dios::pool::prefetch::Readahead;
use dios::pool::retention::RetainRefusedReason;
use dios::pool::PageId;
use dios::product::{
    Pause, PollReport, PoolCompletion, PoolCompletionBatch, PoolSubmitError, RetireStatus,
    WaitState,
};

const GRANULE: u32 = 4096;

fn builder() -> PoolBuilder {
    Pool::builder()
        .frame_count(8)
        .granule(GRANULE)
        .max_concurrent_readers(1)
        .peak_guards_per_reader(2)
        .max_inflight_reads(2)
        .miss_headroom(6)
        .write_slots(2)
        .max_inflight_product_ops(3)
        .registered_file_capacity(2)
        .readahead(Readahead::Disabled)
        .prefetch_headroom(0)
}

fn build(builder: PoolBuilder) -> Pool {
    let mut ids = ArenaIds::new();
    match builder.build(&mut ids, 7, RegistrationPosture::Unregistered, false, false, 0) {
        Ok(pool) => pool,
        Err(error) => panic!("{}", error.message()),
    }
}

fn pool() -> (Pool, FileId, ReaderCtx) {
    let mut pool = build(builder());
    let file = pool.open(IoMode::Buffered).expect("a file slot");
    let reader = pool.register_reader().expect("a reader slot");
    (pool, file, reader)
}

/// Serves every submitted read with granules whose bytes are their index.
fn serve(pool: &mut Pool) -> u32 {
    let mut served = 0;
    while let Some(submission) = pool.take_submission() {
        match submission.request {
            Request::Read { offset, len, .. } => {
                let byte = (offset / u64::from(GRANULE)) as u8;
                let bytes = vec![byte; len as usize];
                assert!(pool.complete_read(submission.token, &bytes));
            }
            Request::Write { .. } => {
                let bytes = pool.staged_bytes(submission.token).expect("a staged granule");
                assert!(pool.complete_product(submission.token, bytes.len() as u32));
            }
            Request::Fsync { .. } => assert!(pool.complete_product(submission.token, 0)),
        }
        served += 1;
    }
    served
}

fn pending(pool: &mut Pool, reader: &ReaderCtx, page: PageId) -> PendingToken {
    match pool.get(reader, page) {
        Ok(Get::Pending(token)) => token,
        other => panic!("a cold page is pending: {other:?}"),
    }
}

fn resident(pool: &mut Pool, reader: &ReaderCtx, page: PageId) -> FrameGuard {
    let token = pending(pool, reader, page);
    serve(pool);
    pool.poll();
    match pool.ready(reader, token) {
        ReadyResult::Ready(guard) => guard,
        other => panic!("the read has completed: {other:?}"),
    }
}

#[test]
fn a_miss_becomes_a_hit_with_the_bytes_read() {
    let (mut pool, file, reader) = pool();
    let page = PageId::new(file, 3);
    let guard = resident(&mut pool, &reader, page);
    assert_eq!(pool.guarded_bytes(&guard), vec![3; GRANULE as usize].as_slice());
    assert_eq!(guard.file_slot(), file.slot());
    pool.drop_guard(guard);
    let Ok(Get::Hit(again)) = pool.get(&reader, page) else {
        panic!("a resident page hits");
    };
    assert_eq!(pool.guarded_bytes(&again)[0], 3);
    pool.drop_guard(again);
}

#[test]
fn one_read_serves_every_waiter_of_a_page() {
    let (mut pool, file, reader) = pool();
    let page = PageId::new(file, 1);
    let first = pending(&mut pool, &reader, page);
    let second = pending(&mut pool, &reader, page);
    assert_eq!(first.page(), page);
    assert_eq!(pool.cache.reads_in_flight, 1);
    assert_eq!(serve(&mut pool), 1);
    pool.poll();
    assert_eq!(pool.cache.reads_in_flight, 0);
    let ReadyResult::Ready(one) = pool.ready(&reader, first) else {
        panic!("the first waiter is served");
    };
    let ReadyResult::Ready(two) = pool.ready(&reader, second) else {
        panic!("the second waiter is served");
    };
    assert_eq!(one.frame(), two.frame());
    pool.drop_guard(one);
    pool.drop_guard(two);
}

#[test]
fn a_pending_token_is_handed_back_until_its_read_ends() {
    let (mut pool, file, reader) = pool();
    let token = pending(&mut pool, &reader, PageId::new(file, 0));
    let ReadyResult::NotYet(token) = pool.ready(&reader, token) else {
        panic!("the read is in flight");
    };
    pool.drop_pending(token);
    assert_eq!(pool.lifecycle.live_pending_interests, 0);
    assert_eq!(pool.lifecycle.pending_releases, 1);
    serve(&mut pool);
    pool.poll();
    assert!(matches!(
        pool.get(&reader, PageId::new(file, 0)),
        Ok(Get::Hit(_))
    ));
}

#[test]
fn reads_beyond_the_credit_are_busy() {
    let (mut pool, file, reader) = pool();
    let _first = pending(&mut pool, &reader, PageId::new(file, 0));
    let _second = pending(&mut pool, &reader, PageId::new(file, 1));
    assert!(matches!(
        pool.get(&reader, PageId::new(file, 2)),
        Ok(Get::Busy)
    ));
}

#[test]
fn a_short_read_goes_on_where_it_stopped() {
    let (mut pool, file, reader) = pool();
    let page = PageId::new(file, 2);
    let token = pending(&mut pool, &reader, page);
    let first = pool.take_submission().expect("the first read");
    assert!(matches!(
        first.request,
        Request::Read { destination_offset: 0, offset: 8192, len: 4096, .. }
    ));
    assert_eq!(first.request.kind(), OpKind::Read);
    assert!(!pool.complete_read(first.token, &vec![1; 5000]));
    assert!(pool.complete_read(first.token, &[1; 1000]));
    assert!(!pool.complete_read(first.token, &[1; 10]));
    pool.poll();
    let rest = pool.take_submission().expect("the rest of the read");
    assert!(matches!(
        rest.request,
        Request::Read { destination_offset: 1000, offset: 9192, len: 3096, .. }
    ));
    assert!(pool.complete_read(rest.token, &[2; 3096]));
    pool.poll();
    let ReadyResult::Ready(guard) = pool.ready(&reader, token) else {
        panic!("the granule is full");
    };
    let bytes = pool.guarded_bytes(&guard);
    assert_eq!(&bytes[..1000], &[1; 1000]);
    assert_eq!(&bytes[1000..], &[2; 3096]);
    pool.drop_guard(guard);
}

#[test]
fn a_direct_read_that_stops_off_alignment_fails() {
    let mut pool = build(builder());
    let mode = IoMode::Direct(dios::driver::Alignment { bytes: 512 });
    let file = pool.open(mode).expect("a file slot");
    assert_eq!(pool.io_mode(file), Some(mode));
    let reader = pool.register_reader().expect("a reader slot");
    let token = pending(&mut pool, &reader, PageId::new(file, 0));
    let read = pool.take_submission().expect("the read");
    assert!(pool.complete_read(read.token, &[1; 100]));
    pool.poll();
    let ReadyResult::Failed(error) = pool.ready(&reader, token) else {
        panic!("the rest cannot be read");
    };
    assert_eq!(error.raw_os_error(), Some(SHORT_READ_EOF_ERRNO));
    let token = pending(&mut pool, &reader, PageId::new(file, 0));
    let read = pool.take_submission().expect("the read");
    assert!(pool.complete_read(read.token, &[1; 512]));
    pool.poll();
    assert!(matches!(
        pool.ready(&reader, token),
        ReadyResult::NotYet(_)
    ));
}

#[test]
fn a_read_past_the_end_and_a_device_error_fail_their_waiters() {
    let (mut pool, file, reader) = pool();
    let free = pool.cache.free.len();
    let token = pending(&mut pool, &reader, PageId::new(file, 0));
    let read = pool.take_submission().expect("the read");
    assert!(pool.complete_read(read.token, &[]));
    pool.poll();
    let ReadyResult::Failed(error) = pool.ready(&reader, token) else {
        panic!("nothing was read");
    };
    assert_eq!(error.raw_os_error(), Some(5));

    let token = pending(&mut pool, &reader, PageId::new(file, 0));
    let read = pool.take_submission().expect("the read");
    assert!(!pool.fail(read.token, IoError::from_raw(0)));
    assert!(pool.fail(read.token, IoError::from_raw(28)));
    pool.poll();
    let ReadyResult::Failed(error) = pool.ready(&reader, token) else {
        panic!("the device failed");
    };
    assert_eq!(error.raw_os_error(), Some(28));
    assert_eq!(pool.cache.free.len(), free);
}

#[test]
fn an_eviction_waits_out_its_readers() {
    let (mut pool, file, reader) = pool();
    let page = PageId::new(file, 0);
    let guard = resident(&mut pool, &reader, page);
    let frame = guard.frame();
    assert_eq!(pool.evict_frame(page), Some(frame));
    for _ in 0..6 {
        assert_eq!(pool.poll(), 0);
    }
    assert_eq!(pool.frame_state(frame), FrameState::Evicting);
    assert_eq!(pool.guarded_bytes(&guard)[0], 0);
    pool.drop_guard(guard);
    let mut reclaimed = 0;
    for _ in 0..6 {
        reclaimed += pool.poll();
    }
    assert_eq!(reclaimed, 1);
    assert_eq!(pool.frame_state(frame), FrameState::Free);
}

#[test]
fn a_full_pool_makes_room_by_evicting() {
    let mut pool = build(builder());
    let file = pool.open(IoMode::Buffered).expect("a file slot");
    let reader = pool.register_reader().expect("a reader slot");
    for index in 0..20 {
        let page = PageId::new(file, index);
        let mut guard = None;
        for _ in 0..16 {
            match pool.get(&reader, page) {
                Ok(Get::Hit(hit)) => {
                    guard = Some(hit);
                    break;
                }
                Ok(Get::Pending(token)) => pool.drop_pending(token),
                Ok(Get::Busy) => {}
                Err(error) => panic!("{}", error.message()),
            }
            serve(&mut pool);
            pool.poll();
        }
        let guard = guard.expect("room is made within a bounded number of passes");
        assert_eq!(pool.guarded_bytes(&guard)[0], index as u8);
        pool.drop_guard(guard);
    }
}

#[test]
fn readers_beyond_the_capacity_are_refused() {
    let (mut pool, _file, reader) = pool();
    assert_eq!(
        pool.register_reader().err(),
        Some(RegisterError::AtCapacity { max_concurrent_readers: 1 })
    );
    pool.release_reader(reader);
    assert!(pool.register_reader().is_ok());
    assert_eq!(pool.lifecycle.reader_releases, 1);
}

#[test]
fn a_hint_reaches_the_page_it_observed_and_no_other() {
    let (mut pool, file, reader) = pool();
    let page = PageId::new(file, 4);
    let guard = resident(&mut pool, &reader, page);
    let frame = guard.frame();
    pool.drop_guard(guard);
    let lease = pool.lease_file(file).expect("a live file");
    assert_eq!(pool.resident_hint(&lease, PageId::new(file, 5)), None);
    let hint = pool.resident_hint(&lease, page).expect("a resident page");
    assert_eq!((hint.granule, hint.frame), (4, frame.get()));
    let Ok(Get::Hit(guard)) = pool.get_with_hint(&reader, &lease, page, Some(hint)) else {
        panic!("the hint holds");
    };
    assert_eq!(guard.frame(), frame);
    pool.drop_guard(guard);
    let other = PageId::new(file, 5);
    assert!(matches!(
        pool.get_with_hint(&reader, &lease, other, Some(hint)),
        Ok(Get::Pending(_))
    ));
    pool.evict_frame(page);
    assert!(matches!(
        pool.get_with_hint(&reader, &lease, page, Some(hint)),
        Ok(Get::Pending(_))
    ));
    pool.release_lease(lease);
}

#[test]
fn retirement_waits_for_leases_and_frames_and_frees_the_slot() {
    let (mut pool, file, reader) = pool();
    let page = PageId::new(file, 0);
    let guard = resident(&mut pool, &reader, page);
    pool.drop_guard(guard);
    let lease = pool.lease_file(file).expect("a live file");
    assert_eq!(pool.retire_file(file), RetireStatus::Retiring);
    assert!(matches!(
        pool.get(&reader, page),
        Err(GetError::StaleFile { page: stale }) if stale == page
    ));
    assert!(matches!(
        pool.lease_file(file),
        Err(ResidentLeaseError::StaleFile { file: stale }) if stale == file
    ));
    for _ in 0..4 {
        pool.poll();
    }
    assert!(pool.uses_file(file));
    assert_eq!(pool.closing(), None);
    let woken = pool.wait.current;
    pool.release_lease(lease);
    assert_ne!(pool.wait.current, woken);
    for _ in 0..6 {
        pool.poll();
    }
    assert!(!pool.uses_file(file));
    assert_eq!(pool.retire_file(file), RetireStatus::Retiring);
    assert_eq!(pool.closing(), Some(file));
    assert!(pool.confirm_closed(file));
    assert!(!pool.confirm_closed(file));
    assert_eq!(pool.retire_file(file), RetireStatus::Retired);
    assert_eq!(pool.retire_file(file), RetireStatus::Retired);
    let reopened = pool.open(IoMode::Buffered).expect("the slot is free again");
    assert_eq!(reopened.slot(), file.slot());
    assert_ne!(reopened, file);
    assert!(matches!(pool.get(&reader, page), Err(GetError::StaleFile { .. })));
    assert!(matches!(
        pool.get(&reader, PageId::new(reopened, 0)),
        Ok(Get::Pending(_))
    ));
}

#[test]
fn files_beyond_the_capacity_are_refused() {
    let (mut pool, _file, _reader) = pool();
    assert!(pool.open(IoMode::Buffered).is_some());
    assert_eq!(pool.open(IoMode::Buffered), None);
}

fn write(pool: &mut Pool, file: FileId, byte: u8, offset: u64) -> dios::product::PoolToken {
    let slot = pool.lease_write_slot().expect("a staging slot");
    pool.fill_write_slot(&slot, 0, &vec![byte; GRANULE as usize]);
    match pool.submit_write(file, slot, offset) {
        Ok(token) => token,
        Err((error, _)) => panic!("{}", error.message()),
    }
}

#[test]
fn a_barrier_goes_out_after_the_writes_before_it() {
    let (mut pool, file, _reader) = pool();
    let first = write(&mut pool, file, 1, 0);
    let barrier = pool.submit_fsync(file, SyncMode::Full).expect("an operation slot");
    let later = write(&mut pool, file, 2, 4096);
    assert!(pool.lease_write_slot().is_none());
    let mut order = Vec::new();
    let mut out = PoolCompletionBatch::with_capacity(4);
    let mut results = Vec::new();
    for _ in 0..4 {
        while let Some(submission) = pool.take_submission() {
            order.push(submission.request.kind());
            match submission.request {
                Request::Write { offset, .. } => {
                    let bytes = pool.staged_bytes(submission.token).expect("a staged granule");
                    assert_eq!(bytes[0], if offset == 0 { 1 } else { 2 });
                    assert!(pool.complete_product(submission.token, bytes.len() as u32));
                }
                _ => assert!(pool.complete_product(submission.token, 0)),
            }
        }
        pool.poll_report(&mut out);
        results.extend(out.iter().iter().map(|done| done.token()));
    }
    assert_eq!(order, vec![OpKind::Write, OpKind::Write, OpKind::Fsync]);
    assert_eq!(results, vec![first, later, barrier]);
    assert!(pool.lease_write_slot().is_some());
}

#[test]
fn an_admitted_barrier_wakes_a_waiter() {
    let (mut pool, file, _reader) = pool();
    let before = pool.wait.current;
    pool.submit_fsync(file, SyncMode::Full).expect("an operation slot");
    assert_eq!(pool.wait.current, before + 2, "one for the ring and one for the admission");
    write(&mut pool, file, 1, 0);
    let before = pool.wait.current;
    pool.submit_fsync(file, SyncMode::Full).expect("an operation slot");
    assert_eq!(pool.wait.current, before + 1, "the barrier is held behind the write");
}

#[test]
fn product_results_carry_what_the_host_reported() {
    let (mut pool, file, _reader) = pool();
    let token = write(&mut pool, file, 9, 0);
    let submission = pool.take_submission().expect("the write");
    assert!(pool.fail(submission.token, IoError::from_raw(5)));
    let mut out = PoolCompletionBatch::with_capacity(1);
    let report = pool.poll_report(&mut out);
    assert_eq!(report.backend_completions(), 1);
    let done = &out.iter()[0];
    assert_eq!(done.token(), token);
    assert!(matches!(
        done,
        PoolCompletion::Write { result: Err(error), .. } if error.raw_os_error() == Some(5)
    ));
    let token = write(&mut pool, file, 9, 0);
    serve(&mut pool);
    pool.poll_report(&mut out);
    assert!(matches!(
        &out.iter()[0],
        PoolCompletion::Write { token: ended, result: Ok(4096) } if *ended == token
    ));
}

#[test]
fn a_small_batch_leaves_results_for_the_next_poll() {
    let (mut pool, file, _reader) = pool();
    let first = write(&mut pool, file, 1, 0);
    let second = write(&mut pool, file, 2, 4096);
    serve(&mut pool);
    let mut out = PoolCompletionBatch::with_capacity(1);
    pool.poll_report(&mut out);
    assert_eq!(out.iter().len(), 1);
    assert_eq!(out.iter()[0].token(), first);
    pool.poll_report(&mut out);
    assert_eq!(out.iter().len(), 1);
    assert_eq!(out.iter()[0].token(), second);
    pool.poll_report(&mut out);
    assert_eq!(out.iter().len(), 0);
}

#[test]
fn refused_writes_hand_their_slot_back() {
    let (mut pool, file, _reader) = pool();
    let mut stranger = build(builder());
    stranger.identity = 8;
    let foreign = stranger.lease_write_slot().expect("a staging slot");
    let Err((error, _)) = pool.submit_write(file, foreign, 0) else {
        panic!("a foreign slot");
    };
    assert_eq!(error, PoolSubmitError::ForeignPool);

    let stale = FileId::new(7, 1, 1);
    let slot = pool.lease_write_slot().expect("a staging slot");
    let Err((error, slot)) = pool.submit_write(stale, slot, 0) else {
        panic!("a stale file");
    };
    assert_eq!(error, PoolSubmitError::StaleFile { file: stale });
    assert_eq!(
        pool.submit_fsync(stale, SyncMode::Full).err(),
        Some(PoolSubmitError::StaleFile { file: stale })
    );
    for _ in 0..3 {
        assert!(pool.submit_fsync(file, SyncMode::Full).is_ok());
    }
    assert_eq!(
        pool.submit_fsync(file, SyncMode::Full).err(),
        Some(PoolSubmitError::Full)
    );
    let Err((error, slot)) = pool.submit_write(file, slot, 0) else {
        panic!("no operation slot");
    };
    assert_eq!(error, PoolSubmitError::Full);
    pool.return_write_slot(slot);
    assert!(pool.arena.slot_is_free(0));
}

#[test]
fn retained_frames_outlive_their_eviction() {
    let mut pool = build(
        builder()
            .frame_count(9)
            .max_retained_frames(1),
    );
    let file = pool.open(IoMode::Buffered).expect("a file slot");
    let reader = pool.register_reader().expect("a reader slot");
    let page = PageId::new(file, 6);
    let guard = resident(&mut pool, &reader, page);
    let frame = guard.frame();
    let Ok(handle) = pool.into_retained(guard) else {
        panic!("the budget admits one frame");
    };
    let other = resident(&mut pool, &reader, PageId::new(file, 7));
    let Err(refused) = pool.into_retained(other) else {
        panic!("the budget is spent");
    };
    assert_eq!(refused.reason, RetainRefusedReason::Exhausted);
    pool.drop_guard(refused.guard);
    pool.evict_frame(page);
    for _ in 0..6 {
        pool.poll();
    }
    assert_eq!(pool.frame_state(frame), FrameState::Evicting);
    assert_eq!(pool.retained_bytes(&handle)[0], 6);
    pool.release_retained(handle);
    pool.poll();
    assert_eq!(pool.frame_state(frame), FrameState::Free);
    assert_eq!(pool.retention_stats().occupied_budget, 0);
}

#[test]
fn a_retiring_file_admits_no_retained_frame() {
    let mut pool = build(builder().frame_count(9).max_retained_frames(1));
    let file = pool.open(IoMode::Buffered).expect("a file slot");
    let reader = pool.register_reader().expect("a reader slot");
    let guard = resident(&mut pool, &reader, PageId::new(file, 0));
    pool.retire_file(file);
    let Err(refused) = pool.into_retained(guard) else {
        panic!("the file is retiring");
    };
    assert_eq!(refused.reason, RetainRefusedReason::FileRetiring);
    assert_eq!(pool.guarded_bytes(&refused.guard)[0], 0);
    pool.drop_guard(refused.guard);
}

fn assert_never_parked(wait: &WaitState) {
    assert_eq!(wait.parks_entered, 0);
    assert_eq!(wait.parks_in_progress, 0);
    assert_eq!(wait.parks_exited, 0);
    assert_eq!(wait.wake_exits, 0);
    assert_eq!(wait.timeout_exits, 0);
}

#[test]
fn held_final_release_without_a_parker_sets_ring_pending() {
    let mut pool = build(
        Pool::builder()
            .frame_count(6)
            .granule(4096)
            .max_concurrent_readers(1)
            .peak_guards_per_reader(2)
            .max_inflight_reads(1)
            .miss_headroom(3)
            .max_retained_frames(1),
    );
    let file = pool.open(IoMode::Buffered).expect("the file opens");
    let reader = pool.register_reader().expect("reader slot is available");
    let page = PageId::new(file, 0);
    let frame = pool.insert_resident_frame(page, 0xA5).expect("a free frame");
    let Ok(Get::Hit(guard)) = pool.get(&reader, page) else {
        panic!("the inserted page must hit");
    };
    assert_eq!(pool.guarded_bytes(&guard)[0], 0xA5);
    let Ok(retained) = pool.into_retained(guard) else {
        panic!("the configured budget must admit one retained frame");
    };
    assert_eq!(pool.evict_frame(page), Some(frame));
    for _ in 0..4 {
        pool.poll();
    }
    assert_eq!(pool.frame_state(frame), FrameState::Evicting);
    assert_never_parked(&pool.wait);

    pool.release_retained(retained);

    assert!(pool.wait.ring_pending);
    assert_never_parked(&pool.wait);
    pool.poll();
}

#[test]
fn eager_wait_does_not_park_when_a_ring_release_is_pending() {
    let mut wait = WaitState::default();
    wait.set_ring_pending();

    assert_eq!(wait.begin_wait(), None);

    assert_never_parked(&wait);
}

#[test]
fn platform_wait_is_not_armed_when_a_ring_release_is_pending() {
    let mut wait = WaitState::default();
    wait.set_ring_pending();

    assert_eq!(wait.begin_wait(), None);

    assert_never_parked(&wait);
}

#[test]
fn a_release_under_a_parked_owner_wakes_it() {
    let mut wait = WaitState::default();
    let armed = wait.begin_wait().expect("nothing is pending");
    assert!(!wait.woken(armed));
    wait.wake_if_parked();
    assert!(wait.woken(armed));
    wait.finish_wait(armed);
    assert_eq!((wait.parks_entered, wait.parks_exited, wait.wake_exits), (1, 1, 1));
}

#[test]
fn a_poll_with_progress_consumes_its_wakeups() {
    let (mut pool, file, reader) = pool();
    let token = pending(&mut pool, &reader, PageId::new(file, 0));
    assert_ne!(pool.wait.current, pool.wait.consumed);
    serve(&mut pool);
    let mut out = PoolCompletionBatch::with_capacity(1);
    let report = pool.poll_report(&mut out);
    assert_eq!((report.backend_completions(), report.reclaimed_frames()), (1, 0));
    assert_eq!(pool.wait.current, pool.wait.consumed);
    pool.drop_pending(token);
}

#[test]
fn shutdown_drives_accepted_work_to_its_end() {
    let (mut pool, file, reader) = pool();
    let _token = pending(&mut pool, &reader, PageId::new(file, 0));
    let _write = write(&mut pool, file, 1, 0);
    let mut rest = match pool.shutdown() {
        Shutdown::Waiting(rest) => rest,
        Shutdown::Done(_) => panic!("work is in flight"),
    };
    serve(&mut rest);
    match rest.shutdown() {
        Shutdown::Done(handles) => {
            assert_eq!(handles.len(), 1);
            assert_eq!(handles[0].file, file);
        }
        Shutdown::Waiting(_) => panic!("everything has ended"),
    }
}

#[test]
fn a_new_pool_has_wear_left() {
    let (mut pool, file, reader) = pool();
    assert!(pool.has_wear_left());
    let before = pool.wear();
    let guard = resident(&mut pool, &reader, PageId::new(file, 0));
    assert!(pool.wear() > before);
    assert!(pool.can_join(PageId::new(file, 0)));
    pool.drop_guard(guard);
    assert!(!pool.arena_locked());
    assert_eq!(pool.registration_posture(), RegistrationPosture::Unregistered);
    assert_eq!(pool.wake_handle().pool_identity, 7);
}

#[test]
fn shutdown_waits_for_the_files_it_closes() {
    for retained in [0, 1] {
        let mut pool = build(builder().frame_count(9).max_retained_frames(retained));
        let file = pool.open(IoMode::Buffered).expect("a file slot");
        let other = pool.open(IoMode::Buffered).expect("a file slot");
        assert_eq!(pool.retire_file(file), RetireStatus::Retiring);
        assert_eq!(pool.closing(), Some(file));
        let mut rest = match pool.shutdown() {
            Shutdown::Waiting(rest) => rest,
            Shutdown::Done(_) => panic!("a file is still to be closed"),
        };
        assert!(rest.confirm_closed(file));
        match rest.shutdown() {
            Shutdown::Done(handles) => {
                assert_eq!(handles.len(), 1);
                assert_eq!(handles[0].file, other);
            }
            Shutdown::Waiting(_) => panic!("everything is closed"),
        }
    }
}

#[test]
fn shutdown_waits_for_a_file_its_own_pass_gives_up() {
    let mut pool = build(builder().frame_count(9).max_retained_frames(1));
    let file = pool.open(IoMode::Buffered).expect("a file slot");
    let lease = pool.lease_file(file).expect("a live file");
    assert_eq!(pool.retire_file(file), RetireStatus::Retiring);
    pool.release_lease(lease);
    assert_eq!(pool.closing(), None);
    let mut rest = match pool.shutdown() {
        Shutdown::Waiting(rest) => rest,
        Shutdown::Done(_) => panic!("the file is to be closed first"),
    };
    assert_eq!(rest.closing(), Some(file));
    assert!(rest.confirm_closed(file));
    match rest.shutdown() {
        Shutdown::Done(handles) => assert!(handles.is_empty()),
        Shutdown::Waiting(_) => panic!("everything is closed"),
    }
}

#[test]
fn a_wait_follows_only_a_pass_without_progress() {
    let mut wait = WaitState::default();
    let empty = PoolCompletionBatch::with_capacity(1);
    assert_eq!(wait.pause_after(PollReport::new(1, 0), &empty), Pause::Progress);
    assert_eq!(wait.pause_after(PollReport::new(0, 1), &empty), Pause::Progress);
    wait.wake();
    assert_eq!(wait.pause_after(PollReport::new(0, 0), &empty), Pause::Ready);
    assert_eq!(wait.consumed, wait.current);
    wait.set_ring_pending();
    assert_eq!(wait.pause_after(PollReport::new(0, 0), &empty), Pause::Ready);
    wait.clear_ring_pending();
    assert_never_parked(&wait);
    assert_eq!(wait.pause_after(PollReport::new(0, 0), &empty), Pause::Armed(1));
    assert_eq!((wait.parks_entered, wait.parks_in_progress), (1, 1));
}

#[test]
fn the_frames_of_a_retired_file_leave_lowest_first() {
    let (mut pool, file, reader) = pool();
    let mut guards = Vec::new();
    let mut frames = Vec::new();
    for index in 0..2 {
        let page = PageId::new(file, index);
        frames.push(pool.insert_resident_frame(page, 1).expect("a free frame"));
        let Ok(Get::Hit(guard)) = pool.get(&reader, page) else {
            panic!("a resident page hits");
        };
        guards.push(guard);
    }
    assert!(frames[0].get() < frames[1].get());
    assert_eq!(pool.retire_file(file), RetireStatus::Retiring);
    for guard in guards {
        pool.drop_guard(guard);
    }
    for _ in 0..6 {
        pool.poll();
    }
    assert_eq!(pool.cache.free.pop(), Some(frames[1]));
    assert_eq!(pool.cache.free.pop(), Some(frames[0]));
}
