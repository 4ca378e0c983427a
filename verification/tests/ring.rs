use dios::driver::{
    Alignment, Driver, FileHandle, FileId, IoMode, OpKind, OpToken, RegistrationPosture, Request,
    SyncMode,
};
use dios::error::{IoError, SubmitError};
use dios::pool::config::ResidentLeaseError;
use dios::pool::files::{Files, PoolFileState};
use dios::pool::frames::ReadFrameIdx;
use dios::pool::product_ops::ProductOps;
use dios::pool::PageId;
use dios::product::{
    LifecycleCounters, PollReport, PoolCompletion, PoolCompletionBatch, PoolSubmitError,
    PoolWakeHandle, WaitState,
};

fn driver(slots: u32, files: u32) -> Driver {
    Driver::new(5, slots, files, RegistrationPosture::Unregistered, false)
}

#[test]
fn an_alignment_of_zero_divides_everything() {
    assert!(Alignment { bytes: 0 }.check(7));
    assert!(Alignment { bytes: 512 }.check(1024));
    assert!(!Alignment { bytes: 512 }.check(1025));
}

#[test]
fn an_operation_runs_from_submission_to_completion() {
    let mut driver = driver(2, 1);
    assert_eq!(driver.queue_capacity(), 2);
    let handle = driver.open(IoMode::Buffered).expect("a file slot");
    assert_eq!(handle.file_id(), FileId::new(5, 0, 1));
    let token = driver
        .submit_read(&handle, ReadFrameIdx::new(3), 8192, 16, 100)
        .expect("a free slot");
    assert_eq!(driver.issued_request(token), None);
    let submission = driver.take_submission().expect("submitted");
    assert_eq!(submission.token, token);
    assert_eq!(
        driver.issued_request(token),
        Some(Request::Read {
            file: handle.file_id(),
            frame: ReadFrameIdx::new(3),
            destination_offset: 16,
            offset: 8192,
            len: 100,
        })
    );
    assert!(driver.take_submission().is_none());
    assert!(driver.take_completion(token.slot()).is_none());
    assert!(driver.record(token, Ok(100)));
    assert!(!driver.record(token, Ok(100)));
    let completion = driver.take_completion(token.slot()).expect("finished");
    assert_eq!(completion.token, token);
    assert_eq!(completion.result, Ok(100));
    let next = driver.submit_fsync(&handle, SyncMode::Full).expect("the slot is free again");
    assert_eq!(next.slot(), token.slot());
    assert_ne!(next, token);
    assert!(!driver.record(token, Ok(1)));
}

#[test]
fn the_ring_refuses_when_full_or_stale() {
    let mut driver = driver(1, 1);
    let handle = driver.open(IoMode::Buffered).expect("a file slot");
    assert!(driver.open(IoMode::Buffered).is_none());
    driver.submit_write(&handle, 0, 0).expect("a free slot");
    assert_eq!(driver.submit_write(&handle, 0, 0), Err(SubmitError::Full));
    let stranger = FileHandle { file: FileId::new(5, 0, 9), mode: IoMode::Buffered };
    assert_eq!(driver.submit_fsync(&stranger, SyncMode::Full), Err(SubmitError::StaleHandle));
}

#[test]
fn a_file_slot_is_reused_under_a_new_generation() {
    let mut driver = driver(1, 1);
    let handle = driver.open(IoMode::Direct(Alignment { bytes: 512 })).expect("a file slot");
    let file = handle.file_id();
    assert_eq!(handle.io_mode(), IoMode::Direct(Alignment { bytes: 512 }));
    driver.close(handle);
    assert_eq!(driver.closing(), Some(file));
    assert!(!driver.is_closed(file));
    assert!(driver.confirm_closed(file));
    assert!(!driver.confirm_closed(file));
    assert!(driver.is_closed(file));
    driver.vacate(file);
    let again = driver.open(IoMode::Buffered).expect("vacated");
    assert_eq!(again.file_id(), FileId::new(5, 0, 2));
}

#[test]
fn a_registered_file_lives_until_it_retires() {
    let mut files = Files::new(5, 2);
    let id = FileId::new(5, 1, 3);
    let handle = FileHandle { file: id, mode: IoMode::Buffered };
    assert!(!files.file_is_live(id));
    assert!(files.entry(1).is_none());
    files.publish_live_file(id, Some(handle));
    assert!(files.file_is_live(id));
    assert!(files.file_generation_is_live(id));
    assert!(!files.file_generation_is_live(FileId::new(5, 1, 2)));
    assert_eq!(files.live_file_handle(id).expect("live").file_id(), id);
    assert_eq!(files.registered_file(id).file_id(), id);
    let lease = files.lease_file(id).expect("live");
    assert!(lease.covers(5, PageId::new(id, 40)));
    assert!(!lease.covers(6, PageId::new(id, 40)));
    assert_eq!(files.lease_count(1), 1);
    assert!(files.begin_file_retirement(id));
    assert!(!files.begin_file_retirement(id));
    assert_eq!(
        files.live_file_handle(id).err(),
        Some(PoolSubmitError::StaleFile { file: id })
    );
    assert_eq!(files.lease_file(id).err(), Some(ResidentLeaseError::StaleFile { file: id }));
    assert!(files.release_lease(lease));
    assert_eq!(files.take_handle(1).expect("held").file_id(), id);
    files.retire(1);
    assert_eq!(files.entry(1).expect("kept").state, PoolFileState::Retired);
    files.publish_live_file(FileId::new(5, 1, 4), None);
    assert!(!files.file_is_live(id));
    assert!(files.file_is_live(FileId::new(5, 1, 4)));
}

#[test]
fn a_barrier_waits_for_the_writes_before_it() {
    let file = FileId::new(5, 0, 1);
    let other = FileId::new(5, 1, 1);
    let mut ops = ProductOps::new(4);
    assert!(ops.idle());
    let write = ops.begin_write(0, OpToken::new(0, 1), file);
    let barrier = ops.begin_fsync(1, file);
    let free_barrier = ops.begin_fsync(2, other);
    ops.begin_write(3, OpToken::new(1, 1), file);
    assert_eq!(ops.vacancy(), None);
    assert_eq!(ops.ripe(1), None);
    assert_eq!(ops.ripe(2), Some(other));
    assert_eq!(ops.finish(OpToken::new(0, 1), OpKind::Write, Ok(4096)), Some(0));
    assert_eq!(ops.ripe(1), Some(file));
    ops.promote(1, OpToken::new(2, 1));
    assert_eq!(
        ops.finish(OpToken::new(2, 1), OpKind::Fsync, Err(IoError::from_raw(5))),
        Some(1)
    );
    assert_eq!(ops.finish(OpToken::new(9, 9), OpKind::Write, Ok(1)), None);
    let mut out = PoolCompletionBatch::with_capacity(1);
    assert_eq!(ops.deliver(&mut out), 1);
    assert_eq!(out.iter()[0], PoolCompletion::Write { token: write, result: Ok(4096) });
    assert_eq!(out.remaining(), 0);
    out.reset();
    assert_eq!(out.remaining(), 1);
    assert_eq!(ops.deliver(&mut out), 2);
    assert_eq!(
        out.iter()[0],
        PoolCompletion::Fsync { token: barrier, result: Err(IoError::from_raw(5)) }
    );
    assert!(ops.has_live_for_file(other));
    assert!(!ops.idle());
    assert_ne!(barrier, free_barrier);
    assert!(ops.tokens_left());
}

#[test]
fn undelivered_results_can_be_discarded() {
    let file = FileId::new(5, 0, 1);
    let mut ops = ProductOps::new(1);
    ops.begin_write(0, OpToken::new(0, 1), file);
    ops.finish(OpToken::new(0, 1), OpKind::Write, Ok(1));
    ops.discard_completed();
    assert!(ops.idle());
    assert!(!ops.has_live_for_file(file));
    assert_eq!(ops.vacancy(), Some(0));
}

#[test]
fn a_wake_before_a_wait_is_not_lost() {
    let mut state = WaitState::default();
    let handle = PoolWakeHandle { pool_identity: 5 };
    handle.wake(&mut state);
    assert_eq!(state.begin_wait(), None);
    let armed = state.begin_wait().expect("nothing new");
    assert!(!state.woken(armed));
    state.wake();
    assert!(state.woken(armed));
    state.finish_wait(armed);
    assert_eq!((state.wake_exits, state.timeout_exits), (1, 0));
    let quiet = state.begin_wait().expect("nothing new");
    state.finish_wait(quiet);
    assert_eq!((state.wake_exits, state.timeout_exits), (1, 1));
    state.set_ring_pending();
    assert!(state.ring_may_be_pending());
    assert_eq!(state.begin_wait(), None);
    state.clear_ring_pending();
    assert!(!state.wake_if_parked());
    state.wake();
    state.consume_current();
    assert!(state.begin_wait().is_some());
    assert!(state.wake_if_parked());
}

#[test]
fn lifecycle_counters_follow_readers_and_interests() {
    let mut counters = LifecycleCounters::new();
    counters.register_reader();
    counters.register_pending();
    counters.release_pending();
    counters.release_reader();
    assert_eq!(counters.pending_releases, 1);
    assert_eq!(counters.reader_releases, 1);
    assert_eq!(counters.live_pending_interests, 0);
    let report = PollReport::new(3, 2);
    assert_eq!((report.backend_completions(), report.reclaimed_frames()), (3, 2));
}
