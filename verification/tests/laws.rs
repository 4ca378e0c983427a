use dios::driver::{FileId, IoMode, RegistrationPosture, Request};
use dios::error::IoError;
use dios::pool::config::PoolBuilder;
use dios::pool::control::Pool;
use dios::pool::demand::{Get, ReadyResult};
use dios::pool::epoch::ReaderCtx;
use dios::pool::frames::{ArenaIds, FrameState};
use dios::pool::holds::PendingToken;
use dios::pool::prefetch::Readahead;
use dios::pool::PageId;
use dios::product::{PoolCompletion, PoolCompletionBatch};

const GRANULE: u32 = 4096;

fn builder() -> PoolBuilder {
    Pool::builder()
        .frame_count(16)
        .granule(GRANULE)
        .max_concurrent_readers(2)
        .peak_guards_per_reader(2)
        .max_inflight_reads(3)
        .miss_headroom(9)
        .write_slots(2)
        .max_inflight_product_ops(2)
        .registered_file_capacity(2)
}

fn open(builder: PoolBuilder) -> (Pool, FileId) {
    let mut ids = ArenaIds::new();
    let mut pool = match builder.build(&mut ids, 5, RegistrationPosture::Unregistered, false, false, 0) {
        Ok(pool) => pool,
        Err(error) => panic!("{}", error.message()),
    };
    let file = pool.open(IoMode::Buffered).expect("a file slot");
    (pool, file)
}

fn serve(pool: &mut Pool) {
    while let Some(submission) = pool.take_submission() {
        if let Request::Read { offset, len, .. } = submission.request {
            let byte = (offset / u64::from(GRANULE)) as u8;
            assert!(pool.complete_read(submission.token, &vec![byte; len as usize]));
        }
    }
}

fn demand(pool: &mut Pool, reader: &ReaderCtx, page: PageId) -> PendingToken {
    for _ in 0..4 {
        match pool.get(reader, page) {
            Ok(Get::Pending(token)) => return token,
            Ok(Get::Busy) => {
                pool.poll();
            }
            other => panic!("a cold page is pending: {other:?}"),
        }
    }
    panic!("an evicted frame is reclaimed");
}

#[test]
fn an_arrived_page_waits_for_its_reader_under_pressure() {
    let (mut pool, file) = open(builder().prefetch_headroom(0));
    let reader = pool.register_reader().expect("a reader slot");
    let token = demand(&mut pool, &reader, PageId::new(file, 200));
    serve(&mut pool);
    pool.poll();
    for index in 0..40 {
        let other = demand(&mut pool, &reader, PageId::new(file, index));
        serve(&mut pool);
        pool.poll();
        match pool.ready(&reader, other) {
            ReadyResult::Ready(guard) => pool.drop_guard(guard),
            other => panic!("the read has completed: {other:?}"),
        }
        pool.poll();
    }
    let ReadyResult::Ready(guard) = pool.ready(&reader, token) else {
        panic!("the page is still there");
    };
    assert_eq!(pool.guarded_bytes(&guard), vec![200; GRANULE as usize].as_slice());
    pool.drop_guard(guard);
}

#[test]
fn a_failed_page_is_read_again() {
    let (mut pool, file) = open(builder().prefetch_headroom(0));
    let reader = pool.register_reader().expect("a reader slot");
    let page = PageId::new(file, 4);
    let first = demand(&mut pool, &reader, page);
    let second = demand(&mut pool, &reader, page);
    let submission = pool.take_submission().expect("one read");
    assert!(pool.take_submission().is_none());
    assert!(pool.fail(submission.token, IoError::from_raw(28)));
    pool.poll();
    for token in [first, second] {
        let ReadyResult::Failed(error) = pool.ready(&reader, token) else {
            panic!("the failure reaches every waiter");
        };
        assert_eq!(error.raw, Some(28));
    }
    let again = demand(&mut pool, &reader, page);
    serve(&mut pool);
    pool.poll();
    let ReadyResult::Ready(guard) = pool.ready(&reader, again) else {
        panic!("the second attempt succeeds");
    };
    assert_eq!(pool.guarded_bytes(&guard)[0], 4);
    pool.drop_guard(guard);
}

#[test]
fn a_hit_disturbs_nobody() {
    let (mut pool, file) = open(builder().prefetch_headroom(0));
    let one = pool.register_reader().expect("a reader slot");
    let two = pool.register_reader().expect("a reader slot");
    let frame = pool.insert_resident_frame(PageId::new(file, 0), 9).expect("a free frame");
    let Ok(Get::Hit(held)) = pool.get(&one, PageId::new(file, 0)) else {
        panic!("a resident page hits");
    };
    let waiting = demand(&mut pool, &one, PageId::new(file, 1));
    let Ok(Get::Hit(other)) = pool.get(&two, PageId::new(file, 0)) else {
        panic!("a resident page hits");
    };
    assert_eq!(other.frame(), frame);
    assert_eq!(held.frame(), frame);
    assert_eq!(pool.guarded_bytes(&held), vec![9; GRANULE as usize].as_slice());
    let ReadyResult::NotYet(waiting) = pool.ready(&one, waiting) else {
        panic!("the read is in flight");
    };
    pool.drop_pending(waiting);
    pool.drop_guard(other);
    assert_eq!(pool.guarded_bytes(&held)[0], 9);
    pool.drop_guard(held);
}

#[test]
fn a_leased_page_is_still_evicted() {
    let (mut pool, file) = open(builder().prefetch_headroom(0));
    let page = PageId::new(file, 0);
    let frame = pool.insert_resident_frame(page, 1).expect("a free frame");
    let lease = pool.lease_file(file).expect("a live file");
    assert_eq!(pool.evict_frame(page), Some(frame));
    assert_eq!(pool.frame_state(frame), FrameState::Evicting);
    pool.release_lease(lease);
}

#[test]
fn a_staged_granule_reaches_the_host_as_it_was_submitted() {
    let (mut pool, file) = open(builder().prefetch_headroom(0));
    let slot = pool.lease_write_slot().expect("a staging slot");
    let spare = pool.lease_write_slot().expect("a staging slot");
    assert!(pool.lease_write_slot().is_none());
    pool.fill_write_slot(&slot, 0, &vec![1; GRANULE as usize]);
    pool.fill_write_slot(&slot, 8, &[2, 3]);
    assert!(pool.submit_write(file, slot, 0).is_ok());
    pool.fill_write_slot(&spare, 0, &vec![7; GRANULE as usize]);
    pool.poll();
    let submission = pool.take_submission().expect("the write");
    let bytes = pool.staged_bytes(submission.token).expect("a staged granule");
    assert_eq!(bytes.len(), GRANULE as usize);
    assert_eq!(bytes[..10], [1, 1, 1, 1, 1, 1, 1, 1, 2, 3]);
    assert!(bytes[10..].iter().all(|byte| *byte == 1));
    pool.return_write_slot(spare);
}

#[test]
fn a_prefetch_spares_the_reads_and_the_pages_of_its_window() {
    let (mut pool, file) = open(
        builder()
            .max_concurrent_readers(1)
            .readahead(Readahead::Disabled)
            .prefetch_headroom(2),
    );
    let page = |index: u32| PageId::new(file, index);
    assert_eq!(pool.prefetch(&[page(0), page(1)]).admitted, 2);
    serve(&mut pool);
    pool.poll();
    let report = pool.prefetch(&[page(1), page(2)]);
    assert_eq!((report.resident, report.admitted), (1, 1));
    let report = pool.prefetch(&[page(1), page(2), page(3)]);
    assert_eq!((report.resident, report.pending, report.deferred), (1, 1, 1));
    serve(&mut pool);
    pool.poll();
    let report = pool.prefetch(&[page(1), page(2)]);
    assert_eq!(report.resident, 2);
}

#[test]
fn no_credits_no_readahead() {
    let (mut pool, file) = open(builder().prefetch_headroom(0));
    let reader = pool.register_reader().expect("a reader slot");
    let report = pool.prefetch(&[PageId::new(file, 0), PageId::new(file, 1)]);
    assert_eq!((report.requested, report.deferred), (2, 2));
    assert!(pool.take_submission().is_none());
    for index in 10..14 {
        let token = demand(&mut pool, &reader, PageId::new(file, index));
        serve(&mut pool);
        pool.poll();
        pool.drop_pending(token);
    }
    assert!(pool.take_submission().is_none());
    assert_eq!(pool.prefetch_stats().admitted, 0);
}

#[test]
fn one_readers_stream_leaves_the_other_reader_alone() {
    let (mut pool, file) = open(builder().prefetch_headroom(2));
    let one = pool.register_reader().expect("a reader slot");
    let two = pool.register_reader().expect("a reader slot");
    let apart = demand(&mut pool, &two, PageId::new(file, 100));
    for index in 0..3 {
        let token = demand(&mut pool, &one, PageId::new(file, index));
        serve(&mut pool);
        pool.poll();
        pool.drop_pending(token);
    }
    pool.drop_pending(apart);
    assert!(pool.cache.prefetch.request(two.slot()).is_none());
    assert_eq!(pool.prefetch_stats().automatic_admitted, 2);
    serve(&mut pool);
    pool.poll();
    for index in 3..5 {
        assert!(matches!(pool.get(&one, PageId::new(file, index)), Ok(Get::Hit(_))));
    }
}

#[test]
fn no_resource_is_overdrawn() {
    let (mut pool, file) = open(builder().max_concurrent_readers(1).prefetch_headroom(2));
    let reader = pool.register_reader().expect("a reader slot");
    let window: Vec<PageId> = (50..60).map(|index| PageId::new(file, index)).collect();
    pool.prefetch(&window);
    let mut tokens = Vec::new();
    let mut busy = 0;
    for index in 0..6 {
        match pool.get(&reader, PageId::new(file, index)) {
            Ok(Get::Pending(token)) => tokens.push(token),
            Ok(Get::Busy) => busy += 1,
            other => panic!("nothing is resident: {other:?}"),
        }
    }
    assert_eq!((tokens.len(), busy), (1, 5));
    let stats = pool.prefetch_stats();
    assert_eq!((stats.occupied, stats.capacity, stats.reads_in_flight), (2, 2, 3));
}

#[test]
fn a_finished_write_is_delivered_under_its_token() {
    let (mut pool, file) = open(builder().prefetch_headroom(0));
    let slot = pool.lease_write_slot().expect("a staging slot");
    let Ok(token) = pool.submit_write(file, slot, 8192) else {
        panic!("the ring has room");
    };
    let submission = pool.take_submission().expect("the write");
    assert!(pool.complete_product(submission.token, GRANULE));
    let mut batch = PoolCompletionBatch::with_capacity(2);
    assert_eq!(pool.poll_report(&mut batch).backend_completions(), 1);
    assert_eq!(batch.iter().len(), 1);
    assert!(matches!(
        &batch.iter()[0],
        PoolCompletion::Write { token: done, result: Ok(GRANULE) } if *done == token
    ));
    assert_eq!(pool.poll_report(&mut batch).backend_completions(), 0);
    assert_eq!(batch.iter().len(), 0);
}

#[test]
fn an_idle_readers_stream_outlives_polls() {
    let (mut pool, file) = open(builder().prefetch_headroom(2));
    let one = pool.register_reader().expect("a reader slot");
    let two = pool.register_reader().expect("a reader slot");
    for index in 0..3 {
        let token = demand(&mut pool, &two, PageId::new(file, index));
        serve(&mut pool);
        pool.poll();
        pool.drop_pending(token);
    }
    serve(&mut pool);
    pool.poll();
    assert_eq!(pool.prefetch_stats().automatic_admitted, 2);
    let wanted = pool.cache.prefetch.request(two.slot());
    let token = demand(&mut pool, &one, PageId::new(file, 100));
    serve(&mut pool);
    for _ in 0..3 {
        pool.poll();
    }
    pool.drop_pending(token);
    assert_eq!(pool.cache.prefetch.request(two.slot()), wanted);
    for index in 3..5 {
        assert!(matches!(pool.get(&two, PageId::new(file, index)), Ok(Get::Hit(_))));
    }
}

#[test]
fn polls_without_a_sweep_keep_second_chances() {
    let (mut pool, file) = open(builder().prefetch_headroom(0));
    let reader = pool.register_reader().expect("a reader slot");
    let page = PageId::new(file, 0);
    let frame = pool.insert_resident_frame(page, 1).expect("a free frame");
    let Ok(Get::Hit(guard)) = pool.get(&reader, page) else {
        panic!("a resident page hits");
    };
    pool.drop_guard(guard);
    assert!(pool.cache.clock.is_referenced(frame));
    let token = demand(&mut pool, &reader, PageId::new(file, 7));
    serve(&mut pool);
    for _ in 0..4 {
        pool.poll();
    }
    pool.drop_pending(token);
    assert!(pool.cache.clock.is_referenced(frame));
}

#[test]
fn released_frames_come_back_in_the_order_of_their_release() {
    for reversed in [false, true] {
        let (mut pool, file) = open(builder().prefetch_headroom(0).max_retained_frames(2));
        let reader = pool.register_reader().expect("a reader slot");
        let mut handles = Vec::new();
        let mut frames = Vec::new();
        for index in 0..2 {
            let page = PageId::new(file, index);
            frames.push(pool.insert_resident_frame(page, 1).expect("a free frame"));
            let Ok(Get::Hit(guard)) = pool.get(&reader, page) else {
                panic!("a resident page hits");
            };
            let Ok(handle) = pool.into_retained(guard) else {
                panic!("the budget admits two frames");
            };
            pool.evict_frame(page);
            handles.push(handle);
        }
        for _ in 0..6 {
            pool.poll();
        }
        if reversed {
            handles.reverse();
            frames.reverse();
        }
        for handle in handles {
            pool.release_retained(handle);
        }
        pool.poll();
        assert_eq!(pool.cache.free.top(), Some(frames[1]));
        assert_eq!(pool.retention_stats().occupied_budget, 0);
        pool.poll();
        assert_eq!(pool.cache.free.top(), Some(frames[1]));
        assert_eq!(pool.cache.free.pop(), Some(frames[1]));
        assert_eq!(pool.cache.free.pop(), Some(frames[0]));
    }
}

#[test]
fn a_new_reader_in_a_slot_starts_untrained() {
    let (mut pool, file) = open(builder().max_concurrent_readers(1).prefetch_headroom(2));
    let first = pool.register_reader().expect("a reader slot");
    for index in 0..3 {
        let token = demand(&mut pool, &first, PageId::new(file, index));
        serve(&mut pool);
        pool.drop_pending(token);
    }
    let slot = first.slot();
    assert!(pool.cache.prefetch.request(slot).is_some());
    pool.release_reader(first);
    let second = pool.register_reader().expect("the slot is free again");
    assert_eq!(second.slot(), slot);
    assert!(pool.cache.prefetch.request(slot).is_none());
    for index in 3..5 {
        let token = demand(&mut pool, &second, PageId::new(file, index));
        serve(&mut pool);
        pool.poll();
        pool.drop_pending(token);
    }
    assert_eq!(pool.prefetch_stats().automatic_admitted, 0);
}
