use dios::driver::{Driver, FileId, IoMode, RegistrationPosture, Request};
use dios::pool::clock::Clock;
use dios::pool::control::Pool;
use dios::pool::demand::{Get, ReadyResult};
use dios::pool::epoch::ReaderCtx;
use dios::pool::frames::{ArenaIds, ReadFrameIdx};
use dios::pool::prefetch::ledger::{Prefetch, Terminal};
use dios::pool::prefetch::{Admission, Readahead, Source};
use dios::pool::PageId;

const GRANULE: u32 = 4096;

fn fixture() -> (Pool, FileId) {
    let mut ids = ArenaIds::new();
    let builder = Pool::builder()
        .frame_count(64)
        .max_concurrent_readers(1)
        .peak_guards_per_reader(2)
        .max_inflight_reads(16)
        .miss_headroom(48)
        .prefetch_headroom(4);
    let driver = Driver::new(91, 1024, 64, RegistrationPosture::Unregistered, false);
    let mut pool = match builder.build_on(&mut ids, driver) {
        Ok(pool) => pool,
        Err(error) => panic!("{}", error.message()),
    };
    let file = pool.open(IoMode::Buffered).expect("file");
    (pool, file)
}

fn serve(pool: &mut Pool) {
    while let Some(submission) = pool.take_submission() {
        if let Request::Read { offset, len, .. } = submission.request {
            let byte = (offset / u64::from(GRANULE)) as u8;
            assert!(pool.complete_read(submission.token, &vec![byte; len as usize]));
        }
    }
}

fn train(pool: &mut Pool, reader: &ReaderCtx, file: FileId) {
    for index in 0..3 {
        let Ok(Get::Pending(mut token)) = pool.get(reader, PageId::new(file, index)) else {
            panic!("cold page");
        };
        let mut complete = false;
        for _ in 0..128 {
            serve(pool);
            pool.poll();
            match pool.ready(reader, token) {
                ReadyResult::Ready(guard) => {
                    pool.drop_guard(guard);
                    complete = true;
                    break;
                }
                ReadyResult::NotYet(next) => token = next,
                ReadyResult::Failed(error) => panic!("read error: {}", error.message()),
            }
        }
        assert!(complete);
    }
    for _ in 0..8 {
        serve(pool);
        pool.poll();
    }
    assert_eq!(pool.prefetch_stats().occupied, 4);
}

#[test]
fn replacement_admission_harvests_earlier_consumption_before_later_feedback() {
    let (mut pool, file) = fixture();
    let reader = pool.register_reader().expect("reader");
    train(&mut pool, &reader, file);
    pool.cache.reconcile();
    for index in 3..5 {
        let Ok(Get::Hit(guard)) = pool.get(&reader, PageId::new(file, index)) else {
            panic!("resident speculation");
        };
        pool.drop_guard(guard);
    }
    let victim = pool.cache.residency.table.lookup(PageId::new(file, 4)).expect("victim");
    assert!(pool.cache.try_evict(victim));
    assert!(matches!(
        pool.prefetch_admit(PageId::new(file, 100), Source::Explicit),
        Admission::Admitted
    ));
    pool.cache.reconcile();
    assert!(
        pool.cache.prefetch.request(0).is_some(),
        "consecutive consumption preserves the stream"
    );
}

#[test]
fn automatic_request_is_revalidated_after_queued_feedback_resets_its_stream() {
    let (mut pool, file) = fixture();
    let reader = pool.register_reader().expect("reader");
    train(&mut pool, &reader, file);
    assert!(matches!(
        pool.get(&reader, PageId::new(file, 3)),
        Ok(Get::Hit(_))
    ));
    pool.cache.reconcile();
    let (page, source) = pool.cache.prefetch.request(0).expect("next prediction");
    assert!(matches!(
        pool.get(&reader, PageId::new(file, 6)),
        Ok(Get::Hit(_))
    ));
    let victim = pool.cache.residency.table.lookup(PageId::new(file, 6)).expect("victim");
    assert!(pool.cache.try_evict(victim));
    let before = pool.cache.prefetch.books().admitted;
    let outcome = pool.prefetch_admit(page, source);
    assert!(!matches!(outcome, Admission::Admitted));
    assert_eq!(pool.cache.prefetch.books().admitted, before);
}

#[test]
fn concurrent_feedback_preserves_reader_order_across_recycled_slots() {
    let mut clock = Clock::with_frame_count(2);
    let mut ledger = Prefetch::with_geometry(2, 1, 2, Readahead::Automatic, 2, GRANULE);
    let page = |index| PageId::new(FileId::new(0, 0, 0), index);
    for index in 0..3 {
        ledger.observe(&mut clock, 0, page(index));
    }
    let (_, source) = ledger.request(0).expect("stream");
    ledger.issued(0, page(3));
    ledger.issued(0, page(4));
    ledger.enroll(&mut clock, page(4), ReadFrameIdx::new(0), source);
    ledger.enroll(&mut clock, page(3), ReadFrameIdx::new(1), source);
    assert!(clock.reference_from(ReadFrameIdx::new(1), Some(0)));
    ledger.reconcile(&mut clock);
    assert!(clock.reference_from(ReadFrameIdx::new(0), Some(0)));
    ledger.reconcile(&mut clock);
    assert_eq!(ledger.books().demand_promoted, 2);
    assert_eq!(ledger.books().occupied, 0);
    assert_eq!(ledger.request(0).expect("confirmed stream").0, page(5));
}

#[test]
fn consumption_reconciliation_and_eviction_return_one_credit_before_reuse() {
    for consumed_first in [true, false] {
        let mut clock = Clock::with_frame_count(1);
        let mut ledger = Prefetch::with_geometry(1, 0, 1, Readahead::Disabled, 1, GRANULE);
        let frame = ReadFrameIdx::new(0);
        let page = PageId::new(FileId::new(0, 0, 0), 7);
        ledger.enroll(&mut clock, page, frame, Source::Explicit);
        if consumed_first {
            let _ = clock.reference(frame);
        }
        ledger.reconcile(&mut clock);
        ledger.finish(&mut clock, frame, Terminal::Evicted);
        if !consumed_first {
            let _ = clock.reference(frame);
        }
        assert_eq!(ledger.books().occupied, 0);
        assert_eq!(
            ledger.books().demand_promoted + ledger.books().evicted_unused,
            1
        );
        assert!(!clock.is_speculative(frame));
        let stored = ledger.books().demand_promoted;
        ledger.enroll(&mut clock, page, frame, Source::Explicit);
        assert!(clock.reference(frame));
        ledger.reconcile(&mut clock);
        assert_eq!(ledger.books().occupied, 0);
        assert_eq!(ledger.books().demand_promoted, stored + 1);
    }
}

#[test]
fn three_cold_demands_start_a_stream_that_reads_ahead() {
    let (mut pool, file) = fixture();
    let reader = pool.register_reader().expect("reader");
    train(&mut pool, &reader, file);
    let stats = pool.prefetch_stats();
    assert_eq!(stats.automatic_admitted, 4);
    assert_eq!(stats.admitted, 4);
    for index in 3..7 {
        let Ok(Get::Hit(guard)) = pool.get(&reader, PageId::new(file, index)) else {
            panic!("page {index} was read ahead");
        };
        assert_eq!(pool.guarded_bytes(&guard)[0], index as u8);
        pool.drop_guard(guard);
    }
    let stats = pool.prefetch_stats();
    assert_eq!(stats.demand_promoted, 4);
    assert_eq!(stats.occupied, 0);
    pool.poll();
    assert_eq!(pool.prefetch_stats().occupied, 4);
}

#[test]
fn a_window_report_partitions_its_pages() {
    let (mut pool, file) = fixture();
    let reader = pool.register_reader().expect("reader");
    let Ok(Get::Pending(token)) = pool.get(&reader, PageId::new(file, 50)) else {
        panic!("cold page");
    };
    serve(&mut pool);
    pool.poll();
    pool.drop_pending(token);
    let Ok(Get::Pending(_joined)) = pool.get(&reader, PageId::new(file, 60)) else {
        panic!("cold page");
    };
    let dead = FileId::new(91, 9, 1);
    let window = [
        PageId::new(file, 50),
        PageId::new(file, 60),
        PageId::new(dead, 0),
        PageId::new(file, 10),
        PageId::new(file, 11),
        PageId::new(file, 12),
        PageId::new(file, 13),
        PageId::new(file, 14),
    ];
    let report = pool.prefetch(&window);
    assert_eq!(report.requested, 8);
    assert_eq!(report.resident, 1);
    assert_eq!(report.pending, 1);
    assert_eq!(report.rejected, 1);
    assert_eq!(report.admitted, 4);
    assert_eq!(report.deferred, 1);
    let stats = pool.prefetch_stats();
    assert_eq!((stats.occupied, stats.capacity, stats.deferred), (4, 4, 1));
    assert_eq!(stats.reads_in_flight, 5);
}

#[test]
fn a_long_window_defers_what_is_beyond_the_request_limit() {
    let (mut pool, file) = fixture();
    let window: Vec<PageId> = (0..70).map(|index| PageId::new(file, index)).collect();
    let report = pool.prefetch(&window);
    assert_eq!(report.requested, 70);
    assert_eq!(report.admitted, 4);
    assert_eq!(report.deferred, 66);
}

#[test]
fn a_new_window_replaces_unused_pages_outside_it() {
    let (mut pool, file) = fixture();
    let first: Vec<PageId> = (0..4).map(|index| PageId::new(file, index)).collect();
    assert_eq!(pool.prefetch(&first).admitted, 4);
    serve(&mut pool);
    pool.poll();
    let second: Vec<PageId> = (4..6).map(|index| PageId::new(file, index)).collect();
    let report = pool.prefetch(&second);
    assert_eq!(report.admitted, 2);
    let stats = pool.prefetch_stats();
    assert_eq!(stats.evicted_unused, 2);
    assert_eq!(stats.occupied, 4);
}

#[test]
fn demand_promotes_a_speculative_read_in_flight() {
    let (mut pool, file) = fixture();
    let reader = pool.register_reader().expect("reader");
    let page = PageId::new(file, 20);
    assert_eq!(pool.prefetch(&[page]).admitted, 1);
    let Ok(Get::Pending(token)) = pool.get(&reader, page) else {
        panic!("the speculative read is in flight");
    };
    let stats = pool.prefetch_stats();
    assert_eq!((stats.demand_promoted, stats.occupied), (1, 0));
    serve(&mut pool);
    pool.poll();
    let ReadyResult::Ready(guard) = pool.ready(&reader, token) else {
        panic!("the read served the demand");
    };
    assert_eq!(pool.guarded_bytes(&guard)[0], 20);
    pool.drop_guard(guard);
}

#[test]
fn a_failed_speculation_returns_its_credit() {
    let (mut pool, file) = fixture();
    assert_eq!(pool.prefetch(&[PageId::new(file, 20)]).admitted, 1);
    let submission = pool.take_submission().expect("the speculative read");
    assert!(pool.fail(submission.token, dios::error::IoError::from_raw(5)));
    pool.poll();
    let stats = pool.prefetch_stats();
    assert_eq!((stats.failed, stats.occupied), (1, 0));
    let balance = stats.demand_promoted + stats.evicted_unused + stats.failed;
    assert_eq!(stats.admitted, balance + u64::from(stats.occupied));
}

#[test]
fn an_explicit_window_protects_what_it_names() {
    let mut clock = Clock::with_frame_count(2);
    let mut ledger = Prefetch::try_with_geometry(2, 0, 2, Readahead::Disabled, 2, GRANULE)
        .expect("fixed storage");
    assert_eq!((ledger.capacity(), ledger.request_limit()), (2, 8));
    let page = |index| PageId::new(FileId::new(0, 0, 0), index);
    ledger.begin_explicit();
    ledger.enroll(&mut clock, page(1), ReadFrameIdx::new(1), Source::Explicit);
    let index = (0..2)
        .find(|index| ledger.entry(*index).is_some())
        .expect("one credit is out");
    let entry = ledger.entry(index).expect("the credit");
    assert_eq!((entry.page, entry.frame), (page(1), ReadFrameIdx::new(1)));
    assert!(ledger.protected(entry));
    ledger.begin_explicit();
    assert!(!ledger.protected(ledger.entry(index).expect("the credit")));
    ledger.protect(ReadFrameIdx::new(0));
    assert!(!ledger.protected(ledger.entry(index).expect("the credit")));
    ledger.protect(ReadFrameIdx::new(1));
    assert!(ledger.protected(ledger.entry(index).expect("the credit")));
    let books = ledger.books();
    ledger.wait_cleanup(index);
    ledger.retry_cleanup(1);
    assert_eq!(ledger.books(), books);
    assert_eq!(ledger.available(), 1);
}

#[test]
fn the_reserve_gives_back_the_frame_it_took_last() {
    let mut ledger = Prefetch::with_geometry(2, 1, 2, Readahead::Automatic, 4, GRANULE);
    ledger.push_reserve(ReadFrameIdx::new(3));
    ledger.push_reserve(ReadFrameIdx::new(0));
    assert_eq!(ledger.reserve_len(), 2);
    assert_eq!(ledger.reserve_top(), Some(ReadFrameIdx::new(0)));
    assert_eq!(ledger.pop_reserve(), Some(ReadFrameIdx::new(0)));
    assert_eq!(ledger.pop_reserve(), Some(ReadFrameIdx::new(3)));
    assert_eq!(ledger.pop_reserve(), None);
    ledger.advance_turn(0);
    assert_eq!(ledger.request(0), None);
}

#[test]
fn a_reconciliation_visits_each_notice_once() {
    let mut clock = Clock::with_frame_count(3);
    let mut ledger = Prefetch::with_geometry(2, 0, 2, Readahead::Disabled, 3, GRANULE);
    let page = |index| PageId::new(FileId::new(0, 0, 0), index);
    ledger.enroll(&mut clock, page(7), ReadFrameIdx::new(0), Source::Explicit);
    ledger.enroll(&mut clock, page(9), ReadFrameIdx::new(1), Source::Explicit);
    clock.notify_completed(ReadFrameIdx::new(1));
    clock.notify_completed(ReadFrameIdx::new(2));
    let _ = clock.reference(ReadFrameIdx::new(0));
    assert_eq!(ledger.reconcile_model(&mut clock), 2);
    assert_eq!(ledger.books().occupied, 1);
    assert_eq!(ledger.reconcile_model(&mut clock), 0);
}

#[test]
fn a_reconciliation_visits_the_predictions_it_abandons() {
    let mut clock = Clock::with_frame_count(2);
    let mut ledger = Prefetch::with_geometry(2, 1, 2, Readahead::Automatic, 2, GRANULE);
    let page = |index| PageId::new(FileId::new(0, 0, 0), index);
    for index in 0..3 {
        ledger.observe(&mut clock, 0, page(index));
    }
    let (_, source) = ledger.request(0).expect("stream");
    ledger.issued(0, page(3));
    ledger.issued(0, page(4));
    ledger.enroll(&mut clock, page(4), ReadFrameIdx::new(0), source);
    ledger.enroll(&mut clock, page(3), ReadFrameIdx::new(1), source);
    assert!(clock.reference_from(ReadFrameIdx::new(0), Some(0)));
    assert_eq!(ledger.reconcile_model(&mut clock), 2);
    assert!(ledger.request(0).is_none());
}
