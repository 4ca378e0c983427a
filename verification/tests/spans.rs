use dios::driver::{FileId, OpToken};
use dios::error::IoError;
use dios::pool::cache::Cache;
use dios::pool::frames::{ArenaIds, ReadFrameIdx};
use dios::pool::miss::{MissOutcome, MissSlot};
use dios::pool::prefetch::{Readahead, Source};
use dios::pool::read_spans::{ReadSpan, ReadSpans};
use dios::pool::PageId;

const GRANULE: u32 = 4096;

fn page(index: u32) -> PageId {
    PageId::new(FileId::new(0, 0, 0), index)
}

fn cache() -> Cache {
    let mut ids = ArenaIds::new();
    let mut cache =
        Cache::new(&mut ids, 8, GRANULE, 1, 4, 0, 1, 4, Readahead::Disabled).expect("small");
    cache.register().expect("a reader");
    cache.activate(true);
    cache.fill_reserve();
    cache
}

/// Admits `count` consecutive pages as one span.
fn launch(cache: &mut Cache, spans: &mut ReadSpans, first: u32, count: u32) -> OpToken {
    let token = OpToken::new(0, 1);
    let mut span = ReadSpan::new(page(first), token, count, GRANULE);
    for ordinal in 0..count {
        let slot = cache.miss.admission_slot(&cache.interests).expect("a miss slot");
        let generation =
            cache.begin_speculation(slot, page(first + ordinal), token, Source::Explicit);
        span.install(ordinal as usize, slot, generation);
    }
    let route = spans.reserve().expect("a route");
    spans.commit(route, span);
    token
}

#[test]
fn routes_are_reserved_cancelled_and_reused() {
    let mut spans = ReadSpans::new(2, 1);
    let first = spans.reserve().expect("a route");
    let second = spans.reserve().expect("a route");
    assert!(spans.reserve().is_none());
    spans.cancel(first);
    assert_eq!(spans.reserve(), Some(first));
    assert_ne!(first, second);
    assert!(spans.in_flight(0).is_none());
}

#[test]
fn bytes_complete_pages_in_order() {
    let mut span = ReadSpan::new(page(0), OpToken::new(0, 1), 3, GRANULE);
    for ordinal in 0..3 {
        span.install(ordinal, MissSlot::new(ordinal), 1);
    }
    assert_eq!(span.advance(GRANULE - 1), 0);
    assert_eq!(span.advance(1), 1);
    assert_eq!(span.published(), 1);
    assert!(!span.is_complete());
    assert_eq!(span.advance(2 * GRANULE), 2);
    assert!(span.is_complete());
}

#[test]
fn a_whole_vector_lands_at_once() {
    let mut cache = cache();
    let mut spans = ReadSpans::new(4, 1);
    let token = launch(&mut cache, &mut spans, 20, 3);
    assert_eq!(cache.reads_in_flight, 3);
    assert!(cache.route_span_completion(&mut spans, token, Ok(3 * GRANULE)).is_none());
    assert_eq!(cache.reads_in_flight, 0);
    for index in 20..23 {
        assert!(cache.residency.table.lookup(page(index)).is_some());
    }
    assert!(spans.in_flight(0).is_none());
}

#[test]
fn a_short_vector_is_resumed_where_it_stands() {
    let mut cache = cache();
    let mut spans = ReadSpans::new(4, 1);
    let token = launch(&mut cache, &mut spans, 20, 2);
    let (slot, span) = cache
        .route_span_completion(&mut spans, token, Ok(GRANULE + 10))
        .expect("half a page is missing");
    assert_eq!(span.published(), 1);
    assert!(cache.residency.table.lookup(page(20)).is_some());
    assert!(cache.residency.table.lookup(page(21)).is_none());
    assert_eq!(cache.reads_in_flight, 1);
    spans.resume(slot, span);
    assert!(cache.route_span_completion(&mut spans, token, Ok(GRANULE - 10)).is_none());
    assert!(cache.residency.table.lookup(page(21)).is_some());
}

#[test]
fn a_vector_that_cannot_go_on_fails_its_remainder() {
    let mut cache = cache();
    let mut spans = ReadSpans::new(4, 1);
    let token = launch(&mut cache, &mut spans, 20, 2);
    let waited = cache.miss.find_pending(page(21)).expect("pending");
    let (slot, generation) = cache.join(waited, 0);
    let (route, span) = cache
        .route_span_completion(&mut spans, token, Ok(GRANULE))
        .expect("one page is missing");
    cache.route_span_failure(&mut spans, route, &span, IoError::from_raw(28));
    assert_eq!(cache.reads_in_flight, 0);
    assert!(cache.residency.table.lookup(page(20)).is_some());
    let entry = cache.miss.validate(slot, generation, page(21)).expect("the waiter's miss");
    assert_eq!(entry.outcome, MissOutcome::Failed(28));
    assert!(cache.miss.find_pending(page(21)).is_none());
    assert_eq!(cache.withdraw(slot, generation), 0);
}

#[test]
fn an_error_and_an_early_end_fail_every_page() {
    let unnumbered = IoError { raw: None };
    for (result, errno) in [(Err(IoError::from_raw(12)), 12), (Ok(0), 5), (Err(unnumbered), 5)] {
        let mut cache = cache();
        let mut spans = ReadSpans::new(4, 1);
        let token = launch(&mut cache, &mut spans, 7, 2);
        let waited = cache.miss.find_pending(page(7)).expect("pending");
        let (slot, generation) = cache.join(waited, 0);
        assert!(cache.route_span_completion(&mut spans, token, result).is_none());
        assert_eq!(cache.reads_in_flight, 0);
        let entry = cache.miss.validate(slot, generation, page(7)).expect("the waiter's miss");
        assert_eq!(entry.outcome, MissOutcome::Failed(errno));
        assert!(cache.residency.table.lookup(page(8)).is_none());
        assert_eq!(cache.prefetch.books().failed, 1);
        assert_eq!(cache.prefetch.books().occupied, 0);
    }
}

#[test]
fn landed_bytes_are_those_transferred() {
    let mut cache = cache();
    let mut spans = ReadSpans::new(4, 1);
    let token = launch(&mut cache, &mut spans, 0, 2);
    let frames: Vec<ReadFrameIdx> = (0..2)
        .map(|index| {
            let miss = cache.miss.find_pending(page(index)).expect("pending");
            cache.miss.entry(miss).expect("entered").frame
        })
        .collect();
    cache.transfer(frames[0], 0, &vec![1; GRANULE as usize]);
    cache.transfer(frames[1], 0, &vec![2; GRANULE as usize]);
    cache.route_span_completion(&mut spans, token, Ok(2 * GRANULE));
    assert_eq!(cache.residency.frames.copy_frame(frames[1], 3), vec![2, 2, 2]);
    let pinned = cache.pin(0, page(0)).expect("mapped");
    assert_eq!(pinned, frames[0]);
    assert_eq!(cache.residency.frames.frame_bytes(pinned)[4095], 1);
    cache.unpin(0, pinned);
}
