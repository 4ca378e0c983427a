use dios::driver::{Alignment, FileId, IoMode, OpToken};
use dios::error::IoError;
use dios::num::{is_power_of_two, next_power_of_two};
use dios::pool::clock::{Clock, SpeculationOutcome};
use dios::pool::diagnostics::{DiagnosticCounter, DiagnosticSlot};
use dios::pool::epoch::{advance_epoch, EvictQueue, ReaderRegistry, ReaderSlot, QUIESCENT};
use dios::pool::frames::{ArenaId, FrameState, FreeFrames, ReadFrameIdx};
use dios::pool::miss::{MissEntry, MissOutcome};
use dios::pool::prefetch::feedback::{sort_feedback, Feedback};
use dios::pool::prefetch::index_queue::IndexQueue;
use dios::pool::prefetch::notifications::DirtyFrames;
use dios::pool::prefetch::pattern::{Pattern, PatternState};
use dios::pool::prefetch::Source;
use dios::pool::routing::{read_outcome, read_span, remainder_satisfies_io_mode, ReadOutcome};
use dios::pool::table::{page_hash, PageTable};
use dios::pool::write_arena::{AllocWait, WriteArena};
use dios::pool::PageId;

fn frame(index: u32) -> ReadFrameIdx {
    ReadFrameIdx::new(index)
}

fn page(index: u32) -> PageId {
    PageId::new(FileId::new(1, 0, 1), index)
}

#[test]
fn powers_of_two() {
    assert_eq!(next_power_of_two(0), 1);
    assert_eq!(next_power_of_two(5), 8);
    assert_eq!(next_power_of_two(u32::MAX), 0x1_0000_0000);
    assert!(is_power_of_two(1));
    assert!(is_power_of_two(0x8000_0000));
    assert!(!is_power_of_two(0));
    assert!(!is_power_of_two(12));
}

#[test]
fn the_clock_gives_a_touched_frame_a_second_chance() {
    let mut clock = Clock::with_frame_count(3);
    assert!(clock.reference(frame(0)));
    assert!(!clock.reference(frame(0)));
    assert_eq!(clock.reference_stores(), 1);
    assert_eq!(clock.evict_victim(), frame(1));
    assert!(!clock.is_referenced(frame(0)));
    assert_eq!(clock.evict_victim(), frame(2));
    assert_eq!(clock.evict_victim(), frame(0));
}

#[test]
fn a_sweep_over_touched_frames_takes_the_first() {
    let mut clock = Clock::try_with_frame_count(2).expect("frames");
    clock.reference(frame(0));
    clock.reference(frame(1));
    assert_eq!(clock.evict_victim(), frame(0));
    assert!(!clock.is_referenced(frame(1)));
}

#[test]
fn the_first_touch_consumes_a_speculation() {
    let mut clock = Clock::with_frame_count(2);
    clock.begin_speculation(frame(1));
    assert!(clock.is_speculative(frame(1)));
    assert!(!clock.speculation_consumed(frame(1)));
    clock.notify_completed(frame(1));
    assert_eq!(clock.drain_completed(), vec![frame(1)]);
    assert!(clock.drain_completed().is_empty());
    assert!(clock.reference_from(frame(1), Some(4)));
    assert!(!clock.reference_from(frame(1), Some(5)));
    assert!(clock.speculation_consumed(frame(1)));
    assert_eq!(clock.drain_consumed(), vec![frame(1)]);
    assert_eq!(clock.take_speculation(frame(1)), SpeculationOutcome::Consumed(Some(4)));
    assert_eq!(clock.take_speculation(frame(1)), SpeculationOutcome::Absent);
}

#[test]
fn notifications_drain_in_frame_order() {
    let mut dirty = DirtyFrames::new(5000);
    for index in [4999, 0, 64, 63, 4096, 64] {
        dirty.notify(frame(index));
    }
    let visited: Vec<u32> = dirty.drain().into_iter().map(|f| f.get()).collect();
    assert_eq!(visited, vec![0, 63, 64, 4096, 4999]);
    assert!(dirty.drain().is_empty());
}

#[test]
fn a_reader_goes_quiescent_with_its_last_guard() {
    let mut slot = ReaderSlot::vacant();
    assert!(slot.try_occupy());
    assert!(!slot.try_occupy());
    assert!(slot.begin_pin(5));
    slot.commit_pin();
    assert!(!slot.begin_pin(6));
    slot.commit_pin();
    assert!(slot.permits_advance(5));
    assert!(!slot.permits_advance(6));
    slot.release_guard();
    assert_eq!(slot.local_epoch, 5);
    slot.release_guard();
    assert_eq!(slot.local_epoch, QUIESCENT);
    assert!(slot.begin_pin(9));
    slot.abort_pin();
    slot.vacate();
    assert_eq!(slot, ReaderSlot::vacant());
}

#[test]
fn the_epoch_waits_for_every_reader() {
    let mut registry = ReaderRegistry::with_capacity(2, ArenaId(3));
    let reader = registry.register().expect("a slot");
    assert!(registry.owns(&reader));
    assert!(reader.belongs_to(ArenaId(3)));
    let mut epoch = 7;
    let mut slot = registry.slot(reader.slot());
    slot.begin_pin(epoch);
    slot.commit_pin();
    registry.store(reader.slot(), slot);
    assert_eq!(advance_epoch(&mut epoch, registry.slots()), 8);
    assert_eq!(advance_epoch(&mut epoch, registry.slots()), 8);
    slot.release_guard();
    registry.store(reader.slot(), slot);
    assert_eq!(advance_epoch(&mut epoch, registry.slots()), 9);
    assert!(registry.register().is_some());
    assert!(registry.register().is_none());
}

#[test]
fn evictions_mature_in_order() {
    let mut queue = EvictQueue::with_capacity(3);
    assert_eq!(queue.oldest_tagged_epoch(), None);
    queue.push(frame(2), 1);
    queue.push(frame(0), 1);
    queue.push(frame(1), 2);
    assert_eq!(queue.oldest_tagged_epoch(), Some(1));
    assert_eq!(queue.pop_matured(2), None);
    assert_eq!(queue.pop_matured(3), Some((frame(2), 1)));
    assert_eq!(queue.drain_matured(4), vec![(frame(0), 1), (frame(1), 2)]);
    assert_eq!(queue.len(), 0);
}

#[test]
fn a_page_table_maps_overwrites_and_removes() {
    assert!(PageTable::try_with_frame_count(0x4000_0001).is_none());
    let mut table = PageTable::try_with_frame_count(4).expect("fits");
    assert_eq!(table.capacity(), 8);
    assert!(table.is_empty());
    for index in 0..4 {
        table.insert(page(index), frame(index));
    }
    table.insert(page(2), frame(0));
    assert_eq!(table.len(), 4);
    assert_eq!(table.lookup(page(2)), Some(frame(0)));
    assert_eq!(table.remove(page(1)), Some(frame(1)));
    assert_eq!(table.remove(page(1)), None);
    for (index, mapped) in [(0, Some(0)), (1, None), (2, Some(0)), (3, Some(3))] {
        assert_eq!(table.lookup(page(index)).map(|f| f.get()), mapped);
    }
    assert_eq!(u64::from(table.home_slot(page(3))), page_hash(page(3)) % 8);
}

#[test]
fn generations_of_one_slot_are_different_pages() {
    let mut table = PageTable::with_frame_count(2);
    let old = PageId::new(FileId::new(1, 0, 1), 9);
    let new = PageId::new(FileId::new(1, 0, 2), 9);
    table.insert(old, frame(0));
    assert_eq!(table.lookup(new), None);
    table.insert(new, frame(1));
    assert_eq!(table.lookup(old), Some(frame(0)));
    assert_eq!(new.granule_idx(), 9);
}

#[test]
fn a_queue_holds_an_index_once() {
    let mut queue = IndexQueue::new(4);
    assert_eq!(queue.front(), None);
    queue.push(3);
    queue.push(1);
    queue.push(3);
    assert!(queue.contains(3));
    assert_eq!(queue.front(), Some(3));
    queue.push(0);
    queue.remove(1);
    assert!(!queue.contains(1));
    assert_eq!(queue.pop(), Some(3));
    assert_eq!(queue.pop(), Some(0));
    assert_eq!(queue.pop(), None);
}

#[test]
fn feedback_is_ordered_by_reader_incarnation_and_page() {
    let item = |reader, incarnation, index| Feedback { reader, incarnation, page: page(index) };
    let queue = vec![item(1, 0, 4), item(0, 9, 700), item(0, 9, 3), item(0, 2, 800)];
    let order: Vec<(u32, u64, u32)> =
        sort_feedback(queue).iter().map(|f| (f.reader, f.incarnation, f.page.granule_idx())).collect();
    assert_eq!(order, vec![(0, 2, 800), (0, 9, 3), (0, 9, 700), (1, 0, 4)]);
}

#[test]
fn three_sequential_demands_start_a_stream() {
    let mut pattern = Pattern::new();
    pattern.observe(page(5), 16);
    pattern.observe(page(6), 16);
    assert_eq!(pattern.request(2), None);
    pattern.observe(page(7), 16);
    let source = Source::Automatic { reader: 2, incarnation: pattern.incarnation() };
    assert_eq!(pattern.request(2), Some((page(8), source)));
    assert_eq!(pattern.window(2, 8), Some((page(8), source, 4)));
    pattern.issued(page(8));
    assert_eq!(pattern.window(2, 8), None);
    assert_eq!(pattern.request(2), Some((page(9), source)));
}

#[test]
fn confirmed_predictions_double_the_width() {
    let mut pattern = Pattern::new();
    for index in 0..3 {
        pattern.observe(page(index), 16);
    }
    pattern.issued(page(3));
    let incarnation = pattern.incarnation();
    pattern.promoted(page(3), incarnation, 16);
    assert_eq!(
        pattern.state,
        PatternState::Streaming { demand: page(3), next: 4, width: 8 }
    );
    pattern.promoted(page(4), incarnation + 1, 16);
    assert_eq!(
        pattern.state,
        PatternState::Streaming { demand: page(3), next: 4, width: 8 }
    );
    assert!(pattern.owns(incarnation));
}

#[test]
fn a_gap_or_the_last_page_ends_a_stream() {
    let mut pattern = Pattern::new();
    for index in 0..3 {
        pattern.observe(page(index), 4);
    }
    let incarnation = pattern.incarnation();
    pattern.observe(page(40), 4);
    assert_eq!(pattern.request(0), None);
    assert!(!pattern.owns(incarnation));
    pattern.reset();
    assert_eq!(pattern.state, PatternState::Empty);
    pattern.observe(page(u32::MAX - 1), 4);
    pattern.observe(page(u32::MAX), 4);
    assert_eq!(pattern.state, PatternState::Empty);
}

#[test]
fn staging_slots_are_leased_lowest_first() {
    let mut arena = WriteArena::preallocated(2, 4096, 77);
    assert_eq!(arena.span_len(), 8192);
    let first = arena.lease().expect("free");
    assert_eq!(first.slot(), 0);
    assert!(arena.owns(&first));
    assert!(arena.lease_within(1).is_none());
    arena.write(&first, 100, &[1, 2, 3]);
    assert_eq!(arena.region(0, 99, 5), vec![0, 1, 2, 3, 0]);
    let second = match arena.alloc_wait() {
        AllocWait::Leased(slot) => slot,
        AllocWait::Waiting => panic!("one slot is free"),
    };
    assert_eq!(second.slot(), 1);
    assert!(arena.lease().is_none());
    assert!(matches!(arena.alloc_wait(), AllocWait::Waiting));
    assert!(arena.release(first.into_index()));
    arena.end_wait();
    assert!(arena.slot_is_free(0));
    assert!(!arena.slot_is_free(1));
    assert!(!arena.release(second.into_index()));
    assert_eq!(arena.lease().expect("free").slot(), 0);
}

#[test]
fn free_frames_leave_last_in_first_out() {
    let mut free = FreeFrames::with_all(3);
    assert_eq!(free.top(), Some(frame(0)));
    assert_eq!(free.pop(), Some(frame(0)));
    assert_eq!(free.pop(), Some(frame(1)));
    free.push(frame(0));
    assert_eq!(free.pop(), Some(frame(0)));
    assert_eq!(FreeFrames::empty(2).top(), None);
    assert_eq!(FreeFrames::try_empty(2).expect("room for two").top(), None);
}

#[test]
fn frame_words_name_their_state() {
    assert_eq!(FrameState::from_word(0), FrameState::Free);
    assert_eq!(FrameState::from_word(5), FrameState::InFlight);
    assert_eq!(FrameState::from_word(10), FrameState::Resident);
    assert_eq!(FrameState::from_word(15), FrameState::Evicting);
}

#[test]
fn diagnostics_count_and_hold() {
    let mut counter = DiagnosticCounter::new();
    counter.increment();
    counter.increment();
    assert_eq!(counter.get(), 2);
    let mut slot = DiagnosticSlot::new();
    slot.set(9);
    assert_eq!(slot.get(), 9);
}

#[test]
fn a_read_span_is_the_rest_of_the_granule() {
    assert_eq!(read_span(page(3), 4096, 512), (3 * 4096 + 512, 3584));
    assert_eq!(read_span(page(u32::MAX), 4096, 4096), (u64::from(u32::MAX) * 4096 + 4096, 0));
}

#[test]
fn direct_remainders_stay_aligned() {
    let direct = IoMode::Direct(Alignment { bytes: 512 });
    assert!(remainder_satisfies_io_mode(direct, 1024, 512, 3584));
    assert!(!remainder_satisfies_io_mode(direct, 1000, 512, 3584));
    assert!(!remainder_satisfies_io_mode(direct, 1024, 500, 3584));
    assert!(!remainder_satisfies_io_mode(direct, 1024, 512, 100));
    assert!(remainder_satisfies_io_mode(IoMode::Buffered, 1, 2, 3));
}

#[test]
fn a_read_fills_continues_or_fails() {
    let entry = MissEntry {
        page: page(2),
        frame: frame(0),
        token: OpToken::new(0, 1),
        generation: 1,
        filled: 1024,
        outcome: MissOutcome::Pending,
    };
    assert_eq!(read_outcome(IoMode::Buffered, &entry, 4096, Ok(3072)), ReadOutcome::Filled);
    assert_eq!(
        read_outcome(IoMode::Buffered, &entry, 4096, Ok(0)),
        ReadOutcome::Failed { errno: 5 }
    );
    assert_eq!(
        read_outcome(IoMode::Buffered, &entry, 4096, Err(IoError::from_raw(28))),
        ReadOutcome::Failed { errno: 28 }
    );
    assert_eq!(
        read_outcome(IoMode::Buffered, &entry, 4096, Err(IoError { raw: None })),
        ReadOutcome::Failed { errno: 5 }
    );
    let direct = IoMode::Direct(Alignment { bytes: 512 });
    assert_eq!(
        read_outcome(direct, &entry, 4096, Ok(100)),
        ReadOutcome::Failed { errno: 5 }
    );
    assert_eq!(
        read_outcome(direct, &entry, 4096, Ok(512)),
        ReadOutcome::Resumed { filled: 1536 }
    );
}
