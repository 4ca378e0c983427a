use dios::pool::config::ResidentLeaseError;
use dios::pool::frames::ArenaIds;
use dios::pool::model::{DrainReport, DrainSource, PoolModel};
use dios::pool::retention::RetainRefusedReason;
use dios::pool::SECTOR_BYTES;

fn model(frames: u32) -> PoolModel {
    let mut ids = ArenaIds::new();
    PoolModel::new(&mut ids, frames)
}

fn retaining(frames: u32, budget: u32) -> PoolModel {
    let mut ids = ArenaIds::new();
    PoolModel::with_retention(&mut ids, frames, budget)
}

fn reading_ahead(frames: u32, capacity: u32) -> PoolModel {
    let mut ids = ArenaIds::new();
    PoolModel::with_readahead(&mut ids, frames, capacity)
}

fn filled(byte: u8) -> Vec<u8> {
    vec![byte; SECTOR_BYTES as usize]
}

#[test]
fn a_fresh_model_is_free_and_quiescent() {
    let model = model(3);
    for frame in 0..3 {
        assert!(model.frame_is_free(frame));
        assert!(!model.frame_is_evicting(frame));
    }
    assert!(model.reader_is_quiescent());
    assert_eq!(model.locked_get_checks(), 0);
    assert_eq!(model.resident_lease_count(), 0);
}

#[test]
fn a_guard_holds_its_generation_across_eviction_and_refill() {
    let mut model = model(2);
    model.make_resident(7, 3);
    let guard = model.pin(7).expect("mapped");
    assert!(!model.reader_is_quiescent());
    assert_eq!(guard.generation(&model), 3);
    model.evict(7);
    for _ in 0..4 {
        let report = model.poll_pass(8, 9);
        assert_eq!(
            report,
            DrainReport { released: 0, matured: 0, matured_freed: 0, first: None }
        );
        assert_eq!(guard.generation(&model), 3);
        assert!(model.frame_is_evicting(0));
    }
    assert!(model.pin_reader(1, 7).is_none());
    model.drop_guard(guard);
    assert!(model.reader_is_quiescent());
    let first = model.poll_pass(8, 9);
    assert_eq!(first.matured_freed, 1);
    assert_eq!(first.first, Some(DrainSource::Matured));
    let seen = model.probe(8).expect("refilled");
    assert_eq!((seen.frame(), seen.generation()), (0, 9));
}

#[test]
fn an_eviction_matures_after_two_advances() {
    let mut model = model(1);
    model.make_resident(1, 1);
    model.evict(1);
    assert_eq!(model.advance_epoch_only(), 1);
    assert!(model.frame_is_evicting(0));
    let report = model.drain_matured_only();
    assert_eq!(
        report,
        DrainReport {
            released: 0,
            matured: 1,
            matured_freed: 1,
            first: Some(DrainSource::Matured),
        }
    );
    assert!(model.frame_is_free(0));
    assert_eq!(model.drain_driver().matured, 0);
}

#[test]
fn a_nested_pin_takes_the_held_frame_and_its_drop_leaves_the_outer_one() {
    let mut model = model(1);
    model.make_resident(4, 6);
    let outer = model.pin(4).expect("mapped");
    model.evict(4);
    let inner = model.pin(4).expect("the held frame is pinned again");
    assert_eq!(inner.generation(&model), 6);
    model.drop_guard(inner);
    assert!(!model.reader_is_quiescent());
    for _ in 0..3 {
        model.drain_driver();
    }
    assert!(model.frame_is_evicting(0));
    assert_eq!(outer.generation(&model), 6);
    model.drop_guard(outer);
    assert!(model.reader_is_quiescent());
    model.drain_driver();
    model.drain_driver();
    assert!(model.frame_is_free(0));
}

#[test]
fn a_remap_couples_frame_and_generation() {
    let mut model = model(2);
    model.make_resident(5, 10);
    let before = model.probe(5).expect("mapped");
    assert_eq!((before.frame(), before.generation()), (0, 10));
    model.remap(5, 11);
    let after = model.probe(5).expect("mapped");
    assert_eq!((after.frame(), after.generation()), (1, 11));
    assert!(model.probe(6).is_none());
}

#[test]
fn a_retained_frame_is_held_until_its_last_handle_is_dropped() {
    let mut model = retaining(2, 1);
    model.make_resident_in_frame(1, 3, 8);
    let guard = model.pin(3).expect("mapped");
    let handle = guard.into_retained(&mut model).expect("within the budget");
    assert!(model.reader_is_quiescent());
    model.evict(3);
    model.advance_epoch_only();
    let held = model.drain_driver();
    assert_eq!(
        held,
        DrainReport {
            released: 0,
            matured: 1,
            matured_freed: 0,
            first: Some(DrainSource::Matured),
        }
    );
    assert!(model.frame_is_evicting(1));
    assert_eq!(model.drain_releases_only(), 0);
    model.drop_retained(handle);
    let released = model.drain_driver();
    assert_eq!(released.released, 1);
    assert_eq!(released.first, Some(DrainSource::Release));
    assert!(model.frame_is_free(1));
}

#[test]
fn releases_drain_alone() {
    let mut model = retaining(1, 1);
    model.make_resident(3, 8);
    let guard = model.pin(3).expect("mapped");
    let handle = guard.into_retained(&mut model).expect("within the budget");
    model.evict(3);
    model.advance_epoch_only();
    let _ = model.drain_matured_only();
    model.drop_retained(handle);
    assert_eq!(model.drain_releases_only(), 1);
    assert_eq!(model.drain_releases_only(), 0);
    assert!(model.frame_is_free(0));
}

#[test]
fn retention_is_refused_over_budget_and_for_a_retiring_file() {
    let mut over = retaining(2, 1);
    over.make_resident_in_frame(0, 1, 1);
    over.make_resident_in_frame(1, 2, 2);
    let first = over.pin_reader(0, 1).expect("mapped");
    let kept = first.into_retained(&mut over).expect("within the budget");
    let second = over.pin_reader(1, 2).expect("mapped");
    match second.into_retained(&mut over) {
        Err(refused) => assert_eq!(refused.reason, RetainRefusedReason::Exhausted),
        Ok(_) => panic!("the budget is spent"),
    }
    over.drop_retained(kept);

    let mut retiring = retaining(1, 1);
    retiring.make_resident(1, 1);
    let guard = retiring.pin(1).expect("mapped");
    retiring.begin_model_file_retirement();
    match guard.into_retained(&mut retiring) {
        Err(refused) => assert_eq!(refused.reason, RetainRefusedReason::FileRetiring),
        Ok(_) => panic!("the file retires"),
    }
}

#[test]
fn a_get_serves_the_live_generation_only() {
    let mut model = model(1);
    assert!(model.get_file(4, 9).is_none());
    assert_eq!(model.locked_get_checks(), 0);
    model.make_file_resident(4, 9, 21);
    let guard = model.get_file(4, 9).expect("live and mapped");
    assert_eq!(guard.generation(&model), 21);
    model.drop_guard(guard);
    assert!(model.get_file(3, 9).is_none());
    assert_eq!(model.locked_get_checks(), 0);
    assert!(model.get_file(4, 8).is_none());
    assert_eq!(model.locked_get_checks(), 1);
}

#[test]
fn a_retired_generation_is_replaced_once_its_frame_is_free() {
    let mut model = model(1);
    model.make_file_resident(1, 0, 5);
    model.retire_file(1, 0);
    assert!(model.get_file(1, 0).is_none());
    assert_eq!(model.poll_reopen(2, 0, 6).matured_freed, 0);
    assert!(model.get_file(2, 0).is_none());
    assert_eq!(model.poll_reopen(2, 0, 6).matured_freed, 1);
    let guard = model.get_file(2, 0).expect("reopened");
    assert_eq!(guard.generation(&model), 6);
    assert!(model.get_file(1, 0).is_none());
    model.drop_guard(guard);
}

#[test]
fn a_lease_holds_retirement_back() {
    let mut model = model(1);
    assert!(matches!(model.lease_file(7), Err(ResidentLeaseError::StaleFile { .. })));
    model.make_file_resident(7, 0, 1);
    let lease = model.lease_file(7).expect("live");
    assert_eq!(model.resident_lease_count(), 1);
    model.retire_file(7, 0);
    model.poll_reopen(8, 0, 2);
    model.poll_reopen(8, 0, 2);
    model.poll_reopen(8, 0, 2);
    assert!(!model.frame_is_evicting(0));
    assert!(matches!(model.lease_file(7), Err(ResidentLeaseError::StaleFile { .. })));
    model.release_lease(lease);
    assert_eq!(model.resident_lease_count(), 0);
    model.poll_reopen(8, 0, 2);
    assert!(model.frame_is_evicting(0));
    model.poll_reopen(8, 0, 2);
    let guard = model.get_file(8, 0).expect("reopened");
    assert_eq!(guard.generation(&model), 2);
    model.drop_guard(guard);
}

#[test]
fn a_file_pass_replaces_an_older_generation() {
    let mut model = model(1);
    model.make_file_resident(1, 3, 5);
    model.evict_file(1, 3);
    model.poll_file_pass(2, 3, 6);
    model.poll_file_pass(2, 3, 6);
    assert!(model.get_file(1, 3).is_none());
    let guard = model.get_file(2, 3).expect("the new generation is live");
    assert_eq!(guard.generation(&model), 6);
    model.drop_guard(guard);
}

#[test]
fn a_stale_hint_changes_nothing() {
    let mut model = model(1);
    assert!(model.resident_hint(1, 0).is_none());
    model.make_file_resident(1, 0, 5);
    let hint = model.resident_hint(1, 0).expect("resident");
    let guard = model.get_with_hint(1, 0, Some(hint)).expect("the hint holds");
    assert_eq!(guard.generation(&model), 5);
    model.drop_guard(guard);
    model.evict_file(1, 0);
    assert!(model.get_with_hint(1, 0, Some(hint)).is_none());
    assert_eq!(model.locked_get_checks(), 1);
    assert!(model.get_with_hint(1, 0, None).is_none());
    assert_eq!(model.locked_get_checks(), 2);
    assert!(model.get_with_hint(2, 0, Some(hint)).is_none());
    assert_eq!(model.locked_get_checks(), 2);
}

#[test]
fn a_span_lands_page_by_page() {
    let mut model = reading_ahead(4, 4);
    let token = model.admit_span(10, &[1, 2, 3]);
    assert_eq!(model.span_operation_slot(token), 0);
    assert_eq!(model.read_credits_used(), 3);
    assert_eq!(model.readahead_stats().occupied, 3);
    assert!(model.probe(10).is_none());
    model.complete_span(token, SECTOR_BYTES / 2);
    assert!(model.probe(10).is_none());
    assert_eq!(model.read_credits_used(), 3);
    model.complete_span(token, SECTOR_BYTES);
    assert_eq!(model.read_credits_used(), 2);
    let first = model.probe(10).expect("landed");
    assert_eq!((first.frame(), first.generation()), (0, 1));
    assert_eq!(model.consume_readahead(1, 10), filled(1));
    assert!(model.probe(11).is_none());
    model.complete_span(token, SECTOR_BYTES + SECTOR_BYTES / 2);
    assert_eq!(model.read_credits_used(), 0);
    assert_eq!(model.consume_readahead(0, 11), filled(2));
    assert_eq!(model.consume_readahead(0, 12), filled(3));
}

#[test]
fn a_finished_span_frees_its_route_under_a_new_token() {
    let mut model = reading_ahead(4, 4);
    let first = model.admit_span(0, &[1, 2]);
    model.complete_span(first, 2 * SECTOR_BYTES);
    let second = model.admit_span(2, &[3, 4]);
    assert_ne!(first, second);
    assert_eq!(model.span_operation_slot(second), 0);
    model.complete_span(second, 2 * SECTOR_BYTES);
    for (page, byte) in [(0, 1), (1, 2), (2, 3), (3, 4)] {
        assert_eq!(model.probe(page).expect("landed").generation(), byte);
    }
}

#[test]
fn a_joined_page_is_read_once_its_miss_succeeds() {
    let mut model = reading_ahead(2, 2);
    let token = model.admit_span(5, &[8, 9]);
    let joined = model.join_span_page(6);
    assert_eq!(model.readahead_stats().occupied, 1);
    assert_eq!(model.readahead_stats().demand_promoted, 1);
    assert!(model.joined_span_bytes(&joined).is_none());
    model.complete_span(token, SECTOR_BYTES);
    assert!(model.joined_span_bytes(&joined).is_none());
    model.complete_span(token, SECTOR_BYTES);
    assert_eq!(model.joined_span_bytes(&joined), Some(filled(9)));
    model.drop_joined(joined);
    let resident = model.join_span_page(5);
    assert_eq!(model.joined_span_bytes(&resident), Some(filled(8)));
    model.drop_joined(resident);
}

#[test]
fn a_consumed_prediction_returns_its_credit() {
    let mut model = reading_ahead(2, 2);
    let token = model.admit_span(0, &[4, 5]);
    model.complete_span(token, 2 * SECTOR_BYTES);
    assert_eq!(model.readahead_stats().occupied, 2);
    assert_eq!(model.consume_readahead(1, 1), filled(5));
    assert_eq!(model.reconcile_readahead(), 3);
    assert_eq!(model.reconcile_readahead(), 0);
    let stats = model.readahead_stats();
    assert_eq!((stats.occupied, stats.demand_promoted, stats.admitted), (1, 1, 2));
    assert_eq!(stats.capacity, 2);
}

#[test]
fn a_prediction_takes_the_next_page_of_its_stream() {
    let mut model = reading_ahead(2, 2);
    assert_eq!(model.next_readahead_page(0), None);
    model.observe_readahead(0, 20);
    model.observe_readahead(0, 21);
    model.observe_readahead(0, 22);
    assert_eq!(model.next_readahead_page(0), Some(23));
    assert_eq!(model.next_readahead_page(1), None);
    model.make_speculative_resident(0, 1, 23, 7);
    assert_eq!(model.next_readahead_page(0), Some(24));
    assert_eq!(model.readahead_stats().automatic_admitted, 1);
    assert_eq!(model.consume_readahead(0, 23), filled(7));
    model.reconcile_readahead();
    assert_eq!(model.readahead_stats().occupied, 0);
    model.make_speculative_resident(0, 1, 24, 8);
    assert!(model.probe(23).is_none());
    let seen = model.probe(24).expect("the frame was reused");
    assert_eq!((seen.frame(), seen.generation()), (1, 8));
}
