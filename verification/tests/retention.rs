use dios::pool::frames::ReadFrameIdx;
use dios::pool::release_ring::ReleaseRing;
use dios::pool::retention::{RetainRefusedReason, Retention, COUNT_MASK};
use dios::product::WaitState;

#[test]
fn release_ring_pops_frames_in_ticket_order() {
    let mut ring = ReleaseRing::preallocated(2);
    let mut cursor = 0;
    ring.push(7);
    ring.push(3);
    assert_eq!(ring.pop(&mut cursor), Some(7));
    assert_eq!(ring.pop(&mut cursor), Some(3));
    assert_eq!(ring.pop(&mut cursor), None);
}

#[test]
fn release_ring_stops_at_an_unpublished_ticket() {
    let mut ring = ReleaseRing::preallocated(2);
    let mut cursor = 0;
    let _ticket = ring.claim_ticket();
    assert_eq!(ring.pop(&mut cursor), None);
    assert_eq!(cursor, 0);
}

#[test]
fn release_ring_reuses_a_slot_only_after_consumer_turnover() {
    let mut ring = ReleaseRing::preallocated(2);
    let mut cursor = 0;
    ring.push(1);
    ring.push(2);
    assert_eq!(ring.pop(&mut cursor), Some(1));
    ring.push(3);
    assert_eq!(ring.pop(&mut cursor), Some(2));
    assert_eq!(ring.pop(&mut cursor), Some(3));
}

#[test]
fn promotion_at_count_ceiling_is_exhausted_without_mutation() {
    let mut retention = Retention::preallocated(1, 1, 1, 1);
    let frame = ReadFrameIdx::new(0);
    for _ in 0..COUNT_MASK {
        assert_eq!(retention.promote(frame, 0), Ok(()));
    }
    let word_before = retention.observe(frame);
    assert_eq!(word_before, COUNT_MASK);
    let budget_before = retention.retention_stats().occupied_budget;

    assert_eq!(
        retention.promote(frame, 0),
        Err(RetainRefusedReason::Exhausted)
    );
    let stats = retention.retention_stats();
    assert_eq!(retention.observe(frame), word_before);
    assert_eq!(stats.occupied_budget, budget_before);
    assert_eq!(
        (
            stats.refused_budget,
            stats.refused_ceiling,
            stats.refused_contention,
            stats.refused_retiring,
            stats.retained_evictions_held,
        ),
        (0, 1, 0, 0, 0)
    );
}

#[test]
fn bounded_same_frame_refusal_is_attributed_only_to_contention() {
    let mut wait = WaitState::default();
    let mut retention = Retention::preallocated(1, 1, 1, 1);
    let frame = ReadFrameIdx::new(0);
    assert!(retention.promote(frame, 0).is_ok());
    let before = retention.retention_stats();
    // Each of the two attempts saw the word before another promotion won.
    assert!(retention.promote(frame, 0).is_ok());
    assert!(retention.promote(frame, 0).is_ok());
    let refused = retention.promote_racing(frame, 0, &vec![1, 2]);
    let after = retention.retention_stats();
    for _ in 0..3 {
        retention.release(frame, &mut wait);
    }
    assert_eq!(refused, Err(RetainRefusedReason::Exhausted));
    assert_eq!(after.occupied_budget, before.occupied_budget);
    assert_eq!(after.refused_budget, before.refused_budget);
    assert_eq!(after.refused_ceiling, before.refused_ceiling);
    assert_eq!(after.refused_contention, before.refused_contention + 1);
    assert_eq!(after.refused_retiring, before.refused_retiring);
    let held_delta = after.retained_evictions_held - before.retained_evictions_held;
    assert_eq!(held_delta, 0);
    assert_eq!(retention.retention_stats().occupied_budget, 0);
}

#[test]
fn a_full_budget_refuses_another_frame_and_a_retiring_file_refuses_any() {
    let mut retention = Retention::preallocated(2, 1, 1, 1);
    assert!(!retention.has_occupied_budget());
    assert_eq!(retention.promote(ReadFrameIdx::new(0), 0), Ok(()));
    assert!(retention.has_occupied_budget());
    assert_eq!(
        retention.promote(ReadFrameIdx::new(1), 0),
        Err(RetainRefusedReason::Exhausted)
    );
    assert_eq!(retention.retention_stats().refused_budget, 1);
    retention.mark_file_retiring(0);
    assert_eq!(
        retention.promote(ReadFrameIdx::new(0), 0),
        Err(RetainRefusedReason::FileRetiring)
    );
    assert_eq!(retention.retention_stats().refused_retiring, 1);
    assert_eq!(retention.retention_stats().occupied_budget, 1);
    retention.clear_file_retiring(0);
    assert_eq!(retention.promote(ReadFrameIdx::new(0), 0), Ok(()));
}
