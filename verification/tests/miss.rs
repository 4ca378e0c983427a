use dios::driver::{FileId, OpToken};
use dios::pool::frames::ReadFrameIdx;
use dios::pool::miss::{MissInterests, MissSlot, MissTable};
use dios::pool::PageId;

#[test]
fn pending_lookups_follow_admit_reslice_and_terminal_transitions() {
    let mut interests = MissInterests::with_capacity(100_000);
    let mut miss = MissTable::try_with_capacity(100_000, 2).expect("allocation");
    let file = FileId::new(1, 0, 1);
    let first_page = PageId::new(file, 7);
    let second_page = PageId::new(file, 9);
    let first_slot = MissSlot::new(60_000);
    let second_slot = MissSlot::new(70_000);
    assert_eq!(miss.find_pending(first_page), None);

    miss.install(
        first_slot,
        first_page,
        ReadFrameIdx::new(0),
        OpToken::new(0, 1),
        &mut interests,
    );
    miss.install(
        second_slot,
        second_page,
        ReadFrameIdx::new(1),
        OpToken::new(1, 1),
        &mut interests,
    );
    assert_eq!(miss.find_pending(first_page), Some(first_slot.index()));
    assert_eq!(miss.find_pending(second_page), Some(second_slot.index()));
    assert_eq!(
        miss.find_by_token(OpToken::new(1, 1)),
        Some(second_slot.index())
    );

    miss.advance_remainder(first_slot.index(), 512, OpToken::new(2, 1));
    assert_eq!(miss.find_by_token(OpToken::new(0, 1)), None);
    assert_eq!(
        miss.find_by_token(OpToken::new(2, 1)),
        Some(first_slot.index())
    );

    miss.succeed(first_slot.index());
    assert_eq!(miss.find_pending(first_page), None);
    assert_eq!(miss.find_by_token(OpToken::new(2, 1)), None);
    assert_eq!(miss.find_pending(second_page), Some(second_slot.index()));

    miss.fail(second_slot.index(), 5);
    assert_eq!(miss.find_pending(second_page), None);
    assert_eq!(miss.find_by_token(OpToken::new(1, 1)), None);
    assert_eq!(miss.pending_len(), 0);
}

#[test]
fn zero_interest_success_mapping_clears_before_another_slot_reuses_the_frame() {
    let mut interests = MissInterests::with_capacity(2);
    let mut miss = MissTable::with_capacity(2);
    let old_slot = MissSlot::new(1);
    let old_generation = miss.install(
        old_slot,
        PageId::new(FileId::new(1, 0, 1), 0),
        ReadFrameIdx::new(0),
        OpToken::new(0, 1),
        &mut interests,
    );
    miss.succeed(old_slot.index());
    assert_eq!(interests.release(old_slot, old_generation), 0);

    assert!(miss.prepare_eviction(ReadFrameIdx::new(0), &interests));

    let reused_slot = MissSlot::new(0);
    miss.install(
        reused_slot,
        PageId::new(FileId::new(1, 0, 1), 1),
        ReadFrameIdx::new(0),
        OpToken::new(1, 1),
        &mut interests,
    );
    miss.succeed(reused_slot.index());
}

#[test]
fn concurrent_exact_generation_drops_reach_zero_without_underflow() {
    let mut interests = MissInterests::with_capacity(1);
    let slot = MissSlot::new(0);
    let generation = interests.begin(slot);
    interests.join(slot, generation);

    let first = interests.release(slot, generation);
    let second = interests.release(slot, generation);

    assert_eq!(first + second, 1, "the two exact drops observe one then zero");
    assert_eq!(
        interests.waiters(slot, generation),
        Some(0),
        "the exact generation has no waiter interest after both drops"
    );
}
