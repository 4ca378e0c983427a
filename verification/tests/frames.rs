use dios::driver::FileId;
use dios::pool::frames::{
    arena_alignment, ArenaIds, FrameState, Frames, FreeFrames, InFlightFrame, ReadFrameIdx,
};
use dios::pool::{PageId, SECTOR_BYTES};

fn arena(count: u32) -> Frames {
    Frames::preallocated(&mut ArenaIds::new(), count, SECTOR_BYTES)
}

fn page(granule: u32) -> PageId {
    PageId::new(FileId::new(7, 3, 1), granule)
}

#[test]
fn a_small_arena_still_honors_a_granule_above_the_sector_floor() {
    assert_eq!(
        arena_alignment(true, 8192, 8192),
        8192,
        "each frame base must satisfy a direct device whose alignment exceeds 4096 bytes"
    );
}

#[test]
fn a_large_arena_is_aligned_to_huge_pages_where_the_host_has_them() {
    assert_eq!(arena_alignment(true, 4 << 20, 4096), 2 << 20);
    assert_eq!(arena_alignment(false, 4 << 20, 4096), 4096);
    assert_eq!(arena_alignment(true, 8 << 20, 4 << 20), 4 << 20);
}

#[test]
fn claims_start_at_frame_zero_and_freed_frames_return_last_in_first_out() {
    let mut free = FreeFrames::try_with_all(4).expect("allocation");
    assert_eq!(free.len(), 4);
    assert_eq!(free.pop(), Some(ReadFrameIdx::new(0)));
    assert_eq!(free.pop(), Some(ReadFrameIdx::new(1)));
    free.push(ReadFrameIdx::new(0));
    assert_eq!(free.pop(), Some(ReadFrameIdx::new(0)));
    assert_eq!(free.pop(), Some(ReadFrameIdx::new(2)));
    assert_eq!(free.pop(), Some(ReadFrameIdx::new(3)));
    assert_eq!(free.pop(), None);
    assert_eq!(free.len(), 0);
}

#[test]
fn a_second_claim_of_the_same_frame_is_refused() {
    let mut frames = arena(2);
    let frame = ReadFrameIdx::new(1);
    let token = frames.claim(frame, page(0)).expect("a Free frame claims");
    assert!(frames.claim(frame, page(0)).is_none());
    assert_eq!(frames.state(frame), FrameState::InFlight);
    assert_eq!(frames.abort(token), frame);
    assert_eq!(frames.state(frame), FrameState::Free);
    assert!(frames.claim(frame, page(0)).is_some());
}

#[test]
fn publish_bumps_the_generation_and_abort_keeps_it() {
    let mut frames = arena(1);
    let frame = ReadFrameIdx::new(0);
    let generation = |frames: &Frames| frames.state_word(frame) >> 2;
    let initial = generation(&frames);
    let token = frames.claim(frame, page(4)).expect("claim");
    assert_eq!(generation(&frames), initial);
    frames.abort(token);
    assert_eq!(generation(&frames), initial);
    let token = frames.claim(frame, page(4)).expect("claim");
    assert_eq!(frames.publish(token), frame);
    assert_eq!(frames.state(frame), FrameState::Resident);
    assert_eq!(generation(&frames), initial + 1);
}

#[test]
fn the_identity_written_at_claim_is_the_published_identity() {
    let mut frames = arena(1);
    let frame = ReadFrameIdx::new(0);
    let token = frames.claim(frame, page(9)).expect("claim");
    frames.fill(&token, 0x5A);
    frames.transfer(&token, 8, &[0xC3; 4]);
    let stamp = frames.state_word(frame);
    frames.publish(token);
    let bytes = frames.frame_bytes(frame);
    assert_eq!(
        &bytes[..12],
        &[0x5A; 8]
            .iter()
            .chain(&[0xC3; 4])
            .copied()
            .collect::<Vec<_>>()[..]
    );
    assert_ne!(stamp, frames.state_word(frame));
    assert_eq!(frames.exact_page(frame), page(9));
}

#[test]
fn an_unidentified_claim_takes_the_frame_in_flight_without_a_page() {
    let mut frames = arena(1);
    let frame = ReadFrameIdx::new(0);
    let token = frames
        .claim_unidentified(frame)
        .expect("a Free frame claims");
    assert_eq!(frames.state(frame), FrameState::InFlight);
    assert!(frames.claim_unidentified(frame).is_none());
    assert_eq!(frames.abort(token), frame);
    assert_eq!(frames.state(frame), FrameState::Free);
}

struct Probe<T>(std::marker::PhantomData<T>);

impl<T: Clone> Probe<T> {
    const CLONES: bool = true;
}

trait Unclonable {
    const CLONES: bool = false;
}

impl<T> Unclonable for Probe<T> {}

#[test]
fn a_write_token_cannot_be_cloned() {
    assert!(Probe::<u32>::CLONES);
    assert!(!Probe::<InFlightFrame>::CLONES);
}

#[test]
fn a_write_token_is_affine() {
    assert_eq!(std::mem::size_of::<InFlightFrame>(), 8);
}

#[test]
fn a_stamp_validates_until_the_frame_is_reclaimed() {
    let mut frames = arena(1);
    let frame = ReadFrameIdx::new(0);
    let token = frames.claim(frame, page(2)).expect("claim");
    frames.publish(token);
    let stamp = frames.state_word(frame);
    assert_eq!(frames.validate_resident(frame, stamp), Some(page(2)));
    frames.advance(frame, FrameState::Evicting);
    assert_eq!(frames.validate_resident(frame, stamp), None);
    frames.advance(frame, FrameState::Free);
    let token = frames.claim(frame, page(2)).expect("claim");
    frames.publish(token);
    assert_eq!(frames.validate_resident(frame, stamp), None);
}

#[test]
fn an_arena_past_the_address_space_is_refused() {
    assert!(Frames::try_preallocated(&mut ArenaIds::new(), 1, SECTOR_BYTES).is_some());
}

#[test]
fn populated_frames_are_zero() {
    let mut frames = arena(3);
    frames.populate();
    for index in 0..3 {
        let bytes = frames.frame_bytes(ReadFrameIdx::new(index));
        assert_eq!(bytes, vec![0; SECTOR_BYTES as usize].as_slice());
    }
}
