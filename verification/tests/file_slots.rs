use dios::driver::FileId;
use dios::pool::file_slots::{FileSlot, FileSlots, SlotLink};
use dios::pool::frame_pages::{FrameFileSlot, FramePages};
use dios::pool::frames::{ArenaIds, FrameState, Frames, ReadFrameIdx};
use dios::pool::PageId;

fn members(slots: &FileSlots<PageId>, file: FileId) -> Vec<(usize, PageId)> {
    let mut values: Vec<_> = slots
        .for_file(file)
        .into_iter()
        .filter(|(_, page)| page.file() == file)
        .collect();
    values.sort_by_key(|(index, _)| *index);
    values
}

#[test]
fn links_fit_the_existing_page_flag_and_padding() {
    assert_eq!(
        std::mem::size_of::<FileSlot<PageId>>(),
        std::mem::size_of::<Option<PageId>>()
    );
    assert_eq!(std::mem::size_of::<SlotLink>(), 4);
    assert_eq!(
        SlotLink::from_index(u32::MAX as usize - 1).index(),
        Some(u32::MAX as usize - 1)
    );
}

#[test]
fn sparse_membership_unlinks_head_middle_tail_and_reuses_slots() {
    let mut slots = FileSlots::try_new(32, 2).expect("slots");
    let first = FileId::new(1, 0, 1);
    let second = FileId::new(1, 1, 1);
    for index in [27, 4, 19] {
        slots.insert(index, PageId::new(first, 0));
    }
    slots.insert(11, PageId::new(second, 3));
    slots.remove(4);
    slots.remove(19);
    slots.remove(27);
    assert!(members(&slots, first).is_empty());
    assert_eq!(members(&slots, second), [(11, PageId::new(second, 3))]);
    slots.insert(4, PageId::new(second, 4));
    slots.remove(11);
    assert_eq!(members(&slots, second), [(4, PageId::new(second, 4))]);
}

#[test]
fn reference_model_covers_reuse_and_overlapping_terminal_generations() {
    let mut slots = FileSlots::try_new(37, 3).expect("slots");
    let mut model = [None; 37];
    let files = [
        FileId::new(1, 0, 1),
        FileId::new(1, 1, 1),
        FileId::new(1, 2, 1),
        FileId::new(1, 0, 2),
    ];
    let mut random = 731_u32;
    for step in 0..512 {
        random = random.wrapping_mul(1_664_525).wrapping_add(1_013_904_223);
        let index = random as usize % model.len();
        if model[index].take().is_some() {
            slots.remove(index);
        }
        if random & 4 != 0 {
            let value = PageId::new(files[(random >> 12) as usize % files.len()], step);
            slots.insert(index, value);
            model[index] = Some(value);
        }
        for file in files {
            let expected: Vec<_> = model
                .iter()
                .enumerate()
                .filter_map(|(index, page)| {
                    page.filter(|page: &PageId| page.file() == file)
                        .map(|page| (index, page))
                })
                .collect();
            assert_eq!(members(&slots, file), expected);
        }
    }
}

#[test]
fn members_come_newest_first_and_a_write_in_place_keeps_their_order() {
    let mut slots = FileSlots::new(4, 1);
    let file = FileId::new(1, 0, 1);
    slots.insert(0, PageId::new(file, 10));
    slots.insert(2, PageId::new(file, 12));
    slots.set(0, PageId::new(file, 99));
    assert_eq!(
        slots.owned_by(0),
        [(2, PageId::new(file, 12)), (0, PageId::new(file, 99))]
    );
    assert_eq!(slots.get(1), None);
    assert!(slots.is_none(3));
    assert_eq!(slots.len(), 4);
}

fn publish(frames: &mut Frames, index: &mut FramePages, frame: u32, page: PageId) {
    let frame = ReadFrameIdx::new(frame);
    let token = frames.claim(frame, page).expect("a Free frame claims");
    frames.publish(token);
    index.insert(frame.get() as usize, FrameFileSlot::for_page(page));
}

fn pages_for_file(frames: &mut Frames, index: &FramePages, file: FileId) -> Vec<PageId> {
    index
        .for_file(file)
        .into_iter()
        .map(|(frame, _)| {
            frames.exact_page(ReadFrameIdx::new(
                u32::try_from(frame).expect("frame index"),
            ))
        })
        .filter(|page| page.file() == file)
        .collect()
}

#[test]
fn canonical_identity_survives_eviction_until_unlink_and_reuse() {
    let mut frames = Frames::preallocated(&mut ArenaIds::new(), 4, 4096);
    let mut index = FramePages::try_new(4, 2).expect("membership");
    let old_file = FileId::new(u64::MAX, 1, u32::MAX);
    let old = PageId::new(old_file, u32::MAX);
    assert!(pages_for_file(&mut frames, &index, old_file).is_empty());
    publish(&mut frames, &mut index, 3, old);
    let frame = ReadFrameIdx::new(3);
    frames.advance(frame, FrameState::Evicting);
    assert_eq!(pages_for_file(&mut frames, &index, old_file), [old]);
    frames.advance(frame, FrameState::Free);
    index.remove(3);
    assert!(pages_for_file(&mut frames, &index, old_file).is_empty());
    let new_file = FileId::new(0, 1, 0);
    let new = PageId::new(new_file, 0);
    publish(&mut frames, &mut index, 3, new);
    assert_eq!(pages_for_file(&mut frames, &index, new_file), [new]);
    assert!(pages_for_file(&mut frames, &index, old_file).is_empty());
}

#[test]
fn canonical_identity_distinguishes_drivers_and_generations_sharing_a_slot() {
    let mut frames = Frames::preallocated(&mut ArenaIds::new(), 4, 4096);
    let mut index = FramePages::try_new(4, 1).expect("membership");
    let files = [
        FileId::new(0, 0, 1),
        FileId::new(0, 0, 2),
        FileId::new(u64::MAX, 0, 1),
    ];
    for (frame, file) in files.into_iter().enumerate() {
        publish(
            &mut frames,
            &mut index,
            u32::try_from(frame).expect("frame index"),
            PageId::new(file, 7),
        );
    }
    for file in files {
        assert_eq!(
            pages_for_file(&mut frames, &index, file),
            [PageId::new(file, 7)]
        );
    }
}

#[test]
fn mapped_frame_record_fits_twenty_bytes() {
    assert!(
        std::mem::size_of::<FileSlot<FrameFileSlot>>() <= 20,
        "per-frame metadata must leave room below the measured RSS cap"
    );
    assert_eq!(std::mem::size_of::<FileSlot<FrameFileSlot>>(), 12);
}
