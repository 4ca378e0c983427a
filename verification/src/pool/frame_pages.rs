//! Which frames hold pages of a file slot. Membership keeps only ownership: the
//! frame arena already stores the complete page identity.

use crate::driver::FileId;
use crate::pool::file_slots::{FileOwned, FileSlots};
use crate::pool::PageId;
use vstd::prelude::*;

verus! {

/// The file slot that owns the page in a frame.
#[derive(Clone, Copy, Debug, PartialEq, Eq, Structural)]
pub struct FrameFileSlot(pub u32);

impl FrameFileSlot {
    pub fn for_page(page: PageId) -> (slot: Self)
        ensures
            slot.0 == page.file.slot,
    {
        FrameFileSlot(page.file().slot())
    }
}

impl FileOwned for FrameFileSlot {
    open spec fn owner(self) -> u32 {
        self.0
    }

    fn file_slot(self) -> (slot: u32) {
        self.0
    }

    fn blank() -> (value: Self) {
        FrameFileSlot(0)
    }
}

impl FileOwned for PageId {
    open spec fn owner(self) -> u32 {
        self.file.slot
    }

    fn file_slot(self) -> (slot: u32) {
        self.file().slot()
    }

    fn blank() -> (value: Self) {
        PageId::new(FileId::new(0, 0, 0), 0)
    }
}

/// Frames by owning file slot.
pub type FramePages = FileSlots<FrameFileSlot>;

} // verus!
