use vstd::prelude::*;
use crate::fixed_page::FixedPage;
use crate::prelude::{PAGE_SIZE, PAGE_SLOT_LIMIT};

verus! {

/// One in-memory slot of the buffer pool: a page and the count of guards
/// handed out for it.
pub struct BufferFrame {
    /// The page this frame holds.
    pub page: FixedPage,
    /// The index of this frame in the pool.
    pub frame_id: usize,
    /// How many guards on this frame are outstanding (wrapping at 256).
    pub pin_count: u8,
}

/// A handle on a pinned frame, naming the frame by its index. Give it back
/// to the pool with `BufferPool::release_page` to unpin the frame.
#[derive(Debug)]
pub struct FrameGuard {
    pub frame_id: usize,
}

impl BufferFrame {
    /// A frame with an unconfigured page and no pins.
    pub fn new(frame_id: usize) -> (r: BufferFrame)
        ensures
            r.page.wf(),
            r.page@ == Seq::new(PAGE_SLOT_LIMIT as nat, |i: int| Some((Seq::<u8>::empty(), Seq::<u8>::empty()))),
            r.page.slot_capacity == PAGE_SLOT_LIMIT,
            r.page.p_id == 0,
            r.page.key_size == 0,
            r.page.value_size == 0,
            r.page.pair_size == 0,
            r.page.data@ == Seq::new(PAGE_SIZE as nat, |i: int| 0u8),
            r.page.page_pointer is None,
            r.page.overflow_pointer is None,
            !r.page.is_leaf,
            r.page.extra == 0,
            r.frame_id == frame_id,
            r.pin_count == 0,
    {
        BufferFrame { page: FixedPage::empty(), frame_id, pin_count: 0 }
    }

    /// Pins the frame and returns a guard on it.
    pub fn read(&mut self) -> (r: FrameGuard)
        ensures
            r.frame_id == old(self).frame_id,
            final(self).pin_count == old(self).pin_count.wrapping_add(1),
            final(self).page == old(self).page,
            final(self).frame_id == old(self).frame_id,
    {
        self.pin_count = self.pin_count.wrapping_add(1);
        FrameGuard { frame_id: self.frame_id }
    }

    /// Unpins the frame once.
    pub fn unpin(&mut self)
        ensures
            final(self).pin_count == old(self).pin_count.wrapping_sub(1),
            final(self).page == old(self).page,
            final(self).frame_id == old(self).frame_id,
    {
        self.pin_count = self.pin_count.wrapping_sub(1);
    }
}

} // verus!
