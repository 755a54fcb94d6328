//! Page and record identifiers, and the bookkeeping kept for a page held in
//! the buffer pool.

use vstd::prelude::*;

verus! {

/// A page: the index of its file and its index within that file.
#[derive(Debug, PartialEq, Eq, Copy, Clone, Structural)]
pub struct PageId {
    pub file_idx: u32,
    pub page_idx: u32,
}

impl PageId {
    pub fn new(fidx: u32, pidx: u32) -> (p: PageId)
        ensures
            p.file_idx == fidx,
            p.page_idx == pidx,
    {
        PageId { file_idx: fidx, page_idx: pidx }
    }

    pub fn get_file_idx(&self) -> (r: u32)
        ensures
            r == self.file_idx,
    {
        self.file_idx
    }

    pub fn get_page_idx(&self) -> (r: u32)
        ensures
            r == self.page_idx,
    {
        self.page_idx
    }
}

/// A record: the page that holds it and its slot there.
#[derive(Debug, Clone, Copy)]
pub struct RecordId {
    pub page_id: PageId,
    pub slot_idx: usize,
}

impl RecordId {
    pub fn new(page_id: PageId, slot_idx: usize) -> (r: RecordId)
        ensures
            r.page_id == page_id,
            r.slot_idx == slot_idx,
    {
        RecordId { page_id, slot_idx }
    }

    pub fn get_page_id(&self) -> (r: &PageId)
        ensures
            *r == self.page_id,
    {
        &self.page_id
    }

    pub fn get_slot_idx(&self) -> (r: &usize)
        ensures
            *r == self.slot_idx,
    {
        &self.slot_idx
    }
}

/// What the buffer pool knows of a page it holds: how many users have it
/// pinned, whether it was modified, and when it was last used.
#[derive(Debug, Clone, Copy)]
pub struct PageInfo {
    pub page_id: PageId,
    pub pin_count: u32,
    pub dirty_bit: bool,
    pub time: u32,
}

impl PageInfo {
    pub fn new(page_id: PageId, pin_count: u32, dirty_bit: bool, time: u32) -> (p: PageInfo)
        ensures
            p.page_id == page_id,
            p.pin_count == pin_count,
            p.dirty_bit == dirty_bit,
            p.time == time,
    {
        PageInfo { page_id, pin_count, dirty_bit, time }
    }

    /// The page this information is about.
    pub fn page(&self) -> (r: PageId)
        ensures
            r == self.page_id,
    {
        self.page_id
    }

    /// The file index of the page.
    pub fn get_file_id(&self) -> (r: u32)
        ensures
            r == self.page_id.file_idx,
    {
        self.page_id.get_file_idx()
    }

    /// The index of the page within its file.
    pub fn get_page_id(&self) -> (r: u32)
        ensures
            r == self.page_id.page_idx,
    {
        self.page_id.get_page_idx()
    }

    pub fn get_pin_count(&self) -> (r: u32)
        ensures
            r == self.pin_count,
    {
        self.pin_count
    }

    pub fn get_dirty(&self) -> (r: bool)
        ensures
            r == self.dirty_bit,
    {
        self.dirty_bit
    }

    pub fn get_time(&self) -> (r: u32)
        ensures
            r == self.time,
    {
        self.time
    }

    pub fn set_pin_count(&mut self, pin_count: u32)
        ensures
            *final(self) == (PageInfo { pin_count, ..*old(self) }),
    {
        self.pin_count = pin_count;
    }

    pub fn set_dirty_bit(&mut self, dirty_bit: bool)
        ensures
            *final(self) == (PageInfo { dirty_bit, ..*old(self) }),
    {
        self.dirty_bit = dirty_bit;
    }

    pub fn set_time(&mut self, time: u32)
        ensures
            *final(self) == (PageInfo { time, ..*old(self) }),
    {
        self.time = time;
    }
}

} // verus!
