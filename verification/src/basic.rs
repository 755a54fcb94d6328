//! Plain page bookkeeping: page identifiers with their file and page
//! indices, page information held as numbers (the dirty flag among them),
//! and the names of the two replacement policies.

use vstd::prelude::*;
use vstd::string::StringExecFns;

verus! {

/// A page: the index of its file and its index within that file.
#[allow(non_snake_case)]
#[derive(Debug, PartialEq, Eq, Clone, Copy, Structural)]
pub struct PageId {
    pub FileIdx: u32,
    pub PageIdx: u32,
}

#[allow(non_snake_case)]
impl PageId {
    pub fn new(fidx: u32, pidx: u32) -> (p: PageId)
        ensures
            p.FileIdx == fidx,
            p.PageIdx == pidx,
    {
        PageId { FileIdx: fidx, PageIdx: pidx }
    }

    pub fn get_FileIdx(&self) -> (r: u32)
        ensures
            r == self.FileIdx,
    {
        self.FileIdx
    }

    pub fn get_PageIdx(&self) -> (r: u32)
        ensures
            r == self.PageIdx,
    {
        self.PageIdx
    }
}

/// What is known of a page held in memory, as numbers: its file and page
/// indices, how many users have it pinned, whether it was modified (non-zero)
/// and when it was last used.
#[derive(Debug, Clone, Copy)]
pub struct PageInfo {
    pub file_id: u32,
    pub page_id: u32,
    pub pin_count: u32,
    pub dirty_bit: u32,
    pub time: u32,
}

impl PageInfo {
    pub fn new(file_id: u32, page_id: u32, pin_count: u32, dirty_bit: u32, time: u32) -> (p: PageInfo)
        ensures
            p == (PageInfo { file_id, page_id, pin_count, dirty_bit, time }),
    {
        PageInfo { file_id, page_id, pin_count, dirty_bit, time }
    }

    pub fn get_file_id(&self) -> (r: u32)
        ensures
            r == self.file_id,
    {
        self.file_id
    }

    pub fn get_page_id(&self) -> (r: u32)
        ensures
            r == self.page_id,
    {
        self.page_id
    }

    pub fn get_pin_count(&self) -> (r: u32)
        ensures
            r == self.pin_count,
    {
        self.pin_count
    }

    pub fn get_dirty(&self) -> (r: u32)
        ensures
            r == self.dirty_bit,
    {
        self.dirty_bit
    }

    pub fn get_time(&self) -> (r: u32)
        ensures
            r == self.time,
    {
        self.time
    }

    pub fn set_file_id(&mut self, file_id: u32)
        ensures
            *final(self) == (PageInfo { file_id, ..*old(self) }),
    {
        self.file_id = file_id;
    }

    pub fn set_page_id(&mut self, page_id: u32)
        ensures
            *final(self) == (PageInfo { page_id, ..*old(self) }),
    {
        self.page_id = page_id;
    }

    pub fn set_pin_count(&mut self, pin_count: u32)
        ensures
            *final(self) == (PageInfo { pin_count, ..*old(self) }),
    {
        self.pin_count = pin_count;
    }

    pub fn set_dirty_bit(&mut self, dirty_bit: u32)
        ensures
            *final(self) == (PageInfo { dirty_bit, ..*old(self) }),
    {
        self.dirty_bit = dirty_bit;
    }

    pub fn set_time(&mut self, time: u32)
        ensures
            *final(self) == (PageInfo { time, ..*old(self) }),
    {
        self.time = time;
    }
}

/// The name of the least recently used policy.
pub fn get_lru() -> (s: String)
    ensures
        s@ == "LRU"@,
{
    String::from_str("LRU")
}

/// The name of the most recently used policy.
pub fn get_mru() -> (s: String)
    ensures
        s@ == "MRU"@,
{
    String::from_str("MRU")
}

} // verus!
