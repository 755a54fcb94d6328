//! The disk manager's decisions: the list of free pages, its saved form,
//! and where a new page goes.
//!
//! The saved form of the free list is the bincode encoding of each page,
//! one after the other: the file index then the page index, each as 4
//! little-endian bytes.

use vstd::prelude::*;
use crate::config::DBConfig;
use crate::page::PageId;

verus! {

// ---------------------------------------------------------------------------
// The saved form
// ---------------------------------------------------------------------------

/// The 4 little-endian bytes of a 32-bit word.
pub open spec fn le_bytes(v: u32) -> Seq<u8> {
    seq![
        (v % 0x100) as u8,
        ((v / 0x100) % 0x100) as u8,
        ((v / 0x1_0000) % 0x100) as u8,
        (v / 0x100_0000) as u8,
    ]
}

/// The 32-bit word whose little-endian bytes are the first 4 of `s`.
pub open spec fn le_value(s: Seq<u8>) -> u32 {
    (s[0] as int + s[1] as int * 0x100 + s[2] as int * 0x1_0000 + s[3] as int * 0x100_0000) as u32
}

/// The saved form of one page.
pub open spec fn page_bytes(p: PageId) -> Seq<u8> {
    le_bytes(p.file_idx) + le_bytes(p.page_idx)
}

/// The saved form of a list of pages.
pub open spec fn encode_pages(ps: Seq<PageId>) -> Seq<u8>
    decreases ps.len(),
{
    if ps.len() == 0 {
        Seq::empty()
    } else {
        page_bytes(ps[0]) + encode_pages(ps.drop_first())
    }
}

/// The pages read back from saved bytes: one per 8 bytes, stopping where
/// fewer than 8 bytes are left.
pub open spec fn decode_pages(b: Seq<u8>) -> Seq<PageId>
    decreases b.len(),
{
    if b.len() < 8 {
        Seq::empty()
    } else {
        seq![PageId { file_idx: le_value(b.subrange(0, 4)), page_idx: le_value(b.subrange(4, 8)) }]
            + decode_pages(b.subrange(8, b.len() as int))
    }
}

pub proof fn lemma_le_roundtrip(v: u32)
    ensures
        le_value(le_bytes(v)) == v,
{
    let b0 = v % 0x100;
    let b1 = (v / 0x100) % 0x100;
    let b2 = (v / 0x1_0000) % 0x100;
    let b3 = v / 0x100_0000;
    assert(b0 + b1 * 0x100 + b2 * 0x1_0000 + b3 * 0x100_0000 == v) by (nonlinear_arith)
        requires
            b0 == v % 0x100,
            b1 == (v / 0x100) % 0x100,
            b2 == (v / 0x1_0000) % 0x100,
            b3 == v / 0x100_0000,
    ;
    assert(b3 < 0x100) by (nonlinear_arith) requires b3 == v / 0x100_0000, v <= 0xffff_ffff;
}

proof fn lemma_encode_push(ps: Seq<PageId>, p: PageId)
    ensures
        encode_pages(ps.push(p)) == encode_pages(ps) + page_bytes(p),
    decreases ps.len(),
{
    if ps.len() == 0 {
        assert(ps.push(p).drop_first() =~= Seq::<PageId>::empty());
        assert(encode_pages(Seq::<PageId>::empty()) == Seq::<u8>::empty());
        assert(encode_pages(ps) == Seq::<u8>::empty());
        assert(encode_pages(ps.push(p)) =~= page_bytes(p) + Seq::<u8>::empty());
    } else {
        lemma_encode_push(ps.drop_first(), p);
        assert(ps.push(p).drop_first() =~= ps.drop_first().push(p));
        assert(encode_pages(ps.push(p)) =~= page_bytes(ps[0]) + (encode_pages(ps.drop_first()) + page_bytes(p)));
    }
}

/// Reading back the saved form of a list of pages gives the list.
pub proof fn lemma_free_list_roundtrip(ps: Seq<PageId>)
    ensures
        decode_pages(encode_pages(ps)) == ps,
    decreases ps.len(),
{
    if ps.len() > 0 {
        lemma_free_list_roundtrip(ps.drop_first());
        let b = encode_pages(ps);
        let rest = encode_pages(ps.drop_first());
        let head = page_bytes(ps[0]);
        assert(b == head + rest);
        assert(b.subrange(0, 4) =~= le_bytes(ps[0].file_idx));
        assert(b.subrange(4, 8) =~= le_bytes(ps[0].page_idx));
        assert(b.subrange(8, b.len() as int) =~= rest);
        lemma_le_roundtrip(ps[0].file_idx);
        lemma_le_roundtrip(ps[0].page_idx);
        assert(decode_pages(b) =~= seq![ps[0]] + ps.drop_first());
        assert(seq![ps[0]] + ps.drop_first() =~= ps);
    } else {
        assert(decode_pages(encode_pages(ps)) =~= ps);
    }
}

/// A page freed last is the one taken first once the free list is saved:
/// reading back the saved list ends with that page, after the others.
pub proof fn lemma_dealloc_then_take(ps: Seq<PageId>, p: PageId)
    ensures
        decode_pages(encode_pages(ps.push(p))).len() > 0,
        decode_pages(encode_pages(ps.push(p))).last() == p,
        decode_pages(encode_pages(ps.push(p))).drop_last() == ps,
{
    lemma_free_list_roundtrip(ps.push(p));
    assert(ps.push(p).drop_last() =~= ps);
}

// ---------------------------------------------------------------------------
// Trusted items over bincode
// ---------------------------------------------------------------------------

/// `bincode::serialize` on a page, written as the pair of its indices
/// (bincode encodes a struct as the tuple of its fields): with bincode's
/// fixed-size integers, the 4 little-endian bytes of each index in turn.
/// This never fails for a pair of `u32`.
#[verifier::external_body]
fn bincode_serialize_page(file_idx: u32, page_idx: u32) -> (r: Vec<u8>)
    ensures
        r@ == le_bytes(file_idx) + le_bytes(page_idx),
{
    match bincode::serialize(&(file_idx, page_idx)) {
        Ok(v) => v,
        Err(_) => Vec::new(),
    }
}

/// `bincode::deserialize` of a page (as the pair of its indices) from the
/// start of `bytes`: fails when fewer than 8 bytes are there (trailing bytes
/// are allowed), else reads two little-endian `u32`.
#[verifier::external_body]
fn bincode_deserialize_page(bytes: &[u8]) -> (r: Option<(u32, u32)>)
    ensures
        r is Some <==> bytes@.len() >= 8,
        r matches Some((f, p)) ==> f == le_value(bytes@.subrange(0, 4)) && p == le_value(
            bytes@.subrange(4, 8),
        ),
{
    bincode::deserialize::<(u32, u32)>(bytes).ok()
}

/// `bincode::serialized_size` of a page: 8 bytes, two fixed-size `u32`.
#[verifier::external_body]
fn bincode_serialized_size_page(file_idx: u32, page_idx: u32) -> (r: u64)
    ensures
        r == 8,
{
    match bincode::serialized_size(&(file_idx, page_idx)) {
        Ok(n) => n,
        Err(_) => 8,
    }
}

// ---------------------------------------------------------------------------
// DiskManager
// ---------------------------------------------------------------------------

/// The configuration and the list of pages that were freed and can be given
/// out again.
pub struct DiskManager {
    pub config: DBConfig,
    pub free_pages: Vec<PageId>,
}

impl DiskManager {
    /// A disk manager whose free pages are read from `saved_state`, the
    /// content of its state file.
    pub fn new(config: DBConfig, saved_state: &[u8]) -> (dm: DiskManager)
        ensures
            dm.config == config,
            dm.free_pages@ == decode_pages(saved_state@),
    {
        let mut dm = DiskManager { config, free_pages: Vec::new() };
        dm.load_state(saved_state);
        dm
    }

    pub fn get_dbconfig(&self) -> (r: &DBConfig)
        ensures
            *r == self.config,
    {
        &self.config
    }

    /// The content of the state file: the saved form of the free pages.
    pub fn save_state(&self) -> (r: Vec<u8>)
        ensures
            r@ == encode_pages(self.free_pages@),
    {
        let mut out: Vec<u8> = Vec::new();
        let mut i: usize = 0;
        while i < self.free_pages.len()
            invariant
                0 <= i <= self.free_pages@.len(),
                out@ == encode_pages(self.free_pages@.take(i as int)),
            decreases self.free_pages@.len() - i,
        {
            let p = self.free_pages[i];
            let bytes = bincode_serialize_page(p.file_idx, p.page_idx);
            let ghost before = out@;
            let mut j: usize = 0;
            while j < bytes.len()
                invariant
                    0 <= j <= bytes@.len(),
                    out@ == before + bytes@.take(j as int),
                decreases bytes@.len() - j,
            {
                out.push(bytes[j]);
                j += 1;
                assert(out@ =~= before + bytes@.take(j as int));
            }
            proof {
                lemma_encode_push(self.free_pages@.take(i as int), p);
                assert(self.free_pages@.take(i as int).push(p) =~= self.free_pages@.take(i + 1));
                assert(bytes@.take(bytes@.len() as int) =~= bytes@);
            }
            i += 1;
        }
        assert(self.free_pages@.take(self.free_pages@.len() as int) =~= self.free_pages@);
        out
    }

    /// Appends the pages read from `saved_state` to the free pages.
    pub fn load_state(&mut self, saved_state: &[u8])
        ensures
            final(self).config == old(self).config,
            final(self).free_pages@ == old(self).free_pages@ + decode_pages(saved_state@),
    {
        let ghost b = saved_state@;
        let mut pos: usize = 0;
        assert(b.subrange(0, b.len() as int) =~= b);
        while pos < saved_state.len()
            invariant
                0 <= pos <= b.len(),
                b == saved_state@,
                self.config == old(self).config,
                old(self).free_pages@ + decode_pages(b) == self.free_pages@ + decode_pages(
                    b.subrange(pos as int, b.len() as int),
                ),
            decreases b.len() - pos,
        {
            let rest = vstd::slice::slice_subrange(saved_state, pos, saved_state.len());
            assert(rest@ == b.subrange(pos as int, b.len() as int));
            match bincode_deserialize_page(rest) {
                Some((f, p)) => {
                    let page = PageId { file_idx: f, page_idx: p };
                    let ghost before = self.free_pages@;
                    self.free_pages.push(page);
                    let step = bincode_serialized_size_page(f, p);
                    proof {
                        assert(rest@.subrange(8, rest@.len() as int) =~= b.subrange(pos + 8, b.len() as int));
                        assert(decode_pages(rest@) == seq![page] + decode_pages(
                            rest@.subrange(8, rest@.len() as int),
                        ));
                        assert(self.free_pages@ =~= before + seq![page]);
                    }
                    pos = pos + step as usize;
                },
                None => {
                    proof {
                        assert(decode_pages(rest@) =~= Seq::<PageId>::empty());
                        assert(decode_pages(b.subrange(b.len() as int, b.len() as int)) =~= Seq::<PageId>::empty());
                    }
                    pos = saved_state.len();
                },
            }
        }
        proof {
            assert(decode_pages(b.subrange(b.len() as int, b.len() as int)) =~= Seq::<PageId>::empty());
            assert(self.free_pages@ + Seq::<PageId>::empty() =~= self.free_pages@);
        }
    }

    /// Adds `page_id` to the free pages unless it is there already; returns
    /// whether it was added (the state file must then be saved again).
    pub fn dealloc_page(&mut self, page_id: PageId) -> (added: bool)
        ensures
            final(self).config == old(self).config,
            added == !old(self).free_pages@.contains(page_id),
            final(self).free_pages@ == if added {
                old(self).free_pages@.push(page_id)
            } else {
                old(self).free_pages@
            },
    {
        let mut i: usize = 0;
        while i < self.free_pages.len()
            invariant
                0 <= i <= self.free_pages@.len(),
                forall|j: int| 0 <= j < i ==> self.free_pages@[j] != page_id,
            decreases self.free_pages@.len() - i,
        {
            if self.free_pages[i] == page_id {
                return false;
            }
            i += 1;
        }
        self.free_pages.push(page_id);
        true
    }

    /// The first step of allocating a page: the free pages are read again
    /// from `saved_state` and the last one is taken, if any (the state file
    /// must then be saved again).
    pub fn take_free_page(&mut self, saved_state: &[u8]) -> (r: Option<PageId>)
        ensures
            final(self).config == old(self).config,
            decode_pages(saved_state@).len() == 0 ==> r is None && final(self).free_pages@ == Seq::<
                PageId,
            >::empty(),
            decode_pages(saved_state@).len() > 0 ==> r == Some(decode_pages(saved_state@).last())
                && final(self).free_pages@ == decode_pages(saved_state@).drop_last(),
    {
        self.free_pages.clear();
        self.load_state(saved_state);
        proof {
            assert(self.free_pages@ =~= decode_pages(saved_state@));
        }
        self.free_pages.pop()
    }

    /// Where a new page goes in data file `file_idx`, whose size is
    /// `current_size`: after its last page while the file is smaller than the
    /// largest file size, else nowhere (the next file is tried).
    pub fn page_in_file(&self, file_idx: u32, current_size: u32) -> (r: Option<PageId>)
        requires
            self.config.pagesize > 0,
        ensures
            current_size < self.config.dm_maxfilesize ==> r == Some(
                PageId { file_idx, page_idx: (current_size / self.config.pagesize) as u32 },
            ),
            current_size >= self.config.dm_maxfilesize ==> r is None,
    {
        if current_size < self.config.dm_maxfilesize {
            Some(PageId::new(file_idx, current_size / self.config.pagesize))
        } else {
            None
        }
    }

    /// The content written for a new page: a page of `0xFF` bytes, a value
    /// that marks the page as present.
    pub fn fresh_page(&self) -> (r: Vec<u8>)
        ensures
            r@ == Seq::new(self.config.pagesize as nat, |i: int| 0xFFu8),
    {
        let n = self.config.pagesize as usize;
        let mut v: Vec<u8> = Vec::new();
        let mut i: usize = 0;
        while i < n
            invariant
                0 <= i <= n,
                n == self.config.pagesize,
                v@ == Seq::new(i as nat, |k: int| 0xFFu8),
            decreases n - i,
        {
            v.push(0xFF);
            i += 1;
            assert(v@ =~= Seq::new(i as nat, |k: int| 0xFFu8));
        }
        v
    }
}

} // verus!
