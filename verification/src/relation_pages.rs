//! The pages of a relation: its header page, which lists its data pages,
//! and its data pages, which hold its records.
//!
//! A header page holds the number of data pages (4 bytes at 0), then for
//! each data page 12 bytes: its file index, its page index and the free
//! space it has left.
//!
//! A data page holds its records one after the other from its start; its
//! last 8 bytes are the number of records (at `page_size - 8`) and the
//! position where the next record goes (at `page_size - 4`), and before
//! them, growing downwards, one slot per record: its position and its size.
//!
//! Every integer is 4 bytes, big-endian.

use vstd::prelude::*;
use crate::buffer::{Buffer, BufferView, m_write_int, be_value, word_at};
use crate::col_info::Record;
use crate::page::{PageId, RecordId};
use crate::relation::{Relation, types_of, vals_of, spec_encode, spec_decode, FieldModel, Field, models_of};

verus! {

// ---------------------------------------------------------------------------
// The model
// ---------------------------------------------------------------------------

/// The 4-byte integer at `p`.
pub open spec fn word(data: Seq<u8>, p: int) -> i32 {
    be_value(word_at(data, p)) as i32
}

/// The number of data pages a header lists.
pub open spec fn header_count(data: Seq<u8>) -> i32 {
    word(data, 0)
}

/// Data page `i` of a header.
pub open spec fn entry_id(data: Seq<u8>, i: int) -> PageId {
    PageId { file_idx: word(data, 4 + 12 * i) as u32, page_idx: word(data, 8 + 12 * i) as u32 }
}

/// The free space recorded for data page `i` of a header.
pub open spec fn entry_free(data: Seq<u8>, i: int) -> i32 {
    word(data, 12 + 12 * i)
}

/// The header after a data page is added: one more page, and its entry
/// after the others, with all of its space but the last 8 bytes free.
#[verifier::opaque]
pub open spec fn header_with_page(m: BufferView, p: PageId, page_size: u32) -> BufferView {
    let n = header_count(m.data) + 1;
    let off = 4 + (n - 1) * 12;
    let m1 = m_write_int(m, 0, n as i32).0;
    let m2 = m_write_int(m1, off, p.file_idx as i32).0;
    let m3 = m_write_int(m2, off + 4, p.page_idx as i32).0;
    m_write_int(m3, off + 8, (page_size - 8) as i32).0
}

/// A new data page: no record, the next record at 0.
pub open spec fn fresh_data_page(m: BufferView, page_size: u32) -> BufferView {
    m_write_int(m_write_int(m, page_size - 4, 0).0, page_size - 8, 0).0
}

/// Whether data page `i` has room for a record of `size` bytes and its slot.
pub open spec fn fits(data: Seq<u8>, i: int, size: usize) -> bool {
    size + 8 <= (entry_free(data, i) as usize)
}

/// The first of the first `k` data pages with room for `size` bytes, or -1.
pub open spec fn first_fit(data: Seq<u8>, k: int, size: usize) -> int
    decreases k,
{
    if k <= 0 {
        -1
    } else {
        let f = first_fit(data, k - 1, size);
        if f >= 0 {
            f
        } else if fits(data, k - 1, size) {
            k - 1
        } else {
            -1
        }
    }
}

/// Whether data page `i` of a header is `p`.
pub open spec fn entry_is(data: Seq<u8>, i: int, p: PageId) -> bool {
    word(data, 4 + 12 * i) == p.file_idx as i32 && word(data, 8 + 12 * i) == p.page_idx as i32
}

/// The first of the first `k` data pages that is `p`, or -1.
pub open spec fn first_entry(data: Seq<u8>, k: int, p: PageId) -> int
    decreases k,
{
    if k <= 0 {
        -1
    } else {
        let f = first_entry(data, k - 1, p);
        if f >= 0 {
            f
        } else if entry_is(data, k - 1, p) {
            k - 1
        } else {
            -1
        }
    }
}

proof fn lemma_first_fit(data: Seq<u8>, k: int, size: usize)
    ensures
        first_fit(data, k, size) == -1 || 0 <= first_fit(data, k, size) < k,
        first_fit(data, k, size) >= 0 ==> fits(data, first_fit(data, k, size), size),
        forall|i: int|
            0 <= i < k && (first_fit(data, k, size) < 0 || i < first_fit(data, k, size)) ==> !#[trigger] fits(data, i, size),
    decreases k,
{
    if k > 0 {
        lemma_first_fit(data, k - 1, size);
    }
}

proof fn lemma_first_entry(data: Seq<u8>, k: int, p: PageId)
    ensures
        first_entry(data, k, p) == -1 || 0 <= first_entry(data, k, p) < k,
        forall|i: int|
            0 <= i < k && (first_entry(data, k, p) < 0 || i < first_entry(data, k, p)) ==> !entry_is(data, i, p),
        first_entry(data, k, p) >= 0 ==> entry_is(data, first_entry(data, k, p), p),
    decreases k,
{
    if k > 0 {
        lemma_first_entry(data, k - 1, p);
    }
}

// ---------------------------------------------------------------------------
// Header pages
// ---------------------------------------------------------------------------

impl Relation {
    /// Starts a header page: no data page yet.
    pub fn init_header_page(header: &mut Buffer)
        requires
            old(header).wf(),
        ensures
            final(header).wf(),
            final(header).view() == m_write_int(old(header).view(), 0, 0).0,
    {
        let _ = header.write_int(0, 0);
    }

    /// Records data page `new_page` in the header and starts it (see
    /// `header_with_page` and `fresh_data_page`).
    pub fn add_data_page(header: &mut Buffer, data_page: &mut Buffer, new_page: PageId, page_size: u32)
        requires
            old(header).wf(),
            old(data_page).wf(),
            old(header).view().data.len() >= 4,
            0 <= header_count(old(header).view().data),
            12 * header_count(old(header).view().data) + 16 <= i32::MAX,
            page_size >= 8,
        ensures
            final(header).wf(),
            final(data_page).wf(),
            final(header).view() == header_with_page(old(header).view(), new_page, page_size),
            final(data_page).view() == fresh_data_page(old(data_page).view(), page_size),
    {
        reveal(header_with_page);
        let ghost h0 = header.view();
        let nb = match header.read_int(0) {
            Ok(v) => v,
            Err(_) => 0,
        };
        assert(nb == header_count(h0.data));
        let nb_pages = nb + 1;
        let _ = header.write_int(0, nb_pages);
        let next_offset = (4 + (nb_pages - 1) * 12) as usize;
        let _ = header.write_int(next_offset, new_page.file_idx as i32);
        let _ = header.write_int(next_offset + 4, new_page.page_idx as i32);
        let _ = header.write_int(next_offset + 8, (page_size - 8) as i32);
        let _ = data_page.write_int((page_size - 4) as usize, 0);
        let _ = data_page.write_int((page_size - 8) as usize, 0);
    }

    /// The first data page with room for a record of `size_record` bytes and
    /// its slot.
    pub fn get_free_data_page_id(header: &mut Buffer, size_record: usize) -> (r: Option<PageId>)
        requires
            old(header).wf(),
            old(header).view().data.len() >= 4,
            size_record <= usize::MAX - 8,
            ({
                let data = old(header).view().data;
                let n = header_count(data) as int;
                let f = first_fit(data, n, size_record);
                let k = if f >= 0 { f + 1 } else if n > 0 { n } else { 0 };
                &&& 12 * k + 4 <= data.len()
                &&& 12 * k + 4 <= i32::MAX
            }),
        ensures
            final(header).wf(),
            final(header).view().data == old(header).view().data,
            ({
                let data = old(header).view().data;
                let f = first_fit(data, header_count(data) as int, size_record);
                r == if f >= 0 { Some(entry_id(data, f)) } else { None }
            }),
    {
        let ghost data = header.view().data;
        let n = match header.read_int(0) {
            Ok(v) => v,
            Err(_) => 0,
        };
        proof {
            lemma_first_fit(data, n as int, size_record);
        }
        let mut i: i32 = 0;
        while i < n
            invariant
                0 <= i <= n || (n < 0 && i == 0),
                n == header_count(data),
                size_record <= usize::MAX - 8,
                header.wf(),
                header.view().data == data,
                data == old(header).view().data,
                first_fit(data, n as int, size_record) < 0 || i <= first_fit(data, n as int, size_record),
                forall|j: int| 0 <= j < i ==> !#[trigger] fits(data, j, size_record),
                ({
                    let f = first_fit(data, n as int, size_record);
                    let k = if f >= 0 { f + 1 } else if n > 0 { n as int } else { 0 };
                    &&& 12 * k + 4 <= data.len()
                    &&& 12 * k + 4 <= i32::MAX
                }),
                first_fit(data, n as int, size_record) == -1 || 0 <= first_fit(data, n as int, size_record) < n,
                first_fit(data, n as int, size_record) >= 0 ==> fits(data, first_fit(data, n as int, size_record), size_record),
            decreases n - i,
        {
            let offset = (4 + i * 12) as usize;
            let free = match header.read_int(offset + 8) {
                Ok(v) => v,
                Err(_) => 0,
            };
            assert(free == entry_free(data, i as int));
            if size_record + 8 <= free as usize {
                assert(fits(data, i as int, size_record));
                let f = match header.read_int(offset) {
                    Ok(v) => v,
                    Err(_) => 0,
                };
                let p = match header.read_int(offset + 4) {
                    Ok(v) => v,
                    Err(_) => 0,
                };
                proof {
                    lemma_first_fit(data, n as int, size_record);
                    assert(first_fit(data, n as int, size_record) == i);
                    assert(f == word(data, 4 + 12 * i));
                    assert(p == word(data, 8 + 12 * i));
                }
                return Some(PageId::new(f as u32, p as u32));
            }
            i += 1;
        }
        None
    }

    /// The data pages a header lists, in order.
    pub fn get_data_pages(header: &mut Buffer) -> (r: Vec<PageId>)
        requires
            old(header).wf(),
            old(header).view().data.len() >= 4,
            12 * header_count(old(header).view().data) <= old(header).view().data.len(),
            12 * header_count(old(header).view().data) <= i32::MAX,
        ensures
            final(header).wf(),
            final(header).view().data == old(header).view().data,
            r@ == Seq::new(
                if header_count(old(header).view().data) > 0 { header_count(old(header).view().data) as nat } else { 0 },
                |i: int| entry_id(old(header).view().data, i),
            ),
    {
        let ghost data = header.view().data;
        let n = match header.read_int(0) {
            Ok(v) => v,
            Err(_) => 0,
        };
        let mut liste_pages: Vec<PageId> = Vec::new();
        let mut i: i32 = 0;
        while i < n
            invariant
                0 <= i <= n || (n < 0 && i == 0),
                n == header_count(data),
                12 * n <= data.len(),
                12 * n <= i32::MAX,
                header.wf(),
                header.view().data == data,
                liste_pages@ == Seq::new(i as nat, |j: int| entry_id(data, j)),
            decreases n - i,
        {
            let file_idx = match header.read_int((4 + i * 12) as usize) {
                Ok(v) => v,
                Err(_) => 0,
            };
            let page_idx = match header.read_int((4 + i * 12 + 4) as usize) {
                Ok(v) => v,
                Err(_) => 0,
            };
            liste_pages.push(PageId::new(file_idx as u32, page_idx as u32));
            i += 1;
            assert(liste_pages@ =~= Seq::new(i as nat, |j: int| entry_id(data, j)));
        }
        assert(liste_pages@ =~= Seq::new(
            if n > 0 { n as nat } else { 0 },
            |j: int| entry_id(data, j),
        ));
        liste_pages
    }
}

// ---------------------------------------------------------------------------
// Data pages
// ---------------------------------------------------------------------------

/// Where the free space of a data page starts.
pub open spec fn next_free(page: Seq<u8>, page_size: u32) -> usize {
    word(page, page_size - 4) as usize
}

/// The number of records of a data page.
pub open spec fn slot_count(page: Seq<u8>, page_size: u32) -> usize {
    word(page, page_size - 8) as usize
}

/// Recording in the footer of a data page a record of `size` bytes written
/// at `pos0`: one more record, the free space after it, and the record's
/// slot (its position and size). The page after and where the slot is;
/// `None` where the footer cannot be read or the arithmetic overflows.
#[verifier::opaque]
pub open spec fn footer_part(p1: BufferView, page_size: u32, pos0: usize, size: int) -> Option<(BufferView, usize)> {
    let m = slot_count(p1.data, page_size);
    if page_size < 8 || p1.data.len() < page_size || m + 1 > usize::MAX || pos0 + size > usize::MAX || 8 * m + 16
        > page_size {
        None
    } else {
        let v2 = BufferView { rpos: (page_size - 4) as nat, ..p1 };
        let p2 = m_write_int(v2, page_size - 8, (m + 1) as i32).0;
        let p3 = m_write_int(p2, page_size - 4, (pos0 + size) as i32).0;
        let slot = page_size - 8 - 8 * m - 8;
        let p4 = m_write_int(p3, slot, pos0 as i32).0;
        let p5 = m_write_int(p4, slot + 4, size as i32).0;
        Some((p5, slot as usize))
    }
}

/// Writing a record into a data page whose footer is at the end of
/// `page_size` bytes: the page after, where the record's slot is, and the
/// record's size. `None` where a step fails: a footer that cannot be read,
/// a record that cannot be written there, or an arithmetic overflow.
#[verifier::opaque]
pub open spec fn page_part(
    types: Seq<Seq<u8>>,
    vals: Seq<Seq<u8>>,
    reals: Seq<u32>,
    page: BufferView,
    page_size: u32,
) -> Option<(BufferView, usize, int)> {
    if page_size < 8 || page.data.len() < page_size {
        None
    } else {
        let pos0 = next_free(page.data, page_size);
        let v1 = BufferView { rpos: page_size as nat, ..page };
        match spec_encode(types, vals, reals, v1, pos0 as int) {
            None => None,
            Some((p1, size)) => match footer_part(p1, page_size, pos0, size) {
                None => None,
                Some((p5, slot)) => Some((p5, slot, size)),
            },
        }
    }
}

/// Taking `size` bytes and a slot off the free space the header records for
/// page `pid`: the header's bytes after; unchanged when it lists no such
/// page. `None` where an entry cannot be read or the subtraction overflows.
pub open spec fn header_part(header: Seq<u8>, pid: PageId, size: int) -> Option<Seq<u8>> {
    let n = header_count(header) as int;
    let k = first_entry(header, n, pid);
    let kk = if k >= 0 { k + 1 } else if n > 0 { n } else { 0 };
    if header.len() < 4 || 12 * kk + 4 > header.len() || 12 * kk + 4 > i32::MAX || size + 8 > usize::MAX {
        None
    } else if k < 0 {
        Some(header)
    } else {
        let total = ((size + 8) as usize) as i32;
        let free = entry_free(header, k);
        if free - total < i32::MIN || free - total > i32::MAX {
            None
        } else {
            let hv = BufferView { data: header, wpos: 0, rpos: 0 };
            Some(m_write_int(hv, 12 + 12 * k, (free - total) as i32).0.data)
        }
    }
}

/// An entry names page `p` exactly when its file index and page index, read
/// as `i32`, are those of `p`.
proof fn lemma_entry_id_is(data: Seq<u8>, i: int, p: PageId)
    ensures
        (entry_id(data, i) == p) == entry_is(data, i, p),
{
    let w1 = word(data, 4 + 12 * i);
    let w2 = word(data, 8 + 12 * i);
    let f = p.file_idx;
    let g = p.page_idx;
    assert((w1 as u32 == f) == (w1 == f as i32)) by (bit_vector);
    assert((w2 as u32 == g) == (w2 == g as i32)) by (bit_vector);
}

/// Taking space in the header for a record of `size` bytes written into
/// data page `pid`: the header keeps its length, its count of pages and
/// the page of each entry; the free space of the first entry that names
/// `pid` (its file index and its page index both) drops by the record's
/// size and its 8-byte slot; every other entry keeps its free space.
pub proof fn lemma_header_part_takes_space(header: Seq<u8>, pid: PageId, size: int, i: int)
    requires
        header_part(header, pid, size) is Some,
        0 <= size,
        size + 8 <= i32::MAX,
        0 <= i < header_count(header),
        12 * i + 16 <= header.len(),
    ensures
        ({
            let h = header_part(header, pid, size).unwrap();
            let first_match = entry_id(header, i) == pid && forall|j: int|
                0 <= j < i ==> #[trigger] entry_id(header, j) != pid;
            &&& h.len() == header.len()
            &&& header_count(h) == header_count(header)
            &&& entry_id(h, i) == entry_id(header, i)
            &&& entry_free(h, i) == if first_match {
                entry_free(header, i) - (size + 8)
            } else {
                entry_free(header, i) as int
            }
        }),
{
    let n = header_count(header) as int;
    let k = first_entry(header, n, pid);
    lemma_first_entry(header, n, pid);
    let h = header_part(header, pid, size).unwrap();
    let first_match = entry_id(header, i) == pid && forall|j: int|
        0 <= j < i ==> #[trigger] entry_id(header, j) != pid;
    lemma_entry_id_is(header, i, pid);
    if k >= 0 {
        let total = ((size + 8) as usize) as i32;
        assert(total == size + 8);
        let free = entry_free(header, k);
        let hv = BufferView { data: header, wpos: 0, rpos: 0 };
        assert(h == m_write_int(hv, 12 + 12 * k, (free - total) as i32).0.data);
        lemma_write_int_word(hv, 12 + 12 * k, (free - total) as i32, 0);
        lemma_write_int_word(hv, 12 + 12 * k, (free - total) as i32, 4 + 12 * i);
        lemma_write_int_word(hv, 12 + 12 * k, (free - total) as i32, 8 + 12 * i);
        lemma_write_int_word(hv, 12 + 12 * k, (free - total) as i32, 12 + 12 * i);
        if i == k {
            assert forall|j: int| 0 <= j < i implies #[trigger] entry_id(header, j) != pid by {
                lemma_entry_id_is(header, j, pid);
            }
            assert(first_match);
        } else if i < k {
            assert(!entry_is(header, i, pid));
            assert(!first_match);
        } else {
            lemma_entry_id_is(header, k, pid);
            assert(entry_id(header, k) == pid);
            assert(!first_match);
        }
    } else {
        assert(h == header);
        assert(!entry_is(header, i, pid));
    }
}

/// Both parts of writing a record into a data page: the data page after,
/// the header's bytes after, and where the record's slot is.
pub open spec fn insert_spec(
    types: Seq<Seq<u8>>,
    vals: Seq<Seq<u8>>,
    reals: Seq<u32>,
    page: BufferView,
    header: Seq<u8>,
    pid: PageId,
    page_size: u32,
) -> Option<(BufferView, Seq<u8>, usize)> {
    match page_part(types, vals, reals, page, page_size) {
        None => None,
        Some((p, slot, size)) => match header_part(header, pid, size) {
            None => None,
            Some(h) => Some((p, h, slot)),
        },
    }
}

impl Relation {
    /// Records in the footer a record of `size` bytes written at `pos0` (see
    /// `footer_part`).
    #[verifier::rlimit(40)]
    fn record_in_footer(page: &mut Buffer, page_size: u32, pos0: usize, size: usize) -> (r: Option<usize>)
        requires
            old(page).wf(),
        ensures
            final(page).wf(),
            match footer_part(old(page).view(), page_size, pos0, size as int) {
                None => r is None,
                Some((p, slot)) => r == Some(slot) && final(page).view() == p,
            },
    {
        reveal(footer_part);
        if page_size < 8 || page.len() < page_size as usize {
            return None;
        }
        let ps = page_size as usize;
        let m = match page.read_int(ps - 8) {
            Ok(v) => v as usize,
            Err(_) => {
                return None;
            },
        };
        if m > usize::MAX - 1 || pos0 > usize::MAX - size || m > (usize::MAX - 16) / 8 || 8 * m + 16 > ps {
            return None;
        }
        let _ = page.write_int(ps - 8, (m + 1) as i32);
        let _ = page.write_int(ps - 4, (pos0 + size) as i32);
        let taille_pos = m * 8;
        let slot = ps - 8 - taille_pos - 8;
        let _ = page.write_int(slot, pos0 as i32);
        let _ = page.write_int(slot + 4, size as i32);
        Some(slot)
    }

    /// The data page part of `write_record_to_data_page` (see `page_part`).
    fn record_into_page(&self, record: &Record, real_bits: &Vec<u32>, page: &mut Buffer, page_size: u32) -> (r:
        Option<(usize, usize)>)
        requires
            self.wf(),
            old(page).wf(),
            real_bits@.len() == self.columns@.len(),
        ensures
            final(page).wf(),
            match page_part(types_of(self.columns@), vals_of(record.record_tuple@), real_bits@, old(page).view(), page_size) {
                None => r is None,
                Some((p, slot, size)) => r == Some((slot, size as usize)) && final(page).view() == p && 0 <= size <= usize::MAX,
            },
    {
        reveal(page_part);
        if page_size < 8 || page.len() < page_size as usize {
            return None;
        }
        let ps = page_size as usize;
        let ghost old_view = page.view();
        let pos0 = match page.read_int(ps - 4) {
            Ok(v) => v as usize,
            Err(_) => {
                return None;
            },
        };
        assert(page.view() == BufferView { rpos: page_size as nat, ..old_view });
        assert(pos0 == next_free(old_view.data, page_size));
        let taille_record = match self.write_record_to_buffer(record, real_bits, page, pos0) {
            Some(t) => t,
            None => {
                return None;
            },
        };
        match Relation::record_in_footer(page, page_size, pos0, taille_record) {
            Some(slot) => Some((slot, taille_record)),
            None => None,
        }
    }

    /// The header part of `write_record_to_data_page` (see `header_part`).
    #[verifier::rlimit(40)]
    fn take_space(header: &mut Buffer, page_id: PageId, taille_record: usize) -> (r: bool)
        requires
            old(header).wf(),
        ensures
            final(header).wf(),
            match header_part(old(header).view().data, page_id, taille_record as int) {
                None => !r && final(header).view().data == old(header).view().data,
                Some(h) => r && final(header).view().data == h,
            },
    {
        let ghost hdata = header.view().data;
        if header.len() < 4 || taille_record > usize::MAX - 8 {
            return false;
        }
        let n = match header.read_int(0) {
            Ok(v) => v,
            Err(_) => {
                return false;
            },
        };
        proof {
            lemma_first_entry(hdata, n as int, page_id);
        }
        let taille_totale = taille_record + 8;
        let len = header.len();
        let mut i: i32 = 0;
        while i < n
            invariant
                0 <= i <= n || (n < 0 && i == 0),
                n == header_count(hdata),
                hdata == old(header).view().data,
                len == hdata.len(),
                taille_totale == taille_record + 8,
                taille_record <= usize::MAX - 8,
                i > 0 ==> 12 * i + 4 <= len,
                12 * i + 4 <= i32::MAX,
                4 <= len,
                header.wf(),
                header.view().data == hdata,
                forall|j: int| 0 <= j < i ==> !#[trigger] entry_is(hdata, j, page_id),
                first_entry(hdata, n as int, page_id) == -1 || i <= first_entry(hdata, n as int, page_id) < n,
                first_entry(hdata, n as int, page_id) >= 0 ==> entry_is(hdata, first_entry(hdata, n as int, page_id), page_id),
                forall|j: int|
                    0 <= j < n && (first_entry(hdata, n as int, page_id) < 0 || j < first_entry(hdata, n as int, page_id))
                        ==> !#[trigger] entry_is(hdata, j, page_id),
            decreases n - i,
        {
            if i > (i32::MAX - 16) / 12 || (12 * i + 16) as usize > len {
                return false;
            }
            let offset = (4 + i * 12) as usize;
            let f = match header.read_int(offset) {
                Ok(v) => v,
                Err(_) => {
                    return false;
                },
            };
            let p = match header.read_int(offset + 4) {
                Ok(v) => v,
                Err(_) => {
                    return false;
                },
            };
            if f == page_id.file_idx as i32 && p == page_id.page_idx as i32 {
                assert(entry_is(hdata, i as int, page_id));
                let tmp = match header.read_int(offset + 8) {
                    Ok(v) => v,
                    Err(_) => {
                        return false;
                    },
                };
                let total = taille_totale as i32;
                if (tmp as i64) - (total as i64) < i32::MIN as i64 || (tmp as i64) - (total as i64) > i32::MAX as i64 {
                    return false;
                }
                let _ = header.write_int(offset + 8, tmp - total);
                return true;
            }
            assert(!entry_is(hdata, i as int, page_id));
            i += 1;
        }
        true
    }

    /// The number of bytes `record` takes, as its write at the start of an
    /// empty page of `page_size` bytes counts them; `None` where that write
    /// cannot complete (see `spec_encode`).
    pub fn record_size(&self, record: &Record, real_bits: &Vec<u32>, page_size: u32) -> (r: Option<usize>)
        requires
            self.wf(),
            real_bits@.len() == self.columns@.len(),
        ensures
            match spec_encode(
                types_of(self.columns@),
                vals_of(record.record_tuple@),
                real_bits@,
                BufferView { data: Seq::new(page_size as nat, |i: int| 0u8), wpos: 0, rpos: 0 },
                0,
            ) {
                None => r is None,
                Some((_, n)) => r == Some(n as usize),
            },
    {
        let mut scratch = Buffer::with_size(page_size as usize);
        assert(scratch.view() == BufferView { data: Seq::new(page_size as nat, |i: int| 0u8), wpos: 0, rpos: 0 });
        self.write_record_to_buffer(record, real_bits, &mut scratch, 0)
    }

    /// Writes `record` at the free space of data page `page` (its footer at
    /// the end of `page_size` bytes), records its slot, and takes its space
    /// and slot off the free space the header records for `page_id` (see
    /// `insert_spec`). Where a step fails the result is `None`; where the
    /// record could not be written in the data page, that page may have
    /// been written in part and the header is untouched.
    pub fn write_record_to_data_page(
        &self,
        record: &Record,
        real_bits: &Vec<u32>,
        page: &mut Buffer,
        header: &mut Buffer,
        page_id: PageId,
        page_size: u32,
    ) -> (r: Option<RecordId>)
        requires
            self.wf(),
            old(page).wf(),
            old(header).wf(),
            real_bits@.len() == self.columns@.len(),
        ensures
            final(page).wf(),
            final(header).wf(),
            match insert_spec(
                types_of(self.columns@),
                vals_of(record.record_tuple@),
                real_bits@,
                old(page).view(),
                old(header).view().data,
                page_id,
                page_size,
            ) {
                None => r is None,
                Some((p, h, slot)) => r == Some(RecordId { page_id, slot_idx: slot }) && final(page).view() == p
                    && final(header).view().data == h,
            },
            page_part(
                types_of(self.columns@),
                vals_of(record.record_tuple@),
                real_bits@,
                old(page).view(),
                page_size,
            ) matches Some((p, _, size)) ==> final(page).view() == p && (header_part(
                old(header).view().data,
                page_id,
                size,
            ) is None ==> final(header).view().data == old(header).view().data),
            page_part(
                types_of(self.columns@),
                vals_of(record.record_tuple@),
                real_bits@,
                old(page).view(),
                page_size,
            ) is None ==> *final(header) == *old(header),
    {
        let ghost h0 = header.view().data;
        let ghost pp = page_part(types_of(self.columns@), vals_of(record.record_tuple@), real_bits@, old(page).view(), page_size);
        let (slot, size) = match self.record_into_page(record, real_bits, page, page_size) {
            Some(x) => x,
            None => {
                return None;
            },
        };
        assert(pp is Some);
        let ghost size_i = pp.unwrap().2;
        assert(size as int == size_i);
        assert(h0 == old(header).view().data);
        if Relation::take_space(header, page_id, size) {
            Some(RecordId::new(page_id, slot))
        } else {
            None
        }
    }
}

/// Reading `k` records one after the other from `pos`: their values; `None`
/// where one cannot be read or a position overflows.
pub open spec fn records_from(types: Seq<Seq<u8>>, data: Seq<u8>, k: nat, pos: int) -> Option<Seq<Seq<FieldModel>>>
    decreases k,
{
    if k == 0 {
        Some(Seq::empty())
    } else {
        match spec_decode(types, data, pos) {
            None => None,
            Some((fs, n)) => if pos + n > usize::MAX {
                None
            } else {
                match records_from(types, data, (k - 1) as nat, pos + n) {
                    None => None,
                    Some(rest) => Some(seq![fs] + rest),
                }
            },
        }
    }
}

/// The records of a data page whose footer is at the end of `page_size`
/// bytes, read one after the other from its start.
pub open spec fn page_records(types: Seq<Seq<u8>>, data: Seq<u8>, page_size: u32) -> Option<Seq<Seq<FieldModel>>> {
    if page_size < 8 || page_size - 4 > data.len() {
        None
    } else {
        records_from(types, data, slot_count(data, page_size) as nat, 0)
    }
}

pub open spec fn with_prefix(done: Seq<Seq<FieldModel>>, o: Option<Seq<Seq<FieldModel>>>) -> Option<Seq<Seq<FieldModel>>> {
    match o {
        None => None,
        Some(rest) => Some(done + rest),
    }
}

impl Relation {
    /// The records of data page `page` (see `page_records`); `None` where
    /// they cannot be read.
    pub fn get_records_in_data_page(&self, page: &mut Buffer, page_size: u32) -> (r: Option<Vec<Vec<Field>>>)
        requires
            self.wf(),
            old(page).wf(),
        ensures
            final(page).wf(),
            final(page).view().data == old(page).view().data,
            match page_records(types_of(self.columns@), old(page).view().data, page_size) {
                None => r is None,
                Some(rs) => r matches Some(v) && v@.len() == rs.len() && forall|i: int|
                    0 <= i < rs.len() ==> models_of((#[trigger] v@[i])@) == rs[i],
            },
    {
        let ghost types = types_of(self.columns@);
        let ghost data = page.view().data;
        if page_size < 8 || (page_size - 4) as usize > page.len() {
            return None;
        }
        let nb_record = match page.read_int((page_size - 8) as usize) {
            Ok(v) => v as usize,
            Err(_) => {
                return None;
            },
        };
        let mut liste: Vec<Vec<Field>> = Vec::new();
        let mut pos: usize = 0;
        let mut i: usize = 0;
        let ghost models = Seq::<Seq<FieldModel>>::empty();
        assert(with_prefix(models, records_from(types, data, nb_record as nat, 0)) =~~= records_from(
            types,
            data,
            nb_record as nat,
            0,
        ));
        while i < nb_record
            invariant
                0 <= i <= nb_record,
                types == types_of(self.columns@),
                self.wf(),
                page.wf(),
                page.view().data == data,
                data == old(page).view().data,
                nb_record == slot_count(data, page_size),
                page_records(types, data, page_size) == with_prefix(
                    models,
                    records_from(types, data, (nb_record - i) as nat, pos as int),
                ),
                liste@.len() == i,
                models.len() == i,
                forall|j: int| 0 <= j < i ==> models_of((#[trigger] liste@[j])@) == models[j],
            decreases nb_record - i,
        {
            match self.read_from_buffer(page, pos) {
                None => {
                    return None;
                },
                Some((fields, n)) => {
                    if pos > usize::MAX - n {
                        return None;
                    }
                    let ghost fm = models_of(fields@);
                    proof {
                        let rest = records_from(types, data, (nb_record - i - 1) as nat, pos + n);
                        assert(with_prefix(models, records_from(types, data, (nb_record - i) as nat, pos as int))
                            =~~= with_prefix(models.push(fm), rest));
                        models = models.push(fm);
                    }
                    liste.push(fields);
                    pos = pos + n;
                },
            }
            i += 1;
        }
        proof {
            assert(models + Seq::<Seq<FieldModel>>::empty() =~= models);
        }
        Some(liste)
    }
}

// ---------------------------------------------------------------------------
// Laws
// ---------------------------------------------------------------------------

proof fn lemma_write_int_word(m: BufferView, pos: int, v: i32, q: int)
    requires
        0 <= pos,
        pos + 4 <= m.data.len(),
        0 <= q,
        q + 4 <= m.data.len(),
        q + 4 <= pos || pos + 4 <= q || q == pos,
    ensures
        m_write_int(m, pos, v).0.data.len() == m.data.len(),
        word(m_write_int(m, pos, v).0.data, q) == if q == pos { v } else { word(m.data, q) },
{
    let d2 = m_write_int(m, pos, v).0.data;
    let b = crate::buffer::be_bytes(v as u32);
    crate::format_laws::lemma_write_bytes_at_pub(m.data, pos, b);
    if q == pos {
        assert(word_at(d2, q) =~= b);
        crate::buffer::lemma_be_roundtrip(v as u32);
        assert(((v as u32) as i32) == v) by (bit_vector);
    } else {
        assert(word_at(d2, q) =~= word_at(m.data, q));
    }
}

proof fn lemma_register_keeps(m: BufferView, p: PageId, page_size: u32, q: int)
    requires
        m.data.len() >= 4,
        0 <= header_count(m.data),
        12 * header_count(m.data) + 16 <= m.data.len(),
        4 <= q,
        q + 4 <= 4 + 12 * header_count(m.data),
    ensures
        word(header_with_page(m, p, page_size).data, q) == word(m.data, q),
{
    reveal(header_with_page);
    let n = header_count(m.data) as int;
    let off = 4 + n * 12;
    let m1 = m_write_int(m, 0, (n + 1) as i32).0;
    let m2 = m_write_int(m1, off, p.file_idx as i32).0;
    let m3 = m_write_int(m2, off + 4, p.page_idx as i32).0;
    lemma_write_int_word(m, 0, (n + 1) as i32, q);
    lemma_write_int_word(m1, off, p.file_idx as i32, q);
    lemma_write_int_word(m2, off + 4, p.page_idx as i32, q);
    lemma_write_int_word(m3, off + 8, (page_size - 8) as i32, q);
}

proof fn lemma_register_new_entry(m: BufferView, p: PageId, page_size: u32)
    requires
        m.data.len() >= 4,
        0 <= header_count(m.data),
        12 * header_count(m.data) + 16 <= i32::MAX,
        12 * header_count(m.data) + 16 <= m.data.len(),
        page_size >= 8,
    ensures
        header_count(header_with_page(m, p, page_size).data) == header_count(m.data) + 1,
        word(header_with_page(m, p, page_size).data, 4 + 12 * header_count(m.data)) == p.file_idx as i32,
        word(header_with_page(m, p, page_size).data, 8 + 12 * header_count(m.data)) == p.page_idx as i32,
        word(header_with_page(m, p, page_size).data, 12 + 12 * header_count(m.data)) == (page_size - 8) as i32,
{
    reveal(header_with_page);
    let n = header_count(m.data) as int;
    let off = 4 + n * 12;
    let m1 = m_write_int(m, 0, (n + 1) as i32).0;
    let m2 = m_write_int(m1, off, p.file_idx as i32).0;
    let m3 = m_write_int(m2, off + 4, p.page_idx as i32).0;
    lemma_write_int_word(m, 0, (n + 1) as i32, 0);
    lemma_write_int_word(m1, off, p.file_idx as i32, 0);
    lemma_write_int_word(m2, off + 4, p.page_idx as i32, 0);
    lemma_write_int_word(m3, off + 8, (page_size - 8) as i32, 0);
    lemma_write_int_word(m1, off, p.file_idx as i32, off);
    lemma_write_int_word(m2, off + 4, p.page_idx as i32, off);
    lemma_write_int_word(m3, off + 8, (page_size - 8) as i32, off);
    lemma_write_int_word(m2, off + 4, p.page_idx as i32, off + 4);
    lemma_write_int_word(m3, off + 8, (page_size - 8) as i32, off + 4);
    lemma_write_int_word(m3, off + 8, (page_size - 8) as i32, off + 8);
}

/// Adding a data page to a header that has room for its entry lists it
/// after the pages listed before, which stay as they were, with all of its
/// space but its footer free.
pub proof fn lemma_add_data_page_lists_it(m: BufferView, p: PageId, page_size: u32)
    requires
        m.data.len() >= 4,
        0 <= header_count(m.data),
        12 * header_count(m.data) + 16 <= i32::MAX,
        12 * header_count(m.data) + 16 <= m.data.len(),
        page_size >= 8,
    ensures
        ({
            let n = header_count(m.data) as int;
            let d = header_with_page(m, p, page_size).data;
            &&& header_count(d) == n + 1
            &&& forall|i: int| 0 <= i < n ==> #[trigger] entry_id(d, i) == entry_id(m.data, i) && entry_free(d, i)
                == entry_free(m.data, i)
            &&& entry_id(d, n) == p
            &&& entry_free(d, n) == (page_size - 8) as i32
        }),
{
    let n = header_count(m.data) as int;
    let d = header_with_page(m, p, page_size).data;
    lemma_register_new_entry(m, p, page_size);
    assert forall|i: int| 0 <= i < n implies #[trigger] entry_id(d, i) == entry_id(m.data, i) && entry_free(d, i)
        == entry_free(m.data, i) by {
        lemma_register_keeps(m, p, page_size, 4 + 12 * i);
        lemma_register_keeps(m, p, page_size, 8 + 12 * i);
        lemma_register_keeps(m, p, page_size, 12 + 12 * i);
    }
    let fi = p.file_idx;
    let pi = p.page_idx;
    assert((fi as i32) as u32 == fi) by (bit_vector);
    assert((pi as i32) as u32 == pi) by (bit_vector);
}

/// Whether a page fits depends only on its own entry: headers that agree on
/// the first `k` entries find the same first fit among them.
proof fn lemma_first_fit_same(d1: Seq<u8>, d2: Seq<u8>, k: int, size: usize)
    requires
        forall|i: int| 0 <= i < k ==> #[trigger] entry_free(d1, i) == entry_free(d2, i),
    ensures
        first_fit(d1, k, size) == first_fit(d2, k, size),
    decreases k,
{
    if k > 0 {
        lemma_first_fit_same(d1, d2, k - 1, size);
        assert(entry_free(d1, k - 1) == entry_free(d2, k - 1));
    }
}

/// When no data page of a header has room for a record, adding a data page
/// whose space holds the record and its slot makes it the page found for
/// the record.
pub proof fn lemma_added_page_is_found(m: BufferView, p: PageId, page_size: u32, size: usize)
    requires
        m.data.len() >= 4,
        0 <= header_count(m.data),
        12 * header_count(m.data) + 16 <= i32::MAX,
        12 * header_count(m.data) + 16 <= m.data.len(),
        8 <= page_size <= i32::MAX,
        first_fit(m.data, header_count(m.data) as int, size) == -1,
        size + 16 <= page_size,
    ensures
        ({
            let n = header_count(m.data) as int;
            let d = header_with_page(m, p, page_size).data;
            &&& first_fit(d, header_count(d) as int, size) == n
            &&& entry_id(d, n) == p
        }),
{
    let n = header_count(m.data) as int;
    let d = header_with_page(m, p, page_size).data;
    lemma_add_data_page_lists_it(m, p, page_size);
    assert forall|i: int| 0 <= i < n implies #[trigger] entry_free(d, i) == entry_free(m.data, i) by {
        assert(entry_id(d, i) == entry_id(m.data, i) && entry_free(d, i) == entry_free(m.data, i));
    }
    lemma_first_fit_same(d, m.data, n, size);
    assert(fits(d, n, size));
}

/// What inserting a record does next.
#[derive(Debug, Clone, Copy, PartialEq, Eq, Structural)]
pub enum InsertAction {
    /// Write the record to this data page.
    WriteTo(PageId),
    /// Add a data page, then look for a page with room again.
    AddDataPage,
}

/// The next step of inserting a record, once the header was searched for a
/// data page with room (`free_page`): write the record there; when there is
/// none, add a data page and search again, unless a page was just added
/// (`page_added`), in which case there is no step (`None`).
pub fn insert_step(free_page: Option<PageId>, page_added: bool) -> (r: Option<InsertAction>)
    ensures
        r == match free_page {
            Some(p) => Some(InsertAction::WriteTo(p)),
            None => if page_added {
                None::<InsertAction>
            } else {
                Some(InsertAction::AddDataPage)
            },
        },
{
    match free_page {
        Some(p) => Some(InsertAction::WriteTo(p)),
        None => if page_added {
            None
        } else {
            Some(InsertAction::AddDataPage)
        },
    }
}

} // verus!
