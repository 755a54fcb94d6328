//! The buffer pool: a fixed number of page-sized buffers, the pages they
//! hold, and the choice of a page to evict (least or most recently used).
//!
//! The pool decides; it does not touch the disk. Where a page must be read
//! into a buffer or a buffer written back to disk, it hands back the
//! operations to perform, in order.

use vstd::prelude::*;
use crate::buffer::Buffer;
use crate::config::DBConfig;
use crate::disk_manager::DiskManager;
use crate::page::{PageId, PageInfo};
use crate::schema::{bytes_eq, str_bytes};

verus! {

/// A disk operation the pool asks for.
#[derive(Debug, Clone, Copy, PartialEq, Eq, Structural)]
pub enum DiskAction {
    /// Write the bytes of buffer `frame` to page `page_id`.
    Write { page_id: PageId, frame: usize },
    /// Read page `page_id` into buffer `frame`, at its write cursor.
    Read { page_id: PageId, frame: usize },
}

// ---------------------------------------------------------------------------
// The model
// ---------------------------------------------------------------------------

/// The index of the first entry about page `pid`, or -1.
pub open spec fn first_match(pages: Seq<PageInfo>, pid: PageId) -> int
    decreases pages.len(),
{
    if pages.len() == 0 {
        -1
    } else if pages[0].page_id == pid {
        0
    } else {
        let r = first_match(pages.drop_first(), pid);
        if r < 0 {
            -1
        } else {
            r + 1
        }
    }
}

pub open spec fn unpinned(p: PageInfo) -> bool {
    p.pin_count == 0
}

/// Among the first `k` entries, the first unpinned one with the smallest
/// time (`oldest`) or with the largest time (otherwise); -1 when none is
/// unpinned.
pub open spec fn best_unpinned(pages: Seq<PageInfo>, k: int, oldest: bool) -> int
    decreases k,
{
    if k <= 0 {
        -1
    } else {
        let b = best_unpinned(pages, k - 1, oldest);
        let p = pages[k - 1];
        if !unpinned(p) {
            b
        } else if b < 0 {
            k - 1
        } else if (if oldest {
            pages[b].time > p.time
        } else {
            pages[b].time < p.time
        }) {
            k - 1
        } else {
            b
        }
    }
}

/// The index the replacement scan gives: the number of buffers when every
/// page is pinned; otherwise the best unpinned page (the first of them on a
/// tie).
pub open spec fn victim_index(pages: Seq<PageInfo>, count: u32, oldest: bool) -> int {
    let b = best_unpinned(pages, pages.len() as int, oldest);
    if b < 0 {
        count as int
    } else {
        b
    }
}

/// The bytes of `LRU`.
pub open spec fn lit_lru() -> Seq<u8> {
    seq![76u8, 82u8, 85u8]
}

/// The entry for page `pid` fetched at time `t`.
pub open spec fn fresh_info(pid: PageId, t: u64) -> PageInfo {
    PageInfo { page_id: pid, pin_count: 1, dirty_bit: false, time: t as u32 }
}

/// Entry `f` pinned once more and used at time `t`.
pub open spec fn pages_after_hit(pages: Seq<PageInfo>, f: int, t: u64) -> Seq<PageInfo> {
    pages.update(f, PageInfo { pin_count: (pages[f].pin_count + 1) as u32, time: t as u32, ..pages[f] })
}

/// The entries after `free_page(pid, dirty)` at time `t`.
pub open spec fn pages_after_free(pages: Seq<PageInfo>, pid: PageId, dirty: bool, t: u64) -> Seq<PageInfo> {
    let f = first_match(pages, pid);
    if f < 0 {
        pages
    } else {
        let p = pages[f];
        let pin = (p.pin_count - 1) as u32;
        pages.update(
            f,
            PageInfo { pin_count: pin, dirty_bit: dirty, time: if pin == 0 { t as u32 } else { p.time }, ..p },
        )
    }
}

/// The writes of a flush: each dirty page among the first `k`, to its
/// buffer.
pub open spec fn flush_writes(pages: Seq<PageInfo>, k: int) -> Seq<DiskAction>
    decreases k,
{
    if k <= 0 {
        Seq::empty()
    } else {
        let p = pages[k - 1];
        flush_writes(pages, k - 1) + if p.dirty_bit {
            seq![DiskAction::Write { page_id: p.page_id, frame: (k - 1) as usize }]
        } else {
            Seq::empty()
        }
    }
}

/// The entries after a flush of the first `k`: those that were dirty are
/// clean and unpinned.
pub open spec fn pages_after_flush(pages: Seq<PageInfo>, k: int) -> Seq<PageInfo> {
    Seq::new(
        pages.len(),
        |i: int|
            if i < k && pages[i].dirty_bit {
                PageInfo { pin_count: 0, dirty_bit: false, ..pages[i] }
            } else {
                pages[i]
            },
    )
}

proof fn lemma_first_match_at(pages: Seq<PageInfo>, pid: PageId, i: int)
    requires
        0 <= i < pages.len(),
        pages[i].page_id == pid,
        forall|j: int| 0 <= j < i ==> pages[j].page_id != pid,
    ensures
        first_match(pages, pid) == i,
    decreases i,
{
    if i > 0 {
        lemma_first_match_at(pages.drop_first(), pid, i - 1);
    }
}

proof fn lemma_first_match_absent(pages: Seq<PageInfo>, pid: PageId)
    requires
        forall|j: int| 0 <= j < pages.len() ==> pages[j].page_id != pid,
    ensures
        first_match(pages, pid) == -1,
    decreases pages.len(),
{
    if pages.len() > 0 {
        lemma_first_match_absent(pages.drop_first(), pid);
    }
}

proof fn lemma_first_match_props(pages: Seq<PageInfo>, pid: PageId)
    ensures
        -1 <= first_match(pages, pid) < pages.len(),
        first_match(pages, pid) >= 0 ==> pages[first_match(pages, pid)].page_id == pid,
        forall|j: int| 0 <= j < pages.len() && (first_match(pages, pid) < 0 || j < first_match(pages, pid))
            ==> pages[j].page_id != pid,
    decreases pages.len(),
{
    if pages.len() > 0 {
        lemma_first_match_props(pages.drop_first(), pid);
        assert forall|j: int|
            0 <= j < pages.len() && (first_match(pages, pid) < 0 || j < first_match(pages, pid)) implies pages[j].page_id
            != pid by {
            if j > 0 {
                assert(pages[j] == pages.drop_first()[j - 1]);
            }
        }
    }
}

/// Changing entries without changing their pages keeps the first match.
proof fn lemma_first_match_same_ids(pages: Seq<PageInfo>, pages2: Seq<PageInfo>, pid: PageId)
    requires
        pages.len() == pages2.len(),
        forall|j: int| 0 <= j < pages.len() ==> pages2[j].page_id == pages[j].page_id,
    ensures
        first_match(pages2, pid) == first_match(pages, pid),
{
    lemma_first_match_props(pages, pid);
    let f = first_match(pages, pid);
    if f >= 0 {
        lemma_first_match_at(pages2, pid, f);
    } else {
        lemma_first_match_absent(pages2, pid);
    }
}

proof fn lemma_best_props(pages: Seq<PageInfo>, k: int, oldest: bool)
    requires
        0 <= k <= pages.len(),
    ensures
        -1 <= best_unpinned(pages, k, oldest) < k,
        best_unpinned(pages, k, oldest) >= 0 ==> unpinned(pages[best_unpinned(pages, k, oldest)]),
        best_unpinned(pages, k, oldest) < 0 ==> forall|i: int| 0 <= i < k ==> !unpinned(#[trigger] pages[i]),
        best_unpinned(pages, k, oldest) >= 0 ==> forall|i: int|
            0 <= i < k && unpinned(#[trigger] pages[i]) ==> if oldest {
                pages[best_unpinned(pages, k, oldest)].time <= pages[i].time
            } else {
                pages[best_unpinned(pages, k, oldest)].time >= pages[i].time
            },
        (exists|i: int| 0 <= i < k && unpinned(#[trigger] pages[i])) ==> best_unpinned(pages, k, oldest) >= 0,
    decreases k,
{
    if k > 0 {
        lemma_best_props(pages, k - 1, oldest);
    }
}

// ---------------------------------------------------------------------------
// Laws
// ---------------------------------------------------------------------------

/// The LRU scan gives the number of buffers when every page is pinned;
/// otherwise it gives an unpinned page that was used no later than any other
/// unpinned page.
pub proof fn lemma_lru_victim(pages: Seq<PageInfo>, count: u32)
    ensures
        (forall|i: int| 0 <= i < pages.len() ==> !unpinned(#[trigger] pages[i])) ==> victim_index(
            pages,
            count,
            true,
        ) == count,
        (exists|i: int| 0 <= i < pages.len() && unpinned(#[trigger] pages[i])) ==> ({
            let v = victim_index(pages, count, true);
            &&& 0 <= v < pages.len()
            &&& unpinned(pages[v])
            &&& forall|i: int| 0 <= i < pages.len() && unpinned(#[trigger] pages[i]) ==> pages[v].time <= pages[i].time
        }),
{
    lemma_best_props(pages, pages.len() as int, true);
    if (forall|i: int| 0 <= i < pages.len() ==> !unpinned(#[trigger] pages[i])) {
        lemma_no_unpinned_best(pages, pages.len() as int, true);
    }
}

/// The MRU scan gives the number of buffers when every page is pinned;
/// otherwise it gives an unpinned page that was used no earlier than any
/// other unpinned page.
pub proof fn lemma_mru_victim(pages: Seq<PageInfo>, count: u32)
    ensures
        (forall|i: int| 0 <= i < pages.len() ==> !unpinned(#[trigger] pages[i])) ==> victim_index(
            pages,
            count,
            false,
        ) == count,
        (exists|i: int| 0 <= i < pages.len() && unpinned(#[trigger] pages[i])) ==> ({
            let v = victim_index(pages, count, false);
            &&& 0 <= v < pages.len()
            &&& unpinned(pages[v])
            &&& forall|i: int| 0 <= i < pages.len() && unpinned(#[trigger] pages[i]) ==> pages[v].time >= pages[i].time
        }),
{
    lemma_best_props(pages, pages.len() as int, false);
    if (forall|i: int| 0 <= i < pages.len() ==> !unpinned(#[trigger] pages[i])) {
        lemma_no_unpinned_best(pages, pages.len() as int, false);
    }
}


proof fn lemma_no_unpinned_best(pages: Seq<PageInfo>, k: int, oldest: bool)
    requires
        0 <= k <= pages.len(),
        forall|i: int| 0 <= i < pages.len() ==> !unpinned(#[trigger] pages[i]),
    ensures
        best_unpinned(pages, k, oldest) == -1,
    decreases k,
{
    if k > 0 {
        lemma_no_unpinned_best(pages, k - 1, oldest);
        assert(!unpinned(pages[k - 1]));
    }
}

/// Releasing a page right after getting it gives back the pin count it had:
/// a page that was held keeps its pin count (and every other entry is as it
/// was); a page read into a buffer not filled yet ends up unpinned.
pub proof fn lemma_get_then_free(bm: BufferManager, pid: PageId, dirty: bool)
    requires
        bm.wf(),
        bm.get_page_ok(pid),
    ensures
        ({
            let pages = bm.liste_pages@;
            let f = first_match(pages, pid);
            let after = pages_after_free(bm.get_page_pages(pid), pid, dirty, (bm.compteur_temps + 1) as u64);
            &&& f >= 0 ==> after.len() == pages.len() && after[f].pin_count == pages[f].pin_count && forall|j: int|
                0 <= j < pages.len() && j != f ==> after[j] == pages[j]
            &&& (f < 0 && bm.nb_pages_vecteur < bm.db_config.bm_buffer_count) ==> after == pages.push(
                PageInfo { page_id: pid, pin_count: 0, dirty_bit: dirty, time: (bm.compteur_temps + 1) as u32 },
            )
        }),
{
    let pages = bm.liste_pages@;
    let f = first_match(pages, pid);
    lemma_first_match_props(pages, pid);
    let got = bm.get_page_pages(pid);
    if f >= 0 {
        lemma_first_match_same_ids(pages, got, pid);
    } else if bm.nb_pages_vecteur < bm.db_config.bm_buffer_count {
        assert forall|j: int| 0 <= j < pages.len() implies got[j].page_id != pid by {}
        lemma_first_match_at(got, pid, pages.len() as int);
        let after = pages_after_free(got, pid, dirty, (bm.compteur_temps + 1) as u64);
        assert(after =~= pages.push(
            PageInfo { page_id: pid, pin_count: 0, dirty_bit: dirty, time: (bm.compteur_temps + 1) as u32 },
        ));
    }
}

/// After a flush, every page among the buffers filled since the last flush
/// is clean, those that were modified are unpinned, and each write is of a
/// page that was modified, to its own buffer.
pub proof fn lemma_flush_cleans(pages: Seq<PageInfo>, nb: int)
    requires
        0 <= nb <= pages.len(),
        nb <= usize::MAX,
    ensures
        forall|i: int| 0 <= i < nb ==> !(#[trigger] pages_after_flush(pages, nb)[i]).dirty_bit,
        forall|i: int| 0 <= i < nb && pages[i].dirty_bit ==> (#[trigger] pages_after_flush(pages, nb)[i]).pin_count == 0,
        forall|k: int|
            0 <= k < flush_writes(pages, nb).len() ==> ((#[trigger] flush_writes(pages, nb)[k]) matches DiskAction::Write {
                page_id,
                frame,
            } && 0 <= frame < nb && pages[frame as int].dirty_bit && pages[frame as int].page_id == page_id),
    decreases nb,
{
    if nb > 0 {
        lemma_flush_cleans(pages, nb - 1);
        let w = flush_writes(pages, nb);
        let w0 = flush_writes(pages, nb - 1);
        assert forall|k: int| 0 <= k < w.len() implies ((#[trigger] w[k]) matches DiskAction::Write { page_id, frame }
            && 0 <= frame < nb && pages[frame as int].dirty_bit && pages[frame as int].page_id == page_id) by {
            if k < w0.len() {
                assert(w[k] == w0[k]);
            } else {
                assert(pages[nb - 1].dirty_bit);
                assert(w[k] == DiskAction::Write { page_id: pages[nb - 1].page_id, frame: (nb - 1) as usize });
            }
        }
    }
}

/// A flush writes back every page that was modified among the buffers
/// filled since the last flush, whatever its pin count: each such page is
/// written to the page it holds, from its own buffer.
pub proof fn lemma_flush_writes_every_dirty_page(pages: Seq<PageInfo>, nb: int)
    requires
        0 <= nb <= pages.len(),
        nb <= usize::MAX,
    ensures
        forall|i: int|
            0 <= i < nb && (#[trigger] pages[i]).dirty_bit ==> flush_writes(pages, nb).contains(
                DiskAction::Write { page_id: pages[i].page_id, frame: i as usize },
            ),
    decreases nb,
{
    if nb > 0 {
        lemma_flush_writes_every_dirty_page(pages, nb - 1);
        let w = flush_writes(pages, nb);
        let w0 = flush_writes(pages, nb - 1);
        assert forall|i: int|
            0 <= i < nb && (#[trigger] pages[i]).dirty_bit implies w.contains(
                DiskAction::Write { page_id: pages[i].page_id, frame: i as usize },
            ) by {
            let a = DiskAction::Write { page_id: pages[i].page_id, frame: i as usize };
            if i < nb - 1 {
                let k = choose|k: int| 0 <= k < w0.len() && w0[k] == a;
                assert(w[k] == w0[k]);
            } else {
                assert(w[w0.len() as int] == a);
            }
        }
    }
}

// ---------------------------------------------------------------------------
// BufferManager
// ---------------------------------------------------------------------------

/// The buffer pool: its configuration, the disk manager, what it knows of
/// the pages it holds, its buffers, its clock, its replacement policy
/// (`LRU`, else most recently used) and the number of buffers filled since
/// the last flush.
pub struct BufferManager {
    pub db_config: DBConfig,
    pub disk_manager: DiskManager,
    pub liste_pages: Vec<PageInfo>,
    pub liste_buffer: Vec<Buffer>,
    pub compteur_temps: u64,
    pub algo_remplacement: String,
    pub nb_pages_vecteur: u32,
}

impl BufferManager {
    /// One buffer per configured buffer, each well formed; no more buffers
    /// filled than there are buffers or entries.
    pub open spec fn wf(&self) -> bool {
        &&& self.liste_buffer@.len() == self.db_config.bm_buffer_count
        &&& self.nb_pages_vecteur <= self.db_config.bm_buffer_count
        &&& self.nb_pages_vecteur <= self.liste_pages@.len()
        &&& forall|i: int| 0 <= i < self.liste_buffer@.len() ==> (#[trigger] self.liste_buffer@[i]).wf()
    }

    /// Whether the policy is least recently used.
    pub open spec fn uses_lru(&self) -> bool {
        str_bytes(self.algo_remplacement) == lit_lru()
    }

    /// The entries after `get_page(pid)`.
    pub open spec fn get_page_pages(&self, pid: PageId) -> Seq<PageInfo> {
        let pages = self.liste_pages@;
        let f = first_match(pages, pid);
        if f >= 0 {
            pages_after_hit(pages, f, self.compteur_temps)
        } else if self.nb_pages_vecteur < self.db_config.bm_buffer_count {
            pages.push(fresh_info(pid, self.compteur_temps))
        } else {
            let v = victim_index(pages, self.db_config.bm_buffer_count, self.uses_lru());
            if unpinned(pages[v]) {
                pages.update(v, fresh_info(pid, self.compteur_temps))
            } else {
                pages
            }
        }
    }

    /// The buffer `get_page(pid)` gives.
    pub open spec fn get_page_frame(&self, pid: PageId) -> int {
        let pages = self.liste_pages@;
        let f = first_match(pages, pid);
        if f >= 0 {
            f
        } else if self.nb_pages_vecteur < self.db_config.bm_buffer_count {
            self.nb_pages_vecteur as int
        } else {
            victim_index(pages, self.db_config.bm_buffer_count, self.uses_lru())
        }
    }

    /// The disk operations `get_page(pid)` asks for: none when the page is
    /// held; else reading it into the buffer it gets, after writing that
    /// buffer back to its own page when that page was modified.
    pub open spec fn get_page_actions(&self, pid: PageId) -> Seq<DiskAction> {
        let pages = self.liste_pages@;
        let f = first_match(pages, pid);
        if f >= 0 {
            Seq::empty()
        } else if self.nb_pages_vecteur < self.db_config.bm_buffer_count {
            seq![DiskAction::Read { page_id: pid, frame: self.nb_pages_vecteur as usize }]
        } else {
            let v = victim_index(pages, self.db_config.bm_buffer_count, self.uses_lru());
            if unpinned(pages[v]) {
                (if pages[v].dirty_bit {
                    seq![DiskAction::Write { page_id: pages[v].page_id, frame: v as usize }]
                } else {
                    Seq::empty()
                }) + seq![DiskAction::Read { page_id: pid, frame: v as usize }]
            } else {
                Seq::empty()
            }
        }
    }

    /// The states on which `get_page(pid)` runs to its end: the clock can
    /// advance; a held page can be pinned once more and has a buffer; else,
    /// once every buffer was filled, there are entries, not too many to
    /// index in a `u32`, and the replacement scan gives an entry with a
    /// buffer.
    pub open spec fn get_page_ok(&self, pid: PageId) -> bool {
        let pages = self.liste_pages@;
        let f = first_match(pages, pid);
        let count = self.db_config.bm_buffer_count;
        &&& self.compteur_temps < u64::MAX
        &&& f >= 0 ==> f < count && pages[f].pin_count < u32::MAX
        &&& (f < 0 && self.nb_pages_vecteur >= count) ==> ({
            let v = victim_index(pages, count, self.uses_lru());
            &&& 0 < pages.len() <= u32::MAX
            &&& v < pages.len()
            &&& v < count
        })
    }

    /// An empty pool with one zeroed page-sized buffer per configured
    /// buffer.
    pub fn new(db_config: DBConfig, disk_manager: DiskManager, algo_remplacement: String) -> (bm: BufferManager)
        ensures
            bm.wf(),
            bm.db_config == db_config,
            bm.disk_manager == disk_manager,
            bm.algo_remplacement == algo_remplacement,
            bm.liste_pages@ == Seq::<PageInfo>::empty(),
            bm.compteur_temps == 0,
            bm.nb_pages_vecteur == 0,
            forall|i: int|
                0 <= i < bm.liste_buffer@.len() ==> (#[trigger] bm.liste_buffer@[i]).view().data == Seq::new(
                    db_config.pagesize as nat,
                    |k: int| 0u8,
                ),
    {
        let count = db_config.bm_buffer_count as usize;
        let size = db_config.pagesize as usize;
        let mut frames: Vec<Buffer> = Vec::new();
        let mut i: usize = 0;
        while i < count
            invariant
                0 <= i <= count,
                count == db_config.bm_buffer_count,
                size == db_config.pagesize,
                frames@.len() == i,
                forall|j: int|
                    0 <= j < i ==> (#[trigger] frames@[j]).wf() && frames@[j].view().data == Seq::new(
                        size as nat,
                        |k: int| 0u8,
                    ),
            decreases count - i,
        {
            frames.push(Buffer::with_size(size));
            i += 1;
        }
        BufferManager {
            db_config,
            disk_manager,
            liste_pages: Vec::new(),
            liste_buffer: frames,
            compteur_temps: 0,
            algo_remplacement,
            nb_pages_vecteur: 0,
        }
    }

    pub fn get_disk_manager(&self) -> (r: &DiskManager)
        ensures
            *r == self.disk_manager,
    {
        &self.disk_manager
    }

    pub fn get_disk_manager_mut(&mut self) -> (r: &mut DiskManager)
        ensures
            *r == old(self).disk_manager,
            *final(self) == (BufferManager { disk_manager: *final(r), ..*old(self) }),
    {
        &mut self.disk_manager
    }

    pub fn get_db_config(&self) -> (r: &DBConfig)
        ensures
            *r == self.db_config,
    {
        &self.db_config
    }

    pub fn get_liste_pages(&self) -> (r: &Vec<PageInfo>)
        ensures
            *r == self.liste_pages,
    {
        &self.liste_pages
    }

    pub fn get_liste_buffer(&self) -> (r: &Vec<Buffer>)
        ensures
            *r == self.liste_buffer,
    {
        &self.liste_buffer
    }

    pub fn get_compteur_temps(&self) -> (r: u64)
        ensures
            r == self.compteur_temps,
    {
        self.compteur_temps
    }

    pub fn get_algo(&self) -> (r: &String)
        ensures
            *r == self.algo_remplacement,
    {
        &self.algo_remplacement
    }

    pub fn get_nb_pages_vecteur(&self) -> (r: u32)
        ensures
            r == self.nb_pages_vecteur,
    {
        self.nb_pages_vecteur
    }

    pub fn set_current_replacement_policy(&mut self, algo: String)
        ensures
            *final(self) == (BufferManager { algo_remplacement: algo, ..*old(self) }),
    {
        self.algo_remplacement = algo;
    }

    /// Buffer `i`.
    pub fn frame(&self, i: usize) -> (r: &Buffer)
        requires
            i < self.liste_buffer@.len(),
        ensures
            *r == self.liste_buffer@[i as int],
    {
        &self.liste_buffer[i]
    }

    /// Buffer `i`, to change it.
    pub fn frame_mut(&mut self, i: usize) -> (r: &mut Buffer)
        requires
            i < old(self).liste_buffer@.len(),
        ensures
            *r == old(self).liste_buffer@[i as int],
            final(self).liste_buffer@ == old(self).liste_buffer@.update(i as int, *final(r)),
            final(self).liste_pages == old(self).liste_pages,
            final(self).db_config == old(self).db_config,
            final(self).disk_manager == old(self).disk_manager,
            final(self).compteur_temps == old(self).compteur_temps,
            final(self).algo_remplacement == old(self).algo_remplacement,
            final(self).nb_pages_vecteur == old(self).nb_pages_vecteur,
    {
        &mut self.liste_buffer[i]
    }

    /// The scan of the replacement policy (`oldest`: least recently used).
    fn victim(&self, oldest: bool) -> (r: usize)
        requires
            0 < self.liste_pages@.len() <= u32::MAX,
        ensures
            r == victim_index(self.liste_pages@, self.db_config.bm_buffer_count, oldest),
    {
        let n = self.liste_pages.len();
        let ghost pages = self.liste_pages@;
        let mut best: usize = 0;
        let mut found = false;
        let mut i: usize = 0;
        while i < n
            invariant
                0 <= i <= n,
                n == pages.len(),
                pages == self.liste_pages@,
                found <==> best_unpinned(pages, i as int, oldest) >= 0,
                found ==> best == best_unpinned(pages, i as int, oldest),
            decreases n - i,
        {
            proof {
                lemma_best_props(pages, i as int, oldest);
            }
            if self.liste_pages[i].pin_count == 0 {
                if found {
                    let better = if oldest {
                        self.liste_pages[best].time > self.liste_pages[i].time
                    } else {
                        self.liste_pages[best].time < self.liste_pages[i].time
                    };
                    if better {
                        best = i;
                    }
                } else {
                    best = i;
                    found = true;
                }
            }
            i += 1;
        }
        if found {
            best
        } else {
            self.db_config.bm_buffer_count as usize
        }
    }

    /// The least recently used unpinned page (see `victim_index`).
    pub fn lru(&self) -> (r: usize)
        requires
            0 < self.liste_pages@.len() <= u32::MAX,
        ensures
            r == victim_index(self.liste_pages@, self.db_config.bm_buffer_count, true),
    {
        self.victim(true)
    }

    /// The most recently used unpinned page (see `victim_index`).
    pub fn mru(&self) -> (r: usize)
        requires
            0 < self.liste_pages@.len() <= u32::MAX,
        ensures
            r == victim_index(self.liste_pages@, self.db_config.bm_buffer_count, false),
    {
        self.victim(false)
    }

    /// The index of the first entry about `pid`.
    fn find(&self, pid: &PageId) -> (r: Option<usize>)
        ensures
            match r {
                Some(i) => first_match(self.liste_pages@, *pid) == i as int && i < self.liste_pages@.len(),
                None => first_match(self.liste_pages@, *pid) == -1,
            },
    {
        let mut i: usize = 0;
        while i < self.liste_pages.len()
            invariant
                0 <= i <= self.liste_pages@.len(),
                forall|j: int| 0 <= j < i ==> self.liste_pages@[j].page_id != *pid,
            decreases self.liste_pages@.len() - i,
        {
            if self.liste_pages[i].page_id == *pid {
                proof {
                    lemma_first_match_at(self.liste_pages@, *pid, i as int);
                }
                return Some(i);
            }
            i += 1;
        }
        proof {
            lemma_first_match_absent(self.liste_pages@, *pid);
        }
        None
    }

    /// Gives the buffer that holds page `page_id`, with the disk operations
    /// to perform first: a held page is pinned once more; otherwise, while
    /// not every buffer was filled, the next buffer gets it; else the
    /// replacement policy picks a buffer, which gets it if its page is
    /// unpinned. The clock advances by one.
    pub fn get_page(&mut self, page_id: &PageId) -> (r: (usize, Vec<DiskAction>))
        requires
            old(self).wf(),
            old(self).get_page_ok(*page_id),
        ensures
            final(self).wf(),
            r.0 == old(self).get_page_frame(*page_id),
            r.0 < final(self).liste_buffer@.len(),
            r.1@ == old(self).get_page_actions(*page_id),
            final(self).liste_pages@ == old(self).get_page_pages(*page_id),
            final(self).compteur_temps == old(self).compteur_temps + 1,
            final(self).nb_pages_vecteur == if first_match(old(self).liste_pages@, *page_id) < 0
                && old(self).nb_pages_vecteur < old(self).db_config.bm_buffer_count {
                old(self).nb_pages_vecteur + 1
            } else {
                old(self).nb_pages_vecteur as int
            },
            final(self).liste_buffer == old(self).liste_buffer,
            final(self).db_config == old(self).db_config,
            final(self).disk_manager == old(self).disk_manager,
            final(self).algo_remplacement == old(self).algo_remplacement,
    {
        let t = self.compteur_temps;
        let mut actions: Vec<DiskAction> = Vec::new();
        match self.find(page_id) {
            Some(i) => {
                let old_info = self.liste_pages[i];
                let info = PageInfo { pin_count: old_info.pin_count + 1, time: t as u32, ..old_info };
                self.liste_pages.set(i, info);
                self.compteur_temps = t + 1;
                return (i, actions);
            },
            None => {},
        }
        if self.nb_pages_vecteur < self.db_config.bm_buffer_count {
            let ind = self.nb_pages_vecteur as usize;
            self.liste_pages.push(PageInfo::new(*page_id, 1, false, t as u32));
            actions.push(DiskAction::Read { page_id: *page_id, frame: ind });
            self.nb_pages_vecteur = self.nb_pages_vecteur + 1;
            self.compteur_temps = t + 1;
            proof {
                assert(actions@ =~= old(self).get_page_actions(*page_id));
            }
            return (ind, actions);
        }
        let lru_lit: [u8; 3] = [76u8, 82u8, 85u8];
        assert(lru_lit@ =~= lit_lru());
        let v = if bytes_eq(self.algo_remplacement.as_str().as_bytes(), lru_lit.as_slice()) {
            self.lru()
        } else {
            self.mru()
        };
        if self.liste_pages[v].pin_count == 0 {
            if self.liste_pages[v].dirty_bit {
                actions.push(DiskAction::Write { page_id: self.liste_pages[v].page_id, frame: v });
            }
            actions.push(DiskAction::Read { page_id: *page_id, frame: v });
            self.liste_pages.set(v, PageInfo::new(*page_id, 1, false, t as u32));
        }
        self.compteur_temps = t + 1;
        proof {
            assert(actions@ =~= old(self).get_page_actions(*page_id));
        }
        (v, actions)
    }

    /// Unpins page `page_id` once and records whether it was modified; once
    /// unpinned, it is stamped with the clock. A page not held is ignored.
    pub fn free_page(&mut self, page_id: &PageId, bit_dirty: bool)
        requires
            first_match(old(self).liste_pages@, *page_id) >= 0 ==> old(self).liste_pages@[first_match(
                old(self).liste_pages@,
                *page_id,
            )].pin_count > 0,
        ensures
            final(self).liste_pages@ == pages_after_free(
                old(self).liste_pages@,
                *page_id,
                bit_dirty,
                old(self).compteur_temps,
            ),
            final(self).liste_buffer == old(self).liste_buffer,
            final(self).db_config == old(self).db_config,
            final(self).disk_manager == old(self).disk_manager,
            final(self).compteur_temps == old(self).compteur_temps,
            final(self).algo_remplacement == old(self).algo_remplacement,
            final(self).nb_pages_vecteur == old(self).nb_pages_vecteur,
    {
        match self.find(page_id) {
            None => {},
            Some(i) => {
                let old_info = self.liste_pages[i];
                let pin = old_info.pin_count - 1;
                let time = if pin == 0 { self.compteur_temps as u32 } else { old_info.time };
                self.liste_pages.set(i, PageInfo { pin_count: pin, dirty_bit: bit_dirty, time, ..old_info });
            },
        }
    }

    /// Writes back every modified page among the buffers filled since the
    /// last flush (returned in order), marks them clean and unpinned, and
    /// starts filling the buffers again from the first.
    pub fn flush_buffers(&mut self) -> (r: Vec<DiskAction>)
        requires
            old(self).wf(),
        ensures
            final(self).wf(),
            r@ == flush_writes(old(self).liste_pages@, old(self).nb_pages_vecteur as int),
            final(self).liste_pages@ == pages_after_flush(old(self).liste_pages@, old(self).nb_pages_vecteur as int),
            final(self).nb_pages_vecteur == 0,
            final(self).liste_buffer == old(self).liste_buffer,
            final(self).db_config == old(self).db_config,
            final(self).disk_manager == old(self).disk_manager,
            final(self).compteur_temps == old(self).compteur_temps,
            final(self).algo_remplacement == old(self).algo_remplacement,
    {
        let ghost pages0 = self.liste_pages@;
        let nb = self.nb_pages_vecteur as usize;
        let mut actions: Vec<DiskAction> = Vec::new();
        let mut i: usize = 0;
        while i < nb
            invariant
                0 <= i <= nb,
                nb == old(self).nb_pages_vecteur,
                nb <= pages0.len(),
                pages0 == old(self).liste_pages@,
                self.liste_pages@.len() == pages0.len(),
                forall|j: int| 0 <= j < pages0.len() ==> #[trigger] self.liste_pages@[j] == if j < i && pages0[j].dirty_bit {
                    PageInfo { pin_count: 0, dirty_bit: false, ..pages0[j] }
                } else {
                    pages0[j]
                },
                actions@ == flush_writes(pages0, i as int),
                self.liste_buffer == old(self).liste_buffer,
                self.db_config == old(self).db_config,
                self.disk_manager == old(self).disk_manager,
                self.compteur_temps == old(self).compteur_temps,
                self.algo_remplacement == old(self).algo_remplacement,
                self.nb_pages_vecteur == old(self).nb_pages_vecteur,
            decreases nb - i,
        {
            let info = self.liste_pages[i];
            if info.dirty_bit {
                actions.push(DiskAction::Write { page_id: info.page_id, frame: i });
                self.liste_pages.set(i, PageInfo { pin_count: 0, dirty_bit: false, ..info });
            }
            i += 1;
            proof {
                assert(actions@ =~= flush_writes(pages0, i as int));
            }
        }
        self.nb_pages_vecteur = 0;
        assert(self.liste_pages@ =~= pages_after_flush(pages0, nb as int));
        actions
    }

    /// Writes `bytes` into buffer `frame` at its write cursor: how a page read
    /// from disk lands in its buffer.
    pub fn load_frame(&mut self, frame: usize, bytes: &[u8])
        requires
            old(self).wf(),
            frame < old(self).liste_buffer@.len(),
            old(self).liste_buffer@[frame as int].view().wpos + bytes@.len() <= usize::MAX,
        ensures
            final(self).wf(),
            final(self).liste_buffer@.len() == old(self).liste_buffer@.len(),
            final(self).liste_buffer@[frame as int].view() == (crate::buffer::BufferView {
                data: crate::buffer::spec_write_bytes(
                    old(self).liste_buffer@[frame as int].view().data,
                    old(self).liste_buffer@[frame as int].view().wpos as int,
                    bytes@,
                ),
                wpos: old(self).liste_buffer@[frame as int].view().wpos + bytes@.len(),
                rpos: old(self).liste_buffer@[frame as int].view().rpos,
            }),
            forall|i: int|
                0 <= i < old(self).liste_buffer@.len() && i != frame ==> final(self).liste_buffer@[i]
                    == old(self).liste_buffer@[i],
            final(self).liste_pages == old(self).liste_pages,
            final(self).db_config == old(self).db_config,
            final(self).disk_manager == old(self).disk_manager,
            final(self).compteur_temps == old(self).compteur_temps,
            final(self).algo_remplacement == old(self).algo_remplacement,
            final(self).nb_pages_vecteur == old(self).nb_pages_vecteur,
    {
        self.liste_buffer[frame].write_bytes(bytes);
    }
}

} // verus!
