//! What reading a data page gives back of the records inserted into it.
//!
//! A data page that was started fresh and then received records, each
//! written at its free space with its slot in the footer, holds those
//! records one after the other from its start; reading the records of the
//! page gives back their values, in the order they were inserted.

use vstd::prelude::*;
use crate::buffer::{BufferView, be_bytes, m_write_int, word_at, lemma_be_roundtrip};
use crate::format_laws::{
    all_fit, lemma_encode_in_place, lemma_record_at_frame, lemma_record_at_reads, lemma_write_bytes_at_pub,
    read_back_prefix, rec_size, record_at,
};
use crate::relation::{has_varchar, spec_encode, FieldModel};
use crate::relation_pages::{
    footer_part, fresh_data_page, next_free, page_part, page_records, records_from, slot_count, word,
};

verus! {

/// A record as it was inserted: the bytes of its values and the binary32
/// bits of its `REAL` values.
pub type Inserted = (Seq<Seq<u8>>, Seq<u32>);

/// Where record `i` starts: after the records before it.
pub open spec fn start_of(types: Seq<Seq<u8>>, recs: Seq<Inserted>, i: int) -> int
    decreases i,
{
    if i <= 0 {
        0
    } else {
        start_of(types, recs, i - 1) + rec_size(types, recs[i - 1].0)
    }
}

/// What reading gives back of each record.
pub open spec fn read_backs(types: Seq<Seq<u8>>, recs: Seq<Inserted>) -> Seq<Seq<FieldModel>> {
    Seq::new(recs.len(), |i: int| read_back_prefix(types, recs[i].0, recs[i].1, types.len() as int))
}

/// A data page of `page_size` bytes (its footer at the end) that holds
/// `recs` one after the other from its start: the footer counts them and
/// its free space starts after the last one, and they end before the slots.
pub open spec fn page_built(types: Seq<Seq<u8>>, recs: Seq<Inserted>, data: Seq<u8>, page_size: u32) -> bool {
    let n = recs.len() as int;
    &&& 8 <= page_size <= data.len()
    &&& page_size <= i32::MAX
    &&& word(data, page_size - 8) == n
    &&& word(data, page_size - 4) == start_of(types, recs, n)
    &&& start_of(types, recs, n) + 8 * n + 8 <= page_size
    &&& forall|i: int| 0 <= i < n ==> record_at(types, (#[trigger] recs[i]).0, recs[i].1, data, start_of(types, recs, i))
}

proof fn lemma_start_mono(types: Seq<Seq<u8>>, recs: Seq<Inserted>, i: int, j: int)
    requires
        0 <= i <= j,
    ensures
        start_of(types, recs, i) <= start_of(types, recs, j),
    decreases j - i,
{
    if i < j {
        lemma_start_mono(types, recs, i, j - 1);
        lemma_rec_size_nonneg(types, recs[j - 1].0);
    }
}

proof fn lemma_rec_size_nonneg(types: Seq<Seq<u8>>, vals: Seq<Seq<u8>>)
    ensures
        rec_size(types, vals) >= 0,
{
}

proof fn lemma_start_push(types: Seq<Seq<u8>>, recs: Seq<Inserted>, r: Inserted, i: int)
    requires
        0 <= i <= recs.len(),
    ensures
        start_of(types, recs.push(r), i) == start_of(types, recs, i),
    decreases i,
{
    if i > 0 {
        lemma_start_push(types, recs, r, i - 1);
        assert(recs.push(r)[i - 1] == recs[i - 1]);
    }
}

/// Writing a 4-byte word inside the data: the word reads back there, the
/// size stays and every byte outside it stays.
proof fn lemma_put_word(m: BufferView, p: int, v: i32)
    requires
        0 <= p,
        p + 4 <= m.data.len(),
    ensures
        m_write_int(m, p, v).0.data.len() == m.data.len(),
        word(m_write_int(m, p, v).0.data, p) == v,
        forall|q: int|
            0 <= q < m.data.len() && !(p <= q < p + 4) ==> #[trigger] m_write_int(m, p, v).0.data[q] == m.data[q],
{
    let b = be_bytes(v as u32);
    lemma_be_roundtrip(v as u32);
    lemma_write_bytes_at_pub(m.data, p, b);
    let d = m_write_int(m, p, v).0.data;
    assert(word_at(d, p) =~= b);
    let u = v as u32;
    assert((u as i32) == v) by (bit_vector)
        requires
            u == v as u32,
    ;
}

/// A word is unchanged where only bytes outside it change.
proof fn lemma_word_kept(d1: Seq<u8>, d2: Seq<u8>, p: int, lo: int, hi: int)
    requires
        0 <= p,
        p + 4 <= d1.len(),
        d1.len() == d2.len(),
        p + 4 <= lo || hi <= p,
        forall|q: int| 0 <= q < d1.len() && !(lo <= q < hi) ==> #[trigger] d2[q] == d1[q],
    ensures
        word(d2, p) == word(d1, p),
{
    assert(word_at(d2, p) =~= word_at(d1, p)) by {
        assert forall|i: int| 0 <= i < 4 implies word_at(d2, p)[i] == word_at(d1, p)[i] by {
            assert(d2[p + i] == d1[p + i]);
        }
    }
}

/// Every record of a built page stays in place where only bytes at or
/// after `lo` change.
proof fn lemma_records_kept(types: Seq<Seq<u8>>, recs: Seq<Inserted>, d1: Seq<u8>, d2: Seq<u8>, lo: int, hi: int)
    requires
        forall|i: int|
            0 <= i < recs.len() ==> record_at(types, (#[trigger] recs[i]).0, recs[i].1, d1, start_of(types, recs, i)),
        start_of(types, recs, recs.len() as int) <= lo,
        d1.len() == d2.len(),
        forall|q: int| 0 <= q < d1.len() && !(lo <= q < hi) ==> #[trigger] d2[q] == d1[q],
    ensures
        forall|i: int|
            0 <= i < recs.len() ==> record_at(types, (#[trigger] recs[i]).0, recs[i].1, d2, start_of(types, recs, i)),
{
    assert forall|i: int| 0 <= i < recs.len() implies record_at(
        types,
        (#[trigger] recs[i]).0,
        recs[i].1,
        d2,
        start_of(types, recs, i),
    ) by {
        lemma_start_mono(types, recs, i + 1, recs.len() as int);
        lemma_record_at_frame(types, recs[i].0, recs[i].1, d1, d2, start_of(types, recs, i), lo, hi);
    }
}

/// A fresh data page holds no record.
pub proof fn lemma_fresh_page_built(types: Seq<Seq<u8>>, m: BufferView, page_size: u32)
    requires
        8 <= page_size <= m.data.len(),
        page_size <= i32::MAX,
    ensures
        page_built(types, Seq::empty(), fresh_data_page(m, page_size).data, page_size),
{
    let m1 = m_write_int(m, page_size - 4, 0).0;
    lemma_put_word(m, page_size - 4, 0);
    lemma_put_word(m1, page_size - 8, 0);
    let m2 = m_write_int(m1, page_size - 8, 0).0;
    lemma_word_kept(m1.data, m2.data, page_size - 4, page_size - 8, page_size - 4);
}

/// Reading `len - i` records from the start of record `i` of a page that
/// holds them gives them back.
proof fn lemma_records_from(types: Seq<Seq<u8>>, recs: Seq<Inserted>, data: Seq<u8>, i: int)
    requires
        0 <= i <= recs.len(),
        forall|k: int|
            0 <= k < recs.len() ==> record_at(types, (#[trigger] recs[k]).0, recs[k].1, data, start_of(types, recs, k)),
        start_of(types, recs, recs.len() as int) <= i32::MAX,
    ensures
        records_from(types, data, (recs.len() - i) as nat, start_of(types, recs, i)) == Some(
            read_backs(types, recs).subrange(i, recs.len() as int),
        ),
    decreases recs.len() - i,
{
    let n = recs.len() as int;
    if i < n {
        lemma_records_from(types, recs, data, i + 1);
        assert(record_at(types, recs[i].0, recs[i].1, data, start_of(types, recs, i)));
        lemma_record_at_reads(types, recs[i].0, recs[i].1, data, start_of(types, recs, i));
        lemma_start_mono(types, recs, i + 1, n);
        assert(read_backs(types, recs).subrange(i, n) =~= seq![read_backs(types, recs)[i]] + read_backs(
            types,
            recs,
        ).subrange(i + 1, n));
    } else {
        assert(read_backs(types, recs).subrange(n, n) =~= Seq::<Seq<FieldModel>>::empty());
    }
}

/// Reading the records of a built page gives back the records it holds, in
/// order.
pub proof fn lemma_built_page_reads(types: Seq<Seq<u8>>, recs: Seq<Inserted>, data: Seq<u8>, page_size: u32)
    requires
        page_built(types, recs, data, page_size),
    ensures
        page_records(types, data, page_size) == Some(read_backs(types, recs)),
{
    let n = recs.len() as int;
    lemma_records_from(types, recs, data, 0);
    assert(read_backs(types, recs).subrange(0, n) =~= read_backs(types, recs));
    assert(slot_count(data, page_size) == n);
}

/// Inserting a record of fitting values into a built page, where the record
/// and one more slot fit before the footer, succeeds; the page then holds
/// the records it held followed by the new one.
#[verifier::rlimit(40)]
pub proof fn lemma_insert_keeps_built(
    types: Seq<Seq<u8>>,
    recs: Seq<Inserted>,
    vals: Seq<Seq<u8>>,
    reals: Seq<u32>,
    page: BufferView,
    page_size: u32,
)
    requires
        page_built(types, recs, page.data, page_size),
        all_fit(types, vals, !has_varchar(types)),
        reals.len() == types.len(),
        start_of(types, recs, recs.len() as int) + rec_size(types, vals) + 8 * (recs.len() + 1) + 8 <= page_size,
    ensures
        page_part(types, vals, reals, page, page_size) matches Some((p, slot, size)) && size == rec_size(types, vals)
            && page_built(types, recs.push((vals, reals)), p.data, page_size),
{
    reveal(page_part);
    reveal(footer_part);
    let n = recs.len() as int;
    let ps = page_size as int;
    let pos0 = start_of(types, recs, n);
    let size = rec_size(types, vals);
    lemma_rec_size_nonneg(types, vals);
    assert(next_free(page.data, page_size) == pos0);
    let v1 = BufferView { rpos: page_size as nat, ..page };
    lemma_encode_in_place(types, vals, reals, v1, pos0);
    let (p1, k) = spec_encode(types, vals, reals, v1, pos0).unwrap();
    // The footer words were not touched by the record.
    lemma_word_kept(page.data, p1.data, ps - 8, pos0, pos0 + size);
    lemma_word_kept(page.data, p1.data, ps - 4, pos0, pos0 + size);
    assert(slot_count(p1.data, page_size) == n);
    lemma_records_kept(types, recs, page.data, p1.data, pos0, pos0 + size);
    // The footer writes.
    let m = n;
    let v2 = BufferView { rpos: (page_size - 4) as nat, ..p1 };
    let slot = ps - 8 - 8 * m - 8;
    let q2 = m_write_int(v2, ps - 8, (m + 1) as i32).0;
    let q3 = m_write_int(q2, ps - 4, (pos0 + size) as i32).0;
    let q4 = m_write_int(q3, slot, pos0 as i32).0;
    let q5 = m_write_int(q4, slot + 4, size as i32).0;
    lemma_put_word(v2, ps - 8, (m + 1) as i32);
    lemma_put_word(q2, ps - 4, (pos0 + size) as i32);
    lemma_put_word(q3, slot, pos0 as i32);
    lemma_put_word(q4, slot + 4, size as i32);
    assert(footer_part(p1, page_size, pos0 as usize, size) == Some((q5, slot as usize)));
    // The counts in the footer.
    lemma_word_kept(q2.data, q3.data, ps - 8, ps - 4, ps);
    lemma_word_kept(q3.data, q4.data, ps - 8, slot, slot + 4);
    lemma_word_kept(q4.data, q5.data, ps - 8, slot + 4, slot + 8);
    lemma_word_kept(q3.data, q4.data, ps - 4, slot, slot + 4);
    lemma_word_kept(q4.data, q5.data, ps - 4, slot + 4, slot + 8);
    // The records, old and new, stay in place.
    let recs2 = recs.push((vals, reals));
    assert forall|q: int| 0 <= q < p1.data.len() && !(slot <= q < ps) implies #[trigger] q5.data[q] == p1.data[q] by {
        assert(q2.data[q] == v2.data[q]);
        assert(q3.data[q] == q2.data[q]);
        assert(q4.data[q] == q3.data[q]);
        assert(q5.data[q] == q4.data[q]);
    }
    lemma_records_kept(types, recs, p1.data, q5.data, slot, ps);
    lemma_record_at_frame(types, vals, reals, p1.data, q5.data, pos0, slot, ps);
    assert forall|i: int| 0 <= i < n + 1 implies record_at(
        types,
        (#[trigger] recs2[i]).0,
        recs2[i].1,
        q5.data,
        start_of(types, recs2, i),
    ) by {
        lemma_start_push(types, recs, (vals, reals), i);
        if i < n {
            assert(recs2[i] == recs[i]);
        }
    }
    lemma_start_push(types, recs, (vals, reals), n);
    assert(start_of(types, recs2, n + 1) == pos0 + size);
}

} // verus!
