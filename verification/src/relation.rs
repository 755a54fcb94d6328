//! Relations and their record format.
//!
//! A record is written at a position of a page buffer in one of two layouts:
//!
//! * when some column is a `VARCHAR`, an offset table comes first: for each
//!   sized column the (absolute) offset where its value starts, then the
//!   offset where the record ends, each a 4-byte integer; the values follow;
//! * otherwise the values are written one after the other.
//!
//! `INT` values take 4 bytes (big-endian), `REAL` values the 4 bytes of
//! their binary32 encoding, `CHAR` and `VARCHAR` values their UTF-8 bytes.

use vstd::prelude::*;
use vstd::math::min;
use vstd::string::StringSliceAdditionalSpecFns;
use crate::buffer::{Buffer, BufferView, m_write_int, m_write_string, be_value, word_at};
use crate::col_info::{ColInfo, Record};
use crate::page::PageId;
use crate::schema::{ColKind, kind_of, declared_size, char_size_read, str_bytes, column_kind,
    parse_declared_size, parse_char_size_read};
use crate::text::{parse_i32, spec_parse_i32, i32_text, i32_to_string};

verus! {

// ---------------------------------------------------------------------------
// The layout, as a model
// ---------------------------------------------------------------------------

/// The bytes of each column type.
pub open spec fn types_of(cols: Seq<ColInfo>) -> Seq<Seq<u8>> {
    Seq::new(cols.len(), |i: int| str_bytes(cols[i].column_type))
}

/// The bytes of each value of a tuple.
pub open spec fn vals_of(tuple: Seq<String>) -> Seq<Seq<u8>> {
    Seq::new(tuple.len(), |i: int| str_bytes(tuple[i]))
}

/// Whether some column type starts with `VARCHAR`.
pub open spec fn has_varchar(types: Seq<Seq<u8>>) -> bool {
    exists|i: int| 0 <= i < types.len() && kind_of(#[trigger] types[i]) == ColKind::Varchar
}

/// The state threaded through the writing of a record: the buffer, the
/// position where the next item goes, and the running byte count.
pub struct WState {
    pub m: BufferView,
    pub indice: int,
    pub c: int,
}

/// The space a sized column takes, as recorded while writing: 4 for `INT`
/// and `REAL`, `n` for `CHAR(n)`, the value's length capped at `n` for
/// `VARCHAR(n)`, nothing for other types; `None` when a size cannot be read.
pub open spec fn size_entry(t: Seq<u8>, v: Seq<u8>) -> Option<Seq<usize>> {
    match kind_of(t) {
        ColKind::Int | ColKind::Real => Some(seq![4usize]),
        ColKind::Char => match declared_size(t, 5) {
            Some(n) => Some(seq![n as usize]),
            None => None,
        },
        ColKind::Varchar => match declared_size(t, 8) {
            Some(n) => Some(seq![if n >= v.len() { v.len() as usize } else { n as usize }]),
            None => None,
        },
        ColKind::Other => Some(Seq::<usize>::empty()),
    }
}

/// The sizes recorded for the first `k` values.
pub open spec fn sizes_prefix(types: Seq<Seq<u8>>, vals: Seq<Seq<u8>>, k: int) -> Option<Seq<usize>>
    decreases k,
{
    if k <= 0 {
        Some(Seq::<usize>::empty())
    } else {
        match sizes_prefix(types, vals, k - 1) {
            None => None,
            Some(s) => if k - 1 >= types.len() {
                None
            } else {
                match size_entry(types[k - 1], vals[k - 1]) {
                    None => None,
                    Some(e) => Some(s + e),
                }
            },
        }
    }
}

/// Writes an offset (`Buffer::write_int`, failing stops the whole write).
pub open spec fn put_offset(st: WState, value: int, step: int) -> Option<WState> {
    if st.indice + 4 > usize::MAX || value > usize::MAX || st.c + step > usize::MAX {
        None
    } else {
        let (m2, ok) = m_write_int(st.m, st.indice, value as i32);
        if !ok {
            None
        } else {
            Some(WState { m: m2, indice: st.indice + 4, c: st.c + step })
        }
    }
}

/// One step of the offset table, for column `j`.
pub open spec fn offset_step(types: Seq<Seq<u8>>, sizes: Seq<usize>, pos: int, j: int, st: WState) -> Option<WState> {
    match kind_of(types[j]) {
        ColKind::Int | ColKind::Real => put_offset(st, st.c + pos, 4),
        ColKind::Char | ColKind::Varchar => put_offset(st, st.c + pos, sizes[j] as int),
        ColKind::Other => Some(st),
    }
}

/// The offset table after `k` steps.
pub open spec fn offsets_prefix(types: Seq<Seq<u8>>, sizes: Seq<usize>, pos: int, k: int, st0: WState) -> Option<WState>
    decreases k,
{
    if k <= 0 {
        Some(st0)
    } else {
        match offsets_prefix(types, sizes, pos, k - 1, st0) {
            None => None,
            Some(st) => offset_step(types, sizes, pos, k - 1, st),
        }
    }
}

/// Writes a 4-byte value (errors ignored).
pub open spec fn put_word(st: WState, v: i32) -> Option<WState> {
    if st.indice + 4 > usize::MAX || st.c + 4 > usize::MAX {
        None
    } else {
        Some(WState { m: m_write_int(st.m, st.indice, v).0, indice: st.indice + 4, c: st.c + 4 })
    }
}

/// Writes the bytes of a string (errors ignored).
pub open spec fn put_text(st: WState, bytes: Seq<u8>) -> Option<WState> {
    if st.indice + bytes.len() > usize::MAX || st.c + bytes.len() > usize::MAX {
        None
    } else {
        Some(WState {
            m: m_write_string(st.m, st.indice, bytes).0,
            indice: st.indice + bytes.len(),
            c: st.c + bytes.len(),
        })
    }
}

/// Writes the value of column `j`; `None` when an `INT` value is not an
/// `i32` or when `j` has no value.
pub open spec fn value_step(types: Seq<Seq<u8>>, vals: Seq<Seq<u8>>, reals: Seq<u32>, j: int, st: WState, text_kinds_only_char: bool) -> Option<WState> {
    match kind_of(types[j]) {
        ColKind::Int => if j >= vals.len() {
            None
        } else {
            match spec_parse_i32(vals[j]) {
                None => None,
                Some(v) => put_word(st, v as i32),
            }
        },
        ColKind::Real => if j >= vals.len() {
            None
        } else {
            put_word(st, reals[j] as i32)
        },
        ColKind::Char => if j >= vals.len() {
            None
        } else {
            put_text(st, vals[j])
        },
        ColKind::Varchar => if text_kinds_only_char {
            Some(st)
        } else if j >= vals.len() {
            None
        } else {
            put_text(st, vals[j])
        },
        ColKind::Other => Some(st),
    }
}

/// The values after `k` steps.
pub open spec fn values_prefix(types: Seq<Seq<u8>>, vals: Seq<Seq<u8>>, reals: Seq<u32>, k: int, st0: WState, text_kinds_only_char: bool) -> Option<WState>
    decreases k,
{
    if k <= 0 {
        Some(st0)
    } else {
        match values_prefix(types, vals, reals, k - 1, st0, text_kinds_only_char) {
            None => None,
            Some(st) => value_step(types, vals, reals, k - 1, st, text_kinds_only_char),
        }
    }
}

/// Writing a record with an offset table (some column is a `VARCHAR`): the
/// buffer afterwards and the number of bytes counted.
pub open spec fn encode_with_offsets(types: Seq<Seq<u8>>, vals: Seq<Seq<u8>>, reals: Seq<u32>, m: BufferView, pos: int) -> Option<(BufferView, int)> {
    match sizes_prefix(types, vals, vals.len() as int) {
        None => None,
        Some(sizes) => {
            let compteur: int = 4 * sizes.len() as int + 4;
            if compteur > usize::MAX {
                None
            } else {
                match offsets_prefix(types, sizes, pos, sizes.len() as int, WState { m, indice: pos, c: compteur }) {
                    None => None,
                    Some(st) => match put_offset(st, st.c + pos, 0) {
                        None => None,
                        Some(st2) => if pos + compteur > usize::MAX {
                            None
                        } else {
                            match values_prefix(types, vals, reals, sizes.len() as int,
                                WState { m: st2.m, indice: pos + compteur, c: compteur }, false) {
                                None => None,
                                Some(st3) => Some((st3.m, st3.c)),
                            }
                        },
                    },
                }
            }
        },
    }
}

/// Writing a record without offset table: the buffer afterwards and the
/// number of bytes written.
pub open spec fn encode_flat(types: Seq<Seq<u8>>, vals: Seq<Seq<u8>>, reals: Seq<u32>, m: BufferView, pos: int) -> Option<(BufferView, int)> {
    match values_prefix(types, vals, reals, types.len() as int, WState { m, indice: pos, c: 0 }, true) {
        None => None,
        Some(st) => Some((st.m, st.c)),
    }
}

/// Writing a record at `pos`: `None` when the write cannot complete (an
/// unreadable declared size, an `INT` value that is not an `i32`, more
/// values than columns, an offset that does not fit in the buffer, or an
/// arithmetic overflow).
pub open spec fn spec_encode(types: Seq<Seq<u8>>, vals: Seq<Seq<u8>>, reals: Seq<u32>, m: BufferView, pos: int) -> Option<(BufferView, int)> {
    if has_varchar(types) {
        encode_with_offsets(types, vals, reals, m, pos)
    } else {
        encode_flat(types, vals, reals, m, pos)
    }
}



// ---------------------------------------------------------------------------
// Reading a record back, as a model
// ---------------------------------------------------------------------------

/// A value read back: text (for `INT`, `CHAR`, `VARCHAR` and, in the layout
/// with offsets, other types) or the binary32 encoding of a `REAL`.
pub enum FieldModel {
    Text(Seq<char>),
    Real(u32),
}

/// The state threaded through the reading of a record: the position of the
/// next item, the running byte count and the values read so far.
pub struct RState {
    pub pos: int,
    pub nb: int,
    pub fields: Seq<FieldModel>,
}

/// `Buffer::read_int` at `p`.
pub open spec fn int_at(data: Seq<u8>, p: int) -> Option<i32> {
    if 0 <= p && p + 4 <= data.len() {
        Some(be_value(word_at(data, p)) as i32)
    } else {
        None
    }
}

/// `Buffer::read_string` at `p` for `size` bytes, with `None` when the bytes
/// are missing or are not UTF-8.
pub open spec fn text_at(data: Seq<u8>, p: int, size: int) -> Option<Seq<char>> {
    let at = min(p, data.len() as int);
    if 0 <= size && at + size <= data.len() && vstd::utf8::valid_utf8(data.subrange(at, at + size)) {
        Some(vstd::utf8::decode_utf8(data.subrange(at, at + size)))
    } else {
        None
    }
}

/// Reading column `i` in the layout with offsets.
pub open spec fn read_step_offsets(types: Seq<Seq<u8>>, data: Seq<u8>, i: int, st: RState) -> Option<RState> {
    let p = st.pos;
    if p + 8 > usize::MAX || st.nb + 4 > usize::MAX {
        None
    } else {
        match (int_at(data, p), int_at(data, p + 4)) {
            (Some(d), Some(f)) => if d < 0 || f < 0 {
                None
            } else {
                let nb1 = st.nb + 4;
                match kind_of(types[i]) {
                    ColKind::Int => match int_at(data, d as int) {
                        None => None,
                        Some(v) => if nb1 + 4 > usize::MAX {
                            None
                        } else {
                            Some(RState { pos: p + 4, nb: nb1 + 4, fields: st.fields.push(FieldModel::Text(i32_text(v))) })
                        },
                    },
                    ColKind::Real => match int_at(data, d as int) {
                        None => None,
                        Some(v) => if nb1 + 4 > usize::MAX {
                            None
                        } else {
                            Some(RState { pos: p + 4, nb: nb1 + 4, fields: st.fields.push(FieldModel::Real(v as u32)) })
                        },
                    },
                    _ => if f < d {
                        None
                    } else {
                        match text_at(data, d as int, f - d) {
                            None => None,
                            Some(t) => if nb1 + (f - d) > usize::MAX {
                                None
                            } else {
                                Some(RState { pos: p + 4, nb: nb1 + (f - d), fields: st.fields.push(FieldModel::Text(t)) })
                            },
                        }
                    },
                }
            },
            _ => None,
        }
    }
}

/// Reading column `i` in the layout without offsets.
pub open spec fn read_step_flat(types: Seq<Seq<u8>>, data: Seq<u8>, i: int, st: RState) -> Option<RState> {
    match kind_of(types[i]) {
        ColKind::Int | ColKind::Real => match int_at(data, st.pos) {
            None => None,
            Some(v) => if st.pos + 4 > usize::MAX || st.nb + 4 > usize::MAX {
                None
            } else {
                let f = if kind_of(types[i]) == ColKind::Int { FieldModel::Text(i32_text(v)) } else { FieldModel::Real(v as u32) };
                Some(RState { pos: st.pos + 4, nb: st.nb + 4, fields: st.fields.push(f) })
            },
        },
        ColKind::Char => match char_size_read(types[i]) {
            None => None,
            Some(n) => {
                let size = (n as usize) as int;
                if st.pos + size > usize::MAX || st.nb + size > usize::MAX {
                    None
                } else {
                    match text_at(data, st.pos, size) {
                        None => None,
                        Some(t) => Some(RState { pos: st.pos + size, nb: st.nb + size, fields: st.fields.push(FieldModel::Text(t)) }),
                    }
                }
            },
        },
        _ => Some(st),
    }
}

/// Reading the first `k` columns.
pub open spec fn read_prefix(types: Seq<Seq<u8>>, data: Seq<u8>, k: int, st0: RState, with_offsets: bool) -> Option<RState>
    decreases k,
{
    if k <= 0 {
        Some(st0)
    } else {
        match read_prefix(types, data, k - 1, st0, with_offsets) {
            None => None,
            Some(st) => if with_offsets {
                read_step_offsets(types, data, k - 1, st)
            } else {
                read_step_flat(types, data, k - 1, st)
            },
        }
    }
}

/// Reading the record at `pos`: the values and the number of bytes counted;
/// `None` when the bytes there cannot be read as a record of these columns.
pub open spec fn spec_decode(types: Seq<Seq<u8>>, data: Seq<u8>, pos: int) -> Option<(Seq<FieldModel>, int)> {
    let with_offsets = has_varchar(types);
    match read_prefix(types, data, types.len() as int, RState { pos, nb: 0, fields: Seq::empty() }, with_offsets) {
        None => None,
        Some(st) => if with_offsets {
            if st.nb + 4 > usize::MAX {
                None
            } else {
                Some((st.fields, st.nb + 4))
            }
        } else {
            Some((st.fields, st.nb))
        },
    }
}

pub proof fn lemma_read_none_stays(types: Seq<Seq<u8>>, data: Seq<u8>, k1: int, k2: int, st0: RState, w: bool)
    requires
        0 <= k1 <= k2,
        read_prefix(types, data, k1, st0, w) is None,
    ensures
        read_prefix(types, data, k2, st0, w) is None,
    decreases k2 - k1,
{
    if k1 < k2 {
        lemma_read_none_stays(types, data, k1 + 1, k2, st0, w);
    }
}

/// A value read back from a buffer.
pub enum Field {
    Text(String),
    Real(u32),
}

impl Field {
    pub open spec fn model(&self) -> FieldModel {
        match self {
            Field::Text(s) => FieldModel::Text(s@),
            Field::Real(b) => FieldModel::Real(*b),
        }
    }
}

pub open spec fn models_of(fields: Seq<Field>) -> Seq<FieldModel> {
    Seq::new(fields.len(), |i: int| fields[i].model())
}

// ---------------------------------------------------------------------------
// Once a prefix fails, every longer prefix fails
// ---------------------------------------------------------------------------

pub proof fn lemma_sizes_none_stays(types: Seq<Seq<u8>>, vals: Seq<Seq<u8>>, k1: int, k2: int)
    requires
        0 <= k1 <= k2,
        sizes_prefix(types, vals, k1) is None,
    ensures
        sizes_prefix(types, vals, k2) is None,
    decreases k2 - k1,
{
    if k1 < k2 {
        lemma_sizes_none_stays(types, vals, k1 + 1, k2);
    }
}

pub proof fn lemma_sizes_len(types: Seq<Seq<u8>>, vals: Seq<Seq<u8>>, k: int)
    requires
        0 <= k,
        sizes_prefix(types, vals, k) is Some,
    ensures
        sizes_prefix(types, vals, k).unwrap().len() <= k,
        k <= types.len(),
    decreases k,
{
    if k > 0 {
        lemma_sizes_len(types, vals, k - 1);
    }
}

pub proof fn lemma_offsets_none_stays(types: Seq<Seq<u8>>, sizes: Seq<usize>, pos: int, k1: int, k2: int, st0: WState)
    requires
        0 <= k1 <= k2,
        offsets_prefix(types, sizes, pos, k1, st0) is None,
    ensures
        offsets_prefix(types, sizes, pos, k2, st0) is None,
    decreases k2 - k1,
{
    if k1 < k2 {
        lemma_offsets_none_stays(types, sizes, pos, k1 + 1, k2, st0);
    }
}

pub proof fn lemma_values_none_stays(types: Seq<Seq<u8>>, vals: Seq<Seq<u8>>, reals: Seq<u32>, k1: int, k2: int, st0: WState, flag: bool)
    requires
        0 <= k1 <= k2,
        values_prefix(types, vals, reals, k1, st0, flag) is None,
    ensures
        values_prefix(types, vals, reals, k2, st0, flag) is None,
    decreases k2 - k1,
{
    if k1 < k2 {
        lemma_values_none_stays(types, vals, reals, k1 + 1, k2, st0, flag);
    }
}

// ---------------------------------------------------------------------------
// Relation
// ---------------------------------------------------------------------------

/// A relation: its name, its columns and the page that lists its data pages.
pub struct Relation {
    pub name: String,
    pub columns: Vec<ColInfo>,
    pub nb_columns: usize,
    pub header_page_id: PageId,
}

impl Relation {
    /// Well-formedness: `nb_columns` counts the columns.
    pub open spec fn wf(&self) -> bool {
        self.nb_columns == self.columns@.len()
    }

    pub fn new(name: String, columns: Vec<ColInfo>, header_page_id: PageId) -> (r: Relation)
        ensures
            r.wf(),
            r.name == name,
            r.columns == columns,
            r.header_page_id == header_page_id,
    {
        let n = columns.len();
        Relation { name, columns, nb_columns: n, header_page_id }
    }

    pub fn get_name(&self) -> (r: &String)
        ensures
            r == &self.name,
    {
        &self.name
    }

    /// A copy of the columns.
    pub fn get_columns(&self) -> (r: Vec<ColInfo>)
        ensures
            r@ == self.columns@,
    {
        let mut r: Vec<ColInfo> = Vec::new();
        let mut i: usize = 0;
        while i < self.columns.len()
            invariant
                0 <= i <= self.columns@.len(),
                r@ == self.columns@.subrange(0, i as int),
            decreases self.columns@.len() - i,
        {
            r.push(self.columns[i].duplicate());
            i += 1;
            assert(r@ =~= self.columns@.subrange(0, i as int));
        }
        assert(r@ =~= self.columns@);
        r
    }

    pub fn get_header_page_id(&self) -> (r: &PageId)
        ensures
            *r == self.header_page_id,
    {
        &self.header_page_id
    }

    /// The sizes recorded for the values of a record (the first pass of the
    /// layout with offsets).
    fn record_sizes(&self, vals: &Vec<String>) -> (r: Option<Vec<usize>>)
        ensures
            match sizes_prefix(types_of(self.columns@), vals_of(vals@), vals@.len() as int) {
                None => r is None,
                Some(s) => r matches Some(v) && v@ == s,
            },
    {
        let ghost types = types_of(self.columns@);
        let ghost vs = vals_of(vals@);
        let mut sizes: Vec<usize> = Vec::new();
        let mut i: usize = 0;
        while i < vals.len()
            invariant
                0 <= i <= vals@.len(),
                types == types_of(self.columns@),
                vs == vals_of(vals@),
                sizes_prefix(types, vs, i as int) == Some(sizes@),
            decreases vals@.len() - i,
        {
            if i >= self.columns.len() {
                proof {
                    lemma_sizes_none_stays(types, vs, i + 1, vals@.len() as int);
                }
                return None;
            }
            let t = self.columns[i].get_column_type().as_str().as_bytes();
            let k = column_kind(t);
            let ghost before = sizes@;
            match k {
                ColKind::Int | ColKind::Real => {
                    sizes.push(4);
                },
                ColKind::Char => {
                    match parse_declared_size(t, 5) {
                        None => {
                            proof {
                                lemma_sizes_none_stays(types, vs, i + 1, vals@.len() as int);
                            }
                            return None;
                        },
                        Some(n) => {
                            sizes.push(n);
                        },
                    }
                },
                ColKind::Varchar => {
                    match parse_declared_size(t, 8) {
                        None => {
                            proof {
                                lemma_sizes_none_stays(types, vs, i + 1, vals@.len() as int);
                            }
                            return None;
                        },
                        Some(n) => {
                            let vlen = vals[i].as_str().as_bytes().len();
                            if n >= vlen {
                                sizes.push(vlen);
                            } else {
                                sizes.push(n);
                            }
                        },
                    }
                },
                ColKind::Other => {},
            }
            proof {
                assert(sizes@ =~= before + size_entry(types[i as int], vs[i as int]).unwrap());
            }
            i += 1;
        }
        Some(sizes)
    }

    /// One step of the offset table, for column `j`.
    fn write_offset_step(&self, sizes: &Vec<usize>, buffer: &mut Buffer, pos: usize, j: usize, indice: usize,
        c2: usize) -> (r: Option<(usize, usize)>)
        requires
            old(buffer).wf(),
            j < sizes@.len(),
            sizes@.len() <= self.columns@.len(),
        ensures
            final(buffer).wf(),
            match offset_step(types_of(self.columns@), sizes@, pos as int, j as int,
                WState { m: old(buffer).view(), indice: indice as int, c: c2 as int }) {
                None => r is None,
                Some(st) => r == Some((st.indice as usize, st.c as usize)) && final(buffer).view() == st.m
                    && 0 <= st.indice <= usize::MAX && 0 <= st.c <= usize::MAX,
            },
    {
        let k = self.kind_at(j);
        match k {
            ColKind::Other => Some((indice, c2)),
            _ => {
                let step: usize = match k {
                    ColKind::Int | ColKind::Real => 4,
                    _ => sizes[j],
                };
                if indice > usize::MAX - 4 || c2 > usize::MAX - pos || c2 > usize::MAX - step {
                    return None;
                }
                let value: usize = c2 + pos;
                let w = buffer.write_int(indice, value as i32);
                assert(m_write_int(old(buffer).view(), indice as int, value as i32).1 == w.is_ok());
                if w.is_err() {
                    return None;
                }
                Some((indice + 4, c2 + step))
            },
        }
    }

    /// Writes the offset table (the second pass of the layout with offsets),
    /// returning the position after it and the running count.
    fn write_offsets(&self, sizes: &Vec<usize>, buffer: &mut Buffer, pos: usize, compteur: usize) -> (r: Option<(usize, usize)>)
        requires
            old(buffer).wf(),
            sizes@.len() <= self.columns@.len(),
        ensures
            final(buffer).wf(),
            match offsets_prefix(types_of(self.columns@), sizes@, pos as int, sizes@.len() as int,
                WState { m: old(buffer).view(), indice: pos as int, c: compteur as int }) {
                None => r is None,
                Some(st) => r == Some((st.indice as usize, st.c as usize)) && final(buffer).view() == st.m
                    && 0 <= st.indice <= usize::MAX && 0 <= st.c <= usize::MAX,
            },
    {
        let ghost types = types_of(self.columns@);
        let ghost st0 = WState { m: buffer.view(), indice: pos as int, c: compteur as int };
        let mut indice = pos;
        let mut c2 = compteur;
        let mut j: usize = 0;
        while j < sizes.len()
            invariant
                0 <= j <= sizes@.len(),
                sizes@.len() <= self.columns@.len(),
                types == types_of(self.columns@),
                st0 == (WState { m: old(buffer).view(), indice: pos as int, c: compteur as int }),
                buffer.wf(),
                offsets_prefix(types, sizes@, pos as int, j as int, st0) == Some(
                    WState { m: buffer.view(), indice: indice as int, c: c2 as int },
                ),
            decreases sizes@.len() - j,
        {
            let ghost cur = WState { m: buffer.view(), indice: indice as int, c: c2 as int };
            assert(offsets_prefix(types, sizes@, pos as int, j + 1, st0) == offset_step(
                types, sizes@, pos as int, j as int, cur));
            match self.write_offset_step(sizes, buffer, pos, j, indice, c2) {
                None => {
                    proof {
                        lemma_offsets_none_stays(types, sizes@, pos as int, j + 1, sizes@.len() as int, st0);
                    }
                    return None;
                },
                Some((i2, c3)) => {
                    indice = i2;
                    c2 = c3;
                },
            }
            j += 1;
        }
        Some((indice, c2))
    }

    /// Writes the value of column `j`.
    fn write_value_step(&self, vals: &Vec<String>, reals: &Vec<u32>, buffer: &mut Buffer, j: usize, indice: usize,
        c: usize, only_char: bool) -> (r: Option<(usize, usize)>)
        requires
            old(buffer).wf(),
            j < self.columns@.len(),
            reals@.len() == self.columns@.len(),
        ensures
            final(buffer).wf(),
            match value_step(types_of(self.columns@), vals_of(vals@), reals@, j as int,
                WState { m: old(buffer).view(), indice: indice as int, c: c as int }, only_char) {
                None => r is None,
                Some(st) => r == Some((st.indice as usize, st.c as usize)) && final(buffer).view() == st.m
                    && 0 <= st.indice <= usize::MAX && 0 <= st.c <= usize::MAX,
            },
    {
        let k = self.kind_at(j);
        let skip = match k {
            ColKind::Other => true,
            ColKind::Varchar => only_char,
            _ => false,
        };
        if skip {
            return Some((indice, c));
        }
        if j >= vals.len() {
            return None;
        }
        match k {
            ColKind::Int | ColKind::Real => {
                let word: i32 = if k == ColKind::Int {
                    match parse_i32(vals[j].as_str().as_bytes()) {
                        None => {
                            return None;
                        },
                        Some(v) => v,
                    }
                } else {
                    reals[j] as i32
                };
                if indice > usize::MAX - 4 || c > usize::MAX - 4 {
                    return None;
                }
                let _ = buffer.write_int(indice, word);
                Some((indice + 4, c + 4))
            },
            _ => {
                let text = vals[j].as_str();
                let len = text.as_bytes().len();
                if indice > usize::MAX - len || c > usize::MAX - len {
                    return None;
                }
                let _ = buffer.write_string(indice, text, len);
                Some((indice + len, c + len))
            },
        }
    }

    /// Writes values (the last pass of the layout with offsets, or the whole
    /// layout without), returning the final count.
    fn write_values(&self, vals: &Vec<String>, reals: &Vec<u32>, buffer: &mut Buffer, indice0: usize,
        c0: usize, count: usize, only_char: bool) -> (r: Option<usize>)
        requires
            old(buffer).wf(),
            count <= self.columns@.len(),
            reals@.len() == self.columns@.len(),
        ensures
            final(buffer).wf(),
            match values_prefix(types_of(self.columns@), vals_of(vals@), reals@, count as int,
                WState { m: old(buffer).view(), indice: indice0 as int, c: c0 as int }, only_char) {
                None => r is None,
                Some(st) => r == Some(st.c as usize) && final(buffer).view() == st.m && 0 <= st.c <= usize::MAX,
            },
    {
        let ghost types = types_of(self.columns@);
        let ghost vs = vals_of(vals@);
        let ghost st0 = WState { m: buffer.view(), indice: indice0 as int, c: c0 as int };
        let mut indice = indice0;
        let mut c = c0;
        let mut j: usize = 0;
        while j < count
            invariant
                0 <= j <= count,
                count <= self.columns@.len(),
                reals@.len() == self.columns@.len(),
                types == types_of(self.columns@),
                vs == vals_of(vals@),
                st0 == (WState { m: old(buffer).view(), indice: indice0 as int, c: c0 as int }),
                buffer.wf(),
                values_prefix(types, vs, reals@, j as int, st0, only_char) == Some(
                    WState { m: buffer.view(), indice: indice as int, c: c as int },
                ),
            decreases count - j,
        {
            let ghost cur = WState { m: buffer.view(), indice: indice as int, c: c as int };
            assert(values_prefix(types, vs, reals@, j + 1, st0, only_char) == value_step(
                types, vs, reals@, j as int, cur, only_char));
            match self.write_value_step(vals, reals, buffer, j, indice, c, only_char) {
                None => {
                    proof {
                        lemma_values_none_stays(types, vs, reals@, j + 1, count as int, st0, only_char);
                    }
                    return None;
                },
                Some((i2, c2)) => {
                    indice = i2;
                    c = c2;
                },
            }
            j += 1;
        }
        Some(c)
    }

    /// Writes `record` at `pos` of `buffer` and returns the number of bytes
    /// its layout counts; `real_bits[i]` is the binary32 encoding of the value
    /// of column `i` when that column is a `REAL`. `None` when the write
    /// cannot complete (see `spec_encode`).
    pub fn write_record_to_buffer(&self, record: &Record, real_bits: &Vec<u32>, buffer: &mut Buffer, pos: usize) -> (r: Option<usize>)
        requires
            self.wf(),
            old(buffer).wf(),
            real_bits@.len() == self.columns@.len(),
        ensures
            final(buffer).wf(),
            match spec_encode(types_of(self.columns@), vals_of(record.record_tuple@), real_bits@, old(buffer).view(), pos as int) {
                None => r is None,
                Some((m, n)) => r == Some(n as usize) && final(buffer).view() == m && 0 <= n <= usize::MAX,
            },
    {
        let ghost types = types_of(self.columns@);
        let ghost vs = vals_of(record.record_tuple@);
        let vals = &record.record_tuple;
        if self.has_varchar_column() {
            let sizes = match self.record_sizes(vals) {
                None => return None,
                Some(s) => s,
            };
            proof {
                lemma_sizes_len(types, vs, vs.len() as int);
            }
            if sizes.len() > (usize::MAX - 4) / 4 {
                assert(4 * sizes@.len() + 4 > usize::MAX) by (nonlinear_arith)
                    requires sizes@.len() > (usize::MAX - 4) / 4;
                return None;
            }
            assert(4 * sizes@.len() + 4 <= usize::MAX) by (nonlinear_arith)
                requires sizes@.len() <= (usize::MAX - 4) / 4;
            let compteur = 4 * sizes.len() + 4;
            let ghost m0 = buffer.view();
            let ghost sizes_s = sizes@;
            assert(sizes_prefix(types, vs, vs.len() as int) == Some(sizes_s));
            let (indice, c2) = match self.write_offsets(&sizes, buffer, pos, compteur) {
                None => return None,
                Some(p) => p,
            };
            let ghost st = offsets_prefix(types, sizes_s, pos as int, sizes_s.len() as int,
                WState { m: m0, indice: pos as int, c: compteur as int }).unwrap();
            assert(st.indice == indice && st.c == c2 && buffer.view() == st.m);
            if indice > usize::MAX - 4 || c2 > usize::MAX - pos {
                assert(put_offset(st, st.c + pos, 0) is None);
                return None;
            }
            let value: usize = c2 + pos;
            let ghost before = buffer.view();
            let w = buffer.write_int(indice, value as i32);
            assert(m_write_int(before, indice as int, value as i32).1 == w.is_ok());
            if w.is_err() {
                assert(put_offset(st, st.c + pos, 0) is None);
                return None;
            }
            assert(put_offset(st, st.c + pos, 0) == Some(WState { m: buffer.view(), indice: indice + 4, c: c2 as int }));
            if pos > usize::MAX - compteur {
                return None;
            }
            self.write_values(vals, real_bits, buffer, pos + compteur, compteur, sizes.len(), false)
        } else {
            self.write_values(vals, real_bits, buffer, pos, 0, self.columns.len(), true)
        }
    }

    /// Reads column `j` in the layout with offsets.
    fn read_offsets_step(&self, buff: &mut Buffer, j: usize, pos: usize, nb: usize, fields: &mut Vec<Field>) -> (r: Option<(usize, usize)>)
        requires
            old(buff).wf(),
            j < self.columns@.len(),
        ensures
            final(buff).wf(),
            final(buff).view().data == old(buff).view().data,
            final(buff).view().wpos == old(buff).view().wpos,
            match read_step_offsets(types_of(self.columns@), old(buff).view().data, j as int,
                RState { pos: pos as int, nb: nb as int, fields: models_of(old(fields)@) }) {
                None => r is None,
                Some(st) => r == Some((st.pos as usize, st.nb as usize)) && models_of(final(fields)@) == st.fields
                    && 0 <= st.pos <= usize::MAX && 0 <= st.nb <= usize::MAX,
            },
    {
        let ghost data = buff.view().data;
        if pos > usize::MAX - 8 || nb > usize::MAX - 4 {
            return None;
        }
        let d = match buff.read_int(pos) {
            Err(_) => return None,
            Ok(v) => v,
        };
        let f = match buff.read_int(pos + 4) {
            Err(_) => return None,
            Ok(v) => v,
        };
        if d < 0 || f < 0 {
            return None;
        }
        let nb1 = nb + 4;
        let ghost old_fields = fields@;
        match self.kind_at(j) {
            ColKind::Int | ColKind::Real => {
                let k = self.kind_at(j);
                let v = match buff.read_int(d as usize) {
                    Err(_) => return None,
                    Ok(v) => v,
                };
                if nb1 > usize::MAX - 4 {
                    return None;
                }
                if k == ColKind::Int {
                    fields.push(Field::Text(i32_to_string(v)));
                } else {
                    fields.push(Field::Real(v as u32));
                }
                proof {
                    assert(models_of(fields@) =~= models_of(old_fields).push(fields@.last().model()));
                }
                Some((pos + 4, nb1 + 4))
            },
            _ => {
                if f < d {
                    return None;
                }
                let size = (f - d) as usize;
                let t = match buff.try_read_string(d as usize, size) {
                    Err(_) => return None,
                    Ok(None) => return None,
                    Ok(Some(t)) => t,
                };
                if nb1 > usize::MAX - size {
                    return None;
                }
                fields.push(Field::Text(t));
                proof {
                    assert(models_of(fields@) =~= models_of(old_fields).push(fields@.last().model()));
                }
                Some((pos + 4, nb1 + size))
            },
        }
    }

    /// Reads column `j` in the layout without offsets.
    fn read_flat_step(&self, buff: &mut Buffer, j: usize, pos: usize, nb: usize, fields: &mut Vec<Field>) -> (r: Option<(usize, usize)>)
        requires
            old(buff).wf(),
            j < self.columns@.len(),
        ensures
            final(buff).wf(),
            final(buff).view().data == old(buff).view().data,
            final(buff).view().wpos == old(buff).view().wpos,
            match read_step_flat(types_of(self.columns@), old(buff).view().data, j as int,
                RState { pos: pos as int, nb: nb as int, fields: models_of(old(fields)@) }) {
                None => r is None,
                Some(st) => r == Some((st.pos as usize, st.nb as usize)) && models_of(final(fields)@) == st.fields
                    && 0 <= st.pos <= usize::MAX && 0 <= st.nb <= usize::MAX,
            },
    {
        let ghost old_fields = fields@;
        let k = self.kind_at(j);
        match k {
            ColKind::Int | ColKind::Real => {
                let v = match buff.read_int(pos) {
                    Err(_) => return None,
                    Ok(v) => v,
                };
                if pos > usize::MAX - 4 || nb > usize::MAX - 4 {
                    return None;
                }
                if k == ColKind::Int {
                    fields.push(Field::Text(i32_to_string(v)));
                } else {
                    fields.push(Field::Real(v as u32));
                }
                proof {
                    assert(models_of(fields@) =~= models_of(old_fields).push(fields@.last().model()));
                }
                Some((pos + 4, nb + 4))
            },
            ColKind::Char => {
                let t = self.columns[j].get_column_type().as_str().as_bytes();
                let n = match parse_char_size_read(t) {
                    None => return None,
                    Some(n) => n,
                };
                let size = n as usize;
                if pos > usize::MAX - size || nb > usize::MAX - size {
                    return None;
                }
                let s = match buff.try_read_string(pos, size) {
                    Err(_) => return None,
                    Ok(None) => return None,
                    Ok(Some(s)) => s,
                };
                fields.push(Field::Text(s));
                proof {
                    assert(models_of(fields@) =~= models_of(old_fields).push(fields@.last().model()));
                }
                Some((pos + size, nb + size))
            },
            _ => Some((pos, nb)),
        }
    }

    /// Reads back the values of the record at `pos` of `buff` and the number
    /// of bytes its layout counts; `None` when the bytes there cannot be read
    /// as a record of this relation (see `spec_decode`). Only the read
    /// cursor of the buffer moves.
    pub fn read_from_buffer(&self, buff: &mut Buffer, pos: usize) -> (r: Option<(Vec<Field>, usize)>)
        requires
            self.wf(),
            old(buff).wf(),
        ensures
            final(buff).wf(),
            final(buff).view().data == old(buff).view().data,
            final(buff).view().wpos == old(buff).view().wpos,
            match spec_decode(types_of(self.columns@), old(buff).view().data, pos as int) {
                None => r is None,
                Some((fs, n)) => r matches Some((v, m)) && models_of(v@) == fs && m == n,
            },
    {
        let ghost types = types_of(self.columns@);
        let ghost data = buff.view().data;
        let with_offsets = self.has_varchar_column();
        let ghost st0 = RState { pos: pos as int, nb: 0, fields: Seq::empty() };
        let mut fields: Vec<Field> = Vec::new();
        let mut p = pos;
        let mut nb: usize = 0;
        let mut i: usize = 0;
        let n = self.columns.len();
        proof {
            assert(models_of(fields@) =~= Seq::<FieldModel>::empty());
        }
        while i < n
            invariant
                0 <= i <= n,
                n == self.columns@.len(),
                types == types_of(self.columns@),
                with_offsets == has_varchar(types),
                st0 == (RState { pos: pos as int, nb: 0, fields: Seq::empty() }),
                buff.wf(),
                buff.view().data == data,
                buff.view().wpos == old(buff).view().wpos,
                data == old(buff).view().data,
                read_prefix(types, data, i as int, st0, with_offsets) == Some(
                    RState { pos: p as int, nb: nb as int, fields: models_of(fields@) },
                ),
            decreases n - i,
        {
            let ghost cur = RState { pos: p as int, nb: nb as int, fields: models_of(fields@) };
            assert(read_prefix(types, data, i + 1, st0, with_offsets) == if with_offsets {
                read_step_offsets(types, data, i as int, cur)
            } else {
                read_step_flat(types, data, i as int, cur)
            });
            let step = if with_offsets {
                self.read_offsets_step(buff, i, p, nb, &mut fields)
            } else {
                self.read_flat_step(buff, i, p, nb, &mut fields)
            };
            match step {
                None => {
                    proof {
                        lemma_read_none_stays(types, data, i + 1, n as int, st0, with_offsets);
                    }
                    return None;
                },
                Some((p2, nb2)) => {
                    p = p2;
                    nb = nb2;
                },
            }
            i += 1;
        }
        if with_offsets {
            if nb > usize::MAX - 4 {
                return None;
            }
            Some((fields, nb + 4))
        } else {
            Some((fields, nb))
        }
    }

    /// The kind of column `j`.
    fn kind_at(&self, j: usize) -> (k: ColKind)
        requires
            j < self.columns@.len(),
        ensures
            k == kind_of(types_of(self.columns@)[j as int]),
    {
        let t = self.columns[j].get_column_type().as_str().as_bytes();
        column_kind(t)
    }

    /// Whether some column is a `VARCHAR`.
    fn has_varchar_column(&self) -> (b: bool)
        ensures
            b == has_varchar(types_of(self.columns@)),
    {
        let n = self.columns.len();
        let mut i: usize = 0;
        while i < n
            invariant
                n == self.columns@.len(),
                0 <= i <= n,
                forall|j: int| 0 <= j < i ==> kind_of(#[trigger] types_of(self.columns@)[j]) != ColKind::Varchar,
            decreases n - i,
        {
            if self.kind_at(i) == ColKind::Varchar {
                return true;
            }
            i += 1;
        }
        false
    }
}

} // verus!
