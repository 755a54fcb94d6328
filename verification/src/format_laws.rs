//! What reading a record gives back of writing it.
//!
//! For columns whose types the format handles fully (`INT`, `REAL`,
//! `CHAR(n)`, `VARCHAR(n)`) and values that fit them, writing a record at a
//! position of a buffer and reading the record at that position gives back
//! the values that were written, and both count the same number of bytes.

use vstd::prelude::*;
use vstd::utf8::{encode_utf8, decode_utf8, valid_utf8};
use crate::buffer::{BufferView, be_bytes, be_value, word_at, spec_write_bytes, lemma_be_roundtrip};
use crate::col_info::ColInfo;
use crate::relation::{
    types_of, vals_of, has_varchar, WState, sizes_prefix, offsets_prefix, put_offset, values_prefix,
    spec_encode, encode_with_offsets, FieldModel, RState, read_prefix, spec_decode, read_step_flat, read_step_offsets, int_at, text_at,
};
use crate::schema::{ColKind, kind_of, declared_size, char_size_read};
use crate::text::{spec_parse_i32, i32_text};

verus! {

// ---------------------------------------------------------------------------
// Values that fit their column
// ---------------------------------------------------------------------------

/// Whether the bytes `v` fit a column of type `t` exactly: an `i32` for
/// `INT`, anything for `REAL` (its value travels as binary32 bits), exactly
/// `n` bytes for a `CHAR(n)` whose size reads the same when written and
/// read, at most `n` bytes for a `VARCHAR(n)`. Other types do not fit.
pub open spec fn field_fits(t: Seq<u8>, v: Seq<u8>) -> bool {
    match kind_of(t) {
        ColKind::Int => spec_parse_i32(v) is Some,
        ColKind::Real => true,
        ColKind::Char => declared_size(t, 5) == Some(v.len() as int) && char_size_read(t) == Some(
            v.len() as int,
        ),
        ColKind::Varchar => declared_size(t, 8) matches Some(n) && v.len() <= n,
        ColKind::Other => false,
    }
}

/// The bytes a fitting value takes in the record.
pub open spec fn field_enc(t: Seq<u8>, v: Seq<u8>, r: u32) -> Seq<u8> {
    match kind_of(t) {
        ColKind::Int => be_bytes((spec_parse_i32(v).unwrap() as i32) as u32),
        ColKind::Real => be_bytes((r as i32) as u32),
        _ => v,
    }
}

/// The number of bytes a fitting value takes.
pub open spec fn field_size(t: Seq<u8>, v: Seq<u8>) -> nat {
    match kind_of(t) {
        ColKind::Int | ColKind::Real => 4,
        _ => v.len(),
    }
}

/// The bytes taken by the first `k` values.
pub open spec fn sizes_sum(types: Seq<Seq<u8>>, vals: Seq<Seq<u8>>, k: int) -> nat
    decreases k,
{
    if k <= 0 {
        0
    } else {
        sizes_sum(types, vals, k - 1) + field_size(types[k - 1], vals[k - 1])
    }
}

/// `data` holds `b` from `start` on.
pub open spec fn holds_at(data: Seq<u8>, start: int, b: Seq<u8>) -> bool {
    0 <= start && start + b.len() <= data.len() && data.subrange(start, start + b.len()) == b
}

/// What reading gives back of a fitting value.
pub open spec fn field_read_back(t: Seq<u8>, v: Seq<u8>, r: u32) -> FieldModel {
    match kind_of(t) {
        ColKind::Real => FieldModel::Real(r),
        ColKind::Int => FieldModel::Text(i32_text(spec_parse_i32(v).unwrap() as i32)),
        _ => FieldModel::Text(decode_utf8(v)),
    }
}

/// Every value fits its column (and, for the layout without offsets, no
/// column is a `VARCHAR`); text values are UTF-8.
pub open spec fn all_fit(types: Seq<Seq<u8>>, vals: Seq<Seq<u8>>, flat: bool) -> bool {
    &&& types.len() == vals.len()
    &&& forall|j: int| 0 <= j < types.len() ==> field_fits(#[trigger] types[j], vals[j])
    &&& forall|j: int| 0 <= j < types.len() ==> valid_utf8(#[trigger] vals[j])
    &&& flat ==> forall|j: int| 0 <= j < types.len() ==> kind_of(#[trigger] types[j]) != ColKind::Varchar
}

// ---------------------------------------------------------------------------
// Byte-level facts
// ---------------------------------------------------------------------------

proof fn lemma_write_bytes_at(data: Seq<u8>, at: int, b: Seq<u8>)
    requires
        0 <= at,
        at + b.len() <= data.len(),
    ensures
        spec_write_bytes(data, at, b).len() == data.len(),
        forall|q: int|
            0 <= q < data.len() ==> #[trigger] spec_write_bytes(data, at, b)[q] == if at <= q < at + b.len() {
                b[q - at]
            } else {
                data[q]
            },
{
    let end = at + b.len();
    let tail = if end < data.len() { data.subrange(end, data.len() as int) } else { Seq::<u8>::empty() };
    assert(tail.len() == data.len() - end);
    let r = spec_write_bytes(data, at, b);
    assert(r == data.subrange(0, at) + b + tail);
    assert forall|q: int| 0 <= q < data.len() implies #[trigger] r[q] == if at <= q < at + b.len() {
        b[q - at]
    } else {
        data[q]
    } by {
        if q < at {
            assert(r[q] == data.subrange(0, at)[q]);
        } else if q < end {
            assert(r[q] == (data.subrange(0, at) + b)[q]);
        } else {
            assert(r[q] == tail[q - end]);
        }
    }
}

/// Writing `b` at `at`, byte by byte.
pub proof fn lemma_write_bytes_at_pub(data: Seq<u8>, at: int, b: Seq<u8>)
    requires
        0 <= at,
        at + b.len() <= data.len(),
    ensures
        spec_write_bytes(data, at, b).len() == data.len(),
        forall|q: int|
            0 <= q < data.len() ==> #[trigger] spec_write_bytes(data, at, b)[q] == if at <= q < at + b.len() {
                b[q - at]
            } else {
                data[q]
            },
{
    lemma_write_bytes_at(data, at, b);
}

/// A write leaves in place what lies outside the bytes it writes.
proof fn lemma_write_keeps(data: Seq<u8>, at: int, b: Seq<u8>, start: int, x: Seq<u8>)
    requires
        0 <= at,
        at + b.len() <= data.len(),
        holds_at(data, start, x),
        start + x.len() <= at || at + b.len() <= start,
    ensures
        holds_at(spec_write_bytes(data, at, b), start, x),
{
    lemma_write_bytes_at(data, at, b);
    let r = spec_write_bytes(data, at, b);
    assert forall|i: int| 0 <= i < x.len() implies r.subrange(start, start + x.len())[i] == x[i] by {
        assert(r[start + i] == data[start + i]);
        assert(data.subrange(start, start + x.len())[i] == data[start + i]);
    }
    assert(r.subrange(start, start + x.len()) =~= x);
}

/// A write puts its bytes in place.
proof fn lemma_write_puts(data: Seq<u8>, at: int, b: Seq<u8>)
    requires
        0 <= at,
        at + b.len() <= data.len(),
    ensures
        holds_at(spec_write_bytes(data, at, b), at, b),
{
    lemma_write_bytes_at(data, at, b);
    let r = spec_write_bytes(data, at, b);
    assert forall|i: int| 0 <= i < b.len() implies r.subrange(at, at + b.len())[i] == b[i] by {
        assert(r[at + i] == b[i]);
    }
    assert(r.subrange(at, at + b.len()) =~= b);
}

/// Data equal outside a range holds what it held there.
proof fn lemma_holds_outside(d1: Seq<u8>, d2: Seq<u8>, lo: int, hi: int, start: int, x: Seq<u8>)
    requires
        d1.len() <= d2.len(),
        holds_at(d1, start, x),
        start + x.len() <= lo || hi <= start,
        forall|q: int| 0 <= q < d1.len() && !(lo <= q < hi) ==> #[trigger] d2[q] == d1[q],
    ensures
        holds_at(d2, start, x),
{
    assert forall|i: int| 0 <= i < x.len() implies d2.subrange(start, start + x.len())[i] == x[i] by {
        assert(d2[start + i] == d1[start + i]);
        assert(d1.subrange(start, start + x.len())[i] == d1[start + i]);
    }
    assert(d2.subrange(start, start + x.len()) =~= x);
}

proof fn lemma_sum_mono(types: Seq<Seq<u8>>, vals: Seq<Seq<u8>>, j: int, k: int)
    requires
        0 <= j <= k,
    ensures
        sizes_sum(types, vals, j) <= sizes_sum(types, vals, k),
    decreases k - j,
{
    if j < k {
        lemma_sum_mono(types, vals, j, k - 1);
    }
}

/// An `i32` written as 4 bytes reads back as itself.
proof fn lemma_word_i32(v: i32)
    ensures
        be_value(be_bytes(v as u32)) as i32 == v,
{
    lemma_be_roundtrip(v as u32);
    assert(((v as u32) as i32) == v) by (bit_vector);
}

/// A `u32` written through `as i32` reads back as itself.
proof fn lemma_word_u32(r: u32)
    ensures
        (be_value(be_bytes((r as i32) as u32)) as i32) as u32 == r,
{
    lemma_be_roundtrip((r as i32) as u32);
    assert((((r as i32) as u32) as i32) as u32 == r) by (bit_vector);
}

// ---------------------------------------------------------------------------
// Writing
// ---------------------------------------------------------------------------

/// The sizes recorded for fitting values are their sizes.
proof fn lemma_sizes_ok(types: Seq<Seq<u8>>, vals: Seq<Seq<u8>>, k: int)
    requires
        0 <= k <= types.len(),
        all_fit(types, vals, false),
        sizes_sum(types, vals, types.len() as int) <= i32::MAX,
    ensures
        sizes_prefix(types, vals, k) == Some(
            Seq::new(k as nat, |j: int| field_size(types[j], vals[j]) as usize),
        ),
    decreases k,
{
    if k > 0 {
        lemma_sizes_ok(types, vals, k - 1);
        lemma_sum_mono(types, vals, k, types.len() as int);
        let j = k - 1;
        assert(field_fits(types[j], vals[j]));
        let prev = Seq::new((k - 1) as nat, |i: int| field_size(types[i], vals[i]) as usize);
        assert(Seq::new(k as nat, |i: int| field_size(types[i], vals[i]) as usize) =~= prev.push(
            field_size(types[j], vals[j]) as usize,
        ));
    }
}

/// Writing the values of the first `k` columns from `st0`: each lands at
/// its place and nothing else changes.
proof fn lemma_values_write(
    types: Seq<Seq<u8>>,
    vals: Seq<Seq<u8>>,
    reals: Seq<u32>,
    k: int,
    st0: WState,
    flat: bool,
)
    requires
        0 <= k <= types.len(),
        all_fit(types, vals, flat),
        0 <= st0.indice,
        0 <= st0.c,
        st0.indice + sizes_sum(types, vals, k) <= st0.m.data.len(),
        st0.indice + sizes_sum(types, vals, k) <= i32::MAX,
        st0.c + sizes_sum(types, vals, k) <= i32::MAX,
    ensures
        values_prefix(types, vals, reals, k, st0, flat) is Some,
        ({
            let st = values_prefix(types, vals, reals, k, st0, flat).unwrap();
            &&& st.indice == st0.indice + sizes_sum(types, vals, k)
            &&& st.c == st0.c + sizes_sum(types, vals, k)
            &&& st.m.data.len() == st0.m.data.len()
            &&& forall|j: int|
                0 <= j < k ==> holds_at(
                    st.m.data,
                    st0.indice + #[trigger] sizes_sum(types, vals, j),
                    field_enc(types[j], vals[j], reals[j]),
                )
            &&& forall|q: int|
                0 <= q < st0.m.data.len() && !(st0.indice <= q < st0.indice + sizes_sum(types, vals, k))
                    ==> #[trigger] st.m.data[q] == st0.m.data[q]
        }),
    decreases k,
{
    if k > 0 {
        let j = k - 1;
        lemma_values_write(types, vals, reals, j, st0, flat);
        let st = values_prefix(types, vals, reals, j, st0, flat).unwrap();
        let t = types[j];
        let v = vals[j];
        let enc = field_enc(t, v, reals[j]);
        assert(field_fits(t, v));
        assert(enc.len() == field_size(t, v));
        lemma_write_bytes_at(st.m.data, st.indice, enc);
        lemma_write_puts(st.m.data, st.indice, enc);
        let d2 = spec_write_bytes(st.m.data, st.indice, enc);
        let next = values_prefix(types, vals, reals, k, st0, flat);
        assert(next is Some && next.unwrap().indice == st.indice + enc.len() && next.unwrap().c == st.c
            + enc.len() && next.unwrap().m.data == d2) by {
            if flat {
                assert(kind_of(t) != ColKind::Varchar);
            }
        }
        assert forall|i: int| 0 <= i < k implies holds_at(
            d2,
            st0.indice + #[trigger] sizes_sum(types, vals, i),
            field_enc(types[i], vals[i], reals[i]),
        ) by {
            if i < j {
                lemma_sum_mono(types, vals, i + 1, j);
                assert(field_fits(types[i], vals[i]));
                lemma_write_keeps(st.m.data, st.indice, enc, st0.indice + sizes_sum(types, vals, i),
                    field_enc(types[i], vals[i], reals[i]));
            }
        }
        assert forall|q: int|
            0 <= q < st0.m.data.len() && !(st0.indice <= q < st0.indice + sizes_sum(types, vals, k))
            implies #[trigger] d2[q] == st0.m.data[q] by {
            assert(d2[q] == st.m.data[q]);
        }
    }
}

/// Writing the offsets of the first `k` columns from `st0` (at `pos`): each
/// lands at its place and nothing else changes.
#[verifier::rlimit(40)]
proof fn lemma_offsets_write(
    types: Seq<Seq<u8>>,
    vals: Seq<Seq<u8>>,
    sizes: Seq<usize>,
    pos: int,
    k: int,
    st0: WState,
)
    requires
        0 <= k <= types.len(),
        all_fit(types, vals, false),
        sizes == Seq::new(types.len(), |j: int| field_size(types[j], vals[j]) as usize),
        sizes_sum(types, vals, types.len() as int) <= i32::MAX,
        st0.indice == pos,
        0 <= pos,
        0 <= st0.c,
        pos + 4 * k <= st0.m.data.len(),
        pos + 4 * k <= i32::MAX,
        st0.c + sizes_sum(types, vals, k) + pos <= i32::MAX,
    ensures
        offsets_prefix(types, sizes, pos, k, st0) is Some,
        ({
            let st = offsets_prefix(types, sizes, pos, k, st0).unwrap();
            &&& st.indice == pos + 4 * k
            &&& st.c == st0.c + sizes_sum(types, vals, k)
            &&& st.m.data.len() == st0.m.data.len()
            &&& forall|i: int|
                0 <= i < k ==> holds_at(
                    st.m.data,
                    pos + 4 * i,
                    be_bytes(((st0.c + #[trigger] sizes_sum(types, vals, i) + pos) as i32) as u32),
                )
            &&& forall|q: int|
                0 <= q < st0.m.data.len() && !(pos <= q < pos + 4 * k) ==> #[trigger] st.m.data[q]
                    == st0.m.data[q]
        }),
    decreases k,
{
    if k > 0 {
        let j = k - 1;
        lemma_offsets_write(types, vals, sizes, pos, j, st0);
        lemma_sum_mono(types, vals, k, types.len() as int);
        let st = offsets_prefix(types, sizes, pos, j, st0).unwrap();
        assert(field_fits(types[j], vals[j]));
        let value = st.c + pos;
        let enc = be_bytes((value as i32) as u32);
        lemma_write_bytes_at(st.m.data, st.indice, enc);
        lemma_write_puts(st.m.data, st.indice, enc);
        let d2 = spec_write_bytes(st.m.data, st.indice, enc);
        assert(sizes[j] as int == field_size(types[j], vals[j]));
        assert(st.c + field_size(types[j], vals[j]) <= usize::MAX);
        let nst = put_offset(st, value, field_size(types[j], vals[j]) as int);
        assert(nst is Some && nst.unwrap().indice == st.indice + 4 && nst.unwrap().c == st.c + field_size(
            types[j],
            vals[j],
        ) && nst.unwrap().m.data == d2);
        assert(offsets_prefix(types, sizes, pos, k, st0) == nst);
        assert forall|i: int| 0 <= i < k implies holds_at(
            d2,
            pos + 4 * i,
            be_bytes(((st0.c + #[trigger] sizes_sum(types, vals, i) + pos) as i32) as u32),
        ) by {
            if i < j {
                lemma_write_keeps(st.m.data, st.indice, enc, pos + 4 * i,
                    be_bytes(((st0.c + sizes_sum(types, vals, i) + pos) as i32) as u32));
            }
        }
        assert forall|q: int| 0 <= q < st0.m.data.len() && !(pos <= q < pos + 4 * k) implies #[trigger] d2[q]
            == st0.m.data[q] by {
            assert(d2[q] == st.m.data[q]);
        }
    }
}

// ---------------------------------------------------------------------------
// Reading
// ---------------------------------------------------------------------------

/// The values read back from the first `k` columns.
pub open spec fn read_back_prefix(types: Seq<Seq<u8>>, vals: Seq<Seq<u8>>, reals: Seq<u32>, k: int) -> Seq<FieldModel> {
    Seq::new(k as nat, |i: int| field_read_back(types[i], vals[i], reals[i]))
}

/// Reading the first `k` columns without offsets, where the values were
/// written one after the other from `base`.
proof fn lemma_read_flat(types: Seq<Seq<u8>>, vals: Seq<Seq<u8>>, reals: Seq<u32>, data: Seq<u8>, base: int, k: int)
    requires
        0 <= k <= types.len(),
        all_fit(types, vals, true),
        0 <= base,
        base + sizes_sum(types, vals, types.len() as int) <= i32::MAX,
        forall|j: int|
            0 <= j < types.len() ==> holds_at(
                data,
                base + #[trigger] sizes_sum(types, vals, j),
                field_enc(types[j], vals[j], reals[j]),
            ),
    ensures
        read_prefix(types, data, k, RState { pos: base, nb: 0, fields: Seq::empty() }, false) == Some(
            RState {
                pos: base + sizes_sum(types, vals, k),
                nb: sizes_sum(types, vals, k) as int,
                fields: read_back_prefix(types, vals, reals, k),
            },
        ),
    decreases k,
{
    if k > 0 {
        let j = k - 1;
        lemma_read_flat(types, vals, reals, data, base, j);
        lemma_sum_mono(types, vals, k, types.len() as int);
        let st = RState {
            pos: base + sizes_sum(types, vals, j),
            nb: sizes_sum(types, vals, j) as int,
            fields: read_back_prefix(types, vals, reals, j),
        };
        let t = types[j];
        let v = vals[j];
        assert(field_fits(t, v));
        assert(valid_utf8(v));
        assert(kind_of(t) != ColKind::Varchar);
        let p = st.pos;
        let enc = field_enc(t, v, reals[j]);
        assert(holds_at(data, p, enc));
        assert(read_back_prefix(types, vals, reals, k) =~= read_back_prefix(types, vals, reals, j).push(
            field_read_back(t, v, reals[j]),
        ));
        let want = RState {
            pos: base + sizes_sum(types, vals, k),
            nb: sizes_sum(types, vals, k) as int,
            fields: read_back_prefix(types, vals, reals, k),
        };
        match kind_of(t) {
            ColKind::Int => {
                let x = spec_parse_i32(v).unwrap() as i32;
                lemma_word_i32(x);
                assert(word_at(data, p) == enc);
                assert(read_step_flat(types, data, j, st) == Some(want));
            },
            ColKind::Real => {
                lemma_word_u32(reals[j]);
                assert(word_at(data, p) == enc);
                assert(read_step_flat(types, data, j, st) == Some(want));
            },
            ColKind::Char => {
                assert(data.subrange(p, p + v.len()) == v);
                assert(text_at(data, p, v.len() as int) == Some(decode_utf8(v)));
                assert(read_step_flat(types, data, j, st) == Some(want));
            },
            _ => {},
        }
    } else {
        assert(read_back_prefix(types, vals, reals, 0) =~= Seq::<FieldModel>::empty());
    }
}

/// Reading the first `k` columns with offsets, where the offset table was
/// written at `pos` and the values one after the other after it.
#[verifier::rlimit(80)]
#[verifier::spinoff_prover]
proof fn lemma_read_offsets(
    types: Seq<Seq<u8>>,
    vals: Seq<Seq<u8>>,
    reals: Seq<u32>,
    data: Seq<u8>,
    pos: int,
    k: int,
)
    requires
        0 <= k <= types.len(),
        all_fit(types, vals, false),
        0 <= pos,
        pos + 4 * types.len() + 4 + sizes_sum(types, vals, types.len() as int) <= i32::MAX,
        forall|i: int|
            0 <= i <= types.len() ==> holds_at(
                data,
                pos + 4 * i,
                be_bytes(
                    ((4 * types.len() + 4 + #[trigger] sizes_sum(types, vals, i) + pos) as i32) as u32,
                ),
            ),
        forall|j: int|
            0 <= j < types.len() ==> holds_at(
                data,
                pos + 4 * types.len() + 4 + #[trigger] sizes_sum(types, vals, j),
                field_enc(types[j], vals[j], reals[j]),
            ),
    ensures
        read_prefix(types, data, k, RState { pos, nb: 0, fields: Seq::empty() }, true) == Some(
            RState {
                pos: pos + 4 * k,
                nb: 4 * k + sizes_sum(types, vals, k),
                fields: read_back_prefix(types, vals, reals, k),
            },
        ),
    decreases k,
{
    if k > 0 {
        let j = k - 1;
        lemma_read_offsets(types, vals, reals, data, pos, j);
        lemma_sum_mono(types, vals, k, types.len() as int);
        let n = types.len();
        let t = types[j];
        let v = vals[j];
        assert(field_fits(t, v));
        assert(valid_utf8(v));
        let p = pos + 4 * j;
        let d = 4 * n + 4 + sizes_sum(types, vals, j) + pos;
        let f = 4 * n + 4 + sizes_sum(types, vals, k) + pos;
        assert(holds_at(data, p, be_bytes((d as i32) as u32)));
        assert(holds_at(data, p + 4, be_bytes((f as i32) as u32)));
        lemma_be_roundtrip((d as i32) as u32);
        lemma_be_roundtrip((f as i32) as u32);
        assert(word_at(data, p) == be_bytes((d as i32) as u32));
        assert(word_at(data, p + 4) == be_bytes((f as i32) as u32));
        let enc = field_enc(t, v, reals[j]);
        assert(holds_at(data, d, enc));
        assert(read_back_prefix(types, vals, reals, k) =~= read_back_prefix(types, vals, reals, j).push(
            field_read_back(t, v, reals[j]),
        ));
        match kind_of(t) {
            ColKind::Int => {
                let x = spec_parse_i32(v).unwrap() as i32;
                lemma_word_i32(x);
                assert(word_at(data, d) == enc);
            },
            ColKind::Real => {
                lemma_word_u32(reals[j]);
                assert(word_at(data, d) == enc);
            },
            _ => {},
        }
    } else {
        assert(read_back_prefix(types, vals, reals, 0) =~= Seq::<FieldModel>::empty());
    }
}

// ---------------------------------------------------------------------------
// The law
// ---------------------------------------------------------------------------

/// A value that the record format writes and reads back unchanged under a
/// column of type `t`: its bytes fit the column, and an `INT` value is
/// written the way `i32::to_string` writes its number.
pub open spec fn value_round_trips(t: Seq<u8>, s: Seq<char>) -> bool {
    let v = encode_utf8(s);
    &&& field_fits(t, v)
    &&& kind_of(t) == ColKind::Int ==> i32_text(spec_parse_i32(v).unwrap() as i32) == s
}

/// One value per column, each of which round-trips under its column.
pub open spec fn record_round_trips(cols: Seq<ColInfo>, tuple: Seq<String>) -> bool {
    &&& cols.len() == tuple.len()
    &&& forall|i: int| 0 <= i < cols.len() ==> value_round_trips(#[trigger] types_of(cols)[i], tuple[i]@)
}

/// The number of bytes the layout counts for a record whose values fit:
/// the values, plus a 4-byte offset per column and one more when some
/// column is a `VARCHAR`.
pub open spec fn record_size(cols: Seq<ColInfo>, tuple: Seq<String>) -> int {
    let types = types_of(cols);
    let total = sizes_sum(types, vals_of(tuple), types.len() as int) as int;
    if has_varchar(types) {
        4 * types.len() + 4 + total
    } else {
        total
    }
}

/// What reading a record gives back: the text of each value, and for a
/// `REAL` column the binary32 bits that were written.
pub open spec fn read_back(cols: Seq<ColInfo>, tuple: Seq<String>, reals: Seq<u32>) -> Seq<FieldModel> {
    Seq::new(
        cols.len(),
        |i: int|
            if kind_of(types_of(cols)[i]) == ColKind::Real {
                FieldModel::Real(reals[i])
            } else {
                FieldModel::Text(tuple[i]@)
            },
    )
}

/// Writing with offsets: the offset table and then the values land in place.
#[verifier::rlimit(60)]
proof fn lemma_encode_offsets(types: Seq<Seq<u8>>, vals: Seq<Seq<u8>>, reals: Seq<u32>, m: BufferView, pos: int)
    requires
        all_fit(types, vals, false),
        0 <= pos,
        pos + 4 * types.len() + 4 + sizes_sum(types, vals, types.len() as int) <= m.data.len(),
        pos + 4 * types.len() + 4 + sizes_sum(types, vals, types.len() as int) <= i32::MAX,
    ensures
        encode_with_offsets(types, vals, reals, m, pos) matches Some((m2, k)) && k == 4 * types.len() + 4
            + sizes_sum(types, vals, types.len() as int) && (forall|i: int|
            0 <= i <= types.len() ==> holds_at(
                m2.data,
                pos + 4 * i,
                be_bytes(((4 * types.len() + 4 + #[trigger] sizes_sum(types, vals, i) + pos) as i32) as u32),
            )) && (forall|j: int|
            0 <= j < types.len() ==> holds_at(
                m2.data,
                pos + 4 * types.len() + 4 + #[trigger] sizes_sum(types, vals, j),
                field_enc(types[j], vals[j], reals[j]),
            )) && m2.data.len() == m.data.len() && (forall|q: int|
            0 <= q < m.data.len() && !(pos <= q < pos + k) ==> #[trigger] m2.data[q] == m.data[q]),
{
    let n = types.len() as int;
    let total = sizes_sum(types, vals, n);
    lemma_sizes_ok(types, vals, n);
    let sizes = Seq::new(n as nat, |j: int| field_size(types[j], vals[j]) as usize);
    assert(sizes_prefix(types, vals, vals.len() as int) == Some(sizes));
    let compteur = 4 * n + 4;
    let st0 = WState { m, indice: pos, c: compteur };
    lemma_offsets_write(types, vals, sizes, pos, n, st0);
    let st1 = offsets_prefix(types, sizes, pos, n, st0).unwrap();
    let end_value = st1.c + pos;
    let end_bytes = be_bytes((end_value as i32) as u32);
    lemma_write_bytes_at(st1.m.data, st1.indice, end_bytes);
    lemma_write_puts(st1.m.data, st1.indice, end_bytes);
    let d2 = spec_write_bytes(st1.m.data, st1.indice, end_bytes);
    let st2 = put_offset(st1, end_value, 0).unwrap();
    assert(st2.m.data == d2 && st2.indice == pos + compteur && st2.c == st1.c);
    let st2b = WState { m: st2.m, indice: pos + compteur, c: compteur };
    lemma_values_write(types, vals, reals, n, st2b, false);
    let st3 = values_prefix(types, vals, reals, n, st2b, false).unwrap();
    assert(encode_with_offsets(types, vals, reals, m, pos) == Some((st3.m, st3.c)));
    let data = st3.m.data;
    assert forall|i: int| 0 <= i <= n implies holds_at(
        data,
        pos + 4 * i,
        be_bytes(((4 * n + 4 + #[trigger] sizes_sum(types, vals, i) + pos) as i32) as u32),
    ) by {
        let b = be_bytes(((4 * n + 4 + sizes_sum(types, vals, i) + pos) as i32) as u32);
        if i < n {
            lemma_write_keeps(st1.m.data, st1.indice, end_bytes, pos + 4 * i, b);
        }
        lemma_holds_outside(d2, data, pos + compteur, pos + compteur + total, pos + 4 * i, b);
    }
    assert forall|q: int| 0 <= q < m.data.len() && !(pos <= q < pos + compteur + total) implies #[trigger] data[q]
        == m.data[q] by {
        assert(data[q] == d2[q]);
        assert(d2[q] == st1.m.data[q]);
    }
}

// ---------------------------------------------------------------------------
// Writing past the end
// ---------------------------------------------------------------------------

/// Writing `b` at `at`, where `at` is within the data: the data grows when
/// the bytes go past its end.
proof fn lemma_write_grow(data: Seq<u8>, at: int, b: Seq<u8>)
    requires
        0 <= at <= data.len(),
    ensures
        spec_write_bytes(data, at, b).len() == if at + b.len() <= data.len() {
            data.len() as int
        } else {
            at + b.len()
        },
        forall|q: int|
            0 <= q < spec_write_bytes(data, at, b).len() ==> #[trigger] spec_write_bytes(data, at, b)[q] == if at <= q
                < at + b.len() {
                b[q - at]
            } else {
                data[q]
            },
        holds_at(spec_write_bytes(data, at, b), at, b),
{
    let end = at + b.len();
    let tail = if end < data.len() { data.subrange(end, data.len() as int) } else { Seq::<u8>::empty() };
    let r = spec_write_bytes(data, at, b);
    assert(r == data.subrange(0, at) + b + tail);
    assert forall|q: int| 0 <= q < r.len() implies #[trigger] r[q] == if at <= q < at + b.len() {
        b[q - at]
    } else {
        data[q]
    } by {
        if q < at {
            assert(r[q] == data.subrange(0, at)[q]);
        } else if q < end {
            assert(r[q] == (data.subrange(0, at) + b)[q]);
        } else {
            assert(r[q] == tail[q - end]);
        }
    }
    assert forall|i: int| 0 <= i < b.len() implies r.subrange(at, at + b.len())[i] == b[i] by {
        assert(r[at + i] == b[i]);
    }
    assert(r.subrange(at, at + b.len()) =~= b);
}

/// Whether a value written at `at` into `len` bytes takes effect there: an
/// `INT` or `REAL` value lies within the `len` bytes, and a text value is
/// no longer than the buffer, which grows as text is written past its end.
pub open spec fn field_in_place(t: Seq<u8>, v: Seq<u8>, at: int, len: int) -> bool {
    match kind_of(t) {
        ColKind::Int | ColKind::Real => at + 4 <= len,
        _ => v.len() <= if at <= len { len } else { at },
    }
}

/// Whether each of the first `k` values, written one after the other from
/// `base` into `len` bytes, takes effect (see `field_in_place`).
pub open spec fn values_in_place(types: Seq<Seq<u8>>, vals: Seq<Seq<u8>>, k: int, base: int, len: int) -> bool {
    forall|j: int|
        0 <= j < k ==> field_in_place(types[j], vals[j], base + #[trigger] sizes_sum(types, vals, j), len)
}

/// Whether every write of a record at `pos` into `len` bytes takes effect:
/// the record starts within the buffer, its offset table (when it has one)
/// lies within it, and so does each value (see `values_in_place`).
pub open spec fn record_in_place(types: Seq<Seq<u8>>, vals: Seq<Seq<u8>>, pos: int, len: int) -> bool {
    let n = types.len() as int;
    if has_varchar(types) {
        pos + 4 * n + 4 <= len && values_in_place(types, vals, n, pos + 4 * n + 4, len)
    } else {
        pos <= len && values_in_place(types, vals, n, pos, len)
    }
}

/// Writing the values of the first `k` columns from `st0`, each taking
/// effect: each lands at its place, the buffer grows to the end of the
/// last value written past it, and nothing else changes.
#[verifier::rlimit(80)]
#[verifier::spinoff_prover]
proof fn lemma_values_grow(
    types: Seq<Seq<u8>>,
    vals: Seq<Seq<u8>>,
    reals: Seq<u32>,
    k: int,
    st0: WState,
    flat: bool,
)
    requires
        0 <= k <= types.len(),
        all_fit(types, vals, flat),
        0 <= st0.indice <= st0.m.data.len(),
        0 <= st0.c,
        values_in_place(types, vals, k, st0.indice, st0.m.data.len() as int),
        st0.indice + sizes_sum(types, vals, k) <= i32::MAX,
        st0.c + sizes_sum(types, vals, k) <= i32::MAX,
    ensures
        values_prefix(types, vals, reals, k, st0, flat) is Some,
        ({
            let st = values_prefix(types, vals, reals, k, st0, flat).unwrap();
            let end = st0.indice + sizes_sum(types, vals, k);
            &&& st.indice == end
            &&& st.c == st0.c + sizes_sum(types, vals, k)
            &&& st.m.data.len() == if end <= st0.m.data.len() { st0.m.data.len() as int } else { end }
            &&& forall|j: int|
                0 <= j < k ==> holds_at(
                    st.m.data,
                    st0.indice + #[trigger] sizes_sum(types, vals, j),
                    field_enc(types[j], vals[j], reals[j]),
                )
            &&& forall|q: int|
                0 <= q < st0.m.data.len() && !(st0.indice <= q < end) ==> #[trigger] st.m.data[q] == st0.m.data[q]
        }),
    decreases k,
{
    if k > 0 {
        let j = k - 1;
        let len0 = st0.m.data.len() as int;
        lemma_sum_mono(types, vals, j, k);
        assert(values_in_place(types, vals, j, st0.indice, len0));
        lemma_values_grow(types, vals, reals, j, st0, flat);
        let st = values_prefix(types, vals, reals, j, st0, flat).unwrap();
        let t = types[j];
        let v = vals[j];
        let enc = field_enc(t, v, reals[j]);
        assert(field_fits(t, v));
        assert(enc.len() == field_size(t, v));
        assert(field_in_place(t, v, st0.indice + sizes_sum(types, vals, j), len0));
        lemma_write_grow(st.m.data, st.indice, enc);
        let d2 = spec_write_bytes(st.m.data, st.indice, enc);
        let next = values_prefix(types, vals, reals, k, st0, flat);
        assert(next is Some && next.unwrap().indice == st.indice + enc.len() && next.unwrap().c == st.c
            + enc.len() && next.unwrap().m.data == d2) by {
            if flat {
                assert(kind_of(t) != ColKind::Varchar);
            }
        }
        assert forall|i: int| 0 <= i < k implies holds_at(
            d2,
            st0.indice + #[trigger] sizes_sum(types, vals, i),
            field_enc(types[i], vals[i], reals[i]),
        ) by {
            if i < j {
                lemma_sum_mono(types, vals, i + 1, j);
                assert(field_fits(types[i], vals[i]));
                lemma_holds_outside(st.m.data, d2, st.indice, st.indice + enc.len(),
                    st0.indice + sizes_sum(types, vals, i), field_enc(types[i], vals[i], reals[i]));
            }
        }
        assert forall|q: int|
            0 <= q < len0 && !(st0.indice <= q < st0.indice + sizes_sum(types, vals, k))
            implies #[trigger] d2[q] == st0.m.data[q] by {
            assert(d2[q] == st.m.data[q]);
        }
    }
}

/// Writing a record of fitting values where every write takes effect
/// succeeds, takes `rec_size` bytes and leaves the record in place.
#[verifier::rlimit(60)]
#[verifier::spinoff_prover]
pub proof fn lemma_encode_grow(types: Seq<Seq<u8>>, vals: Seq<Seq<u8>>, reals: Seq<u32>, m: BufferView, pos: int)
    requires
        all_fit(types, vals, !has_varchar(types)),
        reals.len() == types.len(),
        0 <= pos,
        record_in_place(types, vals, pos, m.data.len() as int),
        pos + rec_size(types, vals) <= i32::MAX,
    ensures
        spec_encode(types, vals, reals, m, pos) matches Some((m2, k)) && k == rec_size(types, vals)
            && record_at(types, vals, reals, m2.data, pos),
{
    let n = types.len() as int;
    let total = sizes_sum(types, vals, n);
    if has_varchar(types) {
        lemma_sizes_ok(types, vals, n);
        let sizes = Seq::new(n as nat, |j: int| field_size(types[j], vals[j]) as usize);
        assert(sizes_prefix(types, vals, vals.len() as int) == Some(sizes));
        let compteur = 4 * n + 4;
        let st0 = WState { m, indice: pos, c: compteur };
        lemma_offsets_write(types, vals, sizes, pos, n, st0);
        let st1 = offsets_prefix(types, sizes, pos, n, st0).unwrap();
        let end_value = st1.c + pos;
        let end_bytes = be_bytes((end_value as i32) as u32);
        lemma_write_bytes_at(st1.m.data, st1.indice, end_bytes);
        lemma_write_puts(st1.m.data, st1.indice, end_bytes);
        let d2 = spec_write_bytes(st1.m.data, st1.indice, end_bytes);
        let st2 = put_offset(st1, end_value, 0).unwrap();
        assert(st2.m.data == d2 && st2.indice == pos + compteur && st2.c == st1.c);
        let st2b = WState { m: st2.m, indice: pos + compteur, c: compteur };
        lemma_values_grow(types, vals, reals, n, st2b, false);
        let st3 = values_prefix(types, vals, reals, n, st2b, false).unwrap();
        assert(encode_with_offsets(types, vals, reals, m, pos) == Some((st3.m, st3.c)));
        let data = st3.m.data;
        assert forall|i: int| 0 <= i <= n implies holds_at(
            data,
            pos + 4 * i,
            be_bytes(((4 * n + 4 + #[trigger] sizes_sum(types, vals, i) + pos) as i32) as u32),
        ) by {
            let b = be_bytes(((4 * n + 4 + sizes_sum(types, vals, i) + pos) as i32) as u32);
            if i < n {
                lemma_write_keeps(st1.m.data, st1.indice, end_bytes, pos + 4 * i, b);
            }
            lemma_holds_outside(d2, data, pos + compteur, pos + compteur + total, pos + 4 * i, b);
        }
    } else {
        let st0 = WState { m, indice: pos, c: 0 };
        lemma_values_grow(types, vals, reals, n, st0, true);
    }
}

/// Writing a record whose values round-trip under its columns, at a
/// position where every write takes effect (see `record_in_place`; in
/// particular wherever the record fits in the buffer), succeeds; reading
/// the record at that position then gives back the values written, and
/// both count the same number of bytes.
pub proof fn lemma_record_roundtrip(
    cols: Seq<ColInfo>,
    tuple: Seq<String>,
    reals: Seq<u32>,
    m: BufferView,
    pos: int,
)
    requires
        record_round_trips(cols, tuple),
        reals.len() == cols.len(),
        0 <= pos,
        record_in_place(types_of(cols), vals_of(tuple), pos, m.data.len() as int),
        pos + record_size(cols, tuple) <= i32::MAX,
    ensures
        spec_encode(types_of(cols), vals_of(tuple), reals, m, pos) matches Some((m2, n)) && n == record_size(
            cols,
            tuple,
        ) && spec_decode(types_of(cols), m2.data, pos) == Some((read_back(cols, tuple, reals), n)),
{
    broadcast use vstd::utf8::encode_utf8_valid_utf8, vstd::utf8::encode_utf8_decode_utf8;

    let types = types_of(cols);
    let vals = vals_of(tuple);
    let n = types.len() as int;
    let flat = !has_varchar(types);
    assert forall|j: int| 0 <= j < n implies field_fits(#[trigger] types[j], vals[j]) && valid_utf8(vals[j]) by {
        assert(value_round_trips(types_of(cols)[j], tuple[j]@));
    }
    assert(all_fit(types, vals, flat));
    assert(read_back_prefix(types, vals, reals, n) =~= read_back(cols, tuple, reals)) by {
        assert forall|i: int| 0 <= i < n implies read_back_prefix(types, vals, reals, n)[i] == read_back(
            cols,
            tuple,
            reals,
        )[i] by {
            assert(value_round_trips(types_of(cols)[i], tuple[i]@));
        }
    }
    lemma_encode_grow(types, vals, reals, m, pos);
    let (m2, k) = spec_encode(types, vals, reals, m, pos).unwrap();
    lemma_record_at_reads(types, vals, reals, m2.data, pos);
}

/// A record that fits in the buffer is written with every write taking
/// effect.
pub proof fn lemma_fits_in_place(types: Seq<Seq<u8>>, vals: Seq<Seq<u8>>, pos: int, len: int)
    requires
        all_fit(types, vals, !has_varchar(types)),
        0 <= pos,
        pos + rec_size(types, vals) <= len,
    ensures
        record_in_place(types, vals, pos, len),
{
    let n = types.len() as int;
    let base = if has_varchar(types) { pos + 4 * n + 4 } else { pos };
    assert forall|j: int| 0 <= j < n implies field_in_place(types[j], vals[j], base + #[trigger] sizes_sum(types, vals, j), len) by {
        lemma_sum_mono(types, vals, j + 1, n);
        assert(field_fits(types[j], vals[j]));
    }
}

// ---------------------------------------------------------------------------
// A record in place
// ---------------------------------------------------------------------------

/// The bytes that a record of fitting values takes.
pub open spec fn rec_size(types: Seq<Seq<u8>>, vals: Seq<Seq<u8>>) -> int {
    let n = types.len() as int;
    let t = sizes_sum(types, vals, n) as int;
    if has_varchar(types) {
        4 * n + 4 + t
    } else {
        t
    }
}

/// `data` holds, from `pos`, the record written with these values: each
/// value (and, with offsets, each offset) at its place.
pub open spec fn record_at(types: Seq<Seq<u8>>, vals: Seq<Seq<u8>>, reals: Seq<u32>, data: Seq<u8>, pos: int) -> bool {
    let n = types.len() as int;
    &&& all_fit(types, vals, !has_varchar(types))
    &&& reals.len() == n
    &&& 0 <= pos
    &&& pos + rec_size(types, vals) <= data.len()
    &&& pos + rec_size(types, vals) <= i32::MAX
    &&& if has_varchar(types) {
        &&& forall|i: int|
            0 <= i <= n ==> holds_at(
                data,
                pos + 4 * i,
                be_bytes(((4 * n + 4 + #[trigger] sizes_sum(types, vals, i) + pos) as i32) as u32),
            )
        &&& forall|j: int|
            0 <= j < n ==> holds_at(
                data,
                pos + 4 * n + 4 + #[trigger] sizes_sum(types, vals, j),
                field_enc(types[j], vals[j], reals[j]),
            )
    } else {
        forall|j: int|
            0 <= j < n ==> holds_at(data, pos + #[trigger] sizes_sum(types, vals, j), field_enc(types[j], vals[j], reals[j]))
    }
}

/// A record in place reads back as its values, and the read counts the
/// bytes it takes.
pub proof fn lemma_record_at_reads(types: Seq<Seq<u8>>, vals: Seq<Seq<u8>>, reals: Seq<u32>, data: Seq<u8>, pos: int)
    requires
        record_at(types, vals, reals, data, pos),
    ensures
        spec_decode(types, data, pos) == Some((read_back_prefix(types, vals, reals, types.len() as int), rec_size(types, vals))),
{
    let n = types.len() as int;
    if has_varchar(types) {
        lemma_read_offsets(types, vals, reals, data, pos, n);
    } else {
        lemma_read_flat(types, vals, reals, data, pos, n);
    }
}

/// Writing a record of fitting values where it fits succeeds, takes
/// `rec_size` bytes, leaves the record in place and every other byte as it
/// was.
pub proof fn lemma_encode_in_place(types: Seq<Seq<u8>>, vals: Seq<Seq<u8>>, reals: Seq<u32>, m: BufferView, pos: int)
    requires
        all_fit(types, vals, !has_varchar(types)),
        reals.len() == types.len(),
        0 <= pos,
        pos + rec_size(types, vals) <= m.data.len(),
        pos + rec_size(types, vals) <= i32::MAX,
    ensures
        spec_encode(types, vals, reals, m, pos) matches Some((m2, k)) && k == rec_size(types, vals)
            && m2.data.len() == m.data.len() && record_at(types, vals, reals, m2.data, pos) && (forall|q: int|
            0 <= q < m.data.len() && !(pos <= q < pos + k) ==> #[trigger] m2.data[q] == m.data[q]),
{
    let n = types.len() as int;
    if has_varchar(types) {
        lemma_encode_offsets(types, vals, reals, m, pos);
    } else {
        let st0 = WState { m, indice: pos, c: 0 };
        lemma_values_write(types, vals, reals, n, st0, true);
    }
}

/// A record in place stays in place where only bytes outside it change.
pub proof fn lemma_record_at_frame(
    types: Seq<Seq<u8>>,
    vals: Seq<Seq<u8>>,
    reals: Seq<u32>,
    d1: Seq<u8>,
    d2: Seq<u8>,
    pos: int,
    lo: int,
    hi: int,
)
    requires
        record_at(types, vals, reals, d1, pos),
        d1.len() == d2.len(),
        pos + rec_size(types, vals) <= lo || hi <= pos,
        forall|q: int| 0 <= q < d1.len() && !(lo <= q < hi) ==> #[trigger] d2[q] == d1[q],
    ensures
        record_at(types, vals, reals, d2, pos),
{
    let n = types.len() as int;
    let t = sizes_sum(types, vals, n);
    if has_varchar(types) {
        assert forall|i: int| 0 <= i <= n implies holds_at(
            d2,
            pos + 4 * i,
            be_bytes(((4 * n + 4 + #[trigger] sizes_sum(types, vals, i) + pos) as i32) as u32),
        ) by {
            lemma_holds_outside(d1, d2, lo, hi, pos + 4 * i, be_bytes(((4 * n + 4 + sizes_sum(types, vals, i) + pos) as i32) as u32));
        }
        assert forall|j: int| 0 <= j < n implies holds_at(
            d2,
            pos + 4 * n + 4 + #[trigger] sizes_sum(types, vals, j),
            field_enc(types[j], vals[j], reals[j]),
        ) by {
            lemma_sum_mono(types, vals, j + 1, n);
            assert(field_fits(types[j], vals[j]));
            lemma_holds_outside(d1, d2, lo, hi, pos + 4 * n + 4 + sizes_sum(types, vals, j), field_enc(types[j], vals[j], reals[j]));
        }
    } else {
        assert forall|j: int| 0 <= j < n implies holds_at(
            d2,
            pos + #[trigger] sizes_sum(types, vals, j),
            field_enc(types[j], vals[j], reals[j]),
        ) by {
            lemma_sum_mono(types, vals, j + 1, n);
            assert(field_fits(types[j], vals[j]));
            lemma_holds_outside(d1, d2, lo, hi, pos + sizes_sum(types, vals, j), field_enc(types[j], vals[j], reals[j]));
        }
    }
}

} // verus!
