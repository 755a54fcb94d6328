//! Column types as the record format reads them: `INT`, `REAL`,
//! `CHAR(n)`, `VARCHAR(n)`, or anything else.

use vstd::prelude::*;
use vstd::string::StringSliceAdditionalSpecFns;
use crate::text::{parse_i32, parse_usize, spec_parse_i32, spec_parse_usize};

verus! {

/// How the record format treats a column type.
#[derive(Debug, Clone, Copy, PartialEq, Eq, Structural)]
pub enum ColKind {
    /// exactly `INT`
    Int,
    /// exactly `REAL`
    Real,
    /// starts with `CHAR`
    Char,
    /// starts with `VARCHAR`
    Varchar,
    /// any other type: the format skips such columns
    Other,
}

pub open spec fn lit_int() -> Seq<u8> {
    seq![73u8, 78u8, 84u8]
}

pub open spec fn lit_real() -> Seq<u8> {
    seq![82u8, 69u8, 65u8, 76u8]
}

pub open spec fn lit_char() -> Seq<u8> {
    seq![67u8, 72u8, 65u8, 82u8]
}

pub open spec fn lit_varchar() -> Seq<u8> {
    seq![86u8, 65u8, 82u8, 67u8, 72u8, 65u8, 82u8]
}

pub open spec fn starts_with(t: Seq<u8>, p: Seq<u8>) -> bool {
    t.len() >= p.len() && t.subrange(0, p.len() as int) == p
}

/// The kind of a column type, given by the bytes of its name.
pub open spec fn kind_of(t: Seq<u8>) -> ColKind {
    if t == lit_int() {
        ColKind::Int
    } else if t == lit_real() {
        ColKind::Real
    } else if starts_with(t, lit_char()) {
        ColKind::Char
    } else if starts_with(t, lit_varchar()) {
        ColKind::Varchar
    } else {
        ColKind::Other
    }
}

/// The index of the first `b` in `t`, or -1.
pub open spec fn first_index(t: Seq<u8>, b: u8) -> int
    decreases t.len(),
{
    if t.len() == 0 {
        -1
    } else if t[0] == b {
        0
    } else {
        let r = first_index(t.drop_first(), b);
        if r < 0 {
            -1
        } else {
            r + 1
        }
    }
}

/// The declared size of a `CHAR(n)` (from `start == 5`) or `VARCHAR(n)`
/// (from `start == 8`) type as records are written: the digits from `start`
/// to the first `)`, read as a `usize`.
pub open spec fn declared_size(t: Seq<u8>, start: int) -> Option<int> {
    let close = first_index(t, 41u8);
    if close < start {
        None
    } else {
        spec_parse_usize(t.subrange(start, close))
    }
}

/// The declared size of a `CHAR(n)` type as records are read: the text
/// between the first `(` and the first `)`, read as an `i32`.
pub open spec fn char_size_read(t: Seq<u8>) -> Option<int> {
    let open = first_index(t, 40u8);
    let close = first_index(t, 41u8);
    if open < 0 || close < 0 || open + 1 > close {
        None
    } else {
        spec_parse_i32(t.subrange(open + 1, close))
    }
}

/// The bytes of a string.
pub open spec fn str_bytes(s: String) -> Seq<u8> {
    vstd::utf8::encode_utf8(s@)
}

pub fn bytes_eq(t: &[u8], p: &[u8]) -> (r: bool)
    ensures
        r == (t@ == p@),
{
    if t.len() != p.len() {
        return false;
    }
    let mut i: usize = 0;
    while i < t.len()
        invariant
            t@.len() == p@.len(),
            0 <= i <= t@.len(),
            forall|j: int| 0 <= j < i ==> t@[j] == p@[j],
        decreases t@.len() - i,
    {
        if t[i] != p[i] {
            return false;
        }
        i += 1;
    }
    assert(t@ =~= p@);
    true
}

fn bytes_start_with(t: &[u8], p: &[u8]) -> (r: bool)
    ensures
        r == starts_with(t@, p@),
{
    if t.len() < p.len() {
        return false;
    }
    let mut i: usize = 0;
    while i < p.len()
        invariant
            t@.len() >= p@.len(),
            0 <= i <= p@.len(),
            forall|j: int| 0 <= j < i ==> t@[j] == p@[j],
        decreases p@.len() - i,
    {
        if t[i] != p[i] {
            return false;
        }
        i += 1;
    }
    assert(t@.subrange(0, p@.len() as int) =~= p@);
    true
}

/// The kind of a column type.
pub fn column_kind(t: &[u8]) -> (k: ColKind)
    ensures
        k == kind_of(t@),
{
    let int_lit: [u8; 3] = [73u8, 78u8, 84u8];
    let real_lit: [u8; 4] = [82u8, 69u8, 65u8, 76u8];
    let char_lit: [u8; 4] = [67u8, 72u8, 65u8, 82u8];
    let varchar_lit: [u8; 7] = [86u8, 65u8, 82u8, 67u8, 72u8, 65u8, 82u8];
    assert(int_lit@ =~= lit_int());
    assert(real_lit@ =~= lit_real());
    assert(char_lit@ =~= lit_char());
    assert(varchar_lit@ =~= lit_varchar());
    if bytes_eq(t, int_lit.as_slice()) {
        ColKind::Int
    } else if bytes_eq(t, real_lit.as_slice()) {
        ColKind::Real
    } else if bytes_start_with(t, char_lit.as_slice()) {
        ColKind::Char
    } else if bytes_start_with(t, varchar_lit.as_slice()) {
        ColKind::Varchar
    } else {
        ColKind::Other
    }
}

/// `str::find` for one ASCII byte: the index of its first occurrence.
pub fn find_byte(t: &[u8], b: u8) -> (r: Option<usize>)
    ensures
        r matches Some(i) ==> first_index(t@, b) == i as int && i < t@.len(),
        r is None ==> first_index(t@, b) == -1,
{
    let mut i: usize = 0;
    while i < t.len()
        invariant
            0 <= i <= t@.len(),
            forall|j: int| 0 <= j < i ==> t@[j] != b,
        decreases t@.len() - i,
    {
        if t[i] == b {
            proof {
                lemma_first_index_at(t@, b, i as int);
            }
            return Some(i);
        }
        i += 1;
    }
    proof {
        lemma_first_index_absent(t@, b);
    }
    None
}

proof fn lemma_first_index_at(t: Seq<u8>, b: u8, i: int)
    requires
        0 <= i < t.len(),
        t[i] == b,
        forall|j: int| 0 <= j < i ==> t[j] != b,
    ensures
        first_index(t, b) == i,
    decreases i,
{
    if i > 0 {
        lemma_first_index_at(t.drop_first(), b, i - 1);
    }
}

proof fn lemma_first_index_absent(t: Seq<u8>, b: u8)
    requires
        forall|j: int| 0 <= j < t.len() ==> t[j] != b,
    ensures
        first_index(t, b) == -1,
    decreases t.len(),
{
    if t.len() > 0 {
        lemma_first_index_absent(t.drop_first(), b);
    }
}

/// The declared size of a `CHAR(n)` or `VARCHAR(n)` type, as records are
/// written.
pub fn parse_declared_size(t: &[u8], start: usize) -> (r: Option<usize>)
    ensures
        r matches Some(n) ==> declared_size(t@, start as int) == Some(n as int),
        r is None ==> declared_size(t@, start as int) is None,
{
    match find_byte(t, 41u8) {
        None => None,
        Some(close) => {
            if close < start {
                None
            } else {
                let digits = vstd::slice::slice_subrange(t, start, close);
                parse_usize(digits)
            }
        },
    }
}

/// The declared size of a `CHAR(n)` type, as records are read.
pub fn parse_char_size_read(t: &[u8]) -> (r: Option<i32>)
    ensures
        r matches Some(n) ==> char_size_read(t@) == Some(n as int),
        r is None ==> char_size_read(t@) is None,
{
    let open = find_byte(t, 40u8);
    let close = find_byte(t, 41u8);
    match (open, close) {
        (Some(o), Some(c)) => {
            if o >= c {
                None
            } else {
                let digits = vstd::slice::slice_subrange(t, o + 1, c);
                parse_i32(digits)
            }
        },
        _ => None,
    }
}

} // verus!
