//! Character and string helpers.

use vstd::prelude::*;
use vstd::string::StrSliceExecFns;
use vstd::string::StringExecFns;

verus! {

/// `String::from_utf8`: `Some` exactly when the bytes are valid UTF-8, with
/// the characters they encode.
#[verifier::external_body]
pub(crate) fn string_from_utf8(bytes: Vec<u8>) -> (r: Option<String>)
    ensures
        r is Some <==> vstd::utf8::valid_utf8(bytes@),
        r matches Some(s) ==> s@ == vstd::utf8::decode_utf8(bytes@),
{
    String::from_utf8(bytes).ok()
}

} // verus!

verus! {

/// `String::push`: appends one character.
#[verifier::external_body]
pub(crate) fn push_char(s: &mut String, c: char)
    ensures
        final(s)@ == old(s)@.push(c),
{
    s.push(c)
}

/// An ASCII decimal digit.
pub open spec fn is_digit(b: u8) -> bool {
    48 <= b <= 57
}

/// The value of a sequence of ASCII digits, most significant first.
pub open spec fn digits_value(d: Seq<u8>) -> nat
    decreases d.len(),
{
    if d.len() == 0 {
        0
    } else {
        digits_value(d.drop_last()) * 10 + (d.last() - 48) as nat
    }
}

pub open spec fn all_digits(d: Seq<u8>) -> bool {
    forall|i: int| 0 <= i < d.len() ==> is_digit(#[trigger] d[i])
}

/// What Rust's `FromStr` for an integer type reads from `s`: an optional
/// sign (`+`, or `-` when `signed`) then at least one ASCII digit; `None`
/// when the text has another shape or the value falls outside `[lo, hi]`.
pub open spec fn spec_parse_integer(s: Seq<u8>, signed: bool, lo: int, hi: int) -> Option<int> {
    if s.len() == 0 {
        None
    } else {
        let neg = signed && s[0] == 45u8;
        let has_sign = s[0] == 43u8 || neg;
        let d = if has_sign { s.drop_first() } else { s };
        if d.len() == 0 || !all_digits(d) {
            None
        } else {
            let v: int = if neg { -(digits_value(d) as int) } else { digits_value(d) as int };
            if lo <= v <= hi { Some(v) } else { None }
        }
    }
}

/// `str::parse::<i32>` on the given bytes.
pub open spec fn spec_parse_i32(s: Seq<u8>) -> Option<int> {
    spec_parse_integer(s, true, i32::MIN as int, i32::MAX as int)
}

/// `str::parse::<usize>` on the given bytes.
pub open spec fn spec_parse_usize(s: Seq<u8>) -> Option<int> {
    spec_parse_integer(s, false, 0, usize::MAX as int)
}

proof fn lemma_digits_value_push(d: Seq<u8>, b: u8)
    ensures
        digits_value(d.push(b)) == digits_value(d) * 10 + (b - 48) as nat,
{
    assert(d.push(b).drop_last() =~= d);
}

/// Reads the decimal integer in `s[start..]`, made only of digits, as long as
/// it stays within `bound`.
fn parse_digits(s: &[u8], start: usize, bound: u64) -> (r: Option<u64>)
    requires
        start < s@.len(),
    ensures
        ({
            let d = s@.subrange(start as int, s@.len() as int);
            r == (if all_digits(d) && digits_value(d) <= bound {
                Some(digits_value(d) as u64)
            } else {
                None::<u64>
            })
        }),
{
    let ghost full = s@.subrange(start as int, s@.len() as int);
    let mut i = start;
    let mut acc: u64 = 0;
    while i < s.len()
        invariant
            start <= i <= s@.len(),
            full == s@.subrange(start as int, s@.len() as int),
            all_digits(s@.subrange(start as int, i as int)),
            acc == digits_value(s@.subrange(start as int, i as int)),
            acc <= bound,
        decreases s@.len() - i,
    {
        let b = s[i];
        proof {
            assert(s@.subrange(start as int, i + 1) =~= s@.subrange(start as int, i as int).push(b));
            lemma_digits_value_push(s@.subrange(start as int, i as int), b);
        }
        if b < 48 || b > 57 {
            proof {
                assert(full[i - start] == b);
                assert(!all_digits(full));
            }
            return None;
        }
        let digit = (b - 48) as u64;
        if digit > bound || acc > (bound - digit) / 10 {
            proof {
                assert(acc * 10 + digit > bound) by (nonlinear_arith)
                    requires digit > bound || acc > (bound - digit) / 10, acc >= 0;
                if all_digits(full) {
                    lemma_digits_prefix_bound(full, (i - start + 1) as int);
                    assert(full.subrange(0, (i - start + 1) as int) =~= s@.subrange(start as int, i + 1));
                }
            }
            return None;
        }
        proof {
            assert(acc * 10 + digit <= bound) by (nonlinear_arith)
                requires acc <= (bound - digit) / 10, digit <= 9, bound >= 0;
        }
        acc = acc * 10 + digit;
        i = i + 1;
    }
    proof {
        assert(s@.subrange(start as int, i as int) =~= full);
    }
    Some(acc)
}

/// A longer all-digit sequence is worth at least as much as its prefixes.
proof fn lemma_digits_prefix_bound(d: Seq<u8>, k: int)
    requires
        0 <= k <= d.len(),
        all_digits(d),
    ensures
        digits_value(d.subrange(0, k)) <= digits_value(d),
    decreases d.len(),
{
    if k < d.len() {
        lemma_digits_prefix_bound(d.drop_last(), k);
        assert(d.drop_last().subrange(0, k) =~= d.subrange(0, k));
        assert(all_digits(d.drop_last()));
    } else {
        assert(d.subrange(0, k) =~= d);
    }
}

} // verus!

verus! {

/// `str::parse::<i32>`, on the bytes of a string.
pub fn parse_i32(s: &[u8]) -> (r: Option<i32>)
    ensures
        r matches Some(v) ==> spec_parse_i32(s@) == Some(v as int),
        r is None ==> spec_parse_i32(s@) is None,
{
    if s.len() == 0 {
        return None;
    }
    let neg = s[0] == 45u8;
    let has_sign = s[0] == 43u8 || neg;
    let start: usize = if has_sign { 1 } else { 0 };
    if start >= s.len() {
        return None;
    }
    proof {
        if has_sign {
            assert(s@.subrange(1, s@.len() as int) =~= s@.drop_first());
        } else {
            assert(s@.subrange(0, s@.len() as int) =~= s@);
        }
    }
    let bound: u64 = if neg { 2147483648 } else { 2147483647 };
    match parse_digits(s, start, bound) {
        None => None,
        Some(v) => {
            if neg {
                Some((0i64 - v as i64) as i32)
            } else {
                Some(v as i32)
            }
        },
    }
}

/// `str::parse::<usize>`, on the bytes of a string.
pub fn parse_usize(s: &[u8]) -> (r: Option<usize>)
    ensures
        r matches Some(v) ==> spec_parse_usize(s@) == Some(v as int),
        r is None ==> spec_parse_usize(s@) is None,
{
    if s.len() == 0 {
        return None;
    }
    let has_sign = s[0] == 43u8;
    let start: usize = if has_sign { 1 } else { 0 };
    if start >= s.len() {
        return None;
    }
    proof {
        if has_sign {
            assert(s@.subrange(1, s@.len() as int) =~= s@.drop_first());
        } else {
            assert(s@.subrange(0, s@.len() as int) =~= s@);
        }
    }
    match parse_digits(s, start, usize::MAX as u64) {
        None => None,
        Some(v) => Some(v as usize),
    }
}

/// `str::parse::<u32>` on the given bytes.
pub open spec fn spec_parse_u32(s: Seq<u8>) -> Option<int> {
    spec_parse_integer(s, false, 0, u32::MAX as int)
}

/// `str::parse::<u32>`, on the bytes of a string.
pub fn parse_u32(s: &[u8]) -> (r: Option<u32>)
    ensures
        r matches Some(v) ==> spec_parse_u32(s@) == Some(v as int),
        r is None ==> spec_parse_u32(s@) is None,
{
    if s.len() == 0 {
        return None;
    }
    let has_sign = s[0] == 43u8;
    let start: usize = if has_sign { 1 } else { 0 };
    if start >= s.len() {
        return None;
    }
    proof {
        if has_sign {
            assert(s@.subrange(1, s@.len() as int) =~= s@.drop_first());
        } else {
            assert(s@.subrange(0, s@.len() as int) =~= s@);
        }
    }
    match parse_digits(s, start, 4294967295u64) {
        None => None,
        Some(v) => Some(v as u32),
    }
}

/// The decimal digits of `n`, most significant first, without leading zeros.
pub open spec fn nat_text(n: nat) -> Seq<char>
    decreases n,
{
    if n < 10 {
        seq![(48 + n) as char]
    } else {
        nat_text(n / 10).push((48 + n % 10) as char)
    }
}

/// The text `i32::to_string` gives: a `-` for negative values, then the
/// decimal digits of the magnitude.
pub open spec fn i32_text(v: i32) -> Seq<char> {
    if v < 0 {
        seq!['-'].add(nat_text((-(v as int)) as nat))
    } else {
        nat_text(v as nat)
    }
}

/// Appends the decimal digits of `n` to `s`.
fn push_nat_text(s: &mut String, n: u64)
    ensures
        final(s)@ == old(s)@ + nat_text(n as nat),
    decreases n,
{
    if n < 10 {
        push_char(s, ((48 + n) as u8) as char);
        proof {
            assert(nat_text(n as nat) =~= seq![(48 + n) as char]);
        }
    } else {
        push_nat_text(s, n / 10);
        push_char(s, ((48 + n % 10) as u8) as char);
        proof {
            assert(old(s)@ + nat_text(n as nat) =~= old(s)@ + nat_text((n / 10) as nat) + seq![(48 + n % 10) as char]);
        }
    }
}

/// Appends the decimal digits of `n` to `s`.
pub fn push_usize_text(s: &mut String, n: usize)
    ensures
        final(s)@ == old(s)@ + nat_text(n as nat),
{
    push_nat_text(s, n as u64);
}

/// `i32::to_string`.
pub fn i32_to_string(v: i32) -> (s: String)
    ensures
        s@ == i32_text(v),
{
    let mut s = String::new();
    if v < 0 {
        push_char(&mut s, '-');
        let m: u64 = (0i64 - v as i64) as u64;
        push_nat_text(&mut s, m);
    } else {
        push_nat_text(&mut s, v as u64);
    }
    s
}


/// The characters of a string.
pub fn chars_of(s: &str) -> (v: Vec<char>)
    ensures
        v@ == s@,
{
    let n = s.unicode_len();
    let mut v: Vec<char> = Vec::new();
    let mut i: usize = 0;
    while i < n
        invariant
            0 <= i <= n,
            n == s@.len(),
            v@ == s@.subrange(0, i as int),
        decreases n - i,
    {
        v.push(s.get_char(i));
        i += 1;
        assert(v@ =~= s@.subrange(0, i as int));
    }
    assert(v@ =~= s@);
    v
}

/// The string made of `cs[from..to]`.
pub fn string_of(cs: &[char], from: usize, to: usize) -> (s: String)
    requires
        from <= to <= cs@.len(),
    ensures
        s@ == cs@.subrange(from as int, to as int),
{
    let mut s = String::new();
    let mut i = from;
    while i < to
        invariant
            from <= i <= to,
            to <= cs@.len(),
            s@ == cs@.subrange(from as int, i as int),
        decreases to - i,
    {
        push_char(&mut s, cs[i]);
        i += 1;
        assert(s@ =~= cs@.subrange(from as int, i as int));
    }
    s
}


// ---------------------------------------------------------------------------
// Splitting, trimming, searching
// ---------------------------------------------------------------------------

/// `str::split` with a non-empty separator: the pieces between the
/// occurrences of `sep`, found from left to right without overlap.
pub open spec fn split_by(s: Seq<char>, sep: Seq<char>) -> Seq<Seq<char>>
    decreases s.len(),
{
    if s.len() == 0 {
        seq![Seq::<char>::empty()]
    } else if sep.len() > 0 && s.len() >= sep.len() && s.subrange(0, sep.len() as int) == sep {
        seq![Seq::<char>::empty()] + split_by(s.subrange(sep.len() as int, s.len() as int), sep)
    } else {
        let r = split_by(s.drop_first(), sep);
        r.update(0, seq![s[0]] + r[0])
    }
}

/// `str::split_terminator`: `str::split` without its last piece when that
/// piece is empty.
pub open spec fn split_terminator(s: Seq<char>, sep: Seq<char>) -> Seq<Seq<char>> {
    let p = split_by(s, sep);
    if p.last().len() == 0 {
        p.drop_last()
    } else {
        p
    }
}

/// White space as `char::is_whitespace` sees it (the `White_Space`
/// property).
pub open spec fn is_white(c: char) -> bool {
    ('\u{9}' <= c && c <= '\u{D}') || c == ' ' || c == '\u{85}' || c == '\u{A0}' || c == '\u{1680}' || ('\u{2000}'
        <= c && c <= '\u{200A}') || c == '\u{2028}' || c == '\u{2029}' || c == '\u{202F}' || c == '\u{205F}' || c
        == '\u{3000}'
}

/// The number of white space characters at the start of `s`.
pub open spec fn lead_ws(s: Seq<char>) -> nat
    decreases s.len(),
{
    if s.len() == 0 || !is_white(s[0]) {
        0
    } else {
        1 + lead_ws(s.drop_first())
    }
}

/// The number of white space characters at the end of `s`.
pub open spec fn trail_ws(s: Seq<char>) -> nat
    decreases s.len(),
{
    if s.len() == 0 || !is_white(s.last()) {
        0
    } else {
        1 + trail_ws(s.drop_last())
    }
}

/// `str::trim`: `s` without the white space at both ends.
pub open spec fn trim(s: Seq<char>) -> Seq<char> {
    if lead_ws(s) >= s.len() {
        Seq::empty()
    } else {
        s.subrange(lead_ws(s) as int, s.len() - trail_ws(s))
    }
}

/// `str::contains` with a text: `needle` occurs in `hay`.
pub open spec fn contains_text(hay: Seq<char>, needle: Seq<char>) -> bool {
    exists|i: int| 0 <= i && i + needle.len() <= hay.len() && #[trigger] hay.subrange(i, i + needle.len()) == needle
}

pub fn white(c: char) -> (b: bool)
    ensures
        b == is_white(c),
{
    ('\u{9}' <= c && c <= '\u{D}') || c == ' ' || c == '\u{85}' || c == '\u{A0}' || c == '\u{1680}' || ('\u{2000}'
        <= c && c <= '\u{200A}') || c == '\u{2028}' || c == '\u{2029}' || c == '\u{202F}' || c == '\u{205F}' || c
        == '\u{3000}'
}

pub proof fn lemma_split_nonempty(s: Seq<char>, sep: Seq<char>)
    ensures
        split_by(s, sep).len() >= 1,
    decreases s.len(),
{
    if s.len() > 0 {
        if sep.len() > 0 && s.len() >= sep.len() && s.subrange(0, sep.len() as int) == sep {
            lemma_split_nonempty(s.subrange(sep.len() as int, s.len() as int), sep);
        } else {
            lemma_split_nonempty(s.drop_first(), sep);
        }
    }
}

/// Whether `sep` occurs at `i` in `s`.
fn occurs_at(s: &[char], i: usize, sep: &[char]) -> (b: bool)
    requires
        i <= s@.len(),
    ensures
        b == (s@.len() - i >= sep@.len() && s@.subrange(i as int, i + sep@.len()) == sep@),
{
    let n = s.len();
    if n - i < sep.len() {
        return false;
    }
    let mut k: usize = 0;
    while k < sep.len()
        invariant
            0 <= k <= sep@.len(),
            n == s@.len(),
            s@.len() - i >= sep@.len(),
            forall|m: int| 0 <= m < k ==> s@[i + m] == sep@[m],
        decreases sep@.len() - k,
    {
        if s[i + k] != sep[k] {
            assert(s@.subrange(i as int, i + sep@.len())[k as int] == s@[i + k]);
            return false;
        }
        k += 1;
    }
    assert(s@.subrange(i as int, i + sep@.len()) =~= sep@);
    true
}

/// The pieces of `s` between the occurrences of `sep` (see `split_by`),
/// each without the white space at its ends.
pub fn split_trim(s: &[char], sep: &[char]) -> (r: Vec<String>)
    requires
        sep@.len() > 0,
    ensures
        r@.len() == split_by(s@, sep@).len(),
        forall|i: int| 0 <= i < r@.len() ==> (#[trigger] r@[i])@ == trim(split_by(s@, sep@)[i]),
{
    let pieces = split_pieces(s, sep);
    let mut r: Vec<String> = Vec::new();
    let mut i: usize = 0;
    while i < pieces.len()
        invariant
            0 <= i <= pieces@.len(),
            pieces@.len() == split_by(s@, sep@).len(),
            forall|j: int| 0 <= j < pieces@.len() ==> (#[trigger] pieces@[j])@ == split_by(s@, sep@)[j],
            r@.len() == i,
            forall|j: int| 0 <= j < i ==> (#[trigger] r@[j])@ == trim(split_by(s@, sep@)[j]),
        decreases pieces@.len() - i,
    {
        let t = trim_chars(pieces[i].as_slice());
        r.push(t);
        i += 1;
    }
    r
}

/// The pieces of `s` between the occurrences of `sep`.
pub fn split_pieces(s: &[char], sep: &[char]) -> (r: Vec<Vec<char>>)
    requires
        sep@.len() > 0,
    ensures
        r@.len() == split_by(s@, sep@).len(),
        forall|i: int| 0 <= i < r@.len() ==> (#[trigger] r@[i])@ == split_by(s@, sep@)[i],
{
    let ghost sv = s@;
    let ghost sp = sep@;
    let mut pieces: Vec<Vec<char>> = Vec::new();
    let mut cur: Vec<char> = Vec::new();
    let mut i: usize = 0;
    proof {
        lemma_split_nonempty(sv, sp);
        assert(sv.subrange(0, sv.len() as int) =~= sv);
    }
    while i < s.len()
        invariant
            0 <= i <= sv.len(),
            sv == s@,
            sp == sep@,
            sp.len() > 0,
            ({
                let rest = split_by(sv.subrange(i as int, sv.len() as int), sp);
                split_by(sv, sp) == Seq::new(pieces@.len(), |j: int| pieces@[j]@) + seq![cur@ + rest[0]]
                    + rest.drop_first()
            }),
        decreases sv.len() - i,
    {
        let ghost rest_s = sv.subrange(i as int, sv.len() as int);
        let ghost before = Seq::new(pieces@.len(), |j: int| pieces@[j]@);
        if occurs_at(s, i, sep) {
            let k = sep.len();
            proof {
                assert(rest_s.subrange(0, sp.len() as int) =~= sp);
                assert(rest_s.subrange(sp.len() as int, rest_s.len() as int) =~= sv.subrange(i + k, sv.len() as int));
                lemma_split_nonempty(sv.subrange(i + k, sv.len() as int), sp);
            }
            let done = cur;
            pieces.push(done);
            cur = Vec::new();
            i = i + k;
            proof {
                let rest2 = split_by(sv.subrange(i as int, sv.len() as int), sp);
                assert(Seq::new(pieces@.len(), |j: int| pieces@[j]@) =~= before.push(done@));
                assert(cur@ + rest2[0] =~= rest2[0]);
                assert(split_by(rest_s, sp) =~= seq![Seq::<char>::empty()] + rest2);
                assert(split_by(rest_s, sp).drop_first() =~= rest2);
                assert(done@ + split_by(rest_s, sp)[0] =~= done@);
                assert(rest2 =~= seq![rest2[0]] + rest2.drop_first());
                assert(Seq::new(pieces@.len(), |j: int| pieces@[j]@) + seq![cur@ + rest2[0]] + rest2.drop_first()
                    =~= before + seq![done@ + split_by(rest_s, sp)[0]] + split_by(rest_s, sp).drop_first());
            }
        } else {
            proof {
                if rest_s.len() >= sp.len() {
                    assert(rest_s.subrange(0, sp.len() as int) =~= sv.subrange(i as int, i + sp.len()));
                }
            }
            let c = s[i];
            let ghost old_cur = cur@;
            cur.push(c);
            i = i + 1;
            proof {
                assert(rest_s.drop_first() =~= sv.subrange(i as int, sv.len() as int));
                let rest2 = split_by(sv.subrange(i as int, sv.len() as int), sp);
                lemma_split_nonempty(sv.subrange(i as int, sv.len() as int), sp);
                assert(split_by(rest_s, sp) == rest2.update(0, seq![c] + rest2[0]));
                assert(split_by(rest_s, sp).drop_first() =~= rest2.drop_first());
                assert(cur@ + rest2[0] =~= old_cur + (seq![c] + rest2[0]));
                assert(Seq::new(pieces@.len(), |j: int| pieces@[j]@) =~= before);
            }
        }
    }
    pieces.push(cur);
    proof {
        assert(sv.subrange(sv.len() as int, sv.len() as int) =~= Seq::<char>::empty());
        let rest = split_by(Seq::<char>::empty(), sp);
        assert(rest =~= seq![Seq::<char>::empty()]);
        assert(split_by(sv, sp) =~= Seq::new(pieces@.len(), |j: int| pieces@[j]@));
        assert forall|j: int| 0 <= j < pieces@.len() implies (#[trigger] pieces@[j])@ == split_by(sv, sp)[j] by {
            assert(Seq::new(pieces@.len(), |j: int| pieces@[j]@)[j] == pieces@[j]@);
        }
    }
    pieces
}

proof fn lemma_lead_ws(s: Seq<char>, a: int)
    requires
        0 <= a <= s.len(),
        forall|k: int| 0 <= k < a ==> is_white(#[trigger] s[k]),
        a == s.len() || !is_white(s[a]),
    ensures
        lead_ws(s) == a,
    decreases a,
{
    if a > 0 {
        lemma_lead_ws(s.drop_first(), a - 1);
    }
}

proof fn lemma_trail_ws(s: Seq<char>, b: int)
    requires
        0 <= b <= s.len(),
        forall|k: int| b <= k < s.len() ==> is_white(#[trigger] s[k]),
        b == 0 || !is_white(s[b - 1]),
    ensures
        trail_ws(s) == s.len() - b,
    decreases s.len() - b,
{
    if b < s.len() {
        lemma_trail_ws(s.drop_last(), b);
    }
}

/// The white space at the start of `s`: its first `lead_ws(s)` characters
/// are white, and the one after them, if any, is not.
proof fn lemma_lead_ws_facts(s: Seq<char>)
    ensures
        lead_ws(s) <= s.len(),
        forall|k: int| 0 <= k < lead_ws(s) ==> is_white(#[trigger] s[k]),
        lead_ws(s) < s.len() ==> !is_white(s[lead_ws(s) as int]),
    decreases s.len(),
{
    if s.len() > 0 && is_white(s[0]) {
        lemma_lead_ws_facts(s.drop_first());
        assert forall|k: int| 0 <= k < lead_ws(s) implies is_white(#[trigger] s[k]) by {
            if k > 0 {
                assert(s[k] == s.drop_first()[k - 1]);
            }
        }
    }
}

/// The white space at the end of `s`: its last `trail_ws(s)` characters
/// are white, and the one before them, if any, is not.
proof fn lemma_trail_ws_facts(s: Seq<char>)
    ensures
        trail_ws(s) <= s.len(),
        forall|k: int| s.len() - trail_ws(s) <= k < s.len() ==> is_white(#[trigger] s[k]),
        trail_ws(s) < s.len() ==> !is_white(s[s.len() - trail_ws(s) - 1]),
    decreases s.len(),
{
    if s.len() > 0 && is_white(s.last()) {
        lemma_trail_ws_facts(s.drop_last());
        assert forall|k: int| s.len() - trail_ws(s) <= k < s.len() implies is_white(#[trigger] s[k]) by {
            if k < s.len() - 1 {
                assert(s[k] == s.drop_last()[k]);
            }
        }
    }
}

/// Trimming a trimmed text leaves it as it is.
pub proof fn lemma_trim_trimmed(s: Seq<char>)
    ensures
        trim(trim(s)) == trim(s),
{
    lemma_lead_ws_facts(s);
    lemma_trail_ws_facts(s);
    let t = trim(s);
    if lead_ws(s) >= s.len() {
        assert(t.len() == 0);
        assert(lead_ws(t) == 0);
    } else {
        let a = lead_ws(s) as int;
        let b = s.len() - trail_ws(s);
        assert(a < b) by {
            if a >= b {
                assert(is_white(s[a]));
            }
        }
        assert(t == s.subrange(a, b));
        assert(t[0] == s[a]);
        lemma_lead_ws(t, 0);
        assert(t[t.len() - 1] == s[b - 1]);
        lemma_trail_ws(t, t.len() as int);
        assert(trim(t) =~= t);
    }
}

/// `str::trim` on characters.
pub fn trim_chars(s: &[char]) -> (r: String)
    ensures
        r@ == trim(s@),
{
    let n = s.len();
    let mut a: usize = 0;
    while a < n && white(s[a])
        invariant
            0 <= a <= n,
            n == s@.len(),
            forall|k: int| 0 <= k < a ==> is_white(#[trigger] s@[k]),
        decreases n - a,
    {
        a += 1;
    }
    proof {
        lemma_lead_ws(s@, a as int);
    }
    if a == n {
        return String::new();
    }
    let mut b: usize = n;
    while b > a && white(s[b - 1])
        invariant
            a < n,
            a <= b <= n,
            n == s@.len(),
            !is_white(s@[a as int]),
            forall|k: int| b <= k < n ==> is_white(#[trigger] s@[k]),
        decreases b,
    {
        b -= 1;
    }
    proof {
        lemma_trail_ws(s@, b as int);
    }
    string_of(s, a, b)
}

/// `str::contains` on characters.
pub fn contains_chars(hay: &[char], needle: &[char]) -> (b: bool)
    ensures
        b == contains_text(hay@, needle@),
{
    if needle.len() > hay.len() {
        return false;
    }
    let last = hay.len() - needle.len();
    let mut i: usize = 0;
    while i < last
        invariant
            needle@.len() <= hay@.len(),
            last == hay@.len() - needle@.len(),
            0 <= i <= last,
            forall|j: int| 0 <= j < i ==> #[trigger] hay@.subrange(j, j + needle@.len()) != needle@,
        decreases last - i,
    {
        if occurs_at(hay, i, needle) {
            return true;
        }
        i += 1;
    }
    occurs_at(hay, last, needle)
}


/// The index of the first `c` in `t`, or -1.
pub open spec fn first_of(t: Seq<char>, c: char) -> int
    decreases t.len(),
{
    if t.len() == 0 {
        -1
    } else if t[0] == c {
        0
    } else {
        let r = first_of(t.drop_first(), c);
        if r < 0 {
            -1
        } else {
            r + 1
        }
    }
}

proof fn lemma_first_of_at(t: Seq<char>, c: char, i: int)
    requires
        0 <= i < t.len(),
        t[i] == c,
        forall|j: int| 0 <= j < i ==> t[j] != c,
    ensures
        first_of(t, c) == i,
    decreases i,
{
    if i > 0 {
        lemma_first_of_at(t.drop_first(), c, i - 1);
    }
}

proof fn lemma_first_of_absent(t: Seq<char>, c: char)
    requires
        forall|j: int| 0 <= j < t.len() ==> t[j] != c,
    ensures
        first_of(t, c) == -1,
    decreases t.len(),
{
    if t.len() > 0 {
        lemma_first_of_absent(t.drop_first(), c);
    }
}

/// The index of the first `c` in `t`.
pub fn find_char(t: &[char], c: char) -> (r: Option<usize>)
    ensures
        match r {
            Some(i) => i < t@.len() && first_of(t@, c) == i,
            None => first_of(t@, c) == -1,
        },
{
    let mut i: usize = 0;
    while i < t.len()
        invariant
            0 <= i <= t@.len(),
            forall|j: int| 0 <= j < i ==> t@[j] != c,
        decreases t@.len() - i,
    {
        if t[i] == c {
            proof {
                lemma_first_of_at(t@, c, i as int);
            }
            return Some(i);
        }
        i += 1;
    }
    proof {
        lemma_first_of_absent(t@, c);
    }
    None
}

/// `texts` joined with `sep` between them.
pub open spec fn join(texts: Seq<Seq<char>>, sep: Seq<char>) -> Seq<char>
    decreases texts.len(),
{
    if texts.len() == 0 {
        Seq::empty()
    } else if texts.len() == 1 {
        texts[0]
    } else {
        join(texts.drop_last(), sep) + sep + texts.last()
    }
}

/// `[String]::join`.
pub fn join_strings(texts: &Vec<String>, sep: &str) -> (r: String)
    ensures
        r@ == join(Seq::new(texts@.len(), |i: int| texts@[i]@), sep@),
{
    let ghost all = Seq::new(texts@.len(), |i: int| texts@[i]@);
    let mut r = String::new();
    let mut i: usize = 0;
    while i < texts.len()
        invariant
            0 <= i <= texts@.len(),
            all == Seq::new(texts@.len(), |i: int| texts@[i]@),
            r@ == join(all.take(i as int), sep@),
        decreases texts@.len() - i,
    {
        if i > 0 {
            r.append(sep);
        }
        r.append(texts[i].as_str());
        proof {
            let prev = all.take(i as int);
            let next = all.take(i + 1);
            assert(next.drop_last() =~= prev);
            assert(next.last() == texts@[i as int]@);
            if i == 0 {
                assert(prev =~= Seq::<Seq<char>>::empty());
            }
        }
        i += 1;
    }
    assert(all.take(texts@.len() as int) =~= all);
    r
}

} // verus!
