//! Conditions of a `WHERE` clause: their syntax, the operands they compare
//! and their evaluation.
//!
//! A condition is `X OP Y`, where `OP` is one of `=`, `<>`, `<=`, `>=`, `<`,
//! `>` (with optional white space around it) and each side is a column
//! reference `alias.column`, a quoted constant such as `'abc'`, or a number
//! such as `-12.5`. Seven shapes are accepted, tried in this order:
//!
//! | shape              | left      | right     |
//! |--------------------|-----------|-----------|
//! | `AucunConst`       | column    | column    |
//! | `CharConstGauche`  | constant  | column    |
//! | `CharConstDroite`  | column    | constant  |
//! | `NumberConstGauche`| number    | column    |
//! | `NumberConstDroite`| column    | number    |
//! | `DeuxCharConst`    | constant  | constant  |
//! | `DeuxNumberConst`  | number    | number    |
//!
//! the last one also allowing white space at both ends.

use vstd::prelude::*;
use vstd::string::StringExecFns;
use crate::col_info::{ColInfo, Record};
use crate::text::{chars_of, string_of};

verus! {

// ---------------------------------------------------------------------------
// Characters
// ---------------------------------------------------------------------------

pub open spec fn is_alpha(c: char) -> bool {
    ('a' <= c && c <= 'z') || ('A' <= c && c <= 'Z')
}

pub open spec fn is_digit(c: char) -> bool {
    '0' <= c && c <= '9'
}

/// `[a-zA-Z_]`: the first character of a column reference.
pub open spec fn is_col_start(c: char) -> bool {
    is_alpha(c) || c == '_'
}

/// `[a-zA-Z0-9_.-]`: the other characters of a column reference.
pub open spec fn is_col_char(c: char) -> bool {
    is_alpha(c) || is_digit(c) || c == '_' || c == '.' || c == '-'
}

/// `[a-zA-Z0-9_-]`: the characters of a quoted constant.
pub open spec fn is_word_char(c: char) -> bool {
    is_alpha(c) || is_digit(c) || c == '_' || c == '-'
}

/// The three quotes a constant may use: `'`, `"` and `ʺ`.
pub open spec fn is_quote(c: char) -> bool {
    c == '\'' || c == '"' || c == '\u{2BA}'
}

/// White space: the characters with the Unicode `White_Space` property.
pub open spec fn is_ws(c: char) -> bool {
    ('\u{9}' <= c && c <= '\u{D}') || c == ' ' || c == '\u{85}' || c == '\u{A0}' || c == '\u{1680}' || ('\u{2000}'
        <= c && c <= '\u{200A}') || c == '\u{2028}' || c == '\u{2029}' || c == '\u{202F}' || c == '\u{205F}' || c
        == '\u{3000}'
}

/// A character that may follow an operand: white space or the start of an
/// operator.
pub open spec fn is_follow(c: char) -> bool {
    is_ws(c) || c == '=' || c == '<' || c == '>'
}

pub open spec fn all_ws(s: Seq<char>) -> bool {
    forall|i: int| 0 <= i < s.len() ==> is_ws(#[trigger] s[i])
}

pub open spec fn all_digits(s: Seq<char>) -> bool {
    forall|i: int| 0 <= i < s.len() ==> is_digit(#[trigger] s[i])
}

// ---------------------------------------------------------------------------
// Operands
// ---------------------------------------------------------------------------

/// The three kinds of operand.
#[derive(Debug, Clone, Copy, PartialEq, Eq, Structural)]
pub enum TokKind {
    /// `[a-zA-Z_][a-zA-Z0-9_.-]*\.[a-zA-Z0-9_.-]+`
    Col,
    /// a quote, `[a-zA-Z0-9_-]+`, the same quote
    CharConst,
    /// `-?[0-9]+(\.[0-9]+)?`
    Number,
}

pub open spec fn is_col(t: Seq<char>) -> bool {
    &&& t.len() >= 3
    &&& is_col_start(t[0])
    &&& forall|i: int| 1 <= i < t.len() ==> is_col_char(#[trigger] t[i])
    &&& exists|k: int| 1 <= k <= t.len() - 2 && #[trigger] t[k] == '.'
}

pub open spec fn is_char_const(t: Seq<char>) -> bool {
    &&& t.len() >= 3
    &&& is_quote(t[0])
    &&& t[t.len() - 1] == t[0]
    &&& forall|i: int| 1 <= i < t.len() - 1 ==> is_word_char(#[trigger] t[i])
}

/// Digits, or digits, a `.` and digits.
pub open spec fn is_unsigned_number(u: Seq<char>) -> bool {
    ||| u.len() >= 1 && all_digits(u)
    ||| exists|k: int|
        1 <= k <= u.len() - 2 && #[trigger] u[k] == '.' && all_digits(u.subrange(0, k)) && all_digits(
            u.subrange(k + 1, u.len() as int),
        )
}

pub open spec fn is_number(t: Seq<char>) -> bool {
    if t.len() > 0 && t[0] == '-' {
        is_unsigned_number(t.drop_first())
    } else {
        is_unsigned_number(t)
    }
}

pub open spec fn is_tok(kind: TokKind, t: Seq<char>) -> bool {
    match kind {
        TokKind::Col => is_col(t),
        TokKind::CharConst => is_char_const(t),
        TokKind::Number => is_number(t),
    }
}

/// An operand of kind `kind` spans `s[i..j]` and is followed by the end or
/// by a character that may follow an operand.
pub open spec fn tok_span(kind: TokKind, s: Seq<char>, i: int, j: int) -> bool {
    &&& 0 <= i <= j <= s.len()
    &&& is_tok(kind, s.subrange(i, j))
    &&& (j == s.len() || is_follow(s[j]))
}

/// The text an operand stands for: a constant without its quotes, other
/// operands as written.
pub open spec fn tok_value(kind: TokKind, t: Seq<char>) -> Seq<char> {
    match kind {
        TokKind::CharConst => t.subrange(1, t.len() - 1),
        _ => t,
    }
}

// ---------------------------------------------------------------------------
// Scanning an operand
// ---------------------------------------------------------------------------

fn col_start(c: char) -> (b: bool)
    ensures
        b == is_col_start(c),
{
    ('a' <= c && c <= 'z') || ('A' <= c && c <= 'Z') || c == '_'
}

fn col_char(c: char) -> (b: bool)
    ensures
        b == is_col_char(c),
{
    ('a' <= c && c <= 'z') || ('A' <= c && c <= 'Z') || ('0' <= c && c <= '9') || c == '_' || c == '.' || c
        == '-'
}

fn word_char(c: char) -> (b: bool)
    ensures
        b == is_word_char(c),
{
    ('a' <= c && c <= 'z') || ('A' <= c && c <= 'Z') || ('0' <= c && c <= '9') || c == '_' || c == '-'
}

fn quote(c: char) -> (b: bool)
    ensures
        b == is_quote(c),
{
    c == '\'' || c == '"' || c == '\u{2BA}'
}

fn digit(c: char) -> (b: bool)
    ensures
        b == is_digit(c),
{
    '0' <= c && c <= '9'
}

pub fn ws(c: char) -> (b: bool)
    ensures
        b == is_ws(c),
{
    ('\u{9}' <= c && c <= '\u{D}') || c == ' ' || c == '\u{85}' || c == '\u{A0}' || c == '\u{1680}' || ('\u{2000}'
        <= c && c <= '\u{200A}') || c == '\u{2028}' || c == '\u{2029}' || c == '\u{202F}' || c == '\u{205F}' || c
        == '\u{3000}'
}

fn follow(c: char) -> (b: bool)
    ensures
        b == is_follow(c),
{
    ws(c) || c == '=' || c == '<' || c == '>'
}

/// The end of the longest run from `i` of characters satisfying the class
/// (`0`: column characters, `1`: word characters, `2`: digits, `3`: white
/// space).
fn run_end(s: &[char], i: usize, class: u8) -> (j: usize)
    requires
        i <= s@.len(),
        class <= 3,
    ensures
        i <= j <= s@.len(),
        forall|k: int| i <= k < j ==> in_class(#[trigger] s@[k], class),
        j == s@.len() || !in_class(s@[j as int], class),
{
    let mut j = i;
    while j < s.len()
        invariant
            i <= j <= s@.len(),
            forall|k: int| i <= k < j ==> in_class(#[trigger] s@[k], class),
        decreases s@.len() - j,
    {
        let c = s[j];
        let yes = if class == 0 {
            col_char(c)
        } else if class == 1 {
            word_char(c)
        } else if class == 2 {
            digit(c)
        } else {
            ws(c)
        };
        if !yes {
            return j;
        }
        j += 1;
    }
    j
}

pub open spec fn in_class(c: char, class: u8) -> bool {
    if class == 0 {
        is_col_char(c)
    } else if class == 1 {
        is_word_char(c)
    } else if class == 2 {
        is_digit(c)
    } else {
        is_ws(c)
    }
}

/// Scans an operand of kind `kind` from `i`: its end, the only one that
/// makes an operand followed by the end or by a character that may follow
/// an operand; `None` when there is none.
fn scan_tok(s: &[char], i: usize, kind: TokKind) -> (r: Option<usize>)
    requires
        i <= s@.len(),
    ensures
        match r {
            Some(j) => tok_span(kind, s@, i as int, j as int) && forall|j2: int|
                tok_span(kind, s@, i as int, j2) ==> j2 == j,
            None => forall|j2: int| !tok_span(kind, s@, i as int, j2),
        },
{
    let ghost sv = s@;
    match kind {
        TokKind::Col => {
            if i >= s.len() || !col_start(s[i]) {
                proof {
                    assert forall|j2: int| !tok_span(kind, sv, i as int, j2) by {
                        if tok_span(kind, sv, i as int, j2) {
                            assert(sv.subrange(i as int, j2)[0] == sv[i as int]);
                        }
                    }
                }
                return None;
            }
            let j = run_end(s, i + 1, 0);
            let ok_follow = j == s.len() || follow(s[j]);
            // a '.' with at least one character after it, past the first
            let mut k = i + 1;
            let mut dot = false;
            while k < j - 1
                invariant
                    i + 1 <= k <= j,
                    j <= sv.len(),
                    sv == s@,
                    dot ==> exists|m: int| i + 1 <= m < j - 1 && #[trigger] sv[m] == '.',
                    !dot ==> forall|m: int| i + 1 <= m < k ==> #[trigger] sv[m] != '.',
                decreases j - k,
            {
                if s[k] == '.' {
                    dot = true;
                }
                k += 1;
            }
            let ghost t = sv.subrange(i as int, j as int);
            proof {
                assert forall|m: int| 1 <= m < t.len() implies is_col_char(#[trigger] t[m]) by {
                    assert(t[m] == sv[i + m]);
                    assert(in_class(sv[i + m], 0));
                }
                if dot {
                    let m = choose|m: int| i + 1 <= m < j - 1 && #[trigger] sv[m] == '.';
                    assert(t[m - i] == '.');
                } else {
                    assert forall|m: int| 1 <= m <= t.len() - 2 implies #[trigger] t[m] != '.' by {
                        assert(t[m] == sv[i + m]);
                    }
                }
                assert forall|j2: int| tok_span(kind, sv, i as int, j2) implies j2 == j by {
                    let t2 = sv.subrange(i as int, j2);
                    if j2 < j {
                        assert(in_class(sv[j2], 0));
                        assert(j2 >= i + 3);
                    }
                    if j2 > j {
                        assert(t2[j - i] == sv[j as int]);
                        assert(is_col_char(t2[j - i]));
                    }
                }
            }
            if ok_follow && dot && j >= i + 3 {
                Some(j)
            } else {
                None
            }
        },
        TokKind::CharConst => {
            if i >= s.len() || !quote(s[i]) {
                proof {
                    assert forall|j2: int| !tok_span(kind, sv, i as int, j2) by {
                        if tok_span(kind, sv, i as int, j2) {
                            assert(sv.subrange(i as int, j2)[0] == sv[i as int]);
                        }
                    }
                }
                return None;
            }
            let e = run_end(s, i + 1, 1);
            proof {
                assert forall|j2: int| tok_span(kind, sv, i as int, j2) implies j2 == e + 1 by {
                    let t2 = sv.subrange(i as int, j2);
                    if j2 - 1 < e {
                        assert(t2[j2 - 1 - i] == sv[j2 - 1]);
                        assert(in_class(sv[j2 - 1], 1));
                    }
                    if j2 - 1 > e {
                        assert(t2[e - i] == sv[e as int]);
                        assert(is_word_char(t2[e - i]));
                    }
                }
            }
            if e < s.len() && s[e] == s[i] && e >= i + 2 && (e + 1 == s.len() || follow(s[e + 1])) {
                let ghost t = sv.subrange(i as int, e + 1);
                proof {
                    assert forall|m: int| 1 <= m < t.len() - 1 implies is_word_char(#[trigger] t[m]) by {
                        assert(t[m] == sv[i + m]);
                        assert(in_class(sv[i + m], 1));
                    }
                }
                Some(e + 1)
            } else {
                proof {
                    assert forall|j2: int| !tok_span(kind, sv, i as int, j2) by {
                        if tok_span(kind, sv, i as int, j2) {
                            let t2 = sv.subrange(i as int, j2);
                            assert(j2 == e + 1);
                            assert(t2[t2.len() - 1] == sv[e as int]);
                        }
                    }
                }
                None
            }
        },
        TokKind::Number => scan_number(s, i),
    }
}

/// `scan_tok` for numbers.
fn scan_number(s: &[char], i: usize) -> (r: Option<usize>)
    requires
        i <= s@.len(),
    ensures
        match r {
            Some(j) => tok_span(TokKind::Number, s@, i as int, j as int) && forall|j2: int|
                tok_span(TokKind::Number, s@, i as int, j2) ==> j2 == j,
            None => forall|j2: int| !tok_span(TokKind::Number, s@, i as int, j2),
        },
{
    let ghost sv = s@;
    let neg = i < s.len() && s[i] == '-';
    let p = if neg { i + 1 } else { i };
    let d = run_end(s, p, 2);
    let frac = d < s.len() && s[d] == '.' && d + 1 < s.len() && digit(s[d + 1]);
    let j = if frac { run_end(s, d + 1, 2) } else { d };
    proof {
        // every number from `i` followed properly ends at `j`, with digits
        // before it
        assert forall|j2: int| tok_span(TokKind::Number, sv, i as int, j2) implies j2 == j && d > p by {
            let t2 = sv.subrange(i as int, j2);
            let u2 = if t2.len() > 0 && t2[0] == '-' { t2.drop_first() } else { t2 };
            assert(is_unsigned_number(u2));
            assert(u2.len() >= 1);
            assert(t2.len() > 0 ==> t2[0] == sv[i as int]);
            assert(u2 =~= sv.subrange(p as int, j2));
            if u2.len() >= 1 && all_digits(u2) {
                if j2 < d {
                    assert(in_class(sv[j2], 2));
                }
                if j2 > d {
                    assert(u2[d - p] == sv[d as int]);
                    assert(is_digit(u2[d - p]));
                }
                assert(j2 == d);
                assert(u2[0] == sv[p as int]);
                assert(is_digit(u2[0]));
                assert(!frac);
            } else {
                let k = choose|k: int|
                    1 <= k <= u2.len() - 2 && #[trigger] u2[k] == '.' && all_digits(u2.subrange(0, k))
                        && all_digits(u2.subrange(k + 1, u2.len() as int));
                assert(u2[k] == sv[p + k]);
                if p + k < d {
                    assert(in_class(sv[p + k], 2));
                }
                if p + k > d {
                    assert(u2.subrange(0, k)[d - p] == sv[d as int]);
                }
                assert(p + k == d);
                assert(u2.subrange(k + 1, u2.len() as int)[0] == sv[d + 1]);
                assert(frac);
                assert(u2.subrange(0, k)[0] == sv[p as int]);
                if j2 < j {
                    assert(in_class(sv[j2], 2));
                }
                if j2 > j {
                    assert(u2.subrange(k + 1, u2.len() as int)[j - d - 1] == sv[j as int]);
                }
            }
        }
    }
    if d > p && (j == s.len() || follow(s[j])) {
        proof {
            let t = sv.subrange(i as int, j as int);
            let u = if t.len() > 0 && t[0] == '-' { t.drop_first() } else { t };
            assert(t.len() > 0 ==> t[0] == sv[i as int]);
            assert(u =~= sv.subrange(p as int, j as int));
            if frac {
                let k = d - p;
                assert(u[k] == '.');
                assert(u.subrange(0, k) =~= sv.subrange(p as int, d as int));
                assert(u.subrange(k + 1, u.len() as int) =~= sv.subrange(d + 1, j as int));
                assert forall|m: int| 0 <= m < k implies is_digit(#[trigger] u.subrange(0, k)[m]) by {
                    assert(in_class(sv[p + m], 2));
                }
                assert forall|m: int| 0 <= m < u.len() - k - 1 implies is_digit(
                    #[trigger] u.subrange(k + 1, u.len() as int)[m],
                ) by {
                    assert(in_class(sv[d + 1 + m], 2));
                }
                assert(is_unsigned_number(u));
            } else {
                assert forall|m: int| 0 <= m < u.len() implies is_digit(#[trigger] u[m]) by {
                    assert(in_class(sv[p + m], 2));
                }
            }
        }
        Some(j)
    } else {
        None
    }
}

// ---------------------------------------------------------------------------
// Shapes of a condition
// ---------------------------------------------------------------------------

/// An operator: `=`, `<>`, `<=`, `>=`, `<` or `>`.
pub open spec fn is_op(t: Seq<char>) -> bool {
    ||| t == seq!['=']
    ||| t == seq!['<', '>']
    ||| t == seq!['<', '=']
    ||| t == seq!['>', '=']
    ||| t == seq!['<']
    ||| t == seq!['>']
}

/// The seven shapes of a condition (see the module documentation).
#[derive(Debug, Clone, Copy, PartialEq, Eq, Structural)]
pub enum ConditionPattern {
    AucunConst,
    CharConstGauche,
    CharConstDroite,
    NumberConstGauche,
    NumberConstDroite,
    DeuxCharConst,
    DeuxNumberConst,
}

impl ConditionPattern {
    pub open spec fn left(self) -> TokKind {
        match self {
            ConditionPattern::AucunConst | ConditionPattern::CharConstDroite | ConditionPattern::NumberConstDroite => TokKind::Col,
            ConditionPattern::CharConstGauche | ConditionPattern::DeuxCharConst => TokKind::CharConst,
            ConditionPattern::NumberConstGauche | ConditionPattern::DeuxNumberConst => TokKind::Number,
        }
    }

    pub open spec fn right(self) -> TokKind {
        match self {
            ConditionPattern::AucunConst | ConditionPattern::CharConstGauche | ConditionPattern::NumberConstGauche => TokKind::Col,
            ConditionPattern::CharConstDroite | ConditionPattern::DeuxCharConst => TokKind::CharConst,
            ConditionPattern::NumberConstDroite | ConditionPattern::DeuxNumberConst => TokKind::Number,
        }
    }

    /// Whether white space is allowed at both ends.
    pub open spec fn outer(self) -> bool {
        self == ConditionPattern::DeuxNumberConst
    }

    fn left_kind(&self) -> (k: TokKind)
        ensures
            k == self.left(),
    {
        match self {
            ConditionPattern::AucunConst | ConditionPattern::CharConstDroite | ConditionPattern::NumberConstDroite => TokKind::Col,
            ConditionPattern::CharConstGauche | ConditionPattern::DeuxCharConst => TokKind::CharConst,
            ConditionPattern::NumberConstGauche | ConditionPattern::DeuxNumberConst => TokKind::Number,
        }
    }

    fn right_kind(&self) -> (k: TokKind)
        ensures
            k == self.right(),
    {
        match self {
            ConditionPattern::AucunConst | ConditionPattern::CharConstGauche | ConditionPattern::NumberConstGauche => TokKind::Col,
            ConditionPattern::CharConstDroite | ConditionPattern::DeuxCharConst => TokKind::CharConst,
            ConditionPattern::NumberConstDroite | ConditionPattern::DeuxNumberConst => TokKind::Number,
        }
    }
}

/// `s` is, in order: white space, the left operand, white space, an
/// operator, white space, the right operand, white space; the white space at
/// both ends empty unless the shape allows it.
pub open spec fn shape_split(
    pat: ConditionPattern,
    s: Seq<char>,
    w0: Seq<char>,
    x: Seq<char>,
    w1: Seq<char>,
    op: Seq<char>,
    w2: Seq<char>,
    y: Seq<char>,
    w3: Seq<char>,
) -> bool {
    &&& s == w0 + x + w1 + op + w2 + y + w3
    &&& all_ws(w0) && all_ws(w1) && all_ws(w2) && all_ws(w3)
    &&& !pat.outer() ==> w0.len() == 0 && w3.len() == 0
    &&& is_tok(pat.left(), x) && is_op(op) && is_tok(pat.right(), y)
}

/// Whether `s` has the shape.
pub open spec fn shape_matches(pat: ConditionPattern, s: Seq<char>) -> bool {
    exists|w0: Seq<char>, x: Seq<char>, w1: Seq<char>, op: Seq<char>, w2: Seq<char>, y: Seq<char>, w3: Seq<char>|
        shape_split(pat, s, w0, x, w1, op, w2, y, w3)
}

proof fn lemma_tok_first(kind: TokKind, t: Seq<char>)
    requires
        is_tok(kind, t),
    ensures
        t.len() >= 1,
        !is_ws(t[0]) && !is_follow(t[0]),
{
    if kind == TokKind::Number {
        if !(t.len() > 0 && t[0] == '-') {
            if t.len() >= 1 && all_digits(t) {
                assert(is_digit(t[0]));
            } else {
                let k = choose|k: int|
                    1 <= k <= t.len() - 2 && #[trigger] t[k] == '.' && all_digits(t.subrange(0, k)) && all_digits(
                        t.subrange(k + 1, t.len() as int),
                    );
                assert(t.subrange(0, k)[0] == t[0]);
            }
        }
    }
}

/// Where white space from `i` ends, as a fact about any maximal run.
pub open spec fn ws_run_end(s: Seq<char>, i: int, j: int) -> bool {
    &&& i <= j <= s.len()
    &&& forall|k: int| i <= k < j ==> is_ws(#[trigger] s[k])
    &&& j == s.len() || !is_ws(s[j])
}

/// An operator spans `s[i..j]`, and the next character, if any, cannot
/// continue it.
pub open spec fn op_span(s: Seq<char>, i: int, j: int) -> bool {
    &&& 0 <= i <= j <= s.len()
    &&& is_op(s.subrange(i, j))
    &&& (j == s.len() || (s[j] != '>' && s[j] != '='))
}

/// What any reading of `s` as the shape tells of its positions.
proof fn lemma_split_facts(
    pat: ConditionPattern,
    s: Seq<char>,
    w0: Seq<char>,
    x: Seq<char>,
    w1: Seq<char>,
    op: Seq<char>,
    w2: Seq<char>,
    y: Seq<char>,
    w3: Seq<char>,
)
    requires
        shape_split(pat, s, w0, x, w1, op, w2, y, w3),
    ensures
        ({
            let a = w0.len() as int;
            let b = a + x.len();
            let c = b + w1.len();
            let d = c + op.len();
            let e = d + w2.len();
            let f = e + y.len();
            &&& pat.outer() ==> ws_run_end(s, 0, a)
            &&& !pat.outer() ==> a == 0 && f == s.len()
            &&& tok_span(pat.left(), s, a, b)
            &&& ws_run_end(s, b, c)
            &&& op_span(s, c, d)
            &&& s.subrange(c, d) == op
            &&& ws_run_end(s, d, e)
            &&& tok_span(pat.right(), s, e, f)
            &&& pat.outer() ==> ws_run_end(s, f, s.len() as int)
            &&& s.subrange(a, b) == x && s.subrange(e, f) == y
        }),
{
    let a = w0.len() as int;
    let b = a + x.len();
    let c = b + w1.len();
    let d = c + op.len();
    let e = d + w2.len();
    let f = e + y.len();
    lemma_tok_first(pat.left(), x);
    lemma_tok_first(pat.right(), y);
    assert(s.subrange(0, a) =~= w0);
    assert(s.subrange(a, b) =~= x);
    assert(s.subrange(b, c) =~= w1);
    assert(s.subrange(c, d) =~= op);
    assert(s.subrange(d, e) =~= w2);
    assert(s.subrange(e, f) =~= y);
    assert(s.subrange(f, s.len() as int) =~= w3);
    assert(s[a] == x[0]);
    assert(s[c] == op[0]);
    assert(s[e] == y[0]);
    assert forall|k: int| 0 <= k < a implies is_ws(#[trigger] s[k]) by {
        assert(s[k] == w0[k]);
    }
    assert forall|k: int| b <= k < c implies is_ws(#[trigger] s[k]) by {
        assert(s[k] == w1[k - b]);
    }
    assert forall|k: int| d <= k < e implies is_ws(#[trigger] s[k]) by {
        assert(s[k] == w2[k - d]);
    }
    assert forall|k: int| f <= k < s.len() implies is_ws(#[trigger] s[k]) by {
        assert(s[k] == w3[k - f]);
    }
    if w1.len() > 0 {
        assert(s[b] == w1[0]);
    } else {
        assert(s[b] == op[0]);
    }
    if d < s.len() {
        if w2.len() > 0 {
            assert(s[d] == w2[0]);
        } else {
            assert(s[d] == y[0]);
        }
    }
    if f < s.len() {
        assert(s[f] == w3[0]);
    }
}

proof fn lemma_op_shape(t: Seq<char>)
    requires
        is_op(t),
    ensures
        t.len() == 1 || t.len() == 2,
        t[0] == '=' || t[0] == '<' || t[0] == '>',
        t.len() == 2 ==> (t[0] == '<' && (t[1] == '>' || t[1] == '=')) || (t[0] == '>' && t[1] == '='),
{
}

/// Parses an operator at `i`: the end of the only operator that the next
/// character cannot continue.
fn parse_op(s: &[char], i: usize) -> (r: Option<usize>)
    requires
        i <= s@.len(),
    ensures
        match r {
            Some(j) => op_span(s@, i as int, j as int) && forall|j2: int| op_span(s@, i as int, j2) ==> j2 == j,
            None => forall|j2: int| !op_span(s@, i as int, j2),
        },
{
    let ghost sv = s@;
    let n = s.len();
    if i >= n {
        proof {
            assert forall|j2: int| !op_span(sv, i as int, j2) by {
                if op_span(sv, i as int, j2) {
                    lemma_op_shape(sv.subrange(i as int, j2));
                }
            }
        }
        return None;
    }
    let c = s[i];
    if c != '=' && c != '<' && c != '>' {
        proof {
            assert forall|j2: int| !op_span(sv, i as int, j2) by {
                if op_span(sv, i as int, j2) {
                    lemma_op_shape(sv.subrange(i as int, j2));
                    assert(sv.subrange(i as int, j2)[0] == c);
                }
            }
        }
        return None;
    }
    let two = i + 1 < n && ((c == '<' && (s[i + 1] == '>' || s[i + 1] == '=')) || (c == '>' && s[i + 1] == '='));
    let j = if two { i + 2 } else { i + 1 };
    proof {
        if two {
            assert(sv.subrange(i as int, j as int) =~= seq![c, sv[i + 1]]);
        } else {
            assert(sv.subrange(i as int, j as int) =~= seq![c]);
        }
        assert forall|j2: int| op_span(sv, i as int, j2) implies j2 == j by {
            let t = sv.subrange(i as int, j2);
            lemma_op_shape(t);
            assert(t[0] == c);
            if t.len() == 2 {
                assert(t[1] == sv[i + 1]);
            }
        }
    }
    if j == n || (s[j] != '>' && s[j] != '=') {
        Some(j)
    } else {
        None
    }
}

/// Skips white space from `i`.
fn skip_ws(s: &[char], i: usize) -> (j: usize)
    requires
        i <= s@.len(),
    ensures
        ws_run_end(s@, i as int, j as int),
        forall|j2: int| ws_run_end(s@, i as int, j2) ==> j2 == j,
{
    let j = run_end(s, i, 3);
    proof {
        assert forall|j2: int| ws_run_end(s@, i as int, j2) implies j2 == j by {
            if j2 < j {
                assert(in_class(s@[j2], 3));
            }
            if j2 > j {
                assert(is_ws(s@[j as int]));
            }
        }
        assert forall|k: int| i <= k < j implies is_ws(#[trigger] s@[k]) by {
            assert(in_class(s@[k], 3));
        }
    }
    j
}

/// Positions found by parsing make a reading of `s` as the shape.
proof fn lemma_split_from_positions(
    pat: ConditionPattern,
    s: Seq<char>,
    xs: int,
    xe: int,
    os: int,
    oe: int,
    ys: int,
    ye: int,
)
    requires
        pat.outer() ==> ws_run_end(s, 0, xs),
        !pat.outer() ==> xs == 0,
        tok_span(pat.left(), s, xs, xe),
        ws_run_end(s, xe, os),
        op_span(s, os, oe),
        ws_run_end(s, oe, ys),
        tok_span(pat.right(), s, ys, ye),
        pat.outer() ==> ws_run_end(s, ye, s.len() as int),
        !pat.outer() ==> ye == s.len(),
    ensures
        shape_split(
            pat,
            s,
            s.subrange(0, xs),
            s.subrange(xs, xe),
            s.subrange(xe, os),
            s.subrange(os, oe),
            s.subrange(oe, ys),
            s.subrange(ys, ye),
            s.subrange(ye, s.len() as int),
        ),
{
    let w0 = s.subrange(0, xs);
    let w1 = s.subrange(xe, os);
    let w2 = s.subrange(oe, ys);
    let w3 = s.subrange(ye, s.len() as int);
    assert(s =~= w0 + s.subrange(xs, xe) + w1 + s.subrange(os, oe) + w2 + s.subrange(ys, ye) + w3);
    assert forall|k: int| 0 <= k < w0.len() implies is_ws(#[trigger] w0[k]) by {
        assert(w0[k] == s[k]);
    }
    assert forall|k: int| 0 <= k < w1.len() implies is_ws(#[trigger] w1[k]) by {
        assert(w1[k] == s[xe + k]);
    }
    assert forall|k: int| 0 <= k < w2.len() implies is_ws(#[trigger] w2[k]) by {
        assert(w2[k] == s[oe + k]);
    }
    assert forall|k: int| 0 <= k < w3.len() implies is_ws(#[trigger] w3[k]) by {
        assert(w3[k] == s[ye + k]);
    }
}

/// Parses `s` as shape `pat`: the bounds of the left operand, of the
/// operator and of the right operand; `None` when `s` does not have the
/// shape. Every way of reading `s` as the shape has these parts.
#[verifier::rlimit(60)]
fn parse_shape(s: &[char], pat: ConditionPattern) -> (r: Option<(usize, usize, usize, usize, usize, usize)>)
    ensures
        match r {
            Some((xs, xe, os, oe, ys, ye)) => {
                &&& xs <= xe <= os <= oe <= ys <= ye <= s@.len()
                &&& shape_split(
                    pat,
                    s@,
                    s@.subrange(0, xs as int),
                    s@.subrange(xs as int, xe as int),
                    s@.subrange(xe as int, os as int),
                    s@.subrange(os as int, oe as int),
                    s@.subrange(oe as int, ys as int),
                    s@.subrange(ys as int, ye as int),
                    s@.subrange(ye as int, s@.len() as int),
                )
            },
            None => !shape_matches(pat, s@),
        },
        forall|w0: Seq<char>, x: Seq<char>, w1: Seq<char>, op: Seq<char>, w2: Seq<char>, y: Seq<char>, w3: Seq<char>|
            #[trigger] shape_split(pat, s@, w0, x, w1, op, w2, y, w3) ==> (r matches Some((xs, xe, os, oe, ys, ye))
                && x == s@.subrange(xs as int, xe as int) && op == s@.subrange(os as int, oe as int) && y
                == s@.subrange(ys as int, ye as int)),
{
    let ghost sv = s@;
    let n = s.len();
    let outer = pat == ConditionPattern::DeuxNumberConst;
    let xs = if outer { skip_ws(s, 0) } else { 0 };
    let xe_opt = scan_tok(s, xs, pat.left_kind());
    let os = match xe_opt { Some(e) => skip_ws(s, e), None => 0 };
    let oe_opt = match xe_opt { Some(_) => parse_op(s, os), None => None };
    let ys = match oe_opt { Some(e) => skip_ws(s, e), None => 0 };
    let ye_opt = match oe_opt { Some(_) => scan_tok(s, ys, pat.right_kind()), None => None };
    let tail = match ye_opt { Some(e) => if outer { skip_ws(s, e) } else { e }, None => 0 };
    proof {
        assert forall|w0: Seq<char>, x: Seq<char>, w1: Seq<char>, op: Seq<char>, w2: Seq<char>, y: Seq<char>, w3: Seq<char>|
            #[trigger] shape_split(pat, sv, w0, x, w1, op, w2, y, w3) implies (xe_opt is Some && oe_opt is Some && ye_opt is Some
                && tail == n && xs + x.len() == xe_opt.unwrap() && os + op.len() == oe_opt.unwrap()
                && ys + y.len() == ye_opt.unwrap() && xs == w0.len() && x == sv.subrange(xs as int, xe_opt.unwrap() as int)
                && op == sv.subrange(os as int, oe_opt.unwrap() as int) && y == sv.subrange(ys as int, ye_opt.unwrap() as int)) by {
            lemma_split_facts(pat, sv, w0, x, w1, op, w2, y, w3);
        }
    }
    match (xe_opt, oe_opt, ye_opt) {
        (Some(xe), Some(oe), Some(ye)) => {
            if tail != n {
                return None;
            }
            proof {
                lemma_split_from_positions(pat, sv, xs as int, xe as int, os as int, oe as int, ys as int, ye as int);
            }
            Some((xs, xe, os, oe, ys, ye))
        },
        _ => None,
    }
}

// ---------------------------------------------------------------------------
// Recognising the shapes
// ---------------------------------------------------------------------------

impl ConditionPattern {
    /// Whether the whole of `s` has this shape.
    pub fn is_match(&self, s: &str) -> (b: bool)
        ensures
            b == shape_matches(*self, s@),
    {
        let cs = chars_of(s);
        parse_shape(cs.as_slice(), *self).is_some()
    }

    /// The texts of the left operand, of the operator and of the right
    /// operand when `s` has this shape, a quoted constant without its quotes.
    pub fn captures(&self, s: &str) -> (r: Option<(String, String, String)>)
        ensures
            r is Some <==> shape_matches(*self, s@),
            forall|w0: Seq<char>, x: Seq<char>, w1: Seq<char>, op: Seq<char>, w2: Seq<char>, y: Seq<char>, w3: Seq<char>|
                #[trigger] shape_split(*self, s@, w0, x, w1, op, w2, y, w3) ==> (r matches Some((a, o, b)) && a@
                    == tok_value(self.left(), x) && o@ == op && b@ == tok_value(self.right(), y)),
    {
        let cs = chars_of(s);
        match parse_shape(cs.as_slice(), *self) {
            None => None,
            Some((xs, xe, os, oe, ys, ye)) => {
                proof {
                    lemma_tok_value_bounds(self.left(), cs@.subrange(xs as int, xe as int));
                    lemma_tok_value_bounds(self.right(), cs@.subrange(ys as int, ye as int));
                }
                let (a0, a1) = if self.left_kind() == TokKind::CharConst { (xs + 1, xe - 1) } else { (xs, xe) };
                let (b0, b1) = if self.right_kind() == TokKind::CharConst { (ys + 1, ye - 1) } else { (ys, ye) };
                let a = string_of(cs.as_slice(), a0, a1);
                let o = string_of(cs.as_slice(), os, oe);
                let b = string_of(cs.as_slice(), b0, b1);
                proof {
                    assert(a@ =~= tok_value(self.left(), cs@.subrange(xs as int, xe as int)));
                    assert(b@ =~= tok_value(self.right(), cs@.subrange(ys as int, ye as int)));
                }
                Some((a, o, b))
            },
        }
    }
}

proof fn lemma_tok_value_bounds(kind: TokKind, t: Seq<char>)
    requires
        is_tok(kind, t),
    ensures
        kind == TokKind::CharConst ==> t.len() >= 2,
{
}

/// The shapes in the order they are tried.
pub open spec fn pattern_at(i: int) -> ConditionPattern {
    if i == 0 {
        ConditionPattern::AucunConst
    } else if i == 1 {
        ConditionPattern::CharConstGauche
    } else if i == 2 {
        ConditionPattern::CharConstDroite
    } else if i == 3 {
        ConditionPattern::NumberConstGauche
    } else if i == 4 {
        ConditionPattern::NumberConstDroite
    } else if i == 5 {
        ConditionPattern::DeuxCharConst
    } else {
        ConditionPattern::DeuxNumberConst
    }
}

/// The first shape, in order, that `s` has.
pub open spec fn first_shape(s: Seq<char>) -> Option<ConditionPattern> {
    if shape_matches(pattern_at(0), s) {
        Some(pattern_at(0))
    } else if shape_matches(pattern_at(1), s) {
        Some(pattern_at(1))
    } else if shape_matches(pattern_at(2), s) {
        Some(pattern_at(2))
    } else if shape_matches(pattern_at(3), s) {
        Some(pattern_at(3))
    } else if shape_matches(pattern_at(4), s) {
        Some(pattern_at(4))
    } else if shape_matches(pattern_at(5), s) {
        Some(pattern_at(5))
    } else if shape_matches(pattern_at(6), s) {
        Some(pattern_at(6))
    } else {
        None
    }
}

// ---------------------------------------------------------------------------
// Operators
// ---------------------------------------------------------------------------

/// A comparison operator.
#[derive(Debug, Clone, Copy, PartialEq, Eq, Structural)]
pub enum Operateur {
    EQUAL,
    LESSTHAN,
    GREATERTHAN,
    LESSEQUAL,
    GREATEREQUAL,
    NOTEQUAL,
}

/// How an operator is written.
pub open spec fn op_text(op: Operateur) -> Seq<char> {
    match op {
        Operateur::EQUAL => seq!['='],
        Operateur::NOTEQUAL => seq!['<', '>'],
        Operateur::LESSTHAN => seq!['<'],
        Operateur::GREATERTHAN => seq!['>'],
        Operateur::LESSEQUAL => seq!['<', '='],
        Operateur::GREATEREQUAL => seq!['>', '='],
    }
}

/// The operator written `t`, if any.
pub open spec fn op_of_text(t: Seq<char>) -> Option<Operateur> {
    if t == op_text(Operateur::EQUAL) {
        Some(Operateur::EQUAL)
    } else if t == op_text(Operateur::NOTEQUAL) {
        Some(Operateur::NOTEQUAL)
    } else if t == op_text(Operateur::LESSTHAN) {
        Some(Operateur::LESSTHAN)
    } else if t == op_text(Operateur::GREATERTHAN) {
        Some(Operateur::GREATERTHAN)
    } else if t == op_text(Operateur::LESSEQUAL) {
        Some(Operateur::LESSEQUAL)
    } else if t == op_text(Operateur::GREATEREQUAL) {
        Some(Operateur::GREATEREQUAL)
    } else {
        None
    }
}

/// Whether a comparison result (-1, 0 or 1) satisfies the operator.
pub open spec fn op_holds(op: Operateur, c: i8) -> bool {
    match op {
        Operateur::EQUAL => c == 0,
        Operateur::LESSTHAN => c == -1,
        Operateur::GREATERTHAN => c == 1,
        Operateur::LESSEQUAL => c <= 0,
        Operateur::GREATEREQUAL => c >= 0,
        Operateur::NOTEQUAL => c != 0,
    }
}

/// An error in the syntax of a condition.
#[derive(Debug)]
pub struct PatternError {
    pub message: String,
}

impl PatternError {
    pub fn new(message: &str) -> (e: PatternError)
        ensures
            e.message@ == message@,
    {
        PatternError { message: String::from_str(message) }
    }
}

fn text_eq(a: &[char], b: &[char]) -> (r: bool)
    ensures
        r == (a@ == b@),
{
    if a.len() != b.len() {
        return false;
    }
    let mut i: usize = 0;
    while i < a.len()
        invariant
            a@.len() == b@.len(),
            0 <= i <= a@.len(),
            forall|j: int| 0 <= j < i ==> a@[j] == b@[j],
        decreases a@.len() - i,
    {
        if a[i] != b[i] {
            return false;
        }
        i += 1;
    }
    assert(a@ =~= b@);
    true
}

// ---------------------------------------------------------------------------
// Operands
// ---------------------------------------------------------------------------

/// What an operand is: its text and whether it is a number.
pub trait Operande {
    /// `NUMBER` or `CHARS`.
    fn get_type(&self) -> &'static str;

    /// The text of the value.
    fn get_valeur(&self) -> String;
}

/// A text value.
#[derive(Debug, Clone)]
pub struct Chars {
    pub valeur: String,
}

impl Chars {
    pub fn new(s: &str) -> (c: Chars)
        ensures
            c.valeur@ == s@,
    {
        Chars { valeur: String::from_str(s) }
    }
}

impl Operande for Chars {
    fn get_type(&self) -> (r: &'static str)
        ensures
            r@ == "CHARS"@,
    {
        "CHARS"
    }

    fn get_valeur(&self) -> (r: String)
        ensures
            r@ == self.valeur@,
    {
        self.valeur.clone()
    }
}

impl Chars {
    /// How this text compares with an operand: in lexicographic order with
    /// a text, as smaller (-1) with a number.
    pub fn compare(&self, operande: &Operand) -> (r: i8)
        ensures
            r == match operande.model() {
                OperandModel::Chars(b) => lex_order(self.valeur@, b),
                OperandModel::Number(_) => -1i8,
            },
    {
        match operande {
            Operand::Chars(b) => compare_text(self.valeur.as_str(), b.valeur.as_str()),
            Operand::Number(_) => -1,
        }
    }
}

/// An operand of a condition: a text, or a number as written (numbers are
/// compared as floating-point values, outside this library).
#[derive(Debug, Clone)]
pub enum Operand {
    Chars(Chars),
    Number(String),
}

/// An operand as a value: its text and whether it is a number.
pub enum OperandModel {
    Chars(Seq<char>),
    Number(Seq<char>),
}

impl Operand {
    pub open spec fn model(&self) -> OperandModel {
        match self {
            Operand::Chars(c) => OperandModel::Chars(c.valeur@),
            Operand::Number(t) => OperandModel::Number(t@),
        }
    }
}

impl Operande for Operand {
    fn get_type(&self) -> (r: &'static str)
        ensures
            r@ == (if self is Number { "NUMBER"@ } else { "CHARS"@ }),
    {
        match self {
            Operand::Chars(_) => "CHARS",
            Operand::Number(_) => "NUMBER",
        }
    }

    fn get_valeur(&self) -> (r: String)
        ensures
            r@ == match self.model() {
                OperandModel::Chars(t) => t,
                OperandModel::Number(t) => t,
            },
    {
        match self {
            Operand::Chars(c) => c.valeur.clone(),
            Operand::Number(t) => t.clone(),
        }
    }
}

/// The lexicographic order of texts, character by character: -1, 0 or 1.
pub open spec fn lex_order(a: Seq<char>, b: Seq<char>) -> i8
    decreases a.len(),
{
    if a.len() == 0 {
        if b.len() == 0 {
            0i8
        } else {
            -1i8
        }
    } else if b.len() == 0 {
        1i8
    } else if a[0] < b[0] {
        -1i8
    } else if a[0] > b[0] {
        1i8
    } else {
        lex_order(a.drop_first(), b.drop_first())
    }
}

/// Texts compare at their first difference: where they agree on their
/// first `i` characters and both have an `i`-th, the text whose `i`-th
/// character is smaller is the smaller one, whatever their lengths.
pub proof fn lemma_lex_first_difference(a: Seq<char>, b: Seq<char>, i: int)
    requires
        0 <= i < a.len(),
        i < b.len(),
        forall|j: int| 0 <= j < i ==> a[j] == b[j],
    ensures
        a[i] < b[i] ==> lex_order(a, b) == -1,
        a[i] > b[i] ==> lex_order(a, b) == 1,
    decreases i,
{
    if i > 0 {
        assert(a[0] == b[0]);
        lemma_lex_first_difference(a.drop_first(), b.drop_first(), i - 1);
    }
}

/// A text that is a beginning of another, shorter than it, is the smaller
/// one; a text equal to another compares as 0.
pub proof fn lemma_lex_prefix(a: Seq<char>, b: Seq<char>)
    requires
        a.len() <= b.len(),
        forall|j: int| 0 <= j < a.len() ==> a[j] == b[j],
    ensures
        a.len() < b.len() ==> lex_order(a, b) == -1,
        a.len() == b.len() ==> lex_order(a, b) == 0,
    decreases a.len(),
{
    if a.len() > 0 {
        assert(a[0] == b[0]);
        lemma_lex_prefix(a.drop_first(), b.drop_first());
    }
}

/// Swapping the texts reverses their order.
pub proof fn lemma_lex_swap(a: Seq<char>, b: Seq<char>)
    ensures
        lex_order(a, b) == -lex_order(b, a),
    decreases a.len(),
{
    if a.len() > 0 && b.len() > 0 && a[0] == b[0] {
        lemma_lex_swap(a.drop_first(), b.drop_first());
    }
}

/// How two operands compare: texts in lexicographic order, operands of
/// different kinds as -1; `None` for two numbers, which compare as
/// floating-point values.
pub open spec fn operand_order(l: OperandModel, r: OperandModel) -> Option<i8> {
    match (l, r) {
        (OperandModel::Chars(a), OperandModel::Chars(b)) => Some(lex_order(a, b)),
        (OperandModel::Number(_), OperandModel::Number(_)) => None,
        _ => Some(-1i8),
    }
}

proof fn lemma_lex_step(a: Seq<char>, b: Seq<char>, i: int)
    requires
        0 <= i < a.len(),
        i < b.len(),
        a[i] == b[i],
    ensures
        lex_order(a.subrange(i, a.len() as int), b.subrange(i, b.len() as int)) == lex_order(
            a.subrange(i + 1, a.len() as int),
            b.subrange(i + 1, b.len() as int),
        ),
{
    assert(a.subrange(i, a.len() as int).drop_first() =~= a.subrange(i + 1, a.len() as int));
    assert(b.subrange(i, b.len() as int).drop_first() =~= b.subrange(i + 1, b.len() as int));
}

/// Compares two texts in lexicographic order.
fn compare_text(a: &str, b: &str) -> (r: i8)
    ensures
        r == lex_order(a@, b@),
{
    let ca = chars_of(a);
    let cb = chars_of(b);
    let mut i: usize = 0;
    assert(ca@.subrange(0, ca@.len() as int) =~= ca@);
    assert(cb@.subrange(0, cb@.len() as int) =~= cb@);
    while i < ca.len() && i < cb.len()
        invariant
            0 <= i <= ca@.len(),
            i <= cb@.len(),
            ca@ == a@,
            cb@ == b@,
            lex_order(a@, b@) == lex_order(ca@.subrange(i as int, ca@.len() as int), cb@.subrange(i as int, cb@.len() as int)),
        decreases ca@.len() - i,
    {
        if ca[i] < cb[i] {
            return -1;
        }
        if ca[i] > cb[i] {
            return 1;
        }
        proof {
            lemma_lex_step(ca@, cb@, i as int);
        }
        i += 1;
    }
    if i < ca.len() {
        1
    } else if i < cb.len() {
        -1
    } else {
        0
    }
}

// ---------------------------------------------------------------------------
// Conditions
// ---------------------------------------------------------------------------

/// A condition: two operands and a comparison operator.
pub struct Condition {
    pub oper_gauche: Operand,
    pub operateur: Operateur,
    pub oper_droite: Operand,
}

/// The text after the first `.` of `t` (the column of `alias.column`).
pub open spec fn after_first_dot(t: Seq<char>) -> Seq<char> {
    t.subrange(first_dot(t) + 1, t.len() as int)
}

/// The index of the first `.` of `t`, or -1.
pub open spec fn first_dot(t: Seq<char>) -> int
    decreases t.len(),
{
    if t.len() == 0 {
        -1
    } else if t[0] == '.' {
        0
    } else {
        let r = first_dot(t.drop_first());
        if r < 0 {
            -1
        } else {
            r + 1
        }
    }
}

/// The index of the first column named `name`, or the number of columns.
pub open spec fn col_index(cols: Seq<ColInfo>, name: Seq<char>) -> int
    decreases cols.len(),
{
    if cols.len() == 0 {
        0
    } else if cols[0].name@ == name {
        0
    } else {
        col_index(cols.drop_first(), name) + 1
    }
}

/// The bytes of `INT` and `REAL`, as characters.
pub open spec fn is_number_type(t: Seq<char>) -> bool {
    t == seq!['I', 'N', 'T'] || t == seq!['R', 'E', 'A', 'L']
}

/// Whether the column named after the `.` of `t` exists and has a value in
/// the record.
pub open spec fn column_found(t: Seq<char>, cols: Seq<ColInfo>, record: Seq<String>) -> bool {
    let i = col_index(cols, after_first_dot(t));
    i < cols.len() && i < record.len()
}

/// The operand a column reference stands for: the record's value of that
/// column, a number when the column type is `INT` or `REAL`.
pub open spec fn column_operand(t: Seq<char>, cols: Seq<ColInfo>, record: Seq<String>) -> OperandModel {
    let i = col_index(cols, after_first_dot(t));
    if is_number_type(cols[i].column_type@) {
        OperandModel::Number(record[i]@)
    } else {
        OperandModel::Chars(record[i]@)
    }
}

/// The operand a side of a condition stands for.
pub open spec fn side_operand(kind: TokKind, t: Seq<char>, cols: Seq<ColInfo>, record: Seq<String>) -> OperandModel {
    match kind {
        TokKind::Col => column_operand(t, cols, record),
        TokKind::CharConst => OperandModel::Chars(t.subrange(1, t.len() - 1)),
        TokKind::Number => OperandModel::Number(t),
    }
}

/// Whether a side of a condition can be read: a column reference needs its
/// column.
pub open spec fn side_ok(kind: TokKind, t: Seq<char>, cols: Seq<ColInfo>, record: Seq<String>) -> bool {
    kind == TokKind::Col ==> column_found(t, cols, record)
}

/// The parts of `s` read as shape `pat` (unique when `s` has the shape).
pub open spec fn shape_parts(pat: ConditionPattern, s: Seq<char>) -> (Seq<char>, Seq<char>, Seq<char>) {
    let (w0, x, w1, op, w2, y, w3) = choose|
        w0: Seq<char>,
        x: Seq<char>,
        w1: Seq<char>,
        op: Seq<char>,
        w2: Seq<char>,
        y: Seq<char>,
        w3: Seq<char>,
    | shape_split(pat, s, w0, x, w1, op, w2, y, w3);
    (x, op, y)
}

/// Whether reading condition `s` finds its columns (else it cannot be read).
pub open spec fn condition_readable(s: Seq<char>, cols: Seq<ColInfo>, record: Seq<String>) -> bool {
    match first_shape(s) {
        None => true,
        Some(pat) => {
            let (x, op, y) = shape_parts(pat, s);
            side_ok(pat.left(), x, cols, record) && side_ok(pat.right(), y, cols, record)
        },
    }
}

/// The condition `s` stands for, over the columns and the record: its left
/// operand, its operator and its right operand.
pub open spec fn condition_of(s: Seq<char>, cols: Seq<ColInfo>, record: Seq<String>) -> Option<(OperandModel, Operateur, OperandModel)> {
    match first_shape(s) {
        None => None,
        Some(pat) => {
            let (x, op, y) = shape_parts(pat, s);
            Some((side_operand(pat.left(), x, cols, record), op_of_text(op).unwrap(), side_operand(pat.right(), y, cols, record)))
        },
    }
}

proof fn lemma_first_dot_at(t: Seq<char>, i: int)
    requires
        0 <= i < t.len(),
        t[i] == '.',
        forall|j: int| 0 <= j < i ==> t[j] != '.',
    ensures
        first_dot(t) == i,
    decreases i,
{
    if i > 0 {
        lemma_first_dot_at(t.drop_first(), i - 1);
    }
}

proof fn lemma_first_dot_absent(t: Seq<char>)
    requires
        forall|j: int| 0 <= j < t.len() ==> t[j] != '.',
    ensures
        first_dot(t) == -1,
    decreases t.len(),
{
    if t.len() > 0 {
        lemma_first_dot_absent(t.drop_first());
    }
}

proof fn lemma_first_dot_props(t: Seq<char>)
    ensures
        -1 <= first_dot(t) < t.len(),
        first_dot(t) >= 0 ==> t[first_dot(t)] == '.',
        forall|j: int| 0 <= j < t.len() && (first_dot(t) < 0 || j < first_dot(t)) ==> t[j] != '.',
    decreases t.len(),
{
    if t.len() > 0 && t[0] != '.' {
        lemma_first_dot_props(t.drop_first());
        assert forall|j: int| 0 <= j < t.len() && (first_dot(t) < 0 || j < first_dot(t)) implies t[j] != '.' by {
            if j > 0 {
                assert(t[j] == t.drop_first()[j - 1]);
            }
        }
    }
}

/// The two parts that `split_colonne` gives, joined again with a `.`, are
/// the text it was given, and the first part has no `.`.
pub proof fn lemma_split_colonne_rejoins(s: Seq<char>)
    requires
        first_dot(s) >= 0,
    ensures
        s.subrange(0, first_dot(s)) + seq!['.'] + s.subrange(first_dot(s) + 1, s.len() as int) == s,
        forall|j: int| 0 <= j < first_dot(s) ==> s.subrange(0, first_dot(s))[j] != '.',
{
    lemma_first_dot_props(s);
    assert(s.subrange(0, first_dot(s)) + seq!['.'] + s.subrange(first_dot(s) + 1, s.len() as int) =~= s);
}

/// Reading back how an operator is written gives that operator.
pub proof fn lemma_operator_text_roundtrip(op: Operateur)
    ensures
        op_of_text(op_text(op)) == Some(op),
{
    assert(seq!['<', '>'] != seq!['='] && seq!['<'] != seq!['='] && seq!['>'] != seq!['='] && seq!['<', '=']
        != seq!['='] && seq!['>', '='] != seq!['=']) by {
        assert(seq!['<', '>'].len() != seq!['='].len());
        assert(seq!['<'][0] != seq!['='][0]);
        assert(seq!['>'][0] != seq!['='][0]);
        assert(seq!['<', '='].len() != seq!['='].len());
        assert(seq!['>', '='].len() != seq!['='].len());
    }
    assert(seq!['<'] != seq!['<', '>'] && seq!['>'] != seq!['<', '>'] && seq!['<', '='] != seq!['<', '>']
        && seq!['>', '='] != seq!['<', '>']) by {
        assert(seq!['<'].len() != seq!['<', '>'].len());
        assert(seq!['>'].len() != seq!['<', '>'].len());
        assert(seq!['<', '='][1] != seq!['<', '>'][1]);
        assert(seq!['>', '='][0] != seq!['<', '>'][0]);
    }
    assert(seq!['>'] != seq!['<'] && seq!['<', '='] != seq!['<'] && seq!['>', '='] != seq!['<']) by {
        assert(seq!['>'][0] != seq!['<'][0]);
        assert(seq!['<', '='].len() != seq!['<'].len());
        assert(seq!['>', '='].len() != seq!['<'].len());
    }
    assert(seq!['<', '='] != seq!['>'] && seq!['>', '='] != seq!['>']) by {
        assert(seq!['<', '='].len() != seq!['>'].len());
        assert(seq!['>', '='].len() != seq!['>'].len());
    }
    assert(seq!['>', '='] != seq!['<', '=']) by {
        assert(seq!['>', '='][0] != seq!['<', '='][0]);
    }
}

proof fn lemma_first_dot_none(t: Seq<char>, k: int)
    requires
        0 <= k < t.len(),
        t[k] == '.',
    ensures
        0 <= first_dot(t) <= k,
    decreases t.len(),
{
    if k > 0 && t[0] != '.' {
        lemma_first_dot_none(t.drop_first(), k - 1);
    }
}

/// The index of the first `.` of `t`.
fn find_dot(t: &[char]) -> (r: Option<usize>)
    ensures
        match r {
            Some(i) => i < t@.len() && first_dot(t@) == i,
            None => first_dot(t@) == -1,
        },
{
    let mut i: usize = 0;
    while i < t.len()
        invariant
            0 <= i <= t@.len(),
            forall|j: int| 0 <= j < i ==> t@[j] != '.',
        decreases t@.len() - i,
    {
        if t[i] == '.' {
            proof {
                lemma_first_dot_at(t@, i as int);
            }
            return Some(i);
        }
        i += 1;
    }
    proof {
        lemma_first_dot_absent(t@);
    }
    None
}

proof fn lemma_col_index_at(cols: Seq<ColInfo>, name: Seq<char>, i: int)
    requires
        0 <= i <= cols.len(),
        i < cols.len() ==> cols[i].name@ == name,
        forall|j: int| 0 <= j < i ==> cols[j].name@ != name,
    ensures
        col_index(cols, name) == i,
    decreases i,
{
    if i > 0 {
        lemma_col_index_at(cols.drop_first(), name, i - 1);
    } else if cols.len() == 0 {
    }
}

/// The index of the first column named `name`, or the number of columns.
pub fn find_column(colonnes: &Vec<ColInfo>, name: &[char]) -> (r: usize)
    ensures
        r == col_index(colonnes@, name@),
        r <= colonnes@.len(),
{
    let mut i: usize = 0;
    while i < colonnes.len()
        invariant
            0 <= i <= colonnes@.len(),
            forall|j: int| 0 <= j < i ==> colonnes@[j].name@ != name@,
        decreases colonnes@.len() - i,
    {
        let cn = chars_of(colonnes[i].name.as_str());
        if text_eq(cn.as_slice(), name) {
            proof {
                lemma_col_index_at(colonnes@, name@, i as int);
            }
            return i;
        }
        i += 1;
    }
    proof {
        lemma_col_index_at(colonnes@, name@, i as int);
    }
    i
}

/// The operator written `t`.
fn op_from_chars(t: &[char]) -> (r: Option<Operateur>)
    ensures
        r == op_of_text(t@),
{
    let eq: [char; 1] = ['='];
    let ne: [char; 2] = ['<', '>'];
    let lt: [char; 1] = ['<'];
    let gt: [char; 1] = ['>'];
    let le: [char; 2] = ['<', '='];
    let ge: [char; 2] = ['>', '='];
    assert(eq@ =~= op_text(Operateur::EQUAL));
    assert(ne@ =~= op_text(Operateur::NOTEQUAL));
    assert(lt@ =~= op_text(Operateur::LESSTHAN));
    assert(gt@ =~= op_text(Operateur::GREATERTHAN));
    assert(le@ =~= op_text(Operateur::LESSEQUAL));
    assert(ge@ =~= op_text(Operateur::GREATEREQUAL));
    if text_eq(t, eq.as_slice()) {
        Some(Operateur::EQUAL)
    } else if text_eq(t, ne.as_slice()) {
        Some(Operateur::NOTEQUAL)
    } else if text_eq(t, lt.as_slice()) {
        Some(Operateur::LESSTHAN)
    } else if text_eq(t, gt.as_slice()) {
        Some(Operateur::GREATERTHAN)
    } else if text_eq(t, le.as_slice()) {
        Some(Operateur::LESSEQUAL)
    } else if text_eq(t, ge.as_slice()) {
        Some(Operateur::GREATEREQUAL)
    } else {
        None
    }
}

/// Whether a column type is `INT` or `REAL`.
fn number_type(t: &str) -> (b: bool)
    ensures
        b == is_number_type(t@),
{
    let cs = chars_of(t);
    let int_t: [char; 3] = ['I', 'N', 'T'];
    let real_t: [char; 4] = ['R', 'E', 'A', 'L'];
    assert(int_t@ =~= seq!['I', 'N', 'T']);
    assert(real_t@ =~= seq!['R', 'E', 'A', 'L']);
    text_eq(cs.as_slice(), int_t.as_slice()) || text_eq(cs.as_slice(), real_t.as_slice())
}

/// The text with the same quote removed at both ends (`"`, then `'`, then
/// `ʺ`), or the text itself.
pub open spec fn strip_quotes(t: Seq<char>) -> Seq<char> {
    if t.len() >= 2 && t[0] == '"' && t[t.len() - 1] == '"' {
        t.subrange(1, t.len() - 1)
    } else if t.len() >= 2 && t[0] == '\'' && t[t.len() - 1] == '\'' {
        t.subrange(1, t.len() - 1)
    } else if t.len() >= 2 && t[0] == '\u{2BA}' && t[t.len() - 1] == '\u{2BA}' {
        t.subrange(1, t.len() - 1)
    } else {
        t
    }
}

impl Condition {
    pub fn new(gauche: Operand, operateur: Operateur, droite: Operand) -> (c: Condition)
        ensures
            c.oper_gauche == gauche,
            c.operateur == operateur,
            c.oper_droite == droite,
    {
        Condition { oper_gauche: gauche, operateur, oper_droite: droite }
    }

    /// Whether the condition holds: `None` when both operands are numbers,
    /// which compare as floating-point values (see `evaluate_with`).
    pub fn evaluate(&self) -> (r: Option<bool>)
        ensures
            r == match operand_order(self.oper_gauche.model(), self.oper_droite.model()) {
                Some(c) => Some(op_holds(self.operateur, c)),
                None => None,
            },
    {
        let c: i8 = match (&self.oper_gauche, &self.oper_droite) {
            (Operand::Chars(a), Operand::Chars(b)) => compare_text(a.valeur.as_str(), b.valeur.as_str()),
            (Operand::Number(_), Operand::Number(_)) => {
                return None;
            },
            _ => -1,
        };
        Some(self.evaluate_with(c))
    }

    /// Whether the condition holds when its operands compare as `c` (-1 when
    /// the left one is smaller, 0 when they are equal, 1 when it is larger).
    pub fn evaluate_with(&self, c: i8) -> (r: bool)
        ensures
            r == op_holds(self.operateur, c),
    {
        match self.operateur {
            Operateur::EQUAL => c == 0,
            Operateur::LESSTHAN => c == -1,
            Operateur::GREATERTHAN => c == 1,
            Operateur::LESSEQUAL => c <= 0,
            Operateur::GREATEREQUAL => c >= 0,
            Operateur::NOTEQUAL => c != 0,
        }
    }

    /// The operator written `operateur_str`.
    pub fn to_operateur(operateur_str: &str) -> (r: Result<Operateur, PatternError>)
        ensures
            match op_of_text(operateur_str@) {
                Some(op) => r matches Ok(o) && o == op,
                None => r matches Err(e) && e.message@ == "Opérateur invalide"@,
            },
    {
        let cs = chars_of(operateur_str);
        match op_from_chars(cs.as_slice()) {
            Some(op) => Ok(op),
            None => Err(PatternError::new("Opérateur invalide")),
        }
    }

    /// How the operator is written.
    pub fn get_operateur(&self) -> (r: String)
        ensures
            r@ == op_text(self.operateur),
    {
        let mut r = String::new();
        match self.operateur {
            Operateur::EQUAL => {
                crate::text::push_char(&mut r, '=');
            },
            Operateur::NOTEQUAL => {
                crate::text::push_char(&mut r, '<');
                crate::text::push_char(&mut r, '>');
            },
            Operateur::LESSTHAN => {
                crate::text::push_char(&mut r, '<');
            },
            Operateur::GREATERTHAN => {
                crate::text::push_char(&mut r, '>');
            },
            Operateur::GREATEREQUAL => {
                crate::text::push_char(&mut r, '>');
                crate::text::push_char(&mut r, '=');
            },
            Operateur::LESSEQUAL => {
                crate::text::push_char(&mut r, '<');
                crate::text::push_char(&mut r, '=');
            },
        }
        assert(r@ =~= op_text(self.operateur));
        r
    }

    /// `Condition { oper_gauche=L, operateur=OP, oper_droite=R }`, with the
    /// texts of the operands (a number as written).
    pub fn to_string(&self) -> (r: String)
        ensures
            r@ == "Condition { oper_gauche="@ + self.oper_gauche.get_valeur_spec() + ", operateur="@ + op_text(
                self.operateur,
            ) + ", oper_droite="@ + self.oper_droite.get_valeur_spec() + " }"@,
    {
        let mut r = String::from_str("Condition { oper_gauche=");
        let l = self.oper_gauche.get_valeur();
        r.append(l.as_str());
        r.append(", operateur=");
        let op = self.get_operateur();
        r.append(op.as_str());
        r.append(", oper_droite=");
        let d = self.oper_droite.get_valeur();
        r.append(d.as_str());
        r.append(" }");
        r
    }

    /// Splits `alias.column` at its first `.`.
    pub fn split_colonne(s: &str) -> (r: Result<(String, String), PatternError>)
        ensures
            first_dot(s@) < 0 ==> (r matches Err(e) && e.message@ == "Erreur split_condition()"@),
            first_dot(s@) >= 0 ==> (r matches Ok((a, b)) && a@ == s@.subrange(0, first_dot(s@)) && b@ == s@.subrange(
                first_dot(s@) + 1,
                s@.len() as int,
            )),
    {
        let cs = chars_of(s);
        let n = cs.len();
        match find_dot(cs.as_slice()) {
            None => Err(PatternError::new("Erreur split_condition()")),
            Some(i) => {
                assert(i < n);
                Ok((string_of(cs.as_slice(), 0, i), string_of(cs.as_slice(), i + 1, n)))
            },
        }
    }

    /// Removes the quotes around a constant (see `strip_quotes`).
    pub fn suppr_guillemets(s: &str) -> (r: String)
        ensures
            r@ == strip_quotes(s@),
    {
        let cs = chars_of(s);
        let n = cs.len();
        if n >= 2 && ((cs[0] == '"' && cs[n - 1] == '"') || (cs[0] == '\'' && cs[n - 1] == '\'') || (cs[0]
            == '\u{2BA}' && cs[n - 1] == '\u{2BA}')) {
            string_of(cs.as_slice(), 1, n - 1)
        } else {
            string_of(cs.as_slice(), 0, n)
        }
    }

    /// The operand for the column named `nom_colonne`: the record's value of
    /// that column, a number when the column type is `INT` or `REAL`.
    pub fn choisir_operande(colonnes: &Vec<ColInfo>, nom_colonne: &str, record: &Record) -> (r: Operand)
        requires
            col_index(colonnes@, nom_colonne@) < colonnes@.len(),
            col_index(colonnes@, nom_colonne@) < record.record_tuple@.len(),
        ensures
            ({
                let i = col_index(colonnes@, nom_colonne@);
                r.model() == if is_number_type(colonnes@[i].column_type@) {
                    OperandModel::Number(record.record_tuple@[i]@)
                } else {
                    OperandModel::Chars(record.record_tuple@[i]@)
                }
            }),
    {
        let name = chars_of(nom_colonne);
        let i = find_column(colonnes, name.as_slice());
        let v = record.record_tuple[i].clone();
        if number_type(colonnes[i].column_type.as_str()) {
            Operand::Number(v)
        } else {
            Operand::Chars(Chars { valeur: v })
        }
    }
}

impl Operand {
    /// The text of the value (what `get_valeur` gives).
    pub open spec fn get_valeur_spec(&self) -> Seq<char> {
        match self.model() {
            OperandModel::Chars(t) => t,
            OperandModel::Number(t) => t,
        }
    }
}

proof fn lemma_is_op_known(t: Seq<char>)
    requires
        is_op(t),
    ensures
        op_of_text(t) is Some,
{
}

proof fn lemma_shape_parts(pat: ConditionPattern, s: Seq<char>)
    requires
        shape_matches(pat, s),
    ensures
        exists|w0: Seq<char>, w1: Seq<char>, w2: Seq<char>, w3: Seq<char>|
            #[trigger] shape_split(pat, s, w0, shape_parts(pat, s).0, w1, shape_parts(pat, s).1, w2, shape_parts(pat, s).2, w3),
{
    let (w0, x, w1, op, w2, y, w3) = choose|
        w0: Seq<char>,
        x: Seq<char>,
        w1: Seq<char>,
        op: Seq<char>,
        w2: Seq<char>,
        y: Seq<char>,
        w3: Seq<char>,
    | shape_split(pat, s, w0, x, w1, op, w2, y, w3);
    assert(shape_split(pat, s, w0, shape_parts(pat, s).0, w1, shape_parts(pat, s).1, w2, shape_parts(pat, s).2, w3));
}

/// The shape tried in place `k`.
fn pattern_for(k: usize) -> (p: ConditionPattern)
    ensures
        p == pattern_at(k as int),
{
    if k == 0 {
        ConditionPattern::AucunConst
    } else if k == 1 {
        ConditionPattern::CharConstGauche
    } else if k == 2 {
        ConditionPattern::CharConstDroite
    } else if k == 3 {
        ConditionPattern::NumberConstGauche
    } else if k == 4 {
        ConditionPattern::NumberConstDroite
    } else if k == 5 {
        ConditionPattern::DeuxCharConst
    } else {
        ConditionPattern::DeuxNumberConst
    }
}

/// The operand for the side `cs[a..b]` of kind `kind`; `None` when it is a
/// column reference that names no column with a value in the record.
fn side(cs: &[char], a: usize, b: usize, kind: TokKind, colonnes: &Vec<ColInfo>, record: &Record) -> (r: Option<Operand>)
    requires
        a <= b <= cs@.len(),
        is_tok(kind, cs@.subrange(a as int, b as int)),
    ensures
        r is Some <==> side_ok(kind, cs@.subrange(a as int, b as int), colonnes@, record.record_tuple@),
        r matches Some(o) ==> o.model() == side_operand(kind, cs@.subrange(a as int, b as int), colonnes@, record.record_tuple@),
{
    let ghost t = cs@.subrange(a as int, b as int);
    match kind {
        TokKind::Col => {
            let part = vstd::slice::slice_subrange(cs, a, b);
            assert(part@ == t);
            let k = match find_dot(part) {
                Some(k) => k,
                None => {
                    proof {
                        let k = choose|k: int| 1 <= k <= t.len() - 2 && #[trigger] t[k] == '.';
                        lemma_first_dot_none(t, k);
                    }
                    return None;
                },
            };
            let name = vstd::slice::slice_subrange(cs, a + k + 1, b);
            assert(name@ =~= after_first_dot(t));
            let i = find_column(colonnes, name);
            if i < colonnes.len() && i < record.record_tuple.len() {
                let v = record.record_tuple[i].clone();
                if number_type(colonnes[i].column_type.as_str()) {
                    Some(Operand::Number(v))
                } else {
                    Some(Operand::Chars(Chars { valeur: v }))
                }
            } else {
                None
            }
        },
        TokKind::CharConst => {
            let v = string_of(cs, a + 1, b - 1);
            assert(v@ =~= t.subrange(1, t.len() - 1));
            Some(Operand::Chars(Chars { valeur: v }))
        },
        TokKind::Number => {
            let v = string_of(cs, a, b);
            Some(Operand::Number(v))
        },
    }
}

impl Condition {
    /// Reads condition `s` over the columns of a relation and one of its
    /// records: the first shape it has gives its operands (a column
    /// reference stands for the record's value of that column) and its
    /// operator; an error when it has none of the shapes; `None` when it
    /// names a column that is not there or has no value in the record.
    pub fn try_check_syntaxe(s: &str, colonnes: &Vec<ColInfo>, record: &Record) -> (r: Option<
        Result<Condition, PatternError>,
    >)
        ensures
            r is None <==> !condition_readable(s@, colonnes@, record.record_tuple@),
            r matches Some(res) ==> match condition_of(s@, colonnes@, record.record_tuple@) {
                None => res matches Err(e) && e.message@ == "Syntaxe invalide"@,
                Some((l, op, rr)) => res matches Ok(c) && c.oper_gauche.model() == l && c.operateur == op
                    && c.oper_droite.model() == rr,
            },
    {
        let cs = chars_of(s);
        let mut k: usize = 0;
        while k < 7
            invariant
                0 <= k <= 7,
                cs@ == s@,
                forall|j: int| 0 <= j < k ==> !shape_matches(pattern_at(j), s@),
            decreases 7 - k,
        {
            let pat = pattern_for(k);
            match parse_shape(cs.as_slice(), pat) {
                Some((xs, xe, os, oe, ys, ye)) => {
                    let ghost x = cs@.subrange(xs as int, xe as int);
                    let ghost op = cs@.subrange(os as int, oe as int);
                    let ghost y = cs@.subrange(ys as int, ye as int);
                    proof {
                        assert(shape_matches(pat, s@));
                        assert(first_shape(s@) == Some(pat));
                        lemma_shape_parts(pat, s@);
                        assert(shape_parts(pat, s@) == (x, op, y));
                        lemma_is_op_known(op);
                    }
                    let l = match side(cs.as_slice(), xs, xe, pat.left_kind(), colonnes, record) {
                        Some(o) => o,
                        None => {
                            return None;
                        },
                    };
                    let rr = match side(cs.as_slice(), ys, ye, pat.right_kind(), colonnes, record) {
                        Some(o) => o,
                        None => {
                            return None;
                        },
                    };
                    let opv = op_from_chars(vstd::slice::slice_subrange(cs.as_slice(), os, oe));
                    let o = match opv {
                        Some(o) => o,
                        None => {
                            return None;
                        },
                    };
                    return Some(Ok(Condition::new(l, o, rr)));
                },
                None => {},
            }
            k += 1;
        }
        Some(Err(PatternError::new("Syntaxe invalide")))
    }

    /// `try_check_syntaxe`, on a condition whose columns are there.
    pub fn check_syntaxe(s: String, colonnes: &Vec<ColInfo>, record: &Record) -> (r: Result<Condition, PatternError>)
        requires
            condition_readable(s@, colonnes@, record.record_tuple@),
        ensures
            match condition_of(s@, colonnes@, record.record_tuple@) {
                None => r matches Err(e) && e.message@ == "Syntaxe invalide"@,
                Some((l, op, rr)) => r matches Ok(c) && c.oper_gauche.model() == l && c.operateur == op
                    && c.oper_droite.model() == rr,
            },
    {
        match Condition::try_check_syntaxe(s.as_str(), colonnes, record) {
            Some(r) => r,
            None => Err(PatternError::new("Syntaxe invalide")),
        }
    }
}

/// Whether condition `c` holds, where `order` is how its operands compare
/// when both are numbers (-1, 0 or 1, as for `evaluate_with`).
pub open spec fn condition_holds(c: Condition, order: i8) -> bool {
    match operand_order(c.oper_gauche.model(), c.oper_droite.model()) {
        Some(x) => op_holds(c.operateur, x),
        None => op_holds(c.operateur, order),
    }
}

/// Whether every condition holds, where `number_orders[i]` is how the
/// operands of `conds[i]` compare when both are numbers (see
/// `condition_holds`).
pub fn all_conditions_hold(conds: &Vec<Condition>, number_orders: &Vec<i8>) -> (r: bool)
    requires
        conds@.len() == number_orders@.len(),
    ensures
        r == forall|i: int| 0 <= i < conds@.len() ==> condition_holds(#[trigger] conds@[i], number_orders@[i]),
{
    let mut i: usize = 0;
    while i < conds.len()
        invariant
            conds@.len() == number_orders@.len(),
            0 <= i <= conds@.len(),
            forall|j: int| 0 <= j < i ==> condition_holds(#[trigger] conds@[j], number_orders@[j]),
        decreases conds@.len() - i,
    {
        let holds = match conds[i].evaluate() {
            Some(b) => b,
            None => conds[i].evaluate_with(number_orders[i]),
        };
        if !holds {
            return false;
        }
        i += 1;
    }
    true
}

} // verus!
