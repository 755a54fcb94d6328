//! The command line: recognising a command and reading its arguments.
//!
//! A line is read, stripped of its line end, and recognised by its first
//! words. The arguments of `CREATE TABLE`, `INSERT INTO` and
//! `BULKINSERT INTO` are read here; carrying the commands out (pages,
//! files, printing) is left to the caller.

use vstd::prelude::*;
use vstd::string::StringExecFns;
use crate::col_info::ColInfo;
use crate::condition::{first_dot, Condition};
use crate::db_manager::{find_last_relation, last_rel_index};
use crate::relation::Relation;
use crate::select::{select_spec, trim_all, views, Select};
use crate::text::{chars_of, string_of, string_from_utf8, white, is_white, join, split_pieces, split_by, trim, trim_chars};

verus! {

// ---------------------------------------------------------------------------
// Words
// ---------------------------------------------------------------------------

/// The words of `s` after the word `cur` begun before it: the runs of
/// characters that are not white space.
pub open spec fn words_acc(s: Seq<char>, cur: Seq<char>) -> Seq<Seq<char>>
    decreases s.len(),
{
    if s.len() == 0 {
        if cur.len() > 0 {
            seq![cur]
        } else {
            Seq::empty()
        }
    } else if is_white(s[0]) {
        (if cur.len() > 0 {
            seq![cur]
        } else {
            Seq::empty()
        }) + words_acc(s.drop_first(), Seq::empty())
    } else {
        words_acc(s.drop_first(), cur.push(s[0]))
    }
}

/// `str::split_whitespace`: the runs of characters of `s` that are not
/// white space, in order.
pub open spec fn words(s: Seq<char>) -> Seq<Seq<char>> {
    words_acc(s, Seq::empty())
}

/// The texts of a sequence of character vectors.
pub open spec fn char_texts(v: Seq<Vec<char>>) -> Seq<Seq<char>> {
    Seq::new(v.len(), |j: int| v[j]@)
}

/// The words of `s` (see `words`).
pub fn words_of(s: &[char]) -> (r: Vec<Vec<char>>)
    ensures
        char_texts(r@) == words(s@),
{
    let ghost sv = s@;
    let mut out: Vec<Vec<char>> = Vec::new();
    let mut cur: Vec<char> = Vec::new();
    let mut i: usize = 0;
    assert(sv.subrange(0, sv.len() as int) =~= sv);
    while i < s.len()
        invariant
            0 <= i <= sv.len(),
            sv == s@,
            words(sv) == char_texts(out@) + words_acc(sv.subrange(i as int, sv.len() as int), cur@),
        decreases sv.len() - i,
    {
        let ghost rest = sv.subrange(i as int, sv.len() as int);
        assert(rest.drop_first() =~= sv.subrange(i + 1, sv.len() as int));
        let c = s[i];
        if white(c) {
            if cur.len() > 0 {
                let ghost before = char_texts(out@);
                let done = cur;
                out.push(done);
                cur = Vec::new();
                assert(char_texts(out@) =~= before + seq![done@]);
            } else {
                assert(char_texts(out@) + (Seq::<Seq<char>>::empty() + words_acc(rest.drop_first(), Seq::empty()))
                    =~= char_texts(out@) + words_acc(rest.drop_first(), Seq::empty()));
                assert(cur@ =~= Seq::<char>::empty());
            }
        } else {
            cur.push(c);
        }
        i += 1;
    }
    assert(sv.subrange(sv.len() as int, sv.len() as int) =~= Seq::<char>::empty());
    if cur.len() > 0 {
        let ghost before = char_texts(out@);
        let done = cur;
        out.push(done);
        assert(char_texts(out@) =~= before + seq![done@]);
    } else {
        assert(char_texts(out@) + Seq::<Seq<char>>::empty() =~= char_texts(out@));
    }
    out
}

// ---------------------------------------------------------------------------
// Commands
// ---------------------------------------------------------------------------

/// The commands of the command line.
#[derive(Debug, Clone, Copy, PartialEq, Eq, Structural)]
pub enum CommandKind {
    Quit,
    CreateDatabase,
    SetDatabase,
    DropDatabases,
    DropDatabase,
    ListDatabases,
    CreateTable,
    DropTables,
    DropTable,
    ListTables,
    Insert,
    BulkInsert,
    Select,
    Unknown,
}

/// A recognised command and its argument.
#[derive(Debug, Clone)]
pub struct Command {
    pub kind: CommandKind,
    pub arg: String,
}

/// The line without its line end: a last `\n` goes, then a last `\r`.
pub open spec fn strip_line_end(l: Seq<char>) -> Seq<char> {
    let a = if l.len() > 0 && l.last() == '\n' {
        l.drop_last()
    } else {
        l
    };
    if a.len() > 0 && a.last() == '\r' {
        a.drop_last()
    } else {
        a
    }
}

/// The command text: the line without its line end, and without a last
/// `;` ending the command.
pub open spec fn command_text(line: Seq<char>) -> Seq<char> {
    let l = strip_line_end(line);
    if l.len() > 0 && l.last() == ';' {
        l.drop_last()
    } else {
        l
    }
}

/// `l` begins with `p`.
pub open spec fn starts(l: Seq<char>, p: Seq<char>) -> bool {
    p.len() <= l.len() && l.subrange(0, p.len() as int) == p
}

/// The last word of `l`, or nothing.
pub open spec fn last_word(l: Seq<char>) -> Seq<char> {
    let w = words(l);
    if w.len() > 0 {
        w.last()
    } else {
        Seq::empty()
    }
}

/// The words of `l` after the first two, joined with spaces.
pub open spec fn after_two_words(l: Seq<char>) -> Seq<char> {
    let w = words(l);
    if w.len() >= 2 {
        join(w.subrange(2, w.len() as int), " "@)
    } else {
        Seq::empty()
    }
}

/// The command on a line and its argument. The line end and a last `;` are
/// dropped; the command is known by the start of the line, tried in this
/// order; the argument is the last word (the name of a database or of a
/// relation), the words after the first two for `CREATE TABLE`, `INSERT
/// INTO` and `BULKINSERT INTO`, and the text itself otherwise.
pub open spec fn command_of(line: Seq<char>) -> (CommandKind, Seq<char>) {
    let l = command_text(line);
    if starts(l, "QUIT"@) {
        (CommandKind::Quit, l)
    } else if starts(l, "CREATE DATABASE"@) {
        (CommandKind::CreateDatabase, last_word(l))
    } else if starts(l, "SET DATABASE"@) {
        (CommandKind::SetDatabase, last_word(l))
    } else if starts(l, "DROP DATABASES"@) {
        (CommandKind::DropDatabases, last_word(l))
    } else if starts(l, "DROP DATABASE"@) {
        (CommandKind::DropDatabase, last_word(l))
    } else if starts(l, "LIST DATABASES"@) {
        (CommandKind::ListDatabases, last_word(l))
    } else if starts(l, "CREATE TABLE"@) {
        (CommandKind::CreateTable, after_two_words(l))
    } else if starts(l, "DROP TABLES"@) {
        (CommandKind::DropTables, last_word(l))
    } else if starts(l, "DROP TABLE"@) {
        (CommandKind::DropTable, last_word(l))
    } else if starts(l, "LIST TABLES"@) {
        (CommandKind::ListTables, last_word(l))
    } else if starts(l, "INSERT INTO"@) {
        (CommandKind::Insert, after_two_words(l))
    } else if starts(l, "BULKINSERT INTO"@) {
        (CommandKind::BulkInsert, after_two_words(l))
    } else if starts(l, "SELECT"@) {
        (CommandKind::Select, l)
    } else {
        (CommandKind::Unknown, l)
    }
}

/// Whether `l` begins with `p`.
fn starts_text(l: &[char], p: &str) -> (b: bool)
    ensures
        b == starts(l@, p@),
{
    let pc = chars_of(p);
    if pc.len() > l.len() {
        return false;
    }
    let mut k: usize = 0;
    while k < pc.len()
        invariant
            0 <= k <= pc@.len(),
            pc@.len() <= l@.len(),
            pc@ == p@,
            forall|m: int| 0 <= m < k ==> l@[m] == pc@[m],
        decreases pc@.len() - k,
    {
        if l[k] != pc[k] {
            assert(l@.subrange(0, pc@.len() as int)[k as int] == l@[k as int]);
            return false;
        }
        k += 1;
    }
    assert(l@.subrange(0, pc@.len() as int) =~= pc@);
    true
}

/// The words `w[from..to]` joined with spaces.
fn join_words(w: &Vec<Vec<char>>, from: usize, to: usize) -> (r: String)
    requires
        from <= to <= w@.len(),
    ensures
        r@ == join(char_texts(w@).subrange(from as int, to as int), " "@),
{
    let mut v: Vec<String> = Vec::new();
    let mut k = from;
    while k < to
        invariant
            from <= k <= to,
            to <= w@.len(),
            v@.len() == k - from,
            forall|m: int| 0 <= m < v@.len() ==> (#[trigger] v@[m])@ == w@[from + m]@,
        decreases to - k,
    {
        v.push(string_of(w[k].as_slice(), 0, w[k].len()));
        assert(w@[k as int]@.subrange(0, w@[k as int]@.len() as int) =~= w@[k as int]@);
        k += 1;
    }
    let r = crate::text::join_strings(&v, " ");
    assert(Seq::new(v@.len(), |i: int| v@[i]@) =~= char_texts(w@).subrange(from as int, to as int));
    r
}

/// Recognises the command on a line (see `command_of`).
#[verifier::rlimit(60)]
#[verifier::spinoff_prover]
pub fn parse_command(line: &str) -> (c: Command)
    ensures
        (c.kind, c.arg@) == command_of(line@),
{
    let cs = chars_of(line);
    let mut n = cs.len();
    if n > 0 && cs[n - 1] == '\n' {
        n = n - 1;
    }
    if n > 0 && cs[n - 1] == '\r' {
        n = n - 1;
    }
    let ghost n0 = n;
    if n > 0 && cs[n - 1] == ';' {
        n = n - 1;
    }
    let l = vstd::slice::slice_subrange(cs.as_slice(), 0, n);
    proof {
        let a = if line@.len() > 0 && line@.last() == '\n' {
            line@.drop_last()
        } else {
            line@
        };
        assert(a =~= cs@.subrange(0, a.len() as int));
        assert(cs@.subrange(0, n0 as int) =~= strip_line_end(line@));
        assert(l@ =~= command_text(line@));
    }
    let w = words_of(l);
    let whole = string_of(l, 0, l.len());
    assert(l@.subrange(0, l@.len() as int) =~= l@);
    let nw = w.len();
    let last = if nw > 0 {
        join_words(&w, nw - 1, nw)
    } else {
        String::new()
    };
    proof {
        if nw > 0 {
            assert(char_texts(w@).subrange(nw - 1, nw as int) =~= seq![char_texts(w@).last()]);
        }
    }
    if starts_text(l, "QUIT") {
        Command { kind: CommandKind::Quit, arg: whole }
    } else if starts_text(l, "CREATE DATABASE") {
        Command { kind: CommandKind::CreateDatabase, arg: last }
    } else if starts_text(l, "SET DATABASE") {
        Command { kind: CommandKind::SetDatabase, arg: last }
    } else if starts_text(l, "DROP DATABASES") {
        Command { kind: CommandKind::DropDatabases, arg: last }
    } else if starts_text(l, "DROP DATABASE") {
        Command { kind: CommandKind::DropDatabase, arg: last }
    } else if starts_text(l, "LIST DATABASES") {
        Command { kind: CommandKind::ListDatabases, arg: last }
    } else if starts_text(l, "CREATE TABLE") {
        let arg = if nw >= 2 {
            join_words(&w, 2, nw)
        } else {
            String::new()
        };
        Command { kind: CommandKind::CreateTable, arg }
    } else if starts_text(l, "DROP TABLES") {
        Command { kind: CommandKind::DropTables, arg: last }
    } else if starts_text(l, "DROP TABLE") {
        Command { kind: CommandKind::DropTable, arg: last }
    } else if starts_text(l, "LIST TABLES") {
        Command { kind: CommandKind::ListTables, arg: last }
    } else if starts_text(l, "INSERT INTO") {
        let arg = if nw >= 2 {
            join_words(&w, 2, nw)
        } else {
            String::new()
        };
        Command { kind: CommandKind::Insert, arg }
    } else if starts_text(l, "BULKINSERT INTO") {
        let arg = if nw >= 2 {
            join_words(&w, 2, nw)
        } else {
            String::new()
        };
        Command { kind: CommandKind::BulkInsert, arg }
    } else if starts_text(l, "SELECT") {
        Command { kind: CommandKind::Select, arg: whole }
    } else {
        Command { kind: CommandKind::Unknown, arg: whole }
    }
}

// ---------------------------------------------------------------------------
// Arguments
// ---------------------------------------------------------------------------

/// A text without its first and last characters (nothing when it has fewer
/// than two).
pub open spec fn strip_ends(t: Seq<char>) -> Seq<char> {
    if t.len() >= 2 {
        t.subrange(1, t.len() - 1)
    } else {
        Seq::empty()
    }
}

/// The text after the first word of `arg`, its words joined with spaces,
/// without its first and last characters (the parentheses of
/// `name (a:T, b:U)`).
pub open spec fn list_body(arg: Seq<char>, first: int) -> Seq<char> {
    let w = words(arg);
    strip_ends(join(w.subrange(first, w.len() as int), " "@))
}

/// The column definitions of `CREATE TABLE name (a:T, b:U)`: the relation
/// name, then each definition between the parentheses, split at its `:`,
/// as its text before the first `:` and its text between the first and the
/// second `:`, both without white space at their ends. `None` when there
/// are fewer than two words or a definition has no `:`.
pub open spec fn create_table_of(arg: Seq<char>) -> Option<(Seq<char>, Seq<(Seq<char>, Seq<char>)>)> {
    let w = words(arg);
    if w.len() < 2 {
        None
    } else {
        let defs = split_by(list_body(arg, 1), seq![',']);
        if forall|k: int| 0 <= k < defs.len() ==> (#[trigger] split_by(defs[k], seq![':'])).len() >= 2 {
            Some(
                (
                    w[0],
                    Seq::new(
                        defs.len(),
                        |k: int| (trim(split_by(defs[k], seq![':'])[0]), trim(split_by(defs[k], seq![':'])[1])),
                    ),
                ),
            )
        } else {
            None
        }
    }
}

/// A value written with a `"`, `“` or `ʺ` in front.
pub open spec fn quoted(v: Seq<char>) -> bool {
    v.len() > 0 && (v[0] == '"' || v[0] == '\u{201C}' || v[0] == '\u{2BA}')
}

/// The value a text stands for: a quoted value loses its first two and its
/// last two bytes, which must leave whole characters; any other text stands
/// for itself.
pub open spec fn value_of(v: Seq<char>) -> Option<Seq<char>> {
    if quoted(v) {
        let b = vstd::utf8::encode_utf8(v);
        if b.len() >= 4 && vstd::utf8::valid_utf8(b.subrange(2, b.len() - 2)) {
            Some(vstd::utf8::decode_utf8(b.subrange(2, b.len() - 2)))
        } else {
            None
        }
    } else {
        Some(v)
    }
}

/// The values of the texts, when each stands for one.
pub open spec fn values_of(pieces: Seq<Seq<char>>) -> Option<Seq<Seq<char>>> {
    if forall|k: int| 0 <= k < pieces.len() ==> (#[trigger] value_of(pieces[k])) is Some {
        Some(Seq::new(pieces.len(), |k: int| value_of(pieces[k]).unwrap()))
    } else {
        None
    }
}

/// The relation name and the values of `name VALUES (v1, v2, ...)`: the
/// text between the parentheses split at its commas, each piece without
/// white space at its ends.
pub open spec fn insert_of(arg: Seq<char>) -> Option<(Seq<char>, Seq<Seq<char>>)> {
    let w = words(arg);
    if w.len() < 3 {
        None
    } else {
        match values_of(trim_all(split_by(list_body(arg, 2), seq![',']))) {
            Some(vals) => Some((w[0], vals)),
            None => None,
        }
    }
}

/// The relation name and the file name of `name file`.
pub open spec fn bulk_insert_of(arg: Seq<char>) -> Option<(Seq<char>, Seq<char>)> {
    let w = words(arg);
    if w.len() < 2 {
        None
    } else {
        Some((w[0], w[1]))
    }
}

/// A line without a last `\r`.
pub open spec fn strip_cr(t: Seq<char>) -> Seq<char> {
    if t.len() > 0 && t.last() == '\r' {
        t.drop_last()
    } else {
        t
    }
}

/// `str::lines`: the lines of `s`, each without its `\n` or `\r\n`; a last
/// line with no line end is kept as it is, and nothing follows a last line
/// end.
pub open spec fn lines_of(s: Seq<char>) -> Seq<Seq<char>> {
    let p = split_by(s, seq!['\n']);
    Seq::new((p.len() - 1) as nat, |i: int| strip_cr(p[i])) + if p.last().len() > 0 {
        seq![p.last()]
    } else {
        Seq::empty()
    }
}

/// The records of a file of comma-separated values, one per line.
pub open spec fn csv_records_of(content: Seq<char>) -> Option<Seq<Seq<Seq<char>>>> {
    let ls = lines_of(content);
    if forall|k: int| 0 <= k < ls.len() ==> (#[trigger] values_of(split_by(ls[k], seq![',']))) is Some {
        Some(Seq::new(ls.len(), |k: int| values_of(split_by(ls[k], seq![','])).unwrap()))
    } else {
        None
    }
}

/// The texts of a sequence of strings.
pub open spec fn string_texts(v: Seq<String>) -> Seq<Seq<char>> {
    Seq::new(v.len(), |i: int| v[i]@)
}

/// The string made of the characters of a vector.
fn string_of_vec(v: &Vec<char>) -> (s: String)
    ensures
        s@ == v@,
{
    let s = string_of(v.as_slice(), 0, v.len());
    assert(v@.subrange(0, v@.len() as int) =~= v@);
    s
}

/// The body of a list after word `first` of `arg` (see `list_body`).
fn list_body_of(w: &Vec<Vec<char>>, first: usize) -> (r: Vec<char>)
    requires
        first <= w@.len(),
    ensures
        r@ == strip_ends(join(char_texts(w@).subrange(first as int, w@.len() as int), " "@)),
{
    let j = join_words(w, first, w.len());
    let t = chars_of(j.as_str());
    let n = t.len();
    let mut r: Vec<char> = Vec::new();
    if n >= 2 {
        let mut i: usize = 1;
        while i < n - 1
            invariant
                1 <= i <= n - 1,
                n == t@.len(),
                r@ == t@.subrange(1, i as int),
            decreases n - 1 - i,
        {
            r.push(t[i]);
            i += 1;
            assert(r@ =~= t@.subrange(1, i as int));
        }
    } else {
        assert(r@ =~= strip_ends(t@));
    }
    r
}

/// Reads `CREATE TABLE` arguments (see `create_table_of`).
pub fn parse_create_table(arg: &str) -> (r: Option<(String, Vec<ColInfo>)>)
    ensures
        r is Some <==> create_table_of(arg@) is Some,
        r matches Some((name, cols)) ==> ({
            let (n, defs) = create_table_of(arg@).unwrap();
            &&& name@ == n
            &&& cols@.len() == defs.len()
            &&& forall|k: int| 0 <= k < defs.len() ==> (#[trigger] cols@[k]).name@ == defs[k].0 && cols@[k].column_type@ == defs[k].1
        }),
{
    let cs = chars_of(arg);
    let w = words_of(cs.as_slice());
    if w.len() < 2 {
        return None;
    }
    proof {
        assert(w@[0]@ == words(arg@)[0]);
        assert(char_texts(w@) == words(arg@));
    }
    let inner = list_body_of(&w, 1);
    assert(inner@ == list_body(arg@, 1));
    let comma: [char; 1] = [','];
    let colon: [char; 1] = [':'];
    assert(comma@ =~= seq![',']);
    assert(colon@ =~= seq![':']);
    let defs = split_pieces(inner.as_slice(), comma.as_slice());
    let ghost sdefs = split_by(inner@, seq![',']);
    let mut cols: Vec<ColInfo> = Vec::new();
    let mut k: usize = 0;
    while k < defs.len()
        invariant
            0 <= k <= defs@.len(),
            defs@.len() == sdefs.len(),
            forall|m: int| 0 <= m < defs@.len() ==> (#[trigger] defs@[m])@ == sdefs[m],
            colon@ == seq![':'],
            words(arg@).len() >= 2,
            sdefs == split_by(list_body(arg@, 1), seq![',']),
            cols@.len() == k,
            forall|m: int| 0 <= m < k ==> (#[trigger] split_by(sdefs[m], seq![':'])).len() >= 2,
            forall|m: int|
                0 <= m < k ==> (#[trigger] cols@[m]).name@ == trim(split_by(sdefs[m], seq![':'])[0])
                    && cols@[m].column_type@ == trim(split_by(sdefs[m], seq![':'])[1]),
        decreases defs@.len() - k,
    {
        let parts = split_pieces(defs[k].as_slice(), colon.as_slice());
        if parts.len() < 2 {
            proof {
                let d = split_by(list_body(arg@, 1), seq![',']);
                assert(d == sdefs);
                assert(split_by(d[k as int], seq![':']).len() < 2);
            }
            return None;
        }
        let a = trim_chars(parts[0].as_slice());
        let b = trim_chars(parts[1].as_slice());
        cols.push(ColInfo::new(a.as_str(), b.as_str()));
        k += 1;
    }
    let name = string_of_vec(&w[0]);
    Some((name, cols))
}

/// The value a text stands for (see `value_of`).
fn value_text(v: &[char]) -> (r: Option<String>)
    ensures
        r is Some <==> value_of(v@) is Some,
        r matches Some(s) ==> s@ == value_of(v@).unwrap(),
{
    let s = string_of(v, 0, v.len());
    assert(v@.subrange(0, v@.len() as int) =~= v@);
    if v.len() > 0 && (v[0] == '"' || v[0] == '\u{201C}' || v[0] == '\u{2BA}') {
        let b = s.as_str().as_bytes();
        let n = b.len();
        if n < 4 {
            return None;
        }
        let mid = vstd::slice::slice_subrange(b, 2, n - 2);
        let mut bytes: Vec<u8> = Vec::new();
        let mut i: usize = 0;
        while i < mid.len()
            invariant
                0 <= i <= mid@.len(),
                bytes@ == mid@.subrange(0, i as int),
            decreases mid@.len() - i,
        {
            bytes.push(mid[i]);
            i += 1;
            assert(bytes@ =~= mid@.subrange(0, i as int));
        }
        assert(bytes@ =~= mid@);
        string_from_utf8(bytes)
    } else {
        Some(s)
    }
}

/// The values of texts, when each stands for one (see `values_of`).
fn values_text(pieces: &Vec<Vec<char>>) -> (r: Option<Vec<String>>)
    ensures
        r is Some <==> values_of(char_texts(pieces@)) is Some,
        r matches Some(v) ==> string_texts(v@) == values_of(char_texts(pieces@)).unwrap(),
{
    let ghost ps = char_texts(pieces@);
    let mut out: Vec<String> = Vec::new();
    let mut k: usize = 0;
    while k < pieces.len()
        invariant
            0 <= k <= pieces@.len(),
            ps == char_texts(pieces@),
            out@.len() == k,
            forall|m: int| 0 <= m < k ==> (#[trigger] value_of(ps[m])) is Some,
            forall|m: int| 0 <= m < k ==> (#[trigger] out@[m])@ == value_of(ps[m]).unwrap(),
        decreases pieces@.len() - k,
    {
        match value_text(pieces[k].as_slice()) {
            Some(v) => {
                out.push(v);
            },
            None => {
                assert(value_of(ps[k as int]) is None);
                return None;
            },
        }
        k += 1;
    }
    assert(string_texts(out@) =~= values_of(ps).unwrap());
    Some(out)
}

/// Reads `INSERT INTO` arguments (see `insert_of`).
pub fn parse_insert(arg: &str) -> (r: Option<(String, Vec<String>)>)
    ensures
        r is Some <==> insert_of(arg@) is Some,
        r matches Some((name, vals)) ==> (name@, string_texts(vals@)) == insert_of(arg@).unwrap(),
{
    let cs = chars_of(arg);
    let w = words_of(cs.as_slice());
    if w.len() < 3 {
        return None;
    }
    proof {
        assert(w@[0]@ == words(arg@)[0]);
        assert(char_texts(w@) == words(arg@));
    }
    let inner = list_body_of(&w, 2);
    assert(inner@ == list_body(arg@, 2));
    let comma: [char; 1] = [','];
    assert(comma@ =~= seq![',']);
    let pieces = split_pieces(inner.as_slice(), comma.as_slice());
    let ghost sp = split_by(inner@, seq![',']);
    let mut trimmed: Vec<Vec<char>> = Vec::new();
    let mut k: usize = 0;
    while k < pieces.len()
        invariant
            0 <= k <= pieces@.len(),
            pieces@.len() == sp.len(),
            forall|m: int| 0 <= m < pieces@.len() ==> (#[trigger] pieces@[m])@ == sp[m],
            trimmed@.len() == k,
            forall|m: int| 0 <= m < k ==> (#[trigger] trimmed@[m])@ == trim(sp[m]),
        decreases pieces@.len() - k,
    {
        let t = trim_chars(pieces[k].as_slice());
        trimmed.push(chars_of(t.as_str()));
        k += 1;
    }
    assert(char_texts(trimmed@) =~= trim_all(sp));
    match values_text(&trimmed) {
        Some(vals) => Some((string_of_vec(&w[0]), vals)),
        None => None,
    }
}

/// Reads `BULKINSERT INTO` arguments (see `bulk_insert_of`).
pub fn parse_bulk_insert(arg: &str) -> (r: Option<(String, String)>)
    ensures
        r is Some <==> bulk_insert_of(arg@) is Some,
        r matches Some((name, file)) ==> (name@, file@) == bulk_insert_of(arg@).unwrap(),
{
    let cs = chars_of(arg);
    let w = words_of(cs.as_slice());
    if w.len() < 2 {
        return None;
    }
    proof {
        assert(w@[0]@ == words(arg@)[0]);
        assert(w@[1]@ == words(arg@)[1]);
    }
    Some((string_of_vec(&w[0]), string_of_vec(&w[1])))
}

/// The records of a file of comma-separated values (see `csv_records_of`).
pub fn parse_csv(content: &str) -> (r: Option<Vec<Vec<String>>>)
    ensures
        r is Some <==> csv_records_of(content@) is Some,
        r matches Some(recs) ==> recs@.len() == csv_records_of(content@).unwrap().len() && forall|k: int|
            0 <= k < recs@.len() ==> string_texts((#[trigger] recs@[k])@) == csv_records_of(content@).unwrap()[k],
{
    let cs = chars_of(content);
    let nl: [char; 1] = ['\n'];
    assert(nl@ =~= seq!['\n']);
    let p = split_pieces(cs.as_slice(), nl.as_slice());
    proof {
        crate::text::lemma_split_nonempty(content@, seq!['\n']);
    }
    let ghost ls = lines_of(content@);
    let ghost sp = split_by(content@, seq!['\n']);
    let last = p.len() - 1;
    let n = if p[last].len() > 0 { p.len() } else { last };
    let comma: [char; 1] = [','];
    assert(comma@ =~= seq![',']);
    let mut recs: Vec<Vec<String>> = Vec::new();
    let mut k: usize = 0;
    while k < n
        invariant
            0 <= k <= n,
            n == ls.len(),
            p@.len() == sp.len(),
            last == sp.len() - 1,
            ls == lines_of(content@),
            sp == split_by(content@, seq!['\n']),
            forall|m: int| 0 <= m < p@.len() ==> (#[trigger] p@[m])@ == sp[m],
            comma@ == seq![','],
            recs@.len() == k,
            forall|m: int| 0 <= m < k ==> (#[trigger] values_of(split_by(ls[m], seq![',']))) is Some,
            forall|m: int| 0 <= m < k ==> string_texts((#[trigger] recs@[m])@) == values_of(split_by(ls[m], seq![','])).unwrap(),
        decreases n - k,
    {
        let piece = &p[k];
        let mut e = piece.len();
        if k < last && e > 0 && piece[e - 1] == '\r' {
            e = e - 1;
        }
        let line = vstd::slice::slice_subrange(piece.as_slice(), 0, e);
        proof {
            if k < last {
                assert(ls[k as int] == strip_cr(sp[k as int]));
                assert(line@ =~= strip_cr(sp[k as int]));
            } else {
                assert(ls[k as int] == sp[k as int]);
                assert(line@ =~= sp[k as int]);
            }
        }
        let pieces = split_pieces(line, comma.as_slice());
        assert(char_texts(pieces@) =~= split_by(line@, seq![',']));
        match values_text(&pieces) {
            Some(vals) => {
                recs.push(vals);
            },
            None => {
                return None;
            },
        }
        k += 1;
    }
    Some(recs)
}

// ---------------------------------------------------------------------------
// Preparing a SELECT
// ---------------------------------------------------------------------------

/// The column names that `alias.column` references give, in order: the
/// text after the first `.` of each, skipping those with no `.`.
pub open spec fn selected_columns(cols: Seq<Seq<char>>) -> Seq<Seq<char>>
    decreases cols.len(),
{
    if cols.len() == 0 {
        Seq::empty()
    } else {
        let r = selected_columns(cols.drop_last());
        let c = cols.last();
        if first_dot(c) >= 0 {
            r.push(c.subrange(first_dot(c) + 1, c.len() as int))
        } else {
            r
        }
    }
}

/// What comes of a `SELECT`, as values.
pub enum PlanModel {
    /// The command is refused, with this message.
    Refused(Seq<char>),
    NoCurrentDatabase,
    /// No relation has the name of the table.
    NoTable,
    /// No relation has the name of the table and every column (`*`) is
    /// asked for: there is nothing to take the columns from.
    NoTableForAll,
    /// The records of the relation at this index are filtered by the
    /// conditions, then these columns are kept; the command read gives
    /// these columns, tables and conditions.
    Run(int, Seq<Seq<char>>, (Seq<Seq<char>>, Seq<Seq<char>>, Seq<Seq<char>>)),
}

/// What comes of `SELECT` command `c` over the relations of the current
/// database, if there is one: the command is read (see `select_spec`); the
/// table, `name alias` or `name` alone, is the last relation of that name; the columns kept
/// are all the columns of that relation for `*`, else the columns that the
/// `alias.column` references name.
pub open spec fn plan_of(c: Seq<char>, rels: Option<Seq<Relation>>) -> PlanModel {
    match select_spec(c) {
        Err(e) => PlanModel::Refused(e),
        Ok((se, fe, we)) => if fe.len() > 1 {
            PlanModel::Refused("Erreur : Plusieurs tables non supportées pour le moment."@)
        } else {
            match rels {
                None => PlanModel::NoCurrentDatabase,
                Some(rs) => {
                    let star = se[0] == "*"@;
                    let t = split_by(fe[0], seq![' ']);
                    let k = if t.len() == 2 || t.len() == 1 {
                        last_rel_index(rs, t[0])
                    } else {
                        -1
                    };
                    if k < 0 {
                        if star {
                            PlanModel::NoTableForAll
                        } else {
                            PlanModel::NoTable
                        }
                    } else if star {
                        PlanModel::Run(k, Seq::new(rs[k].columns@.len(), |i: int| rs[k].columns@[i].name@), (se, fe, we))
                    } else {
                        PlanModel::Run(k, selected_columns(se), (se, fe, we))
                    }
                },
            }
        },
    }
}

/// What comes of a `SELECT`.
pub enum SelectPlan {
    Refused(String),
    NoCurrentDatabase,
    NoTable,
    NoTableForAll,
    Run { table: usize, select: Select, columns: Vec<String> },
}

impl SelectPlan {
    pub open spec fn model(&self) -> PlanModel {
        match self {
            SelectPlan::Refused(m) => PlanModel::Refused(m@),
            SelectPlan::NoCurrentDatabase => PlanModel::NoCurrentDatabase,
            SelectPlan::NoTable => PlanModel::NoTable,
            SelectPlan::NoTableForAll => PlanModel::NoTableForAll,
            SelectPlan::Run { table, select, columns } => PlanModel::Run(
                *table as int,
                string_texts(columns@),
                (string_texts(select.colonnes@), string_texts(select.tables@), string_texts(select.conditions@)),
            ),
        }
    }
}

/// The column names that the references give (see `selected_columns`).
fn select_columns(cols: &Vec<String>) -> (r: Vec<String>)
    ensures
        string_texts(r@) == selected_columns(string_texts(cols@)),
{
    let ghost cv = string_texts(cols@);
    let mut r: Vec<String> = Vec::new();
    let mut k: usize = 0;
    while k < cols.len()
        invariant
            0 <= k <= cols@.len(),
            cv == string_texts(cols@),
            string_texts(r@) == selected_columns(cv.take(k as int)),
        decreases cols@.len() - k,
    {
        proof {
            assert(cv.take(k + 1).drop_last() =~= cv.take(k as int));
            assert(cv.take(k + 1).last() == cols@[k as int]@);
        }
        match Condition::split_colonne(cols[k].as_str()) {
            Ok((_, c)) => {
                let ghost prev = r@;
                r.push(c);
                assert(string_texts(r@) =~= string_texts(prev).push(c@));
            },
            Err(_) => {},
        }
        k += 1;
    }
    assert(cv.take(cv.len() as int) =~= cv);
    r
}

/// Prepares `SELECT` command `commande` over the relations of the current
/// database, if there is one (see `plan_of`).
pub fn plan_select(commande: &str, rels: Option<&Vec<Relation>>) -> (r: SelectPlan)
    ensures
        r.model() == plan_of(
            commande@,
            match rels {
                Some(v) => Some(v@),
                None => None,
            },
        ),
{
    let select = match Select::new(commande) {
        Err(e) => {
            return SelectPlan::Refused(e);
        },
        Ok(s) => s,
    };
    proof {
        assert(string_texts(select.colonnes@) =~= views(select.colonnes@));
        assert(string_texts(select.tables@) =~= views(select.tables@));
        assert(string_texts(select.conditions@) =~= views(select.conditions@));
    }
    if select.tables.len() > 1 {
        return SelectPlan::Refused(String::from_str("Erreur : Plusieurs tables non supportées pour le moment."));
    }
    let star_text = String::from_str("*");
    let star = select.colonnes[0] == star_text;
    let names = if star {
        Vec::new()
    } else {
        select_columns(&select.colonnes)
    };
    let rs = match rels {
        None => {
            return SelectPlan::NoCurrentDatabase;
        },
        Some(rs) => rs,
    };
    let tc = chars_of(select.tables[0].as_str());
    let space: [char; 1] = [' '];
    assert(space@ =~= seq![' ']);
    let t = split_pieces(tc.as_slice(), space.as_slice());
    let k = if t.len() == 2 || t.len() == 1 {
        let name = string_of_vec(&t[0]);
        find_last_relation(rs, &name)
    } else {
        None
    };
    match k {
        None => if star {
            SelectPlan::NoTableForAll
        } else {
            SelectPlan::NoTable
        },
        Some(k) => {
            if star {
                let cols = &rs[k].columns;
                let mut all: Vec<String> = Vec::new();
                let mut i: usize = 0;
                while i < cols.len()
                    invariant
                        0 <= i <= cols@.len(),
                        all@.len() == i,
                        forall|m: int| 0 <= m < i ==> (#[trigger] all@[m])@ == cols@[m].name@,
                    decreases cols@.len() - i,
                {
                    all.push(cols[i].name.clone());
                    i += 1;
                }
                assert(string_texts(all@) =~= Seq::new(cols@.len(), |i: int| cols@[i].name@));
                SelectPlan::Run { table: k, select, columns: all }
            } else {
                SelectPlan::Run { table: k, select, columns: names }
            }
        },
    }
}

} // verus!
