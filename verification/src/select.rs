//! `SELECT` commands: the columns, the tables and the conditions they name,
//! and the checks on their table aliases.
//!
//! The three blocks of a command are found with regular expressions
//! (case-insensitive, with Unicode word boundaries):
//!
//! * columns: the first group of `\bselect\b\s+(.+?)\s+\bfrom\b`;
//! * tables: the first group of `\bfrom\b\s+(.+?)(?:\s+\bwhere\b|$)`;
//! * conditions: the first group of `\bwhere\b\s+(.+)`.
//!
//! Columns and tables are split at `,`, conditions at `AND`, and each piece
//! is trimmed.

use vstd::prelude::*;
use vstd::string::StringExecFns;
use vstd::string::StrSliceExecFns;
use crate::col_info::{ColInfo, Record};
use crate::condition::{Condition, condition_readable, condition_of, OperandModel, Operateur};
use crate::text::{
    chars_of, split_by, split_terminator, trim, contains_text, is_white, white, first_of, find_char,
    split_trim, split_pieces, trim_chars, contains_chars, string_of, join, join_strings,
};

verus! {

// ---------------------------------------------------------------------------
// Trusted items
// ---------------------------------------------------------------------------

/// What the first group of the first match of a regular expression gives on
/// a text (`None` when the expression does not compile, does not match, or
/// its first group takes no part in the match).
pub uninterp spec fn regex_group1(pattern: Seq<char>, text: Seq<char>) -> Option<Seq<char>>;

/// `fancy_regex::Regex::new(pattern)` then `captures(text)` and the text of
/// group 1: named by `regex_group1`, a function of the pattern and the text.
#[verifier::external_body]
fn regex_first_group(pattern: &str, text: &str) -> (r: Option<String>)
    ensures
        match regex_group1(pattern@, text@) {
            Some(g) => r matches Some(s) && s@ == g,
            None => r is None,
        },
{
    match fancy_regex::Regex::new(pattern) {
        Ok(re) => match re.captures(text) {
            Ok(Some(caps)) => match caps.get(1) {
                Some(m) => Some(m.as_str().to_string()),
                None => None,
            },
            _ => None,
        },
        Err(_) => None,
    }
}

/// The upper-case form of a text, by Unicode's mappings.
pub uninterp spec fn uppercase(s: Seq<char>) -> Seq<char>;

/// `str::to_uppercase`: named by `uppercase`, a function of the text.
#[verifier::external_body]
fn to_uppercase(s: &str) -> (r: String)
    ensures
        r@ == uppercase(s@),
{
    s.to_uppercase()
}

// ---------------------------------------------------------------------------
// A table with its alias
// ---------------------------------------------------------------------------

/// `[a-zA-Z0-9_.-]` without regard to case (which adds `ſ` and the Kelvin
/// sign).
pub open spec fn is_table_char(c: char) -> bool {
    ('a' <= c && c <= 'z') || ('A' <= c && c <= 'Z') || ('0' <= c && c <= '9') || c == '_' || c == '.' || c == '-'
        || c == '\u{17F}' || c == '\u{212A}'
}

/// `[a-zA-Z0-9_]` without regard to case.
pub open spec fn is_alias_char(c: char) -> bool {
    ('a' <= c && c <= 'z') || ('A' <= c && c <= 'Z') || ('0' <= c && c <= '9') || c == '_' || c == '\u{17F}' || c
        == '\u{212A}'
}

/// `t` is a table name (`t[..k]`), white space (`t[k..m]`) and an alias
/// (`t[m..]`).
pub open spec fn alias_split(t: Seq<char>, k: int, m: int) -> bool {
    &&& 1 <= k < m < t.len()
    &&& forall|i: int| 0 <= i < k ==> is_table_char(#[trigger] t[i])
    &&& forall|i: int| k <= i < m ==> is_white(#[trigger] t[i])
    &&& forall|i: int| m <= i < t.len() ==> is_alias_char(#[trigger] t[i])
}

/// Whether the whole of `t` matches `^[a-zA-Z0-9_.-]+\s+[a-zA-Z0-9_]+$`
/// without regard to case.
pub open spec fn is_table_with_alias(t: Seq<char>) -> bool {
    exists|k: int, m: int| #[trigger] alias_split(t, k, m)
}

/// Whether the whole of `t` matches `^[a-zA-Z0-9_.-]+$` without regard to
/// case: a table named alone, which stands for its own alias.
pub open spec fn is_bare_table(t: Seq<char>) -> bool {
    t.len() >= 1 && forall|i: int| 0 <= i < t.len() ==> is_table_char(#[trigger] t[i])
}

fn table_char(c: char) -> (b: bool)
    ensures
        b == is_table_char(c),
{
    ('a' <= c && c <= 'z') || ('A' <= c && c <= 'Z') || ('0' <= c && c <= '9') || c == '_' || c == '.' || c == '-'
        || c == '\u{17F}' || c == '\u{212A}'
}

fn alias_char(c: char) -> (b: bool)
    ensures
        b == is_alias_char(c),
{
    ('a' <= c && c <= 'z') || ('A' <= c && c <= 'Z') || ('0' <= c && c <= '9') || c == '_' || c == '\u{17F}' || c
        == '\u{212A}'
}

/// Whether `t` is a table with its alias, or a table alone.
fn table_with_alias(t: &[char]) -> (b: bool)
    ensures
        b == (is_table_with_alias(t@) || is_bare_table(t@)),
{
    let n = t.len();
    let mut k: usize = 0;
    while k < n && table_char(t[k])
        invariant
            0 <= k <= n,
            n == t@.len(),
            forall|i: int| 0 <= i < k ==> is_table_char(#[trigger] t@[i]),
        decreases n - k,
    {
        k += 1;
    }
    let mut m: usize = k;
    while m < n && white(t[m])
        invariant
            k <= m <= n,
            n == t@.len(),
            forall|i: int| k <= i < m ==> is_white(#[trigger] t@[i]),
        decreases n - m,
    {
        m += 1;
    }
    let mut j: usize = m;
    while j < n && alias_char(t[j])
        invariant
            m <= j <= n,
            n == t@.len(),
            forall|i: int| m <= i < j ==> is_alias_char(#[trigger] t@[i]),
        decreases n - j,
    {
        j += 1;
    }
    proof {
        // any reading splits where these runs end
        assert forall|k2: int, m2: int| #[trigger] alias_split(t@, k2, m2) implies k2 == k && m2 == m && j == n by {
            if k2 < k {
                assert(is_table_char(t@[k2]));
            }
            if k2 > k {
                assert(is_table_char(t@[k as int]));
            }
            if m2 < m {
                assert(is_white(t@[m2]));
            }
            if m2 > m {
                assert(is_white(t@[m as int]));
            }
            if j < n {
                assert(is_alias_char(t@[j as int]));
            }
        }
    }
    if k >= 1 && k == n {
        assert(is_bare_table(t@));
        return true;
    }
    proof {
        if is_bare_table(t@) {
            assert(is_table_char(t@[k as int]));
        }
    }
    if k >= 1 && m > k && m < n && j == n {
        assert(alias_split(t@, k as int, m as int));
        true
    } else {
        false
    }
}

// ---------------------------------------------------------------------------
// Splitting a command
// ---------------------------------------------------------------------------

pub open spec fn select_pattern() -> Seq<char> {
    "(?i)\\bselect\\b\\s+(.+?)\\s+\\bfrom\\b"@
}

pub open spec fn from_pattern() -> Seq<char> {
    "(?i)\\bfrom\\b\\s+(.+?)(?:\\s+\\bwhere\\b|$)"@
}

pub open spec fn where_pattern() -> Seq<char> {
    "(?i)\\bwhere\\b\\s+(.+)"@
}

/// The text of a group, or nothing.
pub open spec fn group_or_empty(g: Option<Seq<char>>) -> Seq<char> {
    match g {
        Some(t) => t,
        None => Seq::empty(),
    }
}

/// Each piece trimmed.
pub open spec fn trim_all(ps: Seq<Seq<char>>) -> Seq<Seq<char>> {
    Seq::new(ps.len(), |i: int| trim(ps[i]))
}

/// The columns, the tables and the conditions of command `c`, from the
/// texts `sel`, `from` and `wh` that its `SELECT`, `FROM` and `WHERE`
/// parts hold, or why it is refused: a missing column or table, more than
/// one table, a `WHERE` in the tables without conditions, a table that is
/// neither a name alone nor a name and an alias, or a `WHERE` without
/// conditions.
pub open spec fn split_groups_spec(sel: Seq<char>, from: Seq<char>, wh: Seq<char>, c: Seq<char>) -> Result<
    (Seq<Seq<char>>, Seq<Seq<char>>, Seq<Seq<char>>),
    Seq<char>,
> {
    let se = trim_all(split_by(sel, seq![',']));
    let fe = trim_all(split_by(from, seq![',']));
    let we = trim_all(split_terminator(wh, "AND"@));
    if se[0].len() == 0 || fe[0].len() == 0 || fe.len() > 1 {
        Err("Operande invalide ou manquant."@)
    } else if contains_text(uppercase(fe[0]), "WHERE"@) && wh.len() == 0 {
        Err("Erreur : FROM mal syntaxé."@)
    } else if !(is_table_with_alias(fe[0]) || is_bare_table(fe[0])) {
        Err("Erreur : L'alias est obligatoire pour la table '"@ + fe[0] + "'."@)
    } else if contains_text(uppercase(c), "WHERE"@) && wh.len() == 0 {
        Err("Erreur : WHERE est mal syntaxé ou vide."@)
    } else {
        Ok((se, fe, we))
    }
}

/// The columns, the tables and the conditions of a command, or why it is
/// refused (see `split_groups_spec`), from the groups that the three
/// patterns capture in it.
pub open spec fn split_commande_spec(c: Seq<char>) -> Result<(Seq<Seq<char>>, Seq<Seq<char>>, Seq<Seq<char>>), Seq<char>> {
    split_groups_spec(
        group_or_empty(regex_group1(select_pattern(), c)),
        group_or_empty(regex_group1(from_pattern(), c)),
        group_or_empty(regex_group1(where_pattern(), c)),
        c,
    )
}

// ---------------------------------------------------------------------------
// Aliases
// ---------------------------------------------------------------------------

/// The alias a table gives: the text after its first space, or the table
/// itself, trimmed.
pub open spec fn alias_of(t: Seq<char>) -> Seq<char> {
    let k = first_of(t, ' ');
    if k >= 0 {
        trim(t.subrange(k + 1, t.len() as int))
    } else {
        trim(t)
    }
}

/// The alias a column names: the text before its first `.`, trimmed; none
/// when it has no `.`.
pub open spec fn column_alias(c: Seq<char>) -> Option<Seq<char>> {
    let k = first_of(c, '.');
    if k >= 0 {
        Some(trim(c.subrange(0, k)))
    } else {
        None
    }
}

/// Whether a column names an alias that none of the tables gives.
pub open spec fn alias_unknown(aliases: Seq<Seq<char>>, c: Seq<char>) -> bool {
    column_alias(c) matches Some(a) && !aliases.contains(a)
}

/// The index of the first column that names an unknown alias, or -1.
pub open spec fn first_unknown(aliases: Seq<Seq<char>>, cols: Seq<Seq<char>>) -> int
    decreases cols.len(),
{
    if cols.len() == 0 {
        -1
    } else if alias_unknown(aliases, cols[0]) {
        0
    } else {
        let r = first_unknown(aliases, cols.drop_first());
        if r < 0 {
            -1
        } else {
            r + 1
        }
    }
}

/// The check of the aliases: an error naming the first unknown alias a
/// column uses.
pub open spec fn check_alias_spec(tables: Seq<Seq<char>>, cols: Seq<Seq<char>>) -> Result<(), Seq<char>> {
    let aliases = Seq::new(tables.len(), |i: int| alias_of(tables[i]));
    let j = first_unknown(aliases, cols);
    if j < 0 {
        Ok(())
    } else {
        Err("Erreur alias dans SELECT : \""@ + column_alias(cols[j]).unwrap() + "\". Alias non défini dans FROM."@)
    }
}

pub open spec fn views(v: Seq<String>) -> Seq<Seq<char>> {
    Seq::new(v.len(), |i: int| v[i]@)
}

proof fn lemma_first_unknown_at(aliases: Seq<Seq<char>>, cols: Seq<Seq<char>>, i: int)
    requires
        0 <= i <= cols.len(),
        i < cols.len() ==> alias_unknown(aliases, cols[i]),
        forall|j: int| 0 <= j < i ==> !alias_unknown(aliases, #[trigger] cols[j]),
    ensures
        first_unknown(aliases, cols) == if i < cols.len() { i } else { -1 },
    decreases i,
{
    if i > 0 {
        lemma_first_unknown_at(aliases, cols.drop_first(), i - 1);
    }
}

fn contains_string(v: &Vec<String>, s: &[char]) -> (b: bool)
    ensures
        b == views(v@).contains(s@),
{
    let mut i: usize = 0;
    while i < v.len()
        invariant
            0 <= i <= v@.len(),
            forall|j: int| 0 <= j < i ==> v@[j]@ != s@,
        decreases v@.len() - i,
    {
        let c = chars_of(v[i].as_str());
        if text_eq(c.as_slice(), s) {
            assert(views(v@)[i as int] == s@);
            return true;
        }
        i += 1;
    }
    proof {
        if views(v@).contains(s@) {
            let j = choose|j: int| 0 <= j < views(v@).len() && views(v@)[j] == s@;
            assert(v@[j]@ == s@);
        }
    }
    false
}

fn text_eq(a: &[char], b: &[char]) -> (r: bool)
    ensures
        r == (a@ == b@),
{
    if a.len() != b.len() {
        return false;
    }
    let mut i: usize = 0;
    while i < a.len()
        invariant
            a@.len() == b@.len(),
            0 <= i <= a@.len(),
            forall|j: int| 0 <= j < i ==> a@[j] == b@[j],
        decreases a@.len() - i,
    {
        if a[i] != b[i] {
            return false;
        }
        i += 1;
    }
    assert(a@ =~= b@);
    true
}

// ---------------------------------------------------------------------------
// Select
// ---------------------------------------------------------------------------

/// A `SELECT` command: its tables (each with its alias), its columns and
/// its conditions.
#[derive(Debug, Clone)]
pub struct Select {
    pub tables: Vec<String>,
    pub colonnes: Vec<String>,
    pub conditions: Vec<String>,
}

/// `s`, or nothing.
fn or_empty(s: Option<String>) -> (r: String)
    ensures
        r@ == match s {
            Some(t) => t@,
            None => Seq::<char>::empty(),
        },
{
    match s {
        Some(t) => t,
        None => String::new(),
    }
}

/// The pieces of `s` at `AND`, without the last one when it is empty, each
/// trimmed.
fn split_conditions(s: &[char]) -> (r: Vec<String>)
    ensures
        views(r@) == trim_all(split_terminator(s@, "AND"@)),
{
    let and_sep: [char; 3] = ['A', 'N', 'D'];
    proof {
        reveal_strlit("AND");
    }
    assert(and_sep@ =~= "AND"@);
    let pieces = split_pieces(s, and_sep.as_slice());
    let ghost p = split_by(s@, "AND"@);
    let n = pieces.len();
    proof {
        assert(n >= 1) by {
            crate::text::lemma_split_nonempty(s@, "AND"@);
        }
    }
    let count = if pieces[n - 1].len() == 0 { n - 1 } else { n };
    let ghost kept = split_terminator(s@, "AND"@);
    assert(kept.len() == count);
    let mut r: Vec<String> = Vec::new();
    let mut i: usize = 0;
    while i < count
        invariant
            0 <= i <= count,
            count <= pieces@.len(),
            pieces@.len() == p.len(),
            p == split_by(s@, "AND"@),
            kept == split_terminator(s@, "AND"@),
            kept.len() == count,
            forall|j: int| 0 <= j < pieces@.len() ==> (#[trigger] pieces@[j])@ == p[j],
            r@.len() == i,
            forall|j: int| 0 <= j < i ==> (#[trigger] r@[j])@ == trim(kept[j]),
        decreases count - i,
    {
        let t = trim_chars(pieces[i].as_slice());
        assert(kept[i as int] == p[i as int]);
        r.push(t);
        i += 1;
    }
    assert(views(r@) =~= trim_all(kept));
    r
}

/// The columns, the tables and the conditions of command `commande`, from
/// the texts that its `SELECT`, `FROM` and `WHERE` parts hold (see
/// `split_groups_spec`).
pub fn split_groups(sel: &str, from: &str, wh: &str, commande: &str) -> (r: Result<
    (Vec<String>, Vec<String>, Vec<String>),
    String,
>)
    ensures
        match split_groups_spec(sel@, from@, wh@, commande@) {
            Ok((se, fe, we)) => r matches Ok((a, b, c)) && views(a@) == se && views(b@) == fe && views(c@) == we,
            Err(e) => r matches Err(m) && m@ == e,
        },
{
    let comma: [char; 1] = [','];
    assert(comma@ =~= seq![',']);
    let sel_c = chars_of(sel);
    let from_c = chars_of(from);
    let wh_c = chars_of(wh);
    let select_elements = split_trim(sel_c.as_slice(), comma.as_slice());
    let from_elements = split_trim(from_c.as_slice(), comma.as_slice());
    let where_elements = split_conditions(wh_c.as_slice());
    proof {
        assert(views(select_elements@) =~= trim_all(split_by(sel@, seq![','])));
        assert(views(from_elements@) =~= trim_all(split_by(from@, seq![','])));
        crate::text::lemma_split_nonempty(sel@, seq![',']);
        crate::text::lemma_split_nonempty(from@, seq![',']);
    }
    if select_elements[0].as_str().unicode_len() == 0 || from_elements[0].as_str().unicode_len() == 0
        || from_elements.len() > 1 {
        return Err(String::from_str("Operande invalide ou manquant."));
    }
    let where_word = "WHERE";
    let where_c = chars_of(where_word);
    let table_up = chars_of(to_uppercase(from_elements[0].as_str()).as_str());
    if contains_chars(table_up.as_slice(), where_c.as_slice()) && wh_c.len() == 0 {
        return Err(String::from_str("Erreur : FROM mal syntaxé."));
    }
    let table_c = chars_of(from_elements[0].as_str());
    if !table_with_alias(table_c.as_slice()) {
        let mut m = String::from_str("Erreur : L'alias est obligatoire pour la table '");
        m.append(from_elements[0].as_str());
        m.append("'.");
        return Err(m);
    }
    let all_up = chars_of(to_uppercase(commande).as_str());
    if contains_chars(all_up.as_slice(), where_c.as_slice()) && wh_c.len() == 0 {
        return Err(String::from_str("Erreur : WHERE est mal syntaxé ou vide."));
    }
    Ok((select_elements, from_elements, where_elements))
}

impl Select {
    /// The columns, the tables and the conditions of a command (see
    /// `split_commande_spec`).
    fn split_commande(commande: &str) -> (r: Result<(Vec<String>, Vec<String>, Vec<String>), String>)
        ensures
            match split_commande_spec(commande@) {
                Ok((se, fe, we)) => r matches Ok((a, b, c)) && views(a@) == se && views(b@) == fe && views(c@) == we,
                Err(e) => r matches Err(m) && m@ == e,
            },
    {
        let sel = or_empty(regex_first_group("(?i)\\bselect\\b\\s+(.+?)\\s+\\bfrom\\b", commande));
        let from = or_empty(regex_first_group("(?i)\\bfrom\\b\\s+(.+?)(?:\\s+\\bwhere\\b|$)", commande));
        let wh = or_empty(regex_first_group("(?i)\\bwhere\\b\\s+(.+)", commande));
        split_groups(sel.as_str(), from.as_str(), wh.as_str(), commande)
    }
}

/// The alias table `t` gives.
fn table_alias(t: &str) -> (r: String)
    ensures
        r@ == alias_of(t@),
{
    let cs = chars_of(t);
    let n = cs.len();
    match find_char(cs.as_slice(), ' ') {
        Some(k) => {
            let rest = vstd::slice::slice_subrange(cs.as_slice(), k + 1, n);
            trim_chars(rest)
        },
        None => trim_chars(cs.as_slice()),
    }
}

/// The columns, the tables and the conditions of a command whose aliases
/// are all given, or why it is refused (see `split_commande_spec` and
/// `check_alias_spec`).
pub open spec fn select_spec(c: Seq<char>) -> Result<(Seq<Seq<char>>, Seq<Seq<char>>, Seq<Seq<char>>), Seq<char>> {
    match split_commande_spec(c) {
        Err(e) => Err(e),
        Ok((se, fe, we)) => match check_alias_spec(fe, se) {
            Err(e) => Err(e),
            Ok(_) => Ok((se, fe, we)),
        },
    }
}

/// A command that `Select::new` accepts (see `select_spec`) has at least
/// one column, the first of which is not empty, and exactly one table;
/// every column, table and condition is trimmed; and every alias that a
/// column names is one that the table gives.
pub proof fn lemma_accepted_select(c: Seq<char>)
    ensures
        select_spec(c) matches Ok((se, fe, we)) ==> {
            &&& se.len() >= 1
            &&& se[0].len() > 0
            &&& fe.len() == 1
            &&& forall|i: int| 0 <= i < se.len() ==> trim(#[trigger] se[i]) == se[i]
            &&& forall|i: int| 0 <= i < fe.len() ==> trim(#[trigger] fe[i]) == fe[i]
            &&& forall|i: int| 0 <= i < we.len() ==> trim(#[trigger] we[i]) == we[i]
            &&& check_alias_spec(fe, se) is Ok
        },
{
    lemma_split_commande_shape(c);
    if let Ok((se, fe, we)) = select_spec(c) {
        assert forall|i: int| 0 <= i < se.len() implies trim(#[trigger] se[i]) == se[i] by {
            crate::text::lemma_trim_trimmed(split_by(group_or_empty(regex_group1(select_pattern(), c)), seq![','])[i]);
        }
        assert forall|i: int| 0 <= i < fe.len() implies trim(#[trigger] fe[i]) == fe[i] by {
            crate::text::lemma_trim_trimmed(split_by(group_or_empty(regex_group1(from_pattern(), c)), seq![','])[i]);
        }
        assert forall|i: int| 0 <= i < we.len() implies trim(#[trigger] we[i]) == we[i] by {
            crate::text::lemma_trim_trimmed(split_terminator(group_or_empty(regex_group1(where_pattern(), c)), "AND"@)[i]);
        }
    }
}

/// A command that is read has at least one column and exactly one table.
pub proof fn lemma_split_commande_shape(c: Seq<char>)
    ensures
        split_commande_spec(c) matches Ok((se, fe, we)) ==> se.len() >= 1 && fe.len() == 1,
{
    crate::text::lemma_split_nonempty(group_or_empty(regex_group1(select_pattern(), c)), seq![',']);
    crate::text::lemma_split_nonempty(group_or_empty(regex_group1(from_pattern(), c)), seq![',']);
}

impl Select {
    /// Reads a command: its columns, tables and conditions, once its aliases
    /// are checked (see `select_spec`).
    pub fn new(commande: &str) -> (r: Result<Select, String>)
        ensures
            match split_commande_spec(commande@) {
                Err(e) => r matches Err(m) && m@ == e,
                Ok((se, fe, we)) => match check_alias_spec(fe, se) {
                    Err(e) => r matches Err(m) && m@ == e,
                    Ok(_) => r matches Ok(s) && views(s.colonnes@) == se && views(s.tables@) == fe && views(
                        s.conditions@,
                    ) == we,
                },
            },
            match select_spec(commande@) {
                Err(e) => r matches Err(m) && m@ == e,
                Ok((se, fe, we)) => r matches Ok(s) && views(s.colonnes@) == se && views(s.tables@) == fe && views(
                    s.conditions@,
                ) == we && s.colonnes@.len() >= 1 && s.tables@.len() == 1,
            },
    {
        proof {
            lemma_split_commande_shape(commande@);
        }
        let (colonnes, tables, conditions) = match Select::split_commande(commande) {
            Err(e) => {
                return Err(e);
            },
            Ok(p) => p,
        };
        let res = Select { tables, colonnes, conditions };
        match res.check_alias() {
            Err(e) => Err(e),
            Ok(()) => Ok(res),
        }
    }

    pub fn get_tables(&self) -> (r: &Vec<String>)
        ensures
            *r == self.tables,
    {
        &self.tables
    }

    pub fn get_colonnes(&self) -> (r: &Vec<String>)
        ensures
            *r == self.colonnes,
    {
        &self.colonnes
    }

    /// The command written back: `SELECT` and the columns, `FROM` and the
    /// tables, `WHERE` and the conditions, on three lines.
    pub fn to_string(&self) -> (r: String)
        ensures
            r@ == "SELECT "@ + join(views(self.colonnes@), ", "@) + "\nFROM "@ + join(views(self.tables@), ", "@)
                + "\nWHERE "@ + join(views(self.conditions@), " AND "@),
    {
        let mut r = String::from_str("SELECT ");
        let c = join_strings(&self.colonnes, ", ");
        r.append(c.as_str());
        r.append("\nFROM ");
        let t = join_strings(&self.tables, ", ");
        r.append(t.as_str());
        r.append("\nWHERE ");
        let w = join_strings(&self.conditions, " AND ");
        r.append(w.as_str());
        assert(views(self.colonnes@) =~= Seq::new(self.colonnes@.len(), |i: int| self.colonnes@[i]@));
        r
    }

    /// Checks that every column names, before its `.`, an alias given by a
    /// table (see `check_alias_spec`).
    pub fn check_alias(&self) -> (r: Result<(), String>)
        ensures
            match check_alias_spec(views(self.tables@), views(self.colonnes@)) {
                Ok(_) => r is Ok,
                Err(e) => r matches Err(m) && m@ == e,
            },
    {
        let ghost tv = views(self.tables@);
        let ghost cv = views(self.colonnes@);
        let ghost aliases_s = Seq::new(tv.len(), |i: int| alias_of(tv[i]));
        let mut from_aliases: Vec<String> = Vec::new();
        let mut i: usize = 0;
        while i < self.tables.len()
            invariant
                0 <= i <= self.tables@.len(),
                tv == views(self.tables@),
                from_aliases@.len() == i,
                forall|j: int| 0 <= j < i ==> (#[trigger] from_aliases@[j])@ == alias_of(tv[j]),
            decreases self.tables@.len() - i,
        {
            let a = table_alias(self.tables[i].as_str());
            from_aliases.push(a);
            i += 1;
        }
        assert(views(from_aliases@) =~= aliases_s);
        let mut j: usize = 0;
        while j < self.colonnes.len()
            invariant
                0 <= j <= self.colonnes@.len(),
                cv == views(self.colonnes@),
                tv == views(self.tables@),
                views(from_aliases@) == aliases_s,
                aliases_s == Seq::new(tv.len(), |i: int| alias_of(tv[i])),
                forall|k: int| 0 <= k < j ==> !alias_unknown(aliases_s, #[trigger] cv[k]),
            decreases self.colonnes@.len() - j,
        {
            let cs = chars_of(self.colonnes[j].as_str());
            match find_char(cs.as_slice(), '.') {
                Some(k) => {
                    let before = vstd::slice::slice_subrange(cs.as_slice(), 0, k);
                    let a = trim_chars(before);
                    let ac = chars_of(a.as_str());
                    proof {
                        assert(cv[j as int] == cs@);
                        assert(before@ == cs@.subrange(0, k as int));
                        assert(column_alias(cv[j as int]) == Some(a@));
                    }
                    if !contains_string(&from_aliases, ac.as_slice()) {
                        proof {
                            assert(alias_unknown(aliases_s, cv[j as int]));
                            lemma_first_unknown_at(aliases_s, cv, j as int);
                        }
                        let mut m = String::from_str("Erreur alias dans SELECT : \"");
                        m.append(a.as_str());
                        m.append("\". Alias non défini dans FROM.");
                        proof {
                            let aliases2 = Seq::new(tv.len(), |i: int| alias_of(tv[i]));
                            assert(aliases2 =~= aliases_s);
                            assert(first_unknown(aliases_s, cv) == j);
                            assert(check_alias_spec(tv, cv) == Err::<(), Seq<char>>(
                                "Erreur alias dans SELECT : \""@ + a@ + "\". Alias non défini dans FROM."@,
                            ));
                        }
                        return Err(m);
                    }
                },
                None => {
                    assert(cv[j as int] == cs@);
                },
            }
            j += 1;
        }
        proof {
            lemma_first_unknown_at(aliases_s, cv, cv.len() as int);
        }
        Ok(())
    }

    /// Reads every condition over the columns of a relation and one of its
    /// records; the first that has none of the shapes gives the error.
    pub fn get_list_conditions(&self, colonnes: &Vec<ColInfo>, record: &Record) -> (r: Result<Vec<Condition>, String>)
        requires
            forall|i: int|
                0 <= i < self.conditions@.len() ==> condition_readable(
                    #[trigger] self.conditions@[i]@,
                    colonnes@,
                    record.record_tuple@,
                ),
        ensures
            (forall|i: int|
                0 <= i < self.conditions@.len() ==> (#[trigger] condition_of(self.conditions@[i]@, colonnes@, record.record_tuple@))
                    is Some) ==> (r matches Ok(v) && v@.len() == self.conditions@.len() && forall|i: int|
                0 <= i < v@.len() ==> ({
                    let (l, op, rr) = condition_of(self.conditions@[i]@, colonnes@, record.record_tuple@).unwrap();
                    (#[trigger] v@[i]).oper_gauche.model() == l && v@[i].operateur == op && v@[i].oper_droite.model() == rr
                })),
            (exists|i: int|
                0 <= i < self.conditions@.len() && (#[trigger] condition_of(self.conditions@[i]@, colonnes@, record.record_tuple@))
                    is None) ==> (r matches Err(m) && m@ == "Syntaxe invalide"@),
    {
        let mut v: Vec<Condition> = Vec::new();
        let mut i: usize = 0;
        while i < self.conditions.len()
            invariant
                0 <= i <= self.conditions@.len(),
                forall|k: int|
                    0 <= k < self.conditions@.len() ==> condition_readable(
                        #[trigger] self.conditions@[k]@,
                        colonnes@,
                        record.record_tuple@,
                    ),
                forall|k: int|
                    0 <= k < i ==> (#[trigger] condition_of(self.conditions@[k]@, colonnes@, record.record_tuple@)) is Some,
                v@.len() == i,
                forall|k: int|
                    0 <= k < i ==> ({
                        let (l, op, rr) = condition_of(self.conditions@[k]@, colonnes@, record.record_tuple@).unwrap();
                        (#[trigger] v@[k]).oper_gauche.model() == l && v@[k].operateur == op && v@[k].oper_droite.model()
                            == rr
                    }),
            decreases self.conditions@.len() - i,
        {
            let cond = Condition::check_syntaxe(self.conditions[i].clone(), colonnes, record);
            match cond {
                Err(e) => {
                    proof {
                        assert(condition_of(self.conditions@[i as int]@, colonnes@, record.record_tuple@) is None);
                    }
                    return Err(e.message);
                },
                Ok(c) => {
                    v.push(c);
                },
            }
            i += 1;
        }
        Ok(v)
    }
}

} // verus!
