//! The catalog file: a JSON object that maps each database name to its
//! relations, each written as (name, (file, page), column names, column
//! types).

use vstd::prelude::*;
use crate::db_manager::{
    DBManager, DatabaseView, RelationView, SavedDatabase, SavedRelation, catalog, lemma_load_distinct, load_views,
    saved_catalog, saved_complete, saved_exact, saved_relation_view, saved_view,
};
use crate::page::PageId;

verus! {

/// A relation as the catalog file holds it.
pub type JsonRelation = (Seq<char>, (u32, u32), Seq<Seq<char>>, Seq<Seq<char>>);

/// A database as the catalog file holds it: its name and its relations.
pub type JsonDatabase = (Seq<char>, Seq<JsonRelation>);

/// A relation as the catalog file holds it, as executable values.
pub type JsonRelationValue = (String, (u32, u32), Vec<String>, Vec<String>);

/// A database as the catalog file holds it, as executable values.
pub type JsonDatabaseValue = (String, Vec<JsonRelationValue>);

/// What `serde_json` reads from `text` as a map from database names to
/// their relations; `None` when `text` is not such JSON.
pub uninterp spec fn json_catalog(text: Seq<char>) -> Option<Map<Seq<char>, Seq<(Seq<char>, (u32, u32), Seq<Seq<char>>, Seq<Seq<char>>)>>>;

pub open spec fn strings_view(v: Seq<String>) -> Seq<Seq<char>> {
    Seq::new(v.len(), |i: int| v[i]@)
}

pub open spec fn json_relation_view(r: JsonRelationValue) -> JsonRelation {
    (r.0@, r.1, strings_view(r.2@), strings_view(r.3@))
}

pub open spec fn json_database_view(e: JsonDatabaseValue) -> JsonDatabase {
    (e.0@, Seq::new(e.1@.len(), |j: int| json_relation_view(e.1@[j])))
}

pub open spec fn json_databases_view(v: Seq<JsonDatabaseValue>) -> Seq<JsonDatabase> {
    Seq::new(v.len(), |i: int| json_database_view(v[i]))
}

/// No two entries share a database name.
pub open spec fn keys_distinct(es: Seq<JsonDatabase>) -> bool {
    forall|i: int, j: int| 0 <= i < j < es.len() ==> es[i].0 != es[j].0
}

/// The map that the entries make, each database name to its relations.
pub open spec fn entries_map(es: Seq<JsonDatabase>) -> Map<Seq<char>, Seq<JsonRelation>>
    decreases es.len(),
{
    if es.len() == 0 {
        Map::empty()
    } else {
        entries_map(es.drop_last()).insert(es.last().0, es.last().1)
    }
}

/// Every relation of the map has a type for each of its column names.
pub open spec fn json_complete(m: Map<Seq<char>, Seq<JsonRelation>>) -> bool {
    forall|k: Seq<char>, j: int|
        m.dom().contains(k) && 0 <= j < m[k].len() ==> (#[trigger] m[k][j]).2.len() <= m[k][j].3.len()
}

/// A relation of the file as a relation of the catalog: each column name
/// goes with the type at the same place.
pub open spec fn json_relation_as_view(r: JsonRelation) -> RelationView {
    (r.0, PageId { file_idx: r.1.0, page_idx: r.1.1 }, Seq::new(r.2.len(), |k: int| (r.2[k], r.3[k])))
}

pub open spec fn json_database_as_view(e: JsonDatabase) -> DatabaseView {
    (e.0, Seq::new(e.1.len(), |j: int| json_relation_as_view(e.1[j])))
}

pub open spec fn json_as_views(es: Seq<JsonDatabase>) -> Seq<DatabaseView> {
    Seq::new(es.len(), |i: int| json_database_as_view(es[i]))
}

/// `serde_json::from_str` into a `HashMap` from database names to their
/// relations, then its entries in the order the map gives them. The
/// contract names the map (see `json_catalog`); the order of the entries
/// is left open.
#[verifier::external_body]
fn json_catalog_entries(text: &str) -> (r: Option<Vec<JsonDatabaseValue>>)
    ensures
        r is None <==> json_catalog(text@) is None,
        r matches Some(v) ==> keys_distinct(json_databases_view(v@)) && entries_map(json_databases_view(v@))
            == json_catalog(text@).unwrap(),
{
    match serde_json::from_str::<std::collections::HashMap<String, Vec<JsonRelationValue>>>(text) {
        Ok(m) => Some(m.into_iter().collect()),
        Err(_) => None,
    }
}

/// With distinct names, the map holds each entry under its name, and
/// nothing else.
pub proof fn lemma_entries_map(es: Seq<JsonDatabase>)
    requires
        keys_distinct(es),
    ensures
        forall|i: int|
            0 <= i < es.len() ==> entries_map(es).dom().contains(#[trigger] es[i].0) && entries_map(es)[es[i].0]
                == es[i].1,
        forall|k: Seq<char>| #[trigger]
            entries_map(es).dom().contains(k) ==> exists|i: int| 0 <= i < es.len() && es[i].0 == k,
    decreases es.len(),
{
    if es.len() > 0 {
        let init = es.drop_last();
        lemma_entries_map(init);
        assert forall|i: int| 0 <= i < es.len() implies entries_map(es).dom().contains(#[trigger] es[i].0)
            && entries_map(es)[es[i].0] == es[i].1 by {
            if i < es.len() - 1 {
                assert(init[i] == es[i]);
                assert(es[i].0 != es.last().0);
            }
        }
        assert forall|k: Seq<char>| #[trigger] entries_map(es).dom().contains(k) implies exists|i: int|
            0 <= i < es.len() && es[i].0 == k by {
            if k != es.last().0 {
                assert(entries_map(init).dom().contains(k));
                let i = choose|i: int| 0 <= i < init.len() && init[i].0 == k;
                assert(init[i] == es[i]);
            } else {
                assert(es[es.len() - 1].0 == k);
            }
        }
    }
}

/// The entries are complete exactly when the map they make is.
proof fn lemma_complete_entries(es: Seq<JsonDatabase>)
    requires
        keys_distinct(es),
    ensures
        json_databases_complete(es) <==> json_complete(entries_map(es)),
{
    lemma_entries_map(es);
    let m = entries_map(es);
    if json_databases_complete(es) {
        assert forall|k: Seq<char>, j: int| m.dom().contains(k) && 0 <= j < m[k].len() implies (#[trigger] m[k][j]).2.len()
            <= m[k][j].3.len() by {
            let i = choose|i: int| 0 <= i < es.len() && es[i].0 == k;
            assert(m[es[i].0] == es[i].1);
            assert(json_database_complete(es[i]));
            assert(es[i].1[j] == m[k][j]);
        }
    }
    if json_complete(m) {
        assert forall|i: int| 0 <= i < es.len() implies json_database_complete(#[trigger] es[i]) by {
            assert forall|j: int| 0 <= j < es[i].1.len() implies (#[trigger] es[i].1[j]).2.len() <= es[i].1[j].3.len() by {
                assert(m.dom().contains(es[i].0));
                assert(m[es[i].0][j] == es[i].1[j]);
            }
        }
    }
}

/// What is saved of one relation of the file.
fn saved_relation_of(r: JsonRelationValue) -> (s: SavedRelation)
    ensures
        r.2@.len() <= r.3@.len() ==> saved_relation_view(s) == json_relation_as_view(json_relation_view(r)),
        s.colonnes@.len() == r.2@.len(),
        s.types@.len() == r.3@.len(),
{
    let (name, (file_idx, page_idx), colonnes, types) = r;
    let s = SavedRelation { name, file_idx, page_idx, colonnes, types };
    if s.colonnes.len() <= s.types.len() {
        assert(saved_relation_view(s).2 =~= json_relation_as_view(json_relation_view(r)).2);
    }
    s
}

/// Every relation of a database of the file has a type for each of its
/// column names.
pub open spec fn json_database_complete(e: JsonDatabase) -> bool {
    forall|j: int| 0 <= j < e.1.len() ==> (#[trigger] e.1[j]).2.len() <= e.1[j].3.len()
}

/// What is saved of one database of the file.
fn saved_database_of(e: JsonDatabaseValue) -> (s: SavedDatabase)
    ensures
        json_database_complete(json_database_view(e)) ==> saved_view(s) == json_database_as_view(json_database_view(e)),
        s.relations@.len() == e.1@.len(),
        forall|j: int|
            0 <= j < s.relations@.len() ==> (#[trigger] s.relations@[j]).colonnes@.len() == json_database_view(e).1[j].2.len()
                && s.relations@[j].types@.len() == json_database_view(e).1[j].3.len(),
{
    let (name, rels) = e;
    let ghost all = rels@;
    let mut rels = rels;
    let mut out: Vec<SavedRelation> = Vec::new();
    while rels.len() > 0
        invariant
            out@.len() + rels@.len() == all.len(),
            rels@ == all.subrange(out@.len() as int, all.len() as int),
            forall|m: int|
                0 <= m < out@.len() ==> (all[m].2@.len() <= all[m].3@.len() ==> saved_relation_view(#[trigger] out@[m])
                    == json_relation_as_view(json_relation_view(all[m]))) && out@[m].colonnes@.len() == all[m].2@.len()
                    && out@[m].types@.len() == all[m].3@.len(),
        decreases rels@.len(),
    {
        let r = rels.remove(0);
        let s = saved_relation_of(r);
        out.push(s);
        assert(rels@ =~= all.subrange(out@.len() as int, all.len() as int));
    }
    let s = SavedDatabase { name, relations: out };
    proof {
        let ev = json_database_view(e);
        assert forall|j: int| 0 <= j < s.relations@.len() implies (#[trigger] s.relations@[j]).colonnes@.len()
            == ev.1[j].2.len() && s.relations@[j].types@.len() == ev.1[j].3.len() by {
            assert(ev.1[j] == json_relation_view(all[j]));
        }
        if json_database_complete(ev) {
            assert forall|j: int| 0 <= j < all.len() implies saved_relation_view(#[trigger] out@[j])
                == json_relation_as_view(json_relation_view(all[j])) by {
                assert(ev.1[j] == json_relation_view(all[j]));
            }
            assert(saved_view(s).1 =~= json_database_as_view(ev).1);
        }
    }
    s
}

/// Every database of the file has a type for each column name of its
/// relations.
pub open spec fn json_databases_complete(es: Seq<JsonDatabase>) -> bool {
    forall|i: int| 0 <= i < es.len() ==> json_database_complete(#[trigger] es[i])
}

/// What is saved of the databases of the file, in the same order.
fn saved_of(entries: Vec<JsonDatabaseValue>) -> (r: Vec<SavedDatabase>)
    ensures
        saved_complete(r@) <==> json_databases_complete(json_databases_view(entries@)),
        saved_complete(r@) ==> saved_catalog(r@) == json_as_views(json_databases_view(entries@)),
{
    let ghost all = entries@;
    let ghost es = json_databases_view(all);
    let mut entries = entries;
    let mut out: Vec<SavedDatabase> = Vec::new();
    while entries.len() > 0
        invariant
            out@.len() + entries@.len() == all.len(),
            entries@ == all.subrange(out@.len() as int, all.len() as int),
            es == json_databases_view(all),
            forall|m: int|
                0 <= m < out@.len() ==> (json_database_complete(es[m]) ==> saved_view(#[trigger] out@[m])
                    == json_database_as_view(es[m])) && out@[m].relations@.len() == es[m].1.len(),
            forall|m: int, j: int|
                0 <= m < out@.len() && 0 <= j < out@[m].relations@.len() ==> (#[trigger] out@[m].relations@[j]).colonnes@.len()
                    == es[m].1[j].2.len() && out@[m].relations@[j].types@.len() == es[m].1[j].3.len(),
        decreases entries@.len(),
    {
        let e = entries.remove(0);
        let ghost k = out@.len() as int;
        let s = saved_database_of(e);
        out.push(s);
        proof {
            assert(es[k] == json_database_view(e));
        }
        assert(entries@ =~= all.subrange(out@.len() as int, all.len() as int));
    }
    proof {
        if saved_complete(out@) {
            assert forall|i: int| 0 <= i < es.len() implies json_database_complete(#[trigger] es[i]) by {
                assert forall|j: int| 0 <= j < es[i].1.len() implies (#[trigger] es[i].1[j]).2.len() <= es[i].1[j].3.len() by {
                    assert(out@[i].relations@[j].colonnes@.len() <= out@[i].relations@[j].types@.len());
                }
            }
            assert(saved_catalog(out@) =~= json_as_views(es));
        }
        if json_databases_complete(es) {
            assert forall|i: int, j: int|
                0 <= i < out@.len() && 0 <= j < out@[i].relations@.len() implies (#[trigger] out@[i].relations@[j]).colonnes@.len()
                <= out@[i].relations@[j].types@.len() by {
                assert(json_database_complete(es[i]));
                assert(es[i].1[j].2.len() <= es[i].1[j].3.len());
            }
        }
    }
    out
}

/// Whether every saved relation has a type for each of its column names.
fn saved_is_complete(saved: &Vec<SavedDatabase>) -> (b: bool)
    ensures
        b == saved_complete(saved@),
{
    let mut i: usize = 0;
    while i < saved.len()
        invariant
            0 <= i <= saved@.len(),
            forall|a: int, j: int|
                0 <= a < i && 0 <= j < saved@[a].relations@.len() ==> (#[trigger] saved@[a].relations@[j]).colonnes@.len()
                    <= saved@[a].relations@[j].types@.len(),
        decreases saved@.len() - i,
    {
        let rels = &saved[i].relations;
        let mut j: usize = 0;
        while j < rels.len()
            invariant
                0 <= i < saved@.len(),
                0 <= j <= rels@.len(),
                rels@ == saved@[i as int].relations@,
                forall|b: int| 0 <= b < j ==> (#[trigger] rels@[b]).colonnes@.len() <= rels@[b].types@.len(),
            decreases rels@.len() - j,
        {
            if rels[j].colonnes.len() > rels[j].types.len() {
                assert(saved@[i as int].relations@[j as int] == rels@[j as int]);
                return false;
            }
            j += 1;
        }
        i += 1;
    }
    true
}

/// Why the catalog file could not be loaded.
#[derive(Debug, PartialEq, Eq, Structural)]
pub enum CatalogError {
    /// The text is not a JSON map from database names to relations.
    NotJson,
    /// A relation has fewer types than column names.
    MissingType,
}

impl DBManager {
    /// Loads the catalog file `text`: each of its databases is stored in
    /// turn, in place of a database of the same name if there is one. The
    /// order in which they come is the order of the map that `serde_json`
    /// reads.
    pub fn load_state_text(&mut self, text: &str) -> (r: Result<(), CatalogError>)
        requires
            old(self).wf(),
        ensures
            r is Ok <==> json_catalog(text@) is Some && json_complete(json_catalog(text@).unwrap()),
            r == Err::<(), CatalogError>(CatalogError::NotJson) <==> json_catalog(text@) is None,
            r == Err::<(), CatalogError>(CatalogError::MissingType) <==> json_catalog(text@) is Some && !json_complete(
                json_catalog(text@).unwrap(),
            ),
            r is Ok ==> exists|es: Seq<JsonDatabase>|
                #![trigger entries_map(es)]
                keys_distinct(es) && entries_map(es) == json_catalog(text@).unwrap() && catalog(
                    final(self).basededonnees@,
                ) == load_views(catalog(old(self).basededonnees@), json_as_views(es)),
            final(self).wf(),
            r is Ok ==> final(self).bdd_courante == old(self).bdd_courante && final(self).dbconfig == old(
                self,
            ).dbconfig,
            r is Err ==> *final(self) == *old(self),
    {
        match json_catalog_entries(text) {
            None => Err(CatalogError::NotJson),
            Some(entries) => {
                let ghost es = json_databases_view(entries@);
                proof {
                    lemma_complete_entries(es);
                }
                let saved = saved_of(entries);
                if !saved_is_complete(&saved) {
                    return Err(CatalogError::MissingType);
                }
                assert(saved_complete(saved@));
                self.load_state(&saved);
                assert(keys_distinct(es) && entries_map(es) == json_catalog(text@).unwrap());
                Ok(())
            }
        }
    }
}

// ---------------------------------------------------------------------------
// Writing the file
// ---------------------------------------------------------------------------

/// A database of the catalog as the file holds it.
pub open spec fn json_of_view(d: DatabaseView) -> JsonDatabase {
    (
        d.0,
        Seq::new(
            d.1.len(),
            |j: int|
                (
                    d.1[j].0,
                    (d.1[j].1.file_idx, d.1[j].1.page_idx),
                    Seq::new(d.1[j].2.len(), |k: int| d.1[j].2[k].0),
                    Seq::new(d.1[j].2.len(), |k: int| d.1[j].2[k].1),
                ),
        ),
    )
}

/// The catalog as the file holds it, database by database.
pub open spec fn catalog_json(cat: Seq<DatabaseView>) -> Seq<JsonDatabase> {
    Seq::new(cat.len(), |i: int| json_of_view(cat[i]))
}

/// No two databases of the catalog share a name.
pub open spec fn view_names_distinct(cat: Seq<DatabaseView>) -> bool {
    forall|i: int, j: int| 0 <= i < j < cat.len() ==> cat[i].0 != cat[j].0
}

/// `serde_json::to_string_pretty` of the `HashMap` that the entries make.
/// The contract claims that the call succeeds (its documentation names as
/// the only failures a `Serialize` impl that fails and a map with keys that
/// are not strings, and here the keys are `String`s and the values strings,
/// numbers, tuples and vectors of them) and that `serde_json::from_str`
/// reads the text back as that map (see `json_catalog`); the text itself
/// depends on the order in which the map is walked and is left open.
#[verifier::external_body]
fn json_catalog_text(entries: Vec<JsonDatabaseValue>) -> (r: Option<String>)
    requires
        keys_distinct(json_databases_view(entries@)),
    ensures
        r is Some,
        r matches Some(t) ==> json_catalog(t@) == Some(entries_map(json_databases_view(entries@))),
{
    let m: std::collections::HashMap<String, Vec<JsonRelationValue>> = entries.into_iter().collect();
    serde_json::to_string_pretty(&m).ok()
}

/// One saved relation as the file holds it.
fn json_relation_of(s: SavedRelation) -> (r: JsonRelationValue)
    requires
        s.colonnes@.len() == s.types@.len(),
    ensures
        json_relation_view(r) == json_of_view((s.name@, seq![saved_relation_view(s)])).1[0],
{
    let ghost sv = saved_relation_view(s);
    let SavedRelation { name, file_idx, page_idx, colonnes, types } = s;
    let r = (name, (file_idx, page_idx), colonnes, types);
    assert(json_relation_view(r).2 =~= Seq::new(sv.2.len(), |k: int| sv.2[k].0));
    assert(json_relation_view(r).3 =~= Seq::new(sv.2.len(), |k: int| sv.2[k].1));
    r
}

/// One saved database as the file holds it.
fn json_database_of(s: SavedDatabase) -> (r: JsonDatabaseValue)
    requires
        forall|j: int| 0 <= j < s.relations@.len() ==> (#[trigger] s.relations@[j]).colonnes@.len() == s.relations@[j].types@.len(),
    ensures
        json_database_view(r) == json_of_view(saved_view(s)),
{
    let ghost sv = saved_view(s);
    let SavedDatabase { name, relations } = s;
    let ghost all = relations@;
    let mut rels = relations;
    let mut out: Vec<JsonRelationValue> = Vec::new();
    while rels.len() > 0
        invariant
            out@.len() + rels@.len() == all.len(),
            rels@ == all.subrange(out@.len() as int, all.len() as int),
            forall|j: int| 0 <= j < all.len() ==> (#[trigger] all[j]).colonnes@.len() == all[j].types@.len(),
            sv.1.len() == all.len(),
            forall|j: int| 0 <= j < all.len() ==> sv.1[j] == saved_relation_view(#[trigger] all[j]),
            forall|m: int| 0 <= m < out@.len() ==> json_relation_view(#[trigger] out@[m]) == json_of_view(sv).1[m],
        decreases rels@.len(),
    {
        let ghost k = out@.len() as int;
        let s = rels.remove(0);
        assert(s == all[k]);
        let r = json_relation_of(s);
        out.push(r);
        assert(rels@ =~= all.subrange(out@.len() as int, all.len() as int));
    }
    let r = (name, out);
    assert(json_database_view(r).1 =~= json_of_view(sv).1);
    r
}

impl DBManager {
    /// The catalog file: a JSON object that maps each database name to its
    /// relations. Its text depends on the order in which the map is walked;
    /// what `serde_json` reads back from it does not.
    pub fn save_state_text(&self) -> (r: String)
        requires
            self.wf(),
        ensures
            json_catalog(r@) == Some(entries_map(catalog_json(catalog(self.basededonnees@)))),
    {
        let saved = self.save_state();
        let ghost cat = catalog(self.basededonnees@);
        let ghost all = saved@;
        let mut saved = saved;
        let mut out: Vec<JsonDatabaseValue> = Vec::new();
        while saved.len() > 0
            invariant
                out@.len() + saved@.len() == all.len(),
                saved@ == all.subrange(out@.len() as int, all.len() as int),
                saved_exact(all),
                saved_catalog(all) == cat,
                forall|m: int| 0 <= m < out@.len() ==> json_database_view(#[trigger] out@[m]) == json_of_view(cat[m]),
            decreases saved@.len(),
        {
            let ghost k = out@.len() as int;
            let s = saved.remove(0);
            assert(s == all[k]);
            assert(saved_catalog(all)[k] == saved_view(s));
            let r = json_database_of(s);
            out.push(r);
            assert(saved@ =~= all.subrange(out@.len() as int, all.len() as int));
        }
        assert(json_databases_view(out@) =~= catalog_json(cat));
        proof {
            assert forall|i: int, j: int| 0 <= i < j < out@.len() implies json_databases_view(out@)[i].0
                != json_databases_view(out@)[j].0 by {
                assert(cat[i].0 == self.basededonnees@[i].nom@);
                assert(cat[j].0 == self.basededonnees@[j].nom@);
            }
        }
        match json_catalog_text(out) {
            Some(t) => t,
            None => String::new(),
        }
    }
}

/// A database of the catalog, written to the file and read back, is the
/// same database.
proof fn lemma_json_of_view(d: DatabaseView)
    ensures
        json_database_as_view(json_of_view(d)) == d,
{
    let e = json_of_view(d);
    assert forall|j: int| 0 <= j < d.1.len() implies #[trigger] json_relation_as_view(e.1[j]) == d.1[j] by {
        assert(json_relation_as_view(e.1[j]).2 =~= d.1[j].2);
    }
    assert(json_database_as_view(e).1 =~= d.1);
}

/// Saving and then loading the catalog file: whatever order the map read
/// from the file gives its entries, they are complete, and loading them
/// into an empty catalog gives back every database of the saved catalog,
/// with its relations, and no other.
pub proof fn lemma_catalog_file_roundtrip(cat: Seq<DatabaseView>, es: Seq<JsonDatabase>)
    requires
        view_names_distinct(cat),
        keys_distinct(es),
        entries_map(es) == entries_map(catalog_json(cat)),
    ensures
        json_complete(entries_map(es)),
        forall|i: int|
            0 <= i < cat.len() ==> exists|p: int|
                0 <= p < es.len() && #[trigger] load_views(Seq::empty(), json_as_views(es))[p] == #[trigger] cat[i],
        forall|p: int|
            0 <= p < es.len() ==> exists|i: int|
                0 <= i < cat.len() && #[trigger] load_views(Seq::empty(), json_as_views(es))[p] == #[trigger] cat[i],
        load_views(Seq::empty(), json_as_views(es)).len() == es.len(),
{
    let cj = catalog_json(cat);
    assert(keys_distinct(cj));
    lemma_entries_map(cj);
    lemma_entries_map(es);
    lemma_complete_entries(cj);
    lemma_complete_entries(es);
    assert(json_databases_complete(cj)) by {
        assert forall|i: int| 0 <= i < cj.len() implies json_database_complete(#[trigger] cj[i]) by {
            assert forall|j: int| 0 <= j < cj[i].1.len() implies (#[trigger] cj[i].1[j]).2.len() <= cj[i].1[j].3.len() by {}
        }
    }
    let v = json_as_views(es);
    assert(view_names_distinct(v));
    lemma_load_distinct(v, v.len() as int);
    assert(v.take(v.len() as int) =~= v);
    let m = entries_map(es);
    assert forall|i: int| 0 <= i < cat.len() implies exists|p: int|
        0 <= p < es.len() && #[trigger] load_views(Seq::empty(), json_as_views(es))[p] == #[trigger] cat[i] by {
        assert(cj[i] == json_of_view(cat[i]));
        assert(entries_map(cj).dom().contains(cj[i].0));
        let p = choose|p: int| 0 <= p < es.len() && es[p].0 == cj[i].0;
        assert(m[es[p].0] == es[p].1);
        assert(es[p] == cj[i]);
        lemma_json_of_view(cat[i]);
        assert(v[p] == cat[i]);
    }
    assert forall|p: int| 0 <= p < es.len() implies exists|i: int|
        0 <= i < cat.len() && #[trigger] load_views(Seq::empty(), json_as_views(es))[p] == #[trigger] cat[i] by {
        assert(m.dom().contains(es[p].0));
        let i = choose|i: int| 0 <= i < cj.len() && cj[i].0 == es[p].0;
        assert(entries_map(cj)[cj[i].0] == cj[i].1);
        assert(es[p] == cj[i]);
        lemma_json_of_view(cat[i]);
        assert(v[p] == cat[i]);
    }
}

} // verus!
