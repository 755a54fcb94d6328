//! The databases, each under its own name, and the current one.

use vstd::prelude::*;
use vstd::string::StringExecFns;
use crate::config::DBConfig;
use crate::data_base::{Database, without_relation};
use crate::col_info::ColInfo;
use crate::page::PageId;
use crate::relation::Relation;

verus! {

// ---------------------------------------------------------------------------
// Databases by name
// ---------------------------------------------------------------------------

/// The index of the first database named `name`, or the number of
/// databases.
pub open spec fn db_index(bases: Seq<Database>, name: Seq<char>) -> int
    decreases bases.len(),
{
    if bases.len() == 0 {
        0
    } else if bases[0].nom@ == name {
        0
    } else {
        db_index(bases.drop_first(), name) + 1
    }
}

/// No two databases have the same name.
pub open spec fn names_distinct(bases: Seq<Database>) -> bool {
    forall|i: int, j: int| 0 <= i < j < bases.len() ==> bases[i].nom@ != bases[j].nom@
}

/// The databases once `d` is stored under its name: it replaces the
/// database of that name, or comes last.
pub open spec fn with_database(bases: Seq<Database>, d: Database) -> Seq<Database> {
    let i = db_index(bases, d.nom@);
    if i < bases.len() {
        bases.update(i, d)
    } else {
        bases.push(d)
    }
}

/// The databases once the one named `name` is taken out, if any.
pub open spec fn without_database(bases: Seq<Database>, name: Seq<char>) -> Seq<Database> {
    let i = db_index(bases, name);
    if i < bases.len() {
        bases.remove(i)
    } else {
        bases
    }
}

pub proof fn lemma_db_index_bounds(bases: Seq<Database>, name: Seq<char>)
    ensures
        0 <= db_index(bases, name) <= bases.len(),
        db_index(bases, name) < bases.len() ==> bases[db_index(bases, name)].nom@ == name,
        forall|j: int| 0 <= j < db_index(bases, name) ==> bases[j].nom@ != name,
    decreases bases.len(),
{
    if bases.len() > 0 && bases[0].nom@ != name {
        lemma_db_index_bounds(bases.drop_first(), name);
        assert forall|j: int| 0 <= j < db_index(bases, name) implies bases[j].nom@ != name by {
            if j > 0 {
                assert(bases[j] == bases.drop_first()[j - 1]);
            }
        }
    }
}

proof fn lemma_db_index_at(bases: Seq<Database>, name: Seq<char>, i: int)
    requires
        0 <= i <= bases.len(),
        i < bases.len() ==> bases[i].nom@ == name,
        forall|j: int| 0 <= j < i ==> bases[j].nom@ != name,
    ensures
        db_index(bases, name) == i,
    decreases i,
{
    if i > 0 {
        lemma_db_index_at(bases.drop_first(), name, i - 1);
    }
}

/// Storing a database keeps the names distinct.
proof fn lemma_with_database_distinct(bases: Seq<Database>, d: Database)
    requires
        names_distinct(bases),
    ensures
        names_distinct(with_database(bases, d)),
        db_index(with_database(bases, d), d.nom@) == db_index(bases, d.nom@),
{
    lemma_db_index_bounds(bases, d.nom@);
    let r = with_database(bases, d);
    let i = db_index(bases, d.nom@);
    assert forall|j: int| 0 <= j < i implies r[j].nom@ != d.nom@ by {}
    lemma_db_index_at(r, d.nom@, i);
}

/// Changing the database at `i` without changing its name keeps the
/// names distinct and every database where it is.
proof fn lemma_same_names(bases: Seq<Database>, i: int, d: Database)
    requires
        names_distinct(bases),
        0 <= i < bases.len(),
        d.nom == bases[i].nom,
    ensures
        names_distinct(bases.update(i, d)),
        forall|n: Seq<char>| db_index(#[trigger] bases.update(i, d), n) == db_index(bases, n),
{
    assert forall|n: Seq<char>| db_index(#[trigger] bases.update(i, d), n) == db_index(bases, n) by {
        lemma_db_index_bounds(bases, n);
        lemma_db_index_at(bases.update(i, d), n, db_index(bases, n));
    }
}

/// Storing a database leaves every other database that is there where it
/// was.
proof fn lemma_with_database_keeps(bases: Seq<Database>, d: Database)
    ensures
        forall|n: Seq<char>|
            db_index(bases, n) < bases.len() ==> db_index(#[trigger] with_database(bases, d), n) == db_index(bases, n),
{
    assert forall|n: Seq<char>|
        db_index(bases, n) < bases.len() implies db_index(#[trigger] with_database(bases, d), n) == db_index(bases, n) by {
        lemma_db_index_bounds(bases, n);
        lemma_db_index_bounds(bases, d.nom@);
        lemma_db_index_at(with_database(bases, d), n, db_index(bases, n));
    }
}

/// The index of the first database named `name` (see `db_index`).
fn find_database(bases: &Vec<Database>, name: &str) -> (r: usize)
    ensures
        r == db_index(bases@, name@),
{
    let n = String::from_str(name);
    let mut i: usize = 0;
    while i < bases.len()
        invariant
            0 <= i <= bases@.len(),
            n@ == name@,
            forall|j: int| 0 <= j < i ==> bases@[j].nom@ != name@,
        decreases bases@.len() - i,
    {
        if bases[i].nom == n {
            proof {
                lemma_db_index_at(bases@, name@, i as int);
            }
            return i;
        }
        i += 1;
    }
    proof {
        lemma_db_index_at(bases@, name@, i as int);
    }
    i
}

/// The index of the last relation named `name`, or -1.
pub open spec fn last_rel_index(rels: Seq<Relation>, name: Seq<char>) -> int
    decreases rels.len(),
{
    if rels.len() == 0 {
        -1
    } else if rels.last().name@ == name {
        rels.len() - 1
    } else {
        last_rel_index(rels.drop_last(), name)
    }
}

proof fn lemma_last_rel_index_step(rels: Seq<Relation>, name: Seq<char>, i: int)
    requires
        0 <= i < rels.len(),
    ensures
        last_rel_index(rels.take(i + 1), name) == if rels[i].name@ == name {
            i
        } else {
            last_rel_index(rels.take(i), name)
        },
{
    assert(rels.take(i + 1).drop_last() =~= rels.take(i));
}

/// A relation just added is the one found under its name.
pub proof fn lemma_added_table_found(rels: Seq<Relation>, tab: Relation)
    ensures
        last_rel_index(rels.push(tab), tab.name@) == rels.len(),
        rels.push(tab)[rels.len() as int] == tab,
{
    assert(rels.push(tab).last() == tab);
}

proof fn lemma_last_rel_index_bounds(rels: Seq<Relation>, name: Seq<char>)
    ensures
        -1 <= last_rel_index(rels, name) < rels.len(),
    decreases rels.len(),
{
    if rels.len() > 0 {
        lemma_last_rel_index_bounds(rels.drop_last(), name);
    }
}

// ---------------------------------------------------------------------------
// Listings
// ---------------------------------------------------------------------------

/// The texts of a sequence of strings.
pub open spec fn texts_of(v: Seq<String>) -> Seq<Seq<char>> {
    Seq::new(v.len(), |i: int| v[i]@)
}

/// The lines that list the databases of `m`: a heading, the current
/// database when there is one, then every database.
pub open spec fn database_lines(m: DBManager) -> Seq<Seq<char>> {
    seq!["Affichage des bases de données : "@] + (if m.has_current() {
        seq!["Base de données courante : "@ + m.basededonnees@[m.current()].nom@]
    } else {
        Seq::empty()
    }) + Seq::new(m.basededonnees@.len(), |k: int| "Base de données : "@ + m.basededonnees@[k].nom@)
}

/// The lines that list a relation: its name, then each column with its
/// type.
pub open spec fn relation_lines(r: Relation) -> Seq<Seq<char>> {
    seq!["Table : "@ + r.name@ + ", colonnes : "@] + Seq::new(
        r.columns@.len(),
        |k: int| "nom : "@ + r.columns@[k].name@ + ", type : "@ + r.columns@[k].column_type@,
    )
}

/// The lines that list relations, one after the other.
pub open spec fn tables_lines(rels: Seq<Relation>) -> Seq<Seq<char>>
    decreases rels.len(),
{
    if rels.len() == 0 {
        Seq::empty()
    } else {
        tables_lines(rels.drop_last()) + relation_lines(rels.last())
    }
}

// ---------------------------------------------------------------------------
// The saved catalog
// ---------------------------------------------------------------------------

/// What is saved of a relation: its name, its header page, and the names
/// and the types of its columns.
pub struct SavedRelation {
    pub name: String,
    pub file_idx: u32,
    pub page_idx: u32,
    pub colonnes: Vec<String>,
    pub types: Vec<String>,
}

/// What is saved of a database: its name and its relations.
pub struct SavedDatabase {
    pub name: String,
    pub relations: Vec<SavedRelation>,
}

/// A column as values: its name and its type.
pub type ColumnView = (Seq<char>, Seq<char>);

/// A relation as values: its name, its header page and its columns.
pub type RelationView = (Seq<char>, PageId, Seq<ColumnView>);

/// A database as values: its name and its relations.
pub type DatabaseView = (Seq<char>, Seq<RelationView>);

pub open spec fn relation_view(r: Relation) -> RelationView {
    (r.name@, r.header_page_id, Seq::new(r.columns@.len(), |k: int| (r.columns@[k].name@, r.columns@[k].column_type@)))
}

pub open spec fn database_view(d: Database) -> DatabaseView {
    (d.nom@, Seq::new(d.relations@.len(), |j: int| relation_view(d.relations@[j])))
}

/// The databases as values.
pub open spec fn catalog(bases: Seq<Database>) -> Seq<DatabaseView> {
    Seq::new(bases.len(), |i: int| database_view(bases[i]))
}

/// A saved relation as values: each column name goes with the type at the
/// same place.
pub open spec fn saved_relation_view(s: SavedRelation) -> RelationView {
    (
        s.name@,
        PageId { file_idx: s.file_idx, page_idx: s.page_idx },
        Seq::new(s.colonnes@.len(), |k: int| (s.colonnes@[k]@, s.types@[k]@)),
    )
}

pub open spec fn saved_view(s: SavedDatabase) -> DatabaseView {
    (s.name@, Seq::new(s.relations@.len(), |j: int| saved_relation_view(s.relations@[j])))
}

pub open spec fn saved_catalog(v: Seq<SavedDatabase>) -> Seq<DatabaseView> {
    Seq::new(v.len(), |i: int| saved_view(v[i]))
}

/// Every saved relation has a type for each of its column names.
pub open spec fn saved_complete(v: Seq<SavedDatabase>) -> bool {
    forall|i: int, j: int|
        0 <= i < v.len() && 0 <= j < v[i].relations@.len() ==> (#[trigger] v[i].relations@[j]).colonnes@.len()
            <= v[i].relations@[j].types@.len()
}

/// Every saved relation has as many types as column names.
pub open spec fn saved_exact(v: Seq<SavedDatabase>) -> bool {
    forall|i: int, j: int|
        0 <= i < v.len() && 0 <= j < v[i].relations@.len() ==> (#[trigger] v[i].relations@[j]).colonnes@.len()
            == v[i].relations@[j].types@.len()
}

/// The index of the first database of that name in a catalog, or its
/// length.
pub open spec fn view_index(cat: Seq<DatabaseView>, name: Seq<char>) -> int
    decreases cat.len(),
{
    if cat.len() == 0 {
        0
    } else if cat[0].0 == name {
        0
    } else {
        view_index(cat.drop_first(), name) + 1
    }
}

/// A catalog once `v` is stored under its name: it replaces the database
/// of that name, or comes last.
pub open spec fn with_view(cat: Seq<DatabaseView>, v: DatabaseView) -> Seq<DatabaseView> {
    let i = view_index(cat, v.0);
    if i < cat.len() {
        cat.update(i, v)
    } else {
        cat.push(v)
    }
}

/// A catalog once each of `entries` is stored in turn.
pub open spec fn load_views(cat: Seq<DatabaseView>, entries: Seq<DatabaseView>) -> Seq<DatabaseView>
    decreases entries.len(),
{
    if entries.len() == 0 {
        cat
    } else {
        with_view(load_views(cat, entries.drop_last()), entries.last())
    }
}

proof fn lemma_view_index_at(cat: Seq<DatabaseView>, name: Seq<char>, i: int)
    requires
        0 <= i <= cat.len(),
        i < cat.len() ==> cat[i].0 == name,
        forall|j: int| 0 <= j < i ==> cat[j].0 != name,
    ensures
        view_index(cat, name) == i,
    decreases i,
{
    if i > 0 {
        lemma_view_index_at(cat.drop_first(), name, i - 1);
    }
}

/// Storing a database and then taking the catalog is storing its view.
proof fn lemma_catalog_with(bases: Seq<Database>, d: Database)
    ensures
        catalog(with_database(bases, d)) == with_view(catalog(bases), database_view(d)),
{
    lemma_db_index_bounds(bases, d.nom@);
    let i = db_index(bases, d.nom@);
    lemma_view_index_at(catalog(bases), d.nom@, i);
    assert(catalog(with_database(bases, d)) =~= with_view(catalog(bases), database_view(d)));
}

/// Loading, into an empty catalog, what was saved of databases with
/// distinct names gives back the catalog of those databases.
pub proof fn lemma_save_load_roundtrip(bases: Seq<Database>, saved: Seq<SavedDatabase>)
    requires
        names_distinct(bases),
        saved_catalog(saved) == catalog(bases),
    ensures
        load_views(Seq::empty(), saved_catalog(saved)) == catalog(bases),
{
    lemma_load_distinct(catalog(bases), catalog(bases).len() as int);
    assert(catalog(bases).take(catalog(bases).len() as int) =~= catalog(bases));
}

pub(crate) proof fn lemma_load_distinct(cat: Seq<DatabaseView>, k: int)
    requires
        0 <= k <= cat.len(),
        forall|i: int, j: int| 0 <= i < j < cat.len() ==> cat[i].0 != cat[j].0,
    ensures
        load_views(Seq::empty(), cat.take(k)) == cat.take(k),
    decreases k,
{
    if k > 0 {
        lemma_load_distinct(cat, k - 1);
        assert(cat.take(k).drop_last() =~= cat.take(k - 1));
        lemma_view_index_at(cat.take(k - 1), cat[k - 1].0, k - 1);
        assert(cat.take(k - 1).push(cat[k - 1]) =~= cat.take(k));
    }
}

/// What is saved of one relation.
fn save_relation(r: &Relation) -> (s: SavedRelation)
    ensures
        saved_relation_view(s) == relation_view(*r),
        s.colonnes@.len() == s.types@.len(),
{
    let mut colonnes: Vec<String> = Vec::new();
    let mut types: Vec<String> = Vec::new();
    let mut k: usize = 0;
    while k < r.columns.len()
        invariant
            0 <= k <= r.columns@.len(),
            colonnes@.len() == k,
            types@.len() == k,
            forall|m: int| 0 <= m < k ==> colonnes@[m]@ == r.columns@[m].name@ && types@[m]@ == r.columns@[m].column_type@,
        decreases r.columns@.len() - k,
    {
        colonnes.push(r.columns[k].name.clone());
        types.push(r.columns[k].column_type.clone());
        k += 1;
    }
    let s = SavedRelation {
        name: r.name.clone(),
        file_idx: r.header_page_id.file_idx,
        page_idx: r.header_page_id.page_idx,
        colonnes,
        types,
    };
    assert(saved_relation_view(s).2 =~= relation_view(*r).2);
    s
}

/// What is saved of one database.
fn save_database(d: &Database) -> (s: SavedDatabase)
    ensures
        saved_view(s) == database_view(*d),
        forall|j: int| 0 <= j < s.relations@.len() ==> (#[trigger] s.relations@[j]).colonnes@.len() == s.relations@[j].types@.len(),
{
    let mut rels: Vec<SavedRelation> = Vec::new();
    let mut j: usize = 0;
    while j < d.relations.len()
        invariant
            0 <= j <= d.relations@.len(),
            rels@.len() == j,
            forall|m: int| 0 <= m < j ==> saved_relation_view(#[trigger] rels@[m]) == relation_view(d.relations@[m]),
            forall|m: int| 0 <= m < j ==> (#[trigger] rels@[m]).colonnes@.len() == rels@[m].types@.len(),
        decreases d.relations@.len() - j,
    {
        rels.push(save_relation(&d.relations[j]));
        j += 1;
    }
    let s = SavedDatabase { name: d.nom.clone(), relations: rels };
    assert(saved_view(s).1 =~= database_view(*d).1);
    s
}

/// The relation that a saved relation describes, its header page already
/// allocated.
fn restore_relation(s: &SavedRelation) -> (r: Relation)
    requires
        s.colonnes@.len() <= s.types@.len(),
    ensures
        relation_view(r) == saved_relation_view(*s),
        r.wf(),
{
    let mut cols: Vec<ColInfo> = Vec::new();
    let mut k: usize = 0;
    while k < s.colonnes.len()
        invariant
            0 <= k <= s.colonnes@.len(),
            s.colonnes@.len() <= s.types@.len(),
            cols@.len() == k,
            forall|m: int| 0 <= m < k ==> cols@[m].name@ == s.colonnes@[m]@ && cols@[m].column_type@ == s.types@[m]@,
        decreases s.colonnes@.len() - k,
    {
        cols.push(ColInfo::new(s.colonnes[k].as_str(), s.types[k].as_str()));
        k += 1;
    }
    let r = Relation::new(s.name.clone(), cols, PageId::new(s.file_idx, s.page_idx));
    assert(relation_view(r).2 =~= saved_relation_view(*s).2);
    r
}

/// The database that a saved database describes.
fn restore_database(s: &SavedDatabase) -> (d: Database)
    requires
        forall|j: int| 0 <= j < s.relations@.len() ==> (#[trigger] s.relations@[j]).colonnes@.len() <= s.relations@[j].types@.len(),
    ensures
        database_view(d) == saved_view(*s),
{
    let mut d = Database::new(s.name.clone());
    let mut j: usize = 0;
    while j < s.relations.len()
        invariant
            0 <= j <= s.relations@.len(),
            forall|m: int| 0 <= m < s.relations@.len() ==> (#[trigger] s.relations@[m]).colonnes@.len() <= s.relations@[m].types@.len(),
            d.nom@ == s.name@,
            d.relations@.len() == j,
            forall|m: int| 0 <= m < j ==> relation_view(#[trigger] d.relations@[m]) == saved_relation_view(s.relations@[m]),
        decreases s.relations@.len() - j,
    {
        let r = restore_relation(&s.relations[j]);
        d.add_relation(r);
        j += 1;
    }
    assert(database_view(d).1 =~= saved_view(*s).1);
    d
}

/// The index of the last relation named `name`, if any (see
/// `last_rel_index`).
pub fn find_last_relation(rels: &Vec<Relation>, name: &String) -> (r: Option<usize>)
    ensures
        match r {
            Some(j) => j as int == last_rel_index(rels@, name@) && j < rels@.len(),
            None => last_rel_index(rels@, name@) < 0,
        },
{
    let mut found: Option<usize> = None;
    let mut k: usize = 0;
    while k < rels.len()
        invariant
            0 <= k <= rels@.len(),
            match found {
                Some(j) => j as int == last_rel_index(rels@.take(k as int), name@) && j < k,
                None => last_rel_index(rels@.take(k as int), name@) < 0,
            },
        decreases rels@.len() - k,
    {
        proof {
            lemma_last_rel_index_step(rels@, name@, k as int);
            lemma_last_rel_index_bounds(rels@.take(k as int), name@);
        }
        if rels[k].name == *name {
            found = Some(k);
        }
        k += 1;
    }
    proof {
        assert(rels@.take(rels@.len() as int) =~= rels@);
    }
    found
}

// ---------------------------------------------------------------------------
// DBManager
// ---------------------------------------------------------------------------

proof fn lemma_current_bounds(m: DBManager)
    ensures
        0 <= m.current() <= m.basededonnees@.len(),
{
    match m.bdd_courante {
        Some(n) => lemma_db_index_bounds(m.basededonnees@, n@),
        None => {},
    }
}

/// The databases and the name of the current one.
pub struct DBManager {
    pub basededonnees: Vec<Database>,
    pub dbconfig: DBConfig,
    pub bdd_courante: Option<String>,
}

impl DBManager {
    /// The index of the current database, or the number of databases when
    /// there is none.
    pub open spec fn current(&self) -> int {
        match self.bdd_courante {
            Some(n) => db_index(self.basededonnees@, n@),
            None => self.basededonnees@.len() as int,
        }
    }

    /// There is a current database.
    pub open spec fn has_current(&self) -> bool {
        self.current() < self.basededonnees@.len()
    }

    /// Well-formedness: no two databases share a name, and the current
    /// database, when one is named, is there.
    pub open spec fn wf(&self) -> bool {
        &&& names_distinct(self.basededonnees@)
        &&& self.bdd_courante is Some ==> self.has_current()
    }

    pub fn new(db: DBConfig) -> (m: DBManager)
        ensures
            m.wf(),
            m.basededonnees@ == Seq::<Database>::empty(),
            m.dbconfig == db,
            m.bdd_courante is None,
    {
        DBManager { basededonnees: Vec::new(), dbconfig: db, bdd_courante: None }
    }

    /// The current database, if any.
    pub fn get_bdd_courante(&mut self) -> (r: Option<&mut Database>)
        ensures
            r is Some <==> old(self).has_current(),
            r matches Some(d) ==> *d == old(self).basededonnees@[old(self).current()]
                && final(self).basededonnees@ == old(self).basededonnees@.update(old(self).current(), *final(d)),
            r is None ==> final(self).basededonnees == old(self).basededonnees,
            final(self).dbconfig == old(self).dbconfig,
            final(self).bdd_courante == old(self).bdd_courante,
    {
        match &self.bdd_courante {
            Some(n) => {
                let i = find_database(&self.basededonnees, n.as_str());
                if i < self.basededonnees.len() {
                    Some(&mut self.basededonnees[i])
                } else {
                    None
                }
            },
            None => None,
        }
    }

    pub fn get_basededonnees(&self) -> (r: &Vec<Database>)
        ensures
            *r == self.basededonnees,
    {
        &self.basededonnees
    }

    pub fn get_dbconfig(&self) -> (r: &DBConfig)
        ensures
            *r == self.dbconfig,
    {
        &self.dbconfig
    }

    /// Stores an empty database named `db`, in place of the database of
    /// that name if there is one.
    pub fn create_data_base(&mut self, db: &str)
        requires
            old(self).wf(),
        ensures
            final(self).wf(),
            ({
                let i = db_index(old(self).basededonnees@, db@);
                &&& final(self).basededonnees@ == with_database(old(self).basededonnees@, final(self).basededonnees@[i])
                &&& final(self).basededonnees@[i].nom@ == db@
                &&& final(self).basededonnees@[i].relations@.len() == 0
            }),
            final(self).dbconfig == old(self).dbconfig,
            final(self).bdd_courante == old(self).bdd_courante,
    {
        let d = Database::new(String::from_str(db));
        let ghost bases = self.basededonnees@;
        let i = find_database(&self.basededonnees, db);
        proof {
            lemma_db_index_bounds(bases, db@);
            lemma_with_database_distinct(bases, d);
            lemma_with_database_keeps(bases, d);
        }
        if i < self.basededonnees.len() {
            self.basededonnees.set(i, d);
        } else {
            self.basededonnees.push(d);
        }
        proof {
            assert(self.basededonnees@ =~= with_database(bases, d));
        }
    }

    /// Makes `nom` the current database, creating it when it is not there.
    pub fn set_current_data_base(&mut self, nom: &str)
        requires
            old(self).wf(),
        ensures
            final(self).wf(),
            final(self).has_current(),
            final(self).bdd_courante matches Some(n) && n@ == nom@,
            db_index(old(self).basededonnees@, nom@) < old(self).basededonnees@.len() ==> final(self).basededonnees
                == old(self).basededonnees,
            db_index(old(self).basededonnees@, nom@) == old(self).basededonnees@.len() ==> ({
                let n = old(self).basededonnees@.len() as int;
                &&& final(self).basededonnees@.len() == n + 1
                &&& final(self).basededonnees@.take(n) == old(self).basededonnees@
                &&& final(self).basededonnees@[n].nom@ == nom@
                &&& final(self).basededonnees@[n].relations@.len() == 0
            }),
            final(self).dbconfig == old(self).dbconfig,
    {
        proof {
            lemma_db_index_bounds(self.basededonnees@, nom@);
        }
        let i = find_database(&self.basededonnees, nom);
        if i >= self.basededonnees.len() {
            self.create_data_base(nom);
            proof {
                assert(self.basededonnees@.take(i as int) =~= old(self).basededonnees@);
            }
        }
        self.bdd_courante = Some(String::from_str(nom));
        proof {
            lemma_db_index_bounds(self.basededonnees@, nom@);
            if i >= old(self).basededonnees@.len() {
                lemma_db_index_at(self.basededonnees@, nom@, i as int);
            }
        }
    }

    /// Adds relation `tab` to the current database, if there is one.
    pub fn add_table_to_current_data_base(&mut self, tab: Relation)
        requires
            old(self).wf(),
        ensures
            final(self).wf(),
            final(self).bdd_courante == old(self).bdd_courante,
            final(self).dbconfig == old(self).dbconfig,
            old(self).has_current() ==> ({
                let c = old(self).current();
                &&& final(self).basededonnees@ == old(self).basededonnees@.update(c, final(self).basededonnees@[c])
                &&& final(self).basededonnees@[c].nom == old(self).basededonnees@[c].nom
                &&& final(self).basededonnees@[c].relations@ == old(self).basededonnees@[c].relations@.push(tab)
            }),
            !old(self).has_current() ==> final(self).basededonnees == old(self).basededonnees,
    {
        let ghost bases = self.basededonnees@;
        let ghost c = self.current();
        proof {
            lemma_current_bounds(*self);
        }
        match self.get_bdd_courante() {
            Some(d) => {
                d.add_relation(tab);
            },
            None => {},
        }
        proof {
            if c < bases.len() {
                lemma_same_names(bases, c, self.basededonnees@[c]);
            }
        }
    }

    /// The last relation of the current database named `nom_tab`, if any.
    pub fn get_table_from_current_data_base(&self, nom_tab: &str) -> (r: Option<&Relation>)
        requires
            self.has_current(),
        ensures
            ({
                let rels = self.basededonnees@[self.current()].relations@;
                let k = last_rel_index(rels, nom_tab@);
                &&& r is None <==> k < 0
                &&& r matches Some(rel) ==> *rel == rels[k]
            }),
    {
        let n = match &self.bdd_courante {
            Some(n) => n,
            None => {
                return None;
            },
        };
        let i = find_database(&self.basededonnees, n.as_str());
        let rels = &self.basededonnees[i].relations;
        let name = String::from_str(nom_tab);
        match find_last_relation(rels, &name) {
            Some(j) => Some(&rels[j]),
            None => None,
        }
    }

    /// Takes the first relation named `nom_tab` out of the current database
    /// (see `without_relation`).
    pub fn remove_table_from_current_data_base(&mut self, nom_tab: &str)
        requires
            old(self).wf(),
            old(self).has_current(),
        ensures
            final(self).wf(),
            final(self).bdd_courante == old(self).bdd_courante,
            final(self).dbconfig == old(self).dbconfig,
            ({
                let c = old(self).current();
                &&& final(self).basededonnees@ == old(self).basededonnees@.update(c, final(self).basededonnees@[c])
                &&& final(self).basededonnees@[c].nom == old(self).basededonnees@[c].nom
                &&& final(self).basededonnees@[c].relations@ == without_relation(
                    old(self).basededonnees@[c].relations@,
                    nom_tab@,
                )
            }),
    {
        let ghost bases = self.basededonnees@;
        let ghost c = self.current();
        proof {
            lemma_current_bounds(*self);
        }
        match self.get_bdd_courante() {
            Some(d) => {
                d.remove_relation(nom_tab);
            },
            None => {},
        }
        proof {
            lemma_same_names(bases, c, self.basededonnees@[c]);
        }
    }

    /// Takes the database named `nom_bdd` out, if it is there. When it was
    /// the current database, there is no current database afterwards.
    pub fn remove_data_base(&mut self, nom_bdd: &str)
        requires
            old(self).wf(),
        ensures
            final(self).wf(),
            final(self).basededonnees@ == without_database(old(self).basededonnees@, nom_bdd@),
            (old(self).bdd_courante matches Some(n) && n@ == nom_bdd@) ==> final(self).bdd_courante is None,
            !(old(self).bdd_courante matches Some(n) && n@ == nom_bdd@) ==> final(self).bdd_courante
                == old(self).bdd_courante,
            final(self).dbconfig == old(self).dbconfig,
    {
        let ghost bases = self.basededonnees@;
        proof {
            lemma_db_index_bounds(bases, nom_bdd@);
        }
        let i = find_database(&self.basededonnees, nom_bdd);
        if i < self.basededonnees.len() {
            let _ = self.basededonnees.remove(i);
            proof {
                let r = self.basededonnees@;
                assert forall|a: int, b: int| 0 <= a < b < r.len() implies r[a].nom@ != r[b].nom@ by {
                    let a0 = if a < i { a } else { a + 1 };
                    let b0 = if b < i { b } else { b + 1 };
                    assert(r[a] == bases[a0]);
                    assert(r[b] == bases[b0]);
                }
            }
        }
        let target = String::from_str(nom_bdd);
        let is_current = match &self.bdd_courante {
            Some(n) => *n == target,
            None => false,
        };
        if is_current {
            self.bdd_courante = None;
        } else {
            proof {
                if self.bdd_courante is Some {
                    let cur = self.bdd_courante->0@;
                    lemma_db_index_bounds(bases, cur);
                    let c = db_index(bases, cur);
                    let r = self.basededonnees@;
                    if i < bases.len() {
                        let c2 = if c < i { c } else { c - 1 };
                        assert(c != i);
                        assert(r[c2] == bases[c]);
                        assert forall|j: int| 0 <= j < c2 implies r[j].nom@ != cur by {
                            if j >= i {
                                assert(r[j] == bases[j + 1]);
                                assert(bases[j + 1].nom@ != bases[c].nom@);
                            }
                        }
                        lemma_db_index_at(r, cur, c2);
                    }
                }
            }
        }
    }

    /// Empties the current database.
    pub fn remove_tables_from_current_data_base(&mut self)
        requires
            old(self).wf(),
            old(self).has_current(),
        ensures
            final(self).wf(),
            final(self).bdd_courante == old(self).bdd_courante,
            final(self).dbconfig == old(self).dbconfig,
            ({
                let c = old(self).current();
                &&& final(self).basededonnees@ == old(self).basededonnees@.update(c, final(self).basededonnees@[c])
                &&& final(self).basededonnees@[c].nom == old(self).basededonnees@[c].nom
                &&& final(self).basededonnees@[c].relations@.len() == 0
            }),
    {
        let ghost bases = self.basededonnees@;
        let ghost c = self.current();
        proof {
            lemma_current_bounds(*self);
        }
        match self.get_bdd_courante() {
            Some(d) => {
                d.set_relations(Vec::new());
            },
            None => {},
        }
        proof {
            lemma_same_names(bases, c, self.basededonnees@[c]);
        }
    }

    /// The lines that list the databases: a heading, the current database
    /// when there is one, then every database in turn.
    pub fn list_databases(&self) -> (r: Vec<String>)
        ensures
            texts_of(r@) == database_lines(*self),
    {
        let mut r: Vec<String> = Vec::new();
        r.push(String::from_str("Affichage des bases de données : "));
        proof {
            lemma_current_bounds(*self);
        }
        match &self.bdd_courante {
            Some(n) => {
                let c = find_database(&self.basededonnees, n.as_str());
                if c < self.basededonnees.len() {
                    let mut l = String::from_str("Base de données courante : ");
                    l.append(self.basededonnees[c].nom.as_str());
                    r.push(l);
                }
            },
            None => {},
        }
        let ghost head = texts_of(r@);
        assert(head =~= seq!["Affichage des bases de données : "@] + (if self.has_current() {
            seq!["Base de données courante : "@ + self.basededonnees@[self.current()].nom@]
        } else {
            Seq::empty()
        }));
        let mut i: usize = 0;
        while i < self.basededonnees.len()
            invariant
                0 <= i <= self.basededonnees@.len(),
                texts_of(r@) == head + Seq::new(i as nat, |k: int| "Base de données : "@ + self.basededonnees@[k].nom@),
            decreases self.basededonnees@.len() - i,
        {
            let mut l = String::from_str("Base de données : ");
            l.append(self.basededonnees[i].nom.as_str());
            let ghost prev = r@;
            r.push(l);
            proof {
                assert(texts_of(r@) =~= texts_of(prev).push(l@));
            }
            i += 1;
            assert(texts_of(r@) =~= head + Seq::new(i as nat, |k: int| "Base de données : "@ + self.basededonnees@[k].nom@));
        }
        assert(texts_of(r@) =~= database_lines(*self));
        r
    }

    /// The lines that list the relations of the current database, each
    /// followed by its columns (see `relation_lines`).
    pub fn list_tables_in_current_data_base(&self) -> (r: Vec<String>)
        requires
            self.has_current(),
        ensures
            texts_of(r@) == tables_lines(self.basededonnees@[self.current()].relations@),
    {
        let mut r: Vec<String> = Vec::new();
        let n = match &self.bdd_courante {
            Some(n) => n,
            None => {
                return r;
            },
        };
        let c = find_database(&self.basededonnees, n.as_str());
        let rels = &self.basededonnees[c].relations;
        let mut j: usize = 0;
        while j < rels.len()
            invariant
                0 <= j <= rels@.len(),
                texts_of(r@) == tables_lines(rels@.take(j as int)),
            decreases rels@.len() - j,
        {
            let rel = &rels[j];
            let ghost before = texts_of(r@);
            let mut l = String::from_str("Table : ");
            l.append(rel.name.as_str());
            l.append(", colonnes : ");
            let ghost prev = r@;
            r.push(l);
            proof {
                assert(texts_of(r@) =~= texts_of(prev).push(l@));
                assert(relation_lines(*rel).take(1) =~= seq![l@]);
                assert(texts_of(r@) =~= before + relation_lines(*rel).take(1));
            }
            let mut k: usize = 0;
            while k < rel.columns.len()
                invariant
                    0 <= k <= rel.columns@.len(),
                    texts_of(r@) == before + relation_lines(*rel).take(k + 1),
                decreases rel.columns@.len() - k,
            {
                let col = &rel.columns[k];
                let mut l = String::from_str("nom : ");
                l.append(col.name.as_str());
                l.append(", type : ");
                l.append(col.column_type.as_str());
                let ghost prev = r@;
                r.push(l);
                proof {
                    assert(texts_of(r@) =~= texts_of(prev).push(l@));
                    assert(relation_lines(*rel).take(k + 2) =~= relation_lines(*rel).take(k + 1).push(l@));
                }
                k += 1;
                assert(texts_of(r@) =~= before + relation_lines(*rel).take(k + 1));
            }
            proof {
                assert(relation_lines(*rel).take(rel.columns@.len() as int + 1) =~= relation_lines(*rel));
                assert(rels@.take(j + 1).drop_last() =~= rels@.take(j as int));
            }
            j += 1;
        }
        assert(rels@.take(rels@.len() as int) =~= rels@);
        r
    }

    /// What is saved of the databases: for each, its name and, for each of
    /// its relations, its name, its header page and the names and types of
    /// its columns.
    pub fn save_state(&self) -> (r: Vec<SavedDatabase>)
        ensures
            saved_catalog(r@) == catalog(self.basededonnees@),
            saved_exact(r@),
    {
        let mut out: Vec<SavedDatabase> = Vec::new();
        let mut i: usize = 0;
        while i < self.basededonnees.len()
            invariant
                0 <= i <= self.basededonnees@.len(),
                saved_catalog(out@) == catalog(self.basededonnees@.take(i as int)),
                saved_exact(out@),
            decreases self.basededonnees@.len() - i,
        {
            let d = save_database(&self.basededonnees[i]);
            let ghost before = out@;
            out.push(d);
            i += 1;
            proof {
                assert(out@ == before.push(d));
                assert(saved_catalog(out@) =~= saved_catalog(before).push(saved_view(d)));
                assert(catalog(self.basededonnees@.take(i as int)) =~= catalog(self.basededonnees@.take(i - 1)).push(
                    database_view(self.basededonnees@[i - 1]),
                ));
            }
        }
        assert(self.basededonnees@.take(self.basededonnees@.len() as int) =~= self.basededonnees@);
        out
    }

    /// Stores each saved database in turn, in place of a database of the
    /// same name if there is one (see `load_views`).
    pub fn load_state(&mut self, saved: &Vec<SavedDatabase>)
        requires
            old(self).wf(),
            saved_complete(saved@),
        ensures
            final(self).wf(),
            catalog(final(self).basededonnees@) == load_views(catalog(old(self).basededonnees@), saved_catalog(saved@)),
            final(self).bdd_courante == old(self).bdd_courante,
            final(self).dbconfig == old(self).dbconfig,
    {
        let ghost start = catalog(self.basededonnees@);
        let mut i: usize = 0;
        while i < saved.len()
            invariant
                0 <= i <= saved@.len(),
                saved_complete(saved@),
                self.wf(),
                self.bdd_courante == old(self).bdd_courante,
                self.dbconfig == old(self).dbconfig,
                start == catalog(old(self).basededonnees@),
                catalog(self.basededonnees@) == load_views(start, saved_catalog(saved@.take(i as int))),
            decreases saved@.len() - i,
        {
            let d = restore_database(&saved[i]);
            self.insert_database(d);
            proof {
                assert(saved_catalog(saved@.take(i + 1)).drop_last() =~= saved_catalog(saved@.take(i as int)));
                assert(saved_catalog(saved@.take(i + 1)).last() == saved_view(saved@[i as int]));
            }
            i += 1;
        }
        assert(saved@.take(saved@.len() as int) =~= saved@);
    }

    /// Stores `d` under its name (see `with_database`).
    fn insert_database(&mut self, d: Database)
        requires
            old(self).wf(),
        ensures
            final(self).wf(),
            final(self).basededonnees@ == with_database(old(self).basededonnees@, d),
            catalog(final(self).basededonnees@) == with_view(catalog(old(self).basededonnees@), database_view(d)),
            final(self).bdd_courante == old(self).bdd_courante,
            final(self).dbconfig == old(self).dbconfig,
    {
        let ghost bases = self.basededonnees@;
        let i = find_database(&self.basededonnees, d.nom.as_str());
        proof {
            lemma_db_index_bounds(bases, d.nom@);
            lemma_with_database_distinct(bases, d);
            lemma_with_database_keeps(bases, d);
            lemma_catalog_with(bases, d);
        }
        if i < self.basededonnees.len() {
            self.basededonnees.set(i, d);
        } else {
            self.basededonnees.push(d);
        }
        proof {
            assert(self.basededonnees@ =~= with_database(bases, d));
        }
    }

    /// Takes every database out; none is current.
    pub fn remove_data_bases(&mut self)
        ensures
            final(self).wf(),
            final(self).basededonnees@ == Seq::<Database>::empty(),
            final(self).bdd_courante is None,
            final(self).dbconfig == old(self).dbconfig,
    {
        self.bdd_courante = None;
        self.basededonnees.clear();
    }
}

} // verus!
