//! A database: a name and its relations.

use vstd::prelude::*;
use vstd::string::StringExecFns;
use crate::relation::Relation;

verus! {

/// The index of the first relation named `name`, or the number of
/// relations.
pub open spec fn rel_index(rels: Seq<Relation>, name: Seq<char>) -> int
    decreases rels.len(),
{
    if rels.len() == 0 {
        0
    } else if rels[0].name@ == name {
        0
    } else {
        rel_index(rels.drop_first(), name) + 1
    }
}

/// The relations once the first one named `name` is taken out, the last
/// relation taking its place; unchanged when none has that name.
pub open spec fn without_relation(rels: Seq<Relation>, name: Seq<char>) -> Seq<Relation> {
    let i = rel_index(rels, name);
    if i < rels.len() {
        rels.update(i, rels.last()).drop_last()
    } else {
        rels
    }
}

pub proof fn lemma_rel_index_bounds(rels: Seq<Relation>, name: Seq<char>)
    ensures
        0 <= rel_index(rels, name) <= rels.len(),
        rel_index(rels, name) < rels.len() ==> rels[rel_index(rels, name)].name@ == name,
        forall|j: int| 0 <= j < rel_index(rels, name) ==> rels[j].name@ != name,
    decreases rels.len(),
{
    if rels.len() > 0 && rels[0].name@ != name {
        lemma_rel_index_bounds(rels.drop_first(), name);
        assert forall|j: int| 0 <= j < rel_index(rels, name) implies rels[j].name@ != name by {
            if j > 0 {
                assert(rels[j] == rels.drop_first()[j - 1]);
            }
        }
    }
}

proof fn lemma_rel_index_at(rels: Seq<Relation>, name: Seq<char>, i: int)
    requires
        0 <= i <= rels.len(),
        i < rels.len() ==> rels[i].name@ == name,
        forall|j: int| 0 <= j < i ==> rels[j].name@ != name,
    ensures
        rel_index(rels, name) == i,
    decreases i,
{
    if i > 0 {
        lemma_rel_index_at(rels.drop_first(), name, i - 1);
    }
}

/// Taking out, by its name, a relation just added under a name that no
/// other relation has gives back the relations as they were.
pub proof fn lemma_add_then_remove(rels: Seq<Relation>, tab: Relation)
    requires
        rel_index(rels, tab.name@) == rels.len(),
    ensures
        without_relation(rels.push(tab), tab.name@) == rels,
{
    lemma_rel_index_bounds(rels, tab.name@);
    lemma_rel_index_at(rels.push(tab), tab.name@, rels.len() as int);
    assert(rels.push(tab).update(rels.len() as int, tab).drop_last() =~= rels);
}

/// The index of the first relation named `name` (see `rel_index`).
pub fn find_relation(rels: &Vec<Relation>, name: &String) -> (r: usize)
    ensures
        r == rel_index(rels@, name@),
{
    let mut i: usize = 0;
    while i < rels.len()
        invariant
            0 <= i <= rels@.len(),
            forall|j: int| 0 <= j < i ==> rels@[j].name@ != name@,
        decreases rels@.len() - i,
    {
        if rels[i].name == *name {
            proof {
                lemma_rel_index_at(rels@, name@, i as int);
            }
            return i;
        }
        i += 1;
    }
    proof {
        lemma_rel_index_at(rels@, name@, i as int);
    }
    i
}

/// A database: its name and its relations, in the order they were added.
pub struct Database {
    pub nom: String,
    pub relations: Vec<Relation>,
}

impl Database {
    pub fn new(name: String) -> (d: Database)
        ensures
            d.nom == name,
            d.relations@ == Seq::<Relation>::empty(),
    {
        Database { nom: name, relations: Vec::new() }
    }

    pub fn set_relations(&mut self, relations: Vec<Relation>)
        ensures
            final(self).nom == old(self).nom,
            final(self).relations == relations,
    {
        self.relations = relations;
    }

    pub fn get_relations(&self) -> (r: &Vec<Relation>)
        ensures
            *r == self.relations,
    {
        &self.relations
    }

    pub fn get_relations_mut(&mut self) -> (r: &mut Vec<Relation>)
        ensures
            *r == old(self).relations,
            final(self).relations == *final(r),
            final(self).nom == old(self).nom,
    {
        &mut self.relations
    }

    pub fn get_nom(&self) -> (r: &str)
        ensures
            r@ == self.nom@,
    {
        self.nom.as_str()
    }

    pub fn add_relation(&mut self, relation: Relation)
        ensures
            final(self).nom == old(self).nom,
            final(self).relations@ == old(self).relations@.push(relation),
    {
        self.relations.push(relation);
    }

    /// Takes out the first relation named `relation`, the last relation
    /// taking its place (see `without_relation`).
    pub fn remove_relation(&mut self, relation: &str)
        ensures
            final(self).nom == old(self).nom,
            final(self).relations@ == without_relation(old(self).relations@, relation@),
    {
        let name = String::from_str(relation);
        let i = find_relation(&self.relations, &name);
        proof {
            lemma_rel_index_bounds(self.relations@, relation@);
        }
        if i < self.relations.len() {
            let _ = self.relations.swap_remove(i);
        }
    }
}

} // verus!
