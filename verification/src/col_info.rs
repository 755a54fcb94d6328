//! Columns of a relation and the records stored in it.

use vstd::prelude::*;
use vstd::string::StringExecFns;

verus! {

/// A column: its name and its type, such as `INT`, `REAL`, `CHAR(10)` or
/// `VARCHAR(20)`.
#[derive(Debug, Clone)]
pub struct ColInfo {
    pub name: String,
    pub column_type: String,
}

impl ColInfo {
    pub fn new(name: &str, column_type: &str) -> (c: ColInfo)
        ensures
            c.name@ == name@,
            c.column_type@ == column_type@,
    {
        ColInfo { name: String::from_str(name), column_type: String::from_str(column_type) }
    }

    /// A copy of this column.
    pub fn duplicate(&self) -> (c: ColInfo)
        ensures
            c == *self,
    {
        ColInfo { name: self.name.clone(), column_type: self.column_type.clone() }
    }

    pub fn get_name(&self) -> (r: &String)
        ensures
            r == &self.name,
    {
        &self.name
    }

    pub fn get_column_type(&self) -> (r: &String)
        ensures
            r == &self.column_type,
    {
        &self.column_type
    }
}

/// A row: one text value per column.
#[derive(Debug, Clone, PartialEq)]
pub struct Record {
    pub record_tuple: Vec<String>,
}

impl Record {
    pub fn new(record_tuple: Vec<String>) -> (r: Record)
        ensures
            r.record_tuple == record_tuple,
    {
        Record { record_tuple }
    }

    /// A copy of the values.
    pub fn get_tuple(&self) -> (t: Vec<String>)
        ensures
            t@ == self.record_tuple@,
    {
        self.record_tuple.clone()
    }

    pub fn set_tuple(&mut self, tuple: Vec<String>)
        ensures
            final(self).record_tuple == tuple,
    {
        self.record_tuple = tuple;
    }

    /// A copy of this record.
    pub fn duplicate(&self) -> (r: Record)
        ensures
            r.record_tuple@ == self.record_tuple@,
    {
        Record { record_tuple: self.get_tuple() }
    }

    /// The value at `index`; an index past the end is left out.
    pub fn get_value(&self, index: usize) -> (r: &String)
        requires
            index < self.record_tuple@.len(),
        ensures
            *r == self.record_tuple@[index as int],
    {
        &self.record_tuple[index]
    }
}

} // verus!
