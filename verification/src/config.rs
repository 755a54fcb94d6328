//! The configuration of a database.

use vstd::prelude::*;
use crate::text::{parse_u32, spec_parse_u32};

verus! {

/// Where the database files live, the size of a page, the largest size of a
/// data file, the number of buffers in the pool and their replacement
/// policy.
pub struct DBConfig {
    pub dbpath: String,
    pub pagesize: u32,
    pub dm_maxfilesize: u32,
    pub bm_buffer_count: u32,
    pub bm_policy: String,
}

/// What `serde_json` reads as the string under `key` in the top object of
/// JSON text `text`: `None` when the text is not JSON, or has no such key, or
/// the value there is not a string.
pub uninterp spec fn json_string_field(text: Seq<char>, key: Seq<char>) -> Option<Seq<char>>;

/// `serde_json::from_str` into a `serde_json::Value`, then the string under
/// `key`; the contract only names the result (see `json_string_field`).
#[verifier::external_body]
fn json_str_field(text: &str, key: &str) -> (r: Option<String>)
    ensures
        match r {
            Some(s) => json_string_field(text@, key@) == Some(s@),
            None => json_string_field(text@, key@) is None,
        },
{
    let v: serde_json::Value = match serde_json::from_str(text) {
        Ok(v) => v,
        Err(_) => return None,
    };
    match v.get(key) {
        Some(serde_json::Value::String(s)) => Some(s.clone()),
        _ => None,
    }
}

/// The number written in a configuration field, if it is one.
pub open spec fn config_number(field: Option<Seq<char>>) -> Option<u32> {
    match field {
        Some(t) => match spec_parse_u32(vstd::utf8::encode_utf8(t)) {
            Some(v) => Some(v as u32),
            None => None,
        },
        None => None,
    }
}

/// The configuration that JSON text `text` gives: the strings under
/// `dbpath` and `bm_policy`, and the numbers written as strings under
/// `pagesize`, `dm_maxfilesize` and `bm_buffer_count`; `None` when one of
/// them is missing or not of that form.
pub open spec fn config_of(text: Seq<char>) -> Option<(Seq<char>, u32, u32, u32, Seq<char>)> {
    let path = json_string_field(text, "dbpath"@);
    let ps = config_number(json_string_field(text, "pagesize"@));
    let mx = config_number(json_string_field(text, "dm_maxfilesize"@));
    let bc = config_number(json_string_field(text, "bm_buffer_count"@));
    let pol = json_string_field(text, "bm_policy"@);
    if path is Some && ps is Some && mx is Some && bc is Some && pol is Some {
        Some((path.unwrap(), ps.unwrap(), mx.unwrap(), bc.unwrap(), pol.unwrap()))
    } else {
        None
    }
}

/// The number in a configuration field.
fn field_number(text: &str, key: &str) -> (r: Option<u32>)
    ensures
        r == config_number(json_string_field(text@, key@)),
{
    match json_str_field(text, key) {
        Some(s) => parse_u32(s.as_str().as_bytes()),
        None => None,
    }
}

impl DBConfig {
    /// The configuration written in JSON text `text` (see `config_of`).
    pub fn load_db_config(text: &str) -> (r: Option<DBConfig>)
        ensures
            match config_of(text@) {
                Some((path, ps, mx, bc, pol)) => r matches Some(c) && c.dbpath@ == path && c.pagesize == ps
                    && c.dm_maxfilesize == mx && c.bm_buffer_count == bc && c.bm_policy@ == pol,
                None => r is None,
            },
    {
        let path = match json_str_field(text, "dbpath") {
            Some(p) => p,
            None => {
                return None;
            },
        };
        let ps = match field_number(text, "pagesize") {
            Some(v) => v,
            None => {
                return None;
            },
        };
        let mx = match field_number(text, "dm_maxfilesize") {
            Some(v) => v,
            None => {
                return None;
            },
        };
        let bc = match field_number(text, "bm_buffer_count") {
            Some(v) => v,
            None => {
                return None;
            },
        };
        let pol = match json_str_field(text, "bm_policy") {
            Some(p) => p,
            None => {
                return None;
            },
        };
        Some(DBConfig::new(path, ps, mx, bc, pol))
    }

    pub fn new(chemin: String, pagesize: u32, dm_maxfilesize: u32, bm_buffer_count: u32, bm_policy: String) -> (c:
        DBConfig)
        ensures
            c.dbpath == chemin,
            c.pagesize == pagesize,
            c.dm_maxfilesize == dm_maxfilesize,
            c.bm_buffer_count == bm_buffer_count,
            c.bm_policy == bm_policy,
    {
        DBConfig { dbpath: chemin, pagesize, dm_maxfilesize, bm_buffer_count, bm_policy }
    }

    pub fn set_dbpath(&mut self, chemin: String)
        ensures
            *final(self) == (DBConfig { dbpath: chemin, ..*old(self) }),
    {
        self.dbpath = chemin;
    }

    pub fn get_dbpath(&self) -> (r: &String)
        ensures
            *r == self.dbpath,
    {
        &self.dbpath
    }

    pub fn get_page_size(&self) -> (r: u32)
        ensures
            r == self.pagesize,
    {
        self.pagesize
    }

    pub fn get_dm_maxfilesize(&self) -> (r: u32)
        ensures
            r == self.dm_maxfilesize,
    {
        self.dm_maxfilesize
    }

    pub fn get_bm_buffer_count(&self) -> (r: u32)
        ensures
            r == self.bm_buffer_count,
    {
        self.bm_buffer_count
    }

    /// A copy of this configuration.
    pub fn duplicate(&self) -> (c: DBConfig)
        ensures
            c == *self,
    {
        DBConfig {
            dbpath: self.dbpath.clone(),
            pagesize: self.pagesize,
            dm_maxfilesize: self.dm_maxfilesize,
            bm_buffer_count: self.bm_buffer_count,
            bm_policy: self.bm_policy.clone(),
        }
    }
}

} // verus!
