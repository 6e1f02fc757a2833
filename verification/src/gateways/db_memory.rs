//! The store keeps each record as a JSON file `db/{table}/{id}`.

use vstd::prelude::*;
use crate::text::concatenate;

verus! {

/// The file of the record `id` of `table`.
pub open spec fn record_file(table: Seq<char>, id: Seq<char>) -> Seq<char> {
    "db/"@ + table + "/"@ + id
}

/// The store that keeps its tables as directories of JSON files under `db/`.
#[derive(Debug, Clone, Copy)]
pub struct DatabaseImplOnMemory {}

impl DatabaseImplOnMemory {
    /// The file of the record `id` of `table`: `db/{table}/{id}`.
    pub fn record_path(&self, table_name: &str, id: &str) -> (p: String)
        ensures
            p@ == record_file(table_name@, id@),
    {
        let mut p = concatenate("db/", table_name);
        p.append("/");
        p.append(id);
        p
    }

    /// The directory of `table`: `db/{table}`.
    pub fn table_path(&self, table_name: &str) -> (p: String)
        ensures
            p@ == "db/"@ + table_name@,
    {
        concatenate("db/", table_name)
    }
}

} // verus!
