//! A minimal table catalog: table names and their column lists.

use vstd::prelude::*;

verus! {

/// First column list recorded for a table name.
pub open spec fn table_lookup_from(
    tables: Seq<(String, Vec<String>)>,
    name: Seq<char>,
    i: int,
) -> Option<Seq<Seq<char>>>
    decreases tables.len() - i,
{
    if i < 0 || i >= tables.len() {
        None
    } else if tables[i].0@ == name {
        Some(tables[i].1@.map_values(|c: String| c@))
    } else {
        table_lookup_from(tables, name, i + 1)
    }
}

/// The catalog: tables and their columns.
pub struct Catalog {
    pub tables: Vec<(String, Vec<String>)>,
}

impl Catalog {
    pub fn new() -> (r: Self)
        ensures
            r.tables@.len() == 0,
    {
        Catalog { tables: Vec::new() }
    }

    /// Record a table's columns; an existing entry of the same name is
    /// shadowed by the newer one.
    pub fn create_table(&mut self, name: &str, cols: Vec<String>)
        ensures
            table_lookup_from(final(self).tables@, name@, 0) == Some(
                cols@.map_values(|c: String| c@),
            ),
            final(self).tables@.len() == old(self).tables@.len() + 1,
    {
        let ghost gcols = cols@;
        self.tables.insert(0, (name.to_owned(), cols));
        proof {
            assert(self.tables@[0].0@ == name@);
            assert(self.tables@[0].1@ == gcols);
        }
    }
}

} // verus!
