//! Records that have a table of their own in the database.

use vstd::prelude::*;

verus! {

/// A record that is stored in a table of its own.
pub trait Table {
    /// The name of the table, as a sequence of characters.
    spec fn table(&self) -> Seq<char>;

    /// The name of the table.
    fn table_name(&self) -> (name: &'static str)
        ensures
            name@ == self.table(),
    ;
}

} // verus!
