//! Conversion of tables to text.

pub mod csv;

use vstd::prelude::*;

use crate::{tables_view, Table, TrexError};

verus! {

/// Converts tables to CSV text.
pub fn to_csv(tables: &[Table]) -> (r: Result<String, TrexError>)
    ensures
        r matches Ok(s) && s@ == csv::csv_spec(tables_view(tables@)),
{
    csv::to_string(tables)
}

} // verus!
