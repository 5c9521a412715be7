//! The values that the Node.js binding passes across: its option names and
//! its table shape.

use vstd::prelude::*;

use crate::{rows_view, strings_view, tables_view, DlFallbackMode, ParseMode, TableView};

verus! {

/// Parsing modes as the binding names them.
#[derive(Debug, Clone, Copy, PartialEq, Eq, Structural)]
pub enum ParseModeOption {
    Auto,
    Lattice,
    Stream,
    Dl,
}

/// Fallback modes as the binding names them.
#[derive(Debug, Clone, Copy, PartialEq, Eq, Structural)]
pub enum DlFallbackOption {
    Auto,
    Lattice,
    Stream,
}

/// A table as the binding hands it out, with a 32-bit table index.
#[derive(Debug)]
pub struct Table {
    pub page: u32,
    pub table_index: u32,
    pub headers: Vec<String>,
    pub rows: Vec<Vec<String>>,
}

/// The library's parsing mode for a binding option.
pub fn map_parse_mode(mode: ParseModeOption) -> (m: ParseMode)
    ensures
        m == (match mode {
            ParseModeOption::Auto => ParseMode::Auto,
            ParseModeOption::Lattice => ParseMode::Lattice,
            ParseModeOption::Stream => ParseMode::Stream,
            ParseModeOption::Dl => ParseMode::Dl,
        }),
{
    match mode {
        ParseModeOption::Auto => ParseMode::Auto,
        ParseModeOption::Lattice => ParseMode::Lattice,
        ParseModeOption::Stream => ParseMode::Stream,
        ParseModeOption::Dl => ParseMode::Dl,
    }
}

/// The library's fallback mode for a binding option.
pub fn map_dl_fallback(mode: DlFallbackOption) -> (m: DlFallbackMode)
    ensures
        m == (match mode {
            DlFallbackOption::Auto => DlFallbackMode::Auto,
            DlFallbackOption::Lattice => DlFallbackMode::Lattice,
            DlFallbackOption::Stream => DlFallbackMode::Stream,
        }),
{
    match mode {
        DlFallbackOption::Auto => DlFallbackMode::Auto,
        DlFallbackOption::Lattice => DlFallbackMode::Lattice,
        DlFallbackOption::Stream => DlFallbackMode::Stream,
    }
}

/// A table index as the binding reports it: the index when it fits in 32
/// bits, `u32::MAX` otherwise.
pub open spec fn index_u32(i: usize) -> u32 {
    if i <= u32::MAX {
        i as u32
    } else {
        u32::MAX
    }
}

/// A binding table has the library table's page, cells, and its index as
/// `index_u32` gives it.
pub open spec fn converted(n: Table, t: TableView) -> bool {
    &&& n.page == t.page
    &&& n.table_index == index_u32(t.table_index)
    &&& strings_view(n.headers@) == t.headers
    &&& rows_view(n.rows@) == t.rows
}

/// Converts the library's tables to the binding's, in order.
pub fn convert_tables(tables: Vec<crate::Table>) -> (r: Vec<Table>)
    ensures
        r.len() == tables.len(),
        forall|k: int| 0 <= k < r.len() ==> converted(#[trigger] r@[k], tables_view(tables@)[k]),
{
    let ghost all = tables_view(tables@);
    let ghost n = tables.len();
    let mut rest = tables;
    let mut out: Vec<Table> = Vec::new();
    while rest.len() > 0
        invariant
            out.len() + rest.len() == n,
            n == all.len(),
            tables_view(rest@) == all.subrange(out.len() as int, n as int),
            forall|k: int| 0 <= k < out.len() ==> converted(#[trigger] out@[k], all[k]),
        decreases rest.len(),
    {
        let ghost rv = tables_view(rest@);
        let ghost old_rest = rest@;
        assert(rv[0] == rest@[0]@);
        let t = rest.remove(0);
        assert(rest@ =~= old_rest.subrange(1, old_rest.len() as int));
        assert(tables_view(rest@) =~= rv.subrange(1, rv.len() as int));
        let index = if t.table_index <= u32::MAX as usize {
            t.table_index as u32
        } else {
            u32::MAX
        };
        let ghost k = out.len() as int;
        assert(t@ == all[k]);
        out.push(Table { page: t.page, table_index: index, headers: t.headers, rows: t.rows });
        assert(out@[k].headers == t.headers);
        assert forall|q: int| 0 <= q < out.len() implies converted(#[trigger] out@[q], all[q]) by {
            if q < k {
            }
        }
    }
    out
}

} // verus!
