//! Table extraction from PDF pages: the decisions and the text handling that
//! turn located text and ruling lines into tables of strings.

pub mod cli;
pub mod detect;
pub mod error;
pub mod grid;
pub mod i18n;
pub mod merge;
pub mod node;
pub mod output;
pub mod pdf;
pub mod server;
pub mod telemetry;
pub mod text;

use vstd::prelude::*;

pub use error::TrexError;

verus! {

/// One extracted table.
#[derive(Debug)]
pub struct Table {
    /// Page the table stands on (counted from 1).
    pub page: u32,
    /// Position of the table among those of its page (counted from 0).
    pub table_index: usize,
    /// Header cells.
    pub headers: Vec<String>,
    /// Data rows, each a list of cells.
    pub rows: Vec<Vec<String>>,
}

/// The character sequences of a list of strings.
pub open spec fn strings_view(v: Seq<String>) -> Seq<Seq<char>> {
    v.map_values(|s: String| s@)
}

/// The character sequences of a list of rows.
pub open spec fn rows_view(v: Seq<Vec<String>>) -> Seq<Seq<Seq<char>>> {
    v.map_values(|r: Vec<String>| strings_view(r@))
}

/// A table as plain values.
pub struct TableView {
    pub page: u32,
    pub table_index: usize,
    pub headers: Seq<Seq<char>>,
    pub rows: Seq<Seq<Seq<char>>>,
}

impl View for Table {
    type V = TableView;

    open spec fn view(&self) -> TableView {
        TableView {
            page: self.page,
            table_index: self.table_index,
            headers: strings_view(self.headers@),
            rows: rows_view(self.rows@),
        }
    }
}

/// The views of a list of tables.
pub open spec fn tables_view(v: Seq<Table>) -> Seq<TableView> {
    v.map_values(|t: Table| t@)
}

/// How tables are found on a page.
#[derive(Debug, Clone, Copy, PartialEq, Eq, Structural)]
pub enum ParseMode {
    /// Ruled tables, found from the vector graphics' lines.
    Lattice,
    /// Tables without rules, found from text positions.
    Stream,
    /// A router picks one of the strategies per page.
    Dl,
    /// Lattice first, Stream when Lattice finds nothing.
    Auto,
}

impl Default for ParseMode {
    fn default() -> (m: Self)
        ensures
            m == ParseMode::Auto,
    {
        ParseMode::Auto
    }
}

/// The name of a parsing mode, as requests and events write it.
pub open spec fn parse_mode_label(mode: ParseMode) -> Seq<char> {
    match mode {
        ParseMode::Lattice => seq!['l', 'a', 't', 't', 'i', 'c', 'e'],
        ParseMode::Stream => seq!['s', 't', 'r', 'e', 'a', 'm'],
        ParseMode::Dl => seq!['d', 'l'],
        ParseMode::Auto => seq!['a', 'u', 't', 'o'],
    }
}

/// The strategy that the router falls back to.
#[derive(Debug, Clone, Copy, PartialEq, Eq, Structural)]
pub enum DlFallbackMode {
    Auto,
    Lattice,
    Stream,
}

impl Default for DlFallbackMode {
    fn default() -> (m: Self)
        ensures
            m == DlFallbackMode::Auto,
    {
        DlFallbackMode::Auto
    }
}

/// The name of a fallback mode, as requests and events write it.
pub open spec fn dl_fallback_label(mode: DlFallbackMode) -> Seq<char> {
    match mode {
        DlFallbackMode::Auto => seq!['a', 'u', 't', 'o'],
        DlFallbackMode::Lattice => seq!['l', 'a', 't', 't', 'i', 'c', 'e'],
        DlFallbackMode::Stream => seq!['s', 't', 'r', 'e', 'a', 'm'],
    }
}

/// Extraction options.
#[derive(Debug)]
pub struct ExtractOptions {
    /// Pages to process; all pages when absent.
    pub pages: Option<Vec<u32>>,
    /// Parsing mode.
    pub mode: ParseMode,
}

impl Default for ExtractOptions {
    fn default() -> (o: Self)
        ensures
            o.pages.is_none(),
            o.mode == ParseMode::Auto,
    {
        ExtractOptions { pages: None, mode: ParseMode::Auto }
    }
}

} // verus!
