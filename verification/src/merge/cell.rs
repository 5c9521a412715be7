//! Building a table's 2D string array from cells and the texts found in them.

use vstd::prelude::*;

use crate::i18n::Language;
use crate::server::{localized, localized_spec};
use crate::text::{chars_of, lemma_words_concat, lemma_words_trim, string_of, trim, trim_spec, words_spec};
use crate::{strings_view, Table, TableView, TrexError};

verus! {

/// A cell of a grid with the texts found inside it, in reading order (top to
/// bottom, then left to right).
pub struct CellText {
    /// Row index.
    pub row: usize,
    /// Column index.
    pub col: usize,
    /// The texts whose centers lie inside the cell.
    pub texts: Vec<String>,
}

/// A cell as plain values.
pub struct CellTextView {
    pub row: usize,
    pub col: usize,
    pub texts: Seq<Seq<char>>,
}

impl View for CellText {
    type V = CellTextView;

    open spec fn view(&self) -> CellTextView {
        CellTextView { row: self.row, col: self.col, texts: strings_view(self.texts@) }
    }
}

/// The views of a list of cells.
pub open spec fn cells_view(v: Seq<CellText>) -> Seq<CellTextView> {
    v.map_values(|c: CellText| c@)
}

/// The trimmed, non-blank texts in order, separated by single spaces.
pub open spec fn join_nonblank(texts: Seq<Seq<char>>) -> Seq<char>
    decreases texts.len(),
{
    if texts.len() == 0 {
        Seq::empty()
    } else {
        let a = join_nonblank(texts.drop_last());
        let v = trim_spec(texts.last());
        if v.len() == 0 {
            a
        } else if a.len() == 0 {
            v
        } else {
            a + seq![' '] + v
        }
    }
}

/// The largest row index, or -1 for no cells.
pub open spec fn max_row(cells: Seq<CellTextView>) -> int
    decreases cells.len(),
{
    if cells.len() == 0 {
        -1
    } else {
        let m = max_row(cells.drop_last());
        if cells.last().row > m {
            cells.last().row as int
        } else {
            m
        }
    }
}

/// The largest column index, or -1 for no cells.
pub open spec fn max_col(cells: Seq<CellTextView>) -> int
    decreases cells.len(),
{
    if cells.len() == 0 {
        -1
    } else {
        let m = max_col(cells.drop_last());
        if cells.last().col > m {
            cells.last().col as int
        } else {
            m
        }
    }
}

/// The text of grid position `(r, c)`: that of the last cell there, or empty.
pub open spec fn cell_value(cells: Seq<CellTextView>, r: int, c: int) -> Seq<char>
    decreases cells.len(),
{
    if cells.len() == 0 {
        Seq::empty()
    } else if cells.last().row == r && cells.last().col == c {
        join_nonblank(cells.last().texts)
    } else {
        cell_value(cells.drop_last(), r, c)
    }
}

/// The grid of the cells: as many rows and columns as the largest indices
/// call for.
pub open spec fn merged_grid(cells: Seq<CellTextView>) -> Seq<Seq<Seq<char>>> {
    Seq::new(
        (max_row(cells) + 1) as nat,
        |r: int| Seq::new((max_col(cells) + 1) as nat, |c: int| cell_value(cells, r, c)),
    )
}

/// The table of the cells: the grid's first row is the header row.
pub open spec fn merge_spec(cells: Seq<CellTextView>, page: u32, table_index: usize) -> TableView {
    let g = merged_grid(cells);
    TableView { page, table_index, headers: g[0], rows: g.drop_first() }
}

/// The message for an empty list of cells.
pub open spec fn no_cells_message(language: Language) -> Seq<char> {
    localized_spec(language, "병합할 셀 영역이 없습니다"@, "No cell regions to merge"@)
}

fn join_texts(texts: &Vec<String>) -> (s: String)
    ensures
        s@ == join_nonblank(strings_view(texts@)),
{
    let ghost all = strings_view(texts@);
    let mut out: Vec<char> = Vec::new();
    let mut k: usize = 0;
    while k < texts.len()
        invariant
            k <= texts.len(),
            all == strings_view(texts@),
            out@ == join_nonblank(all.take(k as int)),
        decreases texts.len() - k,
    {
        assert(all.take(k + 1).drop_last() =~= all.take(k as int));
        assert(all.take(k + 1).last() == texts@[k as int]@);
        let t = chars_of(texts[k].as_str());
        let v = trim(&t);
        if v.len() > 0 {
            if out.len() > 0 {
                out.push(' ');
            }
            let ghost before = out@;
            let mut q: usize = 0;
            while q < v.len()
                invariant
                    q <= v.len(),
                    out@ == before + v@.take(q as int),
                decreases v.len() - q,
            {
                out.push(v[q]);
                q += 1;
                assert(out@ =~= before + v@.take(q as int));
            }
            assert(v@.take(v.len() as int) =~= v@);
        }
        k += 1;
    }
    assert(all.take(texts.len() as int) =~= all);
    string_of(&out)
}

proof fn lemma_max_bounds(cells: Seq<CellTextView>)
    ensures
        forall|i: int| 0 <= i < cells.len() ==> #[trigger] cells[i].row <= max_row(cells),
        forall|i: int| 0 <= i < cells.len() ==> #[trigger] cells[i].col <= max_col(cells),
        cells.len() > 0 ==> exists|i: int| 0 <= i < cells.len() && #[trigger] cells[i].row == max_row(cells),
        cells.len() > 0 ==> exists|i: int| 0 <= i < cells.len() && #[trigger] cells[i].col == max_col(cells),
        cells.len() == 0 ==> max_row(cells) == -1 && max_col(cells) == -1,
    decreases cells.len(),
{
    if cells.len() > 0 {
        let t = cells.drop_last();
        lemma_max_bounds(t);
        assert forall|i: int| 0 <= i < cells.len() implies #[trigger] cells[i].row <= max_row(cells) by {
            if i < t.len() {
                assert(t[i] == cells[i]);
            }
        }
        assert forall|i: int| 0 <= i < cells.len() implies #[trigger] cells[i].col <= max_col(cells) by {
            if i < t.len() {
                assert(t[i] == cells[i]);
            }
        }
        let n = cells.len() - 1;
        assert(cells[n] == cells.last());
        if cells.last().row > max_row(t) {
            assert(cells[n].row == max_row(cells));
        } else {
            let a = choose|i: int| 0 <= i < t.len() && #[trigger] t[i].row == max_row(t);
            assert(t[a] == cells[a]);
            assert(cells[a].row == max_row(cells));
        }
        if cells.last().col > max_col(t) {
            assert(cells[n].col == max_col(cells));
        } else {
            let b = choose|i: int| 0 <= i < t.len() && #[trigger] t[i].col == max_col(t);
            assert(t[b] == cells[b]);
            assert(cells[b].col == max_col(cells));
        }
    }
}

fn value_at(cells: &Vec<CellText>, r: usize, c: usize) -> (s: String)
    ensures
        s@ == cell_value(cells_view(cells@), r as int, c as int),
{
    let ghost cv = cells_view(cells@);
    let mut found: Option<usize> = None;
    let mut k: usize = 0;
    while k < cells.len()
        invariant
            k <= cells.len(),
            cv == cells_view(cells@),
            match found {
                Some(i) => i < k && cell_value(cv.take(k as int), r as int, c as int)
                    == join_nonblank(strings_view(cells@[i as int].texts@)),
                None => cell_value(cv.take(k as int), r as int, c as int) == Seq::<char>::empty(),
            },
        decreases cells.len() - k,
    {
        assert(cv.take(k + 1).drop_last() =~= cv.take(k as int));
        assert(cv.take(k + 1).last() == cells@[k as int]@);
        if cells[k].row == r && cells[k].col == c {
            found = Some(k);
        }
        k += 1;
    }
    assert(cv.take(cells.len() as int) =~= cv);
    match found {
        Some(i) => join_texts(&cells[i].texts),
        None => String::new(),
    }
}

/// Builds the table of a grid of cells: each position takes the texts of the
/// last cell there, trimmed, blank ones dropped, joined by spaces; the first
/// row becomes the header row. An empty list of cells is rejected.
pub fn merge_cells(cells: &Vec<CellText>, page: u32, table_index: usize, language: Language) -> (r: Result<Table, TrexError>)
    requires
        forall|i: int| 0 <= i < cells.len() ==> #[trigger] cells@[i].row < usize::MAX && cells@[i].col < usize::MAX,
    ensures
        cells.len() == 0 ==> (r matches Err(TrexError::Merge(m)) && m@ == no_cells_message(language)),
        cells.len() > 0 ==> (r matches Ok(t) && t@ == merge_spec(cells_view(cells@), page, table_index)),
{
    if cells.len() == 0 {
        let m = String::from_str(localized(language, "병합할 셀 영역이 없습니다", "No cell regions to merge"));
        return Err(TrexError::Merge(m));
    }
    let ghost cv = cells_view(cells@);
    let mut max_r: usize = 0;
    let mut max_c: usize = 0;
    let mut k: usize = 0;
    while k < cells.len()
        invariant
            k <= cells.len(),
            cells.len() > 0,
            cv == cells_view(cells@),
            k == 0 ==> max_r == 0 && max_c == 0,
            k > 0 ==> max_r == max_row(cv.take(k as int)) && max_c == max_col(cv.take(k as int)),
        decreases cells.len() - k,
    {
        assert(cv.take(k + 1).drop_last() =~= cv.take(k as int));
        assert(cv.take(k + 1).last() == cells@[k as int]@);
        assert(cv.take(k as int).len() == 0 ==> max_row(cv.take(k as int)) == -1 && max_col(cv.take(k as int)) == -1);
        if k == 0 || cells[k].row > max_r {
            max_r = cells[k].row;
        }
        if k == 0 || cells[k].col > max_c {
            max_c = cells[k].col;
        }
        k += 1;
    }
    assert(cv.take(cells.len() as int) =~= cv);
    proof {
        lemma_max_bounds(cv);
        let i = choose|i: int| 0 <= i < cv.len() && #[trigger] cv[i].row == max_row(cv);
        let j = choose|i: int| 0 <= i < cv.len() && #[trigger] cv[i].col == max_col(cv);
        assert(cv[i] == cells@[i]@);
        assert(cv[j] == cells@[j]@);
    }
    let row_count = max_r + 1;
    let col_count = max_c + 1;
    let ghost g = merged_grid(cv);
    let mut grid: Vec<Vec<String>> = Vec::new();
    let mut rr: usize = 0;
    while rr < row_count
        invariant
            rr <= row_count,
            row_count == max_row(cv) + 1,
            col_count == max_col(cv) + 1,
            cv == cells_view(cells@),
            g == merged_grid(cv),
            crate::rows_view(grid@) == g.take(rr as int),
        decreases row_count - rr,
    {
        let mut row: Vec<String> = Vec::new();
        let mut cc: usize = 0;
        while cc < col_count
            invariant
                cc <= col_count,
                rr < row_count,
                row_count == max_row(cv) + 1,
                col_count == max_col(cv) + 1,
                cv == cells_view(cells@),
                g == merged_grid(cv),
                strings_view(row@) == g[rr as int].take(cc as int),
            decreases col_count - cc,
        {
            let s = value_at(cells, rr, cc);
            let ghost before = strings_view(row@);
            let ghost sv = s@;
            row.push(s);
            assert(strings_view(row@) =~= before.push(sv));
            assert(g[rr as int].take(cc + 1) =~= g[rr as int].take(cc as int).push(sv));
            cc += 1;
        }
        assert(g[rr as int].take(col_count as int) =~= g[rr as int]);
        let ghost before = crate::rows_view(grid@);
        let ghost rv = strings_view(row@);
        grid.push(row);
        assert(crate::rows_view(grid@) =~= before.push(rv));
        assert(g.take(rr + 1) =~= g.take(rr as int).push(rv));
        rr += 1;
    }
    assert(g.take(row_count as int) =~= g);
    let headers = grid.remove(0);
    assert(crate::rows_view(grid@) =~= g.drop_first());
    Ok(Table { page, table_index, headers, rows: grid })
}


/// Law: the table of a non-empty list of cells is rectangular: as many header
/// cells as the largest column index calls for, every row as long, and as many
/// data rows as the largest row index.
pub proof fn lemma_merged_table_rectangular(cells: Seq<CellTextView>, page: u32, table_index: usize)
    requires
        cells.len() > 0,
    ensures
        merge_spec(cells, page, table_index).headers.len() == max_col(cells) + 1,
        merge_spec(cells, page, table_index).rows.len() == max_row(cells),
        forall|r: int| 0 <= r < merge_spec(cells, page, table_index).rows.len() ==> (#[trigger] merge_spec(cells, page, table_index).rows[r]).len()
            == max_col(cells) + 1,
{
    lemma_max_bounds(cells);
    assert(cells[0].row <= max_row(cells));
    assert(cells[0].col <= max_col(cells));
}


/// The text at grid position `(r, c)` of the merged table: header row first.
pub open spec fn table_at(t: TableView, r: int, c: int) -> Seq<char> {
    if r == 0 {
        t.headers[c]
    } else {
        t.rows[r - 1][c]
    }
}

proof fn lemma_value_of_last_cell(cells: Seq<CellTextView>, j: int)
    requires
        0 <= j < cells.len(),
        forall|k: int|
            j < k < cells.len() ==> !((#[trigger] cells[k]).row == cells[j].row && cells[k].col
                == cells[j].col),
    ensures
        cell_value(cells, cells[j].row as int, cells[j].col as int) == join_nonblank(cells[j].texts),
    decreases cells.len(),
{
    if j < cells.len() - 1 {
        let d = cells.drop_last();
        assert(cells[cells.len() - 1] == cells.last());
        assert forall|k: int| j < k < d.len() implies !((#[trigger] d[k]).row == d[j].row
            && d[k].col == d[j].col) by {
            assert(d[k] == cells[k]);
        }
        lemma_value_of_last_cell(d, j);
    } else {
        assert(cells[j] == cells.last());
    }
}

proof fn lemma_value_of_no_cell(cells: Seq<CellTextView>, r: int, c: int)
    requires
        forall|k: int| 0 <= k < cells.len() ==> !((#[trigger] cells[k]).row == r && cells[k].col == c),
    ensures
        cell_value(cells, r, c) == Seq::<char>::empty(),
    decreases cells.len(),
{
    if cells.len() > 0 {
        let d = cells.drop_last();
        assert(cells[cells.len() - 1] == cells.last());
        assert forall|k: int| 0 <= k < d.len() implies !((#[trigger] d[k]).row == r && d[k].col
            == c) by {
            assert(d[k] == cells[k]);
        }
        lemma_value_of_no_cell(d, r, c);
    }
}

/// Law: in the merged table each cell's texts, trimmed, with blank ones
/// left out and single spaces between, stand at the cell's row and column,
/// unless a later cell has the same position; a position that no cell has
/// is empty.
pub proof fn lemma_merged_cell_positions(cells: Seq<CellTextView>, page: u32, table_index: usize)
    requires
        cells.len() > 0,
    ensures
        forall|j: int|
            0 <= j < cells.len() && (forall|k: int|
                j < k < cells.len() ==> !((#[trigger] cells[k]).row == cells[j].row && cells[k].col
                    == cells[j].col)) ==> table_at(
                merge_spec(cells, page, table_index),
                #[trigger] cells[j].row as int,
                cells[j].col as int,
            ) == join_nonblank(cells[j].texts),
        forall|r: int, c: int|
            0 <= r <= max_row(cells) && 0 <= c <= max_col(cells) && (forall|k: int|
                0 <= k < cells.len() ==> !((#[trigger] cells[k]).row == r && cells[k].col == c))
                ==> #[trigger] table_at(merge_spec(cells, page, table_index), r, c)
                == Seq::<char>::empty(),
{
    lemma_max_bounds(cells);
    let g = merged_grid(cells);
    let t = merge_spec(cells, page, table_index);
    assert(cells[0].row <= max_row(cells));
    assert forall|r: int, c: int|
        0 <= r <= max_row(cells) && 0 <= c <= max_col(cells) implies #[trigger] table_at(t, r, c)
        == cell_value(cells, r, c) by {
        if r > 0 {
            assert(t.rows[r - 1] == g[r]);
        }
    }
    assert forall|j: int|
        0 <= j < cells.len() && (forall|k: int|
            j < k < cells.len() ==> !((#[trigger] cells[k]).row == cells[j].row && cells[k].col
                == cells[j].col)) implies table_at(t, #[trigger] cells[j].row as int, cells[j].col as int)
        == join_nonblank(cells[j].texts) by {
        lemma_value_of_last_cell(cells, j);
    }
    assert forall|r: int, c: int|
        0 <= r <= max_row(cells) && 0 <= c <= max_col(cells) && (forall|k: int|
            0 <= k < cells.len() ==> !((#[trigger] cells[k]).row == r && cells[k].col == c))
            implies #[trigger] table_at(t, r, c) == Seq::<char>::empty() by {
        lemma_value_of_no_cell(cells, r, c);
    }
}


/// The words of the texts, text after text.
pub open spec fn words_of_texts(texts: Seq<Seq<char>>) -> Seq<Seq<char>>
    decreases texts.len(),
{
    if texts.len() == 0 {
        Seq::empty()
    } else {
        words_of_texts(texts.drop_last()) + words_spec(texts.last())
    }
}

/// Law: a cell's merged text holds the words of its texts, text after text,
/// and nothing else.
pub proof fn lemma_join_nonblank_words(texts: Seq<Seq<char>>)
    ensures
        words_spec(join_nonblank(texts)) == words_of_texts(texts),
    decreases texts.len(),
{
    if texts.len() > 0 {
        let d = texts.drop_last();
        lemma_join_nonblank_words(d);
        let a = join_nonblank(d);
        let v = trim_spec(texts.last());
        lemma_words_trim(texts.last());
        if v.len() == 0 {
            assert(words_spec(v) =~= Seq::<Seq<char>>::empty());
            assert(words_of_texts(d) + words_spec(texts.last()) =~= words_of_texts(d));
        } else if a.len() == 0 {
            assert(words_spec(a) =~= Seq::<Seq<char>>::empty());
            assert(words_of_texts(d) + words_spec(texts.last()) =~= words_spec(v));
        } else {
            lemma_words_concat(a, ' ', v);
        }
    }
}

} // verus!
