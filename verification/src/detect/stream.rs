//! Stream mode: tables from text positions, once the positions have been
//! grouped into rows and columns.

use vstd::prelude::*;

use crate::grid::{table_has_nonblank, table_nonblank};
use crate::text::{chars_of, lemma_words_concat, lemma_words_trim, words_spec, normalize_spec, normalize_whitespace, push_chars, string_of, trim, trim_spec};
use crate::{rows_view, strings_view, Table, TableView};

verus! {

/// Collapses the white space of a cell: words joined by single spaces.
pub fn normalize_cell(text: &str) -> (r: String)
    ensures
        r@ == normalize_spec(text@),
{
    let c = chars_of(text);
    let n = normalize_whitespace(&c);
    string_of(&n)
}

/// A row with each cell's white space collapsed.
pub open spec fn normalize_row(r: Seq<Seq<char>>) -> Seq<Seq<char>> {
    r.map_values(|c: Seq<char>| normalize_spec(c))
}

/// Some cell of the row is not empty.
pub open spec fn row_has_text(r: Seq<Seq<char>>) -> bool {
    exists|k: int| 0 <= k < r.len() && #[trigger] r[k].len() > 0
}

/// The normalized rows that hold some text, in order.
pub open spec fn retained_rows(g: Seq<Seq<Seq<char>>>) -> Seq<Seq<Seq<char>>>
    decreases g.len(),
{
    if g.len() == 0 {
        Seq::empty()
    } else {
        let a = retained_rows(g.drop_last());
        let r = normalize_row(g.last());
        if row_has_text(r) {
            a.push(r)
        } else {
            a
        }
    }
}

/// Some row has a non-empty cell in column `c`.
pub open spec fn column_used(g: Seq<Seq<Seq<char>>>, c: int) -> bool {
    exists|r: int| 0 <= r < g.len() && #[trigger] g[r][c].len() > 0
}

/// The columns below `k` that some row uses, in order.
pub open spec fn used_columns(g: Seq<Seq<Seq<char>>>, k: nat) -> Seq<int>
    decreases k,
{
    if k == 0 {
        Seq::empty()
    } else {
        let a = used_columns(g, (k - 1) as nat);
        if column_used(g, k - 1) {
            a.push(k - 1)
        } else {
            a
        }
    }
}

/// A grid with white space collapsed, empty rows dropped and then empty
/// columns dropped.
pub open spec fn trim_grid_spec(g: Seq<Seq<Seq<char>>>) -> Seq<Seq<Seq<char>>> {
    let n = retained_rows(g);
    if n.len() == 0 {
        n
    } else {
        let cols = used_columns(n, n[0].len());
        n.map_values(|r: Seq<Seq<char>>| cols.map_values(|c: int| r[c]))
    }
}

/// All rows have `width` cells.
pub open spec fn rectangular(g: Seq<Seq<Seq<char>>>, width: int) -> bool {
    forall|r: int| 0 <= r < g.len() ==> #[trigger] g[r].len() == width
}

proof fn lemma_retained_rectangular(g: Seq<Seq<Seq<char>>>, width: int)
    requires
        rectangular(g, width),
    ensures
        rectangular(retained_rows(g), width),
        retained_rows(g).len() <= g.len(),
    decreases g.len(),
{
    if g.len() > 0 {
        let t = g.drop_last();
        assert forall|r: int| 0 <= r < t.len() implies #[trigger] t[r].len() == width by {
            assert(t[r] == g[r]);
        }
        lemma_retained_rectangular(t, width);
        assert(g.last() == g[g.len() - 1]);
    }
}

proof fn lemma_used_columns_bounds(g: Seq<Seq<Seq<char>>>, k: nat)
    ensures
        used_columns(g, k).len() <= k,
        forall|j: int| 0 <= j < used_columns(g, k).len() ==> 0 <= #[trigger] used_columns(g, k)[j] < k,
    decreases k,
{
    if k > 0 {
        lemma_used_columns_bounds(g, (k - 1) as nat);
    }
}

fn normalize_row_exec(row: &Vec<String>) -> (r: (Vec<String>, bool))
    ensures
        strings_view(r.0@) == normalize_row(strings_view(row@)),
        r.1 == row_has_text(normalize_row(strings_view(row@))),
{
    let mut out: Vec<String> = Vec::new();
    let mut has = false;
    let mut j: usize = 0;
    while j < row.len()
        invariant
            j <= row.len(),
            strings_view(out@) == normalize_row(strings_view(row@)).take(j as int),
            has == row_has_text(normalize_row(strings_view(row@)).take(j as int)),
        decreases row.len() - j,
    {
        let cell = normalize_cell(row[j].as_str());
        let ghost nr = normalize_row(strings_view(row@));
        proof {
            assert(nr[j as int] == normalize_spec(row@[j as int]@));
            let pre = nr.take(j as int);
            let post = nr.take(j + 1);
            if row_has_text(post) {
                let k = choose|k: int| 0 <= k < post.len() && #[trigger] post[k].len() > 0;
                if k < j {
                    assert(pre[k] == post[k]);
                }
            }
            if row_has_text(pre) {
                let k = choose|k: int| 0 <= k < pre.len() && #[trigger] pre[k].len() > 0;
                assert(post[k] == pre[k]);
            }
            if cell@.len() > 0 {
                assert(post[j as int] == cell@);
            }
        }
        if !cell.as_str().is_empty() {
            has = true;
        }
        let ghost before = strings_view(out@);
        let ghost cv = cell@;
        out.push(cell);
        assert(strings_view(out@) =~= before.push(cv));
        assert(normalize_row(strings_view(row@)).take(j + 1) =~= normalize_row(
            strings_view(row@),
        ).take(j as int).push(cv));
        j += 1;
    }
    assert(normalize_row(strings_view(row@)).take(row.len() as int) =~= normalize_row(
        strings_view(row@),
    ));
    (out, has)
}

/// Every row is at least as long as the first.
pub open spec fn wide_enough(g: Seq<Seq<Seq<char>>>) -> bool {
    forall|r: int| 0 <= r < g.len() ==> #[trigger] g[r].len() >= g[0].len()
}

/// Normalizes every cell, drops the rows with no text and then the columns
/// with no text; the columns are those of the first row that keeps text.
pub fn trim_grid(grid: Vec<Vec<String>>) -> (r: Vec<Vec<String>>)
    requires
        wide_enough(retained_rows(rows_view(grid@))),
    ensures
        rows_view(r@) == trim_grid_spec(rows_view(grid@)),
{
    let ghost g = rows_view(grid@);
    let mut kept: Vec<Vec<String>> = Vec::new();
    let mut i: usize = 0;
    while i < grid.len()
        invariant
            i <= grid.len(),
            g == rows_view(grid@),
            rows_view(kept@) == retained_rows(g.take(i as int)),
        decreases grid.len() - i,
    {
        assert(g.take(i + 1).drop_last() =~= g.take(i as int));
        assert(g.take(i + 1).last() == strings_view(grid@[i as int]@));
        let (row, has) = normalize_row_exec(&grid[i]);
        if has {
            kept.push(row);
            assert(rows_view(kept@) =~= retained_rows(g.take(i + 1)));
        }
        i += 1;
    }
    assert(g.take(grid.len() as int) =~= g);
    let ghost n = retained_rows(g);
    if kept.len() == 0 {
        return kept;
    }
    let column_count = kept[0].len();
    assert(n[0] == strings_view(kept@[0]@));
    let mut cols: Vec<usize> = Vec::new();
    let mut c: usize = 0;
    while c < column_count
        invariant
            c <= column_count,
            column_count == n[0].len(),
            n == rows_view(kept@),
            wide_enough(n),
            n.len() > 0,
            cols@.map_values(|x: usize| x as int) == used_columns(n, c as nat),
        decreases column_count - c,
    {
        let mut used = false;
        let mut r: usize = 0;
        while r < kept.len()
            invariant
                r <= kept.len(),
                c < column_count,
                column_count == n[0].len(),
                n == rows_view(kept@),
                wide_enough(n),
                used == exists|q: int| 0 <= q < r && #[trigger] n[q][c as int].len() > 0,
            decreases kept.len() - r,
        {
            assert(n[r as int] == strings_view(kept@[r as int]@));
            assert(n[r as int].len() >= n[0].len());
            if !kept[r][c].as_str().is_empty() {
                assert(n[r as int][c as int] == kept@[r as int]@[c as int]@);
                used = true;
            }
            proof {
                if !(kept@[r as int]@[c as int]@.len() > 0) {
                    assert(n[r as int][c as int] == kept@[r as int]@[c as int]@);
                }
            }
            r += 1;
        }
        if used {
            cols.push(c);
        }
        c += 1;
        assert(cols@.map_values(|x: usize| x as int) =~= used_columns(n, c as nat));
    }
    let ghost colsv = used_columns(n, column_count as nat);
    proof {
        lemma_used_columns_bounds(n, column_count as nat);
    }
    let mut out: Vec<Vec<String>> = Vec::new();
    let mut i: usize = 0;
    while i < kept.len()
        invariant
            i <= kept.len(),
            n == rows_view(kept@),
            wide_enough(n),
            n.len() > 0,
            column_count == n[0].len(),
            colsv == used_columns(n, column_count as nat),
            cols@.map_values(|x: usize| x as int) == colsv,
            forall|j: int| 0 <= j < colsv.len() ==> 0 <= #[trigger] colsv[j] < column_count,
            rows_view(out@) == n.take(i as int).map_values(
                |r: Seq<Seq<char>>| colsv.map_values(|c: int| r[c]),
            ),
        decreases kept.len() - i,
    {
        let mut row: Vec<String> = Vec::new();
        let mut k: usize = 0;
        assert(n[i as int] == strings_view(kept@[i as int]@));
        assert(n[i as int].len() >= n[0].len());
        while k < cols.len()
            invariant
                k <= cols.len(),
                i < kept.len(),
                n == rows_view(kept@),
                n[i as int].len() >= column_count,
                cols@.map_values(|x: usize| x as int) == colsv,
                forall|j: int| 0 <= j < colsv.len() ==> 0 <= #[trigger] colsv[j] < column_count,
                strings_view(row@) == colsv.take(k as int).map_values(|c: int| n[i as int][c]),
            decreases cols.len() - k,
        {
            let col = cols[k];
            assert(colsv[k as int] == col as int);
            assert(n[i as int][col as int] == kept@[i as int]@[col as int]@);
            let cell = kept[i][col].clone();
            let ghost before = strings_view(row@);
            let ghost cv = cell@;
            assert(cv == n[i as int][col as int]);
            row.push(cell);
            assert(strings_view(row@) =~= before.push(cv));
            assert(colsv.take(k + 1).map_values(|c: int| n[i as int][c]) =~= colsv.take(
                k as int,
            ).map_values(|c: int| n[i as int][c]).push(cv));
            k += 1;
        }
        assert(colsv.len() == cols@.len());
        assert(colsv.take(cols.len() as int) =~= colsv);
        let ghost before = rows_view(out@);
        let ghost rv = strings_view(row@);
        assert(rv == colsv.map_values(|c: int| n[i as int][c]));
        out.push(row);
        assert(rows_view(out@) =~= before.push(rv));
        assert(n.take(i + 1).map_values(|r: Seq<Seq<char>>| colsv.map_values(|c: int| r[c]))
            =~= n.take(i as int).map_values(|r: Seq<Seq<char>>| colsv.map_values(|c: int| r[c])).push(
            rv,
        ));
        i += 1;
    }
    assert(n.take(kept.len() as int) =~= n);
    out
}


proof fn lemma_retained_have_text(g: Seq<Seq<Seq<char>>>)
    ensures
        forall|r: int| 0 <= r < retained_rows(g).len() ==> row_has_text(#[trigger] retained_rows(g)[r]),
    decreases g.len(),
{
    if g.len() > 0 {
        lemma_retained_have_text(g.drop_last());
        let a = retained_rows(g.drop_last());
        let r = normalize_row(g.last());
        if row_has_text(r) {
            assert forall|q: int| 0 <= q < a.push(r).len() implies row_has_text(#[trigger] a.push(r)[q]) by {
                if q < a.len() {
                    assert(a.push(r)[q] == a[q]);
                }
            }
        }
    }
}

proof fn lemma_used_columns_exact(n: Seq<Seq<Seq<char>>>, w: nat)
    ensures
        forall|j: int| 0 <= j < used_columns(n, w).len() ==> column_used(n, #[trigger] used_columns(n, w)[j]),
        forall|c: int| 0 <= c < w && column_used(n, c) ==> #[trigger] used_columns(n, w).contains(c),
    decreases w,
{
    if w > 0 {
        let w1 = (w - 1) as nat;
        lemma_used_columns_exact(n, w1);
        let a = used_columns(n, w1);
        if column_used(n, w - 1) {
            let b = a.push(w - 1);
            assert forall|j: int| 0 <= j < b.len() implies column_used(n, #[trigger] b[j]) by {
                if j < a.len() {
                    assert(b[j] == a[j]);
                }
            }
            assert forall|c: int| 0 <= c < w && column_used(n, c) implies #[trigger] b.contains(c) by {
                if c < w - 1 {
                    assert(a.contains(c));
                    let q = choose|q: int| 0 <= q < a.len() && a[q] == c;
                    assert(b[q] == c);
                } else {
                    assert(b[a.len() as int] == c);
                }
            }
        }
    }
}

/// Law: a trimmed grid has no row without text and no column without text,
/// and all its rows are as long.
pub proof fn lemma_trim_grid_clean(g: Seq<Seq<Seq<char>>>, width: int)
    requires
        rectangular(g, width),
    ensures
        forall|r: int| 0 <= r < trim_grid_spec(g).len() ==> row_has_text(#[trigger] trim_grid_spec(g)[r]),
        trim_grid_spec(g).len() > 0 ==> rectangular(trim_grid_spec(g), trim_grid_spec(g)[0].len() as int),
        trim_grid_spec(g).len() > 0 ==> forall|c: int|
            0 <= c < trim_grid_spec(g)[0].len() ==> #[trigger] column_used(trim_grid_spec(g), c),
{
    let n = retained_rows(g);
    lemma_retained_have_text(g);
    lemma_retained_rectangular(g, width);
    if n.len() > 0 {
        let w = n[0].len();
        let cols = used_columns(n, w);
        lemma_used_columns_exact(n, w);
        lemma_used_columns_bounds(n, w);
        let t = trim_grid_spec(g);
        assert(t == n.map_values(|r: Seq<Seq<char>>| cols.map_values(|c: int| r[c])));
        assert forall|r: int| 0 <= r < t.len() implies row_has_text(#[trigger] t[r]) by {
            assert(row_has_text(n[r]));
            let k = choose|k: int| 0 <= k < n[r].len() && #[trigger] n[r][k].len() > 0;
            assert(n[r].len() == w);
            assert(column_used(n, k));
            assert(cols.contains(k));
            let j = choose|j: int| 0 <= j < cols.len() && cols[j] == k;
            assert(t[r][j] == n[r][k]);
        }
        assert forall|c: int| 0 <= c < t[0].len() implies #[trigger] column_used(t, c) by {
            assert(column_used(n, cols[c]));
            let r = choose|r: int| 0 <= r < n.len() && #[trigger] n[r][cols[c]].len() > 0;
            assert(t[r][c] == n[r][cols[c]]);
        }
        assert forall|r: int| 0 <= r < t.len() implies #[trigger] t[r].len() == t[0].len() by {
        }
    }
}

/// Fewest rows of a table.
pub const MIN_TABLE_ROWS: usize = 2;

/// Fewest columns of a table.
pub const MIN_TABLE_COLS: usize = 2;

/// A text placed in a column of a row.
pub struct Placement {
    /// The column whose center is nearest to the text's center.
    pub col: usize,
    /// The text.
    pub text: String,
}

/// A placement as plain values.
pub struct PlacementView {
    pub col: int,
    pub text: Seq<char>,
}

impl View for Placement {
    type V = PlacementView;

    open spec fn view(&self) -> PlacementView {
        PlacementView { col: self.col as int, text: self.text@ }
    }
}

/// The views of a row of placements.
pub open spec fn placements_view(v: Seq<Placement>) -> Seq<PlacementView> {
    v.map_values(|p: Placement| p@)
}

/// The views of rows of placements.
pub open spec fn placement_rows_view(v: Seq<Vec<Placement>>) -> Seq<Seq<PlacementView>> {
    v.map_values(|r: Vec<Placement>| placements_view(r@))
}

/// The text of column `c`: the trimmed, non-blank texts placed there, in
/// order, separated by single spaces.
pub open spec fn placed_cell(ps: Seq<PlacementView>, c: int) -> Seq<char>
    decreases ps.len(),
{
    if ps.len() == 0 {
        Seq::empty()
    } else {
        let a = placed_cell(ps.drop_last(), c);
        let v = trim_spec(ps.last().text);
        if ps.last().col != c || v.len() == 0 {
            a
        } else if a.len() == 0 {
            v
        } else {
            a + seq![' '] + v
        }
    }
}

/// The grid that placing the texts gives.
pub open spec fn placed_grid(rows: Seq<Seq<PlacementView>>, ncols: int) -> Seq<Seq<Seq<char>>> {
    Seq::new(rows.len(), |r: int| Seq::new(ncols as nat, |c: int| placed_cell(rows[r], c)))
}

/// The number of non-empty cells of a grid.
pub open spec fn grid_nonempty(g: Seq<Seq<Seq<char>>>) -> nat
    decreases g.len(),
{
    if g.len() == 0 {
        0
    } else {
        grid_nonempty(g.drop_last()) + row_nonempty(g.last())
    }
}

/// The number of non-empty cells of a row.
pub open spec fn row_nonempty(r: Seq<Seq<char>>) -> nat
    decreases r.len(),
{
    if r.len() == 0 {
        0
    } else {
        row_nonempty(r.drop_last()) + if r.last().len() > 0 {
            1nat
        } else {
            0nat
        }
    }
}

/// The table that rows of placed texts make: none with fewer than two rows or
/// columns, or when, once trimmed, fewer than two rows, two columns or four
/// non-empty cells are left.
pub open spec fn build_table_spec(
    rows: Seq<Seq<PlacementView>>,
    ncols: int,
    page: u32,
    table_index: usize,
) -> Option<TableView> {
    if rows.len() < MIN_TABLE_ROWS || ncols < MIN_TABLE_COLS {
        None
    } else {
        let g = trim_grid_spec(placed_grid(rows, ncols));
        if g.len() < MIN_TABLE_ROWS || g[0].len() < MIN_TABLE_COLS || grid_nonempty(g)
            < MIN_TABLE_ROWS + MIN_TABLE_COLS {
            None
        } else {
            Some(TableView { page, table_index, headers: g[0], rows: g.drop_first() })
        }
    }
}

fn cell_of(row: &Vec<Placement>, c: usize) -> (s: String)
    ensures
        s@ == placed_cell(placements_view(row@), c as int),
{
    let ghost ps = placements_view(row@);
    let mut out: Vec<char> = Vec::new();
    let mut k: usize = 0;
    while k < row.len()
        invariant
            k <= row.len(),
            ps == placements_view(row@),
            out@ == placed_cell(ps.take(k as int), c as int),
        decreases row.len() - k,
    {
        assert(ps.take(k + 1).drop_last() =~= ps.take(k as int));
        assert(ps.take(k + 1).last() == row@[k as int]@);
        if row[k].col == c {
            let t = chars_of(row[k].text.as_str());
            let v = trim(&t);
            if v.len() > 0 {
                if out.len() > 0 {
                    out.push(' ');
                }
                let ghost before = out@;
                let mut q: usize = 0;
                while q < v.len()
                    invariant
                        q <= v.len(),
                        out@ == before + v@.take(q as int),
                    decreases v.len() - q,
                {
                    out.push(v[q]);
                    q += 1;
                    assert(out@ =~= before + v@.take(q as int));
                }
                assert(v@.take(v.len() as int) =~= v@);
            }
        }
        k += 1;
    }
    assert(ps.take(row.len() as int) =~= ps);
    string_of(&out)
}

proof fn lemma_grid_nonempty_prefix(g: Seq<Seq<Seq<char>>>, k: int)
    requires
        0 <= k <= g.len(),
    ensures
        grid_nonempty(g.take(k)) <= grid_nonempty(g),
    decreases g.len() - k,
{
    if k < g.len() {
        lemma_grid_nonempty_prefix(g, k + 1);
        assert(g.take(k + 1).drop_last() =~= g.take(k));
    } else {
        assert(g.take(k) =~= g);
    }
}

proof fn lemma_row_nonempty_prefix(r: Seq<Seq<char>>, k: int)
    requires
        0 <= k <= r.len(),
    ensures
        row_nonempty(r.take(k)) <= row_nonempty(r),
    decreases r.len() - k,
{
    if k < r.len() {
        lemma_row_nonempty_prefix(r, k + 1);
        assert(r.take(k + 1).drop_last() =~= r.take(k));
    } else {
        assert(r.take(k) =~= r);
    }
}

/// Whether a grid has at least `k` non-empty cells (with `k > 0`).
fn grid_has_nonempty(g: &Vec<Vec<String>>, k: usize) -> (b: bool)
    requires
        k > 0,
    ensures
        b == (grid_nonempty(rows_view(g@)) >= k),
{
    let ghost all = rows_view(g@);
    let mut n: usize = 0;
    let mut i: usize = 0;
    while i < g.len()
        invariant
            i <= g.len(),
            all == rows_view(g@),
            n == grid_nonempty(all.take(i as int)),
            n < k,
        decreases g.len() - i,
    {
        let ghost row = all[i as int];
        assert(all.take(i + 1).drop_last() =~= all.take(i as int));
        assert(all.take(i + 1).last() == row);
        assert(row == strings_view(g@[i as int]@));
        let mut m: usize = 0;
        let mut j: usize = 0;
        while j < g[i].len()
            invariant
                i < g.len(),
                j <= g@[i as int].len(),
                row == strings_view(g@[i as int]@),
                all == rows_view(g@),
                n == grid_nonempty(all.take(i as int)),
                all.take(i + 1).drop_last() == all.take(i as int),
                all.take(i + 1).last() == row,
                m == row_nonempty(row.take(j as int)),
                n + m < k,
            decreases g@[i as int].len() - j,
        {
            assert(row.take(j + 1).drop_last() =~= row.take(j as int));
            assert(row.take(j + 1).last() == g@[i as int]@[j as int]@);
            if !g[i][j].as_str().is_empty() {
                m += 1;
            }
            j += 1;
            if n + m == k {
                proof {
                    lemma_row_nonempty_prefix(row, j as int);
                    assert(grid_nonempty(all.take(i + 1)) >= k);
                    lemma_grid_nonempty_prefix(all, i + 1);
                }
                return true;
            }
        }
        assert(row.take(g@[i as int].len() as int) =~= row);
        n = n + m;
        i += 1;
    }
    assert(all.take(g.len() as int) =~= all);
    false
}

/// Builds the table of rows of placed texts, or none when too little of a
/// table is there.
pub fn build_table(rows: &Vec<Vec<Placement>>, column_count: usize, page: u32, table_index: usize) -> (r: Option<Table>)
    requires
        forall|i: int, k: int|
            0 <= i < rows.len() && 0 <= k < rows@[i].len() ==> #[trigger] rows@[i]@[k].col < column_count,
    ensures
        match r {
            Some(t) => build_table_spec(placement_rows_view(rows@), column_count as int, page, table_index) == Some(t@),
            None => build_table_spec(placement_rows_view(rows@), column_count as int, page, table_index) is None,
        },
{
    if rows.len() < MIN_TABLE_ROWS || column_count < MIN_TABLE_COLS {
        return None;
    }
    let ghost pr = placement_rows_view(rows@);
    let ghost target = placed_grid(pr, column_count as int);
    let mut grid: Vec<Vec<String>> = Vec::new();
    let mut i: usize = 0;
    while i < rows.len()
        invariant
            i <= rows.len(),
            pr == placement_rows_view(rows@),
            target == placed_grid(pr, column_count as int),
            rows_view(grid@) == target.take(i as int),
        decreases rows.len() - i,
    {
        let mut row: Vec<String> = Vec::new();
        let mut c: usize = 0;
        while c < column_count
            invariant
                c <= column_count,
                i < rows.len(),
                pr == placement_rows_view(rows@),
                strings_view(row@) == target[i as int].take(c as int),
                target == placed_grid(pr, column_count as int),
            decreases column_count - c,
        {
            let s = cell_of(&rows[i], c);
            let ghost before = strings_view(row@);
            let ghost sv = s@;
            assert(sv == target[i as int][c as int]);
            row.push(s);
            assert(strings_view(row@) =~= before.push(sv));
            assert(target[i as int].take(c + 1) =~= target[i as int].take(c as int).push(sv));
            c += 1;
        }
        assert(target[i as int].take(column_count as int) =~= target[i as int]);
        let ghost before = rows_view(grid@);
        let ghost rv = strings_view(row@);
        grid.push(row);
        assert(rows_view(grid@) =~= before.push(rv));
        assert(target.take(i + 1) =~= target.take(i as int).push(rv));
        i += 1;
    }
    assert(target.take(rows.len() as int) =~= target);
    assert(rectangular(rows_view(grid@), column_count as int));
    proof {
        lemma_retained_rectangular(rows_view(grid@), column_count as int);
    }
    let mut g = trim_grid(grid);
    let ghost tg = trim_grid_spec(target);
    if g.len() < MIN_TABLE_ROWS {
        return None;
    }
    assert(tg[0] == strings_view(g@[0]@));
    if g[0].len() < MIN_TABLE_COLS {
        return None;
    }
    if !grid_has_nonempty(&g, MIN_TABLE_ROWS + MIN_TABLE_COLS) {
        return None;
    }
    let headers = g.remove(0);
    assert(rows_view(g@) =~= tg.drop_first());
    Some(Table { page, table_index, headers, rows: g })
}

/// The tables of a page in stream mode: the two halves of a split, when there
/// is one and each half is a table with at least 8 non-blank cells; else the
/// table of all rows, if any.
pub fn choose_tables(split: Option<(Option<Table>, Option<Table>)>, whole: Option<Table>) -> (r: Vec<Table>)
    ensures
        (match split {
            Some((Some(top), Some(bottom))) => table_nonblank(top@) >= 8 && table_nonblank(bottom@) >= 8,
            _ => false,
        }) ==> (match split {
            Some((Some(top), Some(bottom))) => r@ == seq![top, bottom],
            _ => false,
        }),
        !(match split {
            Some((Some(top), Some(bottom))) => table_nonblank(top@) >= 8 && table_nonblank(bottom@) >= 8,
            _ => false,
        }) ==> r@ == (match whole {
            Some(t) => seq![t],
            None => Seq::<Table>::empty(),
        }),
{
    if let Some((Some(top), Some(bottom))) = split {
        if table_has_nonblank(&top, 8) && table_has_nonblank(&bottom, 8) {
            let mut v: Vec<Table> = Vec::new();
            v.push(top);
            v.push(bottom);
            return v;
        }
    }
    let mut v: Vec<Table> = Vec::new();
    if let Some(t) = whole {
        v.push(t);
    }
    v
}


/// The grid with each cell's white space collapsed.
pub open spec fn normalize_grid(g: Seq<Seq<Seq<char>>>) -> Seq<Seq<Seq<char>>> {
    g.map_values(|r: Seq<Seq<char>>| normalize_row(r))
}

proof fn lemma_row_without_text(r: Seq<Seq<char>>)
    requires
        !row_has_text(r),
    ensures
        row_nonempty(r) == 0,
    decreases r.len(),
{
    if r.len() > 0 {
        let d = r.drop_last();
        assert(!row_has_text(d)) by {
            if row_has_text(d) {
                let k = choose|k: int| 0 <= k < d.len() && #[trigger] d[k].len() > 0;
                assert(r[k] == d[k]);
            }
        }
        lemma_row_without_text(d);
        assert(r[r.len() - 1] == r.last());
    }
}

proof fn lemma_retained_count(g: Seq<Seq<Seq<char>>>)
    ensures
        grid_nonempty(retained_rows(g)) == grid_nonempty(normalize_grid(g)),
    decreases g.len(),
{
    if g.len() > 0 {
        let d = g.drop_last();
        lemma_retained_count(d);
        assert(normalize_grid(g).drop_last() =~= normalize_grid(d));
        assert(normalize_grid(g).last() == normalize_row(g.last()));
        let r = normalize_row(g.last());
        if !row_has_text(r) {
            lemma_row_without_text(r);
        } else {
            assert(retained_rows(g).drop_last() =~= retained_rows(d));
        }
    }
}

proof fn lemma_selected_row_count(n: Seq<Seq<Seq<char>>>, i: int, w: nat, k: nat)
    requires
        0 <= i < n.len(),
        n[i].len() == w,
        k <= w,
    ensures
        row_nonempty(used_columns(n, k).map_values(|c: int| n[i][c])) == row_nonempty(
            n[i].take(k as int),
        ),
    decreases k,
{
    let r = n[i];
    if k == 0 {
        assert(used_columns(n, k).map_values(|c: int| r[c]) =~= Seq::<Seq<char>>::empty());
        assert(r.take(0) =~= Seq::<Seq<char>>::empty());
    } else {
        lemma_selected_row_count(n, i, w, (k - 1) as nat);
        let a = used_columns(n, (k - 1) as nat);
        assert(r.take(k as int).drop_last() =~= r.take(k - 1));
        assert(r.take(k as int).last() == r[k - 1]);
        if column_used(n, k - 1) {
            assert(used_columns(n, k).map_values(|c: int| r[c]) =~= a.map_values(|c: int| r[c]).push(
                r[k - 1],
            ));
            assert(used_columns(n, k).map_values(|c: int| r[c]).drop_last() =~= a.map_values(
                |c: int| r[c],
            ));
        } else {
            assert(r[k - 1].len() == 0) by {
                if r[k - 1].len() > 0 {
                    assert(n[i][k - 1].len() > 0);
                }
            }
        }
    }
}

proof fn lemma_selected_grid_count(n: Seq<Seq<Seq<char>>>, m: Seq<Seq<Seq<char>>>)
    requires
        n.len() == m.len(),
        forall|i: int| 0 <= i < n.len() ==> row_nonempty(#[trigger] m[i]) == row_nonempty(n[i]),
    ensures
        grid_nonempty(m) == grid_nonempty(n),
    decreases n.len(),
{
    if n.len() > 0 {
        let dn = n.drop_last();
        let dm = m.drop_last();
        assert forall|i: int| 0 <= i < dn.len() implies row_nonempty(#[trigger] dm[i]) == row_nonempty(
            dn[i],
        ) by {
            assert(dm[i] == m[i] && dn[i] == n[i]);
        }
        lemma_selected_grid_count(dn, dm);
        assert(m[m.len() - 1] == m.last() && n[n.len() - 1] == n.last());
    }
}

/// Law: trimming a grid loses no text: the trimmed grid has as many
/// non-empty cells as the grid has once its white space is collapsed.
pub proof fn lemma_trim_grid_keeps_text(g: Seq<Seq<Seq<char>>>, width: int)
    requires
        rectangular(g, width),
    ensures
        grid_nonempty(trim_grid_spec(g)) == grid_nonempty(normalize_grid(g)),
{
    let n = retained_rows(g);
    lemma_retained_count(g);
    lemma_retained_rectangular(g, width);
    if n.len() > 0 {
        let w = n[0].len();
        let cols = used_columns(n, w);
        let t = trim_grid_spec(g);
        assert forall|i: int| 0 <= i < n.len() implies row_nonempty(#[trigger] t[i]) == row_nonempty(
            n[i],
        ) by {
            assert(n[i].len() == w);
            lemma_selected_row_count(n, i, w, w);
            assert(n[i].take(w as int) =~= n[i]);
            assert(t[i] == cols.map_values(|c: int| n[i][c]));
        }
        lemma_selected_grid_count(n, t);
    }
}


/// Law: a table built from placed texts has at least two columns, at least
/// one data row, every data row as wide as the header row, and all the text
/// that was placed: as many non-empty cells as the placed grid has once its
/// white space is collapsed, and at least four of them.
pub proof fn lemma_build_table_keeps_text(
    rows: Seq<Seq<PlacementView>>,
    ncols: int,
    page: u32,
    table_index: usize,
)
    requires
        ncols >= 0,
    ensures
        build_table_spec(rows, ncols, page, table_index) matches Some(t) ==> {
            &&& t.headers.len() >= 2
            &&& t.rows.len() >= 1
            &&& forall|r: int| 0 <= r < t.rows.len() ==> (#[trigger] t.rows[r]).len() == t.headers.len()
            &&& grid_nonempty(seq![t.headers] + t.rows) == grid_nonempty(
                normalize_grid(placed_grid(rows, ncols)),
            )
            &&& grid_nonempty(seq![t.headers] + t.rows) >= 4
        },
{
    let pg = placed_grid(rows, ncols);
    assert(rectangular(pg, ncols));
    if build_table_spec(rows, ncols, page, table_index) is Some {
        let g = trim_grid_spec(pg);
        lemma_trim_grid_clean(pg, ncols);
        lemma_trim_grid_keeps_text(pg, ncols);
        let t = build_table_spec(rows, ncols, page, table_index)->0;
        assert(seq![t.headers] + t.rows =~= g);
        assert forall|r: int| 0 <= r < t.rows.len() implies (#[trigger] t.rows[r]).len() == t.headers.len() by {
            assert(t.rows[r] == g[r + 1]);
        }
    }
}


/// The words of the texts placed in column `c`, text after text.
pub open spec fn placed_words(ps: Seq<PlacementView>, c: int) -> Seq<Seq<char>>
    decreases ps.len(),
{
    if ps.len() == 0 {
        Seq::empty()
    } else if ps.last().col == c {
        placed_words(ps.drop_last(), c) + words_spec(ps.last().text)
    } else {
        placed_words(ps.drop_last(), c)
    }
}

/// Law: the text of a column holds the words of the texts placed there,
/// text after text, and nothing else.
pub proof fn lemma_placed_cell_words(ps: Seq<PlacementView>, c: int)
    ensures
        words_spec(placed_cell(ps, c)) == placed_words(ps, c),
    decreases ps.len(),
{
    if ps.len() > 0 {
        let d = ps.drop_last();
        lemma_placed_cell_words(d, c);
        let a = placed_cell(d, c);
        let v = trim_spec(ps.last().text);
        lemma_words_trim(ps.last().text);
        if ps.last().col != c {
        } else if v.len() == 0 {
            assert(words_spec(v) =~= Seq::<Seq<char>>::empty());
            assert(placed_words(d, c) + words_spec(ps.last().text) =~= placed_words(d, c));
        } else if a.len() == 0 {
            assert(words_spec(a) =~= Seq::<Seq<char>>::empty());
            assert(placed_words(d, c) + words_spec(ps.last().text) =~= words_spec(v));
        } else {
            lemma_words_concat(a, ' ', v);
        }
    }
}

} // verus!
