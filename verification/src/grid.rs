//! Counting over cells of tables.

use vstd::prelude::*;

use crate::text::{chars_of, trim, trim_spec};
use crate::{strings_view, Table, TableView};

verus! {

/// The number of cells that hold more than white space.
pub open spec fn nonblank_count(cells: Seq<Seq<char>>) -> nat
    decreases cells.len(),
{
    if cells.len() == 0 {
        0
    } else {
        nonblank_count(cells.drop_last()) + if trim_spec(cells.last()).len() > 0 {
            1nat
        } else {
            0nat
        }
    }
}

/// The number of cells over all rows that hold more than white space.
pub open spec fn rows_nonblank(rows: Seq<Seq<Seq<char>>>) -> nat
    decreases rows.len(),
{
    if rows.len() == 0 {
        0
    } else {
        rows_nonblank(rows.drop_last()) + nonblank_count(rows.last())
    }
}

/// The number of cells over all rows.
pub open spec fn cell_total(rows: Seq<Seq<Seq<char>>>) -> nat
    decreases rows.len(),
{
    if rows.len() == 0 {
        0
    } else {
        cell_total(rows.drop_last()) + rows.last().len()
    }
}

/// The header row followed by the data rows.
pub open spec fn table_cells(t: TableView) -> Seq<Seq<Seq<char>>> {
    seq![t.headers] + t.rows
}

/// The number of cells of a table that hold more than white space.
pub open spec fn table_nonblank(t: TableView) -> nat {
    rows_nonblank(table_cells(t))
}

/// The number of cells of a table.
pub open spec fn table_total(t: TableView) -> nat {
    cell_total(table_cells(t))
}

proof fn lemma_nonblank_bounded(cells: Seq<Seq<char>>)
    ensures
        nonblank_count(cells) <= cells.len(),
    decreases cells.len(),
{
    if cells.len() > 0 {
        lemma_nonblank_bounded(cells.drop_last());
    }
}

/// Counts the cells that hold more than white space.
pub fn count_nonblank(cells: &Vec<String>) -> (n: usize)
    ensures
        n == nonblank_count(strings_view(cells@)),
{
    let ghost all = strings_view(cells@);
    let mut n: usize = 0;
    let mut i: usize = 0;
    while i < cells.len()
        invariant
            i <= cells.len(),
            all == strings_view(cells@),
            n == nonblank_count(all.take(i as int)),
            n <= i,
        decreases cells.len() - i,
    {
        assert(all.take(i + 1).drop_last() =~= all.take(i as int));
        assert(all.take(i + 1).last() == cells@[i as int]@);
        let c = chars_of(cells[i].as_str());
        let t = trim(&c);
        if t.len() > 0 {
            n += 1;
        }
        i += 1;
    }
    assert(all.take(cells.len() as int) =~= all);
    n
}

pub proof fn lemma_rows_nonblank_bounded(rows: Seq<Seq<Seq<char>>>)
    ensures
        rows_nonblank(rows) <= cell_total(rows),
    decreases rows.len(),
{
    if rows.len() > 0 {
        lemma_rows_nonblank_bounded(rows.drop_last());
        lemma_nonblank_bounded(rows.last());
    }
}

/// Counts the cells of a table, header row included, that hold more than
/// white space.
pub fn table_non_empty_cells(table: &Table) -> (n: usize)
    requires
        table_total(table@) <= usize::MAX,
    ensures
        n == table_nonblank(table@),
{
    let ghost all = table_cells(table@);
    let mut n: usize = count_nonblank(&table.headers);
    assert(all.take(1).drop_last() =~= Seq::<Seq<Seq<char>>>::empty());
    assert(all.take(1).last() == strings_view(table.headers@));
    assert(rows_nonblank(all.take(1).drop_last()) == 0);
    assert(rows_nonblank(all.take(1)) == nonblank_count(strings_view(table.headers@)));
    proof {
        lemma_rows_nonblank_bounded(all.take(1));
        lemma_cell_total_prefix(all, 1);
    }
    let mut i: usize = 0;
    while i < table.rows.len()
        invariant
            i <= table.rows.len(),
            all == table_cells(table@),
            all.len() == table.rows.len() + 1,
            cell_total(all) <= usize::MAX,
            n == rows_nonblank(all.take(i + 1)),
            n <= cell_total(all.take(i + 1)),
        decreases table.rows.len() - i,
    {
        let ghost pre = all.take(i + 1);
        let ghost post = all.take(i + 2);
        assert(post.drop_last() =~= pre);
        assert(post.last() == strings_view(table.rows@[i as int]@));
        proof {
            lemma_cell_total_prefix(all, i + 2);
            lemma_rows_nonblank_bounded(post);
        }
        let k = count_nonblank(&table.rows[i]);
        n = n + k;
        i += 1;
    }
    assert(all.take(table.rows.len() + 1) =~= all);
    n
}

proof fn lemma_cell_total_prefix(rows: Seq<Seq<Seq<char>>>, k: int)
    requires
        0 <= k <= rows.len(),
    ensures
        cell_total(rows.take(k)) <= cell_total(rows),
    decreases rows.len() - k,
{
    if k < rows.len() {
        lemma_cell_total_prefix(rows, k + 1);
        assert(rows.take(k + 1).drop_last() =~= rows.take(k));
    } else {
        assert(rows.take(k) =~= rows);
    }
}


proof fn lemma_nonblank_prefix(cells: Seq<Seq<char>>, k: int)
    requires
        0 <= k <= cells.len(),
    ensures
        nonblank_count(cells.take(k)) <= nonblank_count(cells),
    decreases cells.len() - k,
{
    if k < cells.len() {
        lemma_nonblank_prefix(cells, k + 1);
        assert(cells.take(k + 1).drop_last() =~= cells.take(k));
    } else {
        assert(cells.take(k) =~= cells);
    }
}

proof fn lemma_rows_nonblank_prefix(rows: Seq<Seq<Seq<char>>>, k: int)
    requires
        0 <= k <= rows.len(),
    ensures
        rows_nonblank(rows.take(k)) <= rows_nonblank(rows),
    decreases rows.len() - k,
{
    if k < rows.len() {
        lemma_rows_nonblank_prefix(rows, k + 1);
        assert(rows.take(k + 1).drop_last() =~= rows.take(k));
    } else {
        assert(rows.take(k) =~= rows);
    }
}

/// Whether at least `k` cells of a row hold more than white space.
pub fn row_has_nonblank(cells: &Vec<String>, k: usize) -> (r: (bool, usize))
    ensures
        r.0 ==> r.1 == k && nonblank_count(strings_view(cells@)) >= k,
        !r.0 ==> r.1 == nonblank_count(strings_view(cells@)) && r.1 < k,
{
    let ghost all = strings_view(cells@);
    let mut n: usize = 0;
    let mut i: usize = 0;
    if k == 0 {
        return (true, 0);
    }
    while i < cells.len()
        invariant
            i <= cells.len(),
            all == strings_view(cells@),
            n == nonblank_count(all.take(i as int)),
            n < k,
        decreases cells.len() - i,
    {
        assert(all.take(i + 1).drop_last() =~= all.take(i as int));
        assert(all.take(i + 1).last() == cells@[i as int]@);
        let c = chars_of(cells[i].as_str());
        let t = trim(&c);
        if t.len() > 0 {
            n += 1;
        }
        i += 1;
        if n == k {
            proof {
                lemma_nonblank_prefix(all, i as int);
            }
            return (true, k);
        }
    }
    assert(all.take(cells.len() as int) =~= all);
    (false, n)
}

/// Whether at least `k` cells of a table, header row included, hold more
/// than white space.
pub fn table_has_nonblank(table: &Table, k: usize) -> (b: bool)
    ensures
        b == (table_nonblank(table@) >= k),
{
    let ghost all = table_cells(table@);
    assert(all.take(1).drop_last() =~= Seq::<Seq<Seq<char>>>::empty());
    assert(all.take(1).last() == strings_view(table.headers@));
    assert(rows_nonblank(all.take(1).drop_last()) == 0);
    let (done, mut n) = row_has_nonblank(&table.headers, k);
    if done {
        proof {
            lemma_rows_nonblank_prefix(all, 1);
        }
        return true;
    }
    let mut i: usize = 0;
    while i < table.rows.len()
        invariant
            i <= table.rows.len(),
            all == table_cells(table@),
            all.len() == table.rows.len() + 1,
            n == rows_nonblank(all.take(i + 1)),
            n < k,
        decreases table.rows.len() - i,
    {
        let ghost pre = all.take(i + 1);
        let ghost post = all.take(i + 2);
        assert(post.drop_last() =~= pre);
        assert(post.last() == strings_view(table.rows@[i as int]@));
        let (done, m) = row_has_nonblank(&table.rows[i], k - n);
        if done {
            proof {
                lemma_rows_nonblank_prefix(all, i + 2);
            }
            return true;
        }
        n = n + m;
        i += 1;
    }
    assert(all.take(table.rows.len() + 1) =~= all);
    false
}

} // verus!
