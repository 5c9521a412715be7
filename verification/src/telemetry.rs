//! What extraction events record: the names of the options, the error codes,
//! and the per-page counts.

use vstd::prelude::*;

use crate::detect::dl::{tables_nonblank, tables_total};
use crate::detect::lattice::{sorted_distinct, strictly_increasing};
use crate::grid::{table_non_empty_cells, table_nonblank, table_total};
use crate::{dl_fallback_label, parse_mode_label, tables_view, DlFallbackMode, ParseMode, Table, TableView, TrexError};

verus! {

/// The name of a parsing mode in events.
pub fn parse_mode_name(mode: ParseMode) -> (s: &'static str)
    ensures
        s@ == (match mode {
            ParseMode::Lattice => "lattice"@,
            ParseMode::Stream => "stream"@,
            ParseMode::Dl => "dl"@,
            ParseMode::Auto => "auto"@,
        }),
        s@ == parse_mode_label(mode),
{
    proof {
        reveal_strlit("lattice");
        reveal_strlit("stream");
        reveal_strlit("dl");
        reveal_strlit("auto");
    }
    match mode {
        ParseMode::Lattice => "lattice",
        ParseMode::Stream => "stream",
        ParseMode::Dl => "dl",
        ParseMode::Auto => "auto",
    }
}

/// The name of a fallback mode in events.
pub fn dl_fallback_name(mode: DlFallbackMode) -> (s: &'static str)
    ensures
        s@ == (match mode {
            DlFallbackMode::Auto => "auto"@,
            DlFallbackMode::Lattice => "lattice"@,
            DlFallbackMode::Stream => "stream"@,
        }),
        s@ == dl_fallback_label(mode),
{
    proof {
        reveal_strlit("lattice");
        reveal_strlit("stream");
        reveal_strlit("auto");
    }
    match mode {
        DlFallbackMode::Auto => "auto",
        DlFallbackMode::Lattice => "lattice",
        DlFallbackMode::Stream => "stream",
    }
}

/// The code of an error kind in events.
pub fn error_code(error: &TrexError) -> (s: &'static str)
    ensures
        s@ == (match error {
            TrexError::PdfParse(_) => "pdf_parse"@,
            TrexError::Detection(_) => "detection"@,
            TrexError::Merge(_) => "merge"@,
            TrexError::Output(_) => "output"@,
            TrexError::Dl(_) => "dl"@,
            TrexError::Io(_) => "io"@,
            TrexError::Json(_) => "json"@,
        }),
{
    match error {
        TrexError::PdfParse(_) => "pdf_parse",
        TrexError::Detection(_) => "detection",
        TrexError::Merge(_) => "merge",
        TrexError::Output(_) => "output",
        TrexError::Dl(_) => "dl",
        TrexError::Io(_) => "io",
        TrexError::Json(_) => "json",
    }
}

/// The tables of one page, with what the page's metric is made of.
pub struct PageGroup {
    /// The page.
    pub page: u32,
    /// How many tables stand on the page.
    pub table_count: usize,
    /// Non-blank cells over the page's tables.
    pub non_empty_cells: usize,
    /// For each of the page's tables, in order: its non-blank cells and its
    /// cell count (rows, header row included, times header cells; at least 1).
    pub densities: Vec<(usize, usize)>,
}

/// A page group as plain values.
pub struct PageGroupView {
    pub page: u32,
    pub table_count: nat,
    pub non_empty_cells: nat,
    pub densities: Seq<(usize, usize)>,
}

impl View for PageGroup {
    type V = PageGroupView;

    open spec fn view(&self) -> PageGroupView {
        PageGroupView {
            page: self.page,
            table_count: self.table_count as nat,
            non_empty_cells: self.non_empty_cells as nat,
            densities: self.densities@,
        }
    }
}

/// The tables that stand on page `p`, in order.
pub open spec fn page_tables(ts: Seq<TableView>, p: u32) -> Seq<TableView>
    decreases ts.len(),
{
    if ts.len() == 0 {
        Seq::empty()
    } else if ts.last().page == p {
        page_tables(ts.drop_last(), p).push(ts.last())
    } else {
        page_tables(ts.drop_last(), p)
    }
}

/// The cell count a table's density divides by.
pub open spec fn density_base(t: TableView) -> nat {
    let n = (t.rows.len() + 1) * t.headers.len();
    if n >= 1 {
        n as nat
    } else {
        1
    }
}

/// The group of page `p`.
pub open spec fn page_group_spec(ts: Seq<TableView>, p: u32) -> PageGroupView {
    let pt = page_tables(ts, p);
    PageGroupView {
        page: p,
        table_count: pt.len(),
        non_empty_cells: tables_nonblank(pt),
        densities: pt.map_values(|t: TableView| (table_nonblank(t) as usize, density_base(t) as usize)),
    }
}

/// The views of page groups.
pub open spec fn groups_view(v: Seq<PageGroup>) -> Seq<PageGroupView> {
    v.map_values(|g: PageGroup| g@)
}

/// Every table's cell count fits the machine: rows (header row included)
/// times header cells.
pub open spec fn bases_fit(ts: Seq<TableView>) -> bool {
    forall|k: int| 0 <= k < ts.len() ==> (#[trigger] ts[k]).rows.len() + 1 <= usize::MAX && (ts[k].rows.len()
        + 1) * ts[k].headers.len() <= usize::MAX
}

proof fn lemma_page_tables_bounds(ts: Seq<TableView>, p: u32)
    ensures
        page_tables(ts, p).len() <= ts.len(),
        tables_total(page_tables(ts, p)) <= tables_total(ts),
        bases_fit(ts) ==> bases_fit(page_tables(ts, p)),
    decreases ts.len(),
{
    if ts.len() > 0 {
        let t = ts.drop_last();
        let pt = page_tables(t, p);
        if bases_fit(ts) {
            assert forall|k: int| 0 <= k < t.len() implies (#[trigger] t[k]).rows.len() + 1 <= usize::MAX && (t[k].rows.len()
                + 1) * t[k].headers.len() <= usize::MAX by {
                assert(t[k] == ts[k]);
            }
        }
        lemma_page_tables_bounds(t, p);
        if ts.last().page == p {
            let q = pt.push(ts.last());
            assert(q.drop_last() =~= pt);
            if bases_fit(ts) {
                assert forall|k: int| 0 <= k < q.len() implies (#[trigger] q[k]).rows.len() + 1 <= usize::MAX && (q[k].rows.len()
                    + 1) * q[k].headers.len() <= usize::MAX by {
                    if k < pt.len() {
                        assert(q[k] == pt[k]);
                    } else {
                        assert(q[k] == ts[ts.len() - 1]);
                    }
                }
            }
        }
    }
}

fn group_of(tables: &Vec<Table>, page: u32) -> (g: PageGroup)
    requires
        tables_total(tables_view(tables@)) <= usize::MAX,
        bases_fit(tables_view(tables@)),
    ensures
        g@ == page_group_spec(tables_view(tables@), page),
{
    let ghost all = tables_view(tables@);
    let mut count: usize = 0;
    let mut cells: usize = 0;
    let mut densities: Vec<(usize, usize)> = Vec::new();
    let mut i: usize = 0;
    while i < tables.len()
        invariant
            i <= tables.len(),
            all == tables_view(tables@),
            tables_total(all) <= usize::MAX,
            bases_fit(all),
            count == page_tables(all.take(i as int), page).len(),
            cells == tables_nonblank(page_tables(all.take(i as int), page)),
            densities@ == page_tables(all.take(i as int), page).map_values(
                |t: TableView| (table_nonblank(t) as usize, density_base(t) as usize),
            ),
        decreases tables.len() - i,
    {
        let ghost pre = all.take(i as int);
        let ghost post = all.take(i + 1);
        assert(post.drop_last() =~= pre);
        assert(post.last() == tables@[i as int]@);
        assert(all[i as int] == tables@[i as int]@);
        proof {
            lemma_page_tables_bounds(post, page);
            lemma_prefix_total(all, i + 1);
            crate::detect::dl::lemma_nonblank_le_total_pub(page_tables(post, page));
        }
        if tables[i].page == page {
            assert(table_total(all[i as int]) <= usize::MAX) by {
                lemma_one_total(all, i as int);
            }
            let n = table_non_empty_cells(&tables[i]);
            let rows = tables[i].rows.len() + 1;
            let cols = tables[i].headers.len();
            let prod = rows * cols;
            let base = if prod >= 1 {
                prod
            } else {
                1
            };
            let ghost pt = page_tables(pre, page);
            assert(page_tables(post, page) == pt.push(all[i as int]));
            assert(pt.push(all[i as int]).drop_last() =~= pt);
            count = count + 1;
            cells = cells + n;
            densities.push((n, base));
            assert(densities@ =~= page_tables(post, page).map_values(
                |t: TableView| (table_nonblank(t) as usize, density_base(t) as usize),
            ));
        }
        i += 1;
    }
    assert(all.take(tables.len() as int) =~= all);
    PageGroup { page, table_count: count, non_empty_cells: cells, densities }
}

proof fn lemma_prefix_total(ts: Seq<TableView>, k: int)
    requires
        0 <= k <= ts.len(),
    ensures
        tables_total(ts.take(k)) <= tables_total(ts),
    decreases ts.len() - k,
{
    if k < ts.len() {
        lemma_prefix_total(ts, k + 1);
        assert(ts.take(k + 1).drop_last() =~= ts.take(k));
    } else {
        assert(ts.take(k) =~= ts);
    }
}

proof fn lemma_one_total(ts: Seq<TableView>, k: int)
    requires
        0 <= k < ts.len(),
    ensures
        table_total(ts[k]) <= tables_total(ts),
    decreases ts.len(),
{
    if k < ts.len() - 1 {
        lemma_one_total(ts.drop_last(), k);
        assert(ts.drop_last()[k] == ts[k]);
    }
}

/// Some table stands on page `p`.
pub open spec fn has_table_on(ts: Seq<TableView>, p: u32) -> bool {
    exists|j: int| 0 <= j < ts.len() && #[trigger] ts[j].page == p
}

/// Some group is that of page `p`.
pub open spec fn has_group_for(out: Seq<PageGroupView>, p: u32) -> bool {
    exists|k: int| 0 <= k < out.len() && #[trigger] out[k].page == p
}

/// Groups tables by page, pages in increasing order, each page once.
pub open spec fn page_groups_spec(ts: Seq<TableView>, out: Seq<PageGroupView>) -> bool {
    &&& forall|a: int, b: int| 0 <= a < b < out.len() ==> #[trigger] out[a].page < #[trigger] out[b].page
    &&& forall|k: int| 0 <= k < out.len() ==> has_table_on(ts, (#[trigger] out[k]).page)
    &&& forall|j: int| 0 <= j < ts.len() ==> has_group_for(out, (#[trigger] ts[j]).page)
    &&& forall|k: int| 0 <= k < out.len() ==> #[trigger] out[k] == page_group_spec(ts, out[k].page)
}

proof fn lemma_groups_final(all: Seq<TableView>, pages: Seq<usize>, u: Seq<usize>, gv: Seq<PageGroupView>)
    requires
        pages == Seq::new(all.len(), |j: int| all[j].page as usize),
        strictly_increasing(u),
        forall|q: int| 0 <= q < u.len() ==> pages.contains(#[trigger] u[q]),
        forall|j: int| 0 <= j < pages.len() ==> u.contains(#[trigger] pages[j]),
        gv.len() == u.len(),
        forall|q: int| 0 <= q < gv.len() ==> (#[trigger] gv[q]).page as usize == u[q],
        forall|q: int| 0 <= q < gv.len() ==> #[trigger] gv[q] == page_group_spec(all, gv[q].page),
    ensures
        page_groups_spec(all, gv),
{
    assert forall|a: int, b: int| 0 <= a < b < gv.len() implies #[trigger] gv[a].page < #[trigger] gv[b].page by {
        assert(u[a] < u[b]);
    }
    assert forall|q: int| 0 <= q < gv.len() implies has_table_on(all, (#[trigger] gv[q]).page) by {
        assert(pages.contains(u[q]));
        let j = choose|j: int| 0 <= j < pages.len() && pages[j] == u[q];
        assert(all[j].page == gv[q].page);
    }
    assert forall|j: int| 0 <= j < all.len() implies has_group_for(gv, (#[trigger] all[j]).page) by {
        assert(pages[j] == all[j].page as usize);
        assert(u.contains(pages[j]));
        let q = choose|q: int| 0 <= q < u.len() && u[q] == pages[j];
        assert(gv[q].page as usize == u[q]);
    }
}

/// Groups the tables by page, for the per-page metrics of an event.
pub fn page_groups(tables: &Vec<Table>) -> (out: Vec<PageGroup>)
    requires
        tables_total(tables_view(tables@)) <= usize::MAX,
        bases_fit(tables_view(tables@)),
    ensures
        page_groups_spec(tables_view(tables@), groups_view(out@)),
{
    let ghost all = tables_view(tables@);
    let mut pages: Vec<usize> = Vec::new();
    let mut i: usize = 0;
    while i < tables.len()
        invariant
            i <= tables.len(),
            all == tables_view(tables@),
            pages@ == Seq::new(i as nat, |j: int| all[j].page as usize),
        decreases tables.len() - i,
    {
        pages.push(tables[i].page as usize);
        i += 1;
        assert(pages@ =~= Seq::new(i as nat, |j: int| all[j].page as usize));
    }
    let u = sorted_distinct(&pages);
    let mut out: Vec<PageGroup> = Vec::new();
    let mut k: usize = 0;
    while k < u.len()
        invariant
            k <= u.len(),
            all == tables_view(tables@),
            tables_total(all) <= usize::MAX,
            bases_fit(all),
            pages@ == Seq::new(tables.len() as nat, |j: int| all[j].page as usize),
            forall|q: int| 0 <= q < u.len() ==> pages@.contains(#[trigger] u@[q]),
            groups_view(out@).len() == k,
            forall|q: int| 0 <= q < k ==> (#[trigger] groups_view(out@)[q]).page as usize == u@[q],
            forall|q: int| 0 <= q < k ==> #[trigger] groups_view(out@)[q] == page_group_spec(all, groups_view(out@)[q].page),
        decreases u.len() - k,
    {
        proof {
            assert(pages@.contains(u@[k as int]));
            let j = choose|j: int| 0 <= j < pages.len() && pages@[j] == u@[k as int];
            assert(pages@[j] == all[j].page as usize);
        }
        let page = u[k] as u32;
        let g = group_of(tables, page);
        let ghost before = groups_view(out@);
        out.push(g);
        assert(groups_view(out@) =~= before.push(g@));
        k += 1;
    }
    proof {
        lemma_groups_final(all, pages@, u@, groups_view(out@));
    }
    out
}


/// The number of tables over all groups.
pub open spec fn groups_table_count(out: Seq<PageGroupView>) -> nat
    decreases out.len(),
{
    if out.len() == 0 {
        0
    } else {
        groups_table_count(out.drop_last()) + out.last().table_count
    }
}

/// The number of tables on the given pages.
spec fn pages_count(ts: Seq<TableView>, ps: Seq<u32>) -> nat
    decreases ps.len(),
{
    if ps.len() == 0 {
        0
    } else {
        pages_count(ts, ps.drop_last()) + page_tables(ts, ps.last()).len()
    }
}

/// How many times `p` occurs.
spec fn occurrences(ps: Seq<u32>, p: u32) -> nat
    decreases ps.len(),
{
    if ps.len() == 0 {
        0
    } else {
        occurrences(ps.drop_last(), p) + if ps.last() == p {
            1nat
        } else {
            0nat
        }
    }
}

proof fn lemma_pages_count_step(ts: Seq<TableView>, ps: Seq<u32>)
    requires
        ts.len() > 0,
    ensures
        pages_count(ts, ps) == pages_count(ts.drop_last(), ps) + occurrences(ps, ts.last().page),
    decreases ps.len(),
{
    if ps.len() > 0 {
        lemma_pages_count_step(ts, ps.drop_last());
    }
}

proof fn lemma_occurs_once(ps: Seq<u32>, p: u32)
    requires
        ps.no_duplicates(),
        ps.contains(p),
    ensures
        occurrences(ps, p) == 1,
    decreases ps.len(),
{
    let q = ps.drop_last();
    assert(q.no_duplicates()) by {
        assert forall|a: int, b: int| 0 <= a < b < q.len() implies q[a] != q[b] by {
            assert(q[a] == ps[a] && q[b] == ps[b]);
        }
    }
    if ps.last() == p {
        assert(!q.contains(p)) by {
            if q.contains(p) {
                let j = choose|j: int| 0 <= j < q.len() && q[j] == p;
                assert(ps[j] == ps[ps.len() - 1]);
            }
        }
        lemma_occurs_never(q, p);
    } else {
        let j = choose|j: int| 0 <= j < ps.len() && ps[j] == p;
        assert(j < ps.len() - 1);
        assert(q[j] == p);
        lemma_occurs_once(q, p);
    }
}

proof fn lemma_occurs_never(ps: Seq<u32>, p: u32)
    requires
        !ps.contains(p),
    ensures
        occurrences(ps, p) == 0,
    decreases ps.len(),
{
    if ps.len() > 0 {
        let q = ps.drop_last();
        assert(!q.contains(p)) by {
            if q.contains(p) {
                let j = choose|j: int| 0 <= j < q.len() && q[j] == p;
                assert(ps[j] == p);
            }
        }
        lemma_occurs_never(q, p);
        assert(ps[ps.len() - 1] != p);
    }
}

proof fn lemma_pages_count_all(ts: Seq<TableView>, ps: Seq<u32>)
    requires
        ps.no_duplicates(),
        forall|j: int| 0 <= j < ts.len() ==> ps.contains(#[trigger] ts[j].page),
    ensures
        pages_count(ts, ps) == ts.len(),
    decreases ts.len(),
{
    if ts.len() == 0 {
        lemma_pages_count_empty(ts, ps);
    } else {
        let t = ts.drop_last();
        assert forall|j: int| 0 <= j < t.len() implies ps.contains(#[trigger] t[j].page) by {
            assert(t[j] == ts[j]);
        }
        lemma_pages_count_all(t, ps);
        lemma_pages_count_step(ts, ps);
        assert(ps.contains(ts[ts.len() - 1].page));
        lemma_occurs_once(ps, ts.last().page);
    }
}

proof fn lemma_pages_count_empty(ts: Seq<TableView>, ps: Seq<u32>)
    requires
        ts.len() == 0,
    ensures
        pages_count(ts, ps) == 0,
    decreases ps.len(),
{
    if ps.len() > 0 {
        lemma_pages_count_empty(ts, ps.drop_last());
    }
}

proof fn lemma_groups_as_pages(ts: Seq<TableView>, out: Seq<PageGroupView>)
    requires
        forall|k: int| 0 <= k < out.len() ==> #[trigger] out[k] == page_group_spec(ts, out[k].page),
    ensures
        groups_table_count(out) == pages_count(ts, out.map_values(|g: PageGroupView| g.page)),
    decreases out.len(),
{
    if out.len() > 0 {
        let o = out.drop_last();
        assert forall|k: int| 0 <= k < o.len() implies #[trigger] o[k] == page_group_spec(ts, o[k].page) by {
            assert(o[k] == out[k]);
        }
        lemma_groups_as_pages(ts, o);
        assert(out.map_values(|g: PageGroupView| g.page).drop_last() =~= o.map_values(|g: PageGroupView| g.page));
        assert(out[out.len() - 1] == out.last());
    }
}

/// Law: every table is counted on exactly one page: the table counts of the
/// groups add up to the number of tables.
pub proof fn lemma_page_groups_count_all(ts: Seq<TableView>, out: Seq<PageGroupView>)
    requires
        page_groups_spec(ts, out),
    ensures
        groups_table_count(out) == ts.len(),
{
    let ps = out.map_values(|g: PageGroupView| g.page);
    lemma_groups_as_pages(ts, out);
    assert(ps.no_duplicates()) by {
        assert forall|a: int, b: int| 0 <= a < b < ps.len() implies ps[a] != ps[b] by {
            assert(out[a].page < out[b].page);
        }
    }
    assert forall|j: int| 0 <= j < ts.len() implies ps.contains(#[trigger] ts[j].page) by {
        assert(has_group_for(out, ts[j].page));
        let k = choose|k: int| 0 <= k < out.len() && #[trigger] out[k].page == ts[j].page;
        assert(ps[k] == ts[j].page);
    }
    lemma_pages_count_all(ts, ps);
}

} // verus!
