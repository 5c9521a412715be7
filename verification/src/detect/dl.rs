//! Router mode: the parts that combine the tables of several strategies.

use vstd::prelude::*;

use crate::grid::{table_cells, table_non_empty_cells, table_nonblank, table_total};
use crate::i18n::chars_equal;
use crate::text::{chars_of, lowercase_spec, string_of, to_lowercase, trim, trim_spec, views};
use crate::{strings_view, tables_view, Table, TableView, TrexError};

verus! {

/// The token of a cell: trimmed, then lower-cased.
pub open spec fn cell_token(c: Seq<char>) -> Seq<char> {
    lowercase_spec(trim_spec(c))
}

/// `x` is the token of some cell of the table and is not empty.
pub open spec fn is_token(t: TableView, x: Seq<char>) -> bool {
    x.len() > 0 && exists|r: int, k: int|
        0 <= r < table_cells(t).len() && 0 <= k < table_cells(t)[r].len() && #[trigger] cell_token(
            table_cells(t)[r][k],
        ) == x
}

/// The set of non-empty tokens of a table.
pub open spec fn token_set(t: TableView) -> Set<Seq<char>> {
    Set::new(|x: Seq<char>| is_token(t, x))
}

fn contains_token(tokens: &Vec<Vec<char>>, x: &Vec<char>) -> (b: bool)
    ensures
        b == views(tokens@).contains(x@),
{
    let mut i: usize = 0;
    while i < tokens.len()
        invariant
            i <= tokens.len(),
            forall|a: int| 0 <= a < i ==> views(tokens@)[a] != x@,
        decreases tokens.len() - i,
    {
        if chars_equal(&tokens[i], x) {
            assert(views(tokens@)[i as int] == x@);
            return true;
        }
        i += 1;
    }
    false
}

fn add_row_tokens(tokens: &mut Vec<Vec<char>>, row: &Vec<String>, t: Ghost<TableView>, r: Ghost<int>)
    requires
        0 <= r@ < table_cells(t@).len(),
        table_cells(t@)[r@] == strings_view(row@),
        views(old(tokens)@).no_duplicates(),
        forall|x: Seq<char>| views(old(tokens)@).contains(x) ==> is_token(t@, x),
    ensures
        views(final(tokens)@).no_duplicates(),
        forall|x: Seq<char>| views(final(tokens)@).contains(x) ==> is_token(t@, x),
        forall|x: Seq<char>| views(old(tokens)@).contains(x) ==> views(final(tokens)@).contains(x),
        forall|k: int| 0 <= k < row.len() && cell_token(#[trigger] strings_view(row@)[k]).len() > 0
            ==> views(final(tokens)@).contains(cell_token(strings_view(row@)[k])),
{
    let mut k: usize = 0;
    while k < row.len()
        invariant
            k <= row.len(),
            0 <= r@ < table_cells(t@).len(),
            table_cells(t@)[r@] == strings_view(row@),
            views(tokens@).no_duplicates(),
            forall|x: Seq<char>| views(tokens@).contains(x) ==> is_token(t@, x),
            forall|x: Seq<char>| views(old(tokens)@).contains(x) ==> views(tokens@).contains(x),
            forall|q: int| 0 <= q < k && cell_token(#[trigger] strings_view(row@)[q]).len() > 0
                ==> views(tokens@).contains(cell_token(strings_view(row@)[q])),
        decreases row.len() - k,
    {
        let c = chars_of(row[k].as_str());
        let tr = trim(&c);
        let ts = string_of(&tr);
        let low = to_lowercase(ts.as_str());
        let lc = chars_of(low.as_str());
        assert(strings_view(row@)[k as int] == row@[k as int]@);
        assert(lc@ == cell_token(strings_view(row@)[k as int]));
        if lc.len() > 0 && !contains_token(tokens, &lc) {
            let ghost before = views(tokens@);
            assert(table_cells(t@)[r@][k as int] == strings_view(row@)[k as int]);
            assert(is_token(t@, lc@));
            tokens.push(lc);
            assert(views(tokens@) =~= before.push(lc@));
            assert forall|x: Seq<char>| views(tokens@).contains(x) implies is_token(t@, x) by {
                if x != lc@ {
                    let j = choose|j: int| 0 <= j < views(tokens@).len() && views(tokens@)[j] == x;
                    assert(before[j] == x);
                }
            }
            assert forall|x: Seq<char>| views(old(tokens)@).contains(x) implies views(tokens@).contains(x) by {
                let j = choose|j: int| 0 <= j < before.len() && before[j] == x;
                assert(views(tokens@)[j] == x);
            }
            assert forall|q: int| 0 <= q < k + 1 && cell_token(#[trigger] strings_view(row@)[q]).len() > 0
                implies views(tokens@).contains(cell_token(strings_view(row@)[q])) by {
                if q < k {
                    let j = choose|j: int| 0 <= j < before.len() && before[j] == cell_token(strings_view(row@)[q]);
                    assert(views(tokens@)[j] == before[j]);
                } else {
                    assert(views(tokens@)[before.len() as int] == lc@);
                }
            }
            assert(views(tokens@).no_duplicates()) by {
                assert forall|a: int, b: int| 0 <= a < b < views(tokens@).len() implies views(tokens@)[a] != views(tokens@)[b] by {
                    if b == before.len() {
                        assert(views(tokens@)[a] == before[a]);
                    } else {
                        assert(views(tokens@)[a] == before[a] && views(tokens@)[b] == before[b]);
                    }
                }
            }
        }
        k += 1;
    }
}

/// Lists the distinct non-empty tokens of a table.
pub fn table_tokens(table: &Table) -> (tokens: Vec<Vec<char>>)
    ensures
        views(tokens@).no_duplicates(),
        views(tokens@).to_set() == token_set(table@),
{
    let ghost t = table@;
    let ghost cells = table_cells(t);
    let mut tokens: Vec<Vec<char>> = Vec::new();
    assert(cells[0] == strings_view(table.headers@));
    add_row_tokens(&mut tokens, &table.headers, Ghost(t), Ghost(0));
    let mut i: usize = 0;
    while i < table.rows.len()
        invariant
            i <= table.rows.len(),
            t == table@,
            cells == table_cells(t),
            cells.len() == table.rows.len() + 1,
            views(tokens@).no_duplicates(),
            forall|x: Seq<char>| views(tokens@).contains(x) ==> is_token(t, x),
            forall|r: int, k: int| 0 <= r < i + 1 && 0 <= k < cells[r].len() && cell_token(#[trigger] cells[r][k]).len() > 0
                ==> views(tokens@).contains(cell_token(cells[r][k])),
        decreases table.rows.len() - i,
    {
        assert(cells[i + 1] == strings_view(table.rows@[i as int]@));
        add_row_tokens(&mut tokens, &table.rows[i], Ghost(t), Ghost(i + 1));
        i += 1;
    }
    assert forall|x: Seq<char>| token_set(t).contains(x) implies views(tokens@).contains(x) by {
        assert(is_token(t, x));
        let (r, k) = choose|r: int, k: int|
            0 <= r < cells.len() && 0 <= k < cells[r].len() && #[trigger] cell_token(cells[r][k]) == x;
    }
    assert(views(tokens@).to_set() =~= token_set(t));
    tokens
}


/// The number of binary digits of `n`.
pub open spec fn bit_len(n: nat) -> nat
    decreases n,
{
    if n == 0 {
        0
    } else {
        1 + bit_len(n / 2)
    }
}

/// Two to the power `s`.
pub open spec fn pow2(s: nat) -> nat
    decreases s,
{
    if s == 0 {
        1
    } else {
        2 * pow2((s - 1) as nat)
    }
}

/// The value a count takes as an `f32`: itself up to 24 binary digits, else
/// rounded to 24 significant digits, ties to even.
pub open spec fn f32_count(n: nat) -> nat {
    if bit_len(n) <= 24 {
        n
    } else {
        let p = pow2((bit_len(n) - 24) as nat);
        let q = n / p;
        let r = n % p;
        let q2 = if r * 2 > p || (r * 2 == p && q % 2 == 1) {
            q + 1
        } else {
            q
        };
        q2 * p
    }
}

proof fn lemma_pow2_bit_len(n: nat)
    requires
        n > 0,
    ensures
        pow2((bit_len(n) - 1) as nat) <= n,
    decreases n,
{
    if n / 2 > 0 {
        lemma_pow2_bit_len(n / 2);
        let b = bit_len(n / 2);
        assert(b >= 1);
        assert(bit_len(n) == 1 + b);
        assert(pow2(b) == 2 * pow2((b - 1) as nat));
    } else {
        assert(n == 1);
        assert(bit_len(0) == 0);
        assert(bit_len(1) == 1);
        assert(pow2(0) == 1);
    }
}

proof fn lemma_pow2_monotone(a: nat, b: nat)
    requires
        a <= b,
    ensures
        pow2(a) <= pow2(b),
    decreases b,
{
    if a < b {
        lemma_pow2_monotone(a, (b - 1) as nat);
    }
}

proof fn lemma_pow2_positive(a: nat)
    ensures
        pow2(a) >= 1,
    decreases a,
{
    if a > 0 {
        lemma_pow2_positive((a - 1) as nat);
    }
}

proof fn lemma_pow2_65()
    ensures
        pow2(65) == 0x2_0000_0000_0000_0000,
{
    reveal_with_fuel(pow2, 66);
}

proof fn lemma_bit_len_bound(n: nat, k: nat)
    requires
        n < pow2(k),
    ensures
        bit_len(n) <= k,
    decreases k,
{
    if n > 0 {
        if k == 0 {
            assert(false);
        } else {
            lemma_bit_len_bound(n / 2, (k - 1) as nat);
        }
    }
}

fn round_count(n: u128) -> (r: u128)
    requires
        n < 0x2_0000_0000_0000_0000,
    ensures
        r == f32_count(n as nat),
        r <= 2 * n,
{
    proof {
        lemma_pow2_65();
        lemma_bit_len_bound(n as nat, 65);
    }
    let mut l: u128 = 0;
    let mut m: u128 = n;
    while m > 0
        invariant
            bit_len(n as nat) == l + bit_len(m as nat),
            bit_len(n as nat) <= 65,
        decreases m,
    {
        m = m / 2;
        l += 1;
    }
    if l <= 24 {
        return n;
    }
    let s = l - 24;
    let mut p: u128 = 1;
    let mut i: u128 = 0;
    proof {
        lemma_pow2_bit_len(n as nat);
        lemma_pow2_monotone((l - 24) as nat, (l - 1) as nat);
    }
    while i < s
        invariant
            i <= s,
            s == l - 24,
            p == pow2(i as nat),
            pow2(s as nat) <= n,
        decreases s - i,
    {
        proof {
            lemma_pow2_monotone((i + 1) as nat, s as nat);
        }
        p = p * 2;
        i += 1;
    }
    proof {
        lemma_pow2_positive(s as nat);
    }
    let q = n / p;
    let r = n % p;
    let q2 = if r * 2 > p || (r * 2 == p && q % 2 == 1) {
        q + 1
    } else {
        q
    };
    assert(q * p <= n) by (nonlinear_arith)
        requires
            q == n / p,
            p >= 1,
    ;
    assert(q2 * p <= n + p) by (nonlinear_arith)
        requires
            q * p <= n,
            q2 <= q + 1,
            p >= 1,
    ;
    q2 * p
}


/// Whether the similarity `i / u` of two token sets, computed in `f32`,
/// reaches 0.85; two empty sets count as fully similar.
pub open spec fn similarity_at_least_085(i: nat, u: nat) -> bool {
    u == 0 || f32_count(i) * 33554432 >= 28521267 * f32_count(u)
}

/// Whether the similarity `i / u` of two token sets, computed in `f32`,
/// reaches 0.55; two empty sets count as fully similar.
pub open spec fn similarity_at_least_055(i: nat, u: nat) -> bool {
    u == 0 || f32_count(i) * 33554432 > 18454937 * f32_count(u)
}

/// The difference of two counts.
pub open spec fn count_diff(a: nat, b: nat) -> nat {
    if a >= b {
        (a - b) as nat
    } else {
        (b - a) as nat
    }
}

/// Two tables hold the same data: their token sets overlap by at least 85%,
/// or by at least 55% when their shapes differ by at most one row and one
/// column.
pub open spec fn similar_spec(l: TableView, r: TableView) -> bool {
    let a = token_set(l);
    let b = token_set(r);
    let i = a.intersect(b).len();
    let u = a.union(b).len();
    let shape_close = count_diff(l.rows.len(), r.rows.len()) <= 1 && count_diff(
        l.headers.len(),
        r.headers.len(),
    ) <= 1;
    similarity_at_least_085(i, u) || (shape_close && similarity_at_least_055(i, u))
}

fn overlap_counts(a: &Vec<Vec<char>>, b: &Vec<Vec<char>>) -> (r: (u128, u128))
    requires
        views(a@).no_duplicates(),
        views(b@).no_duplicates(),
    ensures
        r.0 == views(a@).to_set().intersect(views(b@).to_set()).len(),
        r.1 == views(a@).to_set().union(views(b@).to_set()).len(),
        r.1 < 0x2_0000_0000_0000_0000,
        r.0 <= r.1,
{
    broadcast use vstd::seq_lib::seq_to_set_is_finite;
    let ghost sa = views(a@);
    let ghost sb = views(b@);
    let ghost mut g: Seq<Seq<char>> = Seq::empty();
    let mut inter: u128 = 0;
    let mut i: usize = 0;
    while i < a.len()
        invariant
            i <= a.len(),
            sa == views(a@),
            sb == views(b@),
            sa.no_duplicates(),
            g.no_duplicates(),
            inter == g.len(),
            g.len() <= i,
            forall|x: Seq<char>| g.contains(x) <==> (sa.take(i as int).contains(x) && sb.contains(x)),
        decreases a.len() - i,
    {
        let present = contains_token(b, &a[i]);
        let ghost x = sa[i as int];
        assert(x == a@[i as int]@);
        assert(sa.take(i + 1) =~= sa.take(i as int).push(x));
        assert(!sa.take(i as int).contains(x)) by {
            if sa.take(i as int).contains(x) {
                let j = choose|j: int| 0 <= j < i && #[trigger] sa.take(i as int)[j] == x;
                assert(sa[j] == sa[i as int]);
            }
        }
        if present {
            proof {
                let g0 = g;
                g = g.push(x);
                assert forall|y: Seq<char>| g.contains(y) <==> (sa.take(i + 1).contains(y) && sb.contains(y)) by {
                    if g.contains(y) && y != x {
                        let j = choose|j: int| 0 <= j < g.len() && #[trigger] g[j] == y;
                        assert(g0[j] == y);
                        assert(g0.contains(y));
                        assert(sa.take(i as int).contains(y));
                        let q = choose|q: int| 0 <= q < i && #[trigger] sa.take(i as int)[q] == y;
                        assert(sa.take(i + 1)[q] == y);
                    }
                    if sa.take(i + 1).contains(y) && sb.contains(y) && y != x {
                        let j = choose|j: int| 0 <= j < i + 1 && #[trigger] sa.take(i + 1)[j] == y;
                        assert(sa.take(i as int)[j] == y);
                        assert(g0.contains(y));
                        let q = choose|q: int| 0 <= q < g0.len() && #[trigger] g0[q] == y;
                        assert(g[q] == y);
                    }
                    if y == x {
                        assert(g[g0.len() as int] == x);
                        assert(sa.take(i + 1)[i as int] == x);
                    }
                }
                assert forall|p: int, q: int| 0 <= p < q < g.len() implies g[p] != g[q] by {
                    if q == g0.len() {
                        assert(g0.contains(g[p]) ==> sa.take(i as int).contains(g[p]));
                        assert(g[p] == g0[p]);
                    }
                }
            }
            inter += 1;
        } else {
            proof {
                assert forall|y: Seq<char>| g.contains(y) <==> (sa.take(i + 1).contains(y) && sb.contains(y)) by {
                    if sa.take(i + 1).contains(y) && y != x {
                        let j = choose|j: int| 0 <= j < i + 1 && #[trigger] sa.take(i + 1)[j] == y;
                        assert(sa.take(i as int)[j] == y);
                    }
                    if g.contains(y) {
                        assert(sa.take(i as int).contains(y));
                        let j = choose|j: int| 0 <= j < i && #[trigger] sa.take(i as int)[j] == y;
                        assert(sa.take(i + 1)[j] == y);
                    }
                }
            }
        }
        i += 1;
    }
    proof {
        assert(sa.take(a.len() as int) =~= sa);
        assert(g.to_set() =~= sa.to_set().intersect(sb.to_set()));
        g.unique_seq_to_set();
        sa.unique_seq_to_set();
        sb.unique_seq_to_set();
        vstd::set_lib::lemma_set_intersect_union_lens(sa.to_set(), sb.to_set());
        assert(sa.to_set() + sb.to_set() == sa.to_set().union(sb.to_set()));
        vstd::set_lib::lemma_len_intersect(sa.to_set(), sb.to_set());
        vstd::set_lib::lemma_len_intersect(sb.to_set(), sa.to_set());
        assert(sb.to_set().intersect(sa.to_set()) =~= sa.to_set().intersect(sb.to_set()));
    }
    let u: u128 = a.len() as u128 + b.len() as u128 - inter;
    (inter, u)
}

/// Tells whether two tables hold the same data.
pub fn similar_table(left: &Table, right: &Table) -> (b: bool)
    ensures
        b == similar_spec(left@, right@),
{
    let left_rows = left.rows.len();
    let right_rows = right.rows.len();
    let left_cols = left.headers.len();
    let right_cols = right.headers.len();
    let row_diff = if left_rows >= right_rows {
        left_rows - right_rows
    } else {
        right_rows - left_rows
    };
    let col_diff = if left_cols >= right_cols {
        left_cols - right_cols
    } else {
        right_cols - left_cols
    };
    let shape_close = row_diff <= 1 && col_diff <= 1;
    let lt = table_tokens(left);
    let rt = table_tokens(right);
    let (i, u) = overlap_counts(&lt, &rt);
    let (at_85, at_55) = if u == 0 {
        (true, true)
    } else {
        let fi = round_count(i);
        let fu = round_count(u);
        (fi * 33554432 >= 28521267 * fu, fi * 33554432 > 18454937 * fu)
    };
    at_85 || (shape_close && at_55)
}


/// The first list, with each table of the second appended in order unless a
/// table already in the list (the first list's or one appended before) holds
/// the same data.
pub open spec fn merge_tables_spec(primary: Seq<TableView>, secondary: Seq<TableView>) -> Seq<TableView>
    decreases secondary.len(),
{
    if secondary.len() == 0 {
        primary
    } else {
        let acc = merge_tables_spec(primary, secondary.drop_last());
        let c = secondary.last();
        if exists|k: int| 0 <= k < acc.len() && #[trigger] similar_spec(acc[k], c) {
            acc
        } else {
            acc.push(c)
        }
    }
}

/// Appends the tables of `secondary` that no table already listed
/// duplicates.
pub fn merge_tables(primary: Vec<Table>, secondary: Vec<Table>) -> (r: Vec<Table>)
    ensures
        tables_view(r@) == merge_tables_spec(tables_view(primary@), tables_view(secondary@)),
{
    let ghost p0 = tables_view(primary@);
    let ghost s0 = tables_view(secondary@);
    assert(s0.len() == secondary.len());
    let mut primary = primary;
    let mut rest = secondary;
    let mut taken: usize = 0;
    let ghost total = s0.len();
    while rest.len() > 0
        invariant
            taken + rest.len() == total,
            total == s0.len(),
            total <= usize::MAX,
            tables_view(rest@) == s0.subrange(taken as int, total as int),
            tables_view(primary@) == merge_tables_spec(p0, s0.take(taken as int)),
        decreases rest.len(),
    {
        let ghost rv = tables_view(rest@);
        assert(rv[0] == rest@[0]@);
        assert(rv[0] == s0[taken as int]);
        let ghost old_rest = rest@;
        let candidate = rest.remove(0);
        assert(rest@ =~= old_rest.subrange(1, old_rest.len() as int));
        assert(tables_view(rest@) =~= rv.subrange(1, rv.len() as int));
        let ghost cv = candidate@;
        assert(cv == s0[taken as int]);
        assert(s0.take(taken + 1).drop_last() =~= s0.take(taken as int));
        assert(s0.take(taken + 1).last() == cv);
        let ghost acc = tables_view(primary@);
        let mut dup = false;
        let mut k: usize = 0;
        while k < primary.len()
            invariant
                k <= primary.len(),
                acc == tables_view(primary@),
                cv == candidate@,
                dup == exists|j: int| 0 <= j < k && #[trigger] similar_spec(acc[j], cv),
            decreases primary.len() - k,
        {
            let same = similar_table(&primary[k], &candidate);
            assert(acc[k as int] == primary@[k as int]@);
            if same {
                dup = true;
            }
            k += 1;
        }
        if !dup {
            primary.push(candidate);
            assert(tables_view(primary@) =~= acc.push(cv));
        }
        taken += 1;
        assert(tables_view(rest@) =~= s0.subrange(taken as int, total as int));
    }
    assert(s0.take(total as int) =~= s0);
    primary
}

/// The sum of the non-blank cell counts of tables.
pub open spec fn tables_nonblank(ts: Seq<TableView>) -> nat
    decreases ts.len(),
{
    if ts.len() == 0 {
        0
    } else {
        tables_nonblank(ts.drop_last()) + table_nonblank(ts.last())
    }
}

/// The sum of the cell counts of tables.
pub open spec fn tables_total(ts: Seq<TableView>) -> nat
    decreases ts.len(),
{
    if ts.len() == 0 {
        0
    } else {
        tables_total(ts.drop_last()) + table_total(ts.last())
    }
}

/// The tables of both strategies: when one found none, the other's; else
/// those of the one with more non-blank cells (lattice on a tie), followed by
/// the other's that duplicate none of them.
pub open spec fn blend_spec(lattice: Seq<TableView>, stream: Seq<TableView>) -> Seq<TableView> {
    if lattice.len() == 0 {
        stream
    } else if stream.len() == 0 {
        lattice
    } else if tables_nonblank(lattice) >= tables_nonblank(stream) {
        merge_tables_spec(lattice, stream)
    } else {
        merge_tables_spec(stream, lattice)
    }
}

proof fn lemma_tables_total_prefix(ts: Seq<TableView>, k: int)
    requires
        0 <= k <= ts.len(),
    ensures
        tables_total(ts.take(k)) <= tables_total(ts),
    decreases ts.len() - k,
{
    if k < ts.len() {
        lemma_tables_total_prefix(ts, k + 1);
        assert(ts.take(k + 1).drop_last() =~= ts.take(k));
    } else {
        assert(ts.take(k) =~= ts);
    }
}

proof fn lemma_nonblank_le_total(ts: Seq<TableView>)
    ensures
        tables_nonblank(ts) <= tables_total(ts),
    decreases ts.len(),
{
    if ts.len() > 0 {
        lemma_nonblank_le_total(ts.drop_last());
        crate::grid::lemma_rows_nonblank_bounded(table_cells(ts.last()));
    }
}

/// Non-blank cells never outnumber cells.
pub proof fn lemma_nonblank_le_total_pub(ts: Seq<TableView>)
    ensures
        tables_nonblank(ts) <= tables_total(ts),
{
    lemma_nonblank_le_total(ts);
}

fn score(tables: &Vec<Table>) -> (n: usize)
    requires
        tables_total(tables_view(tables@)) <= usize::MAX,
    ensures
        n == tables_nonblank(tables_view(tables@)),
{
    let ghost all = tables_view(tables@);
    let mut n: usize = 0;
    let mut i: usize = 0;
    while i < tables.len()
        invariant
            i <= tables.len(),
            all == tables_view(tables@),
            tables_total(all) <= usize::MAX,
            n == tables_nonblank(all.take(i as int)),
        decreases tables.len() - i,
    {
        assert(all.take(i + 1).drop_last() =~= all.take(i as int));
        assert(all.take(i + 1).last() == tables@[i as int]@);
        proof {
            lemma_tables_total_prefix(all, i + 1);
            lemma_nonblank_le_total(all.take(i + 1));
            lemma_tables_total_prefix(all, i as int);
        }
        assert(table_total(tables@[i as int]@) <= usize::MAX);
        let k = table_non_empty_cells(&tables[i]);
        n = n + k;
        i += 1;
    }
    assert(all.take(tables.len() as int) =~= all);
    n
}

/// Combines the tables of the lattice and stream strategies.
pub fn blend_tables(lattice: Vec<Table>, stream: Vec<Table>) -> (r: Vec<Table>)
    requires
        tables_total(tables_view(lattice@)) <= usize::MAX,
        tables_total(tables_view(stream@)) <= usize::MAX,
    ensures
        tables_view(r@) == blend_spec(tables_view(lattice@), tables_view(stream@)),
{
    if lattice.len() == 0 {
        return stream;
    }
    if stream.len() == 0 {
        return lattice;
    }
    let lattice_score = score(&lattice);
    let stream_score = score(&stream);
    if lattice_score >= stream_score {
        merge_tables(lattice, stream)
    } else {
        merge_tables(stream, lattice)
    }
}

/// The message for a router model that this build cannot run.
pub open spec fn model_unsupported_message() -> Seq<char> {
    "DL 모델을 사용하려면 `--features dl`로 빌드해야 합니다"@
}

/// Rejects a router model path: this build runs the built-in router only.
pub fn check_model_path(has_model_path: bool) -> (r: Result<(), TrexError>)
    ensures
        has_model_path ==> (r matches Err(TrexError::Dl(m)) && m@ == model_unsupported_message()),
        !has_model_path ==> r is Ok,
{
    if has_model_path {
        return Err(TrexError::Dl(String::from_str("DL 모델을 사용하려면 `--features dl`로 빌드해야 합니다")));
    }
    Ok(())
}


/// Law: whether two tables hold the same data does not depend on their order.
pub proof fn lemma_similar_symmetric(l: TableView, r: TableView)
    ensures
        similar_spec(l, r) == similar_spec(r, l),
{
    let a = token_set(l);
    let b = token_set(r);
    assert(a.intersect(b) =~= b.intersect(a));
    assert(a.union(b) =~= b.union(a));
}

/// Law: merging keeps the first list as it is, in front, and appends only
/// tables of the second list, each one similar to no table before it.
pub proof fn lemma_merge_keeps_primary(primary: Seq<TableView>, secondary: Seq<TableView>)
    ensures
        primary.len() <= merge_tables_spec(primary, secondary).len() <= primary.len() + secondary.len(),
        merge_tables_spec(primary, secondary).subrange(0, primary.len() as int) == primary,
        forall|k: int|
            primary.len() <= k < merge_tables_spec(primary, secondary).len() ==> secondary.contains(
                #[trigger] merge_tables_spec(primary, secondary)[k],
            ),
        forall|j: int, k: int|
            0 <= j < k && primary.len() <= k < merge_tables_spec(primary, secondary).len() ==> !similar_spec(
                #[trigger] merge_tables_spec(primary, secondary)[j],
                #[trigger] merge_tables_spec(primary, secondary)[k],
            ),
    decreases secondary.len(),
{
    let out = merge_tables_spec(primary, secondary);
    if secondary.len() == 0 {
        assert(out.subrange(0, primary.len() as int) =~= primary);
    } else {
        let s2 = secondary.drop_last();
        lemma_merge_keeps_primary(primary, s2);
        let acc = merge_tables_spec(primary, s2);
        let c = secondary.last();
        assert forall|k: int| primary.len() <= k < acc.len() implies secondary.contains(#[trigger] acc[k]) by {
            assert(s2.contains(acc[k]));
            let q = choose|q: int| 0 <= q < s2.len() && s2[q] == acc[k];
            assert(secondary[q] == acc[k]);
        }
        if exists|k: int| 0 <= k < acc.len() && #[trigger] similar_spec(acc[k], c) {
            assert(out == acc);
        } else {
            assert(out == acc.push(c));
            assert(out.subrange(0, primary.len() as int) =~= acc.subrange(0, primary.len() as int));
            assert forall|k: int| primary.len() <= k < out.len() implies secondary.contains(#[trigger] out[k]) by {
                if k < acc.len() {
                    assert(out[k] == acc[k]);
                } else {
                    assert(secondary[secondary.len() - 1] == c);
                }
            }
            assert forall|j: int, k: int|
                0 <= j < k && primary.len() <= k < out.len() implies !similar_spec(#[trigger] out[j], #[trigger] out[k]) by {
                if k < acc.len() {
                    assert(out[j] == acc[j] && out[k] == acc[k]);
                } else {
                    assert(out[j] == acc[j] && out[k] == c);
                    if similar_spec(acc[j], c) {
                        assert(exists|q: int| 0 <= q < acc.len() && #[trigger] similar_spec(acc[q], c));
                    }
                }
            }
        }
    }
}


/// Law: no table of the second list is lost: each one is in the merged list,
/// or the merged list holds a table similar to it.
pub proof fn lemma_merge_complete(primary: Seq<TableView>, secondary: Seq<TableView>)
    ensures
        forall|j: int|
            0 <= j < secondary.len() ==> merge_tables_spec(primary, secondary).contains(
                #[trigger] secondary[j],
            ) || exists|k: int|
                0 <= k < merge_tables_spec(primary, secondary).len() && similar_spec(
                    #[trigger] merge_tables_spec(primary, secondary)[k],
                    secondary[j],
                ),
    decreases secondary.len(),
{
    if secondary.len() > 0 {
        let d = secondary.drop_last();
        let c = secondary.last();
        lemma_merge_complete(primary, d);
        let acc = merge_tables_spec(primary, d);
        let out = merge_tables_spec(primary, secondary);
        lemma_merge_extends(primary, d, c);
        assert forall|j: int| 0 <= j < secondary.len() implies out.contains(#[trigger] secondary[j])
            || exists|k: int| 0 <= k < out.len() && similar_spec(#[trigger] out[k], secondary[j]) by {
            if j < d.len() {
                assert(d[j] == secondary[j]);
                if acc.contains(d[j]) {
                    let k = choose|k: int| 0 <= k < acc.len() && acc[k] == d[j];
                    assert(out[k] == acc[k]);
                } else {
                    let k = choose|k: int| 0 <= k < acc.len() && similar_spec(#[trigger] acc[k], d[j]);
                    assert(out[k] == acc[k]);
                }
            } else {
                assert(secondary[j] == c);
                if exists|k: int| 0 <= k < acc.len() && #[trigger] similar_spec(acc[k], c) {
                    let k = choose|k: int| 0 <= k < acc.len() && #[trigger] similar_spec(acc[k], c);
                    assert(out[k] == acc[k]);
                } else {
                    assert(out[acc.len() as int] == c);
                }
            }
        }
    }
}

proof fn lemma_merge_extends(primary: Seq<TableView>, d: Seq<TableView>, c: TableView)
    ensures
        merge_tables_spec(primary, d.push(c)).len() >= merge_tables_spec(primary, d).len(),
        merge_tables_spec(primary, d.push(c)).take(merge_tables_spec(primary, d).len() as int)
            == merge_tables_spec(primary, d),
{
    let s = d.push(c);
    assert(s.drop_last() =~= d);
    assert(s.last() == c);
    let acc = merge_tables_spec(primary, d);
    assert(merge_tables_spec(primary, s).take(acc.len() as int) =~= acc);
}

/// Law: merging a longer part of the second list only appends: the merge of
/// each prefix of the second list is a prefix of the whole merge.
pub proof fn lemma_merge_prefix(primary: Seq<TableView>, secondary: Seq<TableView>, j: int)
    requires
        0 <= j <= secondary.len(),
    ensures
        merge_tables_spec(primary, secondary.take(j)).len() <= merge_tables_spec(
            primary,
            secondary,
        ).len(),
        merge_tables_spec(primary, secondary).take(
            merge_tables_spec(primary, secondary.take(j)).len() as int,
        ) == merge_tables_spec(primary, secondary.take(j)),
    decreases secondary.len() - j,
{
    let out = merge_tables_spec(primary, secondary);
    let m = merge_tables_spec(primary, secondary.take(j));
    if j == secondary.len() {
        assert(secondary.take(j) =~= secondary);
        assert(out.take(out.len() as int) =~= out);
    } else {
        lemma_merge_prefix(primary, secondary, j + 1);
        let t = secondary.take(j);
        assert(t.push(secondary[j]) =~= secondary.take(j + 1));
        lemma_merge_extends(primary, t, secondary[j]);
        let m1 = merge_tables_spec(primary, secondary.take(j + 1));
        assert(out.take(m.len() as int) =~= out.take(m1.len() as int).take(m.len() as int));
    }
}


/// How many tokens two tables share.
pub open spec fn shared_tokens(l: TableView, r: TableView) -> nat {
    token_set(l).intersect(token_set(r)).len()
}

/// How many tokens two tables hold together.
pub open spec fn all_tokens(l: TableView, r: TableView) -> nat {
    token_set(l).union(token_set(r)).len()
}

/// Two tables' shapes differ by at most one row and one column.
pub open spec fn shapes_close(l: TableView, r: TableView) -> bool {
    count_diff(l.rows.len(), r.rows.len()) <= 1 && count_diff(l.headers.len(), r.headers.len()) <= 1
}

proof fn lemma_f32_count_small(n: nat)
    requires
        n < 16777216,
    ensures
        f32_count(n) == n,
{
    reveal_with_fuel(pow2, 25);
    lemma_bit_len_bound(n, 24);
}

proof fn lemma_f32_count_positive(n: nat)
    requires
        n > 0,
    ensures
        f32_count(n) > 0,
{
    if bit_len(n) > 24 {
        let p = pow2((bit_len(n) - 24) as nat);
        lemma_pow2_bit_len(n);
        lemma_pow2_monotone((bit_len(n) - 24) as nat, (bit_len(n) - 1) as nat);
        lemma_pow2_positive((bit_len(n) - 24) as nat);
        assert(n / p >= 1) by (nonlinear_arith)
            requires
                n >= p,
                p >= 1,
        ;
        let q = n / p;
        let r = n % p;
        let q2 = if r * 2 > p || (r * 2 == p && q % 2 == 1) {
            q + 1
        } else {
            q
        };
        assert(q2 * p >= 1) by (nonlinear_arith)
            requires
                q2 >= 1,
                p >= 1,
        ;
    }
}

/// Law: every table holds the same data as itself.
pub proof fn lemma_similar_reflexive(t: TableView)
    ensures
        similar_spec(t, t),
{
    let a = token_set(t);
    assert(a.intersect(a) =~= a);
    assert(a.union(a) =~= a);
}

/// Law: tables that share no token, and hold some token between them, never
/// hold the same data.
pub proof fn lemma_disjoint_not_similar(l: TableView, r: TableView)
    requires
        shared_tokens(l, r) == 0,
        all_tokens(l, r) > 0,
    ensures
        !similar_spec(l, r),
{
    lemma_f32_count_small(0);
    lemma_f32_count_positive(all_tokens(l, r));
}

/// Law: the thresholds are 85% of the tokens held together, or 55% for
/// tables of close shapes: a share of at least 86% (56% for close shapes)
/// makes two tables similar, and one of at most 84% (54% for any shapes)
/// does not, as long as the counts are below 2^24, where an `f32` holds
/// them exactly.
pub proof fn lemma_similarity_thresholds(l: TableView, r: TableView)
    requires
        all_tokens(l, r) < 16777216,
        shared_tokens(l, r) < 16777216,
    ensures
        100 * shared_tokens(l, r) >= 86 * all_tokens(l, r) ==> similar_spec(l, r),
        shapes_close(l, r) && 100 * shared_tokens(l, r) >= 56 * all_tokens(l, r) ==> similar_spec(
            l,
            r,
        ),
        all_tokens(l, r) > 0 && 100 * shared_tokens(l, r) <= 54 * all_tokens(l, r) ==> !similar_spec(
            l,
            r,
        ),
        all_tokens(l, r) > 0 && !shapes_close(l, r) && 100 * shared_tokens(l, r) <= 84 * all_tokens(
            l,
            r,
        ) ==> !similar_spec(l, r),
{
    let i = shared_tokens(l, r);
    let u = all_tokens(l, r);
    lemma_f32_count_small(i);
    lemma_f32_count_small(u);
    if 100 * i >= 86 * u {
        assert(i * 33554432 >= 28521267 * u) by (nonlinear_arith)
            requires
                100 * i >= 86 * u,
        ;
    }
    if 100 * i >= 56 * u {
        assert(u == 0 || i * 33554432 > 18454937 * u) by (nonlinear_arith)
            requires
                100 * i >= 56 * u,
        ;
    }
    if u > 0 && 100 * i <= 84 * u {
        assert(i * 33554432 < 28521267 * u) by (nonlinear_arith)
            requires
                100 * i <= 84 * u,
                u > 0,
        ;
    }
    if u > 0 && 100 * i <= 54 * u {
        assert(i * 33554432 <= 18454937 * u) by (nonlinear_arith)
            requires
                100 * i <= 54 * u,
                u > 0,
        ;
        assert(i * 33554432 < 28521267 * u) by (nonlinear_arith)
            requires
                100 * i <= 54 * u,
                u > 0,
        ;
    }
}


proof fn lemma_merge_covers(primary: Seq<TableView>, secondary: Seq<TableView>)
    ensures
        forall|t: TableView|
            #[trigger] primary.contains(t) || secondary.contains(t) ==> merge_tables_spec(
                primary,
                secondary,
            ).contains(t) || exists|k: int|
                0 <= k < merge_tables_spec(primary, secondary).len() && similar_spec(
                    #[trigger] merge_tables_spec(primary, secondary)[k],
                    t,
                ),
        forall|k: int|
            0 <= k < merge_tables_spec(primary, secondary).len() ==> primary.contains(
                #[trigger] merge_tables_spec(primary, secondary)[k],
            ) || secondary.contains(merge_tables_spec(primary, secondary)[k]),
{
    let out = merge_tables_spec(primary, secondary);
    lemma_merge_keeps_primary(primary, secondary);
    lemma_merge_complete(primary, secondary);
    assert forall|t: TableView| #[trigger] primary.contains(t) || secondary.contains(t) implies out.contains(t)
        || exists|k: int| 0 <= k < out.len() && similar_spec(#[trigger] out[k], t) by {
        if primary.contains(t) {
            let q = choose|q: int| 0 <= q < primary.len() && primary[q] == t;
            assert(out.subrange(0, primary.len() as int)[q] == out[q]);
        } else {
            let q = choose|q: int| 0 <= q < secondary.len() && secondary[q] == t;
            assert(secondary[q] == t);
        }
    }
    assert forall|k: int| 0 <= k < out.len() implies primary.contains(#[trigger] out[k])
        || secondary.contains(out[k]) by {
        if k < primary.len() {
            assert(out.subrange(0, primary.len() as int)[k] == out[k]);
            assert(primary[k] == out[k]);
        }
    }
}

proof fn lemma_merge_covers_one(primary: Seq<TableView>, secondary: Seq<TableView>, t: TableView)
    requires
        primary.contains(t) || secondary.contains(t),
    ensures
        merge_tables_spec(primary, secondary).contains(t) || exists|k: int|
            0 <= k < merge_tables_spec(primary, secondary).len() && similar_spec(
                #[trigger] merge_tables_spec(primary, secondary)[k],
                t,
            ),
{
    lemma_merge_covers(primary, secondary);
    assert(primary.contains(t) || secondary.contains(t));
}

/// Law: blending the two strategies' tables loses none of them and makes up
/// none: each table of either list is in the result or the result holds a
/// table similar to it; each table of the result comes from one of the
/// lists; and when both found tables, the richer list (lattice on a tie)
/// leads the result unchanged.
pub proof fn lemma_blend_keeps_all(lattice: Seq<TableView>, stream: Seq<TableView>)
    ensures
        forall|t: TableView|
            #[trigger] lattice.contains(t) || stream.contains(t) ==> blend_spec(lattice, stream).contains(t)
                || exists|k: int|
                0 <= k < blend_spec(lattice, stream).len() && similar_spec(
                    #[trigger] blend_spec(lattice, stream)[k],
                    t,
                ),
        forall|k: int|
            0 <= k < blend_spec(lattice, stream).len() ==> lattice.contains(
                #[trigger] blend_spec(lattice, stream)[k],
            ) || stream.contains(blend_spec(lattice, stream)[k]),
        lattice.len() > 0 && stream.len() > 0 && tables_nonblank(lattice) >= tables_nonblank(stream)
            ==> blend_spec(lattice, stream).subrange(0, lattice.len() as int) == lattice,
        lattice.len() > 0 && stream.len() > 0 && tables_nonblank(lattice) < tables_nonblank(stream)
            ==> blend_spec(lattice, stream).subrange(0, stream.len() as int) == stream,
{
    lemma_merge_covers(lattice, stream);
    lemma_merge_covers(stream, lattice);
    lemma_merge_keeps_primary(lattice, stream);
    lemma_merge_keeps_primary(stream, lattice);
    let out = blend_spec(lattice, stream);
    assert forall|t: TableView| #[trigger] lattice.contains(t) || stream.contains(t) implies out.contains(t)
        || exists|k: int| 0 <= k < out.len() && similar_spec(#[trigger] out[k], t) by {
        if lattice.len() == 0 {
            assert(!lattice.contains(t));
        } else if stream.len() == 0 {
            assert(!stream.contains(t));
        } else if tables_nonblank(lattice) >= tables_nonblank(stream) {
            assert(lattice.contains(t) || stream.contains(t));
            lemma_merge_covers_one(lattice, stream, t);
        } else {
            lemma_merge_covers_one(stream, lattice, t);
        }
    }
}

} // verus!
