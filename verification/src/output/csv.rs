//! CSV output.

use vstd::prelude::*;

use crate::text::{chars_of, join_spec, push_chars};
use crate::{strings_view, tables_view, Table, TableView, TrexError};

verus! {

/// A cell must be quoted when it holds a comma, a double quote or a line feed.
pub open spec fn needs_quotes(cell: Seq<char>) -> bool {
    cell.contains(',') || cell.contains('"') || cell.contains('\n')
}

/// The cell with each double quote doubled.
pub open spec fn double_quotes(cell: Seq<char>) -> Seq<char>
    decreases cell.len(),
{
    if cell.len() == 0 {
        Seq::empty()
    } else {
        double_quotes(cell.drop_last()) + if cell.last() == '"' {
            seq!['"', '"']
        } else {
            seq![cell.last()]
        }
    }
}

/// A cell as written: quoted, with its quotes doubled, when it must be;
/// unchanged otherwise.
pub open spec fn escape_cell(cell: Seq<char>) -> Seq<char> {
    if needs_quotes(cell) {
        seq!['"'] + double_quotes(cell) + seq!['"']
    } else {
        cell
    }
}

/// A row as written: its escaped cells joined by commas.
pub open spec fn csv_row(row: Seq<Seq<char>>) -> Seq<char> {
    join_spec(row.map_values(|c: Seq<char>| escape_cell(c)), seq![','])
}

/// Rows as written, each followed by a line feed.
pub open spec fn csv_rows(rows: Seq<Seq<Seq<char>>>) -> Seq<char>
    decreases rows.len(),
{
    if rows.len() == 0 {
        Seq::empty()
    } else {
        csv_rows(rows.drop_last()) + csv_row(rows.last()) + seq!['\n']
    }
}

/// A table as written: the header row, then the data rows.
pub open spec fn csv_table(t: TableView) -> Seq<char> {
    csv_rows(seq![t.headers] + t.rows)
}

/// Tables as written, with an empty line between two tables.
pub open spec fn csv_spec(tables: Seq<TableView>) -> Seq<char>
    decreases tables.len(),
{
    if tables.len() == 0 {
        Seq::empty()
    } else if tables.len() == 1 {
        csv_table(tables[0])
    } else {
        csv_spec(tables.drop_last()) + seq!['\n'] + csv_table(tables.last())
    }
}

proof fn lemma_contains_push(s: Seq<char>, c: char, x: char)
    ensures
        s.push(c).contains(x) == (s.contains(x) || c == x),
{
    let t = s.push(c);
    if s.contains(x) {
        let k = choose|k: int| 0 <= k < s.len() && s[k] == x;
        assert(t[k] == x);
    }
    if c == x {
        assert(t[s.len() as int] == x);
    }
    if t.contains(x) {
        let k = choose|k: int| 0 <= k < t.len() && t[k] == x;
        if k < s.len() {
            assert(s[k] == x);
        }
    }
}

fn push_escaped(out: &mut String, cell: &String)
    ensures
        final(out)@ == old(out)@ + escape_cell(cell@),
{
    let c = chars_of(cell.as_str());
    let mut quote = false;
    let mut i: usize = 0;
    while i < c.len()
        invariant
            i <= c.len(),
            quote == needs_quotes(c@.take(i as int)),
        decreases c.len() - i,
    {
        let ch = c[i];
        proof {
            let pre = c@.take(i as int);
            let post = c@.take(i + 1);
            assert(post =~= pre.push(ch));
            lemma_contains_push(pre, ch, ',');
            lemma_contains_push(pre, ch, '"');
            lemma_contains_push(pre, ch, '\n');
        }
        if ch == ',' || ch == '"' || ch == '\n' {
            quote = true;
        }
        i += 1;
    }
    assert(c@.take(c.len() as int) =~= c@);
    if !quote {
        push_chars(out, &c);
        return;
    }
    let ghost start = out@;
    out.push('"');
    let mut k: usize = 0;
    while k < c.len()
        invariant
            k <= c.len(),
            out@ == start + seq!['"'] + double_quotes(c@.take(k as int)),
        decreases c.len() - k,
    {
        let ch = c[k];
        assert(c@.take(k + 1).drop_last() =~= c@.take(k as int));
        assert(c@.take(k + 1).last() == ch);
        if ch == '"' {
            out.push('"');
            out.push('"');
        } else {
            out.push(ch);
        }
        k += 1;
        assert(out@ =~= start + seq!['"'] + double_quotes(c@.take(k as int)));
    }
    out.push('"');
    assert(out@ =~= start + escape_cell(cell@));
}

fn push_row(out: &mut String, row: &Vec<String>)
    ensures
        final(out)@ == old(out)@ + csv_row(strings_view(row@)) + seq!['\n'],
{
    let ghost start = out@;
    let ghost cells = strings_view(row@).map_values(|c: Seq<char>| escape_cell(c));
    let mut j: usize = 0;
    while j < row.len()
        invariant
            j <= row.len(),
            cells.len() == row.len(),
            cells == strings_view(row@).map_values(|c: Seq<char>| escape_cell(c)),
            out@ == start + join_spec(cells.take(j as int), seq![',']),
        decreases row.len() - j,
    {
        assert(cells.take(j + 1).drop_last() =~= cells.take(j as int));
        assert(cells.take(j + 1).last() == escape_cell(row@[j as int]@));
        if j > 0 {
            out.push(',');
        }
        push_escaped(out, &row[j]);
        j += 1;
        proof {
            if j == 1 {
                assert(out@ =~= start + join_spec(cells.take(j as int), seq![',']));
            } else {
                assert(out@ =~= start + join_spec(cells.take(j as int), seq![',']));
            }
        }
    }
    assert(cells.take(row.len() as int) =~= cells);
    out.push('\n');
}

fn push_table(out: &mut String, table: &Table)
    ensures
        final(out)@ == old(out)@ + csv_table(table@),
{
    let ghost start = out@;
    let ghost all = seq![table@.headers] + table@.rows;
    push_row(out, &table.headers);
    assert(all.take(1).drop_last() =~= Seq::<Seq<Seq<char>>>::empty());
    assert(all.take(1).len() == 1);
    assert(all.take(1).last() == strings_view(table.headers@));
    assert(csv_rows(all.take(1).drop_last()) =~= Seq::<char>::empty());
    assert(csv_rows(all.take(1)) =~= csv_row(strings_view(table.headers@)) + seq!['\n']);
    assert(out@ =~= start + csv_rows(all.take(1)));
    let mut i: usize = 0;
    while i < table.rows.len()
        invariant
            i <= table.rows.len(),
            all == seq![table@.headers] + table@.rows,
            all.len() == table.rows.len() + 1,
            out@ == start + csv_rows(all.take(i + 1)),
        decreases table.rows.len() - i,
    {
        assert(all.take(i + 2).drop_last() =~= all.take(i + 1));
        assert(all.take(i + 2).last() == strings_view(table.rows@[i as int]@));
        push_row(out, &table.rows[i]);
        i += 1;
        assert(out@ =~= start + csv_rows(all.take(i + 1)));
    }
    assert(all.take(table.rows.len() + 1) =~= all);
}

/// Writes tables as CSV: each row on a line of its own, cells separated by
/// commas and quoted where they must be, tables separated by an empty line.
pub fn to_string(tables: &[Table]) -> (r: Result<String, TrexError>)
    ensures
        r matches Ok(s) && s@ == csv_spec(tables_view(tables@)),
{
    let mut output = String::new();
    let ghost all = tables_view(tables@);
    let mut i: usize = 0;
    while i < tables.len()
        invariant
            i <= tables.len(),
            all == tables_view(tables@),
            all.len() == tables@.len(),
            output@ == csv_spec(all.take(i as int)),
        decreases tables.len() - i,
    {
        assert(all.take(i + 1).drop_last() =~= all.take(i as int));
        assert(all.take(i + 1).last() == tables@[i as int]@);
        if i > 0 {
            output.push('\n');
        }
        push_table(&mut output, &tables[i]);
        i += 1;
        proof {
            if i == 1 {
                assert(all.take(1)[0] == all.take(1).last());
                assert(output@ =~= csv_spec(all.take(i as int)));
            } else {
                assert(output@ =~= csv_spec(all.take(i as int)));
            }
        }
    }
    assert(all.take(tables.len() as int) =~= all);
    Ok(output)
}


/// Law: tables are written one after another, an empty line between two.
pub proof fn lemma_csv_tables_separated(ts: Seq<TableView>, t: TableView)
    requires
        ts.len() > 0,
    ensures
        csv_spec(ts.push(t)) == csv_spec(ts) + seq!['\n'] + csv_table(t),
{
    assert(ts.push(t).drop_last() =~= ts);
}


/// Where a reader of CSV text stands within the current line.
pub enum ReadMode {
    /// At the start of a line.
    LineStart,
    /// At the start of a field after a comma.
    FieldStart,
    /// Inside a field that did not open with a double quote.
    Unquoted,
    /// Inside a quoted field.
    Quoted,
    /// Inside a quoted field, right after a double quote.
    QuoteSeen,
}

/// What a reader of CSV text has gathered so far.
pub struct ReadState {
    /// The tables that an empty line has closed.
    pub done: Seq<Seq<Seq<Seq<char>>>>,
    /// The records of the table being read.
    pub table: Seq<Seq<Seq<char>>>,
    /// The fields of the record being read.
    pub record: Seq<Seq<char>>,
    /// The field being read.
    pub field: Seq<char>,
    /// Where the reader stands.
    pub mode: ReadMode,
}

/// The reader before any character.
pub open spec fn read_start() -> ReadState {
    ReadState {
        done: Seq::empty(),
        table: Seq::empty(),
        record: Seq::empty(),
        field: Seq::empty(),
        mode: ReadMode::LineStart,
    }
}

/// The current field closed by a comma.
pub open spec fn end_field(st: ReadState) -> ReadState {
    ReadState {
        record: st.record.push(st.field),
        field: Seq::empty(),
        mode: ReadMode::FieldStart,
        ..st
    }
}

/// The current record closed by a line feed.
pub open spec fn end_record(st: ReadState) -> ReadState {
    ReadState {
        table: st.table.push(st.record.push(st.field)),
        record: Seq::empty(),
        field: Seq::empty(),
        mode: ReadMode::LineStart,
        ..st
    }
}

/// The current table closed by an empty line.
pub open spec fn end_table(st: ReadState) -> ReadState {
    if st.table.len() > 0 {
        ReadState { done: st.done.push(st.table), table: Seq::empty(), ..st }
    } else {
        st
    }
}

/// One character read in RFC 4180 fashion: a field that opens with a double
/// quote runs to the next lone double quote, a doubled quote inside it
/// stands for one; outside quotes a comma ends a field, a line feed ends a
/// record, and a line feed on an empty line ends a table.
pub open spec fn read_char(st: ReadState, c: char) -> ReadState {
    match st.mode {
        ReadMode::LineStart | ReadMode::FieldStart => {
            if c == '\n' {
                if st.mode == ReadMode::LineStart {
                    end_table(st)
                } else {
                    end_record(st)
                }
            } else if c == ',' {
                end_field(st)
            } else if c == '"' {
                ReadState { mode: ReadMode::Quoted, ..st }
            } else {
                ReadState { field: st.field.push(c), mode: ReadMode::Unquoted, ..st }
            }
        },
        ReadMode::Unquoted => {
            if c == '\n' {
                end_record(st)
            } else if c == ',' {
                end_field(st)
            } else {
                ReadState { field: st.field.push(c), ..st }
            }
        },
        ReadMode::Quoted => {
            if c == '"' {
                ReadState { mode: ReadMode::QuoteSeen, ..st }
            } else {
                ReadState { field: st.field.push(c), ..st }
            }
        },
        ReadMode::QuoteSeen => {
            if c == '"' {
                ReadState { field: st.field.push('"'), mode: ReadMode::Quoted, ..st }
            } else if c == '\n' {
                end_record(st)
            } else if c == ',' {
                end_field(st)
            } else {
                ReadState { field: st.field.push(c), mode: ReadMode::Unquoted, ..st }
            }
        },
    }
}

/// The reader after the given characters, from the given state.
pub open spec fn read_from(st: ReadState, s: Seq<char>) -> ReadState
    decreases s.len(),
{
    if s.len() == 0 {
        st
    } else {
        read_char(read_from(st, s.drop_last()), s.last())
    }
}

/// The tables that CSV text holds: each a list of records, each a list of
/// fields; a record left open at the end is closed, and so is the last table.
pub open spec fn read_csv(s: Seq<char>) -> Seq<Seq<Seq<Seq<char>>>> {
    let st = read_from(read_start(), s);
    let last = if st.mode == ReadMode::LineStart {
        st
    } else {
        end_record(st)
    };
    end_table(last).done
}

/// The records of a table as written: the header row, then the data rows.
pub open spec fn table_records(t: TableView) -> Seq<Seq<Seq<char>>> {
    seq![t.headers] + t.rows
}

/// A record that CSV text can tell from an empty line: it has a field, and
/// is not one empty field alone.
pub open spec fn writable_record(r: Seq<Seq<char>>) -> bool {
    r.len() > 0 && !(r.len() == 1 && r[0].len() == 0)
}

/// The reader has just taken the given field of a record whose earlier
/// fields are `record`, with what it had read before unchanged.
pub open spec fn after_field(
    st: ReadState,
    base: ReadState,
    record: Seq<Seq<char>>,
    field: Seq<char>,
) -> bool {
    &&& st.done == base.done
    &&& st.table == base.table
    &&& st.record == record
    &&& st.field == field
    &&& (st.mode == ReadMode::Unquoted || st.mode == ReadMode::QuoteSeen || (field.len() == 0
        && (st.mode == ReadMode::FieldStart || (st.mode == ReadMode::LineStart && record.len()
        == 0))))
}

proof fn lemma_read_concat(st: ReadState, a: Seq<char>, b: Seq<char>)
    ensures
        read_from(st, a + b) == read_from(read_from(st, a), b),
    decreases b.len(),
{
    if b.len() == 0 {
        assert(a + b =~= a);
    } else {
        assert((a + b).drop_last() =~= a + b.drop_last());
        assert((a + b).last() == b.last());
        lemma_read_concat(st, a, b.drop_last());
    }
}

proof fn lemma_read_one(st: ReadState, c: char)
    ensures
        read_from(st, seq![c]) == read_char(st, c),
{
    let s = seq![c];
    assert(s.drop_last() =~= Seq::<char>::empty());
    assert(s.last() == c);
    assert(read_from(st, s.drop_last()) == st);
}

proof fn lemma_read_plain(st: ReadState, cell: Seq<char>)
    requires
        st.mode == ReadMode::LineStart || st.mode == ReadMode::FieldStart,
        st.field.len() == 0,
        cell.len() > 0,
        !needs_quotes(cell),
        !cell.contains('"'),
    ensures
        read_from(st, cell) == (ReadState { field: cell, mode: ReadMode::Unquoted, ..st }),
    decreases cell.len(),
{
    let l = cell.last();
    assert(cell[cell.len() - 1] == l);
    assert(l != ',' && l != '\n' && l != '"');
    if cell.len() == 1 {
        assert(cell.drop_last() =~= Seq::<char>::empty());
        assert(read_from(st, cell.drop_last()) == st);
        assert(st.field.push(l) =~= cell);
    } else {
        let d = cell.drop_last();
        assert forall|x: char| d.contains(x) implies cell.contains(x) by {
            let k = choose|k: int| 0 <= k < d.len() && d[k] == x;
            assert(cell[k] == x);
        }
        lemma_read_plain(st, d);
        assert(d.push(l) =~= cell);
    }
}

proof fn lemma_read_doubled(st: ReadState, cell: Seq<char>)
    requires
        st.mode == ReadMode::Quoted,
    ensures
        read_from(st, double_quotes(cell)) == (ReadState { field: st.field + cell, ..st }),
    decreases cell.len(),
{
    if cell.len() == 0 {
        assert(st.field + cell =~= st.field);
    } else {
        let d = cell.drop_last();
        lemma_read_doubled(st, d);
        let mid = ReadState { field: st.field + d, ..st };
        let tail = if cell.last() == '"' {
            seq!['"', '"']
        } else {
            seq![cell.last()]
        };
        lemma_read_concat(st, double_quotes(d), tail);
        if cell.last() == '"' {
            assert(tail =~= seq!['"'] + seq!['"']);
            lemma_read_concat(mid, seq!['"'], seq!['"']);
            lemma_read_one(mid, '"');
            lemma_read_one(ReadState { mode: ReadMode::QuoteSeen, ..mid }, '"');
        } else {
            lemma_read_one(mid, cell.last());
        }
        assert((st.field + d).push(cell.last()) =~= st.field + cell);
    }
}

proof fn lemma_read_cell(st: ReadState, cell: Seq<char>)
    requires
        st.field.len() == 0,
        st.mode == ReadMode::FieldStart || (st.mode == ReadMode::LineStart && st.record.len()
            == 0),
    ensures
        after_field(read_from(st, escape_cell(cell)), st, st.record, cell),
{
    if needs_quotes(cell) {
        let inner = double_quotes(cell);
        let opened = ReadState { mode: ReadMode::Quoted, ..st };
        lemma_read_concat(st, seq!['"'] + inner, seq!['"']);
        lemma_read_concat(st, seq!['"'], inner);
        lemma_read_one(st, '"');
        lemma_read_doubled(opened, cell);
        let filled = ReadState { field: st.field + cell, ..opened };
        lemma_read_one(filled, '"');
        assert(st.field + cell =~= cell);
    } else if cell.len() == 0 {
        assert(escape_cell(cell) =~= Seq::<char>::empty());
    } else {
        lemma_read_plain(st, cell);
    }
}

proof fn lemma_read_row_prefix(st: ReadState, row: Seq<Seq<char>>, k: int)
    requires
        st.mode == ReadMode::LineStart,
        st.record.len() == 0,
        st.field.len() == 0,
        1 <= k <= row.len(),
    ensures
        after_field(
            read_from(
                st,
                join_spec(row.map_values(|c: Seq<char>| escape_cell(c)).take(k), seq![',']),
            ),
            st,
            row.take(k - 1),
            row[k - 1],
        ),
    decreases k,
{
    let cells = row.map_values(|c: Seq<char>| escape_cell(c));
    if k == 1 {
        assert(cells.take(1).len() == 1);
        assert(cells.take(1)[0] == escape_cell(row[0]));
        assert(join_spec(cells.take(1), seq![',']) == escape_cell(row[0]));
        assert(row.take(0) =~= st.record);
        lemma_read_cell(st, row[0]);
    } else {
        lemma_read_row_prefix(st, row, k - 1);
        let prev = join_spec(cells.take(k - 1), seq![',']);
        assert(cells.take(k).drop_last() =~= cells.take(k - 1));
        assert(cells.take(k).last() == escape_cell(row[k - 1]));
        assert(join_spec(cells.take(k), seq![',']) == prev + seq![','] + escape_cell(row[k - 1]));
        let s1 = read_from(st, prev);
        lemma_read_concat(st, prev + seq![','], escape_cell(row[k - 1]));
        lemma_read_concat(st, prev, seq![',']);
        lemma_read_one(s1, ',');
        let s2 = end_field(s1);
        assert(read_from(st, prev + seq![',']) == s2);
        assert(row.take(k - 2).push(row[k - 2]) =~= row.take(k - 1));
        assert(s2.record == row.take(k - 1));
        lemma_read_cell(s2, row[k - 1]);
    }
}

proof fn lemma_read_row(st: ReadState, row: Seq<Seq<char>>)
    requires
        st.mode == ReadMode::LineStart,
        st.record.len() == 0,
        st.field.len() == 0,
        writable_record(row),
    ensures
        read_from(st, csv_row(row) + seq!['\n']) == (ReadState {
            table: st.table.push(row),
            ..st
        }),
{
    let cells = row.map_values(|c: Seq<char>| escape_cell(c));
    assert(cells.take(row.len() as int) =~= cells);
    lemma_read_row_prefix(st, row, row.len() as int);
    let s1 = read_from(st, csv_row(row));
    lemma_read_concat(st, csv_row(row), seq!['\n']);
    lemma_read_one(s1, '\n');
    assert(row.take(row.len() - 1).len() == row.len() - 1);
    assert(s1.mode != ReadMode::LineStart);
    assert(read_char(s1, '\n') == end_record(s1));
    assert(row.take(row.len() - 1).push(row[row.len() - 1]) =~= row);
    assert(end_record(s1).record =~= st.record);
    assert(end_record(s1).field =~= st.field);
}

proof fn lemma_read_rows(st: ReadState, rows: Seq<Seq<Seq<char>>>)
    requires
        st.mode == ReadMode::LineStart,
        st.record.len() == 0,
        st.field.len() == 0,
        forall|j: int| 0 <= j < rows.len() ==> writable_record(#[trigger] rows[j]),
    ensures
        read_from(st, csv_rows(rows)) == (ReadState { table: st.table + rows, ..st }),
    decreases rows.len(),
{
    if rows.len() == 0 {
        assert(st.table + rows =~= st.table);
    } else {
        let d = rows.drop_last();
        lemma_read_rows(st, d);
        let s1 = ReadState { table: st.table + d, ..st };
        lemma_read_concat(st, csv_rows(d), csv_row(rows.last()) + seq!['\n']);
        assert(csv_rows(d) + csv_row(rows.last()) + seq!['\n'] =~= csv_rows(d) + (csv_row(
            rows.last(),
        ) + seq!['\n']));
        assert(rows.last() == rows[rows.len() - 1]);
        lemma_read_row(s1, rows.last());
        assert((st.table + d).push(rows.last()) =~= st.table + rows);
    }
}

proof fn lemma_read_tables(ts: Seq<TableView>)
    requires
        ts.len() > 0,
        forall|i: int, j: int|
            0 <= i < ts.len() && 0 <= j < table_records(ts[i]).len() ==> writable_record(
                #[trigger] table_records(ts[i])[j],
            ),
    ensures
        read_from(read_start(), csv_spec(ts)) == (ReadState {
            done: ts.drop_last().map_values(|t: TableView| table_records(t)),
            table: table_records(ts.last()),
            ..read_start()
        }),
    decreases ts.len(),
{
    let last = ts.last();
    assert(last == ts[ts.len() - 1]);
    assert forall|j: int| 0 <= j < table_records(last).len() implies writable_record(
        #[trigger] table_records(last)[j],
    ) by {
        assert(table_records(ts[ts.len() - 1])[j] == table_records(last)[j]);
    }
    if ts.len() == 1 {
        lemma_read_rows(read_start(), table_records(last));
        assert(Seq::<Seq<Seq<char>>>::empty() + table_records(last) =~= table_records(last));
        assert(ts.drop_last().map_values(|t: TableView| table_records(t)) =~= Seq::<
            Seq<Seq<Seq<char>>>,
        >::empty());
    } else {
        let d = ts.drop_last();
        assert forall|i: int, j: int|
            0 <= i < d.len() && 0 <= j < table_records(d[i]).len() implies writable_record(
            #[trigger] table_records(d[i])[j],
        ) by {
            assert(d[i] == ts[i]);
        }
        lemma_read_tables(d);
        let s1 = read_from(read_start(), csv_spec(d));
        lemma_read_concat(read_start(), csv_spec(d) + seq!['\n'], csv_table(last));
        lemma_read_concat(read_start(), csv_spec(d), seq!['\n']);
        lemma_read_one(s1, '\n');
        assert(table_records(d.last()).len() > 0);
        let s2 = end_table(s1);
        lemma_read_rows(s2, table_records(last));
        assert(Seq::<Seq<Seq<char>>>::empty() + table_records(last) =~= table_records(last));
        assert(d.drop_last().map_values(|t: TableView| table_records(t)).push(
            table_records(d.last()),
        ) =~= d.map_values(|t: TableView| table_records(t)));
    }
}

/// Law: reading the CSV text of tables back gives each table's records, the
/// header row first, in order, as long as no record is empty or one empty
/// field alone (such a record is written as an empty line, which reads as
/// the end of a table).
pub proof fn lemma_csv_read_back(ts: Seq<TableView>)
    requires
        forall|i: int, j: int|
            0 <= i < ts.len() && 0 <= j < table_records(ts[i]).len() ==> writable_record(
                #[trigger] table_records(ts[i])[j],
            ),
    ensures
        read_csv(csv_spec(ts)) == ts.map_values(|t: TableView| table_records(t)),
{
    if ts.len() == 0 {
        assert(ts.map_values(|t: TableView| table_records(t)) =~= Seq::<
            Seq<Seq<Seq<char>>>,
        >::empty());
    } else {
        lemma_read_tables(ts);
        assert(table_records(ts.last()).len() > 0);
        assert(ts.drop_last().map_values(|t: TableView| table_records(t)).push(
            table_records(ts.last()),
        ) =~= ts.map_values(|t: TableView| table_records(t)));
    }
}

} // verus!
