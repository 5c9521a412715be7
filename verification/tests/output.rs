use trex::output::to_csv;
use trex::Table;

fn s(x: &str) -> String {
    x.to_string()
}

#[test]
fn csv_quotes_cells_that_need_it() {
    let tables = vec![
        Table {
            page: 1,
            table_index: 0,
            headers: vec![s("a"), s("b,c")],
            rows: vec![vec![s("1"), s("x\"y")], vec![s("line\nbreak"), s("")]],
        },
        Table { page: 2, table_index: 0, headers: vec![s("h")], rows: vec![] },
    ];
    let out = to_csv(&tables).unwrap();
    assert_eq!(out, "a,\"b,c\"\n1,\"x\"\"y\"\n\"line\nbreak\",\n\nh\n");
}

#[test]
fn csv_of_no_tables_is_empty() {
    assert_eq!(to_csv(&[]).unwrap(), "");
    assert_eq!(trex::output::csv::to_string(&[]).unwrap(), "");
}

/// Reads CSV text back: quoted fields with doubled quotes, commas between
/// fields, line feeds between records, and an empty line between tables.
fn read_back(text: &str) -> Vec<Vec<Vec<String>>> {
    let mut tables: Vec<Vec<Vec<String>>> = Vec::new();
    let mut table: Vec<Vec<String>> = Vec::new();
    let mut record: Vec<String> = Vec::new();
    let mut field = String::new();
    let mut quoted = false;
    let mut line_start = true;
    let chars: Vec<char> = text.chars().collect();
    let mut i = 0;
    while i < chars.len() {
        let c = chars[i];
        if quoted {
            if c == '"' && i + 1 < chars.len() && chars[i + 1] == '"' {
                field.push('"');
                i += 1;
            } else if c == '"' {
                quoted = false;
            } else {
                field.push(c);
            }
        } else if c == '\n' && line_start {
            if !table.is_empty() {
                tables.push(std::mem::take(&mut table));
            }
            i += 1;
            continue;
        } else if c == '\n' {
            record.push(std::mem::take(&mut field));
            table.push(std::mem::take(&mut record));
            line_start = true;
            i += 1;
            continue;
        } else if c == ',' {
            record.push(std::mem::take(&mut field));
        } else if c == '"' && field.is_empty() {
            quoted = true;
        } else {
            field.push(c);
        }
        line_start = false;
        i += 1;
    }
    if !table.is_empty() {
        tables.push(table);
    }
    tables
}

#[test]
fn csv_reads_back_as_the_tables_records() {
    let tables = vec![
        Table {
            page: 1,
            table_index: 0,
            headers: vec![s("a"), s("b,c")],
            rows: vec![vec![s("1"), s("x\"y")], vec![s("line\nbreak"), s("")], vec![s(""), s("")]],
        },
        Table { page: 2, table_index: 0, headers: vec![s("\"")], rows: vec![vec![s("z")]] },
    ];
    let out = to_csv(&tables).unwrap();
    let expected: Vec<Vec<Vec<String>>> = tables
        .iter()
        .map(|t| {
            let mut records = vec![t.headers.clone()];
            records.extend(t.rows.iter().cloned());
            records
        })
        .collect();
    assert_eq!(read_back(&out), expected);
}
