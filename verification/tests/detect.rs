use trex::detect::detect_auto;
use trex::detect::dl::{blend_tables, check_model_path, merge_tables, similar_table, table_tokens};
use trex::detect::lattice::{
    connected_components, dense_ranks, is_meaningful_table, lattice_tables, regrid,
};
use trex::detect::stream::{build_table, choose_tables, normalize_cell, trim_grid, Placement};
use trex::grid::{table_has_nonblank, table_non_empty_cells};
use trex::i18n::Language;
use trex::merge::cell::CellText;
use trex::{Table, TrexError};

fn s(x: &str) -> String {
    x.to_string()
}

fn table(headers: &[&str], rows: &[&[&str]]) -> Table {
    Table {
        page: 1,
        table_index: 0,
        headers: headers.iter().map(|h| s(h)).collect(),
        rows: rows.iter().map(|r| r.iter().map(|c| s(c)).collect()).collect(),
    }
}

#[test]
fn normalize_cell_collapses_white_space() {
    assert_eq!(normalize_cell("  a \t b\n c "), "a b c");
    assert_eq!(normalize_cell(" \u{3000} "), "");
    assert_eq!(normalize_cell("x"), "x");
}

#[test]
fn trim_grid_drops_empty_rows_and_columns() {
    let grid = vec![
        vec![s(""), s(" x "), s("")],
        vec![s(""), s(" "), s("")],
        vec![s(""), s("y"), s(" z")],
    ];
    let out = trim_grid(grid);
    assert_eq!(out, vec![vec![s("x"), s("")], vec![s("y"), s("z")]]);
    assert!(trim_grid(vec![vec![s(" ")]]).is_empty());
    let wider = vec![vec![s("a"), s("")], vec![s("b"), s("c"), s("extra")]];
    assert_eq!(trim_grid(wider), vec![vec![s("a"), s("")], vec![s("b"), s("c")]]);
}

#[test]
fn stream_table_from_placed_texts() {
    let p = |col: usize, text: &str| Placement { col, text: s(text) };
    let rows = vec![vec![p(0, "A"), p(1, "B")], vec![p(0, "1"), p(1, "2"), p(1, " 3 ")]];
    let t = build_table(&rows, 2, 4, 1).expect("a table");
    assert_eq!(t.page, 4);
    assert_eq!(t.table_index, 1);
    assert_eq!(t.headers, vec![s("A"), s("B")]);
    assert_eq!(t.rows, vec![vec![s("1"), s("2 3")]]);
    assert!(build_table(&rows, 1, 4, 1).is_none());
    let sparse = vec![vec![p(0, "A"), p(1, " ")], vec![p(0, "1"), p(1, "")]];
    assert!(build_table(&sparse, 2, 1, 0).is_none());
}

#[test]
fn stream_prefers_a_split_of_two_full_tables() {
    let full = || table(&["a", "b", "c", "d"], &[&["e", "f", "g", "h"]]);
    let small = || table(&["a", "b"], &[&["c", "d"]]);
    let r = choose_tables(Some((Some(full()), Some(full()))), Some(small()));
    assert_eq!(r.len(), 2);
    let r = choose_tables(Some((Some(full()), Some(small()))), Some(small()));
    assert_eq!(r.len(), 1);
    assert_eq!(r[0].headers.len(), 2);
    let r = choose_tables(None, None);
    assert!(r.is_empty());
}

#[test]
fn components_of_a_neighbour_graph() {
    let adj = vec![vec![2], vec![3], vec![0], vec![1]];
    assert_eq!(connected_components(&adj), vec![vec![0, 2], vec![1, 3]]);
    let adj = vec![vec![1], vec![0, 2], vec![1], vec![]];
    assert_eq!(connected_components(&adj), vec![vec![0, 1, 2], vec![3]]);
    assert!(connected_components(&vec![]).is_empty());
}

#[test]
fn dense_ranks_and_grid_order() {
    assert_eq!(dense_ranks(&vec![10, 5, 10, 7]), vec![2, 0, 2, 1]);
    let slots = regrid(&vec![(3, 5), (1, 5), (3, 2)]);
    let got: Vec<(usize, usize, usize)> = slots.iter().map(|g| (g.source, g.row, g.col)).collect();
    assert_eq!(got, vec![(1, 0, 1), (2, 1, 0), (0, 1, 1)]);
}

#[test]
fn meaningful_tables() {
    assert!(is_meaningful_table(&table(&["a", "b"], &[&["c", "d"]])));
    assert!(!is_meaningful_table(&table(&["a", ""], &[&["c", ""]])));
    assert!(!is_meaningful_table(&table(&["a", "b", "c", "d"], &[])));
    assert!(!is_meaningful_table(&table(&["a", "b", "c"], &[&["d", " ", ""]])));
    assert_eq!(table_non_empty_cells(&table(&["a", " "], &[&["c", "d"]])), 3);
    assert!(table_has_nonblank(&table(&["a", " "], &[&["c", "d"]]), 3));
    assert!(!table_has_nonblank(&table(&["a", " "], &[&["c", "d"]]), 4));
}

#[test]
fn lattice_tables_from_components() {
    let c = |row: usize, col: usize, text: &str| CellText { row, col, texts: vec![s(text)] };
    let components = vec![
        vec![c(0, 0, "x")],
        vec![c(0, 0, "Name"), c(0, 1, "Age"), c(1, 0, "Bob"), c(1, 1, "42")],
        vec![c(0, 0, "a"), c(0, 1, ""), c(1, 0, ""), c(1, 1, "")],
    ];
    let tables = lattice_tables(&components, 3, Language::English).unwrap();
    assert_eq!(tables.len(), 1);
    assert_eq!(tables[0].page, 3);
    assert_eq!(tables[0].table_index, 0);
    assert_eq!(tables[0].headers, vec![s("Name"), s("Age")]);
    assert_eq!(tables[0].rows, vec![vec![s("Bob"), s("42")]]);
}

#[test]
fn tokens_are_trimmed_lowercased_and_distinct() {
    let t = table(&["A ", "a"], &[&["Straße", " "]]);
    let mut tokens: Vec<String> = table_tokens(&t).iter().map(|v| v.iter().collect()).collect();
    tokens.sort();
    assert_eq!(tokens, vec![s("a"), s("straße")]);
}

#[test]
fn similar_tables_ignore_case() {
    let lower = table(&["a", "b"], &[&["c", "d"]]);
    let upper = table(&["A", "B"], &[&["C", "D"]]);
    let other = table(&["w", "x"], &[&["y", "z"]]);
    assert!(similar_table(&lower, &upper));
    assert!(!similar_table(&lower, &other));
    let empty = table(&[], &[]);
    assert!(similar_table(&empty, &table(&[" "], &[])));
}

#[test]
fn similarity_thresholds() {
    // 6 shared tokens of 7: 0.857 >= 0.85
    let a = table(&["a", "b", "c", "d"], &[&["e", "f", "g"]]);
    let b = table(&["a", "b", "c", "d", "e", "f"], &[]);
    assert!(similar_table(&a, &b));
    // 3 shared of 5: 0.6, shapes close
    let c = table(&["a", "b", "c", "d"], &[]);
    let d = table(&["a", "b", "c", "e"], &[]);
    assert!(similar_table(&c, &d));
    // 1 shared of 3: shapes close but too few
    let e = table(&["a", "b"], &[]);
    let f = table(&["a", "c"], &[]);
    assert!(!similar_table(&e, &f));
    // 3 shared of 5 with shapes far apart
    let g = table(&["a", "b", "c", "d"], &[]);
    let h = table(&["a"], &[&["b"], &["c"], &["e"]]);
    assert!(!similar_table(&g, &h));
}

#[test]
fn merging_drops_duplicates() {
    let t1 = table(&["a", "b"], &[&["c", "d"]]);
    let t1_upper = table(&["A", "B"], &[&["C", "D"]]);
    let t3 = table(&["w", "x"], &[&["y", "z"]]);
    let merged = merge_tables(vec![t1], vec![t1_upper, t3]);
    assert_eq!(merged.len(), 2);
    assert_eq!(merged[0].headers, vec![s("a"), s("b")]);
    assert_eq!(merged[1].headers, vec![s("w"), s("x")]);
}

#[test]
fn blending_strategies() {
    let small = table(&["p", "q"], &[&["r", "s"]]);
    let big = table(&["a", "b", "c"], &[&["d", "e", "f"]]);
    let r = blend_tables(vec![], vec![table(&["q"], &[])]);
    assert_eq!(r.len(), 1);
    let r = blend_tables(vec![small], vec![big]);
    assert_eq!(r.len(), 2);
    assert_eq!(r[0].headers.len(), 3);
    let r = blend_tables(vec![table(&["x"], &[])], vec![]);
    assert_eq!(r[0].headers, vec![s("x")]);
}

#[test]
fn model_paths_need_the_model_runtime() {
    assert!(check_model_path(false).is_ok());
    match check_model_path(true) {
        Err(TrexError::Dl(message)) => assert!(message.contains("--features dl")),
        _ => panic!("expected a router error"),
    }
}

#[test]
fn auto_mode_falls_back_to_stream() {
    let r = detect_auto(|| Ok(vec![table(&["l"], &[])]), || Ok(vec![]));
    assert_eq!(r.unwrap()[0].headers, vec![s("l")]);
    let r = detect_auto(|| Ok(vec![]), || Ok(vec![table(&["s"], &[])]));
    assert_eq!(r.unwrap()[0].headers, vec![s("s")]);
    let r = detect_auto(|| Err(TrexError::Detection(s("bad"))), || Ok(vec![]));
    assert!(matches!(r, Err(TrexError::Detection(_))));
}
