use trex::i18n::Language;
use trex::merge::cell::{merge_cells, CellText};
use trex::TrexError;

fn s(x: &str) -> String {
    x.to_string()
}

#[test]
fn cells_become_a_grid_with_a_header_row() {
    let cells = vec![
        CellText { row: 0, col: 0, texts: vec![s("Name")] },
        CellText { row: 0, col: 1, texts: vec![s(" Age ")] },
        CellText { row: 1, col: 0, texts: vec![s("Bob"), s(" "), s("Smith")] },
        CellText { row: 2, col: 1, texts: vec![s("42")] },
        CellText { row: 2, col: 1, texts: vec![s("43")] },
    ];
    let t = merge_cells(&cells, 7, 2, Language::English).unwrap();
    assert_eq!(t.page, 7);
    assert_eq!(t.table_index, 2);
    assert_eq!(t.headers, vec![s("Name"), s("Age")]);
    assert_eq!(t.rows, vec![vec![s("Bob Smith"), s("")], vec![s(""), s("43")]]);
}

#[test]
fn no_cells_is_an_error_in_the_current_language() {
    match merge_cells(&vec![], 1, 0, Language::English) {
        Err(TrexError::Merge(m)) => assert_eq!(m, "No cell regions to merge"),
        _ => panic!("expected a merge error"),
    }
    match merge_cells(&vec![], 1, 0, Language::Korean) {
        Err(TrexError::Merge(m)) => assert_eq!(m, "병합할 셀 영역이 없습니다"),
        _ => panic!("expected a merge error"),
    }
}
