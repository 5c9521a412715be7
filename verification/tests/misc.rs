use trex::node::{convert_tables, map_dl_fallback, map_parse_mode, DlFallbackOption, ParseModeOption};
use trex::telemetry::{dl_fallback_name, error_code, page_groups, parse_mode_name};
use trex::{DlFallbackMode, ExtractOptions, ParseMode, Table, TrexError};

fn s(x: &str) -> String {
    x.to_string()
}

#[test]
fn default_options() {
    let o = ExtractOptions::default();
    assert!(o.pages.is_none());
    assert_eq!(o.mode, ParseMode::Auto);
    assert_eq!(ParseMode::default(), ParseMode::Auto);
    assert_eq!(DlFallbackMode::default(), DlFallbackMode::Auto);
}

#[test]
fn event_names() {
    assert_eq!(parse_mode_name(ParseMode::Dl), "dl");
    assert_eq!(parse_mode_name(ParseMode::Lattice), "lattice");
    assert_eq!(dl_fallback_name(DlFallbackMode::Stream), "stream");
    assert_eq!(error_code(&TrexError::PdfParse(s("x"))), "pdf_parse");
    assert_eq!(error_code(&TrexError::Merge(s("x"))), "merge");
    let io = std::io::Error::new(std::io::ErrorKind::Other, "x");
    assert_eq!(error_code(&TrexError::Io(io)), "io");
}

#[test]
fn page_groups_in_page_order() {
    let t = |page: u32, cells: &[&str]| Table {
        page,
        table_index: 0,
        headers: cells.iter().map(|c| s(c)).collect(),
        rows: vec![],
    };
    let tables = vec![t(2, &["a", " "]), t(1, &["b"]), t(2, &[])];
    let groups = page_groups(&tables);
    assert_eq!(groups.len(), 2);
    assert_eq!(groups[0].page, 1);
    assert_eq!(groups[0].table_count, 1);
    assert_eq!(groups[0].non_empty_cells, 1);
    assert_eq!(groups[0].densities, vec![(1, 1)]);
    assert_eq!(groups[1].page, 2);
    assert_eq!(groups[1].table_count, 2);
    assert_eq!(groups[1].non_empty_cells, 1);
    assert_eq!(groups[1].densities, vec![(1, 2), (0, 1)]);
}

#[test]
fn binding_values() {
    assert_eq!(map_parse_mode(ParseModeOption::Dl), ParseMode::Dl);
    assert_eq!(map_parse_mode(ParseModeOption::Auto), ParseMode::Auto);
    assert_eq!(map_dl_fallback(DlFallbackOption::Lattice), DlFallbackMode::Lattice);
    let tables = vec![
        Table { page: 3, table_index: 5, headers: vec![s("h")], rows: vec![vec![s("r")]] },
        Table { page: 4, table_index: usize::MAX, headers: vec![], rows: vec![] },
    ];
    let out = convert_tables(tables);
    assert_eq!(out.len(), 2);
    assert_eq!(out[0].page, 3);
    assert_eq!(out[0].table_index, 5);
    assert_eq!(out[0].headers, vec![s("h")]);
    assert_eq!(out[0].rows, vec![vec![s("r")]]);
    assert_eq!(out[1].table_index, u32::MAX);
}

#[test]
fn encrypted_documents_are_rejected() {
    assert!(trex::pdf::check_supported(false).is_ok());
    match trex::pdf::check_supported(true) {
        Err(TrexError::PdfParse(m)) => assert!(m.contains("암호화된 PDF는 현재 지원하지 않습니다")),
        _ => panic!("expected a parse error"),
    }
    assert_ne!(trex::pdf::LineDirection::Horizontal, trex::pdf::LineDirection::Vertical);
}
