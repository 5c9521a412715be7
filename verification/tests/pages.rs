use trex::cli::parse_pages;
use trex::i18n::Language;
use trex::server::{parse_dl_fallback, parse_format, parse_mode, ResponseFormat};
use trex::{DlFallbackMode, ParseMode};

#[test]
fn command_line_page_lists() {
    assert_eq!(parse_pages("1,3,5"), Ok(vec![1, 3, 5]));
    assert_eq!(parse_pages("1-5"), Ok(vec![1, 2, 3, 4, 5]));
    assert_eq!(parse_pages(" 2 , 4-6"), Ok(vec![2, 4, 5, 6]));
    assert_eq!(parse_pages("5-3"), Ok(vec![]));
    assert_eq!(parse_pages("+7"), Ok(vec![7]));
}

#[test]
fn command_line_page_list_errors() {
    assert_eq!(parse_pages("a"), Err("잘못된 페이지 번호: a".to_string()));
    assert_eq!(parse_pages("1-2-3"), Err("잘못된 페이지 범위: 1-2-3".to_string()));
    assert_eq!(parse_pages("1- 2"), Err("잘못된 페이지 번호:  2".to_string()));
    assert_eq!(parse_pages("1,,2"), Err("잘못된 페이지 번호: ".to_string()));
    assert_eq!(parse_pages("4294967296"), Err("잘못된 페이지 번호: 4294967296".to_string()));
}

#[test]
fn request_page_lists() {
    assert_eq!(trex::server::parse_pages("1, ,3", Language::English), Ok(vec![1, 3]));
    assert_eq!(trex::server::parse_pages(" 1 - 3 ", Language::English), Ok(vec![1, 2, 3]));
    assert_eq!(
        trex::server::parse_pages("0", Language::English),
        Err("Invalid page number: 0".to_string())
    );
    assert_eq!(
        trex::server::parse_pages("3-1", Language::English),
        Err("Invalid page range: 3-1".to_string())
    );
    assert_eq!(
        trex::server::parse_pages(" , ", Language::English),
        Err("pages value is empty".to_string())
    );
    assert_eq!(
        trex::server::parse_pages("x", Language::Korean),
        Err("잘못된 페이지 번호: x".to_string())
    );
    assert_eq!(
        trex::server::parse_pages("1-a", Language::Korean),
        Err("잘못된 페이지 번호: a".to_string())
    );
}

#[test]
fn request_keywords() {
    assert_eq!(parse_mode(" LATTICE "), Some(ParseMode::Lattice));
    assert_eq!(parse_mode("dl"), Some(ParseMode::Dl));
    assert_eq!(parse_mode("Auto"), Some(ParseMode::Auto));
    assert_eq!(parse_mode("stream"), Some(ParseMode::Stream));
    assert_eq!(parse_mode("foo"), None);
    assert_eq!(parse_format("CSV"), Some(ResponseFormat::Csv));
    assert_eq!(parse_format("json"), Some(ResponseFormat::Json));
    assert_eq!(parse_format("xml"), None);
    assert_eq!(parse_dl_fallback("Stream"), Some(DlFallbackMode::Stream));
    assert_eq!(parse_dl_fallback("dl"), None);
    assert_eq!(trex::server::localized(Language::Korean, "가", "a"), "가");
}
