use liushu::dict::{parse_dict_source, parse_sources};

#[test]
fn parses_rows_skipping_comments_and_blank_lines() {
    let src = "# a comment line\n你好\tni hao\t1\t\n\n好\thao\t20\tgreeting\n";
    let items = parse_dict_source(src).unwrap();
    assert_eq!(items.len(), 2);
    assert_eq!(items[0].text, "你好".to_string());
    assert_eq!(items[0].code, "ni hao".to_string());
    assert_eq!(items[0].weight, 1);
    assert_eq!(items[0].comment, None);
    assert_eq!(items[1].text, "好".to_string());
    assert_eq!(items[1].weight, 20);
    assert_eq!(items[1].comment, Some("greeting".to_string()));
}

#[test]
fn three_column_row_has_no_comment() {
    let items = parse_dict_source("光\tguang\t7").unwrap();
    assert_eq!(items.len(), 1);
    assert_eq!(items[0].comment, None);
}

#[test]
fn non_numeric_weight_fails_the_parse() {
    let r = parse_dict_source("你好\tni hao\tabc\n");
    assert!(r.is_err());
    assert!(!r.err().unwrap().message().is_empty());
}

#[test]
fn overflowing_weight_fails_the_parse() {
    assert!(parse_dict_source("a\tb\t4294967295\n").is_ok());
    assert!(parse_dict_source("a\tb\t4294967296\n").is_err());
}

#[test]
fn missing_column_fails_the_parse() {
    assert!(parse_dict_source("你好\tni hao\n").is_err());
    assert!(parse_dict_source("你好\n").is_err());
    assert!(parse_dict_source("a\tb\t1\tc\td\n").is_err());
}

#[test]
fn empty_text_or_code_fails_the_parse() {
    assert!(parse_dict_source("\tni hao\t1\n").is_err());
    assert!(parse_dict_source("你好\t\t1\n").is_err());
}

#[test]
fn sources_concatenate_in_order() {
    let sources = vec!["a\tx\t1\n".to_string(), "b\ty\t2\n".to_string()];
    let items = parse_sources(&sources).unwrap();
    assert_eq!(items.len(), 2);
    assert_eq!(items[0].text, "a".to_string());
    assert_eq!(items[1].text, "b".to_string());
    let bad = vec!["a\tx\t1\n".to_string(), "broken\n".to_string()];
    assert!(parse_sources(&bad).is_err());
}
