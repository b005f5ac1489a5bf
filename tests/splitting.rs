use indexify::{split_lines, IndexError, TextSplitterKind};

fn split(kind: TextSplitterKind, text: &str) -> Result<Vec<String>, IndexError> {
    kind.split(&text.to_string())
}

#[test]
fn new_line_drops_empty_lines() {
    let r = split(TextSplitterKind::NewLine, "a\n\nb\n").unwrap();
    assert_eq!(r, vec!["a".to_string(), "b".to_string()]);
}

#[test]
fn new_line_strips_carriage_returns() {
    let r = split(TextSplitterKind::NewLine, "one\r\ntwo\r\n\r\nthree").unwrap();
    assert_eq!(r, vec!["one", "two", "three"]);
}

#[test]
fn new_line_on_empty_text_gives_nothing() {
    assert!(split_lines("").is_empty());
    assert!(split_lines("\n\n\n").is_empty());
}

#[test]
fn regex_splits_on_commas() {
    let kind = TextSplitterKind::Regex { pattern: ",".to_string() };
    let r = split(kind, "a,b,c").unwrap();
    assert_eq!(r, vec!["a", "b", "c"]);
}

#[test]
fn regex_splits_on_a_class() {
    let kind = TextSplitterKind::Regex { pattern: "[;:]+".to_string() };
    let r = split(kind, "x;y::z").unwrap();
    assert_eq!(r, vec!["x", "y", "z"]);
}

#[test]
fn regex_with_bad_pattern_is_refused() {
    let kind = TextSplitterKind::Regex { pattern: "foo(bar".to_string() };
    assert!(matches!(split(kind, "foo"), Err(IndexError::InvalidSplitterPattern)));
    let bad = TextSplitterKind::Regex { pattern: "(".to_string() };
    assert!(!bad.is_usable());
    let good = TextSplitterKind::Regex { pattern: ",".to_string() };
    assert!(good.is_usable());
}

#[test]
fn whole_keeps_the_text_as_one_fragment() {
    for text in ["", "hello", "a\nb\n\nc", "x,y"] {
        let r = split(TextSplitterKind::Whole, text).unwrap();
        assert_eq!(r, vec![text.to_string()]);
    }
}
