use linked_words::docs::{is_key_digit_char, parse_doc_line, Doc, DocRecord};

fn record(key: &str, id: &str, url: &str, title: &str) -> Option<DocRecord> {
    Some(DocRecord {
        key: key.to_string(),
        doc: Doc { id: id.to_string(), url: url.to_string(), title: title.to_string() },
    })
}

#[test]
fn doc_line_is_read() {
    let line = "00000000000000ff <doc id=\"12\" url=\"https://en.example.org/wiki?curid=12\" title=\"Anarchism\">";
    assert_eq!(
        parse_doc_line(line),
        record("00000000000000ff", "12", "https://en.example.org/wiki?curid=12", "Anarchism")
    );
}

#[test]
fn doc_line_fields_may_be_empty() {
    let line = "0123456789abcdef <doc id=\"\" url=\"\" title=\"\">";
    assert_eq!(parse_doc_line(line), record("0123456789abcdef", "", "", ""));
}

#[test]
fn doc_line_fields_are_as_long_as_they_can_be() {
    let line = "0123456789abcdef <doc id=\"a\" url=\"b\" url=\"c\" title=\"d\" title=\"e\">f\">g";
    assert_eq!(
        parse_doc_line(line),
        record("0123456789abcdef", "a\" url=\"b", "c\" title=\"d", "e\">f")
    );
}

#[test]
fn doc_line_record_starts_leftmost() {
    let line = "xx 1111111111111111 <doc id=\"2222222222222222 <doc id=\"7\" url=\"u\" title=\"Ünïcödé\"> tail";
    assert_eq!(
        parse_doc_line(line),
        record("1111111111111111", "2222222222222222 <doc id=\"7", "u", "Ünïcödé")
    );
    let line = "f0000000000000001 <doc id=\"7\" url=\"u\" title=\"t\">";
    assert_eq!(parse_doc_line(line), record("0000000000000001", "7", "u", "t"));
}

#[test]
fn doc_line_without_record_is_refused() {
    assert_eq!(parse_doc_line(""), None);
    assert_eq!(parse_doc_line("</doc>"), None);
    assert_eq!(parse_doc_line("0123456789abcdef <doc id=\"1\" url=\"u\" title=\"t\""), None);
    assert_eq!(parse_doc_line("0123456789abcde <doc id=\"1\" url=\"u\" title=\"t\">"), None);
    assert_eq!(parse_doc_line("0123456789ABCDEF <doc id=\"1\" url=\"u\" title=\"t\">"), None);
    assert_eq!(parse_doc_line("0123456789abcdeg <doc id=\"1\" url=\"u\" title=\"t\">"), None);
    assert_eq!(parse_doc_line("0123456789abcdef <doc id=\"1\" title=\"t\" url=\"u\">"), None);
    assert_eq!(parse_doc_line("0123456789abcdef <doc  id=\"1\" url=\"u\" title=\"t\">"), None);
    assert_eq!(parse_doc_line("\" url=\"u\" title=\"t\"> 0123456789abcdef <doc id=\""), None);
}

#[test]
fn key_digits_are_lowercase() {
    for c in "0123456789abcdef".chars() {
        assert!(is_key_digit_char(c));
    }
    for c in "ABCDEFgz/: ".chars() {
        assert!(!is_key_digit_char(c));
    }
}
