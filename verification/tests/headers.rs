use multipart_parser::headers::{parse_header_section, HeaderMap};
use multipart_parser::text::{contains, starts_with, white_space};

fn value<'a>(map: &'a HeaderMap, name: &str) -> Option<&'a str> {
    map.get(name).map(|value| value.as_str())
}

#[test]
fn headers_and_parameters_are_read() {
    let map = parse_header_section(
        "Content-Disposition: form-data; name=\"field\"; filename=\"a=b.txt\"\r\nContent-Type: text/plain",
    );
    assert_eq!(map.len(), 4);
    assert_eq!(value(&map, "Content-Disposition"), Some("form-data"));
    assert_eq!(value(&map, "name"), Some("\"field\""));
    assert_eq!(value(&map, "filename"), Some("\"a=b.txt\""));
    assert_eq!(value(&map, "Content-Type"), Some("text/plain"));
    assert_eq!(value(&map, "content-type"), None);
}

#[test]
fn the_last_value_stays() {
    let map = parse_header_section("A: 1\r\nB: 2\r\nA: 3");
    assert_eq!(map.len(), 2);
    assert_eq!(value(&map, "A"), Some("3"));
    assert_eq!(map.entry(0), ("A", "3"));
    assert_eq!(map.entry(1), ("B", "2"));
}

#[test]
fn parameters_end_where_one_has_no_value() {
    let map = parse_header_section("A: 1; b=2; c; d=4");
    assert_eq!(map.len(), 2);
    assert_eq!(value(&map, "b"), Some("2"));
    assert_eq!(value(&map, "d"), None);
}

#[test]
fn lines_without_a_colon_hold_no_header() {
    let map = parse_header_section("nothing\n; x=1\n\n:v\nURL: http://host:80");
    assert_eq!(map.len(), 3);
    assert_eq!(value(&map, "nothing"), None);
    assert_eq!(value(&map, "x"), Some("1"));
    assert_eq!(value(&map, ""), Some("v"));
    assert_eq!(value(&map, "URL"), Some("http://host:80"));
}

#[test]
fn white_space_around_names_and_values_goes() {
    let map = parse_header_section("  A  :\t one two \u{a0}\u{3000}; b = c \r\n\u{2003}D: \u{e9}");
    assert_eq!(value(&map, "A"), Some("one two"));
    assert_eq!(value(&map, "b"), Some("c"));
    assert_eq!(value(&map, "D"), Some("\u{e9}"));
}

#[test]
fn an_empty_section_holds_no_header() {
    assert_eq!(parse_header_section("").len(), 0);
}

#[test]
fn a_map_keeps_its_order() {
    let mut map = HeaderMap::new();
    assert_eq!(map.len(), 0);
    map.insert("x".to_owned(), "1".to_owned());
    map.insert("y".to_owned(), "2".to_owned());
    map.insert("x".to_owned(), "3".to_owned());
    assert_eq!(map.len(), 2);
    assert_eq!(map.entry(0), ("x", "3"));
    assert_eq!(map.entry(1), ("y", "2"));
}

#[test]
fn white_space_is_that_of_unicode() {
    for code in 0..=0x10ffffu32 {
        if let Some(c) = char::from_u32(code) {
            assert_eq!(white_space(c), c.is_whitespace());
        }
    }
}

#[test]
fn texts_are_searched() {
    assert!(starts_with("multipart/mixed", "multipart/"));
    assert!(!starts_with("multipart", "multipart/"));
    assert!(!starts_with("Multipart/mixed", "multipart/"));
    assert!(starts_with("", ""));
    assert!(contains("attachment filename=\u{e9}.txt", "filename="));
    assert!(contains("filename=", "filename="));
    assert!(!contains("filename", "filename="));
    assert!(!contains("", "filename="));
    assert!(contains("x", ""));
}
