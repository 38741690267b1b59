use multipart_parser::display::FileReport;
use multipart_parser::headers::parse_header_section;
use multipart_parser::multipart::{DataType, MultiPart};

fn part(data: Option<DataType<u8>>) -> MultiPart<u8> {
    MultiPart {
        headers: Some(parse_header_section("A: 1; b=2")),
        data,
        content_type: Some("text/plain".to_owned()),
        max_body_limit_until_file: 1024,
        max_file_size: 8192,
    }
}

#[test]
fn a_part_in_memory_is_shown() {
    let text = part(Some(DataType::Bytes(vec![0, 10, 255]))).to_text(&None);
    assert_eq!(
        text,
        "MultiPart {\n  headers: {\n    A: 1,\n    b: 2,\n  },\n  data: Bytes(3 bytes) [\n    0,\n    10,\n    255,\n],\n  content_type: text/plain,\n  max_body_limit_until_file: 1024,\n  max_file_size: 8192,\n}"
    );
}

#[test]
fn bytes_are_shown_as_the_standard_library_does() {
    for bytes in [vec![], vec![7u8], vec![0, 99, 100, 200]] {
        let expected = format!("Bytes({} bytes) {:#?}", bytes.len(), bytes);
        assert_eq!(DataType::<u8>::Bytes(bytes).to_text(&None), expected);
    }
}

#[test]
fn a_part_without_anything_is_shown() {
    let empty: MultiPart<u8> = MultiPart {
        headers: None,
        data: None,
        content_type: None,
        max_body_limit_until_file: 0,
        max_file_size: u32::MAX,
    };
    assert_eq!(
        empty.to_text(&None),
        "MultiPart {\n  headers: None,\n  data: None,\n  content_type: None,\n  max_body_limit_until_file: 0,\n  max_file_size: 4294967295,\n}"
    );
    let no_headers: MultiPart<u8> = MultiPart {
        headers: Some(parse_header_section("")),
        ..empty
    };
    assert_eq!(
        no_headers.to_text(&None),
        "MultiPart {\n  headers: {},\n  data: None,\n  content_type: None,\n  max_body_limit_until_file: 0,\n  max_file_size: 4294967295,\n}"
    );
}

#[test]
fn a_file_is_shown_as_it_was_found() {
    let data: DataType<u8> = DataType::File(1);
    let read = FileReport::Read {
        length: 1234567890123,
        path: "\"/tmp/a\"".to_owned(),
    };
    assert_eq!(
        data.to_text(&Some(read)),
        "File(1234567890123 bytes, path=\"/tmp/a\")"
    );
    assert_eq!(
        data.to_text(&Some(FileReport::CloneFailed("one".to_owned()))),
        "File(<error cloning handle: one>)"
    );
    assert_eq!(
        data.to_text(&Some(FileReport::SeekFailed("two".to_owned()))),
        "File(<error seeking: two>)"
    );
    assert_eq!(
        data.to_text(&Some(FileReport::ReadFailed("three".to_owned()))),
        "File(<error reading file: three>)"
    );
    let text = part(Some(data)).to_text(&Some(FileReport::ReadFailed("four".to_owned())));
    assert!(text.contains("  data: File(<error reading file: four>),\n"));
}
