use multipart_parser::display::FileReport;
use multipart_parser::multipart::{DataType, FileReply, FileRequest, MultiPart};
use multipart_parser::parser::{MultiPartParser, MultiPartParserError, Progress};
use std::io::Read;

/// A file that stands in memory.
type MemoryFile = Vec<u8>;

type Parser = MultiPartParser<MemoryFile>;

const MOCK_MULTIPART_PAYLOAD: &[u8] = b"------WebKitFormBoundary7MA4YWxkTrZu0gW\r\nContent-Disposition: form-data; name=\"username\"\r\n\r\njohn_doe\r\n------WebKitFormBoundary7MA4YWxkTrZu0gW\r\nContent-Disposition: form-data; name=\"profile_picture\"; filename=\"profile.jpg\"\r\nContent-Type: image/jpeg\r\n\r\n\xFF\xD8\xFF\xE0\x00\x10JFIF\x00\x01\x01\x01\x00\x60\x00\x60\x00\x00\xFF\xDB\x00\x43\x00\x08\x06\x06\r\n------WebKitFormBoundary7MA4YWxkTrZu0gW\r\nContent-Disposition: form-data; name=\"metadata\"\r\nContent-Type: application/json\r\n\r\n{\"age\": 30, \"location\": \"New York\"}\r\n------WebKitFormBoundary7MA4YWxkTrZu0gW--\r\n";

const MOCK_NESTED_MULTIPART_PAYLOAD: &[u8] = b"------OuterBoundary7f3a9c2e\r\nContent-Disposition: form-data; name=\"metadata\"\r\nContent-Type: application/json\r\n\r\n{\"user_id\": 4821, \"action\": \"bulk_upload\", \"tags\": [\"invoice\", \"2026\", \"q3\"]}\r\n------OuterBoundary7f3a9c2e\r\nContent-Disposition: form-data; name=\"description\"\r\nContent-Type: text/plain; charset=utf-8\r\n\r\nThis upload contains a quarterly invoice batch along with its supporting attachments.\r\n------OuterBoundary7f3a9c2e\r\nContent-Disposition: form-data; name=\"attachments\"\r\nContent-Type: multipart/mixed; boundary=InnerBoundary1d5e8b41\r\n\r\n--InnerBoundary1d5e8b41\r\nContent-Disposition: attachment; filename=\"invoice_q3.pdf\"\r\nContent-Type: application/pdf\r\n\r\n%PDF-1.4\n1 0 obj\n<< /Type /Catalog /Pages 2 0 R >>\nendobj\n%%EOF\r\n--InnerBoundary1d5e8b41\r\nContent-Disposition: attachment; filename=\"receipt_scan.png\"\r\nContent-Type: image/png\r\n\r\n\xFF\xD8\xFF\xE0\x00\x10JFIF\x00\x01\x01\x01\x00\x60\x00\x60\x00\x00\xFF\xDB\x00\x43\x00\x08\x06\x06\r\n--InnerBoundary1d5e8b41\r\nContent-Disposition: attachment; filename=\"notes.txt\"\r\nContent-Type: text/plain; charset=utf-8\r\n\r\nScanned receipt is slightly faded on the top-left corner, but totals are legible.\r\n--InnerBoundary1d5e8b41--\r\n\r\n------OuterBoundary7f3a9c2e\r\nContent-Disposition: form-data; name=\"submitted_by\"\r\nContent-Type: text/plain; charset=utf-8\r\n\r\njane.doe@example.com\r\n------OuterBoundary7f3a9c2e--\r\n";

const MOCK_EMPTY_FIELD_PAYLOAD: &[u8] = b"------EmptyBoundary123\r\nContent-Disposition: form-data; name=\"empty_field\"\r\n\r\n\r\n------EmptyBoundary123--\r\n";

const MOCK_MULTI_FILE_PAYLOAD: &[u8] = b"------MultiFileBoundaryAbc1\r\nContent-Disposition: form-data; name=\"file1\"; filename=\"a.txt\"\r\nContent-Type: text/plain\r\n\r\nHello from file one.\r\n------MultiFileBoundaryAbc1\r\nContent-Disposition: form-data; name=\"file2\"; filename=\"b.txt\"\r\nContent-Type: text/plain\r\n\r\nHello from file two.\r\n------MultiFileBoundaryAbc1--\r\n";

const MOCK_UNICODE_PAYLOAD: &[u8] = b"------UnicodeBoundary456\r\nContent-Disposition: form-data; name=\"greeting\"\r\nContent-Type: text/plain; charset=utf-8\r\n\r\n\xE4\xBD\xA0\xE5\xA5\xBD, world! \xF0\x9F\x8C\x8D\r\n------UnicodeBoundary456--\r\n";

const MOCK_CUSTOM_HEADERS_PAYLOAD: &[u8] = b"------CustomHeaderBoundary789\r\ncontent-disposition: form-data; name=\"custom\"\r\nX-Custom-Meta: some-value\r\nContent-Type: text/plain\r\n\r\nField with custom headers.\r\n------CustomHeaderBoundary789--\r\n";

fn build_large_field_payload() -> Vec<u8> {
    let boundary = "----LargeFieldBoundaryXYZ";
    let mut body = Vec::new();
    body.extend_from_slice(format!("--{}\r\n", boundary).as_bytes());
    body.extend_from_slice(b"Content-Disposition: form-data; name=\"big_text\"\r\n");
    body.extend_from_slice(b"Content-Type: text/plain\r\n\r\n");
    for _ in 0..2000 {
        body.extend_from_slice(b"0123456789");
    }
    body.extend_from_slice(b"\r\n");
    body.extend_from_slice(format!("--{}--\r\n", boundary).as_bytes());
    body
}

/// Answers a request as a disk would that never fails.
fn answer(request: FileRequest<MemoryFile>) -> FileReply<MemoryFile> {
    match request {
        FileRequest::Create { contents } => FileReply::Stored(Ok(contents)),
        FileRequest::Measure { file } => {
            let size = file.len() as u64;
            FileReply::Measured(Ok((file, size)))
        }
        FileRequest::Append { mut file, bytes } => {
            file.extend_from_slice(&bytes);
            FileReply::Stored(Ok(file))
        }
    }
}

/// Hands a chunk to the parser and answers its requests.
fn feed(parser: &mut Parser, chunk: &[u8]) -> Result<(), MultiPartParserError> {
    let mut progress = parser.parse(chunk)?;
    while let Progress::Request(request) = progress {
        progress = parser.resume(answer(request))?;
    }
    Ok(())
}

fn show(part: &MultiPart<MemoryFile>) -> String {
    let report = match &part.data {
        Some(DataType::File(file)) => Some(FileReport::Read {
            length: file.len() as u64,
            path: "memory".to_owned(),
        }),
        _ => None,
    };
    part.to_text(&report)
}

#[test]
fn parse_simple_multipart() {
    println!("-----------------Simple-Multipart Test------------------------------");

    let boundary = "----WebKitFormBoundary7MA4YWxkTrZu0gW".to_owned();
    let mut parser: Parser = MultiPartParser::new(1024, 1024, 8 * 1024, boundary);

    let mut chunk = [0u8; 80];
    let v = Vec::from(MOCK_MULTIPART_PAYLOAD);
    let mut slice = &v[..];
    loop {
        let bytes_read = slice.read(&mut chunk).unwrap();
        if bytes_read == 0 {
            break;
        }
        feed(&mut parser, &chunk[..bytes_read]).unwrap();
    }

    let parts = parser
        .get_parts()
        .expect("Error Occured While Extracting Parts.");
    for ref part in parts {
        println!("Simple Multipart {}", show(part));
    }
}

#[test]
fn parse_nested_multipart() {
    println!("-----------------Nested-Multipart Test------------------------------");

    let boundary = "----OuterBoundary7f3a9c2e".to_owned();
    let mut parser: Parser = MultiPartParser::new(1024, 1024, 8 * 1024, boundary);

    let mut chunk = [0u8; 80];
    let v = Vec::from(MOCK_NESTED_MULTIPART_PAYLOAD);
    let mut slice = &v[..];
    loop {
        let bytes_read = slice.read(&mut chunk).unwrap();
        if bytes_read == 0 {
            break;
        }
        feed(&mut parser, &chunk[..bytes_read]).unwrap();
    }

    let parts = parser
        .get_parts()
        .expect("Error Occured While Extracting Parts.");
    for ref part in parts {
        println!("Here are the Nested parts {}", show(part));
    }
}

#[test]
fn parse_empty_field() {
    println!("-----------------Empty-Field Test------------------------------");

    let boundary = "----EmptyBoundary123".to_owned();
    let mut parser: Parser = MultiPartParser::new(1024, 1024, 8 * 1024, boundary);

    let mut chunk = [0u8; 80];
    let v = Vec::from(MOCK_EMPTY_FIELD_PAYLOAD);
    let mut slice = &v[..];
    loop {
        let bytes_read = slice.read(&mut chunk).unwrap();
        if bytes_read == 0 {
            break;
        }
        feed(&mut parser, &chunk[..bytes_read]).unwrap();
    }

    let parts = parser
        .get_parts()
        .expect("Error Occured While Extracting Parts.");
    for ref part in parts {
        println!("Empty Multipart {}", show(part));
    }
}

#[test]
fn parse_multiple_files() {
    println!("-----------------Multi-File Test------------------------------");

    let boundary = "----MultiFileBoundaryAbc1".to_owned();
    let mut parser: Parser = MultiPartParser::new(1024, 1024, 8 * 1024, boundary);

    let mut chunk = [0u8; 64];
    let v = Vec::from(MOCK_MULTI_FILE_PAYLOAD);
    let mut slice = &v[..];
    loop {
        let bytes_read = slice.read(&mut chunk).unwrap();
        if bytes_read == 0 {
            break;
        }
        feed(&mut parser, &chunk[..bytes_read]).unwrap();
    }

    let parts = parser
        .get_parts()
        .expect("Error Occured While Extracting Parts.");
    assert_eq!(parts.len(), 2);
    for ref part in parts {
        println!("Multi-File Part {}", show(part));
    }
}

#[test]
fn parse_large_field_promotes_to_file() {
    println!("-----------------Large Field Test------------------------------");

    let boundary = "----LargeFieldBoundaryXYZ".to_owned();
    let mut parser: Parser = MultiPartParser::new(1024, 1024, 30000, boundary);

    let mut chunk = [0u8; 256];
    let v = Vec::from(build_large_field_payload());
    let mut slice = &v[..];
    loop {
        let bytes_read = slice.read(&mut chunk).unwrap();
        if bytes_read == 0 {
            break;
        }
        feed(&mut parser, &chunk[..bytes_read]).unwrap();
    }

    let parts = parser
        .get_parts()
        .expect("Error Occured While Extracting Parts.");
    for ref part in parts {
        println!("Large Field {}", show(part));
    }
}

#[test]
fn parse_unicode_field() {
    println!("-----------------Unicode Test------------------------------");

    let boundary = "----UnicodeBoundary456".to_owned();
    let mut parser: Parser = MultiPartParser::new(1024, 1024, 8 * 1024, boundary);

    let mut chunk = [0u8; 32];
    let v = Vec::from(MOCK_UNICODE_PAYLOAD);
    let mut slice = &v[..];
    loop {
        let bytes_read = slice.read(&mut chunk).unwrap();
        if bytes_read == 0 {
            break;
        }
        feed(&mut parser, &chunk[..bytes_read]).unwrap();
    }

    let parts = parser
        .get_parts()
        .expect("Error Occured While Extracting Parts.");
    for ref part in parts {
        println!("Unicode {}", show(part));
    }
}

#[test]
fn parse_custom_headers() {
    println!("-----------------CustomHeadersTest------------------------------");

    let boundary = "----CustomHeaderBoundary789".to_owned();
    let mut parser: Parser = MultiPartParser::new(1024, 1024, 8 * 1024, boundary);

    let mut chunk = [0u8; 80];
    let v = Vec::from(MOCK_CUSTOM_HEADERS_PAYLOAD);
    let mut slice = &v[..];
    loop {
        let bytes_read = slice.read(&mut chunk).unwrap();
        if bytes_read == 0 {
            break;
        }
        feed(&mut parser, &chunk[..bytes_read]).unwrap();
    }

    let parts = parser
        .get_parts()
        .expect("Error Occured While Extracting Parts.");
    for ref part in parts {
        println!("Custom {}", show(part));
    }
}

#[test]
fn nested_parts_come_out_of_any_chunks() {
    let payload = &MOCK_NESTED_MULTIPART_PAYLOAD[..MOCK_NESTED_MULTIPART_PAYLOAD.len() - 2];
    for size in 1..=payload.len() {
        let boundary = "----OuterBoundary7f3a9c2e".to_owned();
        let mut parser: Parser = MultiPartParser::new(1024, 1024, 8 * 1024, boundary);
        for chunk in payload.chunks(size) {
            feed(&mut parser, chunk).unwrap();
        }
        let parts = parser.get_parts().unwrap();
        let types: Vec<Option<&str>> =
            parts.iter().map(|part| part.content_type.as_deref()).collect();
        assert_eq!(
            types,
            [
                Some("application/json"),
                Some("text/plain"),
                Some("application/pdf"),
                Some("image/png"),
                Some("text/plain"),
                Some("multipart/mixed"),
                Some("text/plain"),
            ]
        );
        assert!(matches!(
            parts[2].data,
            Some(DataType::Bytes(ref bytes))
                if bytes == b"%PDF-1.4\n1 0 obj\n<< /Type /Catalog /Pages 2 0 R >>\nendobj\n%%EOF"
        ));
        assert!(parts[5].data.is_none());
        assert!(matches!(
            parts[6].data,
            Some(DataType::Bytes(ref bytes)) if bytes == b"jane.doe@example.com"
        ));
    }
}
