use multipart_parser::multipart::{DataType, FileReply, FileRequest, MultiPart};
use multipart_parser::parser::{MultiPartParser, MultiPartParserError, Progress};

type MemoryFile = Vec<u8>;

type Parser = MultiPartParser<MemoryFile>;

fn answer(request: FileRequest<MemoryFile>) -> FileReply<MemoryFile> {
    match request {
        FileRequest::Create { contents } => FileReply::Stored(Ok(contents)),
        FileRequest::Measure { file } => {
            let size = file.len() as u64;
            FileReply::Measured(Ok((file, size)))
        }
        FileRequest::Append { mut file, bytes } => {
            file.extend_from_slice(&bytes);
            FileReply::Stored(Ok(file))
        }
    }
}

fn feed(parser: &mut Parser, chunk: &[u8]) -> Result<(), MultiPartParserError> {
    let mut progress = parser.parse(chunk)?;
    while let Progress::Request(request) = progress {
        progress = parser.resume(answer(request))?;
    }
    Ok(())
}

/// The only part of a body, whose data are `length` bytes.
fn only_part(
    limits: (u16, u32, u32),
    header: &str,
    length: usize,
    size: usize,
) -> Result<MultiPart<MemoryFile>, MultiPartParserError> {
    let body = format!("--x\r\n{}\r\n\r\n{}\r\n--x--", header, "d".repeat(length));
    let mut parser: Parser = MultiPartParser::new(limits.0, limits.1, limits.2, "x".to_owned());
    for chunk in body.as_bytes().chunks(size) {
        feed(&mut parser, chunk)?;
    }
    let mut parts = parser.get_parts()?;
    assert_eq!(parts.len(), 1);
    Ok(parts.pop().unwrap())
}

#[test]
fn parts_stay_in_memory_up_to_the_limit() {
    for size in [1, 2, 5, 100] {
        let part = only_part((100, 10, 50), "A: b", 10, size).unwrap();
        assert!(matches!(part.data, Some(DataType::Bytes(ref bytes)) if bytes == b"dddddddddd"));
        let part = only_part((100, 10, 50), "A: b", 11, size).unwrap();
        assert!(matches!(part.data, Some(DataType::File(ref file)) if file == b"ddddddddddd"));
    }
}

#[test]
fn what_is_written_adds_up() {
    let pieces: [&[u8]; 5] = [b"one,", b"two,", b"three,", b"four,", b"five"];
    for limit in 0..30 {
        let mut parser: Parser = MultiPartParser::new(100, limit, 50, "x".to_owned());
        feed(&mut parser, b"--x\r\n\r\n").unwrap();
        for piece in pieces {
            feed(&mut parser, piece).unwrap();
        }
        feed(&mut parser, b"\r\n--x--").unwrap();
        match parser.get_parts().unwrap().remove(0).data {
            Some(DataType::Bytes(bytes)) => {
                assert!(limit >= 23);
                assert_eq!(bytes, b"one,two,three,four,five");
            }
            Some(DataType::File(file)) => {
                assert!(limit < 23);
                assert_eq!(file, b"one,two,three,four,five");
            }
            None => panic!("nothing was written"),
        }
    }
}

#[test]
fn files_grow_up_to_the_limit() {
    for size in [1, 2, 5, 100] {
        let part = only_part((100, 10, 50), "A: b", 50, size).unwrap();
        assert!(matches!(part.data, Some(DataType::File(ref file)) if file.len() == 50));
        assert!(matches!(
            only_part((100, 10, 50), "A: b", 51, size),
            Err(MultiPartParserError::MaxFileSizeExceededError)
        ));
    }
}

#[test]
fn parts_that_say_they_are_files_go_to_files() {
    for size in [1, 2, 5, 100] {
        let header = "content-disposition: attachment filename=a.txt";
        let part = only_part((100, 10, 50), header, 3, size).unwrap();
        assert!(matches!(part.data, Some(DataType::File(ref file)) if file == b"ddd"));
        let part = only_part((100, 10, 50), header, 0, size).unwrap();
        assert!(part.data.is_none());
        assert!(matches!(
            only_part((100, 100, 50), header, 51, size),
            Err(MultiPartParserError::MaxFileSizeExceededError)
        ));
    }
}

#[test]
fn header_sections_keep_within_the_limit() {
    for size in 1..=50 {
        let header = "Name: 0123456789";
        assert!(only_part((16, 10, 50), header, 3, size).is_ok());
        assert!(matches!(
            only_part((15, 10, 50), header, 3, size),
            Err(MultiPartParserError::MaxHeaderLimitExceeded)
        ));
    }
}

#[test]
fn the_end_of_a_header_section_is_not_counted() {
    let chunk: &[u8] = b"--XYZ\r\nA: b\r\n\r";
    let mut parser: Parser = MultiPartParser::new(4, 1024, 8192, "XYZ".to_owned());
    assert!(feed(&mut parser, chunk).is_ok());
    assert!(feed(&mut parser, b"\nhi\r\n--XYZ--").is_ok());
    assert_eq!(parser.get_parts().unwrap().len(), 1);
    let mut parser: Parser = MultiPartParser::new(3, 1024, 8192, "XYZ".to_owned());
    assert!(matches!(
        feed(&mut parser, chunk),
        Err(MultiPartParserError::MaxHeaderLimitExceeded)
    ));
    let mut parser: Parser = MultiPartParser::new(0, 1024, 8192, "XYZ".to_owned());
    assert!(feed(&mut parser, b"--XYZ\r\n\r").is_ok());
    assert!(feed(&mut parser, b"\nhi\r\n--XYZ--").is_ok());
}

#[test]
fn header_sections_without_an_end_are_refused() {
    let mut parser: Parser = MultiPartParser::new(10, 10, 50, "x".to_owned());
    assert!(feed(&mut parser, b"--x\r\n0123456789").is_ok());
    assert!(matches!(
        feed(&mut parser, b"0"),
        Err(MultiPartParserError::MaxHeaderLimitExceeded)
    ));
}

#[test]
fn a_request_is_answered_with_fewer_requests() {
    let mut parser: Parser = MultiPartParser::new(100, 0, 50, "x".to_owned());
    let mut requests = 0;
    for chunk in [&b"--x\r\n\r\nab"[..], &b"cd\r\n--x\r\n\r\nef\r\n--x--"[..]] {
        let mut progress = parser.parse(chunk).unwrap();
        while let Progress::Request(request) = progress {
            requests += 1;
            progress = parser.resume(answer(request)).unwrap();
        }
    }
    assert_eq!(requests, 4);
    let parts = parser.get_parts().unwrap();
    assert_eq!(parts.len(), 2);
    assert!(matches!(parts[0].data, Some(DataType::File(ref file)) if file == b"abcd"));
    assert!(matches!(parts[1].data, Some(DataType::File(ref file)) if file == b"ef"));
}

#[test]
fn no_request_makes_a_file_too_large() {
    let body = format!("--x\r\nA: b\r\n\r\n{}\r\n--x--", "d".repeat(60));
    for size in 1..=body.len() {
        let mut parser: Parser = MultiPartParser::new(100, 10, 50, "x".to_owned());
        let mut failed = false;
        for chunk in body.as_bytes().chunks(size) {
            let mut progress = parser.parse(chunk);
            while let Ok(Progress::Request(request)) = progress {
                match &request {
                    FileRequest::Create { contents } => assert!(contents.len() <= 50),
                    FileRequest::Measure { file } => assert!(file.len() <= 50),
                    FileRequest::Append { file, bytes } => {
                        assert!(file.len() + bytes.len() <= 50)
                    }
                }
                progress = parser.resume(answer(request));
            }
            if let Err(error) = progress {
                assert!(matches!(error, MultiPartParserError::MaxFileSizeExceededError));
                failed = true;
                break;
            }
        }
        assert!(failed);
    }
}
