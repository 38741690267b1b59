use multipart_parser::display::io_error_message;
use multipart_parser::multipart::{FileReply, FileRequest};
use multipart_parser::parser::{MultiPartParser, MultiPartParserError, Progress};
use std::io::{Error, ErrorKind};

type Parser = MultiPartParser<Vec<u8>>;

/// What the last of these chunks ends in.
fn outcome(
    boundary: &str,
    chunks: &[&[u8]],
) -> Result<Progress<Vec<u8>>, MultiPartParserError> {
    let mut parser: Parser = MultiPartParser::new(100, 100, 1000, boundary.to_owned());
    let mut last = Ok(Progress::Complete);
    for chunk in chunks {
        last = parser.parse(chunk);
    }
    last
}

#[test]
fn the_initial_boundary_must_be_there() {
    assert!(matches!(
        outcome("x", &[b"abcdef"]),
        Err(MultiPartParserError::MissingInitialBoundary)
    ));
    assert!(matches!(outcome("x", &[b"--"]), Ok(Progress::Complete)));
    assert!(matches!(
        outcome("x", &[b"--", b"y"]),
        Err(MultiPartParserError::MissingInitialBoundary)
    ));
}

#[test]
fn the_initial_boundary_must_stand_in_its_place() {
    let bodies: [&[u8]; 4] = [
        b"--ABC\r\n\r\nfoo--XYZ",
        b"abcde----XYZ",
        b"\r\n--XYZ--",
        b"---XYZ--",
    ];
    for body in bodies {
        assert!(matches!(
            outcome("XYZ", &[body]),
            Err(MultiPartParserError::MissingInitialBoundary)
        ));
        assert!(matches!(
            outcome("XYZ", &[&body[..4], &body[4..]]),
            Err(MultiPartParserError::MissingInitialBoundary)
        ));
        assert!(matches!(outcome("XYZ", &[&body[..4]]), Ok(Progress::Complete)));
    }
}

#[test]
fn an_inner_opening_must_stand_in_its_place() {
    assert!(matches!(
        outcome(
            "x",
            &[b"--x\r\nContent-Type: multipart/mixed; boundary=y\r\n\r\nab--y\r\n\r\n"]
        ),
        Err(MultiPartParserError::MissingInitialBoundary)
    ));
}

#[test]
fn a_line_end_follows_the_boundary() {
    assert!(matches!(
        outcome("x", &[b"--xy\n"]),
        Err(MultiPartParserError::MalformedMultiPartBoundary)
    ));
    assert!(matches!(
        outcome("x", &[b"--x-", b"y"]),
        Err(MultiPartParserError::MalformedMultiPartBoundary)
    ));
    assert!(matches!(outcome("x", &[b"--x\r"]), Ok(Progress::Complete)));
}

#[test]
fn an_inner_boundary_must_be_named() {
    assert!(matches!(
        outcome("x", &[b"--x\r\nContent-Type: multipart/mixed\r\n\r\n--y"]),
        Err(MultiPartParserError::MaliciousPart)
    ));
}

#[test]
fn an_inner_body_opens_with_its_boundary() {
    assert!(matches!(
        outcome(
            "x",
            &[b"--x\r\nContent-Type: multipart/mixed; boundary=y\r\n\r\nabcdef"]
        ),
        Err(MultiPartParserError::MissingInitialBoundary)
    ));
}

#[test]
fn header_sections_are_text() {
    assert!(matches!(
        outcome("x", &[b"--x\r\nName: \xFF\r\n\r\n"]),
        Err(MultiPartParserError::MaliciousPart)
    ));
}

#[test]
fn boundaries_hold_no_line_end() {
    for boundary in ["X\r\nY", "X\rY", "\nX", "X\n"] {
        let chunk = format!("--{}--", boundary);
        assert!(matches!(
            outcome(boundary, &[chunk.as_bytes()]),
            Err(MultiPartParserError::InvalidCharacterInBoundary)
        ));
        assert!(matches!(
            outcome(boundary, &[b""]),
            Err(MultiPartParserError::InvalidCharacterInBoundary)
        ));
    }
    assert!(matches!(
        outcome("X'()+_,-./:=? Y", &[b"--X'()+_,-./:=? Y--"]),
        Ok(Progress::Complete)
    ));
}

#[test]
fn inner_boundaries_hold_no_line_end() {
    assert!(matches!(
        outcome(
            "x",
            &[b"--x\r\nContent-Type: multipart/mixed; boundary=a\rb\r\n\r\n--a\rb--"]
        ),
        Err(MultiPartParserError::InvalidCharacterInBoundary)
    ));
}

#[test]
fn errors_of_the_disk_are_handed_on() {
    let mut parser: Parser = MultiPartParser::new(100, 0, 1000, "x".to_owned());
    let progress = parser.parse(b"--x\r\n\r\nab").unwrap();
    assert!(matches!(
        progress,
        Progress::Request(FileRequest::Create { ref contents }) if contents == b"ab"
    ));
    let error = parser
        .resume(FileReply::Stored(Err(Error::new(ErrorKind::Other, "disk full"))))
        .unwrap_err();
    assert!(matches!(error, MultiPartParserError::IOError(_)));
    assert_eq!(error.message(), "I/O error: disk full");
    assert_eq!(error.source().map(|source| source.to_string()).as_deref(), Some("disk full"));
}

#[test]
fn errors_of_measuring_are_handed_on() {
    let mut parser: Parser = MultiPartParser::new(100, 0, 1000, "x".to_owned());
    parser.parse(b"--x\r\n\r\nab").unwrap();
    parser.resume(FileReply::Stored(Ok(b"ab".to_vec()))).unwrap();
    let progress = parser.parse(b"cd").unwrap();
    assert!(matches!(
        progress,
        Progress::Request(FileRequest::Measure { ref file }) if file == b"ab"
    ));
    let error = parser
        .resume(FileReply::Measured(Err(Error::new(ErrorKind::Other, "no size"))))
        .unwrap_err();
    assert_eq!(error.message(), "I/O error: no size");
}

#[test]
fn an_error_of_the_disk_is_told_in_its_own_words() {
    for kind in [ErrorKind::NotFound, ErrorKind::PermissionDenied, ErrorKind::WriteZero] {
        let text = Error::from(kind).to_string();
        assert!(!text.is_empty());
        assert_eq!(
            MultiPartParserError::IOError(Error::from(kind)).message(),
            format!("I/O error: {}", text)
        );
    }
}

#[test]
fn the_size_of_the_file_decides() {
    let mut parser: Parser = MultiPartParser::new(100, 0, 10, "x".to_owned());
    parser.parse(b"--x\r\n\r\nab").unwrap();
    parser.resume(FileReply::Stored(Ok(b"ab".to_vec()))).unwrap();
    parser.parse(b"cd").unwrap();
    let progress = parser.resume(FileReply::Measured(Ok((b"ab".to_vec(), 8)))).unwrap();
    assert!(matches!(
        progress,
        Progress::Request(FileRequest::Append { ref file, ref bytes })
            if file == b"ab" && bytes == b"cd"
    ));
    parser.resume(FileReply::Stored(Ok(b"abcd".to_vec()))).unwrap();
    parser.parse(b"e").unwrap();
    assert!(matches!(
        parser.resume(FileReply::Measured(Ok((b"abcd".to_vec(), 10)))),
        Err(MultiPartParserError::MaxFileSizeExceededError)
    ));
}

#[test]
fn a_huge_size_is_no_room() {
    let mut parser: Parser = MultiPartParser::new(100, 0, u32::MAX, "x".to_owned());
    parser.parse(b"--x\r\n\r\nab").unwrap();
    parser.resume(FileReply::Stored(Ok(b"ab".to_vec()))).unwrap();
    parser.parse(b"cd").unwrap();
    assert!(matches!(
        parser.resume(FileReply::Measured(Ok((b"ab".to_vec(), u64::MAX)))),
        Err(MultiPartParserError::MaxFileSizeExceededError)
    ));
}

#[test]
fn errors_say_what_happened() {
    let messages = [
        (
            MultiPartParserError::UnexpectedDataAtEndOfStream,
            "unexpected data received after end of stream",
        ),
        (
            MultiPartParserError::InvalidCharacterInBoundary,
            "invalid character found in boundary",
        ),
        (
            MultiPartParserError::MissingInitialBoundary,
            "initial boundary of part is missing",
        ),
        (
            MultiPartParserError::MalformedMultiPartBoundary,
            "malformed multipart boundary detected",
        ),
        (
            MultiPartParserError::MaxHeaderLimitExceeded,
            "maximum allowed header size exceeded",
        ),
        (
            MultiPartParserError::MaxFileSizeExceededError,
            "maximum allowed file size exceeded",
        ),
        (
            MultiPartParserError::MaliciousPart,
            "malicious part detected during parsing",
        ),
        (
            MultiPartParserError::UnfinishedPart,
            "stream ended in the middle of parsing a part",
        ),
    ];
    for (i, (error, message)) in messages.iter().enumerate() {
        assert_eq!(&error.message(), message);
        assert!(error.source().is_none());
        for (other, _) in &messages[..i] {
            assert_ne!(error.message(), other.message());
        }
    }
    assert_eq!(io_error_message("why"), "I/O error: why");
}
