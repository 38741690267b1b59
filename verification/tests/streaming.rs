use multipart_parser::multipart::{DataType, FileReply, FileRequest, MultiPart};
use multipart_parser::parser::{MultiPartParser, MultiPartParserError, Progress};

type MemoryFile = Vec<u8>;

type Parser = MultiPartParser<MemoryFile>;

const BODY: &[u8] = b"------WebKitFormBoundary7MA4YWxkTrZu0gW\r\nContent-Disposition: form-data; name=\"username\"\r\n\r\njohn_doe\r\n------WebKitFormBoundary7MA4YWxkTrZu0gW\r\nContent-Disposition: form-data; name=\"profile_picture\"; filename=\"profile.jpg\"\r\nContent-Type: image/jpeg\r\n\r\n\xFF\xD8\xFF\xE0\x00\x10JFIF\x00\x01\x01\x01\x00\x60\x00\x60\x00\x00\xFF\xDB\x00\x43\x00\x08\x06\x06\r\n------WebKitFormBoundary7MA4YWxkTrZu0gW\r\nContent-Disposition: form-data; name=\"metadata\"\r\nContent-Type: application/json\r\n\r\n{\"age\": 30, \"location\": \"New York\"}\r\n------WebKitFormBoundary7MA4YWxkTrZu0gW--";

const BOUNDARY: &str = "----WebKitFormBoundary7MA4YWxkTrZu0gW";

const NESTED: &[u8] = b"--outer\r\nContent-Disposition: form-data; name=\"first\"\r\n\r\none\r\n--outer\r\nContent-Type: multipart/mixed; boundary=inner\r\n\r\n--inner\r\nContent-Type: text/plain\r\n\r\nalpha\r\n--inner\r\nX-Second: yes\r\n\r\nbeta\r\n--inner--\r\n--outer\r\nContent-Disposition: form-data; name=\"last\"\r\n\r\nthree\r\n--outer--";

const DEEP: &[u8] = b"--a\r\nContent-Type: multipart/mixed; boundary=b\r\n\r\n--b\r\nContent-Type: multipart/mixed; boundary=c\r\n\r\n--c\r\nX: 1\r\n\r\ncore\r\n--c--\r\n--b\r\nX: 2\r\n\r\nmiddle\r\n--b--\r\n--a\r\nX: 3\r\n\r\nrim\r\n--a--";

fn answer(request: FileRequest<MemoryFile>) -> FileReply<MemoryFile> {
    match request {
        FileRequest::Create { contents } => FileReply::Stored(Ok(contents)),
        FileRequest::Measure { file } => {
            let size = file.len() as u64;
            FileReply::Measured(Ok((file, size)))
        }
        FileRequest::Append { mut file, bytes } => {
            file.extend_from_slice(&bytes);
            FileReply::Stored(Ok(file))
        }
    }
}

fn feed(parser: &mut Parser, chunk: &[u8]) -> Result<(), MultiPartParserError> {
    let mut progress = parser.parse(chunk)?;
    while let Progress::Request(request) = progress {
        progress = parser.resume(answer(request))?;
    }
    Ok(())
}

/// The parts of `body`, fed in chunks of `size` bytes.
fn parts_of(
    limits: (u16, u32, u32),
    boundary: &str,
    body: &[u8],
    size: usize,
) -> Result<Vec<MultiPart<MemoryFile>>, MultiPartParserError> {
    let mut parser: Parser =
        MultiPartParser::new(limits.0, limits.1, limits.2, boundary.to_owned());
    for chunk in body.chunks(size) {
        feed(&mut parser, chunk)?;
    }
    parser.get_parts()
}

/// The parts of a body that comes in the given pieces.
fn parts_of_pieces(
    boundary: &str,
    pieces: &[&[u8]],
) -> Result<Vec<MultiPart<MemoryFile>>, MultiPartParserError> {
    let mut parser: Parser = MultiPartParser::new(1024, 1024, 8 * 1024, boundary.to_owned());
    for piece in pieces {
        feed(&mut parser, piece)?;
    }
    parser.get_parts()
}

fn header<'a>(part: &'a MultiPart<MemoryFile>, name: &str) -> Option<&'a str> {
    part.headers
        .as_ref()
        .and_then(|map| map.get(name))
        .map(|value| value.as_str())
}

fn contents(part: &MultiPart<MemoryFile>) -> &[u8] {
    match &part.data {
        None => &[],
        Some(DataType::Bytes(bytes)) => bytes,
        Some(DataType::File(file)) => file,
    }
}

fn in_file(part: &MultiPart<MemoryFile>) -> bool {
    matches!(part.data, Some(DataType::File(_)))
}

#[test]
fn any_chunk_size_gives_the_same_parts() {
    for size in 1..=BODY.len() {
        let parts = parts_of((1024, 1024, 8 * 1024), BOUNDARY, BODY, size).unwrap();
        assert_eq!(parts.len(), 3);
        assert_eq!(header(&parts[0], "Content-Disposition"), Some("form-data"));
        assert_eq!(header(&parts[0], "name"), Some("\"username\""));
        assert_eq!(contents(&parts[0]), b"john_doe");
        assert_eq!(parts[0].content_type, None);
        assert_eq!(header(&parts[1], "name"), Some("\"profile_picture\""));
        assert_eq!(header(&parts[1], "filename"), Some("\"profile.jpg\""));
        assert_eq!(parts[1].content_type.as_deref(), Some("image/jpeg"));
        assert_eq!(
            contents(&parts[1]),
            b"\xFF\xD8\xFF\xE0\x00\x10JFIF\x00\x01\x01\x01\x00\x60\x00\x60\x00\x00\xFF\xDB\x00\x43\x00\x08\x06\x06"
        );
        assert_eq!(parts[2].content_type.as_deref(), Some("application/json"));
        assert_eq!(contents(&parts[2]), b"{\"age\": 30, \"location\": \"New York\"}");
        assert!(!in_file(&parts[0]) && !in_file(&parts[1]) && !in_file(&parts[2]));
    }
}

#[test]
fn any_chunk_size_spills_the_same_parts() {
    for size in 1..=BODY.len() {
        let parts = parts_of((1024, 20, 8 * 1024), BOUNDARY, BODY, size).unwrap();
        assert_eq!(parts.len(), 3);
        assert!(!in_file(&parts[0]) && in_file(&parts[1]) && in_file(&parts[2]));
        assert_eq!(contents(&parts[2]), b"{\"age\": 30, \"location\": \"New York\"}");
    }
}

#[test]
fn what_follows_the_last_boundary_may_come_with_it() {
    let mut body = BODY.to_vec();
    body.extend_from_slice(b"\r\nand more");
    let parts = parts_of((1024, 1024, 8 * 1024), BOUNDARY, &body, body.len()).unwrap();
    assert_eq!(parts.len(), 3);
}

/// How many requests come of one chunk, and the parser that was fed it.
fn requests_of(body: &[u8], boundary: &str) -> (usize, Parser) {
    let mut parser: Parser = MultiPartParser::new(1024, 0, 8 * 1024, boundary.to_owned());
    let mut requests: usize = 0;
    let mut progress = parser.parse(body).unwrap();
    while let Progress::Request(request) = progress {
        requests += 1;
        progress = parser.resume(answer(request)).unwrap();
    }
    (requests, parser)
}

#[test]
fn what_follows_the_last_boundary_changes_nothing() {
    let tails: [&[u8]; 4] = [b"\r\n", b"\r\nand more", b"\r\n--x\r\n\r\nnew\r\n--x--", b"-"];
    let bodies: [(&[u8], &str); 4] = [
        (BODY, BOUNDARY),
        (NESTED, "outer"),
        (DEEP, "a"),
        (b"--x--", "x"),
    ];
    for (body, boundary) in bodies {
        let (requests, mut parser) = requests_of(body, boundary);
        let parts = parser.get_parts().unwrap();
        for tail in tails {
            let (asked, mut other) = requests_of(&[body, tail].concat(), boundary);
            assert_eq!(asked, requests);
            let found = other.get_parts().unwrap();
            assert_eq!(found.len(), parts.len());
            for i in 0..parts.len() {
                assert_eq!(contents(&found[i]), contents(&parts[i]));
                assert_eq!(in_file(&found[i]), in_file(&parts[i]));
            }
            assert!(matches!(
                other.parse(b""),
                Err(MultiPartParserError::UnexpectedDataAtEndOfStream)
            ));
        }
    }
}

#[test]
fn a_chunk_behind_the_last_boundary_is_refused() {
    let mut parser: Parser = MultiPartParser::new(1024, 1024, 8 * 1024, BOUNDARY.to_owned());
    feed(&mut parser, BODY).unwrap();
    assert!(matches!(
        feed(&mut parser, b"\r\n"),
        Err(MultiPartParserError::UnexpectedDataAtEndOfStream)
    ));
    assert!(matches!(
        feed(&mut parser, b""),
        Err(MultiPartParserError::UnexpectedDataAtEndOfStream)
    ));
    assert_eq!(parser.get_parts().unwrap().len(), 3);
}

#[test]
fn parts_are_handed_out_once() {
    let mut parser: Parser = MultiPartParser::new(1024, 1024, 8 * 1024, BOUNDARY.to_owned());
    feed(&mut parser, BODY).unwrap();
    assert_eq!(parser.get_parts().unwrap().len(), 3);
    assert_eq!(parser.get_parts().unwrap().len(), 0);
}

#[test]
fn incomplete_bodies_are_awaited() {
    for end in 0..BODY.len() {
        let mut parser: Parser = MultiPartParser::new(1024, 1024, 8 * 1024, BOUNDARY.to_owned());
        feed(&mut parser, &BODY[..end]).unwrap();
        assert!(matches!(
            parser.get_parts(),
            Err(MultiPartParserError::UnfinishedPart)
        ));
        feed(&mut parser, &BODY[end..]).unwrap();
        assert_eq!(parser.get_parts().unwrap().len(), 3);
    }
}

#[test]
fn a_body_without_parts_is_complete() {
    let parts = parts_of((1024, 1024, 8 * 1024), "x", b"--x--", 1).unwrap();
    assert_eq!(parts.len(), 0);
}

#[test]
fn the_delimiter_may_look_like_the_body() {
    let body = b"--x\r\n\r\n\r\n\r\r\n-\r\n--\r\n--y\r\n--x--";
    for size in 1..=body.len() {
        let parts = parts_of((1024, 1024, 8 * 1024), "x", body, size).unwrap();
        assert_eq!(parts.len(), 1);
        assert_eq!(contents(&parts[0]), b"\r\n\r\r\n-\r\n--\r\n--y");
    }
}

#[test]
fn an_empty_part_has_no_data() {
    let parts = parts_of((1024, 1024, 8 * 1024), "x", b"--x\r\nA: b\r\n\r\n\r\n--x--", 3).unwrap();
    assert_eq!(parts.len(), 1);
    assert!(parts[0].data.is_none());
    assert_eq!(header(&parts[0], "A"), Some("b"));
}

#[test]
fn long_boundaries_are_found() {
    let boundary: String = "b".repeat(700);
    let body = format!("--{0}\r\nA: b\r\n\r\nhello\r\n--{0}--", boundary);
    for size in [1, 7, 255, 256, 257, 1000, body.len()] {
        let parts = parts_of((1024, 1024, 8 * 1024), &boundary, body.as_bytes(), size).unwrap();
        assert_eq!(parts.len(), 1);
        assert_eq!(contents(&parts[0]), b"hello");
    }
}

/// What is expected of `NESTED`.
fn check_nested(parts: &[MultiPart<MemoryFile>]) {
    assert_eq!(parts.len(), 5);
    assert_eq!(contents(&parts[0]), b"one");
    assert_eq!(contents(&parts[1]), b"alpha");
    assert_eq!(parts[1].content_type.as_deref(), Some("text/plain"));
    assert_eq!(contents(&parts[2]), b"beta");
    assert_eq!(header(&parts[2], "X-Second"), Some("yes"));
    assert_eq!(parts[3].content_type.as_deref(), Some("multipart/mixed"));
    assert_eq!(header(&parts[3], "boundary"), Some("inner"));
    assert!(parts[3].data.is_none());
    assert_eq!(contents(&parts[4]), b"three");
}

#[test]
fn inner_parts_come_before_the_part_they_make_up() {
    for size in 1..=NESTED.len() {
        let parts = parts_of((1024, 1024, 8 * 1024), "outer", NESTED, size).unwrap();
        check_nested(&parts);
    }
}

#[test]
fn inner_parts_may_go_to_files() {
    for size in 1..=NESTED.len() {
        let parts = parts_of((1024, 0, 8 * 1024), "outer", NESTED, size).unwrap();
        check_nested(&parts);
        assert!(in_file(&parts[1]) && in_file(&parts[2]) && in_file(&parts[4]));
    }
}

#[test]
fn any_two_chunks_hold_inner_parts() {
    for end in 0..=NESTED.len() - 1 {
        let parts = parts_of_pieces("outer", &[&NESTED[..end], &NESTED[end..]]).unwrap();
        check_nested(&parts);
    }
}

#[test]
fn inner_parts_may_be_made_up_of_parts() {
    for size in 1..=DEEP.len() {
        let parts = parts_of((1024, 1024, 8 * 1024), "a", DEEP, size).unwrap();
        assert_eq!(parts.len(), 5);
        assert_eq!(contents(&parts[0]), b"core");
        assert_eq!(header(&parts[1], "boundary"), Some("c"));
        assert!(parts[1].data.is_none());
        assert_eq!(contents(&parts[2]), b"middle");
        assert_eq!(header(&parts[3], "boundary"), Some("b"));
        assert!(parts[3].data.is_none());
        assert_eq!(contents(&parts[4]), b"rim");
    }
}

#[test]
fn what_follows_inner_parts_is_skipped() {
    let body: &[u8] = b"--OUT\r\nContent-Type: multipart/mixed; boundary=IN\r\n\r\n--IN\r\nA: b\r\n\r\nhi\r\n--IN--\r\n--OU, nothing\r\nto be seen\r\n\r\n--OUT--";
    for size in 1..=body.len() {
        let parts = parts_of((1024, 1024, 8192), "OUT", body, size).unwrap();
        assert_eq!(parts.len(), 2);
        assert_eq!(contents(&parts[0]), b"hi");
        assert!(parts[1].data.is_none());
    }
}

#[test]
fn what_looks_like_the_outer_delimiter_stays_inside() {
    let body: &[u8] = b"--OUT\r\nContent-Type: multipart/mixed; boundary=IN\r\n\r\n--IN\r\nA: b\r\n\r\nx\r\n--OU\r\n--OUT\r\ny\r\n--IN--\r\n--OUT--";
    for size in 1..=body.len() {
        let parts = parts_of((1024, 1024, 8192), "OUT", body, size).unwrap();
        assert_eq!(parts.len(), 2);
        assert_eq!(contents(&parts[0]), b"x\r\n--OU\r\n--OUT\r\ny");
        assert!(parts[1].data.is_none());
    }
}

#[test]
fn unfinished_inner_parts_are_awaited() {
    for end in 0..NESTED.len() {
        assert!(matches!(
            parts_of_pieces("outer", &[&NESTED[..end]]),
            Err(MultiPartParserError::UnfinishedPart)
        ));
    }
}

#[test]
fn a_part_may_have_no_headers() {
    let body: &[u8] = b"--XYZ\r\n\r\nhi\r\n--XYZ\r\n\r\n\r\n--XYZ--";
    for size in 1..=body.len() {
        let parts = parts_of((1024, 1024, 8192), "XYZ", body, size).unwrap();
        assert_eq!(parts.len(), 2);
        assert_eq!(contents(&parts[0]), b"hi");
        assert_eq!(parts[0].headers.as_ref().unwrap().len(), 0);
        assert!(parts[0].content_type.is_none());
        assert!(parts[1].data.is_none());
    }
}

#[test]
fn a_body_may_begin_like_an_opening() {
    let body: &[u8] = b"--xy\r\nA: b\r\n\r\n--xq\r\n--xy\r\n\r\n--\r\n--xy--";
    for size in 1..=body.len() {
        let parts = parts_of((1024, 1024, 8192), "xy", body, size).unwrap();
        assert_eq!(parts.len(), 2);
        assert_eq!(contents(&parts[0]), b"--xq");
        assert_eq!(contents(&parts[1]), b"--");
    }
}
