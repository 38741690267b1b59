use multipart_parser::multipart::{DataType, FileReply, FileRequest};
use multipart_parser::parser::{MultiPartParser, Progress};
use std::io::{Read, Seek, SeekFrom, Write};
use tempfile::NamedTempFile;

fn answer(request: FileRequest<NamedTempFile>) -> FileReply<NamedTempFile> {
    match request {
        FileRequest::Create { contents } => {
            let created = tempfile::Builder::new()
                .prefix("multipart")
                .suffix(".tmp")
                .tempfile();
            FileReply::Stored(created.and_then(|mut file| {
                file.write_all(&contents)?;
                Ok(file)
            }))
        }
        FileRequest::Measure { file } => {
            let size = file.as_file().metadata().map(|metadata| metadata.len());
            FileReply::Measured(size.map(|size| (file, size)))
        }
        FileRequest::Append { mut file, bytes } => {
            let written = file.write_all(&bytes);
            FileReply::Stored(written.map(|_| file))
        }
    }
}

#[test]
fn a_large_part_ends_up_in_a_temporary_file() {
    let data: Vec<u8> = (0..20000u32).map(|i| b'0' + (i % 10) as u8).collect();
    let mut body = b"--x\r\nContent-Type: text/plain\r\n\r\n".to_vec();
    body.extend_from_slice(&data);
    body.extend_from_slice(b"\r\n--x--");
    let mut parser: MultiPartParser<NamedTempFile> =
        MultiPartParser::new(1024, 1024, 30000, "x".to_owned());
    for chunk in body.chunks(256) {
        let mut progress = parser.parse(chunk).unwrap();
        while let Progress::Request(request) = progress {
            progress = parser.resume(answer(request)).unwrap();
        }
    }
    let mut parts = parser.get_parts().unwrap();
    assert_eq!(parts.len(), 1);
    match parts.remove(0).data {
        Some(DataType::File(mut file)) => {
            let mut found = Vec::new();
            file.seek(SeekFrom::Start(0)).unwrap();
            file.read_to_end(&mut found).unwrap();
            assert_eq!(found, data);
        }
        _ => panic!("the part is not in a file"),
    }
}
