//! Parts and errors as text for people to read.

use crate::multipart::{DataType, MultiPart};
use crate::parser::MultiPartParserError;
use crate::text::{decimal, push_decimal, starts_with_text};
use vstd::prelude::*;
use vstd::string::{to_string_from_display_ensures, StringExecFns};

verus! {

/// `text` is a text of an error of the operating system: one that it gives of itself.
/// Which one that is depends on the operating system and on how the error came about.
pub open spec fn is_text_of(error: std::io::Error, text: String) -> bool {
    to_string_from_display_ensures::<std::io::Error>(&error, text)
}

/// The message of an error of the operating system, which has the text `text`.
pub fn io_error_message(text: &str) -> (message: String)
    ensures
        message@ == "I/O error: "@ + text@,
{
    let mut message = String::new();
    message.append("I/O error: ");
    message.append(text);
    assert(message@ =~= "I/O error: "@ + text@);
    message
}

impl MultiPartParserError {
    /// What an error says that is none of the operating system.
    pub open spec fn fixed_message(self) -> Seq<char> {
        match self {
            MultiPartParserError::IOError(_) => Seq::empty(),
            MultiPartParserError::UnexpectedDataAtEndOfStream =>
                "unexpected data received after end of stream"@,
            MultiPartParserError::InvalidCharacterInBoundary =>
                "invalid character found in boundary"@,
            MultiPartParserError::MissingInitialBoundary =>
                "initial boundary of part is missing"@,
            MultiPartParserError::MalformedMultiPartBoundary =>
                "malformed multipart boundary detected"@,
            MultiPartParserError::MaxHeaderLimitExceeded =>
                "maximum allowed header size exceeded"@,
            MultiPartParserError::MaxFileSizeExceededError =>
                "maximum allowed file size exceeded"@,
            MultiPartParserError::MaliciousPart => "malicious part detected during parsing"@,
            MultiPartParserError::UnfinishedPart =>
                "stream ended in the middle of parsing a part"@,
        }
    }

    /// What the error says.
    pub fn message(&self) -> (message: String)
        ensures
            match *self {
                MultiPartParserError::IOError(error) => exists|text: String| #[trigger]
                    is_text_of(error, text) && message@ == "I/O error: "@ + text@,
                _ => message@ == self.fixed_message(),
            },
    {
        let text = match self {
            MultiPartParserError::IOError(error) => {
                let text = error.to_string();
                assert(is_text_of(*error, text));
                return io_error_message(text.as_str());
            },
            MultiPartParserError::UnexpectedDataAtEndOfStream =>
                "unexpected data received after end of stream",
            MultiPartParserError::InvalidCharacterInBoundary =>
                "invalid character found in boundary",
            MultiPartParserError::MissingInitialBoundary => "initial boundary of part is missing",
            MultiPartParserError::MalformedMultiPartBoundary =>
                "malformed multipart boundary detected",
            MultiPartParserError::MaxHeaderLimitExceeded => "maximum allowed header size exceeded",
            MultiPartParserError::MaxFileSizeExceededError => "maximum allowed file size exceeded",
            MultiPartParserError::MaliciousPart => "malicious part detected during parsing",
            MultiPartParserError::UnfinishedPart =>
                "stream ended in the middle of parsing a part",
        };
        text.to_owned()
    }

    /// The error of the operating system behind this one.
    pub fn source(&self) -> (source: Option<&std::io::Error>)
        ensures
            match *self {
                MultiPartParserError::IOError(error) => source == Some(&error),
                _ => source is None,
            },
    {
        match self {
            MultiPartParserError::IOError(error) => Some(error),
            _ => None,
        }
    }
}

/// Errors that are none of the operating system can be told apart by what they say, and
/// none of them says what one of the operating system does.
pub proof fn law_messages_tell_errors_apart(a: MultiPartParserError, b: MultiPartParserError)
    requires
        !(a is IOError),
        !(b is IOError),
    ensures
        a.fixed_message() == b.fixed_message() ==> a == b,
        a.fixed_message().len() > 0,
        !starts_with_text(a.fixed_message(), "I/O error: "@),
{
    reveal_strlit("I/O error: ");
    reveal_strlit("unexpected data received after end of stream");
    reveal_strlit("invalid character found in boundary");
    reveal_strlit("initial boundary of part is missing");
    reveal_strlit("malformed multipart boundary detected");
    reveal_strlit("maximum allowed header size exceeded");
    reveal_strlit("maximum allowed file size exceeded");
    reveal_strlit("malicious part detected during parsing");
    reveal_strlit("stream ended in the middle of parsing a part");
    let prefix = "I/O error: "@;
    let x = a.fixed_message();
    let y = b.fixed_message();
    assert(x[0] != 'I');
    assert(x.len() >= 11 ==> x.subrange(0, 11)[0] == x[0]);
    assert(prefix[0] == 'I');
    assert(x.len() == y.len() && x[1] == y[1] && x[2] == y[2] && x[0] == y[0] ==> a == b);
}

/// What is found out of a file for people to read.
#[derive(Debug)]
pub enum FileReport {
    /// The file holds `length` bytes and stands at `path`, which is written as it is
    /// to be shown.
    Read {
        /// The number of bytes.
        length: u64,
        /// Where the file stands.
        path: String,
    },
    /// A second handle of the file could not be had: why.
    CloneFailed(String),
    /// The beginning of the file could not be found: why.
    SeekFailed(String),
    /// The file could not be read: why.
    ReadFailed(String),
}

impl FileReport {
    /// What is shown of a file.
    pub open spec fn shown(self) -> Seq<char> {
        match self {
            FileReport::Read { length, path } => "File("@ + decimal(length as nat)
                + " bytes, path="@ + path@ + ")"@,
            FileReport::CloneFailed(why) => "File(<error cloning handle: "@ + why@ + ">)"@,
            FileReport::SeekFailed(why) => "File(<error seeking: "@ + why@ + ">)"@,
            FileReport::ReadFailed(why) => "File(<error reading file: "@ + why@ + ">)"@,
        }
    }

    /// Writes what is shown of a file behind `out`.
    fn show(&self, out: &mut String)
        ensures
            final(out)@ == old(out)@ + self.shown(),
    {
        match self {
            FileReport::Read { length, path } => {
                out.append("File(");
                push_decimal(out, *length);
                out.append(" bytes, path=");
                out.append(path.as_str());
                out.append(")");
            },
            FileReport::CloneFailed(why) => {
                out.append("File(<error cloning handle: ");
                out.append(why.as_str());
                out.append(">)");
            },
            FileReport::SeekFailed(why) => {
                out.append("File(<error seeking: ");
                out.append(why.as_str());
                out.append(">)");
            },
            FileReport::ReadFailed(why) => {
                out.append("File(<error reading file: ");
                out.append(why.as_str());
                out.append(">)");
            },
        }
        assert(out@ =~= old(out)@ + self.shown());
    }
}

/// A line for each byte.
pub open spec fn byte_lines(bytes: Seq<u8>) -> Seq<char>
    decreases bytes.len(),
{
    if bytes.len() == 0 {
        Seq::empty()
    } else {
        byte_lines(bytes.drop_last()) + "    "@ + decimal(bytes.last() as nat) + ",\n"@
    }
}

/// What is shown of bytes: their number and their values.
pub open spec fn bytes_shown(bytes: Seq<u8>) -> Seq<char> {
    "Bytes("@ + decimal(bytes.len()) + " bytes) "@ + (if bytes.len() == 0 {
        "[]"@
    } else {
        "[\n"@ + byte_lines(bytes) + "]"@
    })
}

/// Writes what is shown of bytes behind `out`.
fn show_bytes(bytes: &Vec<u8>, out: &mut String)
    ensures
        final(out)@ == old(out)@ + bytes_shown(bytes@),
{
    out.append("Bytes(");
    push_decimal(out, bytes.len() as u64);
    out.append(" bytes) ");
    if bytes.len() == 0 {
        out.append("[]");
    } else {
        out.append("[\n");
        let ghost before = out@;
        let mut i: usize = 0;
        assert(before =~= before + byte_lines(bytes@.take(0)));
        while i < bytes.len()
            invariant
                i <= bytes@.len(),
                out@ == before + byte_lines(bytes@.take(i as int)),
            decreases bytes@.len() - i,
        {
            out.append("    ");
            push_decimal(out, bytes[i] as u64);
            out.append(",\n");
            proof {
                let more = bytes@.take(i + 1);
                assert(more.drop_last() =~= bytes@.take(i as int));
                assert(more.last() == bytes@[i as int]);
                assert(out@ =~= before + byte_lines(more));
            }
            i = i + 1;
        }
        assert(bytes@.take(bytes@.len() as int) =~= bytes@);
        out.append("]");
    }
    assert(out@ =~= old(out)@ + bytes_shown(bytes@));
}

impl<F> DataType<F> {
    /// What is shown of the data of a part, given what is found out of their file.
    pub open spec fn shown(self, report: Option<FileReport>) -> Seq<char> {
        match self {
            DataType::Bytes(bytes) => bytes_shown(bytes@),
            DataType::File(_) => (report->0).shown(),
        }
    }

    /// The data as text. Where they are in a file, `report` says what is found out
    /// of it.
    pub fn to_text(&self, report: &Option<FileReport>) -> (text: String)
        requires
            *self is File ==> *report is Some,
        ensures
            text@ == self.shown(*report),
    {
        let mut text = String::new();
        match self {
            DataType::Bytes(bytes) => show_bytes(bytes, &mut text),
            DataType::File(_) => {
                if let Some(report) = report {
                    report.show(&mut text);
                }
            },
        }
        assert(text@ =~= self.shown(*report));
        text
    }
}

/// A line for each header.
pub open spec fn header_lines(entries: Seq<(Seq<char>, Seq<char>)>) -> Seq<char>
    decreases entries.len(),
{
    if entries.len() == 0 {
        Seq::empty()
    } else {
        let entry = entries.last();
        header_lines(entries.drop_last()) + "    "@ + entry.0 + ": "@ + entry.1 + ",\n"@
    }
}

impl<F> MultiPart<F> {
    /// What is shown of the headers.
    pub open spec fn headers_shown(self) -> Seq<char> {
        match self.headers {
            Some(map) => if map.listed().len() > 0 {
                "  headers: {\n"@ + header_lines(map.listed()) + "  },\n"@
            } else {
                "  headers: {},\n"@
            },
            None => "  headers: None,\n"@,
        }
    }

    /// What is shown of the data.
    pub open spec fn data_shown(self, report: Option<FileReport>) -> Seq<char> {
        match self.data {
            Some(data) => "  data: "@ + data.shown(report) + ",\n"@,
            None => "  data: None,\n"@,
        }
    }

    /// What is shown of the content type.
    pub open spec fn content_type_shown(self) -> Seq<char> {
        match self.content_type {
            Some(content_type) => "  content_type: "@ + content_type@ + ",\n"@,
            None => "  content_type: None,\n"@,
        }
    }

    /// What is shown of the limits.
    pub open spec fn limits_shown(self) -> Seq<char> {
        "  max_body_limit_until_file: "@ + decimal(self.max_body_limit_until_file as nat) + ",\n"@
            + "  max_file_size: "@ + decimal(self.max_file_size as nat) + ",\n"@
    }

    /// What is shown of the part, given what is found out of the file of its data.
    pub open spec fn shown(self, report: Option<FileReport>) -> Seq<char> {
        "MultiPart {\n"@ + self.headers_shown() + self.data_shown(report)
            + self.content_type_shown() + self.limits_shown() + "}"@
    }

    /// Writes what is shown of the headers behind `out`.
    fn show_headers(&self, out: &mut String)
        ensures
            final(out)@ == old(out)@ + self.headers_shown(),
    {
        match &self.headers {
            Some(map) => {
                if map.len() > 0 {
                    out.append("  headers: {\n");
                    let ghost before = out@;
                    let mut i: usize = 0;
                    assert(before =~= before + header_lines(map.listed().take(0)));
                    while i < map.len()
                        invariant
                            i <= map.listed().len(),
                            out@ == before + header_lines(map.listed().take(i as int)),
                        decreases map.listed().len() - i,
                    {
                        let (name, value) = map.entry(i);
                        out.append("    ");
                        out.append(name);
                        out.append(": ");
                        out.append(value);
                        out.append(",\n");
                        proof {
                            let more = map.listed().take(i + 1);
                            assert(more.drop_last() =~= map.listed().take(i as int));
                            assert(more.last() == map.listed()[i as int]);
                            assert(out@ =~= before + header_lines(more));
                        }
                        i = i + 1;
                    }
                    assert(map.listed().take(map.listed().len() as int) =~= map.listed());
                    out.append("  },\n");
                } else {
                    out.append("  headers: {},\n");
                }
            },
            None => {
                out.append("  headers: None,\n");
            },
        }
        assert(out@ =~= old(out)@ + self.headers_shown());
    }

    /// The part as text. Where its data are in a file, `report` says what is found
    /// out of it.
    pub fn to_text(&self, report: &Option<FileReport>) -> (text: String)
        requires
            self.data is Some && self.data->0 is File ==> *report is Some,
        ensures
            text@ == self.shown(*report),
    {
        let mut text = String::new();
        text.append("MultiPart {\n");
        self.show_headers(&mut text);
        match &self.data {
            Some(data) => {
                text.append("  data: ");
                text.append(data.to_text(report).as_str());
                text.append(",\n");
            },
            None => {
                text.append("  data: None,\n");
            },
        }
        match &self.content_type {
            Some(content_type) => {
                text.append("  content_type: ");
                text.append(content_type.as_str());
                text.append(",\n");
            },
            None => {
                text.append("  content_type: None,\n");
            },
        }
        text.append("  max_body_limit_until_file: ");
        push_decimal(&mut text, self.max_body_limit_until_file as u64);
        text.append(",\n");
        text.append("  max_file_size: ");
        push_decimal(&mut text, self.max_file_size as u64);
        text.append(",\n");
        text.append("}");
        assert(text@ =~= self.shown(*report));
        text
    }
}

} // verus!
