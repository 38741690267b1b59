//! One part of a multipart body, and where its data are kept.

use crate::headers::{header_fields, parse_header_section, HeaderMap};
use crate::parser::MultiPartParserError;
use crate::text::{contains, contains_text, starts_with_text, text_from_utf8};
use vstd::prelude::*;
use vstd::utf8::{decode_utf8, encode_utf8_decode_utf8, valid_utf8};

verus! {

/// The data of a part, held in one of two ways, depending on their size.
///
/// `F` is the handle of a temporary file: the caller of the parser chooses it,
/// and the parser only passes it on.
#[derive(Debug)]
pub enum DataType<F> {
    /// Held in memory.
    Bytes(Vec<u8>),
    /// Held in a temporary file.
    File(F),
}

/// One part of a multipart body.
#[derive(Debug)]
pub struct MultiPart<F> {
    /// The headers of this part, by name. `None` until they have been parsed.
    pub headers: Option<HeaderMap>,
    /// The data of this part. `None` until some have been parsed.
    pub data: Option<DataType<F>>,
    /// The `Content-Type` of this part, if its headers name one.
    pub content_type: Option<String>,
    /// The size up to which the data of this part are held in memory.
    pub max_body_limit_until_file: u32,
    /// The size that this part may have in a file.
    pub max_file_size: u32,
}

/// What a [`DataType`] stands for.
#[verifier::ext_equal]
pub enum DataView<F> {
    /// Data in memory.
    Bytes(Seq<u8>),
    /// Data in a file.
    File(F),
}

/// What a [`MultiPart`] stands for.
#[verifier::ext_equal]
pub struct PartView<F> {
    /// The headers.
    pub headers: Option<Map<Seq<char>, Seq<char>>>,
    /// The data.
    pub data: Option<DataView<F>>,
    /// The content type.
    pub content_type: Option<Seq<char>>,
    /// The size up to which data are held in memory.
    pub memory_limit: u32,
    /// The size that a file may have.
    pub file_limit: u32,
}

impl<F> View for DataType<F> {
    type V = DataView<F>;

    open spec fn view(&self) -> DataView<F> {
        match *self {
            DataType::Bytes(bytes) => DataView::Bytes(bytes@),
            DataType::File(file) => DataView::File(file),
        }
    }
}

impl<F> View for MultiPart<F> {
    type V = PartView<F>;

    open spec fn view(&self) -> PartView<F> {
        PartView {
            headers: match self.headers {
                Some(map) => Some(map@),
                None => None,
            },
            data: match self.data {
                Some(data) => Some(data@),
                None => None,
            },
            content_type: match self.content_type {
                Some(text) => Some(text@),
                None => None,
            },
            memory_limit: self.max_body_limit_until_file,
            file_limit: self.max_file_size,
        }
    }
}

/// What comes of handing data to a part.
pub enum Written<F> {
    /// The part holds them.
    Stored,
    /// They have to go to a new file, with what the part held before.
    Create(Seq<u8>),
    /// They have to go to the file of the part, if it has room for them.
    Measure(F),
    /// There are too many for a file.
    TooLarge,
}

impl<F> PartView<F> {
    /// A part of which nothing is known yet.
    pub open spec fn empty(memory_limit: u32, file_limit: u32) -> PartView<F> {
        PartView { headers: None, data: None, content_type: None, memory_limit, file_limit }
    }

    /// The part with the headers of a header section, which also give its content
    /// type.
    pub open spec fn with_headers(self, section: Seq<u8>) -> PartView<F> {
        let fields = header_fields(decode_utf8(section));
        PartView {
            headers: Some(fields),
            content_type: if fields.contains_key("Content-Type"@) {
                Some(fields["Content-Type"@])
            } else {
                None
            },
            ..self
        }
    }

    /// The part is made up of parts itself.
    pub open spec fn is_nested(self) -> bool {
        self.content_type is Some && starts_with_text(self.content_type->0, "multipart/"@)
    }

    /// The boundary between the parts that this part is made up of.
    pub open spec fn inner_boundary(self) -> Option<Seq<char>> {
        if self.headers is Some && (self.headers->0).contains_key("boundary"@) {
            Some((self.headers->0)["boundary"@])
        } else {
            None
        }
    }

    /// The headers say that the part is a file, whatever its size.
    pub open spec fn is_file_part(self) -> bool {
        &&& self.headers is Some
        &&& (self.headers->0).contains_key("content-disposition"@)
        &&& contains_text((self.headers->0)["content-disposition"@], "filename="@)
    }

    /// The part without its data.
    pub open spec fn without_data(self) -> PartView<F> {
        PartView { data: None, ..self }
    }

    /// The part with its data in memory.
    pub open spec fn with_bytes(self, bytes: Seq<u8>) -> PartView<F> {
        PartView { data: Some(DataView::Bytes(bytes)), ..self }
    }

    /// The part with its data in a file.
    pub open spec fn with_file(self, file: F) -> PartView<F> {
        PartView { data: Some(DataView::File(file)), ..self }
    }

    /// The data that the part holds in memory.
    pub open spec fn in_memory(self) -> Seq<u8> {
        match self.data {
            Some(DataView::Bytes(bytes)) => bytes,
            _ => Seq::empty(),
        }
    }

    /// What comes of handing `chunk` to the part: the part holds it in memory as
    /// long as all its data keep within the memory limit and the part is no file;
    /// otherwise all the data go to a file, as long as they keep within the file
    /// limit. Where a file is needed the part has no data until there is one.
    pub open spec fn written(self, chunk: Seq<u8>) -> (PartView<F>, Written<F>) {
        match self.data {
            Some(DataView::File(file)) => (self.without_data(), Written::Measure(file)),
            _ => {
                let all = self.in_memory() + chunk;
                if (self.data is Some || !self.is_file_part()) && all.len() <= self.memory_limit {
                    (self.with_bytes(all), Written::Stored)
                } else if all.len() <= self.file_limit {
                    (self.without_data(), Written::Create(all))
                } else {
                    (self.without_data(), Written::TooLarge)
                }
            },
        }
    }
}

/// What the parser asks its caller to do with a temporary file. A handle that a
/// request carries belongs to the caller, until it is handed back in a
/// [`FileReply`].
#[derive(Debug)]
pub enum FileRequest<F> {
    /// Create a temporary file that holds `contents`.
    Create {
        /// What to write.
        contents: Vec<u8>,
    },
    /// Find out the size of `file`.
    Measure {
        /// The file.
        file: F,
    },
    /// Write `bytes` at the end of `file`.
    Append {
        /// The file.
        file: F,
        /// What to write.
        bytes: Vec<u8>,
    },
}

/// What a [`FileRequest`] stands for.
#[verifier::ext_equal]
pub enum RequestView<F> {
    /// Create a file that holds the bytes.
    Create(Seq<u8>),
    /// Find out the size of the file.
    Measure(F),
    /// Write the bytes at the end of the file.
    Append(F, Seq<u8>),
}

impl<F> View for FileRequest<F> {
    type V = RequestView<F>;

    open spec fn view(&self) -> RequestView<F> {
        match *self {
            FileRequest::Create { contents } => RequestView::Create(contents@),
            FileRequest::Measure { file } => RequestView::Measure(file),
            FileRequest::Append { file, bytes } => RequestView::Append(file, bytes@),
        }
    }
}

/// What came of a [`FileRequest`].
#[derive(Debug)]
pub enum FileReply<F> {
    /// Of [`FileRequest::Create`] and [`FileRequest::Append`]: the file, which now
    /// holds the bytes, or the error that kept them from it.
    Stored(Result<F, std::io::Error>),
    /// Of [`FileRequest::Measure`]: the file and its size, or the error that kept
    /// the size from being known.
    Measured(Result<(F, u64), std::io::Error>),
}

/// What a part needs to take data in.
pub(crate) enum WriteStep<F> {
    /// Nothing: the part holds them.
    Stored,
    /// An answer to this request.
    Request(FileRequest<F>),
}

impl<F> MultiPart<F> {
    /// A part of which nothing is known yet.
    pub(crate) fn new(max_body_limit_until_file: u32, max_file_size: u32) -> (part: MultiPart<F>)
        ensures
            part@ == PartView::<F>::empty(max_body_limit_until_file, max_file_size),
    {
        MultiPart {
            headers: None,
            data: None,
            content_type: None,
            max_body_limit_until_file,
            max_file_size,
        }
    }

    /// Sets the headers, and the content type with them, from a header section.
    /// One that is no UTF-8 is refused.
    pub(crate) fn set_headers(&mut self, header_bytes: &[u8]) -> (done: bool)
        ensures
            done == valid_utf8(header_bytes@),
            done ==> final(self)@ == old(self)@.with_headers(header_bytes@),
            !done ==> final(self)@ == old(self)@,
    {
        match text_from_utf8(header_bytes) {
            Some(section) => {
                proof {
                    encode_utf8_decode_utf8(section@);
                }
                let map = parse_header_section(section);
                self.content_type = match map.get("Content-Type") {
                    Some(value) => Some(value.clone()),
                    None => None,
                };
                self.headers = Some(map);
                true
            },
            None => false,
        }
    }

    /// Tells whether the headers say that the part is a file.
    fn is_file_part(&self) -> (res: bool)
        ensures
            res == self@.is_file_part(),
    {
        match &self.headers {
            Some(map) => match map.get("content-disposition") {
                Some(value) => contains(value.as_str(), "filename="),
                None => false,
            },
            None => false,
        }
    }

    /// Hands `chunk` to the part.
    pub(crate) fn write(&mut self, chunk: &[u8]) -> (res: Result<
        WriteStep<F>,
        MultiPartParserError,
    >)
        ensures
            final(self)@ == old(self)@.written(chunk@).0,
            match old(self)@.written(chunk@).1 {
                Written::Stored => res == Ok::<WriteStep<F>, MultiPartParserError>(
                    WriteStep::Stored,
                ),
                Written::Create(all) => res matches Ok(WriteStep::Request(request)) && request@
                    == RequestView::<F>::Create(all),
                Written::Measure(file) => res matches Ok(WriteStep::Request(request)) && request@
                    == RequestView::Measure(file),
                Written::TooLarge => res == Err::<WriteStep<F>, MultiPartParserError>(
                    MultiPartParserError::MaxFileSizeExceededError,
                ),
            },
    {
        let ghost before = self@;
        let file_part: bool = self.is_file_part();
        let fresh: bool = self.data.is_none();
        let mut all: Vec<u8> = match self.data.take() {
            Some(DataType::File(file)) => {
                return Ok(WriteStep::Request(FileRequest::Measure { file }));
            },
            Some(DataType::Bytes(items)) => items,
            None => Vec::new(),
        };
        all.extend_from_slice(chunk);
        assert(all@ =~= before.in_memory() + chunk@);
        if (!fresh || !file_part) && all.len() <= self.max_body_limit_until_file as usize {
            self.data = Some(DataType::Bytes(all));
            Ok(WriteStep::Stored)
        } else if all.len() <= self.max_file_size as usize {
            Ok(WriteStep::Request(FileRequest::Create { contents: all }))
        } else {
            Err(MultiPartParserError::MaxFileSizeExceededError)
        }
    }

    /// Tells whether a file of `size` bytes has room for `added` more.
    pub(crate) fn has_room(&self, size: u64, added: usize) -> (res: bool)
        ensures
            res == (size + added <= self@.file_limit),
    {
        let limit: u64 = self.max_file_size as u64;
        size <= limit && added as u64 <= limit - size
    }

    /// Keeps the file that holds the data of the part.
    pub(crate) fn keep_file(&mut self, file: F)
        ensures
            final(self)@ == old(self)@.with_file(file),
    {
        self.data = Some(DataType::File(file));
    }
}

/// Data stand for the bytes in memory, or for the handle of their file.
pub proof fn law_data_stand_for_what_they_hold<F>(data: DataType<F>)
    ensures
        data matches DataType::Bytes(bytes) ==> data@ == DataView::<F>::Bytes(bytes@),
        data matches DataType::File(file) ==> data@ == DataView::File(file),
{
}

/// A part stands for what its fields hold.
pub proof fn law_parts_stand_for_what_they_hold<F>(part: MultiPart<F>)
    ensures
        part.headers is None <==> part@.headers is None,
        part.headers matches Some(map) ==> part@.headers == Some(map@),
        part.data is None <==> part@.data is None,
        part.data matches Some(data) ==> part@.data == Some(data@),
        part.content_type is None <==> part@.content_type is None,
        part.content_type matches Some(text) ==> part@.content_type == Some(text@),
        part@.memory_limit == part.max_body_limit_until_file,
        part@.file_limit == part.max_file_size,
{
}

/// A request stands for what it asks for.
pub proof fn law_requests_stand_for_what_they_ask<F>(request: FileRequest<F>)
    ensures
        request matches FileRequest::Create { contents } ==> request@ == RequestView::<F>::Create(
            contents@,
        ),
        request matches FileRequest::Measure { file } ==> request@ == RequestView::Measure(file),
        request matches FileRequest::Append { file, bytes } ==> request@ == RequestView::Append(
            file,
            bytes@,
        ),
{
}

} // verus!
