//! Bodies, as they are written: what comes out of them, and what they are refused for,
//! told from the bytes of the bodies and the text of the headers alone.

use crate::contents::parts_with_contents;
use crate::headers::header_fields;
use crate::laws::opens_with_line_end;
use crate::lines::{
    holds_pairs, is_line, last_value, law_header_lines_are_read, lines_pairs, lines_text,
    HeaderLine,
};
use crate::machine::{is_valid_boundary, Outcome, ParserView};
use crate::multipart::{DataView, FileReply, PartView};
use crate::parser::MultiPartParserError;
use crate::search::{double_newline, is_first_occurrence, occurs_at};
use crate::streaming::{all_small, is_small, lemma_part_of_body, lemma_whole_body};
use crate::text::{contains_text, starts_with_text};
use crate::wire::{
    delimiter_of, encoded_header, fed_with, headed_part, holding, is_faithful_run,
    marked_sections, opening_of, parts_of, Inner, Section,
};
use vstd::prelude::*;
use vstd::utf8::{encode_utf8, encode_utf8_decode_utf8, valid_utf8};

verus! {

/// A part, as it is written in a body.
pub struct Document {
    /// The header section, without the empty line that ends it.
    pub header: Seq<u8>,
    /// The lines that the header section is made up of.
    pub lines: Seq<HeaderLine>,
    /// What follows the empty line.
    pub body: Seq<u8>,
    /// What the body is made up of, where it is made up of parts.
    pub inside: Option<Inside>,
}

/// What the body of a part is made up of.
pub struct Inside {
    /// The boundary between the parts.
    pub boundary: Seq<u8>,
    /// The parts.
    pub documents: Seq<Document>,
    /// The two bytes that follow the last boundary: `--`, unless the body is broken there.
    pub mark: Seq<u8>,
    /// What follows these.
    pub epilogue: Seq<u8>,
}

/// The sizes that a parser is made with.
pub struct Limits {
    /// The size that a header section may have.
    pub header: u16,
    /// The size up to which a part is held in memory.
    pub memory: u32,
    /// The size that a part may have in a file.
    pub file: u32,
}

/// The bytes of `piece` stand in `data` from `at` on.
pub open spec fn stands_at(data: Seq<u8>, piece: Seq<u8>, at: int) -> bool {
    &&& 0 <= at
    &&& at + piece.len() <= data.len()
    &&& forall|k: int| 0 <= k < piece.len() ==> data[at + k] == #[trigger] piece[k]
}

/// In `data` with `mark` behind them, `mark` begins nowhere in `data`: who reads on to the
/// first `mark` has read `data`.
pub open spec fn ends_at_first(data: Seq<u8>, mark: Seq<u8>) -> bool {
    forall|at: int| 0 <= at < data.len() ==> !#[trigger] stands_at(data + mark, mark, at)
}

/// Some byte ends a line.
pub open spec fn has_line_end(bytes: Seq<u8>) -> bool {
    exists|i: int| 0 <= i < bytes.len() && (#[trigger] bytes[i] == 13 || bytes[i] == 10)
}

/// `text` begins with `part`.
pub open spec fn begins_with(text: Seq<char>, part: Seq<char>) -> bool {
    exists|rest: Seq<char>| text == #[trigger] (part + rest)
}

/// `part` stands somewhere in `text`.
pub open spec fn holds_text(text: Seq<char>, part: Seq<char>) -> bool {
    exists|before: Seq<char>, behind: Seq<char>| text == #[trigger] (before + (part + behind))
}

/// What stands in a body behind the boundary before the documents, where `mark` follows
/// the last boundary.
pub open spec fn documents_text(
    boundary: Seq<u8>,
    documents: Seq<Document>,
    mark: Seq<u8>,
) -> Seq<u8>
    decreases documents.len(),
{
    if documents.len() == 0 {
        mark
    } else {
        let first = documents[0];
        let empty_line = if first.header.len() == 0 {
            seq![13u8, 10u8]
        } else {
            seq![13u8, 10u8, 13u8, 10u8]
        };
        seq![13u8, 10u8] + (first.header + empty_line + (first.body + (seq![
            13u8,
            10u8,
            45u8,
            45u8,
        ] + boundary + documents_text(boundary, documents.drop_first(), mark))))
    }
}

/// The body that the documents make up.
pub open spec fn body_text(
    boundary: Seq<u8>,
    documents: Seq<Document>,
    mark: Seq<u8>,
) -> Seq<u8> {
    seq![45u8, 45u8] + boundary + documents_text(boundary, documents, mark)
}

/// Two bytes that do not end a line: no document follows.
pub open spec fn ends_documents(mark: Seq<u8>) -> bool {
    mark.len() == 2 && !(mark[0] == 13 && mark[1] == 10)
}

impl Document {
    /// The value that the headers give a name.
    pub open spec fn value(self, name: Seq<char>) -> Option<Seq<char>> {
        last_value(lines_pairs(self.lines), name)
    }

    /// The headers can be read.
    pub open spec fn is_readable(self, limits: Limits) -> bool {
        self.header.len() <= limits.header && valid_utf8(self.header)
    }

    /// The headers say that the body is made up of parts.
    pub open spec fn is_multipart(self) -> bool {
        self.value("Content-Type"@) matches Some(value) && begins_with(value, "multipart/"@)
    }

    /// The headers say that the part is a file.
    pub open spec fn is_upload(self) -> bool {
        self.value("content-disposition"@) matches Some(value) && holds_text(value, "filename="@)
    }

    /// The headers name a boundary, and one that a body can have.
    pub open spec fn names_boundary(self) -> bool {
        self.value("boundary"@) matches Some(value) && !has_line_end(encode_utf8(value))
    }

    /// The pieces of the document, in a body with this boundary, can be told apart. The
    /// header section is made up of the lines. It ends at its first empty line. What the
    /// body is made up of is written under the boundary that the headers name. Neither a
    /// body nor what follows the parts in one holds the delimiter. Of a document that is
    /// refused for its headers, nothing is said that comes behind them.
    pub open spec fn is_laid_out(self, limits: Limits, boundary: Seq<u8>) -> bool
        decreases self,
    {
        let delimiter = seq![13u8, 10u8, 45u8, 45u8] + boundary;
        &&& self.header.len() > 0 ==> {
            &&& !stands_at(self.header, seq![13u8, 10u8], 0)
            &&& ends_at_first(self.header, seq![13u8, 10u8, 13u8, 10u8])
        }
        &&& valid_utf8(self.header) ==> {
            &&& forall|k: int| 0 <= k < self.lines.len() ==> is_line(#[trigger] self.lines[k])
            &&& self.header == encode_utf8(lines_text(self.lines))
        }
        &&& self.is_readable(limits) && !self.is_multipart() ==> {
            &&& self.inside is None
            &&& ends_at_first(self.body, delimiter)
        }
        &&& self.is_readable(limits) && self.is_multipart() && self.names_boundary()
            ==> match self.inside {
            None => false,
            Some(inside) => {
                &&& inside.boundary == encode_utf8(self.value("boundary"@)->0)
                &&& ends_documents(inside.mark)
                &&& self.body == body_text(inside.boundary, inside.documents, inside.mark)
                    + inside.epilogue
                &&& inside.mark == seq![45u8, 45u8] ==> ends_at_first(inside.epilogue, delimiter)
                &&& all_laid_out(limits, inside.boundary, inside.documents)
            },
        }
    }

    /// The document has to go to a file.
    pub open spec fn needs_file(self, limits: Limits) -> bool {
        self.body.len() > 0 && (self.is_upload() || self.body.len() > limits.memory)
    }

    /// What the document is refused for: headers that are too long; headers that are no
    /// text; a body that is to be made up of parts, with no boundary between them or with
    /// one that ends a line; what these parts are refused for; data that go to a file and
    /// are too long for it.
    pub open spec fn refusal(self, limits: Limits) -> Option<MultiPartParserError>
        decreases self, 0int,
    {
        if self.header.len() > limits.header {
            Some(MultiPartParserError::MaxHeaderLimitExceeded)
        } else if !valid_utf8(self.header) {
            Some(MultiPartParserError::MaliciousPart)
        } else if self.is_multipart() {
            match self.value("boundary"@) {
                None => Some(MultiPartParserError::MaliciousPart),
                Some(value) => if has_line_end(encode_utf8(value)) {
                    Some(MultiPartParserError::InvalidCharacterInBoundary)
                } else {
                    match self.inside {
                        Some(inside) => refusal_of(limits, inside.documents, inside.mark),
                        None => None,
                    }
                },
            }
        } else if self.needs_file(limits) && self.body.len() > limits.file {
            Some(MultiPartParserError::MaxFileSizeExceededError)
        } else {
            None
        }
    }

    /// The document, and all that it is made up of, stay in memory.
    pub open spec fn stays_in_memory(self, limits: Limits) -> bool
        decreases self,
    {
        match self.inside {
            None => !self.is_upload() && self.body.len() <= limits.memory,
            Some(inside) => all_stay_in_memory(limits, inside.documents),
        }
    }

    /// `part` is what comes of the document: it has the headers that stand in the lines,
    /// and the bytes of the body, if there are any and they are not made up of parts. They
    /// are in memory, unless they need a file.
    pub open spec fn comes_out_as<F>(
        self,
        part: PartView<F>,
        limits: Limits,
        contents: spec_fn(F) -> Seq<u8>,
    ) -> bool {
        &&& part.headers matches Some(map) && holds_pairs(map, lines_pairs(self.lines))
        &&& part.content_type == self.value("Content-Type"@)
        &&& part.memory_limit == limits.memory
        &&& part.file_limit == limits.file
        &&& match part.data {
            None => self.is_multipart() || self.body.len() == 0,
            Some(DataView::Bytes(bytes)) => {
                &&& !self.is_multipart() && self.body.len() > 0
                &&& !self.needs_file(limits)
                &&& bytes == self.body
            },
            Some(DataView::File(file)) => {
                &&& !self.is_multipart() && self.needs_file(limits)
                &&& contents(file) == self.body
            },
        }
    }
}

/// The pieces of all documents can be told apart.
pub open spec fn all_laid_out(
    limits: Limits,
    boundary: Seq<u8>,
    documents: Seq<Document>,
) -> bool
    decreases documents,
{
    documents.len() == 0 || (documents[0].is_laid_out(limits, boundary) && all_laid_out(
        limits,
        boundary,
        documents.drop_first(),
    ))
}

/// What the first document is refused for that is refused.
pub open spec fn first_refusal(limits: Limits, documents: Seq<Document>) -> Option<
    MultiPartParserError,
>
    decreases documents, 0int,
{
    if documents.len() == 0 {
        None
    } else {
        match documents[0].refusal(limits) {
            Some(error) => Some(error),
            None => first_refusal(limits, documents.drop_first()),
        }
    }
}

/// What a body is refused for: what the first of its documents is that is refused, or else
/// a last boundary that is not marked as one.
pub open spec fn refusal_of(
    limits: Limits,
    documents: Seq<Document>,
    mark: Seq<u8>,
) -> Option<MultiPartParserError>
    decreases documents, 1int,
{
    match first_refusal(limits, documents) {
        Some(error) => Some(error),
        None => if mark == seq![45u8, 45u8] {
            None
        } else {
            Some(MultiPartParserError::MalformedMultiPartBoundary)
        },
    }
}

/// All documents stay in memory.
pub open spec fn all_stay_in_memory(limits: Limits, documents: Seq<Document>) -> bool
    decreases documents,
{
    documents.len() == 0 || (documents[0].stays_in_memory(limits) && all_stay_in_memory(
        limits,
        documents.drop_first(),
    ))
}

/// The documents, in the order in which they come out: those that another is made up of
/// before it.
pub open spec fn in_order(documents: Seq<Document>) -> Seq<Document>
    decreases documents,
{
    if documents.len() == 0 {
        Seq::empty()
    } else {
        (match documents[0].inside {
            None => seq![documents[0]],
            Some(inside) => in_order(inside.documents) + seq![documents[0]],
        }) + in_order(documents.drop_first())
    }
}

/// A part for each document, in order.
pub open spec fn come_out_as<F>(
    documents: Seq<Document>,
    parts: Seq<PartView<F>>,
    limits: Limits,
    contents: spec_fn(F) -> Seq<u8>,
) -> bool {
    &&& parts.len() == in_order(documents).len()
    &&& forall|i: int|
        0 <= i < parts.len() ==> in_order(documents)[i].comes_out_as(
            #[trigger] parts[i],
            limits,
            contents,
        )
}

/// The document as a section of a body.
spec fn section_of(document: Document) -> Section
    decreases document,
{
    Section {
        header: document.header,
        body: document.body,
        inner: match document.inside {
            None => None,
            Some(inside) => Some(
                Inner {
                    boundary: inside.boundary,
                    mark: inside.mark,
                    sections: sections_of(inside.documents),
                    epilogue: inside.epilogue,
                },
            ),
        },
    }
}

/// The documents as sections of a body.
spec fn sections_of(documents: Seq<Document>) -> Seq<Section>
    decreases documents,
{
    if documents.len() == 0 {
        Seq::empty()
    } else {
        seq![section_of(documents[0])] + sections_of(documents.drop_first())
    }
}

/// A parser that has received nothing.
spec fn parser_with(limits: Limits, boundary: Seq<u8>) -> ParserView<Seq<u8>> {
    ParserView::fresh(limits.header, limits.memory, limits.file, boundary)
}

/// The first section is the first document.
proof fn lemma_sections(documents: Seq<Document>)
    ensures
        documents.len() == 0 ==> sections_of(documents) == Seq::<Section>::empty(),
        documents.len() > 0 ==> {
            &&& sections_of(documents).len() > 0
            &&& sections_of(documents)[0] == section_of(documents[0])
            &&& sections_of(documents).drop_first() == sections_of(documents.drop_first())
        },
{
    if documents.len() > 0 {
        assert(sections_of(documents).drop_first() =~= sections_of(documents.drop_first()));
    }
}

/// A body is the same, whether of documents or of sections.
proof fn lemma_documents_text(boundary: Seq<u8>, documents: Seq<Document>, mark: Seq<u8>)
    ensures
        documents_text(boundary, documents, mark) == marked_sections(
            boundary,
            sections_of(documents),
            mark,
        ),
        body_text(boundary, documents, mark) == opening_of(boundary) + marked_sections(
            boundary,
            sections_of(documents),
            mark,
        ),
    decreases documents.len(),
{
    lemma_sections(documents);
    if documents.len() > 0 {
        let later = documents.drop_first();
        lemma_documents_text(boundary, later, mark);
        let first = documents[0];
        let head = encoded_header(first.header);
        assert(double_newline() =~= seq![13u8, 10u8, 13u8, 10u8]);
        let rest = delimiter_of(boundary) + documents_text(boundary, later, mark);
        assert(documents_text(boundary, documents, mark) =~= seq![13u8, 10u8] + (head + (first.body
            + rest)));
    }
    assert(body_text(boundary, documents, mark) =~= opening_of(boundary) + documents_text(
        boundary,
        documents,
        mark,
    ));
}

/// Where a piece stands, it occurs.
pub(crate) proof fn lemma_stands(data: Seq<u8>, piece: Seq<u8>, at: int)
    ensures
        stands_at(data, piece, at) == occurs_at(data, piece, at),
{
    if 0 <= at && at + piece.len() <= data.len() {
        let found = data.subrange(at, at + piece.len());
        if stands_at(data, piece, at) {
            assert(found =~= piece);
        }
        if occurs_at(data, piece, at) {
            assert forall|k: int| 0 <= k < piece.len() implies data[at + k]
                == #[trigger] piece[k] by {
                assert(found[k] == data[at + k]);
            }
        }
    }
}

/// What ends at the first mark has its first mark behind it.
pub(crate) proof fn lemma_ends_at_first(data: Seq<u8>, mark: Seq<u8>)
    requires
        ends_at_first(data, mark),
    ensures
        is_first_occurrence(data + mark, mark, 0, data.len() as int),
{
    assert((data + mark).subrange(data.len() as int, data.len() as int + mark.len()) =~= mark);
    assert forall|at: int| 0 <= at < data.len() implies !occurs_at(data + mark, mark, at) by {
        lemma_stands(data + mark, mark, at);
        assert(!stands_at(data + mark, mark, at));
    }
}

/// Beginning with a text.
pub(crate) proof fn lemma_begins_with(text: Seq<char>, part: Seq<char>)
    ensures
        begins_with(text, part) == starts_with_text(text, part),
{
    if starts_with_text(text, part) {
        let rest = text.subrange(part.len() as int, text.len() as int);
        assert(text =~= part + rest);
    }
    if begins_with(text, part) {
        let rest = choose|rest: Seq<char>| text == #[trigger] (part + rest);
        assert(text.subrange(0, part.len() as int) =~= part);
    }
}

/// Holding a text.
pub(crate) proof fn lemma_holds_text(text: Seq<char>, part: Seq<char>)
    ensures
        holds_text(text, part) == contains_text(text, part),
{
    if contains_text(text, part) {
        let at = choose|at: int|
            0 <= at && at + part.len() <= text.len() && #[trigger] text.subrange(
                at,
                at + part.len(),
            ) == part;
        let before = text.subrange(0, at);
        let behind = text.subrange(at + part.len(), text.len() as int);
        assert(text =~= before + (part + behind));
    }
    if holds_text(text, part) {
        let (before, behind) = choose|before: Seq<char>, behind: Seq<char>|
            text == #[trigger] (before + (part + behind));
        let at = before.len() as int;
        assert(text.subrange(at, at + part.len()) =~= part);
    }
}

/// Boundaries without line ends.
pub(crate) proof fn lemma_boundary(boundary: Seq<u8>)
    ensures
        is_valid_boundary(boundary) == !has_line_end(boundary),
{
    if is_valid_boundary(boundary) {
        assert(!has_line_end(boundary));
    } else {
        let i = choose|i: int|
            0 <= i < boundary.len() && !(boundary[i] != 13 && boundary[i] != 10);
        assert(boundary[i] == 13 || boundary[i] == 10);
    }
}

/// What the headers of a document say.
proof fn lemma_headed(document: Document, limits: Limits, boundary: Seq<u8>)
    requires
        document.is_laid_out(limits, boundary),
        valid_utf8(document.header),
    ensures
        ({
            let part = headed_part(limits.memory, limits.file, section_of(document));
            &&& part.headers matches Some(map) && holds_pairs(map, lines_pairs(document.lines))
            &&& part.content_type == document.value("Content-Type"@)
            &&& part.is_nested() == document.is_multipart()
            &&& part.inner_boundary() == document.value("boundary"@)
            &&& part.is_file_part() == document.is_upload()
            &&& part.data is None
            &&& part.memory_limit == limits.memory
            &&& part.file_limit == limits.file
            &&& part.has_room_for(document.body.len()) == !(document.needs_file(limits)
                && document.body.len() > limits.file)
        }),
{
    let pairs = lines_pairs(document.lines);
    let map = header_fields(lines_text(document.lines));
    encode_utf8_decode_utf8(lines_text(document.lines));
    law_header_lines_are_read(document.lines);
    assert(match last_value(pairs, "Content-Type"@) {
        Some(value) => map.contains_key("Content-Type"@) && map["Content-Type"@] == value,
        None => !map.contains_key("Content-Type"@),
    });
    assert(match last_value(pairs, "boundary"@) {
        Some(value) => map.contains_key("boundary"@) && map["boundary"@] == value,
        None => !map.contains_key("boundary"@),
    });
    assert(match last_value(pairs, "content-disposition"@) {
        Some(value) => map.contains_key("content-disposition"@) && map["content-disposition"@]
            == value,
        None => !map.contains_key("content-disposition"@),
    });
    if let Some(value) = document.value("Content-Type"@) {
        lemma_begins_with(value, "multipart/"@);
    }
    if let Some(value) = document.value("content-disposition"@) {
        lemma_holds_text(value, "filename="@);
    }
}

/// A document that is laid out makes a section that can be told apart, which is refused
/// for the same.
#[verifier::rlimit(40)]
proof fn lemma_laid_out(document: Document, limits: Limits, boundary: Seq<u8>)
    requires
        document.is_laid_out(limits, boundary),
    ensures
        parser_with(limits, boundary).frames(section_of(document)),
        parser_with(limits, boundary).fault(section_of(document)) == document.refusal(limits),
    decreases document,
{
    let q = parser_with(limits, boundary);
    let section = section_of(document);
    let delimiter = seq![13u8, 10u8, 45u8, 45u8] + boundary;
    assert(q.delimiter() =~= delimiter);
    assert(double_newline() =~= seq![13u8, 10u8, 13u8, 10u8]);
    if document.header.len() > 0 {
        lemma_ends_at_first(document.header, double_newline());
        if opens_with_line_end(document.header) {
            assert(stands_at(document.header, seq![13u8, 10u8], 0));
        }
    }
    if document.is_readable(limits) {
        lemma_headed(document, limits, boundary);
        if !document.is_multipart() {
            lemma_ends_at_first(document.body, delimiter);
        } else if let Some(value) = document.value("boundary"@) {
            lemma_boundary(encode_utf8(value));
            if document.names_boundary() {
                let inside = document.inside->0;
                if inside.mark == seq![45u8, 45u8] {
                    lemma_ends_at_first(inside.epilogue, delimiter);
                }
                lemma_documents_text(inside.boundary, inside.documents, inside.mark);
                lemma_all_laid_out(inside.documents, limits, inside.boundary);
                assert(section.inner == Some(
                    Inner {
                        boundary: inside.boundary,
                        mark: inside.mark,
                        sections: sections_of(inside.documents),
                        epilogue: inside.epilogue,
                    },
                ));
            }
        }
    }
}

/// So it is with all documents that are laid out.
proof fn lemma_all_laid_out(documents: Seq<Document>, limits: Limits, boundary: Seq<u8>)
    requires
        all_laid_out(limits, boundary, documents),
    ensures
        parser_with(limits, boundary).frames_all(sections_of(documents)),
        parser_with(limits, boundary).first_fault(sections_of(documents)) == first_refusal(
            limits,
            documents,
        ),
    decreases documents,
{
    lemma_sections(documents);
    if documents.len() > 0 {
        lemma_laid_out(documents[0], limits, boundary);
        lemma_all_laid_out(documents.drop_first(), limits, boundary);
    }
}

/// A document that stays in memory makes a small section.
proof fn lemma_small(document: Document, limits: Limits, boundary: Seq<u8>)
    requires
        document.is_laid_out(limits, boundary),
        document.refusal(limits) is None,
        document.stays_in_memory(limits),
    ensures
        is_small(limits.memory, limits.file, section_of(document)),
    decreases document,
{
    lemma_headed(document, limits, boundary);
    if let Some(inside) = document.inside {
        lemma_all_small(inside.documents, limits, inside.boundary);
    }
}

/// So it is with all documents that stay in memory.
proof fn lemma_all_small(documents: Seq<Document>, limits: Limits, boundary: Seq<u8>)
    requires
        all_laid_out(limits, boundary, documents),
        first_refusal(limits, documents) is None,
        all_stay_in_memory(limits, documents),
    ensures
        all_small(limits.memory, limits.file, sections_of(documents)),
    decreases documents,
{
    lemma_sections(documents);
    if documents.len() > 0 {
        lemma_small(documents[0], limits, boundary);
        lemma_all_small(documents.drop_first(), limits, boundary);
    }
}

/// The parts that come of the sections are those that come of the documents.
proof fn lemma_parts(documents: Seq<Document>, limits: Limits, boundary: Seq<u8>)
    requires
        all_laid_out(limits, boundary, documents),
        first_refusal(limits, documents) is None,
    ensures
        come_out_as(
            documents,
            parts_of(limits.memory, limits.file, sections_of(documents)),
            limits,
            |file: Seq<u8>| file,
        ),
    decreases documents,
{
    let contents = |file: Seq<u8>| file;
    lemma_sections(documents);
    if documents.len() > 0 {
        let document = documents[0];
        let section = section_of(document);
        let later = documents.drop_first();
        let headed = headed_part(limits.memory, limits.file, section);
        let parts = parts_of(limits.memory, limits.file, sections_of(documents));
        let later_parts = parts_of(limits.memory, limits.file, sections_of(later));
        assert(document.is_laid_out(limits, boundary));
        assert(document.refusal(limits) is None);
        lemma_headed(document, limits, boundary);
        lemma_parts(later, limits, boundary);
        let (first_documents, first_parts) = match document.inside {
            None => (seq![document], seq![holding(headed, document.body)]),
            Some(inside) => (
                in_order(inside.documents) + seq![document],
                parts_of(limits.memory, limits.file, sections_of(inside.documents)) + seq![headed],
            ),
        };
        match document.inside {
            None => {
                assert(!document.is_multipart());
                assert(document.comes_out_as(holding(headed, document.body), limits, contents));
            },
            Some(inside) => {
                assert(document.is_multipart());
                lemma_parts(inside.documents, limits, inside.boundary);
                assert(document.comes_out_as(headed, limits, contents));
            },
        }
        assert(in_order(documents) == first_documents + in_order(later));
        assert(parts == first_parts + later_parts);
        assert(first_parts.len() == first_documents.len());
        assert forall|i: int| 0 <= i < first_parts.len() implies first_documents[i].comes_out_as(
            #[trigger] first_parts[i],
            limits,
            contents,
        ) by {
            if let Some(inside) = document.inside {
                let inner = parts_of(limits.memory, limits.file, sections_of(inside.documents));
                if i < inner.len() {
                    assert(first_parts[i] == inner[i]);
                }
            }
        }
        assert forall|i: int| 0 <= i < parts.len() implies in_order(documents)[i].comes_out_as(
            #[trigger] parts[i],
            limits,
            contents,
        ) by {
            if i < first_parts.len() {
                assert(parts[i] == first_parts[i]);
            } else {
                assert(parts[i] == later_parts[i - first_parts.len()]);
            }
        }
    }
}

/// Whatever the chunks in which a body arrives, and whatever stands for a file, as long as
/// all requests are done as they ask: the body fails as the first document has to that is
/// refused, or for a last boundary that is not marked as one. Otherwise a part comes out
/// for each document, with the headers that stand in its lines and the bytes of its body,
/// those that another is made up of before it.
///
/// This is so under every boundary that does not end a line. What follows the last
/// boundary may come in the chunk that completes it.
pub proof fn law_documents_come_out_as_they_were_written<F>(
    limits: Limits,
    boundary: Seq<u8>,
    documents: Seq<Document>,
    mark: Seq<u8>,
    epilogue: Seq<u8>,
    chunks: Seq<Seq<u8>>,
    replies: Seq<Seq<FileReply<F>>>,
    contents: spec_fn(F) -> Seq<u8>,
)
    requires
        forall|i: int| 0 <= i < boundary.len() ==> boundary[i] != 13 && boundary[i] != 10,
        all_laid_out(limits, boundary, documents),
        ends_documents(mark),
        chunks.len() > 0,
        chunks.flatten() == body_text(boundary, documents, mark) + epilogue,
        chunks.last().len() > epilogue.len(),
        is_faithful_run(
            ParserView::<F>::fresh(limits.header, limits.memory, limits.file, boundary),
            chunks,
            replies,
            contents,
        ),
    ensures
        ({
            let (after, outcome) = fed_with(
                ParserView::<F>::fresh(limits.header, limits.memory, limits.file, boundary),
                chunks,
                replies,
            );
            match refusal_of(limits, documents, mark) {
                Some(error) => outcome == Outcome::<F>::Failure(error),
                None => {
                    &&& outcome is Complete
                    &&& after.state is Done
                    &&& come_out_as(documents, after.parts, limits, contents)
                },
            }
        }),
{
    let sections = sections_of(documents);
    lemma_all_laid_out(documents, limits, boundary);
    lemma_documents_text(boundary, documents, mark);
    lemma_whole_body(
        limits.header,
        limits.memory,
        limits.file,
        boundary,
        sections,
        mark,
        epilogue,
        chunks,
        replies,
        contents,
    );
    if refusal_of(limits, documents, mark) is None {
        let after = fed_with(
            ParserView::<F>::fresh(limits.header, limits.memory, limits.file, boundary),
            chunks,
            replies,
        ).0;
        let parts = parts_of(limits.memory, limits.file, sections);
        lemma_parts(documents, limits, boundary);
        assert(parts_with_contents(after.parts, contents) == parts);
        assert(after.parts.len() == parts.len());
        assert forall|i: int| 0 <= i < after.parts.len() implies in_order(
            documents,
        )[i].comes_out_as(#[trigger] after.parts[i], limits, contents) by {
            assert(parts[i] == after.parts[i].with_contents(contents));
        }
    }
}

/// Where no document needs a file, none is asked for, whatever the chunks.
pub proof fn law_what_stays_in_memory_asks_for_nothing<F>(
    limits: Limits,
    boundary: Seq<u8>,
    documents: Seq<Document>,
    mark: Seq<u8>,
    epilogue: Seq<u8>,
    chunks: Seq<Seq<u8>>,
    replies: Seq<Seq<FileReply<F>>>,
    contents: spec_fn(F) -> Seq<u8>,
)
    requires
        forall|i: int| 0 <= i < boundary.len() ==> boundary[i] != 13 && boundary[i] != 10,
        all_laid_out(limits, boundary, documents),
        ends_documents(mark),
        refusal_of(limits, documents, mark) is None,
        all_stay_in_memory(limits, documents),
        chunks.len() > 0,
        chunks.flatten() == body_text(boundary, documents, mark) + epilogue,
        chunks.last().len() > epilogue.len(),
        is_faithful_run(
            ParserView::<F>::fresh(limits.header, limits.memory, limits.file, boundary),
            chunks,
            replies,
            contents,
        ),
    ensures
        forall|i: int| 0 <= i < replies.len() ==> (#[trigger] replies[i]).len() == 0,
{
    lemma_all_laid_out(documents, limits, boundary);
    lemma_all_small(documents, limits, boundary);
    lemma_documents_text(boundary, documents, mark);
    lemma_whole_body(
        limits.header,
        limits.memory,
        limits.file,
        boundary,
        sections_of(documents),
        mark,
        epilogue,
        chunks,
        replies,
        contents,
    );
}

/// As long as something is missing of a body, the parser is not done, and fails for nothing
/// but what the body is refused for.
pub proof fn law_unfinished_documents_are_awaited<F>(
    limits: Limits,
    boundary: Seq<u8>,
    documents: Seq<Document>,
    mark: Seq<u8>,
    chunks: Seq<Seq<u8>>,
    missing: Seq<u8>,
    replies: Seq<Seq<FileReply<F>>>,
    contents: spec_fn(F) -> Seq<u8>,
)
    requires
        forall|i: int| 0 <= i < boundary.len() ==> boundary[i] != 13 && boundary[i] != 10,
        all_laid_out(limits, boundary, documents),
        ends_documents(mark),
        chunks.flatten() + missing == body_text(boundary, documents, mark),
        missing.len() > 0,
        is_faithful_run(
            ParserView::<F>::fresh(limits.header, limits.memory, limits.file, boundary),
            chunks,
            replies,
            contents,
        ),
    ensures
        ({
            let (after, outcome) = fed_with(
                ParserView::<F>::fresh(limits.header, limits.memory, limits.file, boundary),
                chunks,
                replies,
            );
            match outcome {
                Outcome::Complete => !(after.state is Done),
                Outcome::Failure(error) => refusal_of(limits, documents, mark) == Some(error),
                Outcome::Request(_) => false,
            }
        }),
{
    lemma_all_laid_out(documents, limits, boundary);
    lemma_documents_text(boundary, documents, mark);
    lemma_part_of_body(
        limits.header,
        limits.memory,
        limits.file,
        boundary,
        sections_of(documents),
        mark,
        chunks,
        missing,
        replies,
        contents,
    );
}

} // verus!
