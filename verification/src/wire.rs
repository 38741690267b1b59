//! How parts stand in a body, and what a parser makes of a body that arrives in chunks
//! while its requests are answered.

use crate::laws::{opens_with_line_end, talk};
use crate::machine::{is_valid_boundary, Outcome, ParserView};
use crate::multipart::{FileReply, PartView, RequestView};
use crate::parser::MultiPartParserError;
use crate::search::{double_newline, is_first_occurrence};
use vstd::prelude::*;
use vstd::utf8::{encode_utf8, valid_utf8};

verus! {

/// A part, as it stands in a body.
pub struct Section {
    /// The header section, without the empty line that ends it.
    pub header: Seq<u8>,
    /// The body of the part.
    pub body: Seq<u8>,
    /// What the body is made up of, where it is a multipart body itself.
    pub inner: Option<Inner>,
}

/// What the body of a part is made up of.
pub struct Inner {
    /// The boundary between the parts.
    pub boundary: Seq<u8>,
    /// The parts.
    pub sections: Seq<Section>,
    /// The two bytes that follow the last boundary: the mark of it, unless the body is
    /// broken there.
    pub mark: Seq<u8>,
    /// What follows these.
    pub epilogue: Seq<u8>,
}

/// What opens a body.
pub open spec fn opening_of(boundary: Seq<u8>) -> Seq<u8> {
    seq![45u8, 45u8] + boundary
}

/// What ends the body of a part.
pub open spec fn delimiter_of(boundary: Seq<u8>) -> Seq<u8> {
    seq![13u8, 10u8, 45u8, 45u8] + boundary
}

/// A header section with what ends it: an empty line, which ends the last header line
/// as well, if there is one.
pub open spec fn encoded_header(header: Seq<u8>) -> Seq<u8> {
    header + (if header.len() == 0 {
        seq![13u8, 10u8]
    } else {
        double_newline()
    })
}

/// What follows the boundary before `sections` in a body.
pub open spec fn encoded_sections(boundary: Seq<u8>, sections: Seq<Section>) -> Seq<u8>
    decreases sections.len(),
{
    if sections.len() == 0 {
        seq![45u8, 45u8]
    } else {
        seq![13u8, 10u8] + (encoded_header(sections[0].header) + (sections[0].body + (
        delimiter_of(boundary) + encoded_sections(boundary, sections.drop_first()))))
    }
}

/// What follows the boundary before `sections` in a body, where `mark` follows the last
/// boundary.
pub(crate) open spec fn marked_sections(
    boundary: Seq<u8>,
    sections: Seq<Section>,
    mark: Seq<u8>,
) -> Seq<u8>
    decreases sections.len(),
{
    if sections.len() == 0 {
        mark
    } else {
        seq![13u8, 10u8] + (encoded_header(sections[0].header) + (sections[0].body + (
        delimiter_of(boundary) + marked_sections(boundary, sections.drop_first(), mark))))
    }
}

/// The mark of a last boundary.
pub(crate) open spec fn last_mark() -> Seq<u8> {
    seq![45u8, 45u8]
}

/// Two bytes that follow the last boundary, whether they mark it or not.
pub(crate) open spec fn is_mark(mark: Seq<u8>) -> bool {
    mark.len() == 2 && !opens_with_line_end(mark)
}

/// What a body is refused for, given what its sections are.
pub(crate) open spec fn marked_fault(
    fault: Option<MultiPartParserError>,
    mark: Seq<u8>,
) -> Option<MultiPartParserError> {
    if fault is None && mark != last_mark() {
        Some(MultiPartParserError::MalformedMultiPartBoundary)
    } else {
        fault
    }
}

/// Sections that are not broken are marked at their end.
pub(crate) proof fn lemma_marked(boundary: Seq<u8>, sections: Seq<Section>)
    ensures
        encoded_sections(boundary, sections) == marked_sections(boundary, sections, last_mark()),
    decreases sections.len(),
{
    if sections.len() > 0 {
        lemma_marked(boundary, sections.drop_first());
    }
}

/// The body that is made up of `sections`.
pub open spec fn encoded_body(boundary: Seq<u8>, sections: Seq<Section>) -> Seq<u8> {
    opening_of(boundary) + encoded_sections(boundary, sections)
}

/// The request is done as it asks. What the file of a handle holds is `contents`.
pub open spec fn is_faithful<F>(
    request: RequestView<F>,
    reply: FileReply<F>,
    contents: spec_fn(F) -> Seq<u8>,
) -> bool {
    match request {
        RequestView::Create(bytes) => reply matches FileReply::Stored(Ok(file)) && contents(file)
            == bytes,
        RequestView::Measure(file) => reply matches FileReply::Measured(Ok((same, size)))
            && contents(same) == contents(file) && size == contents(file).len(),
        RequestView::Append(file, bytes) => reply matches FileReply::Stored(Ok(longer))
            && contents(longer) == contents(file) + bytes,
    }
}

/// The replies are as many as the parser asks for, and each request is done as it asks.
pub open spec fn is_faithful_talk<F>(
    parser: ParserView<F>,
    outcome: Outcome<F>,
    replies: Seq<FileReply<F>>,
    contents: spec_fn(F) -> Seq<u8>,
) -> bool
    decreases replies.len(),
{
    match outcome {
        Outcome::Request(request) => {
            &&& replies.len() > 0
            &&& is_faithful(request, replies[0], contents)
            &&& is_faithful_talk(
                parser.answered(replies[0]).0,
                parser.answered(replies[0]).1,
                replies.drop_first(),
                contents,
            )
        },
        _ => replies.len() == 0,
    }
}

/// What chunks do to a parser, one after the other, up to the first that fails, when the
/// requests that come with each are answered with the replies for it.
pub open spec fn fed_with<F>(
    parser: ParserView<F>,
    chunks: Seq<Seq<u8>>,
    replies: Seq<Seq<FileReply<F>>>,
) -> (ParserView<F>, Outcome<F>)
    decreases chunks.len(),
{
    if chunks.len() == 0 {
        (parser, Outcome::Complete)
    } else {
        let (after, outcome) = parser.feed(chunks[0]);
        let (after, outcome) = talk(after, outcome, replies[0]);
        if outcome is Failure {
            (after, outcome)
        } else {
            fed_with(after, chunks.drop_first(), replies.drop_first())
        }
    }
}

/// All requests that come with the chunks are done as they ask.
pub open spec fn is_faithful_run<F>(
    parser: ParserView<F>,
    chunks: Seq<Seq<u8>>,
    replies: Seq<Seq<FileReply<F>>>,
    contents: spec_fn(F) -> Seq<u8>,
) -> bool
    decreases chunks.len(),
{
    &&& replies.len() == chunks.len()
    &&& chunks.len() > 0 ==> {
        let (after, outcome) = parser.feed(chunks[0]);
        let (answered, end) = talk(after, outcome, replies[0]);
        &&& is_faithful_talk(after, outcome, replies[0], contents)
        &&& end is Failure || is_faithful_run(
            answered,
            chunks.drop_first(),
            replies.drop_first(),
            contents,
        )
    }
}

/// The part that holds the headers of `section` and nothing of its body.
pub open spec fn headed_part(
    memory_limit: u32,
    file_limit: u32,
    section: Section,
) -> PartView<Seq<u8>> {
    PartView::<Seq<u8>>::empty(memory_limit, file_limit).with_headers(section.header)
}

/// `part` with `bytes` for its data: none, where there are none; in a file, where
/// the part is a file or they exceed what is held in memory; else in memory.
pub open spec fn holding(part: PartView<Seq<u8>>, bytes: Seq<u8>) -> PartView<Seq<u8>> {
    if bytes.len() == 0 {
        part.without_data()
    } else if part.is_file_part() || bytes.len() > part.memory_limit {
        part.with_file(bytes)
    } else {
        part.with_bytes(bytes)
    }
}

/// The part that is to come out of `section`, which is not made up of parts itself.
pub open spec fn part_of(memory_limit: u32, file_limit: u32, section: Section) -> PartView<
    Seq<u8>,
> {
    holding(headed_part(memory_limit, file_limit, section), section.body)
}

/// The parts that are to come out of `sections`. One that is made up of parts itself
/// comes behind these, and has no data.
pub open spec fn parts_of(memory_limit: u32, file_limit: u32, sections: Seq<Section>) -> Seq<
    PartView<Seq<u8>>,
>
    decreases sections,
{
    if sections.len() == 0 {
        Seq::empty()
    } else {
        (match sections[0].inner {
            None => seq![part_of(memory_limit, file_limit, sections[0])],
            Some(inner) => parts_of(memory_limit, file_limit, inner.sections) + seq![
                headed_part(memory_limit, file_limit, sections[0]),
            ],
        }) + parts_of(memory_limit, file_limit, sections.drop_first())
    }
}

impl ParserView<Seq<u8>> {
    /// The parser carries `section` through. Its header section is UTF-8, ends where its
    /// first empty line is, and keeps within the limit. Where the headers say that the
    /// body is made up of parts, it is, under the boundary that they name, a parser for
    /// it carries all these through, and what follows them does not hold the delimiter.
    /// Where they do not, the body does not hold it, and keeps within the limit of a
    /// file if it goes to one.
    pub open spec fn carries(self, section: Section) -> bool
        decreases section,
    {
        let part = headed_part(self.memory_limit, self.file_limit, section);
        &&& valid_utf8(section.header)
        &&& section.header.len() > 0 ==> {
            &&& !opens_with_line_end(section.header)
            &&& is_first_occurrence(
                section.header + double_newline(),
                double_newline(),
                0,
                section.header.len() as int,
            )
        }
        &&& section.header.len() <= self.header_limit
        &&& match section.inner {
            None => {
                &&& !part.is_nested()
                &&& is_first_occurrence(
                    section.body + self.delimiter(),
                    self.delimiter(),
                    0,
                    section.body.len() as int,
                )
                &&& section.body.len() > 0 && (part.is_file_part() || section.body.len()
                    > self.memory_limit) ==> section.body.len() <= self.file_limit
            },
            Some(inner) => {
                &&& part.is_nested()
                &&& part.inner_boundary() is Some
                &&& encode_utf8(part.inner_boundary()->0) == inner.boundary
                &&& is_valid_boundary(inner.boundary)
                &&& inner.mark == seq![45u8, 45u8]
                &&& section.body == encoded_body(inner.boundary, inner.sections) + inner.epilogue
                &&& is_first_occurrence(
                    inner.epilogue + self.delimiter(),
                    self.delimiter(),
                    0,
                    inner.epilogue.len() as int,
                )
                &&& ParserView::<Seq<u8>>::fresh(
                    self.header_limit,
                    self.memory_limit,
                    self.file_limit,
                    inner.boundary,
                ).carries_all(inner.sections)
            },
        }
    }

    /// The parser carries all the sections through.
    pub open spec fn carries_all(self, sections: Seq<Section>) -> bool
        decreases sections,
    {
        sections.len() == 0 || (self.carries(sections[0]) && self.carries_all(
            sections.drop_first(),
        ))
    }

    /// The header section of a section is none that is refused.
    pub(crate) open spec fn heads(self, section: Section) -> bool {
        section.header.len() <= self.header_limit && valid_utf8(section.header)
    }

    /// The section is made up of parts, and says under which boundary.
    pub(crate) open spec fn opens_up(self, section: Section) -> bool {
        let part = headed_part(self.memory_limit, self.file_limit, section);
        &&& self.heads(section)
        &&& part.is_nested()
        &&& part.inner_boundary() matches Some(boundary) && is_valid_boundary(
            encode_utf8(boundary),
        )
    }

    /// The pieces of the section can be told apart, as far as the parser gets in it: the
    /// header section ends where its first empty line is; a body that is made up of
    /// parts is so under the boundary that the headers name; and the delimiter stands
    /// nowhere in what comes before it.
    pub(crate) open spec fn frames(self, section: Section) -> bool
        decreases section,
    {
        let part = headed_part(self.memory_limit, self.file_limit, section);
        &&& section.header.len() > 0 ==> {
            &&& !opens_with_line_end(section.header)
            &&& is_first_occurrence(
                section.header + double_newline(),
                double_newline(),
                0,
                section.header.len() as int,
            )
        }
        &&& self.heads(section) && !part.is_nested() ==> {
            &&& section.inner is None
            &&& is_first_occurrence(
                section.body + self.delimiter(),
                self.delimiter(),
                0,
                section.body.len() as int,
            )
        }
        &&& self.opens_up(section) ==> match section.inner {
            None => false,
            Some(inner) => {
                &&& encode_utf8(part.inner_boundary()->0) == inner.boundary
                &&& is_mark(inner.mark)
                &&& section.body == opening_of(inner.boundary) + marked_sections(
                    inner.boundary,
                    inner.sections,
                    inner.mark,
                ) + inner.epilogue
                &&& inner.mark == last_mark() ==> is_first_occurrence(
                    inner.epilogue + self.delimiter(),
                    self.delimiter(),
                    0,
                    inner.epilogue.len() as int,
                )
                &&& ParserView::<Seq<u8>>::fresh(
                    self.header_limit,
                    self.memory_limit,
                    self.file_limit,
                    inner.boundary,
                ).frames_all(inner.sections)
            },
        }
    }

    /// The pieces of all the sections can be told apart.
    pub(crate) open spec fn frames_all(self, sections: Seq<Section>) -> bool
        decreases sections,
    {
        sections.len() == 0 || (self.frames(sections[0]) && self.frames_all(
            sections.drop_first(),
        ))
    }

    /// What the section is refused for.
    pub(crate) open spec fn fault(self, section: Section) -> Option<MultiPartParserError>
        decreases section,
    {
        let part = headed_part(self.memory_limit, self.file_limit, section);
        if section.header.len() > self.header_limit {
            Some(MultiPartParserError::MaxHeaderLimitExceeded)
        } else if !valid_utf8(section.header) {
            Some(MultiPartParserError::MaliciousPart)
        } else if part.is_nested() {
            if part.inner_boundary() is None {
                Some(MultiPartParserError::MaliciousPart)
            } else if !is_valid_boundary(encode_utf8(part.inner_boundary()->0)) {
                Some(MultiPartParserError::InvalidCharacterInBoundary)
            } else {
                match section.inner {
                    Some(inner) => marked_fault(
                        ParserView::<Seq<u8>>::fresh(
                            self.header_limit,
                            self.memory_limit,
                            self.file_limit,
                            inner.boundary,
                        ).first_fault(inner.sections),
                        inner.mark,
                    ),
                    None => None,
                }
            }
        } else if !part.has_room_for(section.body.len()) {
            Some(MultiPartParserError::MaxFileSizeExceededError)
        } else {
            None
        }
    }

    /// What the first of the sections is refused for that is refused.
    pub(crate) open spec fn first_fault(self, sections: Seq<Section>) -> Option<
        MultiPartParserError,
    >
        decreases sections,
    {
        if sections.len() == 0 {
            None
        } else {
            match self.fault(sections[0]) {
                Some(error) => Some(error),
                None => self.first_fault(sections.drop_first()),
            }
        }
    }
}

impl PartView<Seq<u8>> {
    /// The part may have data of this length.
    pub(crate) open spec fn has_room_for(self, length: nat) -> bool {
        length == 0 || (!self.is_file_part() && length <= self.memory_limit) || length
            <= self.file_limit
    }
}

} // verus!
