//! Why calls fail, and why they ask for something: whatever state the parser is in.

use crate::documents::{
    begins_with, ends_at_first, has_line_end, holds_text, lemma_begins_with, lemma_boundary,
    lemma_ends_at_first, lemma_holds_text, lemma_stands, stands_at,
};
use crate::headers::header_fields;
use crate::laws::{lemma_answered, lemma_feed, Call};
use crate::lines::{
    is_line, last_value, law_header_lines_are_read, lines_pairs, lines_text, HeaderLine,
};
use crate::machine::{Outcome, ParserView, WaitView};
use crate::multipart::{FileReply, RequestView};
use crate::parser::MultiPartParserError;
use crate::search::{double_newline, lemma_first_occurrence, occurs_at};
use vstd::prelude::*;
use vstd::utf8::{encode_utf8, encode_utf8_decode_utf8, encode_utf8_valid_utf8};

verus! {

/// No call fails without a reason. An error of the operating system is that of the
/// answer. A chunk comes too late where the parser is done. A boundary is refused only
/// where it ends a line, and then, or where the opening is missing, nothing of its body
/// was read. Every other error comes where the parser at work is in the piece that is
/// refused.
pub proof fn law_errors_have_their_reasons<F>(
    p: ParserView<F>,
    call: Call<F>,
    error: MultiPartParserError,
)
    requires
        p.consistent(),
        p.accepts(call),
        p.called(call).1 == Outcome::<F>::Failure(error),
    ensures
        ({
            let at = p.called(call).0.innermost();
            match error {
                MultiPartParserError::IOError(cause) => call == Call::Answer(
                    FileReply::<F>::Stored(Err(cause)),
                ) || call == Call::Answer(FileReply::<F>::Measured(Err(cause))),
                MultiPartParserError::UnexpectedDataAtEndOfStream => call is Chunk
                    && p.state is Done,
                MultiPartParserError::InvalidCharacterInBoundary => at.state is Start
                    && has_line_end(at.boundary),
                MultiPartParserError::MissingInitialBoundary => at.state is Start && !has_line_end(
                    at.boundary,
                ),
                MultiPartParserError::MalformedMultiPartBoundary => at.state is AfterBoundary,
                MultiPartParserError::MaxHeaderLimitExceeded => at.state is Header,
                MultiPartParserError::MaxFileSizeExceededError => at.state is Body,
                MultiPartParserError::MaliciousPart => at.state is Header || at.state is Body,
                MultiPartParserError::UnfinishedPart => false,
            }
        }),
{
    let after = p.called(call).0;
    lemma_boundary(after.innermost().boundary);
    match call {
        Call::Chunk(chunk) => lemma_feed(p, chunk),
        Call::Answer(reply) => lemma_answered(p, reply),
    }
    if error is UnexpectedDataAtEndOfStream {
        lemma_done_inside(after);
        assert(after.state is Done);
    }
}

/// Only a parser that has none inside it is done.
proof fn lemma_done_inside<F>(p: ParserView<F>)
    requires
        p.consistent(),
        p.innermost().state is Done,
    ensures
        p.child is None,
    decreases p,
{
    if let Some(child) = p.child {
        lemma_done_inside(*child);
    }
}

/// A call that fails finishes no body: the parser hands out nothing after it that it did
/// not hand out before.
pub proof fn law_failures_finish_nothing<F>(p: ParserView<F>, call: Call<F>)
    requires
        p.consistent(),
        p.accepts(call),
        p.called(call).1 is Failure,
    ensures
        p.called(call).0.state is Done ==> p.state is Done,
{
    match call {
        Call::Chunk(chunk) => lemma_feed(p, chunk),
        Call::Answer(reply) => lemma_answered(p, reply),
    }
}

/// Whatever the parser waits for, an error of the operating system is handed on as it is.
pub proof fn law_errors_of_the_system_are_handed_on<F>(
    p: ParserView<F>,
    reply: FileReply<F>,
    error: std::io::Error,
)
    requires
        p.consistent(),
        p.accepts(Call::Answer(reply)),
        reply == FileReply::<F>::Stored(Err(error)) || reply == FileReply::<F>::Measured(
            Err(error),
        ),
    ensures
        p.answered(reply).1 == Outcome::<F>::Failure(MultiPartParserError::IOError(error)),
    decreases p,
{
    if let Some(child) = p.child {
        law_errors_of_the_system_are_handed_on(*child, reply, error);
        let (after, outcome) = child.answered(reply);
        assert(p.answered(reply) == p.after_inner(after, outcome));
    }
}

/// The size of a file decides, whatever the part is: where the file has room for the bytes
/// that wait, these and no others are appended to it; where it has not, the part is
/// refused.
pub proof fn law_sizes_decide<F>(p: ParserView<F>, file: F, size: u64, bytes: Seq<u8>)
    requires
        p.consistent(),
        p.is_waiting(),
        p.innermost().pending matches Some(pending) && pending.waiting == WaitView::Measuring(
            bytes,
        ),
    ensures
        p.awaits_size(),
        size + bytes.len() <= p.file_limit ==> p.answered(FileReply::Measured(Ok((file, size)))).1
            == Outcome::Request(RequestView::Append(file, bytes)),
        size + bytes.len() > p.file_limit ==> p.answered(FileReply::Measured(Ok((file, size)))).1
            == Outcome::<F>::Failure(MultiPartParserError::MaxFileSizeExceededError),
    decreases p,
{
    if let Some(child) = p.child {
        let reply = FileReply::Measured(Ok((file, size)));
        law_sizes_decide(*child, file, size, bytes);
        let (after, outcome) = child.answered(reply);
        assert(p.answered(reply) == p.after_inner(after, outcome));
    }
}

/// A file is created only for data that exceed the memory limit, or for those of a part
/// whose headers say that it is a file.
pub proof fn law_files_are_created_where_needed<F>(
    p: ParserView<F>,
    call: Call<F>,
    contents: Seq<u8>,
)
    requires
        p.consistent(),
        p.accepts(call),
        p.called(call).1 == Outcome::<F>::Request(RequestView::Create(contents)),
    ensures
        contents.len() > p.memory_limit || ({
            let headers = p.called(call).0.innermost().part.headers;
            headers matches Some(map) && map.contains_key("content-disposition"@) && holds_text(
                map["content-disposition"@],
                "filename="@,
            )
        }),
{
    match call {
        Call::Chunk(chunk) => lemma_feed(p, chunk),
        Call::Answer(reply) => lemma_answered(p, reply),
    }
    let part = p.called(call).0.innermost().part;
    if part.is_file_part() {
        lemma_holds_text((part.headers->0)["content-disposition"@], "filename="@);
    }
}

/// What a part is refused for, the part is refused for that it belongs to, and what is
/// asked for it, is asked for. As long as the parser inside is not done, it goes on inside.
pub proof fn law_what_happens_inside_happens<F>(
    p: ParserView<F>,
    child: ParserView<F>,
    call: Call<F>,
)
    requires
        p.consistent(),
        p.accepts(call),
        p.child == Some(Box::new(child)),
        !(child.called(call).1 is Complete && child.called(call).0.state is Done),
    ensures
        child.accepts(call),
        p.called(call).1 == child.called(call).1,
        p.called(call).0.child == Some(Box::new(child.called(call).0)),
{
    match call {
        Call::Chunk(chunk) => {
            let (after, outcome) = child.feed(chunk);
            assert(p.feed(chunk) == p.after_inner(after, outcome));
        },
        Call::Answer(reply) => {
            let (after, outcome) = child.answered(reply);
            assert(p.answered(reply) == p.after_inner(after, outcome));
        },
    }
}

/// A body whose boundary ends a line is refused, whatever comes, at the top and inside.
pub proof fn law_boundaries_that_end_lines_are_refused<F>(p: ParserView<F>, chunk: Seq<u8>)
    requires
        p.child is None,
        p.state is Start,
        has_line_end(p.boundary),
    ensures
        p.feed(chunk).1 == Outcome::<F>::Failure(
            MultiPartParserError::InvalidCharacterInBoundary,
        ),
{
    let free = ParserView { buffer: Seq::<u8>::empty(), ..p };
    lemma_boundary(p.boundary);
    assert(p.feed(chunk) == free.run(p.buffer + chunk, 0));
}

/// A body that does not begin with its opening is refused as soon as there is room for the
/// opening, at the top and inside.
pub proof fn law_openings_stand_in_their_place<F>(p: ParserView<F>, chunk: Seq<u8>)
    requires
        p.child is None,
        p.state is Start,
        !has_line_end(p.boundary),
        (p.buffer + chunk).len() >= 2 + p.boundary.len(),
        !stands_at(p.buffer + chunk, seq![45u8, 45u8] + p.boundary, 0),
    ensures
        p.feed(chunk).1 == Outcome::<F>::Failure(MultiPartParserError::MissingInitialBoundary),
{
    let free = ParserView { buffer: Seq::<u8>::empty(), ..p };
    let data = p.buffer + chunk;
    lemma_boundary(p.boundary);
    lemma_stands(data, seq![45u8, 45u8] + p.boundary, 0);
    assert(free.opening() == seq![45u8, 45u8] + p.boundary);
    assert(p.feed(chunk) == free.run(data, 0));
}

/// As long as there is no room for the opening of a body, it is awaited.
pub proof fn law_openings_are_awaited<F>(p: ParserView<F>, chunk: Seq<u8>)
    requires
        p.child is None,
        p.state is Start,
        !has_line_end(p.boundary),
        (p.buffer + chunk).len() < 2 + p.boundary.len(),
    ensures
        p.feed(chunk) == (
            (ParserView { buffer: p.buffer + chunk, ..p }),
            Outcome::<F>::Complete,
        ),
{
    let free = ParserView { buffer: Seq::<u8>::empty(), ..p };
    let data = p.buffer + chunk;
    lemma_boundary(p.boundary);
    assert(data.subrange(0, data.len() as int) =~= data);
    assert(p.feed(chunk) == free.run(data, 0));
}

/// Where a header section says that the body is made up of parts, what follows it is read
/// as a body of its own, under the boundary that the headers name: what that body is
/// refused for, or asks for, the whole is refused for, or asks for, and as long as that
/// body is not at its end, the parser goes on inside it.
pub proof fn law_what_is_made_up_of_parts_is_read_as_such<F>(
    p: ParserView<F>,
    chunk: Seq<u8>,
    lines: Seq<HeaderLine>,
    rest: Seq<u8>,
    kind: Seq<char>,
    boundary: Seq<char>,
)
    requires
        p.consistent(),
        p.child is None,
        p.pending is None,
        p.state is Header,
        forall|k: int| 0 <= k < lines.len() ==> is_line(#[trigger] lines[k]),
        last_value(lines_pairs(lines), "Content-Type"@) == Some("multipart/"@ + kind),
        last_value(lines_pairs(lines), "boundary"@) == Some(boundary),
        ({
            let header = encode_utf8(lines_text(lines));
            &&& 0 < header.len() <= p.header_limit
            &&& !stands_at(header, seq![13u8, 10u8], 0)
            &&& ends_at_first(header, seq![13u8, 10u8, 13u8, 10u8])
            &&& p.buffer + chunk == header + (seq![13u8, 10u8, 13u8, 10u8] + rest)
        }),
    ensures
        ({
            let inner = ParserView {
                is_inner: true,
                ..ParserView::<F>::fresh(
                    p.header_limit,
                    p.memory_limit,
                    p.file_limit,
                    encode_utf8(boundary),
                )
            };
            !(inner.feed(rest).1 is Complete && inner.feed(rest).0.state is Done) ==> {
                &&& p.feed(chunk).1 == inner.feed(rest).1
                &&& p.feed(chunk).0.child == Some(Box::new(inner.feed(rest).0))
            }
        }),
{
    let data = p.buffer + chunk;
    let line = seq![13u8, 10u8, 13u8, 10u8];
    let header = encode_utf8(lines_text(lines));
    let free = ParserView { buffer: Seq::<u8>::empty(), ..p };
    let end = header.len() as int;
    let map = header_fields(lines_text(lines));
    assert(double_newline() =~= line);
    encode_utf8_decode_utf8(lines_text(lines));
    encode_utf8_valid_utf8(lines_text(lines));
    law_header_lines_are_read(lines);
    assert(match last_value(lines_pairs(lines), "Content-Type"@) {
        Some(value) => map.contains_key("Content-Type"@) && map["Content-Type"@] == value,
        None => false,
    });
    assert(match last_value(lines_pairs(lines), "boundary"@) {
        Some(value) => map.contains_key("boundary"@) && map["boundary"@] == value,
        None => false,
    });
    assert(begins_with("multipart/"@ + kind, "multipart/"@));
    lemma_begins_with("multipart/"@ + kind, "multipart/"@);
    lemma_ends_at_first(header, line);
    assert forall|i: int| 0 <= i < end implies !occurs_at(data, line, i) by {
        if occurs_at(data, line, i) {
            lemma_stands(data, line, i);
            lemma_stands(header + line, line, i);
            assert forall|k: int| 0 <= k < line.len() implies (header + line)[i + k]
                == #[trigger] line[k] by {
                assert(data[i + k] == line[k]);
                assert(data[i + k] == (header + line)[i + k]);
            }
        }
    }
    assert(data.subrange(end, end + 4) =~= line);
    lemma_first_occurrence(data, line, 0, end);
    assert(data.subrange(0, end) =~= header);
    assert(data.subrange(end + 4, data.len() as int) =~= rest);
    assert(!(data[0] == 13 && data[1] == 10)) by {
        if data[0] == 13 && data[1] == 10 {
            if header.len() >= 2 {
                assert(header[0] == data[0] && header[1] == data[1]);
                assert(stands_at(header, seq![13u8, 10u8], 0));
            } else {
                assert(data[1] == line[0]);
            }
        }
    }
    let next = free.headed(header);
    assert(p.feed(chunk) == free.run(data, 0));
    assert(free.run(data, 0) == next.run(data, end + 4));
    assert(next.part.is_nested());
    assert(next.part.inner_boundary() == Some(boundary));
}

} // verus!
