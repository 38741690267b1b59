//! Whatever the chunks in which a body arrives, its parts come out as they went in.

use crate::contents::{
    lemma_answered_contents, lemma_feed_contents, lemma_waits_contents, parts_with_contents,
    result_with_contents,
};
use crate::laws::{lemma_answered, lemma_deliver, lemma_feed, lemma_proceed, lemma_run, talk};
use crate::machine::{is_valid_boundary, MultiPartParserState, Outcome, ParserView};
use crate::multipart::{DataView, FileReply, PartView, RequestView};
use crate::parser::MultiPartParserError;
use crate::search::{
    double_newline, first_occurrence, is_first_occurrence, is_partial_tail,
    lemma_first_occurrence, lemma_longest, lemma_no_occurrence, lemma_tail_from,
    lemma_tail_in_line, occurs_at, tail_from,
};
use crate::wire::{
    encoded_body, encoded_header, fed_with, headed_part, holding, is_faithful_run,
    is_faithful_talk, is_mark, last_mark, lemma_marked, marked_fault, marked_sections, opening_of,
    part_of, parts_of, Section,
};
use vstd::prelude::*;
use vstd::utf8::{encode_utf8, valid_utf8};

verus! {

/// The answer of a disk that never fails. The handle of a file is what it holds.
spec fn disk_answer(request: RequestView<Seq<u8>>) -> FileReply<Seq<u8>> {
    match request {
        RequestView::Create(contents) => FileReply::Stored(Ok(contents)),
        RequestView::Measure(file) => FileReply::Measured(Ok((file, file.len() as u64))),
        RequestView::Append(file, bytes) => FileReply::Stored(Ok(file + bytes)),
    }
}

/// The parser waits for what the outcome of the call says, and for nothing where it
/// says nothing.
spec fn waits_as_told(
    parser: ParserView<Seq<u8>>,
    outcome: Outcome<Seq<u8>>,
) -> bool {
    &&& parser.consistent()
    &&& parser.is_waiting() == (outcome is Request)
    &&& parser.awaits_size() == (outcome matches Outcome::Request(request) && request is Measure)
}

/// What a call ends in when such a disk answers all requests.
spec fn served(parser: ParserView<Seq<u8>>, outcome: Outcome<Seq<u8>>) -> (
    ParserView<Seq<u8>>,
    Outcome<Seq<u8>>,
)
    decreases parser.work_left(),
    when waits_as_told(parser, outcome)
{
    match outcome {
        Outcome::Request(request) => {
            proof {
                lemma_answered(parser, disk_answer(request));
            }
            let (after, next) = parser.answered(disk_answer(request));
            if next is Request {
                served(after, next)
            } else {
                (after, next)
            }
        },
        _ => (parser, outcome),
    }
}

/// What chunks do to a parser, one after the other, up to the first that fails.
spec fn fed(parser: ParserView<Seq<u8>>, chunks: Seq<Seq<u8>>) -> (
    ParserView<Seq<u8>>,
    Outcome<Seq<u8>>,
)
    decreases chunks.len(),
{
    if chunks.len() == 0 {
        (parser, Outcome::Complete)
    } else {
        let (after, outcome) = parser.feed(chunks[0]);
        let (after, outcome) = served(after, outcome);
        if outcome is Failure {
            (after, outcome)
        } else {
            fed(after, chunks.drop_first())
        }
    }
}

/// How far a parser has come.
struct Position {
    /// The sections to come, with the one that the parser is in.
    sections: Seq<Section>,
    /// The two bytes that follow the last boundary.
    mark: Seq<u8>,
    /// How much of the body of that section is read, where no other parser reads it.
    read: int,
    /// How far the parser inside has come, where it is.
    inside: Option<Box<Position>>,
}

impl Position {
    /// Behind the first section.
    spec fn past(self) -> Position {
        Position { sections: self.sections.drop_first(), read: 0, inside: None, ..self }
    }

    /// In the body of the first section.
    spec fn in_body(self, read: int) -> Position {
        Position { read, inside: None, ..self }
    }
}

/// What is known beforehand of all that comes of a body.
#[verifier::ext_equal]
struct Account {
    /// The parts that are parsed and those that are to come.
    parts: Seq<PartView<Seq<u8>>>,
    /// What the body is refused for.
    fault: Option<MultiPartParserError>,
    /// Nothing is to be asked for.
    calm: bool,
    /// The two bytes that follow the last boundary.
    mark: Seq<u8>,
}

/// The data of the section, and of those that it is made up of, are held in memory.
pub(crate) open spec fn is_small(memory_limit: u32, file_limit: u32, section: Section) -> bool
    decreases section,
{
    match section.inner {
        None => section.body.len() <= memory_limit && !headed_part(
            memory_limit,
            file_limit,
            section,
        ).is_file_part(),
        Some(inner) => all_small(memory_limit, file_limit, inner.sections),
    }
}

/// The data of all the sections are held in memory.
pub(crate) open spec fn all_small(
    memory_limit: u32,
    file_limit: u32,
    sections: Seq<Section>,
) -> bool
    decreases sections,
{
    sections.len() == 0 || (is_small(memory_limit, file_limit, sections[0]) && all_small(
        memory_limit,
        file_limit,
        sections.drop_first(),
    ))
}

/// None of the chunks leads to a request, up to the first that fails.
spec fn asks_nothing(parser: ParserView<Seq<u8>>, chunks: Seq<Seq<u8>>) -> bool
    decreases chunks.len(),
{
    chunks.len() == 0 || match parser.feed(chunks[0]).1 {
        Outcome::Request(_) => false,
        Outcome::Failure(_) => true,
        Outcome::Complete => asks_nothing(parser.feed(chunks[0]).0, chunks.drop_first()),
    }
}

/// The stream that a parser reads, as far as it is not read yet.
struct Stream {
    /// What comes in later chunks.
    future: Seq<u8>,
    /// What follows the sections.
    epilogue: Seq<u8>,
}

impl ParserView<Seq<u8>> {
    /// What a parser in this state has still to read of a body: of that of the first
    /// section it has `read` bytes, where it is in it.
    spec fn awaited(self, at: Position, epilogue: Seq<u8>) -> Seq<u8> {
        let section = at.sections[0];
        match self.state {
            MultiPartParserState::Start => self.opening() + (marked_sections(
                self.boundary,
                at.sections,
                at.mark,
            ) + epilogue),
            MultiPartParserState::AfterBoundary => marked_sections(
                self.boundary,
                at.sections,
                at.mark,
            ) + epilogue,
            MultiPartParserState::Header => encoded_header(section.header) + (section.body
                + self.behind(at, epilogue)),
            MultiPartParserState::Body | MultiPartParserState::Epilogue => section.body.subrange(
                at.read,
                section.body.len() as int,
            ) + self.behind(at, epilogue),
            MultiPartParserState::Done => epilogue,
        }
    }

    /// A parser with the same limits and boundary that has received nothing.
    spec fn as_new(self) -> ParserView<Seq<u8>> {
        ParserView::fresh(self.header_limit, self.memory_limit, self.file_limit, self.boundary)
    }

    /// What follows the body of the first section.
    spec fn behind(self, at: Position, epilogue: Seq<u8>) -> Seq<u8> {
        self.delimiter() + (marked_sections(self.boundary, at.sections.drop_first(), at.mark)
            + epilogue)
    }

    /// The parser is on its way through a body of which `at` says what is to come, and
    /// has no other at work inside it.
    spec fn on_track(self, at: Position) -> bool {
        &&& self.consistent()
        &&& self.child is None
        &&& self.pending is None
        &&& is_valid_boundary(self.boundary)
        &&& self.as_new().frames_all(at.sections)
        &&& is_mark(at.mark)
        &&& self.state is Done ==> at.sections.len() == 0 && at.mark == last_mark()
        &&& self.state is Header || self.state is Body || self.state is Epilogue
            ==> at.sections.len() > 0
        &&& self.state is Body || self.state is Epilogue ==> 0 <= at.read
            <= at.sections[0].body.len()
        &&& match self.state {
            MultiPartParserState::Body => {
                &&& self.as_new().heads(at.sections[0])
                &&& !headed_part(self.memory_limit, self.file_limit, at.sections[0]).is_nested()
                &&& headed_part(
                    self.memory_limit,
                    self.file_limit,
                    at.sections[0],
                ).has_room_for(at.read as nat)
                &&& self.part == holding(
                    headed_part(self.memory_limit, self.file_limit, at.sections[0]),
                    at.sections[0].body.subrange(0, at.read),
                )
            },
            MultiPartParserState::Epilogue => {
                &&& self.as_new().opens_up(at.sections[0])
                &&& (at.sections[0].inner->0).mark == last_mark()
                &&& at.read >= at.sections[0].body.len() - (
                at.sections[0].inner->0).epilogue.len()
                &&& self.part == headed_part(self.memory_limit, self.file_limit, at.sections[0])
            },
            _ => self.part == PartView::<Seq<u8>>::empty(self.memory_limit, self.file_limit),
        }
    }

    /// The parser is in the body of a section that is made up of parts itself, which
    /// another one reads.
    spec fn nests(self, at: Position) -> bool {
        &&& self.state is Body
        &&& self.pending is None
        &&& self.buffer.len() == 0
        &&& is_valid_boundary(self.boundary)
        &&& at.sections.len() > 0
        &&& self.as_new().opens_up(at.sections[0])
        &&& is_mark(at.mark)
        &&& self.as_new().frames_all(at.sections)
        &&& self.part == headed_part(self.memory_limit, self.file_limit, at.sections[0])
    }

    /// `child` reads the body of the current section of this parser.
    spec fn reads_by(self, child: ParserView<Seq<u8>>, at: Position) -> bool {
        &&& child.is_inner
        &&& child.header_limit == self.header_limit
        &&& child.memory_limit == self.memory_limit
        &&& child.file_limit == self.file_limit
        &&& child.boundary == (at.sections[0].inner->0).boundary
    }

    /// What a parser of the parts of the first section leaves to this one.
    spec fn left_by_inner(self, at: Position, epilogue: Seq<u8>) -> Seq<u8> {
        (at.sections[0].inner->0).epilogue + self.behind(at, epilogue)
    }

    /// The parser has come as far as `at` says, and what it keeps and what is to come
    /// are what it awaits. It is done as soon as no more is to come than what follows
    /// the sections.
    spec fn follows(self, at: Position, stream: Stream) -> bool
        decreases self,
    {
        match self.child {
            None => {
                &&& self.on_track(at)
                &&& (self.state is Done) == (stream.future.len() <= stream.epilogue.len())
                &&& !(self.state is Done) || self.is_inner ==> self.buffer + stream.future
                    == self.awaited(at, stream.epilogue)
            },
            Some(child) => {
                &&& self.consistent()
                &&& self.nests(at)
                &&& at.inside is Some
                &&& self.reads_by(*child, at)
                &&& (at.inside->0).mark == (at.sections[0].inner->0).mark
                &&& child.follows(
                    *at.inside->0,
                    Stream { epilogue: self.left_by_inner(at, stream.epilogue), ..stream },
                )
            },
        }
    }

    /// The parts that are parsed and those that are to come, given those of the parser
    /// inside, where it is.
    spec fn outlook_with(self, at: Position, inner: Seq<PartView<Seq<u8>>>) -> Seq<
        PartView<Seq<u8>>,
    > {
        self.parts + (inner + (seq![self.part] + parts_of(
            self.memory_limit,
            self.file_limit,
            at.sections.drop_first(),
        )))
    }

    /// The parts that are parsed and those that are to come.
    spec fn outlook(self, at: Position) -> Seq<PartView<Seq<u8>>>
        decreases self,
    {
        match self.child {
            None => if self.state is Epilogue {
                self.outlook_with(at, Seq::empty())
            } else {
                self.parts + parts_of(self.memory_limit, self.file_limit, at.sections)
            },
            Some(child) => self.outlook_with(at, child.outlook(*at.inside->0)),
        }
    }

    /// What the body is refused for, given what that of the parser inside is.
    spec fn trouble_with(self, at: Position, inner: Option<MultiPartParserError>) -> Option<
        MultiPartParserError,
    > {
        match inner {
            Some(error) => Some(error),
            None => marked_fault(self.as_new().first_fault(at.sections.drop_first()), at.mark),
        }
    }

    /// What the body is refused for.
    spec fn trouble(self, at: Position) -> Option<MultiPartParserError>
        decreases self,
    {
        match self.child {
            None => if self.state is Epilogue {
                self.trouble_with(at, None)
            } else {
                marked_fault(self.as_new().first_fault(at.sections), at.mark)
            },
            Some(child) => self.trouble_with(at, child.trouble(*at.inside->0)),
        }
    }

    /// Nothing is to be asked for.
    spec fn calm(self, at: Position) -> bool
        decreases self,
    {
        &&& all_small(self.memory_limit, self.file_limit, at.sections)
        &&& match self.child {
            None => true,
            Some(child) => child.calm(*at.inside->0),
        }
    }

    /// What is known beforehand of what comes of the body.
    spec fn account(self, at: Position) -> Account {
        Account {
            parts: self.outlook(at),
            fault: self.trouble(at),
            calm: self.calm(at),
            mark: at.mark,
        }
    }

    /// The same, given what is known of the parser inside.
    spec fn account_with(self, at: Position, inner: Account) -> Account {
        Account {
            parts: self.outlook_with(at, inner.parts),
            fault: self.trouble_with(at, inner.fault),
            calm: inner.calm && all_small(self.memory_limit, self.file_limit, at.sections),
            mark: at.mark,
        }
    }

    /// A call left the parser on its way, and what was known beforehand holds; or it
    /// failed as it had to.
    spec fn goes_on(
        self,
        account: Account,
        result: (ParserView<Seq<u8>>, Outcome<Seq<u8>>),
        stream: Stream,
        later: Position,
    ) -> bool {
        let (after, outcome) = result;
        match outcome {
            Outcome::Complete => {
                &&& after.configured_as(self)
                &&& after.follows(later, stream)
                &&& after.outlook(later) == account.parts
                &&& after.trouble(later) == account.fault
                &&& account.calm ==> after.calm(later)
                &&& later.mark == account.mark
            },
            Outcome::Failure(error) => account.fault == Some(error),
            Outcome::Request(_) => false,
        }
    }

    /// The parser reads `data` from `index` on, and what is there and what comes later
    /// is what it awaits.
    spec fn reads(self, at: Position, data: Seq<u8>, index: int, stream: Stream) -> bool {
        &&& self.on_track(at)
        &&& self.buffer.len() == 0
        &&& !(self.state is Done)
        &&& 0 <= index <= data.len()
        &&& data.subrange(index, data.len() as int) + stream.future == self.awaited(
            at,
            stream.epilogue,
        )
    }
}

/// What the first of some sections is refused for, and whether it is small.
proof fn lemma_fault(q: ParserView<Seq<u8>>, sections: Seq<Section>)
    requires
        sections.len() > 0,
    ensures
        ({
            let section = sections[0];
            let part = headed_part(q.memory_limit, q.file_limit, section);
            let fault = q.fault(section);
            &&& q.first_fault(sections) == match fault {
                Some(error) => Some(error),
                None => q.first_fault(sections.drop_first()),
            }
            &&& section.header.len() > q.header_limit ==> fault == Some(
                MultiPartParserError::MaxHeaderLimitExceeded,
            )
            &&& section.header.len() <= q.header_limit && !valid_utf8(section.header) ==> fault
                == Some(MultiPartParserError::MaliciousPart)
            &&& q.heads(section) && !part.is_nested() ==> fault == if part.has_room_for(
                section.body.len(),
            ) {
                None
            } else {
                Some(MultiPartParserError::MaxFileSizeExceededError)
            }
            &&& q.heads(section) && part.is_nested() && part.inner_boundary() is None ==> fault
                == Some(MultiPartParserError::MaliciousPart)
            &&& q.heads(section) && part.is_nested() && part.inner_boundary() is Some
                && !q.opens_up(section) ==> fault == Some(
                MultiPartParserError::InvalidCharacterInBoundary,
            )
            &&& q.opens_up(section) && section.inner is Some ==> {
                let inner = section.inner->0;
                &&& fault == marked_fault(
                    ParserView::<Seq<u8>>::fresh(
                        q.header_limit,
                        q.memory_limit,
                        q.file_limit,
                        inner.boundary,
                    ).first_fault(inner.sections),
                    inner.mark,
                )
                &&& is_small(q.memory_limit, q.file_limit, section) ==> all_small(
                    q.memory_limit,
                    q.file_limit,
                    inner.sections,
                )
            }
            &&& all_small(q.memory_limit, q.file_limit, sections) ==> {
                &&& is_small(q.memory_limit, q.file_limit, section)
                &&& all_small(q.memory_limit, q.file_limit, sections.drop_first())
            }
        }),
{
}

/// What is carried through can be told apart and is not refused.
proof fn lemma_carried(q: ParserView<Seq<u8>>, section: Section)
    requires
        q.carries(section),
    ensures
        q.frames(section),
        q.fault(section) is None,
    decreases section,
{
    if let Some(inner) = section.inner {
        let fresh = ParserView::<Seq<u8>>::fresh(
            q.header_limit,
            q.memory_limit,
            q.file_limit,
            inner.boundary,
        );
        lemma_carried_all(fresh, inner.sections);
        lemma_marked(inner.boundary, inner.sections);
        assert(section.body =~= opening_of(inner.boundary) + marked_sections(
            inner.boundary,
            inner.sections,
            inner.mark,
        ) + inner.epilogue);
    }
}

/// So it is with all sections that are carried through.
proof fn lemma_carried_all(q: ParserView<Seq<u8>>, sections: Seq<Section>)
    requires
        q.carries_all(sections),
    ensures
        q.frames_all(sections),
        q.first_fault(sections) is None,
    decreases sections,
{
    if sections.len() > 0 {
        lemma_carried(q, sections[0]);
        lemma_carried_all(q, sections.drop_first());
    }
}

/// One answer after the other.
proof fn lemma_served(p: ParserView<Seq<u8>>, outcome: Outcome<Seq<u8>>)
    requires
        waits_as_told(p, outcome),
    ensures
        match outcome {
            Outcome::Request(request) => {
                let (after, next) = p.answered(disk_answer(request));
                waits_as_told(after, next) && served(p, outcome) == served(after, next)
            },
            _ => served(p, outcome) == (p, outcome),
        },
{
    if let Outcome::Request(request) = outcome {
        lemma_answered(p, disk_answer(request));
    }
}

/// Handing bytes to a part comes, when all requests are answered, to the part
/// holding them.
#[verifier::rlimit(40)]
proof fn lemma_delivered(
    p: ParserView<Seq<u8>>,
    headed: PartView<Seq<u8>>,
    before: Seq<u8>,
    bytes: Seq<u8>,
    data: Seq<u8>,
    next: int,
    at_boundary: bool,
)
    requires
        p.consistent(),
        p.child is None,
        p.pending is None,
        p.buffer.len() == 0,
        p.state is Body,
        0 <= next <= data.len(),
        !at_boundary ==> data.len() - next <= p.delimiter().len(),
        headed.headers is Some,
        headed.data is None,
        headed.memory_limit == p.memory_limit,
        headed.file_limit == p.file_limit,
        p.part == holding(headed, before),
        bytes.len() > 0,
        headed.has_room_for(before.len()),
    ensures
        ({
            let kept = ParserView { part: holding(headed, before + bytes), ..p };
            let delivered = p.deliver(bytes, data, next, at_boundary);
            let proceeded = kept.proceed(data, next, at_boundary);
            &&& headed.has_room_for((before + bytes).len()) ==> served(delivered.0, delivered.1)
                == served(proceeded.0, proceeded.1)
            &&& !headed.has_room_for((before + bytes).len()) ==> served(
                delivered.0,
                delivered.1,
            ).1 == Outcome::<Seq<u8>>::Failure(MultiPartParserError::MaxFileSizeExceededError)
            &&& !headed.is_file_part() && (before + bytes).len() <= p.memory_limit ==> delivered
                == proceeded
        }),
{
    let kept = ParserView { part: holding(headed, before + bytes), ..p };
    let all = before + bytes;
    let (part, written) = p.part.written(bytes);
    let after = ParserView { part, ..p };
    lemma_deliver(p, bytes, data, next, at_boundary);
    lemma_proceed(kept, data, next, at_boundary);
    let (waiting, outcome) = p.deliver(bytes, data, next, at_boundary);
    match p.part.data {
        Some(DataView::File(file)) => {
            assert(file == before);
            let answer = disk_answer(RequestView::Measure(file));
            lemma_served(waiting, outcome);
            let (waiting2, outcome2) = waiting.answered(answer);
            if headed.has_room_for(all.len()) {
                assert(outcome2 == Outcome::Request(RequestView::Append(file, bytes)));
                let answer2 = disk_answer(RequestView::Append(file, bytes));
                lemma_served(waiting2, outcome2);
                assert(kept.part == waiting2.part.with_file(all));
                assert(waiting2.answered(answer2) == kept.proceed(data, next, at_boundary));
            } else {
                lemma_served(waiting2, outcome2);
            }
        },
        _ => {
            assert(p.part.in_memory() + bytes =~= all);
            if written is Stored {
                assert(after == kept);
            } else if written is TooLarge {
                lemma_served(waiting, outcome);
            } else {
                assert(outcome == Outcome::Request(RequestView::<Seq<u8>>::Create(all)));
                let answer = disk_answer(RequestView::Create(all));
                lemma_served(waiting, outcome);
                assert(kept.part == waiting.part.with_file(all));
                assert(waiting.answered(answer) == kept.proceed(data, next, at_boundary));
            }
        },
    }
}


/// In data that are a beginning of `x`, `needle` and more, `needle` is found behind
/// `x`, as soon as it is there.
proof fn lemma_search_ahead(
    data: Seq<u8>,
    index: int,
    future: Seq<u8>,
    x: Seq<u8>,
    needle: Seq<u8>,
    more: Seq<u8>,
)
    requires
        0 <= index <= data.len(),
        data.subrange(index, data.len() as int) + future == x + (needle + more),
        is_first_occurrence(x + needle, needle, 0, x.len() as int),
        needle.len() > 0,
    ensures
        data.len() - index >= x.len() + needle.len() ==> is_first_occurrence(
            data,
            needle,
            index,
            index + x.len(),
        ) && first_occurrence(data, needle, index) == Some(index + x.len()),
        data.len() - index < x.len() + needle.len() ==> first_occurrence(
            data,
            needle,
            index,
        ) is None,
{
    let left = data.subrange(index, data.len() as int);
    let all = x + (needle + more);
    assert forall|i: int| 0 <= i < left.len() implies data[index + i] == all[i] by {
        assert((left + future)[i] == left[i]);
    }
    assert forall|i: int| index <= i && i - index < x.len() implies !occurs_at(
        data,
        needle,
        i,
    ) by {
        if occurs_at(data, needle, i) {
            let at = i - index;
            assert forall|j: int| 0 <= j < needle.len() implies (x + needle)[at + j]
                == needle[j] by {
                assert(data.subrange(i, i + needle.len())[j] == data[i + j]);
                assert(data[index + (at + j)] == all[at + j]);
            }
            assert((x + needle).subrange(at, at + needle.len()) =~= needle);
            assert(occurs_at(x + needle, needle, at));
        }
    }
    if left.len() >= x.len() + needle.len() {
        let at = index + x.len();
        assert forall|j: int| 0 <= j < needle.len() implies data[at + j] == needle[j] by {
            assert(data[index + (x.len() + j)] == all[x.len() + j]);
        }
        assert(data.subrange(at, at + needle.len()) =~= needle);
        lemma_first_occurrence(data, needle, index, at);
    } else {
        assert forall|i: int| index <= i implies !occurs_at(data, needle, i) by {}
        lemma_no_occurrence(data, needle, index);
    }
}

/// What is ahead in the data is what is awaited.
proof fn lemma_ahead(data: Seq<u8>, index: int, future: Seq<u8>, awaited: Seq<u8>)
    requires
        0 <= index <= data.len(),
        data.subrange(index, data.len() as int) + future == awaited,
    ensures
        awaited.len() == data.len() - index + future.len(),
        forall|i: int| 0 <= i < data.len() - index ==> data[index + i] == #[trigger] awaited[i],
{
    let ahead = data.subrange(index, data.len() as int);
    assert forall|i: int| 0 <= i < data.len() - index implies data[index + i]
        == #[trigger] awaited[i] by {
        assert((ahead + future)[i] == ahead[i]);
    }
}

/// What is found first behind all of a body is found first behind the rest of it.
proof fn lemma_rest_of_body(body: Seq<u8>, delimiter: Seq<u8>, read: int)
    requires
        is_first_occurrence(body + delimiter, delimiter, 0, body.len() as int),
        0 <= read <= body.len(),
    ensures
        ({
            let rest = body.subrange(read, body.len() as int);
            is_first_occurrence(rest + delimiter, delimiter, 0, rest.len() as int)
        }),
{
    let rest = body.subrange(read, body.len() as int);
    let all = body + delimiter;
    let after = rest + delimiter;
    assert(after.subrange(rest.len() as int, rest.len() as int + delimiter.len()) =~= delimiter);
    assert forall|i: int| 0 <= i < rest.len() implies !occurs_at(after, delimiter, i) by {
        if occurs_at(after, delimiter, i) {
            assert forall|j: int| 0 <= j < delimiter.len() implies all[read + i + j]
                == delimiter[j] by {
                assert(after.subrange(i, i + delimiter.len())[j] == after[i + j]);
            }
            assert(all.subrange(read + i, read + i + delimiter.len()) =~= delimiter);
            assert(occurs_at(all, delimiter, read + i));
        }
    }
}

/// Taking a beginning away on both sides.
proof fn lemma_skip(
    data: Seq<u8>,
    index: int,
    count: int,
    future: Seq<u8>,
    head: Seq<u8>,
    rest: Seq<u8>,
)
    requires
        0 <= index <= index + count <= data.len(),
        head.len() == count,
        data.subrange(index, data.len() as int) + future == head + rest,
    ensures
        data.subrange(index + count, data.len() as int) + future == rest,
{
    let both = data.subrange(index, data.len() as int) + future;
    let result = data.subrange(index + count, data.len() as int) + future;
    assert(both.len() == head.len() + rest.len());
    assert(both.subrange(count, both.len() as int) =~= result);
    assert((head + rest).subrange(count, both.len() as int) =~= rest);
}

/// What a disk answers a parser inside another, it answers that one.
proof fn lemma_served_inside(
    p: ParserView<Seq<u8>>,
    child: ParserView<Seq<u8>>,
    outcome: Outcome<Seq<u8>>,
)
    requires
        waits_as_told(child, outcome),
        outcome is Request,
        p.around(child).consistent(),
    ensures
        ({
            let (done, end) = served(child, outcome);
            let (after, next) = p.after_inner(done, end);
            &&& waits_as_told(after, next)
            &&& served(p.around(child), outcome) == served(after, next)
        }),
    decreases child.work_left(),
{
    let both = p.around(child);
    if let Outcome::Request(request) = outcome {
        let reply = disk_answer(request);
        lemma_answered(child, reply);
        lemma_answered(both, reply);
        lemma_served(child, outcome);
        lemma_served(both, outcome);
        let (after, next) = child.answered(reply);
        assert(both.behind_inner(after) == p.behind_inner(after));
        assert(both.around(after) == p.around(after));
        assert(both.answered(reply) == both.after_inner(after, next));
        assert(both.after_inner(after, next) == p.after_inner(after, next));
        if next is Request {
            lemma_served_inside(p, after, next);
        } else {
            lemma_served(after, next);
        }
    }
}

/// Keeping what is left of the data for the next chunk keeps the parser on its way.
proof fn lemma_keeps(
    p: ParserView<Seq<u8>>,
    at: Position,
    data: Seq<u8>,
    index: int,
    stream: Stream,
)
    requires
        p.reads(at, data, index, stream),
        stream.future.len() > stream.epilogue.len(),
    ensures
        p.goes_on(
            p.account(at),
            (p.keeping(data, index), Outcome::<Seq<u8>>::Complete),
            stream,
            at,
        ),
{
    let kept = p.keeping(data, index);
    assert(kept.as_new() == p.as_new());
    assert(kept.awaited(at, stream.epilogue) == p.awaited(at, stream.epilogue));
}

/// Reading the opening of a body keeps the parser on its way.
#[verifier::rlimit(40)]
proof fn lemma_read_opening(
    p: ParserView<Seq<u8>>,
    at: Position,
    data: Seq<u8>,
    index: int,
    stream: Stream,
) -> (later: Position)
    requires
        p.reads(at, data, index, stream),
        p.state is Start,
    ensures
        p.goes_on(p.account(at), served(p.run(data, index).0, p.run(data, index).1), stream, later),
        p.calm(at) ==> !(p.run(data, index).1 is Request),
    decreases data.len() - index, 1int,
{
    let awaited = p.awaited(at, stream.epilogue);
    let opening = p.opening();
    let rest = marked_sections(p.boundary, at.sections, at.mark) + stream.epilogue;
    lemma_run(p, data, index);
    lemma_served(p.run(data, index).0, p.run(data, index).1);
    lemma_ahead(data, index, stream.future, awaited);
    lemma_marked_length(p.boundary, at.sections, at.mark);
    if data.len() - index < opening.len() {
        lemma_keeps(p, at, data, index, stream);
        at
    } else {
        assert forall|j: int| 0 <= j < opening.len() implies data[index + j] == opening[j] by {
            assert(awaited[j] == opening[j]);
        }
        assert(data.subrange(index, index + opening.len()) =~= opening);
        assert(occurs_at(data, opening, index));
        let next = p.in_state(MultiPartParserState::AfterBoundary);
        assert(p.run(data, index) == next.run(data, index + opening.len()));
        lemma_skip(data, index, opening.len() as int, stream.future, opening, rest);
        assert(next.as_new() == p.as_new());
        assert(next.account(at) == p.account(at));
        lemma_read(next, at, data, index + opening.len(), stream)
    }
}

/// Reading what follows a boundary keeps the parser on its way.
#[verifier::rlimit(40)]
proof fn lemma_read_boundary_end(
    p: ParserView<Seq<u8>>,
    at: Position,
    data: Seq<u8>,
    index: int,
    stream: Stream,
) -> (later: Position)
    requires
        p.reads(at, data, index, stream),
        p.state is AfterBoundary,
    ensures
        p.goes_on(p.account(at), served(p.run(data, index).0, p.run(data, index).1), stream, later),
        p.calm(at) ==> !(p.run(data, index).1 is Request),
    decreases data.len() - index, 1int,
{
    let awaited = p.awaited(at, stream.epilogue);
    lemma_run(p, data, index);
    lemma_served(p.run(data, index).0, p.run(data, index).1);
    lemma_ahead(data, index, stream.future, awaited);
    lemma_marked_length(p.boundary, at.sections, at.mark);
    if data.len() - index < 2 {
        lemma_keeps(p, at, data, index, stream);
        at
    } else if at.sections.len() == 0 {
        let mark = at.mark;
        assert(awaited[0] == mark[0] && awaited[1] == mark[1]);
        assert(data[index + 0] == mark[0] && data[index + 1] == mark[1]);
        if mark == last_mark() {
            lemma_skip(data, index, 2, stream.future, mark, stream.epilogue);
            let done = p.at_end(data, index + 2);
            assert(done.as_new() == p.as_new());
            assert(done.account(at) == p.account(at));
        } else {
            assert(!(mark[0] == 45 && mark[1] == 45)) by {
                if mark[0] == 45 && mark[1] == 45 {
                    assert(mark =~= last_mark());
                }
            }
        }
        at
    } else {
        let next = p.in_state(MultiPartParserState::Header);
        let line = seq![13u8, 10u8];
        let rest = next.awaited(at, stream.epilogue);
        assert(awaited =~= line + rest);
        assert(awaited[0] == 13 && awaited[1] == 10);
        assert(data[index + 0] == 13 && data[index + 1] == 10);
        assert(p.run(data, index) == next.run(data, index + 2));
        lemma_skip(data, index, 2, stream.future, line, rest);
        assert(next.as_new() == p.as_new());
        assert(next.account(at) == p.account(at));
        lemma_read(next, at, data, index + 2, stream)
    }
}

/// Reading keeps the parser on its way.
proof fn lemma_read(
    p: ParserView<Seq<u8>>,
    at: Position,
    data: Seq<u8>,
    index: int,
    stream: Stream,
) -> (later: Position)
    requires
        p.reads(at, data, index, stream),
    ensures
        p.goes_on(p.account(at), served(p.run(data, index).0, p.run(data, index).1), stream, later),
        p.calm(at) ==> !(p.run(data, index).1 is Request),
    decreases data.len() - index, 2int,
{
    match p.state {
        MultiPartParserState::Start => lemma_read_opening(p, at, data, index, stream),
        MultiPartParserState::AfterBoundary => lemma_read_boundary_end(
            p,
            at,
            data,
            index,
            stream,
        ),
        MultiPartParserState::Header => lemma_read_header(p, at, data, index, stream),
        MultiPartParserState::Epilogue => lemma_read_epilogue(p, at, data, index, stream),
        _ => lemma_read_body(p, at, data, index, stream),
    }
}

/// What the parser finds of a header section: it goes on behind it when it is there,
/// and keeps what is there of it before.
#[verifier::rlimit(40)]
proof fn lemma_header_ahead(
    p: ParserView<Seq<u8>>,
    at: Position,
    data: Seq<u8>,
    index: int,
    stream: Stream,
)
    requires
        p.reads(at, data, index, stream),
        p.state is Header,
    ensures
        ({
            let section = at.sections[0];
            let length = encoded_header(section.header).len() as int;
            let result = p.run(data, index);
            if data.len() - index < length {
                ||| result == (p.keeping(data, index), Outcome::<Seq<u8>>::Complete)
                ||| section.header.len() > p.header_limit && result.1 == Outcome::<
                    Seq<u8>,
                >::Failure(MultiPartParserError::MaxHeaderLimitExceeded)
            } else if section.header.len() > p.header_limit {
                result.1 == Outcome::<Seq<u8>>::Failure(
                    MultiPartParserError::MaxHeaderLimitExceeded,
                )
            } else if !valid_utf8(section.header) {
                result.1 == Outcome::<Seq<u8>>::Failure(MultiPartParserError::MaliciousPart)
            } else {
                result == p.headed(section.header).run(data, index + length)
            }
        }),
{
    let awaited = p.awaited(at, stream.epilogue);
    let section = at.sections[0];
    let header = section.header;
    let line = double_newline();
    let rest = section.body + p.behind(at, stream.epilogue);
    lemma_ahead(data, index, stream.future, awaited);
    assert(p.as_new().frames(section));
    if header.len() == 0 {
        assert(header =~= Seq::<u8>::empty());
        if data.len() - index >= 2 {
            assert(awaited[0] == 13 && awaited[1] == 10);
            assert(data[index + 0] == 13 && data[index + 1] == 10);
        } else {
            lemma_no_occurrence(data, line, index);
            assert forall|i: int| index <= i < data.len() implies #[trigger] data[i] == line[i
                - index] by {
                assert(awaited[i - index] == 13);
                assert(data[index + (i - index)] == awaited[i - index]);
            }
            lemma_tail_in_line(data, index, 0);
        }
    } else {
        assert(awaited =~= header + (line + rest));
        lemma_search_ahead(data, index, stream.future, header, line, rest);
        if data.len() - index >= 2 {
            assert(data[index + 0] == awaited[0] && data[index + 1] == awaited[1]);
            if header.len() == 1 {
                assert(awaited[1] == 13);
            }
        }
        if data.len() - index < header.len() + 4 {
            assert forall|i: int| index + header.len() <= i < data.len() implies
                #[trigger] data[i] == line[i - index - header.len()] by {
                assert(data[index + (i - index)] == awaited[i - index]);
            }
            lemma_tail_in_line(data, index, header.len() as int);
        } else {
            let end = index + header.len();
            assert(data.subrange(index, end) =~= header) by {
                assert forall|j: int| 0 <= j < header.len() implies data[index + j]
                    == header[j] by {
                    assert(awaited[j] == header[j]);
                }
            }
        }
    }
}

/// Reading a header section keeps the parser on its way.
#[verifier::rlimit(40)]
proof fn lemma_read_header(
    p: ParserView<Seq<u8>>,
    at: Position,
    data: Seq<u8>,
    index: int,
    stream: Stream,
) -> (later: Position)
    requires
        p.reads(at, data, index, stream),
        p.state is Header,
    ensures
        p.goes_on(p.account(at), served(p.run(data, index).0, p.run(data, index).1), stream, later),
        p.calm(at) ==> !(p.run(data, index).1 is Request),
    decreases data.len() - index, 1int,
{
    let awaited = p.awaited(at, stream.epilogue);
    let section = at.sections[0];
    let header = encoded_header(section.header);
    let rest = section.body + p.behind(at, stream.epilogue);
    lemma_run(p, data, index);
    lemma_served(p.run(data, index).0, p.run(data, index).1);
    lemma_ahead(data, index, stream.future, awaited);
    lemma_header_ahead(p, at, data, index, stream);
    assert(p.as_new().frames(section));
    lemma_fault(p.as_new(), at.sections);
    if data.len() - index < header.len() {
        if p.run(data, index).1 is Complete {
            lemma_keeps(p, at, data, index, stream);
        }
        at
    } else if !p.as_new().heads(section) {
        at
    } else {
        let next = p.headed(section.header);
        let begun = at.in_body(0);
        lemma_skip(data, index, header.len() as int, stream.future, header, rest);
        assert(next.as_new() == p.as_new());
        if p.as_new().opens_up(section) {
            lemma_enter(p, at, data, index + header.len(), stream)
        } else if next.part.is_nested() {
            if let Some(boundary) = next.part.inner_boundary() {
                let child = next.inner_parser(encode_utf8(boundary));
                let chunk = data.subrange(index + header.len(), data.len() as int);
                assert(ParserView { buffer: Seq::<u8>::empty(), ..child } == child);
                assert(child.feed(chunk) == child.run(child.buffer + chunk, 0));
                assert(next.run(data, index + header.len()).1 == child.feed(chunk).1);
            }
            at
        } else {
            assert(section.body.subrange(0, section.body.len() as int) =~= section.body);
            assert(section.body.subrange(0, 0) =~= Seq::<u8>::empty());
            assert(next.account(begun) == p.account(at));
            lemma_read(next, begun, data, index + header.len(), stream)
        }
    }
}

/// What the parser is when the one inside it is done and left `data` from `index` on.
proof fn lemma_behind_inner(
    p: ParserView<Seq<u8>>,
    at: Position,
    child: ParserView<Seq<u8>>,
    inside: Position,
    data: Seq<u8>,
    index: int,
    stream: Stream,
) -> (position: Position)
    requires
        p.consistent(),
        p.nests(at),
        p.reads_by(child, at),
        inside.mark == (at.sections[0].inner->0).mark,
        child.state is Done,
        child.follows(
            inside,
            (Stream { epilogue: p.left_by_inner(at, stream.epilogue), ..stream }),
        ),
        0 <= index <= data.len(),
        data.subrange(index, data.len() as int) + stream.future == p.left_by_inner(
            at,
            stream.epilogue,
        ),
    ensures
        p.behind_inner(child).reads(position, data, index, stream),
        position.mark == at.mark,
        p.behind_inner(child).outlook(position) == p.outlook_with(at, child.outlook(inside)),
        p.behind_inner(child).trouble(position) == p.trouble_with(at, child.trouble(inside)),
        p.account_with(at, child.account(inside)).calm ==> p.behind_inner(child).calm(position),
        p.behind_inner(child).configured_as(p),
{
    let section = at.sections[0];
    let inner = section.inner->0;
    let behind = p.behind_inner(child);
    let read = section.body.len() - inner.epilogue.len();
    let position = at.in_body(read);
    let parts = parts_of(p.memory_limit, p.file_limit, at.sections.drop_first());
    assert(p.as_new().frames(section));
    assert(child.consistent());
    assert(child.child is None);
    assert(behind.as_new() == p.as_new());
    assert(section.body.subrange(read, section.body.len() as int) =~= inner.epilogue);
    assert(child.outlook(inside) =~= child.parts);
    assert(behind.outlook(position) =~= p.outlook_with(at, child.parts));
    assert(child.trouble(inside) is None);
    position
}

/// A call of the parser inside, which ended well, keeps the parser on its way.
#[verifier::rlimit(40)]
proof fn lemma_after(
    p: ParserView<Seq<u8>>,
    at: Position,
    child: ParserView<Seq<u8>>,
    inside: Position,
    stream: Stream,
) -> (later: Position)
    requires
        p.consistent(),
        p.nests(at),
        p.reads_by(child, at),
        inside.mark == (at.sections[0].inner->0).mark,
        child.follows(
            inside,
            (Stream { epilogue: p.left_by_inner(at, stream.epilogue), ..stream }),
        ),
    ensures
        ({
            let result = p.after_inner(child, Outcome::Complete);
            &&& p.goes_on(
                p.account_with(at, child.account(inside)),
                served(result.0, result.1),
                stream,
                later,
            )
            &&& p.account_with(at, child.account(inside)).calm ==> !(result.1 is Request)
        }),
    decreases child.buffer.len(), 4int,
{
    let inner_stream = Stream { epilogue: p.left_by_inner(at, stream.epilogue), ..stream };
    lemma_follows(child, inside, inner_stream);
    if child.state is Done {
        let data = child.buffer;
        assert(child.child is None);
        assert(data.subrange(0, data.len() as int) =~= data);
        let position = lemma_behind_inner(p, at, child, inside, data, 0, stream);
        lemma_read(p.behind_inner(child), position, data, 0, stream)
    } else {
        lemma_around(p, at, child, inside, stream)
    }
}

/// While the parser inside is not done, the parser is on its way.
proof fn lemma_around(
    p: ParserView<Seq<u8>>,
    at: Position,
    child: ParserView<Seq<u8>>,
    inside: Position,
    stream: Stream,
) -> (later: Position)
    requires
        p.consistent(),
        p.nests(at),
        p.reads_by(child, at),
        inside.mark == (at.sections[0].inner->0).mark,
        !(child.state is Done),
        child.follows(
            inside,
            (Stream { epilogue: p.left_by_inner(at, stream.epilogue), ..stream }),
        ),
    ensures
        p.goes_on(
            p.account_with(at, child.account(inside)),
            served(p.around(child), Outcome::Complete),
            stream,
            later,
        ),
        p.after_inner(child, Outcome::Complete) == (
            p.around(child),
            Outcome::<Seq<u8>>::Complete,
        ),
{
    let after = p.around(child);
    let inner_stream = Stream { epilogue: p.left_by_inner(at, stream.epilogue), ..stream };
    let later = Position { read: 0, inside: Some(Box::new(inside)), ..at };
    lemma_follows(child, inside, inner_stream);
    lemma_awaits(child);
    assert(after.as_new() == p.as_new());
    assert(after.left_by_inner(later, stream.epilogue) == inner_stream.epilogue);
    assert(after.consistent());
    lemma_served(after, Outcome::Complete);
    assert(after.account(later) == p.account_with(at, child.account(inside)));
    later
}

/// A parser that waits for nothing waits for no size.
proof fn lemma_awaits(p: ParserView<Seq<u8>>)
    requires
        !p.is_waiting(),
    ensures
        !p.awaits_size(),
    decreases p,
{
    if let Some(child) = p.child {
        lemma_awaits(*child);
    }
}

/// A parser on its way is consistent and waits for nothing.
proof fn lemma_follows(p: ParserView<Seq<u8>>, at: Position, stream: Stream)
    requires
        p.follows(at, stream),
    ensures
        p.consistent(),
        !p.is_waiting(),
    decreases p,
{
    if let Some(child) = p.child {
        lemma_follows(
            *child,
            *at.inside->0,
            Stream { epilogue: p.left_by_inner(at, stream.epilogue), ..stream },
        );
    }
}

/// Beginning to read a body that is made up of parts keeps the parser on its way.
#[verifier::rlimit(60)]
proof fn lemma_enter(
    p: ParserView<Seq<u8>>,
    at: Position,
    data: Seq<u8>,
    index: int,
    stream: Stream,
) -> (later: Position)
    requires
        p.on_track(at),
        p.state is Header,
        p.buffer.len() == 0,
        p.as_new().opens_up(at.sections[0]),
        0 <= index <= data.len(),
        data.subrange(index, data.len() as int) + stream.future == at.sections[0].body + p.behind(
            at,
            stream.epilogue,
        ),
    ensures
        ({
            let next = p.headed(at.sections[0].header);
            &&& p.goes_on(
                p.account(at),
                served(next.run(data, index).0, next.run(data, index).1),
                stream,
                later,
            )
            &&& p.calm(at) ==> !(next.run(data, index).1 is Request)
        }),
    decreases data.len() - index, 3int,
{
    let section = at.sections[0];
    let inner = section.inner->0;
    let next = p.headed(section.header);
    let chunk = data.subrange(index, data.len() as int);
    let left = next.left_by_inner(at, stream.epilogue);
    let whole = chunk + stream.future;
    let child = next.inner_parser(inner.boundary);
    let inside = Position {
        sections: inner.sections,
        mark: inner.mark,
        read: 0,
        inside: None,
    };
    let inner_stream = Stream { epilogue: left, ..stream };
    let body = opening_of(inner.boundary) + marked_sections(
        inner.boundary,
        inner.sections,
        inner.mark,
    );
    assert(p.as_new().frames(section));
    assert(next.as_new() == p.as_new());
    assert(whole =~= body + left);
    assert(whole =~= child.opening() + (marked_sections(
        inner.boundary,
        inner.sections,
        inner.mark,
    ) + left));
    assert(chunk.subrange(0, chunk.len() as int) =~= chunk);
    assert(child.as_new() == ParserView::<Seq<u8>>::fresh(
        p.header_limit,
        p.memory_limit,
        p.file_limit,
        inner.boundary,
    ));
    let inside_later = lemma_read(child, inside, chunk, 0, inner_stream);
    assert(ParserView { buffer: Seq::<u8>::empty(), ..child } == child);
    assert(child.buffer + chunk =~= chunk);
    assert(child.feed(chunk) == child.run(chunk, 0));
    let (fed_child, outcome) = child.feed(chunk);
    lemma_feed(child, chunk);
    lemma_run(next, data, index);
    let (result, end) = served(fed_child, outcome);
    let parts = parts_of(p.memory_limit, p.file_limit, inner.sections);
    assert(child.outlook(inside) =~= parts);
    assert(next.outlook_with(at, parts) =~= p.outlook(at)) by {
        let rest_parts = parts_of(p.memory_limit, p.file_limit, at.sections.drop_first());
        assert(parts + (seq![next.part] + rest_parts) =~= (parts + seq![next.part]) + rest_parts);
    }
    lemma_fault(p.as_new(), at.sections);
    assert(child.trouble(inside) == p.as_new().fault(section));
    assert(next.trouble_with(at, child.trouble(inside)) == p.trouble(at));
    assert(p.calm(at) ==> next.account_with(at, child.account(inside)).calm);
    lemma_served(next.run(data, index).0, next.run(data, index).1);
    if end is Failure {
        if outcome is Request {
            assert(next.run(data, index) == (next.around(fed_child), outcome));
            lemma_served_inside(next, fed_child, outcome);
            lemma_served(next.around(result), end);
        } else {
            lemma_served(fed_child, outcome);
            assert(next.run(data, index) == (next.around(fed_child), outcome));
        }
        at
    } else {
        lemma_follows(result, inside_later, inner_stream);
        if result.state is Done {
            assert(result.child is None);
            assert(result.buffer.len() + stream.future.len() == left.len());
            assert(result.buffer.len() < chunk.len());
        }
        if outcome is Request {
            assert(next.run(data, index) == (next.around(fed_child), outcome));
            lemma_served_inside(next, fed_child, outcome);
            if result.state is Done {
                lemma_after(next, at, result, inside_later, stream)
            } else {
                lemma_around(next, at, result, inside_later, stream)
            }
        } else {
            lemma_served(fed_child, outcome);
            if fed_child.state is Done {
                let from = data.len() - fed_child.buffer.len();
                assert(data.subrange(from, data.len() as int) + stream.future =~= left) by {
                    let rest = whole.subrange(whole.len() - left.len(), whole.len() as int);
                    assert(data.subrange(from, data.len() as int) + stream.future =~= rest);
                    assert((body + left).subrange(body.len() as int, whole.len() as int) =~= left);
                }
                let position = lemma_behind_inner(
                    next,
                    at,
                    fed_child,
                    inside_later,
                    data,
                    from,
                    stream,
                );
                assert(next.run(data, index) == next.behind_inner(fed_child).run(data, from));
                lemma_read(next.behind_inner(fed_child), position, data, from, stream)
            } else {
                assert(next.run(data, index) == (next.around(fed_child), outcome));
                lemma_around(next, at, fed_child, inside_later, stream)
            }
        }
    }
}

/// What follows a boundary holds two bytes at least.
proof fn lemma_marked_length(boundary: Seq<u8>, sections: Seq<Section>, mark: Seq<u8>)
    requires
        mark.len() == 2,
    ensures
        marked_sections(boundary, sections, mark).len() >= 2,
{
}

/// What the parser needs to know of the section whose body it reads, or what follows
/// the parts in it.
#[verifier::rlimit(40)]
proof fn lemma_body_ahead(
    p: ParserView<Seq<u8>>,
    at: Position,
    data: Seq<u8>,
    index: int,
    stream: Stream,
)
    requires
        p.reads(at, data, index, stream),
        p.state is Body || p.state is Epilogue,
    ensures
        ({
            let section = at.sections[0];
            let before = section.body.subrange(0, at.read);
            let rest = section.body.subrange(at.read, section.body.len() as int);
            let more = marked_sections(p.boundary, at.sections.drop_first(), at.mark)
                + stream.epilogue;
            let left = data.len() - index;
            let ahead = data.subrange(index, data.len() as int) + stream.future;
            &&& p.as_new().frames(section)
            &&& before + rest == section.body
            &&& stream.epilogue.len() < more.len()
            &&& ahead == rest + (p.delimiter() + more)
            &&& ahead.len() == left + stream.future.len()
            &&& left >= rest.len() + p.delimiter().len() ==> first_occurrence(
                data,
                p.delimiter(),
                index,
            ) == Some(index + rest.len())
            &&& left < rest.len() + p.delimiter().len() ==> first_occurrence(
                data,
                p.delimiter(),
                index,
            ) is None
            &&& forall|j: int| 0 <= j < left ==> #[trigger] ahead[j] == data[index + j]
        }),
{
    let section = at.sections[0];
    let before = section.body.subrange(0, at.read);
    let rest = section.body.subrange(at.read, section.body.len() as int);
    let more = marked_sections(p.boundary, at.sections.drop_first(), at.mark) + stream.epilogue;
    assert(p.as_new().frames(section));
    lemma_marked_length(p.boundary, at.sections.drop_first(), at.mark);
    if p.state is Body {
        lemma_rest_of_body(section.body, p.delimiter(), at.read);
    } else {
        let tail = (section.inner->0).epilogue;
        let read = at.read - (section.body.len() - tail.len());
        lemma_rest_of_body(tail, p.delimiter(), read);
        assert(tail.subrange(read, tail.len() as int) =~= rest);
    }
    lemma_search_ahead(data, index, stream.future, rest, p.delimiter(), more);
    assert(before + rest =~= section.body);
}

/// The parser when the first section is over, of which `part` has come.
spec fn behind_section(p: ParserView<Seq<u8>>, part: PartView<Seq<u8>>) -> ParserView<Seq<u8>> {
    ParserView {
        parts: p.parts.push(part),
        part: PartView::empty(p.memory_limit, p.file_limit),
        state: MultiPartParserState::AfterBoundary,
        ..p
    }
}

/// Where the delimiter is there, the parser reads the body of the part up to it and
/// goes on behind it.
#[verifier::rlimit(40)]
proof fn lemma_pass_delimiter(
    p: ParserView<Seq<u8>>,
    at: Position,
    data: Seq<u8>,
    index: int,
    stream: Stream,
)
    requires
        p.reads(at, data, index, stream),
        p.state is Body,
        data.len() - index >= at.sections[0].body.len() - at.read + p.delimiter().len(),
    ensures
        ({
            let next = index + (at.sections[0].body.len() - at.read) + p.delimiter().len();
            let part = part_of(p.memory_limit, p.file_limit, at.sections[0]);
            let over = behind_section(p, part);
            let result = p.run(data, index);
            let headed = headed_part(p.memory_limit, p.file_limit, at.sections[0]);
            let length = at.sections[0].body.len();
            &&& headed.has_room_for(length) ==> served(result.0, result.1) == served(
                over.run(data, next).0,
                over.run(data, next).1,
            )
            &&& !headed.has_room_for(length) ==> served(result.0, result.1).1 == Outcome::<
                Seq<u8>,
            >::Failure(MultiPartParserError::MaxFileSizeExceededError)
            &&& !headed.is_file_part() && length <= p.memory_limit ==> result == over.run(
                data,
                next,
            )
        }),
{
    let section = at.sections[0];
    let before = section.body.subrange(0, at.read);
    let rest = section.body.subrange(at.read, section.body.len() as int);
    let headed = headed_part(p.memory_limit, p.file_limit, section);
    let ahead = data.subrange(index, data.len() as int) + stream.future;
    let end = index + rest.len();
    let next = end + p.delimiter().len();
    let full = ParserView { part: holding(headed, section.body), ..p };
    let over = behind_section(p, holding(headed, section.body));
    lemma_body_ahead(p, at, data, index, stream);
    assert(data.subrange(index, end) =~= rest) by {
        assert forall|j: int| 0 <= j < rest.len() implies data[index + j] == rest[j] by {
            assert(ahead[j] == data[index + j]);
        }
    }
    assert(p.search_boundary(data, index) == p.deliver(rest, data, next, true));
    if rest.len() > 0 {
        assert(before + rest =~= section.body);
        lemma_delivered(p, headed, before, rest, data, next, true);
    } else {
        assert(before =~= section.body);
        assert(p == full);
        assert(p.deliver(rest, data, next, true) == p.proceed(data, next, true));
    }
    assert(p.run(data, index) == p.search_boundary(data, index));
    assert(full.at_boundary() == over);
    assert(full.proceed(data, next, true) == over.run(data, next));
}

/// Behind a section, of which `part` has come, the parser is on its way to the next.
#[verifier::rlimit(40)]
proof fn lemma_behind_section(
    p: ParserView<Seq<u8>>,
    at: Position,
    data: Seq<u8>,
    index: int,
    stream: Stream,
    part: PartView<Seq<u8>>,
)
    requires
        p.reads(at, data, index, stream),
        p.state is Body || p.state is Epilogue,
        data.len() - index >= at.sections[0].body.len() - at.read + p.delimiter().len(),
        part == if p.state is Body {
            part_of(p.memory_limit, p.file_limit, at.sections[0])
        } else {
            p.part
        },
    ensures
        ({
            let next = index + (at.sections[0].body.len() - at.read) + p.delimiter().len();
            let over = behind_section(p, part);
            &&& over.reads(at.past(), data, next, stream)
            &&& over.outlook(at.past()) == p.outlook(at)
            &&& p.calm(at) ==> over.calm(at.past())
            &&& p.state is Epilogue || headed_part(
                p.memory_limit,
                p.file_limit,
                at.sections[0],
            ).has_room_for(at.sections[0].body.len()) ==> over.trouble(at.past()) == p.trouble(at)
        }),
{
    let section = at.sections[0];
    let later = at.sections.drop_first();
    let delimiter = p.delimiter();
    let rest = section.body.subrange(at.read, section.body.len() as int);
    let more = marked_sections(p.boundary, later, at.mark) + stream.epilogue;
    let over = behind_section(p, part);
    let parts = parts_of(p.memory_limit, p.file_limit, later);
    let none = Seq::<PartView<Seq<u8>>>::empty();
    assert(rest + (delimiter + more) =~= (rest + delimiter) + more);
    lemma_skip(
        data,
        index,
        rest.len() as int + delimiter.len(),
        stream.future,
        rest + delimiter,
        more,
    );
    lemma_fault(p.as_new(), at.sections);
    assert(p.as_new().frames(section));
    assert(over.as_new() == p.as_new());
    assert(p.parts.push(part) + parts =~= p.parts + (seq![part] + parts));
    assert(none + (seq![part] + parts) =~= seq![part] + parts);
}

/// Where the parser cuts the data off that it reads of a body: what comes before is of
/// the body, and what comes behind may be the beginning of the delimiter.
#[verifier::rlimit(40)]
proof fn lemma_cut(
    p: ParserView<Seq<u8>>,
    at: Position,
    data: Seq<u8>,
    index: int,
    stream: Stream,
) -> (cut: int)
    requires
        p.reads(at, data, index, stream),
        p.state is Body || p.state is Epilogue,
        data.len() - index < at.sections[0].body.len() - at.read + p.delimiter().len(),
    ensures
        ({
            let body = at.sections[0].body;
            let read = at.read + (cut - index);
            &&& cut == tail_from(data, index, p.delimiter())
            &&& index <= cut <= data.len()
            &&& data.len() - cut <= p.delimiter().len()
            &&& read <= body.len()
            &&& body.subrange(0, at.read) + data.subrange(index, cut) == body.subrange(0, read)
            &&& data.subrange(cut, data.len() as int) + stream.future == body.subrange(
                read,
                body.len() as int,
            ) + p.behind(at, stream.epilogue)
        }),
{
    let section = at.sections[0];
    let delimiter = p.delimiter();
    let before = section.body.subrange(0, at.read);
    let rest = section.body.subrange(at.read, section.body.len() as int);
    let behind = p.behind(at, stream.epilogue);
    let there = data.subrange(index, data.len() as int);
    let ahead = there + stream.future;
    lemma_body_ahead(p, at, data, index, stream);
    lemma_tail_from(data, index, delimiter);
    if there.len() > rest.len() {
        let end = rest.len() as int;
        assert(there.subrange(end, there.len() as int) =~= delimiter.subrange(
            0,
            there.len() - end,
        )) by {
            assert forall|j: int| 0 <= j < there.len() - end implies there[end + j]
                == delimiter[j] by {
                assert(ahead[end + j] == there[end + j]);
            }
        }
        assert(is_partial_tail(there, delimiter, end));
        lemma_longest(there, delimiter, end);
    }
    let cut = tail_from(data, index, delimiter);
    let bytes = data.subrange(index, cut);
    assert(bytes =~= rest.subrange(0, cut - index)) by {
        assert forall|j: int| 0 <= j < bytes.len() implies bytes[j] == rest[j] by {
            assert(ahead[j] == data[index + j]);
        }
    }
    let read = at.read + (cut - index);
    let after = section.body.subrange(read, section.body.len() as int);
    assert(before + bytes =~= section.body.subrange(0, read));
    assert(rest =~= bytes + after);
    assert(rest + behind =~= bytes + (after + behind));
    lemma_skip(data, index, cut - index, stream.future, bytes, after + behind);
    cut
}

/// Reading the body of a part keeps the parser on its way.
#[verifier::rlimit(60)]
proof fn lemma_read_body(
    p: ParserView<Seq<u8>>,
    at: Position,
    data: Seq<u8>,
    index: int,
    stream: Stream,
) -> (later: Position)
    requires
        p.reads(at, data, index, stream),
        p.state is Body,
    ensures
        p.goes_on(p.account(at), served(p.run(data, index).0, p.run(data, index).1), stream, later),
        p.calm(at) ==> !(p.run(data, index).1 is Request),
    decreases data.len() - index, 1int,
{
    let section = at.sections[0];
    lemma_fault(p.as_new(), at.sections);
    lemma_body_ahead(p, at, data, index, stream);
    lemma_run(p, data, index);
    lemma_served(p.run(data, index).0, p.run(data, index).1);
    if data.len() - index < section.body.len() - at.read + p.delimiter().len() {
        if data.len() - index < p.boundary.len() {
            assert(p.run(data, index) == p.search_boundary(data, index));
            lemma_keeps(p, at, data, index, stream);
            at
        } else {
            lemma_read_some(p, at, data, index, stream)
        }
    } else {
        let next = index + (section.body.len() - at.read) + p.delimiter().len();
        let part = part_of(p.memory_limit, p.file_limit, section);
        lemma_pass_delimiter(p, at, data, index, stream);
        lemma_behind_section(p, at, data, index, stream, part);
        let later = lemma_read(behind_section(p, part), at.past(), data, next, stream);
        if p.calm(at) {
            assert(is_small(p.memory_limit, p.file_limit, section));
        }
        later
    }
}

/// Reading the beginning of the body of a part keeps the parser on its way.
#[verifier::rlimit(60)]
proof fn lemma_read_some(
    p: ParserView<Seq<u8>>,
    at: Position,
    data: Seq<u8>,
    index: int,
    stream: Stream,
) -> (later: Position)
    requires
        p.reads(at, data, index, stream),
        p.state is Body,
        data.len() - index < at.sections[0].body.len() - at.read + p.delimiter().len(),
        data.len() - index >= p.boundary.len(),
    ensures
        p.goes_on(p.account(at), served(p.run(data, index).0, p.run(data, index).1), stream, later),
        p.calm(at) ==> !(p.run(data, index).1 is Request),
{
    let section = at.sections[0];
    let before = section.body.subrange(0, at.read);
    let headed = headed_part(p.memory_limit, p.file_limit, section);
    lemma_fault(p.as_new(), at.sections);
    lemma_body_ahead(p, at, data, index, stream);
    let cut = lemma_cut(p, at, data, index, stream);
    let bytes = data.subrange(index, cut);
    let position = at.in_body(at.read + (cut - index));
    let kept = ParserView { part: holding(headed, before + bytes), ..p };
    assert(p.search_boundary(data, index) == p.deliver(bytes, data, cut, false));
    if cut > index {
        lemma_delivered(p, headed, before, bytes, data, cut, false);
        assert(section.body.subrange(0, at.read + (cut - index)).len() == at.read + (cut - index));
    } else {
        assert(before + bytes =~= before);
        assert(p == kept);
        assert(p.deliver(bytes, data, cut, false) == p.proceed(data, cut, false));
    }
    assert(p.run(data, index) == p.search_boundary(data, index));
    lemma_proceed(kept, data, cut, false);
    lemma_served(kept.proceed(data, cut, false).0, kept.proceed(data, cut, false).1);
    if headed.has_room_for((before + bytes).len()) {
        assert(served(p.run(data, index).0, p.run(data, index).1) == kept.proceed(
            data,
            cut,
            false,
        ));
        let after = kept.keeping(data, cut);
        assert(after.as_new() == p.as_new());
        assert(after.account(position) == p.account(at));
    } else {
        assert(!headed.has_room_for(section.body.len()));
    }
    if p.calm(at) {
        assert(is_small(p.memory_limit, p.file_limit, section));
    }
    position
}

/// Reading what follows the parts in a body keeps the parser on its way.
#[verifier::rlimit(60)]
proof fn lemma_read_epilogue(
    p: ParserView<Seq<u8>>,
    at: Position,
    data: Seq<u8>,
    index: int,
    stream: Stream,
) -> (later: Position)
    requires
        p.reads(at, data, index, stream),
        p.state is Epilogue,
    ensures
        p.goes_on(p.account(at), served(p.run(data, index).0, p.run(data, index).1), stream, later),
        p.calm(at) ==> !(p.run(data, index).1 is Request),
    decreases data.len() - index, 1int,
{
    let section = at.sections[0];
    lemma_body_ahead(p, at, data, index, stream);
    lemma_run(p, data, index);
    lemma_served(p.run(data, index).0, p.run(data, index).1);
    if data.len() - index < section.body.len() - at.read + p.delimiter().len() {
        let cut = lemma_cut(p, at, data, index, stream);
        let position = at.in_body(at.read + (cut - index));
        let after = p.keeping(data, cut);
        assert(p.run(data, index) == (after, Outcome::<Seq<u8>>::Complete));
        assert(after.as_new() == p.as_new());
        assert(after.account(position) == p.account(at));
        position
    } else {
        let next = index + (section.body.len() - at.read) + p.delimiter().len();
        let over = behind_section(p, p.part);
        lemma_behind_section(p, at, data, index, stream, p.part);
        assert(p.at_boundary() == over);
        assert(p.run(data, index) == over.run(data, next));
        lemma_read(over, at.past(), data, next, stream)
    }
}

/// A chunk keeps the parser on its way.
#[verifier::rlimit(60)]
proof fn lemma_feed_on(p: ParserView<Seq<u8>>, at: Position, chunk: Seq<u8>, stream: Stream) -> (
    later: Position)
    requires
        p.follows(at, (Stream { future: chunk + stream.future, ..stream })),
        !(p.state is Done),
    ensures
        p.goes_on(p.account(at), served(p.feed(chunk).0, p.feed(chunk).1), stream, later),
        p.calm(at) ==> !(p.feed(chunk).1 is Request),
    decreases p,
{
    match p.child {
        None => {
            let free = ParserView { buffer: Seq::<u8>::empty(), ..p };
            let data = p.buffer + chunk;
            assert(p.buffer + (chunk + stream.future) =~= data + stream.future);
            assert(data.subrange(0, data.len() as int) =~= data);
            assert(p.feed(chunk) == free.run(data, 0));
            assert(free.as_new() == p.as_new());
            assert(free.account(at) == p.account(at));
            lemma_read(free, at, data, 0, stream)
        },
        Some(child) => {
            let left = p.left_by_inner(at, stream.epilogue);
            let inner_stream = Stream { epilogue: left, ..stream };
            let now = Stream { future: chunk + stream.future, ..stream };
            lemma_follows(p, at, now);
            let inside = lemma_feed_on(*child, *at.inside->0, chunk, inner_stream);
            let (fed_child, outcome) = child.feed(chunk);
            let alone = ParserView { child: None, ..p };
            assert(child.consistent());
            assert(!child.is_waiting());
            lemma_feed(*child, chunk);
            lemma_feed(p, chunk);
            let (result, end) = served(fed_child, outcome);
            assert(alone.as_new() == p.as_new());
            assert(alone.left_by_inner(at, stream.epilogue) == left);
            assert(alone.behind_inner(fed_child) == p.behind_inner(fed_child));
            assert(alone.around(fed_child) == p.around(fed_child));
            assert(p.feed(chunk) == p.after_inner(fed_child, outcome));
            assert(p.after_inner(fed_child, outcome) == alone.after_inner(fed_child, outcome));
            if outcome is Request {
                lemma_served_inside(alone, fed_child, outcome);
            } else {
                lemma_served(fed_child, outcome);
            }
            assert(served(p.feed(chunk).0, p.feed(chunk).1) == served(
                alone.after_inner(result, end).0,
                alone.after_inner(result, end).1,
            ));
            assert(alone.account_with(at, child.account(*at.inside->0)) == p.account(at));
            if end is Failure {
                lemma_served(alone.after_inner(result, end).0, end);
                at
            } else {
                lemma_after(alone, at, result, inside, stream)
            }
        },
    }
}

/// Chunk by chunk, the parser stays on its way.
proof fn lemma_fed(
    p: ParserView<Seq<u8>>,
    at: Position,
    chunks: Seq<Seq<u8>>,
    future: Seq<u8>,
    epilogue: Seq<u8>,
) -> (later: Position)
    requires
        p.follows(at, (Stream { future: chunks.flatten() + future, epilogue })),
        chunks.len() > 0 ==> chunks.last().len() + future.len() > epilogue.len(),
    ensures
        p.goes_on(p.account(at), fed(p, chunks), (Stream { future, epilogue }), later),
        p.calm(at) ==> asks_nothing(p, chunks),
    decreases chunks.len(),
{
    if chunks.len() == 0 {
        assert(chunks.flatten() + future =~= future);
        at
    } else {
        let chunk = chunks[0];
        let later = chunks.drop_first();
        let coming = later.flatten() + future;
        let stream = Stream { future: coming, epilogue };
        assert(chunks.flatten() == chunk + later.flatten());
        assert(chunks.flatten() + future =~= chunk + coming);
        lemma_last_in_flatten(chunks);
        lemma_follows(p, at, Stream { future: chunk + coming, epilogue });
        let next = lemma_feed_on(p, at, chunk, stream);
        let (after, outcome) = served(p.feed(chunk).0, p.feed(chunk).1);
        lemma_feed(p, chunk);
        if later.len() > 0 {
            assert(later.last() == chunks.last());
        }
        if !(p.feed(chunk).1 is Request) {
            lemma_served(p.feed(chunk).0, p.feed(chunk).1);
        }
        if outcome is Failure {
            next
        } else {
            lemma_fed(after, next, later, future, epilogue)
        }
    }
}

/// All chunks together are as long as the last one at least.
proof fn lemma_last_in_flatten(chunks: Seq<Seq<u8>>)
    requires
        chunks.len() > 0,
    ensures
        chunks.flatten().len() >= chunks.last().len(),
    decreases chunks.len(),
{
    if chunks.len() > 1 {
        lemma_last_in_flatten(chunks.drop_first());
    }
}

/// Where all requests are done as they ask, the parser ends up as one whose handles are
/// what the files hold.
proof fn lemma_talk<F>(
    p: ParserView<F>,
    outcome: Outcome<F>,
    replies: Seq<FileReply<F>>,
    contents: spec_fn(F) -> Seq<u8>,
)
    requires
        p.consistent(),
        p.is_waiting() == (outcome is Request),
        p.awaits_size() == (outcome matches Outcome::Request(request) && request is Measure),
        is_faithful_talk(p, outcome, replies, contents),
    ensures
        ({
            let (after, end) = talk(p, outcome, replies);
            &&& !(end is Request)
            &&& after.consistent()
            &&& !after.is_waiting()
            &&& waits_as_told(p.with_contents(contents), outcome.with_contents(contents))
            &&& served(p.with_contents(contents), outcome.with_contents(contents))
                == result_with_contents((after, end), contents)
        }),
    decreases replies.len(),
{
    let q = p.with_contents(contents);
    lemma_waits_contents(p, contents);
    if let Outcome::Request(request) = outcome {
        let reply = replies[0];
        lemma_answered(p, reply);
        lemma_answered_contents(p, reply, contents);
        assert(reply.with_contents(contents) == disk_answer(request.with_contents(contents)));
        lemma_served(q, outcome.with_contents(contents));
        let (after, next) = p.answered(reply);
        lemma_talk(after, next, replies.drop_first(), contents);
    }
}

/// Chunk by chunk, where all requests are done as they ask, the parser is as one whose
/// handles are what the files hold.
proof fn lemma_faithful_run<F>(
    p: ParserView<F>,
    chunks: Seq<Seq<u8>>,
    replies: Seq<Seq<FileReply<F>>>,
    contents: spec_fn(F) -> Seq<u8>,
)
    requires
        p.consistent(),
        !p.is_waiting(),
        is_faithful_run(p, chunks, replies, contents),
    ensures
        fed(p.with_contents(contents), chunks) == result_with_contents(
            fed_with(p, chunks, replies),
            contents,
        ),
    decreases chunks.len(),
{
    if chunks.len() > 0 {
        let (after, outcome) = p.feed(chunks[0]);
        lemma_feed(p, chunks[0]);
        lemma_feed_contents(p, chunks[0], contents);
        lemma_talk(after, outcome, replies[0], contents);
        let (answered, end) = talk(after, outcome, replies[0]);
        if !(end is Failure) {
            lemma_faithful_run(answered, chunks.drop_first(), replies.drop_first(), contents);
        }
    }
}

/// A parser that has received nothing has no files.
proof fn lemma_fresh<F>(
    header_limit: u16,
    memory_limit: u32,
    file_limit: u32,
    boundary: Seq<u8>,
    contents: spec_fn(F) -> Seq<u8>,
)
    ensures
        ParserView::<F>::fresh(header_limit, memory_limit, file_limit, boundary).with_contents(
            contents,
        ) == ParserView::<Seq<u8>>::fresh(header_limit, memory_limit, file_limit, boundary),
{
    assert(parts_with_contents(Seq::<PartView<F>>::empty(), contents) =~= Seq::<
        PartView<Seq<u8>>,
    >::empty());
}

/// Where nothing is asked for, nothing is answered.
proof fn lemma_nothing_asked<F>(
    p: ParserView<F>,
    chunks: Seq<Seq<u8>>,
    replies: Seq<Seq<FileReply<F>>>,
    contents: spec_fn(F) -> Seq<u8>,
)
    requires
        p.consistent(),
        !p.is_waiting(),
        is_faithful_run(p, chunks, replies, contents),
        asks_nothing(p.with_contents(contents), chunks),
        fed_with(p, chunks, replies).1 is Complete,
    ensures
        forall|i: int| 0 <= i < replies.len() ==> (#[trigger] replies[i]).len() == 0,
    decreases chunks.len(),
{
    if chunks.len() > 0 {
        let (after, outcome) = p.feed(chunks[0]);
        lemma_feed(p, chunks[0]);
        lemma_feed_contents(p, chunks[0], contents);
        assert(!(outcome is Request));
        let later = replies.drop_first();
        lemma_nothing_asked(after, chunks.drop_first(), later, contents);
        assert forall|i: int| 0 <= i < replies.len() implies (#[trigger] replies[i]).len()
            == 0 by {
            if i > 0 {
                assert(later[i - 1] == replies[i]);
            }
        }
    }
}

/// Whatever the chunks in which a body arrives, it fails as the first section at fault
/// has to; where none is, the parts come out as they went in, and where all data are held
/// in memory nothing is asked for.
pub(crate) proof fn lemma_whole_body<F>(
    header_limit: u16,
    memory_limit: u32,
    file_limit: u32,
    boundary: Seq<u8>,
    sections: Seq<Section>,
    mark: Seq<u8>,
    epilogue: Seq<u8>,
    chunks: Seq<Seq<u8>>,
    replies: Seq<Seq<FileReply<F>>>,
    contents: spec_fn(F) -> Seq<u8>,
)
    requires
        is_valid_boundary(boundary),
        is_mark(mark),
        ParserView::<Seq<u8>>::fresh(
            header_limit,
            memory_limit,
            file_limit,
            boundary,
        ).frames_all(sections),
        chunks.len() > 0,
        chunks.flatten() == opening_of(boundary) + marked_sections(boundary, sections, mark)
            + epilogue,
        chunks.last().len() > epilogue.len(),
        is_faithful_run(
            ParserView::<F>::fresh(header_limit, memory_limit, file_limit, boundary),
            chunks,
            replies,
            contents,
        ),
    ensures
        ({
            let parser = ParserView::<F>::fresh(
                header_limit,
                memory_limit,
                file_limit,
                boundary,
            );
            let (after, outcome) = fed_with(parser, chunks, replies);
            match marked_fault(
                ParserView::<Seq<u8>>::fresh(
                    header_limit,
                    memory_limit,
                    file_limit,
                    boundary,
                ).first_fault(sections),
                mark,
            ) {
                Some(error) => outcome == Outcome::<F>::Failure(error),
                None => {
                    &&& outcome is Complete
                    &&& after.state is Done
                    &&& parts_with_contents(after.parts, contents) == parts_of(
                        memory_limit,
                        file_limit,
                        sections,
                    )
                    &&& all_small(memory_limit, file_limit, sections) ==> forall|i: int|
                        0 <= i < replies.len() ==> (#[trigger] replies[i]).len() == 0
                },
            }
        }),
{
    let actual = ParserView::<F>::fresh(header_limit, memory_limit, file_limit, boundary);
    let parser = ParserView::<Seq<u8>>::fresh(header_limit, memory_limit, file_limit, boundary);
    let none = Seq::<u8>::empty();
    let at = Position { sections, mark, read: 0, inside: None };
    lemma_fresh(header_limit, memory_limit, file_limit, boundary, contents);
    lemma_faithful_run(actual, chunks, replies, contents);
    lemma_last_in_flatten(chunks);
    assert(parser.buffer + (chunks.flatten() + none) =~= parser.awaited(at, epilogue));
    assert(parser.as_new() == parser);
    let later = lemma_fed(parser, at, chunks, none, epilogue);
    let (after, outcome) = fed(parser, chunks);
    if outcome is Complete {
        lemma_ended(after, later, Stream { future: none, epilogue });
        assert(parser.outlook(at) =~= parts_of(memory_limit, file_limit, sections));
        assert(after.outlook(later) =~= after.parts);
        if all_small(memory_limit, file_limit, sections) {
            lemma_nothing_asked(actual, chunks, replies, contents);
        }
    }
}

/// As long as something is missing of a body, nothing comes of it, unless the first
/// section at fault has come.
pub(crate) proof fn lemma_part_of_body<F>(
    header_limit: u16,
    memory_limit: u32,
    file_limit: u32,
    boundary: Seq<u8>,
    sections: Seq<Section>,
    mark: Seq<u8>,
    chunks: Seq<Seq<u8>>,
    missing: Seq<u8>,
    replies: Seq<Seq<FileReply<F>>>,
    contents: spec_fn(F) -> Seq<u8>,
)
    requires
        is_valid_boundary(boundary),
        is_mark(mark),
        ParserView::<Seq<u8>>::fresh(
            header_limit,
            memory_limit,
            file_limit,
            boundary,
        ).frames_all(sections),
        chunks.flatten() + missing == opening_of(boundary) + marked_sections(
            boundary,
            sections,
            mark,
        ),
        missing.len() > 0,
        is_faithful_run(
            ParserView::<F>::fresh(header_limit, memory_limit, file_limit, boundary),
            chunks,
            replies,
            contents,
        ),
    ensures
        ({
            let parser = ParserView::<F>::fresh(
                header_limit,
                memory_limit,
                file_limit,
                boundary,
            );
            let (after, outcome) = fed_with(parser, chunks, replies);
            match outcome {
                Outcome::Complete => !(after.state is Done),
                Outcome::Failure(error) => marked_fault(
                    ParserView::<Seq<u8>>::fresh(
                        header_limit,
                        memory_limit,
                        file_limit,
                        boundary,
                    ).first_fault(sections),
                    mark,
                ) == Some(error),
                Outcome::Request(_) => false,
            }
        }),
{
    let actual = ParserView::<F>::fresh(header_limit, memory_limit, file_limit, boundary);
    let parser = ParserView::<Seq<u8>>::fresh(header_limit, memory_limit, file_limit, boundary);
    let none = Seq::<u8>::empty();
    let at = Position { sections, mark, read: 0, inside: None };
    lemma_fresh(header_limit, memory_limit, file_limit, boundary, contents);
    lemma_faithful_run(actual, chunks, replies, contents);
    assert(parser.buffer + (chunks.flatten() + missing) =~= parser.awaited(at, none));
    assert(parser.as_new() == parser);
    let later = lemma_fed(parser, at, chunks, missing, none);
    if fed(parser, chunks).1 is Complete {
        lemma_follows(fed(parser, chunks).0, later, Stream { future: missing, epilogue: none });
    }
}

/// Whatever the chunks in which a body arrives, its parts come out as they went in: each
/// with the headers that its header section holds and with the bytes of its body, in
/// memory or in a file depending on their number alone. A part that is made up of parts
/// itself comes behind those parts, with its headers.
///
/// This holds whatever stands for a file, as long as the requests that come with each
/// chunk are done as they ask; of the files, `contents` says what they hold. What follows
/// the last boundary may come in the chunk that completes it; a chunk behind that one
/// would be refused, so the last chunk is longer than what follows.
pub proof fn law_parts_come_out_as_they_went_in<F>(
    header_limit: u16,
    memory_limit: u32,
    file_limit: u32,
    boundary: Seq<u8>,
    sections: Seq<Section>,
    epilogue: Seq<u8>,
    chunks: Seq<Seq<u8>>,
    replies: Seq<Seq<FileReply<F>>>,
    contents: spec_fn(F) -> Seq<u8>,
)
    requires
        is_valid_boundary(boundary),
        ParserView::<Seq<u8>>::fresh(
            header_limit,
            memory_limit,
            file_limit,
            boundary,
        ).carries_all(sections),
        chunks.len() > 0,
        chunks.flatten() == encoded_body(boundary, sections) + epilogue,
        chunks.last().len() > epilogue.len(),
        is_faithful_run(
            ParserView::<F>::fresh(header_limit, memory_limit, file_limit, boundary),
            chunks,
            replies,
            contents,
        ),
    ensures
        ({
            let parser = ParserView::<F>::fresh(
                header_limit,
                memory_limit,
                file_limit,
                boundary,
            );
            let (after, outcome) = fed_with(parser, chunks, replies);
            &&& outcome is Complete
            &&& after.state is Done
            &&& parts_with_contents(after.parts, contents) == parts_of(
                memory_limit,
                file_limit,
                sections,
            )
        }),
{
    lemma_carried_all(
        ParserView::<Seq<u8>>::fresh(header_limit, memory_limit, file_limit, boundary),
        sections,
    );
    lemma_marked(boundary, sections);
    lemma_whole_body(
        header_limit,
        memory_limit,
        file_limit,
        boundary,
        sections,
        last_mark(),
        epilogue,
        chunks,
        replies,
        contents,
    );
}

/// A parser for which nothing is left to come is done.
proof fn lemma_ended(p: ParserView<Seq<u8>>, at: Position, stream: Stream)
    requires
        p.follows(at, stream),
        stream.future.len() == 0,
    ensures
        p.child is None,
        p.state is Done,
    decreases p,
{
    if let Some(child) = p.child {
        let left = p.left_by_inner(at, stream.epilogue);
        assert(p.consistent());
        lemma_ended(*child, *at.inside->0, Stream { epilogue: left, ..stream });
    }
}

/// Whatever the chunks in which a body arrives, and whatever stands for a file, nothing
/// fails before the last boundary is complete, as long as the requests are done as they
/// ask, and the parser is not done, so that it hands out nothing.
pub proof fn law_incomplete_bodies_are_awaited<F>(
    header_limit: u16,
    memory_limit: u32,
    file_limit: u32,
    boundary: Seq<u8>,
    sections: Seq<Section>,
    chunks: Seq<Seq<u8>>,
    missing: Seq<u8>,
    replies: Seq<Seq<FileReply<F>>>,
    contents: spec_fn(F) -> Seq<u8>,
)
    requires
        is_valid_boundary(boundary),
        ParserView::<Seq<u8>>::fresh(
            header_limit,
            memory_limit,
            file_limit,
            boundary,
        ).carries_all(sections),
        chunks.flatten() + missing == encoded_body(boundary, sections),
        missing.len() > 0,
        is_faithful_run(
            ParserView::<F>::fresh(header_limit, memory_limit, file_limit, boundary),
            chunks,
            replies,
            contents,
        ),
    ensures
        ({
            let parser = ParserView::<F>::fresh(
                header_limit,
                memory_limit,
                file_limit,
                boundary,
            );
            let (after, outcome) = fed_with(parser, chunks, replies);
            &&& outcome is Complete
            &&& !(after.state is Done)
        }),
{
    lemma_carried_all(
        ParserView::<Seq<u8>>::fresh(header_limit, memory_limit, file_limit, boundary),
        sections,
    );
    lemma_marked(boundary, sections);
    lemma_part_of_body(
        header_limit,
        memory_limit,
        file_limit,
        boundary,
        sections,
        last_mark(),
        chunks,
        missing,
        replies,
        contents,
    );
}

} // verus!
