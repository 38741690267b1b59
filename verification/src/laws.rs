//! What holds of the parser whatever it is fed and whatever it is answered.

use crate::machine::{
    is_valid_boundary, lemma_found, MultiPartParserState, Outcome, ParserView,
};
use crate::multipart::{FileReply, RequestView};
use crate::parser::MultiPartParserError;
use crate::search::{
    double_newline, first_occurrence, is_first_occurrence, is_longest_partial_tail,
    is_partial_tail, lemma_first_occurrence, lemma_header_tail, lemma_no_occurrence,
    lemma_tail_from, lemma_tail_in_line, occurs_at, partial_tail, tail_from,
};
use vstd::prelude::*;
use vstd::utf8::{encode_utf8, valid_utf8};

verus! {

/// A call of the parser.
pub enum Call<F> {
    /// With a chunk.
    Chunk(Seq<u8>),
    /// With the answer to a request.
    Answer(FileReply<F>),
}

impl<F> ParserView<F> {
    /// The parser may be called so: with a chunk when it waits for nothing, with an
    /// answer when it waits for one of that kind.
    pub open spec fn accepts(self, call: Call<F>) -> bool {
        match call {
            Call::Chunk(_) => !self.is_waiting(),
            Call::Answer(reply) => self.is_waiting() && self.awaits_size() == (reply is Measured),
        }
    }

    /// What a call does.
    pub open spec fn called(self, call: Call<F>) -> (ParserView<F>, Outcome<F>) {
        match call {
            Call::Chunk(chunk) => self.feed(chunk),
            Call::Answer(reply) => self.answered(reply),
        }
    }

    /// The parser may be called so again and again.
    pub open spec fn accepts_all(self, calls: Seq<Call<F>>) -> bool
        decreases calls.len(),
    {
        calls.len() == 0 || (self.accepts(calls[0]) && self.called(calls[0]).0.accepts_all(
            calls.drop_first(),
        ))
    }

    /// The parser after all these calls.
    pub open spec fn after_all(self, calls: Seq<Call<F>>) -> ParserView<F>
        decreases calls.len(),
    {
        if calls.len() == 0 {
            self
        } else {
            self.called(calls[0]).0.after_all(calls.drop_first())
        }
    }

    /// What is held of each part in memory keeps within the memory limit: of those
    /// parsed, of the current one, and of those of the parsers at work inside.
    pub open spec fn within_memory(self) -> bool
        decreases self,
    {
        &&& self.part.in_memory().len() <= self.memory_limit
        &&& forall|i: int|
            0 <= i < self.parts.len() ==> (#[trigger] self.parts[i]).in_memory().len()
                <= self.memory_limit
        &&& match self.child {
            Some(child) => child.within_memory(),
            None => true,
        }
    }

    /// What a parser may keep of a stream between two chunks: the beginning of a
    /// delimiter, or a header section that is not complete, with the beginning of the
    /// empty line that ends it.
    pub open spec fn keeping_limit(self) -> int {
        let delimiter = self.delimiter().len() as int;
        let header = self.header_limit + 3;
        if delimiter >= header {
            delimiter
        } else {
            header
        }
    }

    /// The parser keeps no more than it may, and so do those at work inside it. One
    /// that is done, inside another, keeps what it has to hand on.
    pub open spec fn keeps_little(self) -> bool
        decreases self,
    {
        &&& self.buffer.len() <= self.keeping_limit() || (self.is_inner && self.state is Done)
        &&& match self.child {
            Some(child) => child.keeps_little(),
            None => true,
        }
    }

    /// The limits and the boundary are the same, and so is whether the parser is at
    /// work inside another.
    pub open spec fn configured_as(self, other: ParserView<F>) -> bool {
        &&& self.header_limit == other.header_limit
        &&& self.memory_limit == other.memory_limit
        &&& self.file_limit == other.file_limit
        &&& self.boundary == other.boundary
        &&& self.is_inner == other.is_inner
    }

    /// The parts parsed begin with those of `other`.
    pub open spec fn adds_to_parts_of(self, other: ParserView<F>) -> bool {
        &&& other.parts.len() <= self.parts.len()
        &&& self.parts.subrange(0, other.parts.len() as int) == other.parts
    }

    /// How much is left to do for a parser that waits.
    pub open spec fn work_left(self) -> int
        decreases self,
    {
        match self.child {
            Some(child) => child.work_left(),
            None => match self.pending {
                Some(pending) => 2 * (pending.data.len() - pending.next) + (
                if pending.waiting is Measuring {
                    1int
                } else {
                    0int
                }),
                None => 0,
            },
        }
    }

    /// The parser reads data itself.
    pub(crate) open spec fn at_rest(self) -> bool {
        &&& self.consistent()
        &&& self.child is None
        &&& self.pending is None
        &&& self.buffer.len() == 0
    }

    /// The parser that is at work: this one, or the one inside all others.
    pub open spec fn innermost(self) -> ParserView<F>
        decreases self,
    {
        match self.child {
            Some(child) => child.innermost(),
            None => self,
        }
    }

    /// Where the parser at work is when a call has failed with this error, and what holds
    /// of its boundary and of its part.
    pub open spec fn blames(self, error: MultiPartParserError) -> bool {
        let at = self.innermost();
        match error {
            MultiPartParserError::IOError(_) => at.state is Body,
            MultiPartParserError::UnexpectedDataAtEndOfStream => at.state is Done,
            MultiPartParserError::InvalidCharacterInBoundary => at.state is Start
                && !is_valid_boundary(at.boundary),
            MultiPartParserError::MissingInitialBoundary => at.state is Start
                && is_valid_boundary(at.boundary),
            MultiPartParserError::MalformedMultiPartBoundary => at.state is AfterBoundary,
            MultiPartParserError::MaxHeaderLimitExceeded => at.state is Header,
            MultiPartParserError::MaxFileSizeExceededError => at.state is Body,
            MultiPartParserError::MaliciousPart => at.state is Header || (at.state is Body
                && at.part.is_nested() && at.part.inner_boundary() is None),
            MultiPartParserError::UnfinishedPart => false,
        }
    }

    /// What every call keeps: the result of one on this parser.
    pub open spec fn leads_to(self, result: (ParserView<F>, Outcome<F>)) -> bool {
        let (after, outcome) = result;
        &&& after.consistent()
        &&& after.is_waiting() == (outcome is Request)
        &&& after.awaits_size() == (outcome matches Outcome::Request(request)
            && request is Measure)
        &&& after.configured_as(self)
        &&& after.adds_to_parts_of(self)
        &&& self.within_memory() ==> after.within_memory()
        &&& self.keeps_little() ==> after.keeps_little()
        &&& outcome matches Outcome::Request(RequestView::Create(contents)) ==> {
            &&& contents.len() <= self.file_limit
            &&& contents.len() > self.memory_limit || after.innermost().part.is_file_part()
        }
        &&& outcome matches Outcome::Failure(error) ==> after.blames(error)
    }
}

/// What a call ends in when its requests are answered with `replies`, one after the other.
pub open spec fn talk<F>(
    parser: ParserView<F>,
    outcome: Outcome<F>,
    replies: Seq<FileReply<F>>,
) -> (ParserView<F>, Outcome<F>)
    decreases replies.len(),
{
    if outcome is Request && replies.len() > 0 {
        let (after, next) = parser.answered(replies[0]);
        talk(after, next, replies.drop_first())
    } else {
        (parser, outcome)
    }
}

/// The replies are as many as the parser asks for, and of the kinds that it asks for.
pub open spec fn is_talk<F>(
    parser: ParserView<F>,
    outcome: Outcome<F>,
    replies: Seq<FileReply<F>>,
) -> bool
    decreases replies.len(),
{
    if outcome is Request {
        &&& replies.len() > 0
        &&& parser.accepts(Call::Answer(replies[0]))
        &&& is_talk(
            parser.answered(replies[0]).0,
            parser.answered(replies[0]).1,
            replies.drop_first(),
        )
    } else {
        replies.len() == 0
    }
}

/// What a call may end in that has no answer to go by: it neither appends to a file nor
/// fails for an error of the operating system.
pub open spec fn comes_of_reading<F>(outcome: Outcome<F>) -> bool {
    &&& !(outcome matches Outcome::Request(RequestView::Append(_, _)))
    &&& !(outcome matches Outcome::Failure(MultiPartParserError::IOError(_)))
}

/// The data open with the end of a line.
pub open spec fn opens_with_line_end(data: Seq<u8>) -> bool {
    data.len() >= 2 && data[0] == 13 && data[1] == 10
}

/// What a chunk keeps.
#[verifier::rlimit(40)]
pub proof fn lemma_feed<F>(p: ParserView<F>, chunk: Seq<u8>)
    requires
        p.consistent(),
        !p.is_waiting(),
    ensures
        p.leads_to(p.feed(chunk)),
        comes_of_reading(p.feed(chunk).1),
        p.child is None && !(p.state is Done) && p.feed(chunk).0.state is Done ==> p.feed(
            chunk,
        ).0.buffer.len() + 2 <= p.buffer.len() + chunk.len(),
        p.feed(chunk).1 is Failure ==> (p.feed(chunk).0.state is Done) == (p.state is Done),
        p.state is Start && p.child is None && p.buffer.len() == 0 && p.feed(chunk).1 is Request
            ==> p.feed(chunk).0.work_left() < 2 * chunk.len(),
    decreases
            p.depth(),
            p.buffer.len() + chunk.len(),
            (if p.state is Start {
                1int
            } else {
                7int
            }),
{
    if p.state is Done {
        assert(p.parts.subrange(0, p.parts.len() as int) =~= p.parts);
    } else {
        match p.child {
            None => {
                let free = ParserView { buffer: Seq::<u8>::empty(), ..p };
                lemma_run(free, p.buffer + chunk, 0);
            },
            Some(child) => {
                lemma_feed(*child, chunk);
                let (fed, outcome) = child.feed(chunk);
                lemma_after_inner(p, *child, fed, outcome);
            },
        }
    }
}

/// What going on behind an inner parser keeps.
pub(crate) proof fn lemma_behind_inner<F>(p: ParserView<F>, child: ParserView<F>)
    requires
        p.consistent(),
        p.part.headers is Some,
        p.pending is None,
        p.buffer.len() == 0,
        child.memory_limit == p.memory_limit,
    ensures
        p.behind_inner(child).at_rest(),
        p.behind_inner(child).configured_as(p),
        p.behind_inner(child).adds_to_parts_of(p),
        p.within_memory() && child.within_memory() ==> p.behind_inner(child).within_memory(),
{
    let behind = p.behind_inner(child);
    assert(behind.parts.subrange(0, p.parts.len() as int) =~= p.parts);
    assert forall|i: int|
        p.within_memory() && child.within_memory() && 0 <= i < behind.parts.len() implies (
    #[trigger] behind.parts[i]).in_memory().len() <= behind.memory_limit by {
        if i < p.parts.len() {
            assert(behind.parts[i] == p.parts[i]);
        } else {
            assert(behind.parts[i] == child.parts[i - p.parts.len()]);
        }
    }
}

/// What a call of the parser inside keeps.
proof fn lemma_after_inner<F>(
    p: ParserView<F>,
    child: ParserView<F>,
    fed: ParserView<F>,
    outcome: Outcome<F>,
)
    requires
        p.consistent(),
        p.child == Some(Box::new(child)),
        child.leads_to((fed, outcome)),
        outcome is Failure || outcome is Request ==> !(fed.state is Done),
    ensures
        p.leads_to(p.after_inner(fed, outcome)),
        outcome is Complete && fed.state is Done ==> {
            let result = p.after_inner(fed, outcome);
            &&& comes_of_reading(result.1)
            &&& result.1 is Request ==> result.0.work_left() < 2 * fed.buffer.len()
            &&& result.0.state is Done ==> result.0.buffer.len() + 2 <= fed.buffer.len()
            &&& result.1 is Failure ==> !(result.0.state is Done)
        },
    decreases 0nat, fed.buffer.len(), 8int,
{
    if outcome is Complete && fed.state is Done {
        let behind = p.behind_inner(fed);
        lemma_behind_inner(p, fed);
        lemma_run(behind, fed.buffer, 0);
        let after = behind.run(fed.buffer, 0).0;
        assert(after.parts.subrange(0, behind.parts.len() as int).subrange(
            0,
            p.parts.len() as int,
        ) =~= after.parts.subrange(0, p.parts.len() as int));
    } else {
        assert(p.parts.subrange(0, p.parts.len() as int) =~= p.parts);
    }
}

/// Ending a part at a boundary keeps what held.
pub(crate) proof fn lemma_closing<F>(p: ParserView<F>)
    requires
        p.at_rest(),
    ensures
        p.at_boundary().at_rest(),
        p.at_boundary().adds_to_parts_of(p),
        p.within_memory() ==> p.at_boundary().within_memory(),
{
    let after = p.at_boundary();
    assert(after.parts.subrange(0, p.parts.len() as int) =~= p.parts);
    assert forall|i: int| p.within_memory() && 0 <= i < after.parts.len() implies (
    #[trigger] after.parts[i]).in_memory().len() <= after.memory_limit by {
        if i < p.parts.len() {
            assert(after.parts[i] == p.parts[i]);
        } else {
            assert(after.parts[i] == p.part);
        }
    }
}

/// What reading keeps.
#[verifier::rlimit(40)]
pub(crate) proof fn lemma_run<F>(p: ParserView<F>, data: Seq<u8>, index: int)
    requires
        p.at_rest(),
        0 <= index <= data.len(),
    ensures
        p.leads_to(p.run(data, index)),
        comes_of_reading(p.run(data, index).1),
        p.run(data, index).1 is Request ==> p.run(data, index).0.work_left() <= 2 * (data.len()
            - index) + (if p.state is Body {
            1int
        } else {
            -1int
        }),
        !(p.state is Done) && p.run(data, index).0.state is Done ==> p.run(
            data,
            index,
        ).0.buffer.len() + 2 <= data.len() - index,
        !(p.state is Done) && p.run(data, index).1 is Failure ==> !(p.run(
            data,
            index,
        ).0.state is Done),
    decreases
            0nat,
            data.len() - index,
            (if p.state is Start {
                0int
            } else {
                6int
            }),
{
    assert(p.parts.subrange(0, p.parts.len() as int) =~= p.parts);
    match p.state {
        MultiPartParserState::Done => {},
        MultiPartParserState::Start => {
            if is_valid_boundary(p.boundary) && occurs_at(data, p.opening(), index) {
                lemma_run(
                    p.in_state(MultiPartParserState::AfterBoundary),
                    data,
                    index + p.opening().len(),
                );
            }
        },
        MultiPartParserState::AfterBoundary => {
            if data.len() - index >= 2 && data[index] == 13 && data[index + 1] == 10 {
                lemma_run(p.in_state(MultiPartParserState::Header), data, index + 2);
            }
        },
        MultiPartParserState::Header => {
            lemma_found(data, double_newline(), index);
            lemma_tail_from(data, index, double_newline());
            if data.len() - index >= 2 && data[index] == 13 && data[index + 1] == 10 {
                lemma_run(p.headed(Seq::empty()), data, index + 2);
            } else {
                match first_occurrence(data, double_newline(), index) {
                    None => {
                        lemma_header_tail(data, index);
                    },
                    Some(end) => {
                        lemma_run(p.headed(data.subrange(index, end)), data, end + 4);
                    },
                }
            }
        },
        MultiPartParserState::Body => {
            if p.part.is_nested() {
                lemma_run_nested(p, data, index);
            } else {
                lemma_search(p, data, index);
            }
        },
        MultiPartParserState::Epilogue => {
            lemma_found(data, p.delimiter(), index);
            lemma_tail_from(data, index, p.delimiter());
            match first_occurrence(data, p.delimiter(), index) {
                None => {},
                Some(at) => {
                    let over = p.at_boundary();
                    lemma_closing(p);
                    lemma_run(over, data, at + p.delimiter().len());
                    let after = over.run(data, at + p.delimiter().len()).0;
                    assert(after.parts.subrange(0, over.parts.len() as int).subrange(
                        0,
                        p.parts.len() as int,
                    ) =~= after.parts.subrange(0, p.parts.len() as int));
                },
            }
        },
    }
}

/// What reading a body that is made up of parts keeps.
#[verifier::rlimit(40)]
proof fn lemma_run_nested<F>(p: ParserView<F>, data: Seq<u8>, index: int)
    requires
        p.at_rest(),
        p.state is Body,
        p.part.is_nested(),
        0 <= index <= data.len(),
    ensures
        p.leads_to(p.run(data, index)),
        comes_of_reading(p.run(data, index).1),
        p.run(data, index).1 is Request ==> p.run(data, index).0.work_left() <= 2 * (data.len()
            - index) + 1,
        p.run(data, index).0.state is Done ==> p.run(data, index).0.buffer.len() + 2 <= data.len()
            - index,
        p.run(data, index).1 is Failure ==> !(p.run(data, index).0.state is Done),
    decreases 0nat, data.len() - index, 5int,
{
    assert(p.parts.subrange(0, p.parts.len() as int) =~= p.parts);
    if let Some(boundary) = p.part.inner_boundary() {
        let inner = p.inner_parser(encode_utf8(boundary));
        let rest = data.subrange(index, data.len() as int);
        lemma_feed(inner, rest);
        let (fed, outcome) = inner.feed(rest);
        if outcome is Complete && fed.state is Done {
            let behind = p.behind_inner(fed);
            let from = data.len() - fed.buffer.len();
            lemma_behind_inner(p, fed);
            lemma_run(behind, data, from);
            let after = behind.run(data, from).0;
            assert(p.run(data, index) == behind.run(data, from));
            assert(after.parts.subrange(0, behind.parts.len() as int).subrange(
                0,
                p.parts.len() as int,
            ) =~= after.parts.subrange(0, p.parts.len() as int));
        }
    }
}

/// What reading the body of a part keeps.
#[verifier::rlimit(40)]
proof fn lemma_search<F>(p: ParserView<F>, data: Seq<u8>, index: int)
    requires
        p.at_rest(),
        p.state is Body,
        0 <= index <= data.len(),
    ensures
        p.leads_to(p.search_boundary(data, index)),
        comes_of_reading(p.search_boundary(data, index).1),
        p.search_boundary(data, index).1 is Request ==> p.search_boundary(
            data,
            index,
        ).0.work_left() <= 2 * (data.len() - index) + 1,
        p.search_boundary(data, index).0.state is Done ==> p.search_boundary(
            data,
            index,
        ).0.buffer.len() + 2 <= data.len() - index,
        p.search_boundary(data, index).1 is Failure ==> !(p.search_boundary(
            data,
            index,
        ).0.state is Done),
    decreases 0nat, data.len() - index, 5int,
{
    assert(p.parts.subrange(0, p.parts.len() as int) =~= p.parts);
    lemma_found(data, p.delimiter(), index);
    lemma_tail_from(data, index, p.delimiter());
    if data.len() - index >= p.boundary.len() {
        match first_occurrence(data, p.delimiter(), index) {
            Some(at) => {
                lemma_deliver(p, data.subrange(index, at), data, at + p.delimiter().len(), true);
            },
            None => {
                let at = tail_from(data, index, p.delimiter());
                lemma_deliver(p, data.subrange(index, at), data, at, false);
            },
        }
    }
}

/// What handing bytes to a part keeps.
#[verifier::rlimit(40)]
pub(crate) proof fn lemma_deliver<F>(
    p: ParserView<F>,
    bytes: Seq<u8>,
    data: Seq<u8>,
    next: int,
    at_boundary: bool,
)
    requires
        p.at_rest(),
        p.state is Body,
        0 <= next <= data.len(),
        !at_boundary ==> data.len() - next <= p.delimiter().len(),
    ensures
        p.leads_to(p.deliver(bytes, data, next, at_boundary)),
        comes_of_reading(p.deliver(bytes, data, next, at_boundary).1),
        p.deliver(bytes, data, next, at_boundary).1 is Request ==> p.deliver(
            bytes,
            data,
            next,
            at_boundary,
        ).0.work_left() <= 2 * (data.len() - next) + 1,
        p.deliver(bytes, data, next, at_boundary).0.state is Done ==> p.deliver(
            bytes,
            data,
            next,
            at_boundary,
        ).0.buffer.len() + 2 <= data.len() - next,
        p.deliver(bytes, data, next, at_boundary).1 is Failure ==> !(p.deliver(
            bytes,
            data,
            next,
            at_boundary,
        ).0.state is Done),
    decreases
            0nat,
            (if at_boundary {
                data.len() - next + 1
            } else {
                0
            }),
            4int,
{
    assert(p.parts.subrange(0, p.parts.len() as int) =~= p.parts);
    if bytes.len() == 0 {
        lemma_proceed(p, data, next, at_boundary);
    } else {
        let (part, written) = p.part.written(bytes);
        let after = ParserView { part, ..p };
        if written is Stored {
            lemma_proceed(after, data, next, at_boundary);
        }
    }
}

/// What going on keeps.
#[verifier::rlimit(40)]
pub(crate) proof fn lemma_proceed<F>(p: ParserView<F>, data: Seq<u8>, next: int, at_boundary: bool)
    requires
        p.at_rest(),
        p.state is Body,
        0 <= next <= data.len(),
        !at_boundary ==> data.len() - next <= p.delimiter().len(),
    ensures
        p.leads_to(p.proceed(data, next, at_boundary)),
        comes_of_reading(p.proceed(data, next, at_boundary).1),
        p.proceed(data, next, at_boundary).1 is Request ==> p.proceed(
            data,
            next,
            at_boundary,
        ).0.work_left() < 2 * (data.len() - next),
        p.proceed(data, next, at_boundary).0.state is Done ==> p.proceed(
            data,
            next,
            at_boundary,
        ).0.buffer.len() + 2 <= data.len() - next,
        p.proceed(data, next, at_boundary).1 is Failure ==> !(p.proceed(
            data,
            next,
            at_boundary,
        ).0.state is Done),
    decreases
            0nat,
            (if at_boundary {
                data.len() - next + 1
            } else {
                0
            }),
            3int,
{
    assert(p.parts.subrange(0, p.parts.len() as int) =~= p.parts);
    if at_boundary {
        let over = p.at_boundary();
        lemma_closing(p);
        lemma_run(over, data, next);
        let after = over.run(data, next).0;
        assert(after.parts.subrange(0, p.parts.len() as int) =~= p.parts) by {
            assert(after.parts.subrange(0, over.parts.len() as int).subrange(
                0,
                p.parts.len() as int,
            ) =~= after.parts.subrange(0, p.parts.len() as int));
        }
    }
}

/// What is left to do is never negative.
proof fn lemma_work_left<F>(p: ParserView<F>)
    requires
        p.consistent(),
    ensures
        p.work_left() >= 0,
    decreases p,
{
    if let Some(child) = p.child {
        lemma_work_left(*child);
    }
}

/// What an answer keeps.
#[verifier::rlimit(40)]
pub proof fn lemma_answered<F>(p: ParserView<F>, reply: FileReply<F>)
    requires
        p.consistent(),
        p.is_waiting(),
        p.awaits_size() == (reply is Measured),
    ensures
        p.leads_to(p.answered(reply)),
        p.answered(reply).1 is Request ==> 0 <= p.answered(reply).0.work_left() < p.work_left(),
        p.answered(reply).1 matches Outcome::Request(RequestView::Append(file, bytes))
            ==> reply matches FileReply::Measured(Ok((measured, size))) && file == measured && size
            + bytes.len() <= p.file_limit,
        p.answered(reply).0.state is Done ==> 2 * p.answered(reply).0.buffer.len() < p.work_left(),
        p.answered(reply).1 matches Outcome::Failure(MultiPartParserError::IOError(error)) ==> reply
            == FileReply::<F>::Stored(Err(error)) || reply == FileReply::<F>::Measured(Err(error)),
        p.answered(reply).1 is Failure ==> !(p.answered(reply).0.state is Done),
    decreases p,
{
    assert(p.parts.subrange(0, p.parts.len() as int) =~= p.parts);
    match p.child {
        Some(child) => {
            lemma_answered(*child, reply);
            let (after, outcome) = child.answered(reply);
            lemma_after_inner(p, *child, after, outcome);
        },
        None => {
            let pending = p.pending->0;
            if let FileReply::Stored(Ok(file)) = reply {
                let free = ParserView { part: p.part.with_file(file), pending: None, ..p };
                lemma_proceed(free, pending.data, pending.next, pending.at_boundary);
            }
        },
    }
    lemma_work_left(p.answered(reply).0);
}

/// What every call keeps.
proof fn lemma_called<F>(p: ParserView<F>, call: Call<F>)
    requires
        p.consistent(),
        p.accepts(call),
    ensures
        p.leads_to(p.called(call)),
{
    match call {
        Call::Chunk(chunk) => lemma_feed(p, chunk),
        Call::Answer(reply) => lemma_answered(p, reply),
    }
}

/// What all calls keep.
proof fn lemma_called_all<F>(p: ParserView<F>, calls: Seq<Call<F>>)
    requires
        p.consistent(),
        p.accepts_all(calls),
    ensures
        p.after_all(calls).consistent(),
        p.after_all(calls).configured_as(p),
        p.after_all(calls).adds_to_parts_of(p),
        p.within_memory() ==> p.after_all(calls).within_memory(),
        p.keeps_little() ==> p.after_all(calls).keeps_little(),
    decreases calls.len(),
{
    if calls.len() == 0 {
        assert(p.parts.subrange(0, p.parts.len() as int) =~= p.parts);
    } else {
        let next = p.called(calls[0]).0;
        lemma_called(p, calls[0]);
        lemma_called_all(next, calls.drop_first());
        let after = p.after_all(calls);
        assert(after.parts.subrange(0, next.parts.len() as int).subrange(
            0,
            p.parts.len() as int,
        ) =~= after.parts.subrange(0, p.parts.len() as int));
    }
}

/// Whatever a parser has been fed and answered, it holds no more of any part in
/// memory than `memory_limit` bytes.
pub proof fn law_memory_is_bounded<F>(
    header_limit: u16,
    memory_limit: u32,
    file_limit: u32,
    boundary: Seq<u8>,
    calls: Seq<Call<F>>,
)
    requires
        ParserView::<F>::fresh(header_limit, memory_limit, file_limit, boundary).accepts_all(calls),
    ensures
        ({
            let after = ParserView::<F>::fresh(
                header_limit,
                memory_limit,
                file_limit,
                boundary,
            ).after_all(calls);
            after.memory_limit == memory_limit && after.within_memory()
        }),
{
    let fresh = ParserView::<F>::fresh(header_limit, memory_limit, file_limit, boundary);
    lemma_called_all(fresh, calls);
}

/// Whatever a parser has been fed and answered, it keeps no more of the stream for
/// the next chunk than the beginning of a delimiter or of a header section, and so do
/// the parsers at work inside it.
pub proof fn law_little_is_kept<F>(
    header_limit: u16,
    memory_limit: u32,
    file_limit: u32,
    boundary: Seq<u8>,
    calls: Seq<Call<F>>,
)
    requires
        ParserView::<F>::fresh(header_limit, memory_limit, file_limit, boundary).accepts_all(calls),
    ensures
        ({
            let after = ParserView::<F>::fresh(
                header_limit,
                memory_limit,
                file_limit,
                boundary,
            ).after_all(calls);
            &&& after.keeps_little()
            &&& after.buffer.len() <= boundary.len() + 4 || after.buffer.len() <= header_limit + 3
        }),
{
    let fresh = ParserView::<F>::fresh(header_limit, memory_limit, file_limit, boundary);
    lemma_called_all(fresh, calls);
}

/// No call changes the limits or the boundary, and none takes away or changes a part
/// that is parsed: new parts come behind the others.
pub proof fn law_parts_only_come_behind<F>(p: ParserView<F>, calls: Seq<Call<F>>)
    requires
        p.consistent(),
        p.accepts_all(calls),
    ensures
        p.after_all(calls).configured_as(p),
        p.after_all(calls).adds_to_parts_of(p),
{
    lemma_called_all(p, calls);
}

/// No file is made larger than `file_limit`: neither when it is created nor when
/// something is appended to it, which is the file whose size was asked for before.
pub proof fn law_files_keep_within_the_limit<F>(p: ParserView<F>, call: Call<F>)
    requires
        p.consistent(),
        p.accepts(call),
    ensures
        match p.called(call).1 {
            Outcome::Request(RequestView::Create(contents)) => contents.len() <= p.file_limit,
            Outcome::Request(RequestView::Append(file, bytes)) => call matches Call::Answer(
                FileReply::Measured(Ok((measured, size))),
            ) && file == measured && size + bytes.len() <= p.file_limit,
            _ => true,
        },
{
    match call {
        Call::Chunk(chunk) => lemma_feed(p, chunk),
        Call::Answer(reply) => lemma_answered(p, reply),
    }
}

/// The parser waits for an answer after a call that ended in a request, for the
/// size of a file after one that asked for it, and for nothing after any other.
pub proof fn law_requests_are_awaited<F>(p: ParserView<F>, call: Call<F>)
    requires
        p.consistent(),
        p.accepts(call),
    ensures
        p.called(call).0.consistent(),
        p.called(call).0.is_waiting() == (p.called(call).1 is Request),
        p.called(call).0.awaits_size() == (p.called(call).1 matches Outcome::Request(request)
            && request is Measure),
{
    lemma_called(p, call);
}

/// Answering requests comes to an end: each that follows an answer leaves less to do.
pub proof fn law_requests_come_to_an_end<F>(p: ParserView<F>, reply: FileReply<F>)
    requires
        p.consistent(),
        p.accepts(Call::Answer(reply)),
        p.answered(reply).1 is Request,
    ensures
        0 <= p.answered(reply).0.work_left() < p.work_left(),
{
    lemma_answered(p, reply);
}

/// A body that does not begin with its opening is refused as soon as there is room for
/// the opening.
pub proof fn law_missing_openings_are_refused<F>(
    header_limit: u16,
    memory_limit: u32,
    file_limit: u32,
    boundary: Seq<u8>,
    chunk: Seq<u8>,
)
    requires
        is_valid_boundary(boundary),
        chunk.len() >= boundary.len() + 2,
        !occurs_at(chunk, seq![45u8, 45u8] + boundary, 0),
    ensures
        ParserView::<F>::fresh(header_limit, memory_limit, file_limit, boundary).feed(chunk).1
            == Outcome::<F>::Failure(MultiPartParserError::MissingInitialBoundary),
{
    let fresh = ParserView::<F>::fresh(header_limit, memory_limit, file_limit, boundary);
    assert(fresh.buffer + chunk =~= chunk);
    assert(fresh.feed(chunk) == fresh.run(chunk, 0));
}

/// Whatever follows a boundary and is neither a line end nor the mark of the last
/// boundary is refused.
pub proof fn law_malformed_boundaries_are_refused<F>(p: ParserView<F>, chunk: Seq<u8>)
    requires
        p.child is None,
        p.state is AfterBoundary,
        (p.buffer + chunk).len() >= 2,
        !((p.buffer + chunk)[0] == 45 && (p.buffer + chunk)[1] == 45),
        !((p.buffer + chunk)[0] == 13 && (p.buffer + chunk)[1] == 10),
    ensures
        p.feed(chunk).1 == Outcome::<F>::Failure(
            MultiPartParserError::MalformedMultiPartBoundary,
        ),
{
    let free = ParserView { buffer: Seq::<u8>::empty(), ..p };
    assert(p.feed(chunk) == free.run(p.buffer + chunk, 0));
}

/// A header section that is longer than it may be is refused, whether its end has
/// come or not: what has come of its end is not counted.
pub proof fn law_long_headers_are_refused<F>(p: ParserView<F>, chunk: Seq<u8>)
    requires
        p.child is None,
        p.state is Header,
        !opens_with_line_end(p.buffer + chunk),
        (p.buffer + chunk).len() > p.header_limit,
        forall|i: int|
            0 <= i <= p.header_limit ==> !occurs_at(p.buffer + chunk, double_newline(), i),
        forall|i: int|
            0 <= i <= p.header_limit ==> !is_partial_tail(p.buffer + chunk, double_newline(), i),
    ensures
        p.feed(chunk).1 == Outcome::<F>::Failure(MultiPartParserError::MaxHeaderLimitExceeded),
{
    let data = p.buffer + chunk;
    let free = ParserView { buffer: Seq::<u8>::empty(), ..p };
    lemma_found(data, double_newline(), 0);
    assert(data.subrange(0, data.len() as int) =~= data);
    if let Some(at) = partial_tail(data, double_newline()) {
        assert(is_longest_partial_tail(data, double_newline(), at));
    }
    assert(p.feed(chunk) == free.run(data, 0));
}

/// A header section within the limit is not refused for its size, wherever a chunk
/// ends in it or in the empty line behind it.
pub proof fn law_headers_within_the_limit_are_awaited<F>(
    p: ParserView<F>,
    section: Seq<u8>,
    chunk: Seq<u8>,
    missing: Seq<u8>,
)
    requires
        p.child is None,
        p.state is Header,
        0 < section.len() <= p.header_limit,
        !opens_with_line_end(section + double_newline()),
        is_first_occurrence(
            section + double_newline(),
            double_newline(),
            0,
            section.len() as int,
        ),
        p.buffer + chunk + missing == section + double_newline(),
        missing.len() > 0,
    ensures
        p.feed(chunk) == (
            (ParserView { buffer: p.buffer + chunk, ..p }),
            Outcome::<F>::Complete,
        ),
{
    let data = p.buffer + chunk;
    let line = double_newline();
    let all = section + line;
    let free = ParserView { buffer: Seq::<u8>::empty(), ..p };
    assert forall|i: int| 0 <= i < data.len() implies data[i] == all[i] by {
        assert((data + missing)[i] == data[i]);
    }
    assert forall|i: int| 0 <= i implies !occurs_at(data, line, i) by {
        if occurs_at(data, line, i) {
            assert(all.subrange(i, i + 4) =~= data.subrange(i, i + 4));
            assert(occurs_at(all, line, i));
        }
    }
    lemma_no_occurrence(data, line, 0);
    lemma_tail_in_line(data, 0, section.len() as int);
    assert(data.subrange(0, data.len() as int) =~= data);
    assert(p.feed(chunk) == free.run(data, 0));
}

/// A part without headers is one all the same: its body begins behind the empty line
/// that stands in their place.
pub proof fn law_headers_may_be_missing<F>(p: ParserView<F>, chunk: Seq<u8>)
    requires
        p.child is None,
        p.state is Header,
        opens_with_line_end(p.buffer + chunk),
    ensures
        p.feed(chunk) == (ParserView { buffer: Seq::<u8>::empty(), ..p }).headed(
            Seq::empty(),
        ).run(p.buffer + chunk, 2),
{
    let free = ParserView { buffer: Seq::<u8>::empty(), ..p };
    assert(p.feed(chunk) == free.run(p.buffer + chunk, 0));
}

/// A boundary that holds a character that ends a line is refused, whatever comes.
pub proof fn law_invalid_boundaries_are_refused<F>(
    header_limit: u16,
    memory_limit: u32,
    file_limit: u32,
    boundary: Seq<u8>,
    chunk: Seq<u8>,
)
    requires
        !is_valid_boundary(boundary),
    ensures
        ParserView::<F>::fresh(header_limit, memory_limit, file_limit, boundary).feed(chunk) == (
            ParserView::<F>::fresh(header_limit, memory_limit, file_limit, boundary),
            Outcome::<F>::Failure(MultiPartParserError::InvalidCharacterInBoundary),
        ),
{
    let fresh = ParserView::<F>::fresh(header_limit, memory_limit, file_limit, boundary);
    assert(ParserView { buffer: Seq::<u8>::empty(), ..fresh } == fresh);
    assert(fresh.feed(chunk) == fresh.run(fresh.buffer + chunk, 0));
}

/// A part is refused whose header section is no UTF-8, or says that the part is made
/// up of parts and names no boundary between them.
pub proof fn law_malicious_parts_are_refused<F>(p: ParserView<F>, chunk: Seq<u8>, end: int)
    requires
        p.child is None,
        p.state is Header,
        is_first_occurrence(p.buffer + chunk, double_newline(), 0, end),
        end <= p.header_limit,
        !opens_with_line_end(p.buffer + chunk),
        ({
            let section = (p.buffer + chunk).subrange(0, end);
            let part = p.part.with_headers(section);
            !valid_utf8(section) || (part.is_nested() && part.inner_boundary() is None)
        }),
    ensures
        p.feed(chunk).1 == Outcome::<F>::Failure(MultiPartParserError::MaliciousPart),
{
    let free = ParserView { buffer: Seq::<u8>::empty(), ..p };
    let data = p.buffer + chunk;
    let section = data.subrange(0, end);
    let next = free.headed(section);
    lemma_first_occurrence(data, double_newline(), 0, end);
    assert(p.feed(chunk) == free.run(data, 0));
    if valid_utf8(section) {
        assert(free.run(data, 0) == next.run(data, end + 4));
    }
}

/// A parser that is done refuses every chunk and is not changed by it.
pub proof fn law_nothing_follows_the_end<F>(p: ParserView<F>, chunk: Seq<u8>)
    requires
        p.state is Done,
    ensures
        p.feed(chunk) == (
            p,
            Outcome::<F>::Failure(MultiPartParserError::UnexpectedDataAtEndOfStream),
        ),
{
}

/// The parts that a part is made up of come out before it. As soon as they are all
/// parsed, the parser goes on behind them, in what is left of the same chunk.
pub proof fn law_inner_parts_come_first<F>(
    p: ParserView<F>,
    child: ParserView<F>,
    chunk: Seq<u8>,
)
    requires
        p.consistent(),
        p.child == Some(Box::new(child)),
        !child.is_waiting(),
        child.feed(chunk).1 is Complete,
        child.feed(chunk).0.state is Done,
    ensures
        ({
            let done = child.feed(chunk).0;
            let behind = p.behind_inner(done);
            &&& p.feed(chunk) == behind.run(done.buffer, 0)
            &&& p.feed(chunk).0.adds_to_parts_of(behind)
            &&& behind.parts == p.parts + done.parts
            &&& behind.part == p.part
        }),
{
    let done = child.feed(chunk).0;
    lemma_feed(child, chunk);
    assert(p.feed(chunk) == p.after_inner(done, child.feed(chunk).1));
    lemma_behind_inner(p, done);
    lemma_run(p.behind_inner(done), done.buffer, 0);
}

} // verus!
