//! What the parser does, as a mathematical machine: its states and how each chunk
//! moves it from one to the next.

use crate::multipart::{FileReply, PartView, RequestView, Written};
use crate::parser::MultiPartParserError;
use crate::search::{
    double_newline, first_occurrence, is_first_occurrence, lemma_tail_from, occurs_at, tail_from,
};
use vstd::prelude::*;
use vstd::utf8::{encode_utf8, valid_utf8};

verus! {

/// Where in the body the parser is.
#[derive(Debug, Clone, Copy, PartialEq, Eq, Structural)]
pub enum MultiPartParserState {
    /// At the start of the body.
    Start,
    /// Behind the last boundary.
    Done,
    /// Right behind a boundary.
    AfterBoundary,
    /// Inside the body of a part.
    Body,
    /// Inside the header section of a part.
    Header,
    /// Behind the parts that the current part is made up of.
    Epilogue,
}

/// What a call of the parser ends in.
#[verifier::ext_equal]
pub enum Outcome<F> {
    /// The chunk is taken in.
    Complete,
    /// The parser waits for an answer to a request.
    Request(RequestView<F>),
    /// Parsing failed.
    Failure(MultiPartParserError),
}

/// What a parser waits for that has asked for something.
#[verifier::ext_equal]
pub enum WaitView {
    /// The bytes of the part have gone to a file.
    Storing,
    /// The size of the file of the part, which is to take these bytes.
    Measuring(Seq<u8>),
}

/// Where a parser that waits goes on.
#[verifier::ext_equal]
pub struct PendingView {
    /// What the parser was reading.
    pub data: Seq<u8>,
    /// The place in `data` from which it goes on.
    pub next: int,
    /// A boundary ended at that place; otherwise the rest of `data` is kept for
    /// the next chunk.
    pub at_boundary: bool,
    /// What it waits for.
    pub waiting: WaitView,
}

/// The state of a parser.
#[verifier::ext_equal]
pub struct ParserView<F> {
    /// The size that a header section may have.
    pub header_limit: u16,
    /// The size up to which a part is held in memory.
    pub memory_limit: u32,
    /// The size that a part may have in a file.
    pub file_limit: u32,
    /// The boundary between parts.
    pub boundary: Seq<u8>,
    /// The parser is at work inside another one.
    pub is_inner: bool,
    /// What was received and not parsed yet.
    pub buffer: Seq<u8>,
    /// The part being parsed.
    pub part: PartView<F>,
    /// Where in the body the parser is.
    pub state: MultiPartParserState,
    /// The parser of the parts that the current part is made up of.
    pub child: Option<Box<ParserView<F>>>,
    /// The parts parsed.
    pub parts: Seq<PartView<F>>,
    /// Where to go on, when what was asked for has come.
    pub pending: Option<PendingView>,
}

/// A first occurrence is what its definition says.
pub proof fn lemma_found(haystack: Seq<u8>, needle: Seq<u8>, start: int)
    ensures
        first_occurrence(haystack, needle, start) matches Some(at) ==> is_first_occurrence(
            haystack,
            needle,
            start,
            at,
        ),
{
}

/// The boundary holds no character that may not occur in one: none that ends a line.
pub open spec fn is_valid_boundary(boundary: Seq<u8>) -> bool {
    forall|i: int| 0 <= i < boundary.len() ==> boundary[i] != 13 && boundary[i] != 10
}

impl<F> ParserView<F> {
    /// A parser that has received nothing.
    pub open spec fn fresh(
        header_limit: u16,
        memory_limit: u32,
        file_limit: u32,
        boundary: Seq<u8>,
    ) -> ParserView<F> {
        ParserView {
            header_limit,
            memory_limit,
            file_limit,
            boundary,
            is_inner: false,
            buffer: Seq::empty(),
            part: PartView::empty(memory_limit, file_limit),
            state: MultiPartParserState::Start,
            child: None,
            parts: Seq::empty(),
            pending: None,
        }
    }

    /// What opens the body.
    pub open spec fn opening(self) -> Seq<u8> {
        seq![45u8, 45u8] + self.boundary
    }

    /// What ends the body of a part.
    pub open spec fn delimiter(self) -> Seq<u8> {
        seq![13u8, 10u8, 45u8, 45u8] + self.boundary
    }

    /// How many parsers are at work inside this one.
    pub open spec fn depth(self) -> nat
        decreases self,
    {
        match self.child {
            Some(child) => 1 + child.depth(),
            None => 0,
        }
    }

    /// The parser, or one at work inside it, waits for an answer.
    pub open spec fn is_waiting(self) -> bool
        decreases self,
    {
        match self.child {
            Some(child) => child.is_waiting(),
            None => self.pending is Some,
        }
    }

    /// The answer that the parser waits for is the size of a file.
    pub open spec fn awaits_size(self) -> bool
        decreases self,
    {
        match self.child {
            Some(child) => child.awaits_size(),
            None => self.pending is Some && (self.pending->0).waiting is Measuring,
        }
    }

    /// What holds of every parser. A parser in or behind the body of a part has the
    /// headers of that part. One that has another at work inside it is in the body of
    /// a part, and keeps nothing itself; the same limits hold inside, and the one
    /// inside is not done. One that waits is in the body of a part too, and all that
    /// it keeps is what it was reading, of which no more than a delimiter is left,
    /// unless it goes on at a boundary.
    pub open spec fn consistent(self) -> bool
        decreases self,
    {
        &&& self.part.memory_limit == self.memory_limit
        &&& self.part.file_limit == self.file_limit
        &&& self.state is Body || self.state is Epilogue ==> self.part.headers is Some
        &&& self.state is Done && !self.is_inner ==> self.buffer.len() == 0
        &&& match self.child {
            Some(child) => {
                &&& self.state is Body
                &&& self.pending is None
                &&& self.buffer.len() == 0
                &&& child.is_inner
                &&& !(child.state is Done)
                &&& child.header_limit == self.header_limit
                &&& child.memory_limit == self.memory_limit
                &&& child.file_limit == self.file_limit
                &&& child.consistent()
            },
            None => self.pending is Some ==> {
                &&& self.state is Body
                &&& self.buffer.len() == 0
                &&& 0 <= (self.pending->0).next <= (self.pending->0).data.len()
                &&& (self.pending->0).at_boundary || (self.pending->0).data.len() - (
                self.pending->0).next <= self.delimiter().len()
            },
        }
    }

    /// The parser keeps what `data` hold from `from` on.
    pub open spec fn keeping(self, data: Seq<u8>, from: int) -> ParserView<F> {
        ParserView { buffer: data.subrange(from, data.len() as int), ..self }
    }

    /// The parser in another state.
    pub open spec fn in_state(self, state: MultiPartParserState) -> ParserView<F> {
        ParserView { state, ..self }
    }

    /// The current part is over.
    pub open spec fn closing_part(self) -> ParserView<F> {
        ParserView {
            parts: self.parts.push(self.part),
            part: PartView::empty(self.memory_limit, self.file_limit),
            ..self
        }
    }

    /// A boundary ended, and the current part with it.
    pub open spec fn at_boundary(self) -> ParserView<F> {
        self.closing_part().in_state(MultiPartParserState::AfterBoundary)
    }

    /// A parser for the parts that the current part is made up of.
    pub open spec fn inner_parser(self, boundary: Seq<u8>) -> ParserView<F> {
        ParserView {
            is_inner: true,
            ..ParserView::fresh(self.header_limit, self.memory_limit, self.file_limit, boundary)
        }
    }

    /// The parser with another at work inside it.
    pub open spec fn around(self, child: ParserView<F>) -> ParserView<F> {
        ParserView { child: Some(Box::new(child)), ..self }
    }

    /// The parser when the one that was at work inside it is done: it takes the parts
    /// over.
    pub open spec fn behind_inner(self, child: ParserView<F>) -> ParserView<F> {
        ParserView {
            parts: self.parts + child.parts,
            child: None,
            state: MultiPartParserState::Epilogue,
            ..self
        }
    }

    /// The last boundary ended: what `data` hold from `from` on is none of the
    /// parser's. One that is at work inside another keeps it for that one.
    pub open spec fn at_end(self, data: Seq<u8>, from: int) -> ParserView<F> {
        (if self.is_inner {
            self.keeping(data, from)
        } else {
            self
        }).in_state(MultiPartParserState::Done)
    }

    /// What a chunk does to a parser that waits for nothing.
    pub open spec fn feed(self, chunk: Seq<u8>) -> (ParserView<F>, Outcome<F>)
        decreases
                self.depth(),
                self.buffer.len() + chunk.len(),
                (if self.state is Start {
                    1int
                } else {
                    7int
                }),
    {
        if self.state is Done {
            (self, Outcome::Failure(MultiPartParserError::UnexpectedDataAtEndOfStream))
        } else {
            match self.child {
                None => ParserView { buffer: Seq::empty(), ..self }.run(self.buffer + chunk, 0),
                Some(child) => {
                    let (fed, outcome) = child.feed(chunk);
                    self.after_inner(fed, outcome)
                },
            }
        }
    }

    /// What comes of a call of the parser at work inside this one: when that one is
    /// done, this one goes on with what it left.
    pub open spec fn after_inner(self, child: ParserView<F>, outcome: Outcome<F>) -> (
        ParserView<F>,
        Outcome<F>,
    )
        decreases 0nat, child.buffer.len(), 8int,
    {
        if outcome is Complete && child.state is Done {
            self.behind_inner(child).run(child.buffer, 0)
        } else {
            (self.around(child), outcome)
        }
    }

    /// Reads `data` from `index` on; what comes before is read already.
    pub open spec fn run(self, data: Seq<u8>, index: int) -> (ParserView<F>, Outcome<F>)
        decreases
                0nat,
                data.len() - index,
                (if self.state is Start {
                    0int
                } else {
                    6int
                }),
        when 0 <= index <= data.len()
    {
        let left = data.len() - index;
        match self.state {
            MultiPartParserState::Done => (self, Outcome::Complete),
            MultiPartParserState::Start => {
                if !is_valid_boundary(self.boundary) {
                    (self, Outcome::Failure(MultiPartParserError::InvalidCharacterInBoundary))
                } else if left < self.opening().len() {
                    (self.keeping(data, index), Outcome::Complete)
                } else if !occurs_at(data, self.opening(), index) {
                    (self, Outcome::Failure(MultiPartParserError::MissingInitialBoundary))
                } else {
                    self.in_state(MultiPartParserState::AfterBoundary).run(
                        data,
                        index + self.opening().len(),
                    )
                }
            },
            MultiPartParserState::AfterBoundary => {
                if left < 2 {
                    (self.keeping(data, index), Outcome::Complete)
                } else if data[index] == 45 && data[index + 1] == 45 {
                    (self.at_end(data, index + 2), Outcome::Complete)
                } else if data[index] == 13 && data[index + 1] == 10 {
                    self.in_state(MultiPartParserState::Header).run(data, index + 2)
                } else {
                    (self, Outcome::Failure(MultiPartParserError::MalformedMultiPartBoundary))
                }
            },
            MultiPartParserState::Header => {
                proof {
                    lemma_found(data, double_newline(), index);
                }
                if left >= 2 && data[index] == 13 && data[index + 1] == 10 {
                    self.headed(Seq::empty()).run(data, index + 2)
                } else {
                    match first_occurrence(data, double_newline(), index) {
                        None => {
                            if tail_from(data, index, double_newline()) - index
                                > self.header_limit {
                                (
                                    self,
                                    Outcome::Failure(MultiPartParserError::MaxHeaderLimitExceeded),
                                )
                            } else {
                                (self.keeping(data, index), Outcome::Complete)
                            }
                        },
                        Some(end) => {
                            let section = data.subrange(index, end);
                            if section.len() > self.header_limit {
                                (
                                    self,
                                    Outcome::Failure(MultiPartParserError::MaxHeaderLimitExceeded),
                                )
                            } else if !valid_utf8(section) {
                                (self, Outcome::Failure(MultiPartParserError::MaliciousPart))
                            } else {
                                self.headed(section).run(data, end + 4)
                            }
                        },
                    }
                }
            },
            MultiPartParserState::Body => {
                if self.part.is_nested() {
                    match self.part.inner_boundary() {
                        None => (self, Outcome::Failure(MultiPartParserError::MaliciousPart)),
                        Some(boundary) => {
                            let (fed, outcome) = self.inner_parser(encode_utf8(boundary)).feed(
                                data.subrange(index, data.len() as int),
                            );
                            if outcome is Complete && fed.state is Done && fed.buffer.len()
                                < left {
                                self.behind_inner(fed).run(data, data.len() - fed.buffer.len())
                            } else {
                                (self.around(fed), outcome)
                            }
                        },
                    }
                } else {
                    self.search_boundary(data, index)
                }
            },
            MultiPartParserState::Epilogue => {
                proof {
                    lemma_found(data, self.delimiter(), index);
                }
                match first_occurrence(data, self.delimiter(), index) {
                    Some(at) => self.at_boundary().run(data, at + self.delimiter().len()),
                    None => (
                        self.keeping(data, tail_from(data, index, self.delimiter())),
                        Outcome::Complete,
                    ),
                }
            },
        }
    }

    /// The parser when the header section of a part is read.
    pub open spec fn headed(self, section: Seq<u8>) -> ParserView<F> {
        ParserView {
            part: self.part.with_headers(section),
            state: MultiPartParserState::Body,
            ..self
        }
    }

    /// Reads the body of a part: `data` from `index` on, up to the next boundary.
    /// Where none stands in them, the longest tail that may be the beginning of one
    /// is kept for the next chunk.
    pub open spec fn search_boundary(self, data: Seq<u8>, index: int) -> (
        ParserView<F>,
        Outcome<F>,
    )
        decreases 0nat, data.len() - index, 5int,
        when 0 <= index <= data.len()
    {
        proof {
            lemma_found(data, self.delimiter(), index);
            lemma_tail_from(data, index, self.delimiter());
        }
        if data.len() - index < self.boundary.len() {
            (self.keeping(data, index), Outcome::Complete)
        } else {
            match first_occurrence(data, self.delimiter(), index) {
                Some(at) => self.deliver(
                    data.subrange(index, at),
                    data,
                    at + self.delimiter().len(),
                    true,
                ),
                None => {
                    let at = tail_from(data, index, self.delimiter());
                    self.deliver(data.subrange(index, at), data, at, false)
                },
            }
        }
    }

    /// Hands `bytes`, if there are any, to the current part, then goes on in `data`
    /// from `next` on.
    pub open spec fn deliver(
        self,
        bytes: Seq<u8>,
        data: Seq<u8>,
        next: int,
        at_boundary: bool,
    ) -> (ParserView<F>, Outcome<F>)
        decreases
                0nat,
                (if at_boundary {
                    data.len() - next + 1
                } else {
                    0
                }),
                4int,
        when 0 <= next <= data.len()
    {
        if bytes.len() == 0 {
            self.proceed(data, next, at_boundary)
        } else {
            let (part, written) = self.part.written(bytes);
            let after = ParserView { part, ..self };
            match written {
                Written::Stored => after.proceed(data, next, at_boundary),
                Written::Create(all) => (
                    after.waiting_for(data, next, at_boundary, WaitView::Storing),
                    Outcome::Request(RequestView::Create(all)),
                ),
                Written::Measure(file) => (
                    after.waiting_for(data, next, at_boundary, WaitView::Measuring(bytes)),
                    Outcome::Request(RequestView::Measure(file)),
                ),
                Written::TooLarge => (
                    after,
                    Outcome::Failure(MultiPartParserError::MaxFileSizeExceededError),
                ),
            }
        }
    }

    /// Goes on in `data` from `next` on.
    pub open spec fn proceed(self, data: Seq<u8>, next: int, at_boundary: bool) -> (
        ParserView<F>,
        Outcome<F>,
    )
        decreases
                0nat,
                (if at_boundary {
                    data.len() - next + 1
                } else {
                    0
                }),
                3int,
        when 0 <= next <= data.len()
    {
        if at_boundary {
            self.at_boundary().run(data, next)
        } else {
            (self.keeping(data, next), Outcome::Complete)
        }
    }

    /// The parser waits for an answer.
    pub open spec fn waiting_for(
        self,
        data: Seq<u8>,
        next: int,
        at_boundary: bool,
        waiting: WaitView,
    ) -> ParserView<F> {
        ParserView { pending: Some(PendingView { data, next, at_boundary, waiting }), ..self }
    }

    /// What an answer does to a parser that waits for it.
    pub open spec fn answered(self, reply: FileReply<F>) -> (ParserView<F>, Outcome<F>)
        decreases self,
    {
        match self.child {
            Some(child) => {
                let (after, outcome) = child.answered(reply);
                self.after_inner(after, outcome)
            },
            None => {
                let pending = self.pending->0;
                let free = ParserView { pending: None, ..self };
                match reply {
                    FileReply::Stored(Ok(file)) => ParserView {
                        part: self.part.with_file(file),
                        ..free
                    }.proceed(pending.data, pending.next, pending.at_boundary),
                    FileReply::Stored(Err(error)) => (
                        free,
                        Outcome::Failure(MultiPartParserError::IOError(error)),
                    ),
                    FileReply::Measured(Ok((file, size))) => {
                        let bytes = pending.waiting->Measuring_0;
                        if size + bytes.len() <= self.file_limit {
                            (
                                self.waiting_for(
                                    pending.data,
                                    pending.next,
                                    pending.at_boundary,
                                    WaitView::Storing,
                                ),
                                Outcome::Request(RequestView::Append(file, bytes)),
                            )
                        } else {
                            (
                                free,
                                Outcome::Failure(MultiPartParserError::MaxFileSizeExceededError),
                            )
                        }
                    },
                    FileReply::Measured(Err(error)) => (
                        free,
                        Outcome::Failure(MultiPartParserError::IOError(error)),
                    ),
                }
            },
        }
    }
}

} // verus!
