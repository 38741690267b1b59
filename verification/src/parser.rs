//! The parser.

use crate::laws::{lemma_answered, lemma_feed};
use crate::machine::{
    is_valid_boundary, MultiPartParserState, Outcome, ParserView, PendingView, WaitView,
};
use crate::multipart::{FileReply, FileRequest, MultiPart, PartView, WriteStep};
use crate::search::{
    double_newline, find_double_newline, find_tail, matches_at, substring_search,
};
use crate::text::starts_with;
use vstd::prelude::*;
use vstd::slice::{slice_subrange, slice_to_vec};
use vstd::utf8::{encode_utf8, valid_utf8};

verus! {

/// An error of the input and output of the operating system.
#[verifier::external_type_specification]
#[verifier::external_body]
pub struct ExIoError(std::io::Error);

/// Why parsing failed.
#[derive(Debug)]
pub enum MultiPartParserError {
    /// An error occurred during temporary file I/O.
    IOError(std::io::Error),
    /// More data were sent after parsing was finished.
    UnexpectedDataAtEndOfStream,
    /// An invalid character appeared in the boundary: one that ends a line.
    InvalidCharacterInBoundary,
    /// The initial boundary is missing.
    MissingInitialBoundary,
    /// An unusual boundary was detected.
    MalformedMultiPartBoundary,
    /// The maximum size of a header section is exceeded.
    MaxHeaderLimitExceeded,
    /// The maximum size of a file is exceeded.
    MaxFileSizeExceededError,
    /// A malicious part was detected.
    MaliciousPart,
    /// The stream ended in the middle of a part.
    UnfinishedPart,
}

/// How far the parser has come.
#[derive(Debug)]
pub enum Progress<F> {
    /// The chunk is taken in.
    Complete,
    /// The parser waits for the answer to a request: hand it to
    /// [`MultiPartParser::resume`].
    Request(FileRequest<F>),
}

/// What the result of a call stands for.
pub open spec fn outcome_of<F>(result: Result<Progress<F>, MultiPartParserError>) -> Outcome<F> {
    match result {
        Ok(Progress::Complete) => Outcome::Complete,
        Ok(Progress::Request(request)) => Outcome::Request(request@),
        Err(error) => Outcome::Failure(error),
    }
}

/// What a parser waits for.
enum Wait {
    /// The bytes of the part have gone to a file.
    Storing,
    /// The size of the file of the part, which is to take these bytes.
    Measuring(Vec<u8>),
}

/// Where a parser that waits goes on.
struct Pending {
    data: Vec<u8>,
    next: usize,
    at_boundary: bool,
    waiting: Wait,
}

impl Pending {
    spec fn model(self) -> PendingView {
        PendingView {
            data: self.data@,
            next: self.next as int,
            at_boundary: self.at_boundary,
            waiting: match self.waiting {
                Wait::Storing => WaitView::Storing,
                Wait::Measuring(bytes) => WaitView::Measuring(bytes@),
            },
        }
    }
}

/// How reading goes on.
enum Flow<F> {
    /// The call is over.
    Stop(Progress<F>),
    /// Reading goes on from this place.
    Continue(usize),
}

/// A step of reading did what was expected of it: it ended the call, or it left
/// the parser where reading goes on.
spec fn does<F>(
    result: Result<Flow<F>, MultiPartParserError>,
    after: MultiPartParser<F>,
    data: Seq<u8>,
    expected: (ParserView<F>, Outcome<F>),
) -> bool {
    match result {
        Ok(Flow::Stop(progress)) => {
            &&& after.well_formed()
            &&& expected == (after.model(), outcome_of(Ok(progress)))
        },
        Ok(Flow::Continue(at)) => {
            &&& after.reading()
            &&& !(after.state is Start || after.state is Done)
            &&& at <= data.len()
            &&& expected == after.model().run(data, at as int)
        },
        Err(error) => {
            &&& after.well_formed()
            &&& expected == (after.model(), Outcome::<F>::Failure(error))
        },
    }
}

/// No bytes are UTF-8.
proof fn lemma_empty_is_utf8()
    ensures
        valid_utf8(Seq::<u8>::empty()),
{
}

/// What comes of a call of an inner parser does not depend on what that parser was.
proof fn lemma_same_behind<F>(
    before: ParserView<F>,
    alone: ParserView<F>,
    child: ParserView<F>,
    outcome: Outcome<F>,
)
    requires
        before.child is Some,
        alone == (ParserView { child: None, ..before }),
    ensures
        alone.after_inner(child, outcome) == before.after_inner(child, outcome),
{
    assert(alone.behind_inner(child) == before.behind_inner(child));
    assert(alone.around(child) == before.around(child));
}

/// A streaming parser for `multipart/*` request bodies.
///
/// It is fed chunk by chunk, with [`parse`](MultiPartParser::parse). Where a part
/// has to go to a temporary file, `parse` returns a request; the caller answers it
/// with [`resume`](MultiPartParser::resume). When all chunks are taken in,
/// [`get_parts`](MultiPartParser::get_parts) hands out the parts.
pub struct MultiPartParser<F> {
    max_header_size: u16,
    max_body_limit_until_file: u32,
    max_file_size: u32,
    boundary_pattern: Vec<u8>,
    is_inner: bool,
    buffer: Vec<u8>,
    current_part: MultiPart<F>,
    state: MultiPartParserState,
    child_parser: Option<Box<MultiPartParser<F>>>,
    parts: Vec<MultiPart<F>>,
    pending: Option<Pending>,
}

impl<F> View for MultiPartParser<F> {
    type V = ParserView<F>;

    closed spec fn view(&self) -> ParserView<F> {
        self.model()
    }
}

impl<F> MultiPartParser<F> {
    spec fn model(self) -> ParserView<F>
        decreases self,
    {
        ParserView {
            header_limit: self.max_header_size,
            memory_limit: self.max_body_limit_until_file,
            file_limit: self.max_file_size,
            boundary: self.boundary_pattern@.subrange(4, self.boundary_pattern@.len() as int),
            is_inner: self.is_inner,
            buffer: self.buffer@,
            part: self.current_part@,
            state: self.state,
            child: match self.child_parser {
                Some(child) => Some(Box::new(child.model())),
                None => None,
            },
            parts: self.parts@.map_values(|part: MultiPart<F>| part@),
            pending: match self.pending {
                Some(pending) => Some(pending.model()),
                None => None,
            },
        }
    }

    /// What is searched for is the delimiter, in this parser and in those inside it.
    pub closed spec fn patterns_hold(self) -> bool
        decreases self,
    {
        &&& self.boundary_pattern@.len() >= 4
        &&& self.boundary_pattern@ == self.model().delimiter()
        &&& match self.child_parser {
            Some(child) => child.patterns_hold(),
            None => true,
        }
    }

    /// What holds of every parser between two calls.
    pub open spec fn well_formed(&self) -> bool {
        &&& self.patterns_hold()
        &&& self@.consistent()
    }

    /// The parser reads data itself: no other is at work inside it, it waits for
    /// nothing, and all that it kept is taken out.
    spec fn reading(self) -> bool {
        &&& self.patterns_hold()
        &&& self.model().consistent()
        &&& self.child_parser is None
        &&& self.pending is None
        &&& self.buffer@.len() == 0
    }

    /// Creates a parser.
    ///
    /// * `max_header_size`: the size in bytes that a header section may have.
    /// * `max_body_limit_until_file`: the size in bytes up to which a part is held in
    ///   memory.
    /// * `max_file_size`: the size in bytes that a part may have in a file.
    /// * `boundary`: the boundary between the parts.
    pub fn new(
        max_header_size: u16,
        max_body_limit_until_file: u32,
        max_file_size: u32,
        boundary: String,
    ) -> (parser: MultiPartParser<F>)
        ensures
            parser@ == ParserView::<F>::fresh(
                max_header_size,
                max_body_limit_until_file,
                max_file_size,
                encode_utf8(boundary@),
            ),
            parser.well_formed(),
    {
        let mut boundary_pattern: Vec<u8> = Vec::new();
        boundary_pattern.push(13);
        boundary_pattern.push(10);
        boundary_pattern.push(45);
        boundary_pattern.push(45);
        boundary_pattern.extend_from_slice(boundary.as_str().as_bytes());
        let parser = MultiPartParser {
            max_header_size,
            max_body_limit_until_file,
            max_file_size,
            boundary_pattern,
            is_inner: false,
            buffer: Vec::new(),
            current_part: MultiPart::new(max_body_limit_until_file, max_file_size),
            state: MultiPartParserState::Start,
            child_parser: None,
            parts: Vec::new(),
            pending: None,
        };
        proof {
            let bytes = encode_utf8(boundary@);
            assert(parser.boundary_pattern@ =~= seq![13u8, 10u8, 45u8, 45u8] + bytes);
            assert(parser.boundary_pattern@.subrange(4, parser.boundary_pattern@.len() as int)
                =~= bytes);
            assert(parser.model().parts =~= Seq::<PartView<F>>::empty());
            assert(parser.model().buffer =~= Seq::<u8>::empty());
        }
        parser
    }

    /// Keeps what `data` hold from `from` on for the next chunk.
    fn keep(&mut self, data: &[u8], from: usize)
        requires
            from <= data@.len(),
        ensures
            final(self).model() == old(self).model().keeping(data@, from as int),
            old(self).patterns_hold() ==> final(self).patterns_hold(),
    {
        self.buffer = slice_to_vec(slice_subrange(data, from, data.len()));
    }

    /// Ends the current part.
    fn close_part(&mut self)
        ensures
            final(self).model() == old(self).model().closing_part(),
            old(self).patterns_hold() ==> final(self).patterns_hold(),
    {
        let mut part = MultiPart::new(self.max_body_limit_until_file, self.max_file_size);
        std::mem::swap(&mut part, &mut self.current_part);
        let ghost before = self.model().parts;
        let ghost added = part@;
        self.parts.push(part);
        assert(self.model().parts =~= before.push(added));
    }

    /// Ends the current part: a boundary ended.
    fn pass_boundary(&mut self)
        ensures
            final(self).model() == old(self).model().at_boundary(),
            old(self).patterns_hold() ==> final(self).patterns_hold(),
    {
        self.close_part();
        self.state = MultiPartParserState::AfterBoundary;
    }

    /// Goes on in `data` from `next` on.
    fn proceed(&mut self, data: &[u8], next: usize, at_boundary: bool) -> (flow: Flow<F>)
        requires
            old(self).reading(),
            old(self).state is Body,
            next <= data@.len(),
        ensures
            does(
                Ok(flow),
                *final(self),
                data@,
                old(self).model().proceed(data@, next as int, at_boundary),
            ),
            flow matches Flow::Continue(at) ==> at_boundary && at == next,
    {
        if at_boundary {
            self.pass_boundary();
            Flow::Continue(next)
        } else {
            self.keep(data, next);
            Flow::Stop(Progress::Complete)
        }
    }

    /// Hands `bytes`, if there are any, to the current part, then goes on in `data` from
    /// `next` on.
    #[verifier::rlimit(40)]
    fn append(
        &mut self,
        bytes: &[u8],
        data: &[u8],
        next: usize,
        at_boundary: bool,
    ) -> (res: Result<Flow<F>, MultiPartParserError>)
        requires
            old(self).reading(),
            old(self).state is Body,
            next <= data@.len(),
            at_boundary || data@.len() - next <= old(self).boundary_pattern@.len(),
        ensures
            does(
                res,
                *final(self),
                data@,
                old(self).model().deliver(bytes@, data@, next as int, at_boundary),
            ),
            res matches Ok(Flow::Continue(at)) ==> at_boundary && at == next,
    {
        if bytes.len() == 0 {
            return Ok(self.proceed(data, next, at_boundary));
        }
        match self.current_part.write(bytes) {
            Ok(WriteStep::Stored) => Ok(self.proceed(data, next, at_boundary)),
            Ok(WriteStep::Request(request)) => {
                let waiting = match &request {
                    FileRequest::Measure { .. } => Wait::Measuring(slice_to_vec(bytes)),
                    _ => Wait::Storing,
                };
                self.pending = Some(
                    Pending { data: slice_to_vec(data), next, at_boundary, waiting },
                );
                Ok(Flow::Stop(Progress::Request(request)))
            },
            Err(error) => Err(error),
        }
    }

    /// Reads the body of a part: `data` from `index` on.
    #[verifier::rlimit(40)]
    fn search_boundary(&mut self, data: &[u8], index: usize) -> (res: Result<
        Flow<F>,
        MultiPartParserError,
    >)
        requires
            old(self).reading(),
            old(self).state is Body,
            index <= data@.len(),
        ensures
            does(
                res,
                *final(self),
                data@,
                old(self).model().search_boundary(data@, index as int),
            ),
            res matches Ok(Flow::Continue(at)) ==> at > index,
    {
        if data.len() - index < self.boundary_pattern.len() - 4 {
            self.keep(data, index);
            return Ok(Flow::Stop(Progress::Complete));
        }
        match substring_search(data, index, self.boundary_pattern.as_slice()) {
            Some(at) => {
                let next: usize = at + self.boundary_pattern.len();
                self.append(slice_subrange(data, index, at), data, next, true)
            },
            None => {
                let at: usize = find_tail(data, index, self.boundary_pattern.as_slice());
                self.append(slice_subrange(data, index, at), data, at, false)
            },
        }
    }

    /// The parser of the parts that the current part is made up of. `None` where
    /// the headers of the part name no boundary.
    fn inner_parser(&self) -> (res: Option<MultiPartParser<F>>)
        ensures
            match self.model().part.inner_boundary() {
                Some(boundary) => res matches Some(parser) && parser.well_formed()
                    && parser.model() == self.model().inner_parser(encode_utf8(boundary)),
                None => res is None,
            },
    {
        match &self.current_part.headers {
            Some(map) => match map.get("boundary") {
                Some(boundary) => {
                    let mut parser = MultiPartParser::new(
                        self.max_header_size,
                        self.max_body_limit_until_file,
                        self.max_file_size,
                        boundary.clone(),
                    );
                    parser.is_inner = true;
                    Some(parser)
                },
                None => None,
            },
            None => None,
        }
    }

    /// Tells whether the current part is made up of parts itself.
    fn part_is_nested(&self) -> (res: bool)
        ensures
            res == self.model().part.is_nested(),
    {
        match &self.current_part.content_type {
            Some(content_type) => starts_with(content_type.as_str(), "multipart/"),
            None => false,
        }
    }

    /// Tells whether the boundary holds no character that may not occur in one.
    fn boundary_is_valid(&self) -> (res: bool)
        requires
            self.patterns_hold(),
        ensures
            res == is_valid_boundary(self.model().boundary),
    {
        let ghost boundary = self.model().boundary;
        let mut i: usize = 4;
        while i < self.boundary_pattern.len()
            invariant
                4 <= i <= self.boundary_pattern@.len(),
                boundary == self.boundary_pattern@.subrange(
                    4,
                    self.boundary_pattern@.len() as int,
                ),
                forall|k: int| 0 <= k < i - 4 ==> boundary[k] != 13 && boundary[k] != 10,
            decreases self.boundary_pattern@.len() - i,
        {
            let byte: u8 = self.boundary_pattern[i];
            assert(boundary[i - 4] == byte);
            if byte == 13 || byte == 10 {
                return false;
            }
            i = i + 1;
        }
        true
    }

    /// Reads the opening of the body.
    fn read_opening(&mut self, data: &[u8], index: usize) -> (res: Result<
        Flow<F>,
        MultiPartParserError,
    >)
        requires
            old(self).reading(),
            old(self).state is Start,
            index <= data@.len(),
        ensures
            does(res, *final(self), data@, old(self).model().run(data@, index as int)),
            res matches Ok(Flow::Continue(at)) ==> at > index,
    {
        if !self.boundary_is_valid() {
            return Err(MultiPartParserError::InvalidCharacterInBoundary);
        }
        let opening: usize = self.boundary_pattern.len() - 2;
        if data.len() - index < opening {
            self.keep(data, index);
            return Ok(Flow::Stop(Progress::Complete));
        }
        let pattern = slice_subrange(
            self.boundary_pattern.as_slice(),
            2,
            self.boundary_pattern.len(),
        );
        assert(pattern@ =~= self.model().opening());
        if !matches_at(data, pattern, index) {
            return Err(MultiPartParserError::MissingInitialBoundary);
        }
        self.state = MultiPartParserState::AfterBoundary;
        Ok(Flow::Continue(index + opening))
    }

    /// Reads what comes right behind a boundary: it tells whether the boundary is
    /// the last one.
    fn read_boundary_end(&mut self, data: &[u8], index: usize) -> (res: Result<
        Flow<F>,
        MultiPartParserError,
    >)
        requires
            old(self).reading(),
            old(self).state is AfterBoundary,
            index <= data@.len(),
        ensures
            does(res, *final(self), data@, old(self).model().run(data@, index as int)),
            res matches Ok(Flow::Continue(at)) ==> at > index,
    {
        if data.len() - index < 2 {
            self.keep(data, index);
            return Ok(Flow::Stop(Progress::Complete));
        }
        if data[index] == 45 && data[index + 1] == 45 {
            if self.is_inner {
                self.keep(data, index + 2);
            }
            self.state = MultiPartParserState::Done;
            return Ok(Flow::Stop(Progress::Complete));
        }
        if !(data[index] == 13 && data[index + 1] == 10) {
            return Err(MultiPartParserError::MalformedMultiPartBoundary);
        }
        self.state = MultiPartParserState::Header;
        Ok(Flow::Continue(index + 2))
    }

    /// Reads the header section of a part.
    #[verifier::rlimit(40)]
    fn read_header(&mut self, data: &[u8], index: usize) -> (res: Result<
        Flow<F>,
        MultiPartParserError,
    >)
        requires
            old(self).reading(),
            old(self).state is Header,
            index <= data@.len(),
        ensures
            does(res, *final(self), data@, old(self).model().run(data@, index as int)),
            res matches Ok(Flow::Continue(at)) ==> at > index,
    {
        if data.len() - index >= 2 && data[index] == 13 && data[index + 1] == 10 {
            let none = slice_subrange(data, index, index);
            proof {
                assert(none@ =~= Seq::<u8>::empty());
                lemma_empty_is_utf8();
            }
            self.current_part.set_headers(none);
            self.state = MultiPartParserState::Body;
            return Ok(Flow::Continue(index + 2));
        }
        match find_double_newline(data, index) {
            None => {
                let line: [u8; 4] = [13, 10, 13, 10];
                assert(line@ =~= double_newline());
                let held: usize = find_tail(data, index, &line);
                if held - index > self.max_header_size as usize {
                    return Err(MultiPartParserError::MaxHeaderLimitExceeded);
                }
                self.keep(data, index);
                Ok(Flow::Stop(Progress::Complete))
            },
            Some(end) => {
                assert(end + double_newline().len() <= data.len());
                if end - index > self.max_header_size as usize {
                    return Err(MultiPartParserError::MaxHeaderLimitExceeded);
                }
                if !self.current_part.set_headers(slice_subrange(data, index, end)) {
                    return Err(MultiPartParserError::MaliciousPart);
                }
                self.state = MultiPartParserState::Body;
                Ok(Flow::Continue(end + 4))
            },
        }
    }

    /// Reads the body of a part.
    #[verifier::rlimit(40)]
    fn read_body(&mut self, data: &[u8], index: usize) -> (res: Result<
        Flow<F>,
        MultiPartParserError,
    >)
        requires
            old(self).reading(),
            old(self).state is Body,
            index <= data@.len(),
        ensures
            does(res, *final(self), data@, old(self).model().run(data@, index as int)),
            res matches Ok(Flow::Continue(at)) ==> at > index,
        decreases 0nat, data@.len() - index, 5int,
    {
        if self.part_is_nested() {
            match self.inner_parser() {
                Some(mut child) => {
                    let rest = slice_subrange(data, index, data.len());
                    proof {
                        lemma_feed(child.model(), rest@);
                    }
                    match child.parse(rest) {
                        Ok(Progress::Complete) => {
                            if child.state == MultiPartParserState::Done {
                                let from: usize = data.len() - child.buffer.len();
                                self.take_parts(&mut child);
                                return Ok(Flow::Continue(from));
                            }
                            self.child_parser = Some(Box::new(child));
                            Ok(Flow::Stop(Progress::Complete))
                        },
                        Ok(progress) => {
                            self.child_parser = Some(Box::new(child));
                            Ok(Flow::Stop(progress))
                        },
                        Err(error) => {
                            self.child_parser = Some(Box::new(child));
                            Err(error)
                        },
                    }
                },
                None => Err(MultiPartParserError::MaliciousPart),
            }
        } else {
            self.search_boundary(data, index)
        }
    }

    /// Takes the parts over from a parser that was at work inside this one.
    fn take_parts(&mut self, child: &mut MultiPartParser<F>)
        requires
            old(self).child_parser is None,
        ensures
            final(self).model() == old(self).model().behind_inner(old(child).model()),
            old(self).patterns_hold() ==> final(self).patterns_hold(),
            final(child).buffer@ == old(child).buffer@,
    {
        self.parts.append(&mut child.parts);
        self.state = MultiPartParserState::Epilogue;
        assert(self.model().parts =~= old(self).model().parts + old(child).model().parts);
    }

    /// Goes on after a call of the parser at work inside this one.
    #[verifier::rlimit(40)]
    fn after_inner(
        &mut self,
        inner: Box<MultiPartParser<F>>,
        res: Result<Progress<F>, MultiPartParserError>,
    ) -> (after: Result<Progress<F>, MultiPartParserError>)
        requires
            old(self).reading(),
            old(self).state is Body,
            inner.patterns_hold(),
            old(self).model().after_inner(inner.model(), outcome_of(res)).0.consistent(),
        ensures
            final(self).well_formed(),
            (final(self).model(), outcome_of(after)) == old(self).model().after_inner(
                inner.model(),
                outcome_of(res),
            ),
        decreases 0nat, inner.buffer@.len(), 8int,
    {
        let mut child = inner;
        match res {
            Ok(Progress::Complete) => {
                if child.state == MultiPartParserState::Done {
                    self.take_parts(&mut child);
                    self.run(child.buffer.as_slice(), 0)
                } else {
                    self.child_parser = Some(child);
                    Ok(Progress::Complete)
                }
            },
            Ok(progress) => {
                self.child_parser = Some(child);
                Ok(progress)
            },
            Err(error) => {
                self.child_parser = Some(child);
                Err(error)
            },
        }
    }

    /// Reads what follows the parts that the current part is made up of.
    fn read_epilogue(&mut self, data: &[u8], index: usize) -> (res: Result<
        Flow<F>,
        MultiPartParserError,
    >)
        requires
            old(self).reading(),
            old(self).state is Epilogue,
            index <= data@.len(),
        ensures
            does(res, *final(self), data@, old(self).model().run(data@, index as int)),
            res matches Ok(Flow::Continue(at)) ==> at > index,
    {
        match substring_search(data, index, self.boundary_pattern.as_slice()) {
            Some(at) => {
                assert(at + self.boundary_pattern@.len() <= data.len());
                let next: usize = at + self.boundary_pattern.len();
                self.pass_boundary();
                Ok(Flow::Continue(next))
            },
            None => {
                let at: usize = find_tail(data, index, self.boundary_pattern.as_slice());
                self.keep(data, at);
                Ok(Flow::Stop(Progress::Complete))
            },
        }
    }

    /// Reads `data` from `start` on.
    #[verifier::rlimit(40)]
    fn run(&mut self, data: &[u8], start: usize) -> (res: Result<
        Progress<F>,
        MultiPartParserError,
    >)
        requires
            old(self).reading(),
            !(old(self).state is Done),
            start <= data@.len(),
        ensures
            final(self).well_formed(),
            (final(self).model(), outcome_of(res)) == old(self).model().run(data@, start as int),
        decreases
                0nat,
                data@.len() - start,
                (if old(self).state is Start {
                    0int
                } else {
                    6int
                }),
    {
        let mut index: usize = start;
        loop
            invariant
                self.reading(),
                !(self.state is Done),
                start <= index <= data@.len(),
                index > start || self.state == old(self).state,
                self.model().run(data@, index as int) == old(self).model().run(
                    data@,
                    start as int,
                ),
            decreases data@.len() - index,
        {
            let step = match self.state {
                MultiPartParserState::Start => self.read_opening(data, index),
                MultiPartParserState::AfterBoundary => self.read_boundary_end(data, index),
                MultiPartParserState::Header => self.read_header(data, index),
                MultiPartParserState::Epilogue => self.read_epilogue(data, index),
                _ => self.read_body(data, index),
            };
            match step {
                Ok(Flow::Stop(progress)) => {
                    return Ok(progress);
                },
                Ok(Flow::Continue(next)) => {
                    index = next;
                },
                Err(error) => {
                    return Err(error);
                },
            }
        }
    }

    /// Hands a chunk of the body to the parser.
    ///
    /// Returns [`Progress::Complete`] when the chunk is taken in. Returns
    /// [`Progress::Request`] when something has to be done with a file first: the
    /// parser then waits for the answer, and takes no chunk before it has come.
    #[verifier::rlimit(40)]
    pub fn parse(&mut self, chunk: &[u8]) -> (res: Result<Progress<F>, MultiPartParserError>)
        requires
            old(self).well_formed(),
            !old(self)@.is_waiting(),
        ensures
            final(self).well_formed(),
            (final(self)@, outcome_of(res)) == old(self)@.feed(chunk@),
            final(self)@.is_waiting() == (res matches Ok(Progress::Request(_))),
            final(self)@.awaits_size() == (res matches Ok(
                Progress::Request(FileRequest::Measure { .. }),
            )),
        decreases
                old(self)@.depth(),
                old(self)@.buffer.len() + chunk@.len(),
                (if old(self)@.state is Start {
                    1int
                } else {
                    7int
                }),
    {
        proof {
            lemma_feed(self@, chunk@);
        }
        if self.state == MultiPartParserState::Done {
            return Err(MultiPartParserError::UnexpectedDataAtEndOfStream);
        }
        match self.child_parser.take() {
            None => {
                let mut data: Vec<u8> = Vec::new();
                std::mem::swap(&mut data, &mut self.buffer);
                data.extend_from_slice(chunk);
                assert(data@ =~= old(self)@.buffer + chunk@);
                assert(self.buffer@ =~= Seq::<u8>::empty());
                self.run(data.as_slice(), 0)
            },
            Some(mut child) => {
                proof {
                    lemma_feed(child.model(), chunk@);
                }
                let res = child.parse(chunk);
                proof {
                    let outcome = outcome_of(res);
                    assert(old(self)@.feed(chunk@) == old(self)@.after_inner(
                        child.model(),
                        outcome,
                    ));
                    lemma_same_behind(old(self)@, self.model(), child.model(), outcome);
                }
                self.after_inner(child, res)
            },
        }
    }

    /// Hands the answer to its request to a parser that waits for it.
    ///
    /// Returns what the call that made the request would have returned.
    #[verifier::rlimit(40)]
    pub fn resume(&mut self, reply: FileReply<F>) -> (res: Result<
        Progress<F>,
        MultiPartParserError,
    >)
        requires
            old(self).well_formed(),
            old(self)@.is_waiting(),
            old(self)@.awaits_size() == (reply is Measured),
        ensures
            final(self).well_formed(),
            (final(self)@, outcome_of(res)) == old(self)@.answered(reply),
            final(self)@.is_waiting() == (res matches Ok(Progress::Request(_))),
            final(self)@.awaits_size() == (res matches Ok(
                Progress::Request(FileRequest::Measure { .. }),
            )),
        decreases old(self)@.depth(),
    {
        proof {
            lemma_answered(self@, reply);
        }
        match self.child_parser.take() {
            Some(mut child) => {
                proof {
                    lemma_answered(child.model(), reply);
                }
                let res = child.resume(reply);
                proof {
                    let outcome = outcome_of(res);
                    assert(old(self)@.answered(reply) == old(self)@.after_inner(
                        child.model(),
                        outcome,
                    ));
                    lemma_same_behind(old(self)@, self.model(), child.model(), outcome);
                }
                self.after_inner(child, res)
            },
            None => {
                let pending = match self.pending.take() {
                    Some(pending) => pending,
                    None => {
                        return Ok(Progress::Complete);
                    },
                };
                match reply {
                    FileReply::Stored(Ok(file)) => {
                        self.current_part.keep_file(file);
                        match self.proceed(
                            pending.data.as_slice(),
                            pending.next,
                            pending.at_boundary,
                        ) {
                            Flow::Stop(progress) => Ok(progress),
                            Flow::Continue(next) => self.run(pending.data.as_slice(), next),
                        }
                    },
                    FileReply::Measured(Ok((file, size))) => {
                        let bytes = match pending.waiting {
                            Wait::Measuring(bytes) => bytes,
                            Wait::Storing => Vec::new(),
                        };
                        if self.current_part.has_room(size, bytes.len()) {
                            self.pending = Some(
                                Pending {
                                    data: pending.data,
                                    next: pending.next,
                                    at_boundary: pending.at_boundary,
                                    waiting: Wait::Storing,
                                },
                            );
                            Ok(Progress::Request(FileRequest::Append { file, bytes }))
                        } else {
                            Err(MultiPartParserError::MaxFileSizeExceededError)
                        }
                    },
                    FileReply::Stored(Err(error)) => Err(MultiPartParserError::IOError(error)),
                    FileReply::Measured(Err(error)) => Err(MultiPartParserError::IOError(error)),
                }
            },
        }
    }

    /// Hands out the parts, when the whole body is parsed.
    pub fn get_parts(&mut self) -> (res: Result<Vec<MultiPart<F>>, MultiPartParserError>)
        requires
            old(self).well_formed(),
        ensures
            final(self).well_formed(),
            match res {
                Ok(parts) => {
                    &&& old(self)@.state is Done
                    &&& parts@.map_values(|part: MultiPart<F>| part@) == old(self)@.parts
                    &&& final(self)@ == (ParserView { parts: Seq::empty(), ..old(self)@ })
                },
                Err(error) => {
                    &&& !(old(self)@.state is Done)
                    &&& error == MultiPartParserError::UnfinishedPart
                    &&& final(self)@ == old(self)@
                },
            },
    {
        if self.state != MultiPartParserState::Done {
            return Err(MultiPartParserError::UnfinishedPart);
        }
        let mut parts: Vec<MultiPart<F>> = Vec::new();
        std::mem::swap(&mut parts, &mut self.parts);
        assert(self.model().parts =~= Seq::<PartView<F>>::empty());
        Ok(parts)
    }
}

/// The result of a call stands for what it says: each error for itself.
pub proof fn law_results_stand_for_what_they_say<F>(
    request: FileRequest<F>,
    error: MultiPartParserError,
)
    ensures
        outcome_of(Ok(Progress::<F>::Complete)) == Outcome::<F>::Complete,
        outcome_of(Ok(Progress::Request(request))) == Outcome::Request(request@),
        outcome_of(Err::<Progress<F>, MultiPartParserError>(error)) == Outcome::<F>::Failure(
            error,
        ),
{
}

} // verus!
