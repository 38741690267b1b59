//! What files hold, in place of their handles. To the parser a handle is something that
//! it passes on: what it does is the same whatever stands for a file, so that all that
//! is known of handles that are what their files hold is known of any.

use crate::laws::Call;
use crate::machine::{is_valid_boundary, lemma_found, MultiPartParserState, Outcome, ParserView};
use crate::multipart::{DataView, FileReply, PartView, RequestView, Written};
use crate::search::{double_newline, first_occurrence, lemma_tail_from, occurs_at, tail_from};
use vstd::prelude::*;
use vstd::utf8::encode_utf8;

verus! {

impl<F> DataView<F> {
    /// The data, with what each file holds in place of its handle.
    pub open spec fn with_contents(self, contents: spec_fn(F) -> Seq<u8>) -> DataView<Seq<u8>> {
        match self {
            DataView::Bytes(bytes) => DataView::Bytes(bytes),
            DataView::File(file) => DataView::File(contents(file)),
        }
    }
}

impl<F> PartView<F> {
    /// The part, with what its file holds in place of the handle.
    pub open spec fn with_contents(self, contents: spec_fn(F) -> Seq<u8>) -> PartView<Seq<u8>> {
        PartView {
            headers: self.headers,
            data: match self.data {
                Some(data) => Some(data.with_contents(contents)),
                None => None,
            },
            content_type: self.content_type,
            memory_limit: self.memory_limit,
            file_limit: self.file_limit,
        }
    }
}

/// The parts, with what their files hold in place of the handles.
pub open spec fn parts_with_contents<F>(
    parts: Seq<PartView<F>>,
    contents: spec_fn(F) -> Seq<u8>,
) -> Seq<PartView<Seq<u8>>> {
    parts.map_values(|part: PartView<F>| part.with_contents(contents))
}

impl<F> Written<F> {
    /// What comes of handing data to a part, with what files hold in place of handles.
    pub open spec fn with_contents(self, contents: spec_fn(F) -> Seq<u8>) -> Written<Seq<u8>> {
        match self {
            Written::Stored => Written::Stored,
            Written::Create(all) => Written::Create(all),
            Written::Measure(file) => Written::Measure(contents(file)),
            Written::TooLarge => Written::TooLarge,
        }
    }
}

impl<F> RequestView<F> {
    /// The request, with what files hold in place of handles.
    pub open spec fn with_contents(self, contents: spec_fn(F) -> Seq<u8>) -> RequestView<
        Seq<u8>,
    > {
        match self {
            RequestView::Create(bytes) => RequestView::Create(bytes),
            RequestView::Measure(file) => RequestView::Measure(contents(file)),
            RequestView::Append(file, bytes) => RequestView::Append(contents(file), bytes),
        }
    }
}

impl<F> Outcome<F> {
    /// The outcome, with what files hold in place of handles.
    pub open spec fn with_contents(self, contents: spec_fn(F) -> Seq<u8>) -> Outcome<Seq<u8>> {
        match self {
            Outcome::Complete => Outcome::Complete,
            Outcome::Request(request) => Outcome::Request(request.with_contents(contents)),
            Outcome::Failure(error) => Outcome::Failure(error),
        }
    }
}

impl<F> FileReply<F> {
    /// The answer, with what files hold in place of handles.
    pub open spec fn with_contents(self, contents: spec_fn(F) -> Seq<u8>) -> FileReply<Seq<u8>> {
        match self {
            FileReply::Stored(Ok(file)) => FileReply::Stored(Ok(contents(file))),
            FileReply::Stored(Err(error)) => FileReply::Stored(Err(error)),
            FileReply::Measured(Ok((file, size))) => FileReply::Measured(
                Ok((contents(file), size)),
            ),
            FileReply::Measured(Err(error)) => FileReply::Measured(Err(error)),
        }
    }
}

impl<F> ParserView<F> {
    /// The parser, with what files hold in place of handles.
    pub open spec fn with_contents(self, contents: spec_fn(F) -> Seq<u8>) -> ParserView<Seq<u8>>
        decreases self,
    {
        ParserView {
            header_limit: self.header_limit,
            memory_limit: self.memory_limit,
            file_limit: self.file_limit,
            boundary: self.boundary,
            is_inner: self.is_inner,
            buffer: self.buffer,
            part: self.part.with_contents(contents),
            state: self.state,
            child: match self.child {
                Some(child) => Some(Box::new(child.with_contents(contents))),
                None => None,
            },
            parts: parts_with_contents(self.parts, contents),
            pending: self.pending,
        }
    }
}

/// The result of a call, with what files hold in place of handles.
pub open spec fn result_with_contents<F>(
    result: (ParserView<F>, Outcome<F>),
    contents: spec_fn(F) -> Seq<u8>,
) -> (ParserView<Seq<u8>>, Outcome<Seq<u8>>) {
    (result.0.with_contents(contents), result.1.with_contents(contents))
}

/// What comes of handing data to a part does not depend on what stands for files.
proof fn lemma_written<F>(part: PartView<F>, chunk: Seq<u8>, contents: spec_fn(F) -> Seq<u8>)
    ensures
        part.with_contents(contents).written(chunk) == (
            part.written(chunk).0.with_contents(contents),
            part.written(chunk).1.with_contents(contents),
        ),
{
    assert(part.with_contents(contents).in_memory() == part.in_memory());
    assert(part.with_contents(contents).is_file_part() == part.is_file_part());
}

/// A parser with another at work inside it.
proof fn lemma_around<F>(p: ParserView<F>, child: ParserView<F>, contents: spec_fn(F) -> Seq<u8>)
    ensures
        p.around(child).with_contents(contents) == p.with_contents(contents).around(
            child.with_contents(contents),
        ),
        p.behind_inner(child).with_contents(contents) == p.with_contents(contents).behind_inner(
            child.with_contents(contents),
        ),
{
    assert(parts_with_contents(p.parts + child.parts, contents) =~= parts_with_contents(
        p.parts,
        contents,
    ) + parts_with_contents(child.parts, contents));
}

/// Ending a part.
proof fn lemma_at_boundary<F>(p: ParserView<F>, contents: spec_fn(F) -> Seq<u8>)
    ensures
        p.at_boundary().with_contents(contents) == p.with_contents(contents).at_boundary(),
{
    assert(parts_with_contents(p.parts.push(p.part), contents) =~= parts_with_contents(
        p.parts,
        contents,
    ).push(p.part.with_contents(contents)));
}

/// What a parser waits for does not depend on what stands for files.
pub(crate) proof fn lemma_waits_contents<F>(p: ParserView<F>, contents: spec_fn(F) -> Seq<u8>)
    ensures
        p.with_contents(contents).is_waiting() == p.is_waiting(),
        p.with_contents(contents).awaits_size() == p.awaits_size(),
        p.with_contents(contents).consistent() == p.consistent(),
    decreases p,
{
    if let Some(child) = p.child {
        lemma_waits_contents(*child, contents);
    }
}

/// What a chunk does, does not depend on what stands for files.
#[verifier::rlimit(40)]
pub(crate) proof fn lemma_feed_contents<F>(
    p: ParserView<F>,
    chunk: Seq<u8>,
    contents: spec_fn(F) -> Seq<u8>,
)
    ensures
        p.with_contents(contents).feed(chunk) == result_with_contents(p.feed(chunk), contents),
    decreases
            p.depth(),
            p.buffer.len() + chunk.len(),
            (if p.state is Start {
                1int
            } else {
                7int
            }),
{
    let q = p.with_contents(contents);
    if !(p.state is Done) {
        match p.child {
            None => {
                let free = ParserView { buffer: Seq::<u8>::empty(), ..p };
                assert(free.with_contents(contents) == (ParserView {
                    buffer: Seq::<u8>::empty(),
                    ..q
                }));
                lemma_run_contents(free, p.buffer + chunk, 0, contents);
                assert(p.feed(chunk) == free.run(p.buffer + chunk, 0));
                assert(q.feed(chunk) == free.with_contents(contents).run(p.buffer + chunk, 0));
            },
            Some(child) => {
                lemma_feed_contents(*child, chunk, contents);
                let (fed, outcome) = child.feed(chunk);
                lemma_after_inner_contents(p, fed, outcome, contents);
                assert(p.feed(chunk) == p.after_inner(fed, outcome));
                assert(q.feed(chunk) == q.after_inner(
                    fed.with_contents(contents),
                    outcome.with_contents(contents),
                ));
            },
        }
    }
}

/// What comes of a call of an inner parser does not depend on what stands for files.
proof fn lemma_after_inner_contents<F>(
    p: ParserView<F>,
    child: ParserView<F>,
    outcome: Outcome<F>,
    contents: spec_fn(F) -> Seq<u8>,
)
    ensures
        p.with_contents(contents).after_inner(
            child.with_contents(contents),
            outcome.with_contents(contents),
        ) == result_with_contents(p.after_inner(child, outcome), contents),
    decreases 0nat, child.buffer.len(), 8int,
{
    lemma_around(p, child, contents);
    if outcome is Complete && child.state is Done {
        lemma_run_contents(p.behind_inner(child), child.buffer, 0, contents);
    }
}

/// What reading does, does not depend on what stands for files.
#[verifier::rlimit(60)]
proof fn lemma_run_contents<F>(
    p: ParserView<F>,
    data: Seq<u8>,
    index: int,
    contents: spec_fn(F) -> Seq<u8>,
)
    requires
        0 <= index <= data.len(),
    ensures
        p.with_contents(contents).run(data, index) == result_with_contents(
            p.run(data, index),
            contents,
        ),
    decreases
            0nat,
            data.len() - index,
            (if p.state is Start {
                0int
            } else {
                6int
            }),
{
    let q = p.with_contents(contents);
    match p.state {
        MultiPartParserState::Done => {},
        MultiPartParserState::Start => {
            let next = p.in_state(MultiPartParserState::AfterBoundary);
            assert(next.with_contents(contents) == q.in_state(
                MultiPartParserState::AfterBoundary,
            ));
            assert(p.keeping(data, index).with_contents(contents) == q.keeping(data, index));
            if is_valid_boundary(p.boundary) && occurs_at(data, p.opening(), index) {
                lemma_run_contents(next, data, index + p.opening().len(), contents);
            }
        },
        MultiPartParserState::AfterBoundary => {
            let next = p.in_state(MultiPartParserState::Header);
            assert(next.with_contents(contents) == q.in_state(MultiPartParserState::Header));
            assert(p.keeping(data, index).with_contents(contents) == q.keeping(data, index));
            assert(p.at_end(data, index + 2).with_contents(contents) == q.at_end(data, index + 2));
            if data.len() - index >= 2 && data[index] == 13 && data[index + 1] == 10 {
                lemma_run_contents(next, data, index + 2, contents);
            }
        },
        MultiPartParserState::Header => {
            lemma_run_header(p, data, index, contents);
        },
        MultiPartParserState::Body => {
            if p.part.is_nested() {
                lemma_run_nested(p, data, index, contents);
            } else {
                lemma_search_contents(p, data, index, contents);
                assert(p.run(data, index) == p.search_boundary(data, index));
                assert(q.run(data, index) == q.search_boundary(data, index));
            }
        },
        MultiPartParserState::Epilogue => {
            lemma_found(data, p.delimiter(), index);
            let from = tail_from(data, index, p.delimiter());
            assert(p.keeping(data, from).with_contents(contents) == q.keeping(data, from));
            lemma_at_boundary(p, contents);
            if let Some(at) = first_occurrence(data, p.delimiter(), index) {
                lemma_run_contents(p.at_boundary(), data, at + p.delimiter().len(), contents);
            }
        },
    }
}

/// What reading a header section does, does not depend on what stands for files.
#[verifier::rlimit(40)]
proof fn lemma_run_header<F>(
    p: ParserView<F>,
    data: Seq<u8>,
    index: int,
    contents: spec_fn(F) -> Seq<u8>,
)
    requires
        0 <= index <= data.len(),
        p.state is Header,
    ensures
        p.with_contents(contents).run(data, index) == result_with_contents(
            p.run(data, index),
            contents,
        ),
    decreases 0nat, data.len() - index, 5int,
{
    let q = p.with_contents(contents);
    let none = Seq::<u8>::empty();
    lemma_found(data, double_newline(), index);
    assert(p.keeping(data, index).with_contents(contents) == q.keeping(data, index));
    if data.len() - index >= 2 && data[index] == 13 && data[index + 1] == 10 {
        assert(p.headed(none).with_contents(contents) == q.headed(none));
        lemma_run_contents(p.headed(none), data, index + 2, contents);
    } else {
        if let Some(end) = first_occurrence(data, double_newline(), index) {
            let section = data.subrange(index, end);
            assert(p.headed(section).with_contents(contents) == q.headed(section));
            lemma_run_contents(p.headed(section), data, end + 4, contents);
        }
    }
}

/// What beginning to read a body that is made up of parts does, does not depend on what
/// stands for files.
#[verifier::rlimit(40)]
proof fn lemma_run_nested<F>(
    p: ParserView<F>,
    data: Seq<u8>,
    index: int,
    contents: spec_fn(F) -> Seq<u8>,
)
    requires
        0 <= index <= data.len(),
        p.state is Body,
        p.part.is_nested(),
    ensures
        p.with_contents(contents).run(data, index) == result_with_contents(
            p.run(data, index),
            contents,
        ),
    decreases 0nat, data.len() - index, 5int,
{
    let q = p.with_contents(contents);
    if let Some(boundary) = p.part.inner_boundary() {
        let inner = p.inner_parser(encode_utf8(boundary));
        let rest = data.subrange(index, data.len() as int);
        assert(parts_with_contents(Seq::<PartView<F>>::empty(), contents) =~= Seq::<
            PartView<Seq<u8>>,
        >::empty());
        assert(inner.with_contents(contents) == q.inner_parser(encode_utf8(boundary)));
        lemma_feed_contents(inner, rest, contents);
        let (fed, outcome) = inner.feed(rest);
        lemma_around(p, fed, contents);
        if outcome is Complete && fed.state is Done && fed.buffer.len() < data.len() - index {
            let from = data.len() - fed.buffer.len();
            lemma_run_contents(p.behind_inner(fed), data, from, contents);
            assert(p.run(data, index) == p.behind_inner(fed).run(data, from));
            assert(q.run(data, index) == q.behind_inner(fed.with_contents(contents)).run(
                data,
                from,
            ));
        }
    }
}

/// What reading the body of a part does, does not depend on what stands for files.
proof fn lemma_search_contents<F>(
    p: ParserView<F>,
    data: Seq<u8>,
    index: int,
    contents: spec_fn(F) -> Seq<u8>,
)
    requires
        0 <= index <= data.len(),
    ensures
        p.with_contents(contents).search_boundary(data, index) == result_with_contents(
            p.search_boundary(data, index),
            contents,
        ),
    decreases 0nat, data.len() - index, 5int,
{
    let q = p.with_contents(contents);
    lemma_found(data, p.delimiter(), index);
    lemma_tail_from(data, index, p.delimiter());
    assert(p.keeping(data, index).with_contents(contents) == q.keeping(data, index));
    if data.len() - index >= p.boundary.len() {
        match first_occurrence(data, p.delimiter(), index) {
            Some(at) => {
                let bytes = data.subrange(index, at);
                lemma_deliver_contents(
                    p,
                    bytes,
                    data,
                    at + p.delimiter().len(),
                    true,
                    contents,
                );
            },
            None => {
                let at = tail_from(data, index, p.delimiter());
                lemma_deliver_contents(p, data.subrange(index, at), data, at, false, contents);
            },
        }
    }
}

/// What handing bytes to a part does, does not depend on what stands for files.
proof fn lemma_deliver_contents<F>(
    p: ParserView<F>,
    bytes: Seq<u8>,
    data: Seq<u8>,
    next: int,
    at_boundary: bool,
    contents: spec_fn(F) -> Seq<u8>,
)
    requires
        0 <= next <= data.len(),
    ensures
        p.with_contents(contents).deliver(bytes, data, next, at_boundary) == result_with_contents(
            p.deliver(bytes, data, next, at_boundary),
            contents,
        ),
    decreases
            0nat,
            (if at_boundary {
                data.len() - next + 1
            } else {
                0
            }),
            4int,
{
    let q = p.with_contents(contents);
    if bytes.len() == 0 {
        lemma_proceed_contents(p, data, next, at_boundary, contents);
    } else {
        lemma_written(p.part, bytes, contents);
        let (part, written) = p.part.written(bytes);
        let after = ParserView { part, ..p };
        assert(after.with_contents(contents) == (ParserView {
            part: part.with_contents(contents),
            ..q
        }));
        if written is Stored {
            lemma_proceed_contents(after, data, next, at_boundary, contents);
        }
    }
}

/// What going on does, does not depend on what stands for files.
proof fn lemma_proceed_contents<F>(
    p: ParserView<F>,
    data: Seq<u8>,
    next: int,
    at_boundary: bool,
    contents: spec_fn(F) -> Seq<u8>,
)
    requires
        0 <= next <= data.len(),
    ensures
        p.with_contents(contents).proceed(data, next, at_boundary) == result_with_contents(
            p.proceed(data, next, at_boundary),
            contents,
        ),
    decreases
            0nat,
            (if at_boundary {
                data.len() - next + 1
            } else {
                0
            }),
            3int,
{
    let q = p.with_contents(contents);
    assert(p.keeping(data, next).with_contents(contents) == q.keeping(data, next));
    if at_boundary {
        lemma_at_boundary(p, contents);
        lemma_run_contents(p.at_boundary(), data, next, contents);
    }
}

/// What an answer does, does not depend on what stands for files.
#[verifier::rlimit(40)]
pub(crate) proof fn lemma_answered_contents<F>(
    p: ParserView<F>,
    reply: FileReply<F>,
    contents: spec_fn(F) -> Seq<u8>,
)
    requires
        p.consistent(),
        p.is_waiting(),
    ensures
        p.with_contents(contents).answered(reply.with_contents(contents)) == result_with_contents(
            p.answered(reply),
            contents,
        ),
    decreases p,
{
    let q = p.with_contents(contents);
    match p.child {
        Some(child) => {
            lemma_answered_contents(*child, reply, contents);
            let (after, outcome) = child.answered(reply);
            lemma_after_inner_contents(p, after, outcome, contents);
        },
        None => {
            let pending = p.pending->0;
            let free = ParserView { pending: None, ..p };
            assert(free.with_contents(contents) == (ParserView { pending: None, ..q }));
            if let FileReply::Stored(Ok(file)) = reply {
                let stored = ParserView { part: p.part.with_file(file), ..free };
                assert(stored.with_contents(contents) == (ParserView {
                    part: q.part.with_file(contents(file)),
                    pending: None,
                    ..q
                }));
                lemma_proceed_contents(
                    stored,
                    pending.data,
                    pending.next,
                    pending.at_boundary,
                    contents,
                );
            }
        },
    }
}

/// What every call does is the same whatever stands for files: it does not matter
/// whether handles are exchanged for what their files hold before the call or after it.
pub proof fn law_handles_are_only_passed_on<F>(
    p: ParserView<F>,
    call: Call<F>,
    contents: spec_fn(F) -> Seq<u8>,
)
    requires
        p.consistent(),
        p.accepts(call),
    ensures
        match call {
            Call::Chunk(chunk) => p.with_contents(contents).feed(chunk) == result_with_contents(
                p.feed(chunk),
                contents,
            ),
            Call::Answer(reply) => p.with_contents(contents).answered(
                reply.with_contents(contents),
            ) == result_with_contents(p.answered(reply), contents),
        },
        p.with_contents(contents).consistent(),
        p.with_contents(contents).is_waiting() == p.is_waiting(),
        p.with_contents(contents).awaits_size() == p.awaits_size(),
{
    lemma_waits_contents(p, contents);
    match call {
        Call::Chunk(chunk) => lemma_feed_contents(p, chunk, contents),
        Call::Answer(reply) => lemma_answered_contents(p, reply, contents),
    }
}

impl<F> PartView<F> {
    /// All the bytes of the data, where they are.
    pub open spec fn held(self, contents: spec_fn(F) -> Seq<u8>) -> Seq<u8> {
        match self.data {
            None => Seq::empty(),
            Some(DataView::Bytes(bytes)) => bytes,
            Some(DataView::File(file)) => contents(file),
        }
    }

    /// `after` is what becomes of the part when `chunk` is handed to it and what it
    /// needs is done faithfully: where the data have to go to a new file, it holds them
    /// all; where they have to go to the file of the part, that has room for them and
    /// holds them behind what it held.
    pub open spec fn takes(
        self,
        chunk: Seq<u8>,
        after: PartView<F>,
        contents: spec_fn(F) -> Seq<u8>,
    ) -> bool {
        let (part, written) = self.written(chunk);
        match written {
            Written::Stored => after == part,
            Written::Create(all) => {
                &&& after.data matches Some(DataView::File(new))
                &&& after == part.with_file(new)
                &&& contents(new) == all
            },
            Written::Measure(file) => {
                &&& contents(file).len() + chunk.len() <= self.file_limit
                &&& after.data matches Some(DataView::File(new))
                &&& after == part.with_file(new)
                &&& contents(new) == contents(file) + chunk
            },
            Written::TooLarge => false,
        }
    }
}

/// Whatever is handed to a part, one chunk after the other, it holds: nothing is lost,
/// repeated or put elsewhere, also where the data go from memory to a file. Nothing else
/// of the part changes.
pub proof fn law_writes_add_up<F>(
    parts: Seq<PartView<F>>,
    chunks: Seq<Seq<u8>>,
    contents: spec_fn(F) -> Seq<u8>,
)
    requires
        parts.len() == chunks.len() + 1,
        forall|i: int|
            0 <= i < chunks.len() ==> (#[trigger] parts[i]).takes(
                chunks[i],
                parts[i + 1],
                contents,
            ),
    ensures
        parts.last().held(contents) == parts[0].held(contents) + chunks.flatten(),
        chunks.len() > 0 ==> parts.last().data is Some,
        parts.last().without_data() == parts[0].without_data(),
    decreases chunks.len(),
{
    if chunks.len() == 0 {
        assert(parts[0].held(contents) + chunks.flatten() =~= parts[0].held(contents));
    } else {
        let later_parts = parts.drop_first();
        let later = chunks.drop_first();
        let first = parts[0];
        assert(first.takes(chunks[0], parts[1], contents));
        assert(first.in_memory() + chunks[0] == first.held(contents) + chunks[0] || first.data
            matches Some(DataView::File(_)));
        assert(parts[1].held(contents) =~= first.held(contents) + chunks[0]);
        assert(parts[1].data is Some);
        assert forall|i: int| 0 <= i < later.len() implies (#[trigger] later_parts[i]).takes(
            later[i],
            later_parts[i + 1],
            contents,
        ) by {
            assert(parts[i + 1].takes(chunks[i + 1], parts[i + 2], contents));
        }
        law_writes_add_up(later_parts, later, contents);
        assert(chunks.flatten() == chunks[0] + later.flatten());
        assert((first.held(contents) + chunks[0]) + later.flatten() =~= first.held(contents)
            + chunks.flatten());
        assert(later_parts.last() == parts.last());
    }
}

} // verus!
