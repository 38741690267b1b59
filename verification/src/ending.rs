//! What follows the last boundary, in the chunk that completes it, is ignored.

use crate::laws::{
    is_talk, lemma_answered, lemma_behind_inner, lemma_closing, lemma_feed, talk,
};
use crate::machine::{
    is_valid_boundary, lemma_found, MultiPartParserState, Outcome, ParserView, PendingView,
};
use crate::multipart::FileReply;
use crate::search::{
    double_newline, first_occurrence, is_first_occurrence, lemma_first_occurrence,
    lemma_tail_from, occurs_at, tail_from,
};
use vstd::prelude::*;
use vstd::utf8::encode_utf8;

verus! {

impl<F> ParserView<F> {
    /// The parser, or the one at work inside it, has come to the end of what it was
    /// given and has not found what it was looking for.
    spec fn is_left_open(self) -> bool
        decreases self,
    {
        match self.child {
            Some(child) => child.is_left_open(),
            None => match self.pending {
                Some(pending) => !pending.at_boundary,
                None => !(self.state is Done),
            },
        }
    }

    /// The parser when more had come behind what it was given.
    spec fn given_more(self, more: Seq<u8>) -> ParserView<F>
        decreases self,
    {
        match self.child {
            Some(child) => self.around(child.given_more(more)),
            None => match self.pending {
                Some(pending) => ParserView {
                    pending: Some(PendingView { data: pending.data + more, ..pending }),
                    ..self
                },
                None => if self.is_inner {
                    ParserView { buffer: self.buffer + more, ..self }
                } else {
                    self
                },
            },
        }
    }
}

/// Unless a call left the parser open, or failed, it goes the same way when more comes
/// behind what it was given.
spec fn goes_same_way<F>(
    result: (ParserView<F>, Outcome<F>),
    longer: (ParserView<F>, Outcome<F>),
    more: Seq<u8>,
) -> bool {
    result.1 is Failure || result.0.is_left_open() || longer == (
        result.0.given_more(more),
        result.1,
    )
}

/// A parser that is not done and waits for nothing is left open.
proof fn lemma_left_open<F>(p: ParserView<F>)
    requires
        p.consistent(),
        !p.is_waiting(),
        !(p.state is Done),
    ensures
        p.is_left_open(),
    decreases p,
{
    if let Some(child) = p.child {
        lemma_left_open(*child);
    }
}

/// What is found first in data is found first in longer ones.
proof fn lemma_found_in_longer(data: Seq<u8>, more: Seq<u8>, needle: Seq<u8>, index: int, at: int)
    requires
        0 <= index,
        is_first_occurrence(data, needle, index, at),
    ensures
        first_occurrence(data + more, needle, index) == Some(at),
        (data + more).subrange(index, at) == data.subrange(index, at),
{
    let longer = data + more;
    assert(longer.subrange(at, at + needle.len()) =~= data.subrange(at, at + needle.len()));
    assert forall|i: int| index <= i < at implies !occurs_at(longer, needle, i) by {
        if occurs_at(longer, needle, i) {
            assert(data.subrange(i, i + needle.len()) =~= longer.subrange(i, i + needle.len()));
            assert(occurs_at(data, needle, i));
        }
    }
    lemma_first_occurrence(longer, needle, index, at);
    assert(longer.subrange(index, at) =~= data.subrange(index, at));
}

/// A chunk goes the same way when it is longer.
#[verifier::rlimit(40)]
proof fn lemma_longer_chunk<F>(p: ParserView<F>, chunk: Seq<u8>, more: Seq<u8>)
    requires
        p.consistent(),
        !p.is_waiting(),
    ensures
        goes_same_way(p.feed(chunk), p.feed(chunk + more), more),
    decreases
            p.depth(),
            p.buffer.len() + chunk.len(),
            (if p.state is Start {
                1int
            } else {
                7int
            }),
{
    if !(p.state is Done) {
        match p.child {
            None => {
                let free = ParserView { buffer: Seq::<u8>::empty(), ..p };
                let data = p.buffer + chunk;
                assert(p.buffer + (chunk + more) =~= data + more);
                lemma_longer_run(free, data, 0, more);
                assert(p.feed(chunk) == free.run(data, 0));
                assert(p.feed(chunk + more) == free.run(data + more, 0));
            },
            Some(child) => {
                lemma_longer_chunk(*child, chunk, more);
                lemma_feed(*child, chunk);
                let (fed, outcome) = child.feed(chunk);
                assert(p.feed(chunk) == p.after_inner(fed, outcome));
                lemma_longer_inner(p, *child, fed, outcome, child.feed(chunk + more), more);
                assert(p.feed(chunk + more) == p.after_inner(
                    child.feed(chunk + more).0,
                    child.feed(chunk + more).1,
                ));
            },
        }
    }
}

/// What comes of a call of the parser inside goes the same way when more comes.
#[verifier::rlimit(40)]
proof fn lemma_longer_inner<F>(
    p: ParserView<F>,
    child: ParserView<F>,
    fed: ParserView<F>,
    outcome: Outcome<F>,
    longer: (ParserView<F>, Outcome<F>),
    more: Seq<u8>,
)
    requires
        p.consistent(),
        p.child == Some(Box::new(child)),
        child.leads_to((fed, outcome)),
        outcome is Failure || outcome is Request ==> !(fed.state is Done),
        goes_same_way((fed, outcome), longer, more),
    ensures
        goes_same_way(
            p.after_inner(fed, outcome),
            p.after_inner(longer.0, longer.1),
            more,
        ),
    decreases 0nat, fed.buffer.len(), 8int,
{
    if outcome is Complete && fed.state is Done {
        assert(fed.consistent());
        assert(fed.child is None);
        assert(fed.pending is None);
        let behind = p.behind_inner(fed);
        lemma_behind_inner(p, fed);
        lemma_longer_run(behind, fed.buffer, 0, more);
        assert(p.behind_inner(longer.0) == behind);
        assert(longer.0.buffer == fed.buffer + more);
    } else if outcome is Complete {
        lemma_left_open(fed);
        assert(p.around(fed).is_left_open() == fed.is_left_open());
    } else if outcome is Request {
        assert(p.around(fed).is_left_open() == fed.is_left_open());
        assert(p.around(fed).given_more(more) == p.around(fed.given_more(more)));
    }
}

/// Reading goes the same way when more comes behind the data.
#[verifier::rlimit(60)]
proof fn lemma_longer_run<F>(p: ParserView<F>, data: Seq<u8>, index: int, more: Seq<u8>)
    requires
        p.at_rest(),
        !(p.state is Done),
        0 <= index <= data.len(),
    ensures
        goes_same_way(p.run(data, index), p.run(data + more, index), more),
    decreases
            0nat,
            data.len() - index,
            (if p.state is Start {
                0int
            } else {
                6int
            }),
{
    let longer = data + more;
    match p.state {
        MultiPartParserState::Start => {
            let opening = p.opening();
            let next = p.in_state(MultiPartParserState::AfterBoundary);
            if is_valid_boundary(p.boundary) && occurs_at(data, opening, index) {
                assert(longer.subrange(index, index + opening.len()) =~= data.subrange(
                    index,
                    index + opening.len(),
                ));
                lemma_longer_run(next, data, index + opening.len(), more);
                assert(p.run(data, index) == next.run(data, index + opening.len()));
                assert(p.run(longer, index) == next.run(longer, index + opening.len()));
            }
        },
        MultiPartParserState::AfterBoundary => {
            let next = p.in_state(MultiPartParserState::Header);
            if data.len() - index >= 2 {
                assert(longer[index] == data[index] && longer[index + 1] == data[index + 1]);
                if data[index] == 13 && data[index + 1] == 10 {
                    lemma_longer_run(next, data, index + 2, more);
                } else {
                    assert(longer.subrange(index + 2, longer.len() as int) =~= data.subrange(
                        index + 2,
                        data.len() as int,
                    ) + more);
                }
            }
        },
        MultiPartParserState::Header => {
            lemma_longer_header(p, data, index, more);
        },
        MultiPartParserState::Body => {
            if p.part.is_nested() {
                lemma_longer_nested(p, data, index, more);
            } else {
                lemma_longer_search(p, data, index, more);
                assert(p.run(data, index) == p.search_boundary(data, index));
                assert(p.run(longer, index) == p.search_boundary(longer, index));
            }
        },
        MultiPartParserState::Epilogue => {
            lemma_found(data, p.delimiter(), index);
            if let Some(at) = first_occurrence(data, p.delimiter(), index) {
                let over = p.at_boundary();
                let next = at + p.delimiter().len();
                lemma_found_in_longer(data, more, p.delimiter(), index, at);
                lemma_closing(p);
                lemma_longer_run(over, data, next, more);
                assert(p.run(data, index) == over.run(data, next));
                assert(p.run(longer, index) == over.run(longer, next));
            }
        },
        MultiPartParserState::Done => {},
    }
}

/// Reading a header section goes the same way when more comes behind the data.
#[verifier::rlimit(40)]
proof fn lemma_longer_header<F>(p: ParserView<F>, data: Seq<u8>, index: int, more: Seq<u8>)
    requires
        p.at_rest(),
        p.state is Header,
        0 <= index <= data.len(),
    ensures
        goes_same_way(p.run(data, index), p.run(data + more, index), more),
    decreases 0nat, data.len() - index, 5int,
{
    let longer = data + more;
    lemma_found(data, double_newline(), index);
    if data.len() - index >= 2 {
        assert(longer[index] == data[index] && longer[index + 1] == data[index + 1]);
    }
    if data.len() - index >= 2 && data[index] == 13 && data[index + 1] == 10 {
        let next = p.headed(Seq::empty());
        lemma_longer_run(next, data, index + 2, more);
        assert(p.run(longer, index) == next.run(longer, index + 2));
    } else if let Some(end) = first_occurrence(data, double_newline(), index) {
        let next = p.headed(data.subrange(index, end));
        lemma_found_in_longer(data, more, double_newline(), index, end);
        lemma_longer_run(next, data, end + 4, more);
    }
}

/// Beginning to read a body that is made up of parts goes the same way when more comes
/// behind the data.
#[verifier::rlimit(60)]
proof fn lemma_longer_nested<F>(p: ParserView<F>, data: Seq<u8>, index: int, more: Seq<u8>)
    requires
        p.at_rest(),
        p.state is Body,
        p.part.is_nested(),
        0 <= index <= data.len(),
    ensures
        goes_same_way(p.run(data, index), p.run(data + more, index), more),
    decreases 0nat, data.len() - index, 5int,
{
    let longer = data + more;
    if let Some(boundary) = p.part.inner_boundary() {
        let inner = p.inner_parser(encode_utf8(boundary));
        let rest = data.subrange(index, data.len() as int);
        assert(longer.subrange(index, longer.len() as int) =~= rest + more);
        lemma_feed(inner, rest);
        lemma_longer_chunk(inner, rest, more);
        let (fed, outcome) = inner.feed(rest);
        let (fed_more, outcome_more) = inner.feed(rest + more);
        if outcome is Complete && fed.state is Done {
            let behind = p.behind_inner(fed);
            let from = data.len() - fed.buffer.len();
            assert(fed.consistent());
            assert(fed.child is None);
            assert(fed.pending is None);
            lemma_behind_inner(p, fed);
            lemma_longer_run(behind, data, from, more);
            assert(p.behind_inner(fed_more) == behind);
            assert(fed_more.buffer.len() == fed.buffer.len() + more.len());
            assert(p.run(data, index) == behind.run(data, from));
            assert(p.run(longer, index) == behind.run(longer, from));
        } else if outcome is Complete {
            lemma_left_open(fed);
            assert(p.around(fed).is_left_open() == fed.is_left_open());
        } else if outcome is Request {
            assert(p.around(fed).is_left_open() == fed.is_left_open());
            assert(p.around(fed).given_more(more) == p.around(fed.given_more(more)));
        }
    }
}

/// Reading the body of a part goes the same way when more comes behind the data.
#[verifier::rlimit(40)]
proof fn lemma_longer_search<F>(p: ParserView<F>, data: Seq<u8>, index: int, more: Seq<u8>)
    requires
        p.at_rest(),
        p.state is Body,
        0 <= index <= data.len(),
    ensures
        goes_same_way(p.search_boundary(data, index), p.search_boundary(data + more, index), more),
    decreases 0nat, data.len() - index, 5int,
{
    let longer = data + more;
    let delimiter = p.delimiter();
    lemma_found(data, delimiter, index);
    lemma_tail_from(data, index, delimiter);
    if data.len() - index >= p.boundary.len() {
        match first_occurrence(data, delimiter, index) {
            Some(at) => {
                lemma_found_in_longer(data, more, delimiter, index, at);
                lemma_longer_deliver(
                    p,
                    data.subrange(index, at),
                    data,
                    at + delimiter.len(),
                    more,
                );
            },
            None => {
                let at = tail_from(data, index, delimiter);
                lemma_deliver_left_open(p, data.subrange(index, at), data, at);
            },
        }
    }
}

/// Handing bytes to a part where no boundary ended leaves the parser open.
proof fn lemma_deliver_left_open<F>(p: ParserView<F>, bytes: Seq<u8>, data: Seq<u8>, next: int)
    requires
        p.at_rest(),
        p.state is Body,
        0 <= next <= data.len(),
    ensures
        p.deliver(bytes, data, next, false).1 is Failure || p.deliver(
            bytes,
            data,
            next,
            false,
        ).0.is_left_open(),
{
}

/// Handing bytes to a part where a boundary ended goes the same way when more comes
/// behind the data.
#[verifier::rlimit(40)]
proof fn lemma_longer_deliver<F>(
    p: ParserView<F>,
    bytes: Seq<u8>,
    data: Seq<u8>,
    next: int,
    more: Seq<u8>,
)
    requires
        p.at_rest(),
        p.state is Body,
        0 <= next <= data.len(),
    ensures
        goes_same_way(
            p.deliver(bytes, data, next, true),
            p.deliver(bytes, data + more, next, true),
            more,
        ),
    decreases 0nat, data.len() - next + 1, 4int,
{
    if bytes.len() == 0 {
        lemma_longer_proceed(p, data, next, more);
    } else {
        let (part, written) = p.part.written(bytes);
        let after = ParserView { part, ..p };
        if written is Stored {
            lemma_longer_proceed(after, data, next, more);
        }
    }
}

/// Going on where a boundary ended goes the same way when more comes behind the data.
proof fn lemma_longer_proceed<F>(p: ParserView<F>, data: Seq<u8>, next: int, more: Seq<u8>)
    requires
        p.at_rest(),
        p.state is Body,
        0 <= next <= data.len(),
    ensures
        goes_same_way(p.proceed(data, next, true), p.proceed(data + more, next, true), more),
    decreases 0nat, data.len() - next + 1, 3int,
{
    lemma_closing(p);
    lemma_longer_run(p.at_boundary(), data, next, more);
}

/// An answer goes the same way when more had come behind what the parser was given, and
/// a parser that was left open stays so.
#[verifier::rlimit(60)]
proof fn lemma_longer_answer<F>(p: ParserView<F>, reply: FileReply<F>, more: Seq<u8>)
    requires
        p.consistent(),
        p.is_waiting(),
        p.awaits_size() == (reply is Measured),
    ensures
        p.is_left_open() ==> p.answered(reply).1 is Failure || p.answered(
            reply,
        ).0.is_left_open(),
        !p.is_left_open() ==> goes_same_way(
            p.answered(reply),
            p.given_more(more).answered(reply),
            more,
        ),
    decreases p,
{
    match p.child {
        Some(child) => {
            let (after, outcome) = child.answered(reply);
            let longer = child.given_more(more).answered(reply);
            let q = p.around(child.given_more(more));
            lemma_answered(*child, reply);
            lemma_longer_answer(*child, reply, more);
            assert(p.answered(reply) == p.after_inner(after, outcome));
            if child.is_left_open() {
                assert(after.consistent());
                if after.state is Done && !(outcome is Failure) {
                    assert(after.child is None && after.pending is None);
                }
                assert(p.around(after).is_left_open() == after.is_left_open());
            } else {
                lemma_longer_inner(p, *child, after, outcome, longer, more);
                assert(q.behind_inner(longer.0) == p.behind_inner(longer.0));
                assert(q.around(longer.0) == p.around(longer.0));
                assert(q.after_inner(longer.0, longer.1) == p.after_inner(longer.0, longer.1));
                assert(p.given_more(more) == q);
                assert(q.answered(reply) == q.after_inner(longer.0, longer.1));
            }
        },
        None => {
            let pending = p.pending->0;
            if let FileReply::Stored(Ok(file)) = reply {
                let free = ParserView { part: p.part.with_file(file), pending: None, ..p };
                if pending.at_boundary {
                    lemma_longer_proceed(free, pending.data, pending.next, more);
                }
            }
        },
    }
}

/// Answers lead the same way when more had come behind what the parser was given.
proof fn lemma_longer_talk<F>(
    p: ParserView<F>,
    outcome: Outcome<F>,
    replies: Seq<FileReply<F>>,
    more: Seq<u8>,
)
    requires
        p.consistent(),
        p.is_waiting() == (outcome is Request),
        is_talk(p, outcome, replies),
        talk(p, outcome, replies).1 is Complete,
        talk(p, outcome, replies).0.state is Done,
    ensures
        !p.is_left_open(),
        is_talk(p.given_more(more), outcome, replies),
        talk(p.given_more(more), outcome, replies) == (
            talk(p, outcome, replies).0.given_more(more),
            talk(p, outcome, replies).1,
        ),
    decreases replies.len(),
{
    lemma_given_more_waits(p, more);
    if outcome is Request {
        let reply = replies[0];
        let (after, next) = p.answered(reply);
        lemma_answered(p, reply);
        lemma_longer_answer(p, reply, more);
        lemma_longer_talk(after, next, replies.drop_first(), more);
    }
}

/// A parser waits for the same when more had come behind what it was given.
proof fn lemma_given_more_waits<F>(p: ParserView<F>, more: Seq<u8>)
    ensures
        p.given_more(more).is_waiting() == p.is_waiting(),
        p.given_more(more).awaits_size() == p.awaits_size(),
    decreases p,
{
    if let Some(child) = p.child {
        lemma_given_more_waits(*child, more);
    }
}

/// What follows the last boundary, in the chunk that completes it, is ignored: where a
/// chunk, with its requests answered, finishes a body, the same chunk with more behind it
/// asks for the same, and leaves the parser the same.
pub proof fn law_what_follows_the_end_is_ignored<F>(
    p: ParserView<F>,
    chunk: Seq<u8>,
    more: Seq<u8>,
    replies: Seq<FileReply<F>>,
)
    requires
        p.consistent(),
        !p.is_waiting(),
        !p.is_inner,
        is_talk(p.feed(chunk).0, p.feed(chunk).1, replies),
        talk(p.feed(chunk).0, p.feed(chunk).1, replies).1 is Complete,
        talk(p.feed(chunk).0, p.feed(chunk).1, replies).0.state is Done,
    ensures
        p.feed(chunk + more).1 == p.feed(chunk).1,
        is_talk(p.feed(chunk + more).0, p.feed(chunk + more).1, replies),
        talk(p.feed(chunk + more).0, p.feed(chunk + more).1, replies) == talk(
            p.feed(chunk).0,
            p.feed(chunk).1,
            replies,
        ),
{
    let (after, outcome) = p.feed(chunk);
    lemma_feed(p, chunk);
    lemma_longer_chunk(p, chunk, more);
    lemma_longer_talk(after, outcome, replies, more);
    lemma_talk_keeps(after, outcome, replies);
    let end = talk(after, outcome, replies).0;
    assert(end.child is None && end.pending is None);
}

/// What answers keep.
proof fn lemma_talk_keeps<F>(p: ParserView<F>, outcome: Outcome<F>, replies: Seq<FileReply<F>>)
    requires
        p.consistent(),
        p.is_waiting() == (outcome is Request),
        is_talk(p, outcome, replies),
    ensures
        talk(p, outcome, replies).0.consistent(),
        talk(p, outcome, replies).0.configured_as(p),
        !talk(p, outcome, replies).0.is_waiting(),
    decreases replies.len(),
{
    if outcome is Request {
        let (after, next) = p.answered(replies[0]);
        lemma_answered(p, replies[0]);
        lemma_talk_keeps(after, next, replies.drop_first());
    }
}

} // verus!
