//! Searching a byte string for another one.

use vstd::prelude::*;
use vstd::slice::slice_subrange;

verus! {

/// The empty line that ends a header section, with the line end before it.
pub open spec fn double_newline() -> Seq<u8> {
    seq![13u8, 10u8, 13u8, 10u8]
}

/// `needle` stands in `haystack` at position `at`.
pub open spec fn occurs_at(haystack: Seq<u8>, needle: Seq<u8>, at: int) -> bool {
    &&& 0 <= at
    &&& at + needle.len() <= haystack.len()
    &&& haystack.subrange(at, at + needle.len()) == needle
}

/// `at` is the first position, from `start` on, at which `needle` stands.
pub open spec fn is_first_occurrence(
    haystack: Seq<u8>,
    needle: Seq<u8>,
    start: int,
    at: int,
) -> bool {
    &&& start <= at
    &&& occurs_at(haystack, needle, at)
    &&& forall|i: int| start <= i < at ==> !occurs_at(haystack, needle, i)
}

/// The first position, from `start` on, at which `needle` stands in `haystack`.
pub open spec fn first_occurrence(haystack: Seq<u8>, needle: Seq<u8>, start: int) -> Option<int> {
    if exists|at: int| is_first_occurrence(haystack, needle, start, at) {
        Some(choose|at: int| is_first_occurrence(haystack, needle, start, at))
    } else {
        None
    }
}

/// What `haystack` holds from `at` to its end is a nonempty beginning of `needle`.
pub open spec fn is_partial_tail(haystack: Seq<u8>, needle: Seq<u8>, at: int) -> bool {
    &&& 0 <= at < haystack.len()
    &&& haystack.len() - at <= needle.len()
    &&& haystack.subrange(at, haystack.len() as int) == needle.subrange(0, haystack.len() - at)
}

/// `at` is where the longest tail of `haystack` begins that is a beginning of `needle`.
pub open spec fn is_longest_partial_tail(haystack: Seq<u8>, needle: Seq<u8>, at: int) -> bool {
    &&& is_partial_tail(haystack, needle, at)
    &&& forall|i: int| i < at ==> !is_partial_tail(haystack, needle, i)
}

/// Where the longest tail of `haystack` begins that is a beginning of `needle`.
pub open spec fn partial_tail(haystack: Seq<u8>, needle: Seq<u8>) -> Option<int> {
    if exists|at: int| is_longest_partial_tail(haystack, needle, at) {
        Some(choose|at: int| is_longest_partial_tail(haystack, needle, at))
    } else {
        None
    }
}

/// From where on `haystack` may hold a beginning of `needle` at its end: where its
/// longest tail begins, from `start` on, that is one; its end where there is none.
pub open spec fn tail_from(haystack: Seq<u8>, start: int, needle: Seq<u8>) -> int {
    match partial_tail(haystack.subrange(start, haystack.len() as int), needle) {
        Some(at) => start + at,
        None => haystack.len() as int,
    }
}

/// There is one first occurrence at most.
pub proof fn lemma_first_occurrence(haystack: Seq<u8>, needle: Seq<u8>, start: int, at: int)
    requires
        is_first_occurrence(haystack, needle, start, at),
    ensures
        first_occurrence(haystack, needle, start) == Some(at),
{
    let chosen = choose|i: int| is_first_occurrence(haystack, needle, start, i);
    assert(is_first_occurrence(haystack, needle, start, chosen));
    assert(chosen == at);
}

/// Where no occurrence is, there is no first one.
pub proof fn lemma_no_occurrence(haystack: Seq<u8>, needle: Seq<u8>, start: int)
    requires
        forall|i: int| start <= i ==> !occurs_at(haystack, needle, i),
    ensures
        first_occurrence(haystack, needle, start) is None,
{
}

/// There is one longest partial tail at most.
pub proof fn lemma_partial_tail(haystack: Seq<u8>, needle: Seq<u8>, at: int)
    requires
        is_longest_partial_tail(haystack, needle, at),
    ensures
        partial_tail(haystack, needle) == Some(at),
{
    let chosen = choose|i: int| is_longest_partial_tail(haystack, needle, i);
    assert(is_longest_partial_tail(haystack, needle, chosen));
    assert(chosen == at);
}

/// Such a tail is no longer than `needle` and does not begin before `start`.
pub proof fn lemma_tail_from(haystack: Seq<u8>, start: int, needle: Seq<u8>)
    requires
        0 <= start <= haystack.len(),
    ensures
        start <= tail_from(haystack, start, needle) <= haystack.len(),
        haystack.len() - tail_from(haystack, start, needle) <= needle.len(),
{
    let rest = haystack.subrange(start, haystack.len() as int);
    if let Some(at) = partial_tail(rest, needle) {
        assert(is_longest_partial_tail(rest, needle, at));
    }
}

/// Where there is an occurrence, there is a first one.
pub(crate) proof fn lemma_earliest(haystack: Seq<u8>, needle: Seq<u8>, start: int, at: int)
    requires
        start <= at,
        occurs_at(haystack, needle, at),
    ensures
        first_occurrence(haystack, needle, start) matches Some(first) && first <= at
            && is_first_occurrence(haystack, needle, start, first),
    decreases at - start,
{
    if is_first_occurrence(haystack, needle, start, at) {
        lemma_first_occurrence(haystack, needle, start, at);
    } else {
        let earlier = choose|i: int| start <= i < at && occurs_at(haystack, needle, i);
        lemma_earliest(haystack, needle, start, earlier);
    }
}

/// Where there is a partial tail, there is a longest one.
pub(crate) proof fn lemma_longest(haystack: Seq<u8>, needle: Seq<u8>, at: int)
    requires
        is_partial_tail(haystack, needle, at),
    ensures
        partial_tail(haystack, needle) matches Some(longest) && longest <= at
            && is_longest_partial_tail(haystack, needle, longest),
    decreases at,
{
    if is_longest_partial_tail(haystack, needle, at) {
        lemma_partial_tail(haystack, needle, at);
    } else {
        let earlier = choose|i: int| i < at && is_partial_tail(haystack, needle, i);
        lemma_longest(haystack, needle, earlier);
    }
}

/// Where data end in an empty line that is not complete, or before it, no more is
/// held of them than comes before that line.
pub(crate) proof fn lemma_tail_in_line(data: Seq<u8>, index: int, length: int)
    requires
        0 <= index <= data.len(),
        0 <= length,
        data.len() - index < length + 4,
        forall|i: int|
            index + length <= i < data.len() ==> #[trigger] data[i] == double_newline()[i - index
                - length],
    ensures
        tail_from(data, index, double_newline()) - index <= length,
{
    let line = double_newline();
    let rest = data.subrange(index, data.len() as int);
    lemma_tail_from(data, index, line);
    if data.len() - index > length {
        assert(rest.subrange(length, rest.len() as int) =~= line.subrange(0, rest.len() - length));
        assert(is_partial_tail(rest, line, length));
        lemma_longest(rest, line, length);
    }
}

/// Where data do not hold an empty line, less than one stands at their end.
pub(crate) proof fn lemma_header_tail(data: Seq<u8>, index: int)
    requires
        0 <= index <= data.len(),
        first_occurrence(data, double_newline(), index) is None,
    ensures
        data.len() - tail_from(data, index, double_newline()) <= 3,
{
    let rest = data.subrange(index, data.len() as int);
    let line = double_newline();
    if let Some(at) = partial_tail(rest, line) {
        assert(is_longest_partial_tail(rest, line, at));
        if rest.len() - at == 4 {
            assert(data.subrange(index + at, index + at + 4) =~= rest.subrange(
                at,
                rest.len() as int,
            ));
            assert(line.subrange(0, 4) =~= line);
            lemma_earliest(data, line, index, index + at);
        }
    }
}

/// Two equal stretches of bytes agree at each position.
proof fn lemma_occurs_byte(haystack: Seq<u8>, needle: Seq<u8>, at: int, k: int)
    requires
        occurs_at(haystack, needle, at),
        0 <= k < needle.len(),
    ensures
        haystack[at + k] == needle[k],
{
    assert(haystack.subrange(at, at + needle.len())[k] == haystack[at + k]);
}

/// The bytes of `haystack` from `at` on are those of `needle`.
pub(crate) fn matches_at(haystack: &[u8], needle: &[u8], at: usize) -> (res: bool)
    requires
        at + needle@.len() <= haystack@.len(),
    ensures
        res == occurs_at(haystack@, needle@, at as int),
{
    let end: usize = haystack.len();
    let mut j: usize = needle.len();
    while j > 0
        invariant
            end == haystack@.len(),
            j <= needle@.len(),
            at + needle@.len() <= haystack@.len(),
            forall|k: int| j <= k < needle@.len() ==> haystack@[at + k] == needle@[k],
        decreases j,
    {
        if haystack[at + (j - 1)] != needle[j - 1] {
            proof {
                if occurs_at(haystack@, needle@, at as int) {
                    lemma_occurs_byte(haystack@, needle@, at as int, j - 1);
                }
            }
            return false;
        }
        j = j - 1;
    }
    assert(haystack@.subrange(at as int, at + needle@.len()) =~= needle@);
    true
}

/// Finds the first empty line that ends a header section: `\r\n\r\n`, from
/// `index` on.
pub fn find_double_newline(chunk: &[u8], index: usize) -> (res: Option<usize>)
    requires
        index <= chunk@.len(),
    ensures
        match res {
            Some(at) => is_first_occurrence(chunk@, double_newline(), index as int, at as int),
            None => forall|i: int| index <= i ==> !occurs_at(chunk@, double_newline(), i),
        },
        match first_occurrence(chunk@, double_newline(), index as int) {
            Some(at) => res == Some(at as usize),
            None => res is None,
        },
{
    let mut at: usize = index;
    while chunk.len() - at >= 4
        invariant
            index <= at <= chunk@.len(),
            forall|i: int| index <= i < at ==> !occurs_at(chunk@, double_newline(), i),
        decreases chunk@.len() - at,
    {
        if chunk[at] == 13 && chunk[at + 1] == 10 && chunk[at + 2] == 13 && chunk[at + 3] == 10 {
            proof {
                assert(chunk@.subrange(at as int, at + 4) =~= double_newline());
                lemma_first_occurrence(chunk@, double_newline(), index as int, at as int);
            }
            return Some(at);
        }
        proof {
            if occurs_at(chunk@, double_newline(), at as int) {
                lemma_occurs_byte(chunk@, double_newline(), at as int, 0);
                lemma_occurs_byte(chunk@, double_newline(), at as int, 1);
                lemma_occurs_byte(chunk@, double_newline(), at as int, 2);
                lemma_occurs_byte(chunk@, double_newline(), at as int, 3);
            }
        }
        at = at + 1;
    }
    proof {
        lemma_no_occurrence(chunk@, double_newline(), index as int);
    }
    None
}

/// How far the search may move on for each value of the last byte of the window:
/// no byte of `needle` that would come under it on the way, has that value.
spec fn skips_are_safe(needle: Seq<u8>, table: Seq<usize>) -> bool {
    &&& table.len() == 256
    &&& forall|b: u8| 1 <= #[trigger] table[b as int] <= needle.len()
    &&& forall|b: u8, j: int|
        #![trigger table[b as int], needle[j]]
        needle.len() - 1 - table[b as int] < j < needle.len() - 1
            ==> needle[j] != b
}

/// Builds the table of skips of `needle`: for each byte value the distance from
/// its last place in `needle`, the final byte left out, to the end; the whole
/// length, where it has no such place.
fn skip_table(needle: &[u8]) -> (table: Vec<usize>)
    requires
        needle@.len() > 0,
    ensures
        skips_are_safe(needle@, table@),
{
    let needle_end: usize = needle.len() - 1;
    let mut table: Vec<usize> = vec![needle.len(); 256];
    let mut i: usize = 0;
    while i < needle_end
        invariant
            needle_end == needle@.len() - 1,
            i <= needle_end,
            table@.len() == 256,
            forall|b: u8| 1 <= #[trigger] table@[b as int] <= needle@.len(),
            forall|b: u8, j: int|
                #![trigger table@[b as int], needle@[j]]
                needle_end - table@[b as int] < j < i ==> needle@[j] != b,
        decreases needle_end - i,
    {
        let byte: u8 = needle[i];
        table[byte as usize] = needle_end - i;
        i = i + 1;
    }
    table
}

/// Finds the first place, from `start` on, where `needle` stands in `haystack`.
pub fn substring_search(haystack: &[u8], start: usize, needle: &[u8]) -> (res: Option<usize>)
    requires
        needle@.len() > 0,
    ensures
        match res {
            Some(at) => is_first_occurrence(haystack@, needle@, start as int, at as int),
            None => forall|i: int| start <= i ==> !occurs_at(haystack@, needle@, i),
        },
        match first_occurrence(haystack@, needle@, start as int) {
            Some(at) => res == Some(at as usize),
            None => res is None,
        },
{
    let table = skip_table(needle);
    let length: usize = needle.len();
    let mut at: usize = start;
    while at <= haystack.len() && haystack.len() - at >= length
        invariant
            length == needle@.len(),
            length > 0,
            start <= at,
            skips_are_safe(needle@, table@),
            forall|i: int| start <= i < at ==> !occurs_at(haystack@, needle@, i),
        decreases haystack@.len() - at,
    {
        if matches_at(haystack, needle, at) {
            proof {
                lemma_first_occurrence(haystack@, needle@, start as int, at as int);
            }
            return Some(at);
        }
        let last: u8 = haystack[at + (length - 1)];
        let skip: usize = table[last as usize];
        proof {
            assert forall|i: int| start <= i < at + skip implies !occurs_at(
                haystack@,
                needle@,
                i,
            ) by {
                if i > at && occurs_at(haystack@, needle@, i) {
                    let j = length - 1 - (i - at);
                    lemma_occurs_byte(haystack@, needle@, i, j);
                    assert(needle@[j] == last);
                    assert(table@[last as int] == skip);
                }
            }
        }
        at = at + skip;
    }
    proof {
        lemma_no_occurrence(haystack@, needle@, start as int);
    }
    None
}

/// Finds where the longest tail of `haystack` begins that is a beginning of
/// `needle`.
pub fn substring_partial_search(haystack: &[u8], needle: &[u8]) -> (res: Option<usize>)
    ensures
        match res {
            Some(at) => is_longest_partial_tail(haystack@, needle@, at as int),
            None => forall|i: int| !is_partial_tail(haystack@, needle@, i),
        },
        match partial_tail(haystack@, needle@) {
            Some(at) => res == Some(at as usize),
            None => res is None,
        },
{
    let longest: usize = if needle.len() < haystack.len() {
        needle.len()
    } else {
        haystack.len()
    };
    let mut length: usize = longest;
    while length > 0
        invariant
            length <= longest <= needle@.len(),
            longest <= haystack@.len(),
            longest == needle@.len() || longest == haystack@.len(),
            forall|i: int|
                i < haystack@.len() - length ==> !is_partial_tail(haystack@, needle@, i),
        decreases length,
    {
        let at: usize = haystack.len() - length;
        let head = slice_subrange(needle, 0, length);
        if matches_at(haystack, head, at) {
            proof {
                assert(haystack@.subrange(at as int, at + length) == head@);
                lemma_partial_tail(haystack@, needle@, at as int);
            }
            return Some(at);
        }
        length = length - 1;
    }
    None
}

/// Finds from where on `haystack` may hold a beginning of `needle` at its end, from
/// `start` on.
pub(crate) fn find_tail(haystack: &[u8], start: usize, needle: &[u8]) -> (at: usize)
    requires
        start <= haystack@.len(),
    ensures
        at == tail_from(haystack@, start as int, needle@),
        start <= at <= haystack@.len(),
        haystack@.len() - at <= needle@.len(),
{
    proof {
        lemma_tail_from(haystack@, start as int, needle@);
    }
    match substring_partial_search(slice_subrange(haystack, start, haystack.len()), needle) {
        Some(at) => start + at,
        None => haystack.len(),
    }
}

} // verus!
