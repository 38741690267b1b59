//! What searching finds, told byte by byte and character by character.

use crate::documents::{
    begins_with, holds_text, lemma_begins_with, lemma_holds_text, lemma_stands, stands_at,
};
use crate::lines::{is_space, lemma_space};
use crate::search::{
    double_newline, first_occurrence, is_first_occurrence, is_longest_partial_tail,
    is_partial_tail, lemma_earliest, lemma_longest, occurs_at, partial_tail,
};
use crate::text::{contains_text, is_white_space, starts_with_text};
use vstd::prelude::*;

verus! {

/// What is found is the first place, from `start` on, at which the bytes of `needle`
/// stand; where nothing is found, they stand nowhere.
pub proof fn law_the_first_place_is_found(haystack: Seq<u8>, needle: Seq<u8>, start: int)
    requires
        0 <= start,
    ensures
        match first_occurrence(haystack, needle, start) {
            Some(at) => {
                &&& start <= at
                &&& stands_at(haystack, needle, at)
                &&& forall|i: int| start <= i < at ==> !#[trigger] stands_at(haystack, needle, i)
            },
            None => forall|i: int| start <= i ==> !#[trigger] stands_at(haystack, needle, i),
        },
{
    match first_occurrence(haystack, needle, start) {
        Some(at) => {
            assert(is_first_occurrence(haystack, needle, start, at));
            lemma_stands(haystack, needle, at);
            assert forall|i: int| start <= i < at implies !#[trigger] stands_at(
                haystack,
                needle,
                i,
            ) by {
                lemma_stands(haystack, needle, i);
            }
        },
        None => {
            assert forall|i: int| start <= i implies !#[trigger] stands_at(
                haystack,
                needle,
                i,
            ) by {
                lemma_stands(haystack, needle, i);
                if occurs_at(haystack, needle, i) {
                    lemma_earliest(haystack, needle, start, i);
                }
            }
        },
    }
}

/// The empty line that ends a header section is two line ends.
pub proof fn law_an_empty_line_is_two_line_ends()
    ensures
        double_newline() == seq![13u8, 10u8, 13u8, 10u8],
{
}

/// The tail from `at` on is a beginning of `needle`.
pub open spec fn begins_at(haystack: Seq<u8>, needle: Seq<u8>, at: int) -> bool {
    &&& 0 <= at < haystack.len()
    &&& haystack.len() - at <= needle.len()
    &&& forall|k: int| 0 <= k < haystack.len() - at ==> haystack[at + k] == #[trigger] needle[k]
}

/// Beginning at a place.
proof fn lemma_begins_at(haystack: Seq<u8>, needle: Seq<u8>, at: int)
    ensures
        begins_at(haystack, needle, at) == is_partial_tail(haystack, needle, at),
{
    if 0 <= at < haystack.len() && haystack.len() - at <= needle.len() {
        let length = haystack.len() - at;
        let tail = haystack.subrange(at, haystack.len() as int);
        let head = needle.subrange(0, length);
        if begins_at(haystack, needle, at) {
            assert(tail =~= head) by {
                assert forall|k: int| 0 <= k < length implies tail[k] == head[k] by {
                    assert(haystack[at + k] == needle[k]);
                }
            }
        }
        if is_partial_tail(haystack, needle, at) {
            assert forall|k: int| 0 <= k < length implies haystack[at + k]
                == #[trigger] needle[k] by {
                assert(tail[k] == head[k]);
            }
        }
    }
}

/// What is found of a `needle` that is cut off is the longest tail that begins it; where
/// nothing is found, no tail does.
pub proof fn law_the_longest_tail_is_found(haystack: Seq<u8>, needle: Seq<u8>)
    ensures
        match partial_tail(haystack, needle) {
            Some(at) => {
                &&& begins_at(haystack, needle, at)
                &&& forall|i: int| 0 <= i < at ==> !#[trigger] begins_at(haystack, needle, i)
            },
            None => forall|i: int| !#[trigger] begins_at(haystack, needle, i),
        },
{
    match partial_tail(haystack, needle) {
        Some(at) => {
            assert(is_longest_partial_tail(haystack, needle, at));
            lemma_begins_at(haystack, needle, at);
            assert forall|i: int| 0 <= i < at implies !#[trigger] begins_at(
                haystack,
                needle,
                i,
            ) by {
                lemma_begins_at(haystack, needle, i);
            }
        },
        None => {
            assert forall|i: int| !#[trigger] begins_at(haystack, needle, i) by {
                lemma_begins_at(haystack, needle, i);
                if is_partial_tail(haystack, needle, i) {
                    lemma_longest(haystack, needle, i);
                }
            }
        },
    }
}

/// A text begins with another where something can be put behind that one to make it up,
/// and holds it where something can be put around it.
pub proof fn law_texts_begin_with_and_hold_others(text: Seq<char>, part: Seq<char>)
    ensures
        starts_with_text(text, part) == begins_with(text, part),
        contains_text(text, part) == holds_text(text, part),
{
    lemma_begins_with(text, part);
    lemma_holds_text(text, part);
}

/// The characters that are white space are these and no others.
pub proof fn law_white_space(c: char)
    ensures
        is_white_space(c) == is_space(c),
{
    lemma_space(c);
}

} // verus!
