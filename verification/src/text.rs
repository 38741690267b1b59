//! Reading and writing text, character by character.

use vstd::prelude::*;
use vstd::utf8::{encode_utf8, valid_utf8};

verus! {

/// The text that `bytes` are the UTF-8 encoding of; `None` where they encode none.
///
/// Calls `std::str::from_utf8`. Claimed of it: it succeeds on valid UTF-8 and on
/// nothing else, and the string that it returns has the given bytes.
#[verifier::external_body]
pub(crate) fn text_from_utf8(bytes: &[u8]) -> (res: Option<&str>)
    ensures
        res is Some <==> valid_utf8(bytes@),
        res matches Some(text) ==> encode_utf8(text@) == bytes@,
{
    std::str::from_utf8(bytes).ok()
}

/// `String::push` puts one character behind those that the string holds.
pub assume_specification[ String::push ](text: &mut String, c: char)
    ensures
        final(text)@ == old(text)@.push(c),
;

/// The characters with the Unicode property `White_Space`.
pub open spec fn is_white_space(c: char) -> bool {
    let code = c as u32;
    ||| 0x9 <= code <= 0xd
    ||| code == 0x20
    ||| code == 0x85
    ||| code == 0xa0
    ||| code == 0x1680
    ||| 0x2000 <= code <= 0x200a
    ||| 0x2028 <= code <= 0x2029
    ||| code == 0x202f
    ||| code == 0x205f
    ||| code == 0x3000
}

/// `s` without the white space that it begins with.
pub open spec fn trim_start(s: Seq<char>) -> Seq<char>
    decreases s.len(),
{
    if s.len() > 0 && is_white_space(s[0]) {
        trim_start(s.subrange(1, s.len() as int))
    } else {
        s
    }
}

/// `s` without the white space that it ends with.
pub open spec fn trim_end(s: Seq<char>) -> Seq<char>
    decreases s.len(),
{
    if s.len() > 0 && is_white_space(s[s.len() - 1]) {
        trim_end(s.subrange(0, s.len() - 1))
    } else {
        s
    }
}

/// `s` without the white space around it.
pub open spec fn trim(s: Seq<char>) -> Seq<char> {
    trim_end(trim_start(s))
}

/// `at` is the first place of `c` in `s`.
pub open spec fn is_first_position(s: Seq<char>, c: char, at: int) -> bool {
    &&& 0 <= at < s.len()
    &&& s[at] == c
    &&& forall|i: int| 0 <= i < at ==> s[i] != c
}

/// The first place of `c` in `s`.
pub open spec fn first_position(s: Seq<char>, c: char) -> Option<int> {
    if exists|at: int| is_first_position(s, c, at) {
        Some(choose|at: int| is_first_position(s, c, at))
    } else {
        None
    }
}

/// `s` cut at every `c`: the stretches between, of which there is one at least.
pub open spec fn split(s: Seq<char>, c: char) -> Seq<Seq<char>>
    decreases s.len(),
{
    if exists|at: int| is_first_position(s, c, at) {
        let at = choose|at: int| is_first_position(s, c, at);
        seq![s.subrange(0, at)] + split(s.subrange(at + 1, s.len() as int), c)
    } else {
        seq![s]
    }
}

/// `part` stands somewhere in `s`.
pub open spec fn contains_text(s: Seq<char>, part: Seq<char>) -> bool {
    exists|at: int|
        0 <= at && at + part.len() <= s.len() && #[trigger] s.subrange(at, at + part.len()) == part
}

/// `s` begins with `part`.
pub open spec fn starts_with_text(s: Seq<char>, part: Seq<char>) -> bool {
    part.len() <= s.len() && s.subrange(0, part.len() as int) == part
}

/// The digit of a number under ten.
pub open spec fn digit(n: nat) -> char {
    (48 + n) as char
}

/// A number in decimal.
pub open spec fn decimal(n: nat) -> Seq<char>
    decreases n,
{
    if n < 10 {
        seq![digit(n)]
    } else {
        decimal(n / 10).push(digit(n % 10))
    }
}

/// There is one first place at most.
pub(crate) proof fn lemma_first_position(s: Seq<char>, c: char, at: int)
    requires
        is_first_position(s, c, at),
    ensures
        first_position(s, c) == Some(at),
        split(s, c) == seq![s.subrange(0, at)] + split(s.subrange(at + 1, s.len() as int), c),
{
    let chosen = choose|i: int| is_first_position(s, c, i);
    assert(is_first_position(s, c, chosen));
    assert(chosen == at);
}

/// Where `c` is nowhere, it has no first place.
pub(crate) proof fn lemma_no_position(s: Seq<char>, c: char)
    requires
        forall|i: int| 0 <= i < s.len() ==> s[i] != c,
    ensures
        first_position(s, c) is None,
        split(s, c) == seq![s],
{
}

/// The characters of a string.
pub(crate) fn chars_of(text: &str) -> (chars: Vec<char>)
    ensures
        chars@ == text@,
{
    let mut chars: Vec<char> = Vec::new();
    for c in it: text.chars()
        invariant
            chars@.len() == it.index(),
            it.seq() == text@,
            forall|i: int| 0 <= i < chars@.len() ==> chars@[i] == it.seq()[i],
    {
        chars.push(c);
    }
    assert(chars@ =~= text@);
    chars
}

/// The string of the characters from `from` to `to`.
pub(crate) fn text_between(chars: &Vec<char>, from: usize, to: usize) -> (text: String)
    requires
        from <= to <= chars@.len(),
    ensures
        text@ == chars@.subrange(from as int, to as int),
{
    let mut text = String::new();
    let mut i: usize = from;
    while i < to
        invariant
            from <= i <= to <= chars@.len(),
            text@ == chars@.subrange(from as int, i as int),
        decreases to - i,
    {
        text.push(chars[i]);
        assert(chars@.subrange(from as int, i + 1) =~= chars@.subrange(from as int, i as int).push(
            chars@[i as int],
        ));
        i = i + 1;
    }
    text
}

/// Tells whether `c` is white space.
pub fn white_space(c: char) -> (res: bool)
    ensures
        res == is_white_space(c),
{
    let code: u32 = c as u32;
    (0x9 <= code && code <= 0xd) || code == 0x20 || code == 0x85 || code == 0xa0 || code == 0x1680
        || (0x2000 <= code && code <= 0x200a) || (0x2028 <= code && code <= 0x2029) || code
        == 0x202f || code == 0x205f || code == 0x3000
}

/// The string of the characters from `from` to `to`, the white space around them
/// left out.
pub(crate) fn trimmed_between(chars: &Vec<char>, from: usize, to: usize) -> (text: String)
    requires
        from <= to <= chars@.len(),
    ensures
        text@ == trim(chars@.subrange(from as int, to as int)),
{
    let mut start: usize = from;
    while start < to && white_space(chars[start])
        invariant
            from <= start <= to <= chars@.len(),
            trim_start(chars@.subrange(from as int, to as int)) == trim_start(
                chars@.subrange(start as int, to as int),
            ),
        decreases to - start,
    {
        proof {
            let rest = chars@.subrange(start as int, to as int);
            assert(rest.subrange(1, rest.len() as int) =~= chars@.subrange(start + 1, to as int));
        }
        start = start + 1;
    }
    let ghost kept = chars@.subrange(start as int, to as int);
    assert(trim_start(kept) == kept);
    let mut end: usize = to;
    while start < end && white_space(chars[end - 1])
        invariant
            start <= end <= to <= chars@.len(),
            kept == chars@.subrange(start as int, to as int),
            trim_end(kept) == trim_end(chars@.subrange(start as int, end as int)),
        decreases end - start,
    {
        proof {
            let rest = chars@.subrange(start as int, end as int);
            assert(rest.subrange(0, rest.len() - 1) =~= chars@.subrange(start as int, end - 1));
        }
        end = end - 1;
    }
    let ghost middle = chars@.subrange(start as int, end as int);
    assert(trim_end(middle) == middle);
    text_between(chars, start, end)
}

/// Finds the first `c` among the characters from `from` to `to`.
pub(crate) fn find_char(chars: &Vec<char>, from: usize, to: usize, c: char) -> (res: Option<usize>)
    requires
        from <= to <= chars@.len(),
    ensures
        match res {
            Some(at) => from <= at < to && is_first_position(
                chars@.subrange(from as int, to as int),
                c,
                at - from,
            ),
            None => forall|i: int| from <= i < to ==> chars@[i] != c,
        },
{
    let mut at: usize = from;
    while at < to
        invariant
            from <= at <= to <= chars@.len(),
            forall|i: int| from <= i < at ==> chars@[i] != c,
        decreases to - at,
    {
        if chars[at] == c {
            return Some(at);
        }
        at = at + 1;
    }
    None
}

/// Tells whether the characters of `part` are those of `chars` from `at` on.
fn text_at(chars: &Vec<char>, part: &Vec<char>, at: usize) -> (res: bool)
    requires
        at + part@.len() <= chars@.len(),
    ensures
        res == (chars@.subrange(at as int, at + part@.len()) == part@),
{
    let end: usize = chars.len();
    let mut i: usize = 0;
    while i < part.len()
        invariant
            end == chars@.len(),
            at + part@.len() <= chars@.len(),
            i <= part@.len(),
            forall|k: int| 0 <= k < i ==> chars@[at + k] == part@[k],
        decreases part@.len() - i,
    {
        if chars[at + i] != part[i] {
            assert(chars@.subrange(at as int, at + part@.len())[i as int] != part@[i as int]);
            return false;
        }
        i = i + 1;
    }
    assert(chars@.subrange(at as int, at + part@.len()) =~= part@);
    true
}

/// Tells whether `text` begins with `part`.
pub fn starts_with(text: &str, part: &str) -> (res: bool)
    ensures
        res == starts_with_text(text@, part@),
{
    let chars = chars_of(text);
    let wanted = chars_of(part);
    wanted.len() <= chars.len() && text_at(&chars, &wanted, 0)
}

/// Tells whether `part` stands somewhere in `text`.
pub fn contains(text: &str, part: &str) -> (res: bool)
    ensures
        res == contains_text(text@, part@),
{
    let chars = chars_of(text);
    let wanted = chars_of(part);
    let mut at: usize = 0;
    while at <= chars.len() && chars.len() - at >= wanted.len()
        invariant
            chars@ == text@,
            wanted@ == part@,
            forall|i: int|
                0 <= i < at && i + part@.len() <= text@.len() ==> #[trigger] text@.subrange(
                    i,
                    i + part@.len(),
                ) != part@,
        decreases chars@.len() + 1 - at,
    {
        if text_at(&chars, &wanted, at) {
            return true;
        }
        if at == chars.len() {
            return false;
        }
        at = at + 1;
    }
    false
}

/// Tells whether two strings hold the same characters.
pub(crate) fn same_text(a: &str, b: &str) -> (res: bool)
    ensures
        res == (a@ == b@),
{
    let x = chars_of(a);
    let y = chars_of(b);
    if x.len() != y.len() {
        return false;
    }
    let res: bool = text_at(&x, &y, 0);
    assert(x@.subrange(0, x@.len() as int) =~= x@);
    res
}

/// Writes `n` in decimal behind `out`.
pub(crate) fn push_decimal(out: &mut String, n: u64)
    ensures
        final(out)@ == old(out)@ + decimal(n as nat),
    decreases n,
{
    if n >= 10 {
        push_decimal(out, n / 10);
    }
    let low: u8 = 48 + (n % 10) as u8;
    out.push(low as char);
    assert(out@ =~= old(out)@ + decimal(n as nat));
}

} // verus!
