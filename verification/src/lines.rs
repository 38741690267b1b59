//! Header lines, in whatever spelling: what is read from them are the names and the
//! values that stand in them, whatever white space stands around these.

use crate::fields::{is_bare, is_blank, lemma_split, lemma_trim};
use crate::headers::{header_fields, with_field, with_line, with_lines, with_parameters};
use crate::text::{
    first_position, is_first_position, is_white_space, lemma_first_position, lemma_no_position,
    split,
};
use vstd::prelude::*;

verus! {

/// The characters that are white space.
pub open spec fn is_space(c: char) -> bool {
    ||| c == ' ' || c == '\t' || c == '\n' || c == '\r' || c == '\u{b}' || c == '\u{c}'
    ||| c == '\u{85}' || c == '\u{a0}' || c == '\u{1680}' || c == '\u{2000}' || c == '\u{2001}'
    ||| c == '\u{2002}' || c == '\u{2003}' || c == '\u{2004}' || c == '\u{2005}'
    ||| c == '\u{2006}' || c == '\u{2007}' || c == '\u{2008}' || c == '\u{2009}'
    ||| c == '\u{200a}' || c == '\u{2028}' || c == '\u{2029}' || c == '\u{202f}'
    ||| c == '\u{205f}' || c == '\u{3000}'
}

/// A name and a value, as they stand in a header line, with what stands around them.
pub struct Entry {
    /// What stands before the name.
    pub before_name: Seq<char>,
    /// The name.
    pub name: Seq<char>,
    /// What stands between the name and the separator.
    pub behind_name: Seq<char>,
    /// What stands between the separator and the value.
    pub before_value: Seq<char>,
    /// The value.
    pub value: Seq<char>,
    /// What stands behind the value.
    pub behind_value: Seq<char>,
}

/// What a header line begins with.
pub enum Head {
    /// A name and its value, a `:` between them.
    Named(Entry),
    /// Something that holds no `:`.
    Other(Seq<char>),
}

/// A header line.
pub struct HeaderLine {
    /// What it begins with.
    pub head: Head,
    /// The parameters: a name and a value each, a `=` between them.
    pub parameters: Seq<Entry>,
    /// What follows the parameters, where something does: it begins with what is none.
    pub rest: Option<Seq<char>>,
}

/// The text is white space, if anything.
pub open spec fn all_space(text: Seq<char>) -> bool {
    forall|i: int| 0 <= i < text.len() ==> is_space(#[trigger] text[i])
}

/// The character does not stand in the text.
pub open spec fn lacks(text: Seq<char>, c: char) -> bool {
    forall|i: int| 0 <= i < text.len() ==> #[trigger] text[i] != c
}

/// The text neither begins nor ends with white space.
pub open spec fn is_trimmed(text: Seq<char>) -> bool {
    text.len() > 0 ==> !is_space(text[0]) && !is_space(text[text.len() - 1])
}

/// The entry, as it stands in a line.
pub open spec fn entry_text(entry: Entry, separator: char) -> Seq<char> {
    entry.before_name + (entry.name + (entry.behind_name + (seq![separator] + (entry.before_value
        + (entry.value + entry.behind_value)))))
}

/// The entry can be told apart from what stands around it: the name ends at the first
/// separator, the value at the first `;` or at the end of the line, and the white space
/// around them belongs to neither.
pub open spec fn is_entry(entry: Entry, separator: char) -> bool {
    &&& all_space(entry.before_name)
    &&& all_space(entry.behind_name)
    &&& all_space(entry.before_value)
    &&& all_space(entry.behind_value)
    &&& is_trimmed(entry.name)
    &&& is_trimmed(entry.value)
    &&& lacks(entry.name, separator)
    &&& lacks(entry_text(entry, separator), ';')
    &&& lacks(entry_text(entry, separator), '\n')
}

/// What a line begins with, as it stands there.
pub open spec fn head_text(head: Head) -> Seq<char> {
    match head {
        Head::Named(entry) => entry_text(entry, ':'),
        Head::Other(text) => text,
    }
}

/// The parameters, a `;` before each.
pub open spec fn parameters_text(parameters: Seq<Entry>) -> Seq<char>
    decreases parameters.len(),
{
    if parameters.len() == 0 {
        Seq::empty()
    } else {
        seq![';'] + (entry_text(parameters[0], '=') + parameters_text(parameters.drop_first()))
    }
}

/// What follows the parameters, with the `;` before it.
pub open spec fn rest_text(rest: Option<Seq<char>>) -> Seq<char> {
    match rest {
        Some(text) => seq![';'] + text,
        None => Seq::empty(),
    }
}

/// The line, without its end.
pub open spec fn line_text(line: HeaderLine) -> Seq<char> {
    head_text(line.head) + (parameters_text(line.parameters) + rest_text(line.rest))
}

/// The pieces of the line can be told apart.
pub open spec fn is_line(line: HeaderLine) -> bool {
    &&& match line.head {
        Head::Named(entry) => is_entry(entry, ':'),
        Head::Other(text) => lacks(text, ':') && lacks(text, ';') && lacks(text, '\n'),
    }
    &&& forall|k: int|
        0 <= k < line.parameters.len() ==> is_entry(#[trigger] line.parameters[k], '=')
    &&& line.rest matches Some(text) ==> {
        &&& lacks(text, '\n')
        &&& forall|i: int|
            0 <= i < text.len() && #[trigger] text[i] == '=' ==> exists|j: int|
                0 <= j < i && text[j] == ';'
    }
}

/// The header section that is made up of the lines.
pub open spec fn lines_text(lines: Seq<HeaderLine>) -> Seq<char>
    decreases lines.len(),
{
    if lines.len() == 0 {
        Seq::empty()
    } else if lines.len() == 1 {
        line_text(lines[0])
    } else {
        line_text(lines[0]) + (seq!['\n'] + lines_text(lines.drop_first()))
    }
}

/// The names and values of entries, in their order.
pub open spec fn pairs_of(entries: Seq<Entry>) -> Seq<(Seq<char>, Seq<char>)> {
    entries.map_values(|entry: Entry| (entry.name, entry.value))
}

/// The names and values that stand in a line, in their order.
pub open spec fn line_pairs(line: HeaderLine) -> Seq<(Seq<char>, Seq<char>)> {
    (match line.head {
        Head::Named(entry) => seq![(entry.name, entry.value)],
        Head::Other(_) => Seq::empty(),
    }) + pairs_of(line.parameters)
}

/// The names and values that stand in the lines, in their order.
pub open spec fn lines_pairs(lines: Seq<HeaderLine>) -> Seq<(Seq<char>, Seq<char>)>
    decreases lines.len(),
{
    if lines.len() == 0 {
        Seq::empty()
    } else {
        line_pairs(lines[0]) + lines_pairs(lines.drop_first())
    }
}

/// The value that comes last under a name.
pub open spec fn last_value(pairs: Seq<(Seq<char>, Seq<char>)>, name: Seq<char>) -> Option<
    Seq<char>,
>
    decreases pairs.len(),
{
    if pairs.len() == 0 {
        None
    } else if pairs.last().0 == name {
        Some(pairs.last().1)
    } else {
        last_value(pairs.drop_last(), name)
    }
}

/// The map holds each name that occurs, with the value that comes last under it, and
/// nothing else.
pub open spec fn holds_pairs(
    map: Map<Seq<char>, Seq<char>>,
    pairs: Seq<(Seq<char>, Seq<char>)>,
) -> bool {
    forall|name: Seq<char>|
        match #[trigger] last_value(pairs, name) {
            Some(value) => map.contains_key(name) && map[name] == value,
            None => !map.contains_key(name),
        }
}

/// `map` with the pairs, one after the other.
spec fn with_pairs(
    map: Map<Seq<char>, Seq<char>>,
    pairs: Seq<(Seq<char>, Seq<char>)>,
) -> Map<Seq<char>, Seq<char>>
    decreases pairs.len(),
{
    if pairs.len() == 0 {
        map
    } else {
        with_pairs(map, pairs.drop_last()).insert(pairs.last().0, pairs.last().1)
    }
}

/// One pair after the other.
proof fn lemma_first_pair(
    map: Map<Seq<char>, Seq<char>>,
    first: (Seq<char>, Seq<char>),
    later: Seq<(Seq<char>, Seq<char>)>,
)
    ensures
        with_pairs(map, seq![first] + later) == with_pairs(map.insert(first.0, first.1), later),
    decreases later.len(),
{
    let pairs = seq![first] + later;
    if later.len() == 0 {
        assert(pairs.drop_last() =~= Seq::<(Seq<char>, Seq<char>)>::empty());
        assert(with_pairs(map, pairs.drop_last()) == map);
    } else {
        assert(pairs.drop_last() =~= seq![first] + later.drop_last());
        lemma_first_pair(map, first, later.drop_last());
    }
}

/// Some pairs after the others.
proof fn lemma_more_pairs(
    map: Map<Seq<char>, Seq<char>>,
    pairs: Seq<(Seq<char>, Seq<char>)>,
    later: Seq<(Seq<char>, Seq<char>)>,
)
    ensures
        with_pairs(map, pairs + later) == with_pairs(with_pairs(map, pairs), later),
    decreases later.len(),
{
    if later.len() == 0 {
        assert(pairs + later =~= pairs);
    } else {
        assert((pairs + later).drop_last() =~= pairs + later.drop_last());
        lemma_more_pairs(map, pairs, later.drop_last());
    }
}

/// What is put into a map is what it holds.
proof fn lemma_holds(pairs: Seq<(Seq<char>, Seq<char>)>)
    ensures
        holds_pairs(with_pairs(Map::empty(), pairs), pairs),
    decreases pairs.len(),
{
    let map = with_pairs(Map::empty(), pairs);
    if pairs.len() > 0 {
        lemma_holds(pairs.drop_last());
        let before = with_pairs(Map::empty(), pairs.drop_last());
        assert forall|name: Seq<char>| match #[trigger] last_value(pairs, name) {
            Some(value) => map.contains_key(name) && map[name] == value,
            None => !map.contains_key(name),
        } by {
            assert(match last_value(pairs.drop_last(), name) {
                Some(value) => before.contains_key(name) && before[name] == value,
                None => !before.contains_key(name),
            });
        }
    }
}

/// White space is what is left out around names and values.
pub(crate) proof fn lemma_space(c: char)
    ensures
        is_space(c) == is_white_space(c),
{
}

/// So it is all over a text.
proof fn lemma_spaces(text: Seq<char>)
    ensures
        all_space(text) ==> is_blank(text),
{
    assert forall|i: int| all_space(text) && 0 <= i < text.len() implies is_white_space(
        #[trigger] text[i],
    ) by {
        lemma_space(text[i]);
    }
}

/// An entry sets the value of its name.
proof fn lemma_entry(map: Map<Seq<char>, Seq<char>>, entry: Entry, separator: char)
    requires
        is_entry(entry, separator),
        separator == ':' || separator == '=',
    ensures
        with_field(map, entry_text(entry, separator), separator) == map.insert(
            entry.name,
            entry.value,
        ),
        first_position(entry_text(entry, separator), separator) is Some,
{
    let piece = entry_text(entry, separator);
    let head = entry.before_name + (entry.name + entry.behind_name);
    let at = head.len() as int;
    let tail = entry.before_value + (entry.value + entry.behind_value);
    assert(piece =~= head + (seq![separator] + tail));
    assert(is_first_position(piece, separator, at)) by {
        assert forall|i: int| 0 <= i < at implies piece[i] != separator by {
            let inner = i - entry.before_name.len();
            if inner < 0 {
                assert(is_space(entry.before_name[i]));
            } else if inner < entry.name.len() {
                assert(piece[i] == entry.name[inner]);
            } else {
                assert(is_space(entry.behind_name[inner - entry.name.len()]));
            }
        }
    }
    lemma_first_position(piece, separator, at);
    assert(piece.subrange(0, at) =~= head);
    assert(piece.subrange(at + 1, piece.len() as int) =~= tail);
    lemma_spaces(entry.before_name);
    lemma_spaces(entry.behind_name);
    lemma_spaces(entry.before_value);
    lemma_spaces(entry.behind_value);
    assert(is_bare(entry.name)) by {
        if entry.name.len() > 0 {
            lemma_space(entry.name[0]);
            lemma_space(entry.name[entry.name.len() - 1]);
        }
        assert forall|i: int| 0 <= i < entry.name.len() implies entry.name[i] != ';'
            && entry.name[i] != '\n' by {
            assert(piece[entry.before_name.len() + i] == entry.name[i]);
        }
    }
    assert(is_bare(entry.value)) by {
        if entry.value.len() > 0 {
            lemma_space(entry.value[0]);
            lemma_space(entry.value[entry.value.len() - 1]);
        }
        assert forall|i: int| 0 <= i < entry.value.len() implies entry.value[i] != ';'
            && entry.value[i] != '\n' by {
            assert(piece[at + 1 + entry.before_value.len() + i] == entry.value[i]);
        }
    }
    lemma_trim(entry.before_name, entry.name, entry.behind_name);
    lemma_trim(entry.before_value, entry.value, entry.behind_value);
}

/// What follows the head of a line sets the parameters.
proof fn lemma_tail(
    map: Map<Seq<char>, Seq<char>>,
    parameters: Seq<Entry>,
    rest: Option<Seq<char>>,
)
    requires
        is_line((HeaderLine { head: Head::Other(Seq::empty()), parameters, rest })),
        parameters.len() > 0 || rest is Some,
    ensures
        ({
            let text = parameters_text(parameters) + rest_text(rest);
            with_parameters(map, split(text.drop_first(), ';')) == with_pairs(
                map,
                pairs_of(parameters),
            )
        }),
    decreases parameters.len(),
{
    let text = (parameters_text(parameters) + rest_text(rest)).drop_first();
    let line = HeaderLine { head: Head::Other(Seq::empty()), parameters, rest };
    assert forall|k: int| 0 <= k < parameters.len() implies is_entry(
        #[trigger] parameters[k],
        '=',
    ) by {
        assert(is_entry(line.parameters[k], '='));
    }
    if parameters.len() == 0 {
        let found = rest->0;
        assert(text =~= found);
        if exists|at: int| is_first_position(text, ';', at) {
            let at = choose|at: int| is_first_position(text, ';', at);
            lemma_first_position(text, ';', at);
            let piece = text.subrange(0, at);
            assert forall|i: int| 0 <= i < piece.len() implies piece[i] != '=' by {
                assert(piece[i] == text[i]);
            }
            lemma_no_position(piece, '=');
            assert(split(text, ';')[0] == piece);
        } else {
            assert forall|i: int| 0 <= i < text.len() implies text[i] != ';' by {
                if text[i] == ';' {
                    lemma_some_position(text, ';', i);
                }
            }
            lemma_no_position(text, ';');
            assert forall|i: int| 0 <= i < text.len() implies text[i] != '=' by {}
            lemma_no_position(text, '=');
            assert(split(text, ';')[0] == text);
        }
    } else {
        let first = parameters[0];
        let later = parameters.drop_first();
        let piece = entry_text(first, '=');
        let behind = parameters_text(later) + rest_text(rest);
        let after = map.insert(first.name, first.value);
        assert(is_entry(parameters[0], '='));
        assert(text =~= piece + behind);
        lemma_entry(map, first, '=');
        assert(pairs_of(parameters) =~= seq![(first.name, first.value)] + pairs_of(later));
        lemma_first_pair(map, (first.name, first.value), pairs_of(later));
        if later.len() == 0 && rest is None {
            assert(text =~= piece);
            lemma_no_position(text, ';');
            assert(split(text, ';')[0] == piece);
            assert(split(text, ';').drop_first() =~= Seq::<Seq<char>>::empty());
            assert(with_parameters(after, split(text, ';').drop_first()) == after);
            assert(with_pairs(after, pairs_of(later)) == after);
        } else {
            assert forall|k: int| 0 <= k < later.len() implies is_entry(
                #[trigger] later[k],
                '=',
            ) by {
                assert(is_entry(parameters[k + 1], '='));
            }
            lemma_tail(after, later, rest);
            assert(behind =~= seq![';'] + behind.drop_first());
            assert(text =~= piece + (seq![';'] + behind.drop_first()));
            lemma_split(piece, ';', behind.drop_first());
            assert(split(text, ';')[0] == piece);
            assert(split(text, ';').drop_first() =~= split(behind.drop_first(), ';'));
        }
    }
}

/// Where a character stands, it has a first place.
proof fn lemma_some_position(text: Seq<char>, c: char, at: int)
    requires
        0 <= at < text.len(),
        text[at] == c,
    ensures
        exists|i: int| is_first_position(text, c, i),
    decreases at,
{
    if !is_first_position(text, c, at) {
        let earlier = choose|i: int| 0 <= i < at && text[i] == c;
        lemma_some_position(text, c, earlier);
    }
}

/// A line sets what stands in it.
proof fn lemma_one_line(map: Map<Seq<char>, Seq<char>>, line: HeaderLine)
    requires
        is_line(line),
    ensures
        with_line(map, line_text(line)) == with_pairs(map, line_pairs(line)),
{
    let text = line_text(line);
    let head = head_text(line.head);
    let behind = parameters_text(line.parameters) + rest_text(line.rest);
    let parameters = pairs_of(line.parameters);
    let none = Seq::<(Seq<char>, Seq<char>)>::empty();
    let after = match line.head {
        Head::Named(entry) => map.insert(entry.name, entry.value),
        Head::Other(_) => map,
    };
    match line.head {
        Head::Named(entry) => {
            lemma_entry(map, entry, ':');
            lemma_first_pair(map, (entry.name, entry.value), parameters);
        },
        Head::Other(other) => {
            lemma_no_position(other, ':');
            assert(none + parameters =~= parameters);
        },
    }
    assert(with_field(map, head, ':') == after);
    assert(with_pairs(map, line_pairs(line)) == with_pairs(after, parameters));
    if line.parameters.len() == 0 && line.rest is None {
        assert(text =~= head);
        lemma_no_position(text, ';');
        assert(split(text, ';')[0] == head);
        assert(split(text, ';').drop_first() =~= Seq::<Seq<char>>::empty());
        assert(with_parameters(after, split(text, ';').drop_first()) == after);
        assert(with_pairs(after, parameters) == after);
    } else {
        lemma_tail(after, line.parameters, line.rest);
        assert(behind =~= seq![';'] + behind.drop_first());
        assert(text =~= head + (seq![';'] + behind.drop_first()));
        lemma_split(head, ';', behind.drop_first());
        assert(split(text, ';')[0] == head);
        assert(split(text, ';').drop_first() =~= split(behind.drop_first(), ';'));
    }
}

/// Parameters stand in one line.
proof fn lemma_parameters_lack(parameters: Seq<Entry>)
    requires
        forall|k: int| 0 <= k < parameters.len() ==> is_entry(#[trigger] parameters[k], '='),
    ensures
        lacks(parameters_text(parameters), '\n'),
    decreases parameters.len(),
{
    if parameters.len() > 0 {
        let later = parameters.drop_first();
        let piece = entry_text(parameters[0], '=');
        let text = parameters_text(parameters);
        assert(is_entry(parameters[0], '='));
        assert forall|k: int| 0 <= k < later.len() implies is_entry(#[trigger] later[k], '=') by {
            assert(is_entry(parameters[k + 1], '='));
        }
        lemma_parameters_lack(later);
        assert forall|i: int| 0 <= i < text.len() implies #[trigger] text[i] != '\n' by {
            if 1 <= i && i < 1 + piece.len() {
                assert(text[i] == piece[i - 1]);
            } else if i >= 1 + piece.len() {
                assert(text[i] == parameters_text(later)[i - 1 - piece.len()]);
            }
        }
    }
}

/// A line is one.
proof fn lemma_line_lacks(line: HeaderLine)
    requires
        is_line(line),
    ensures
        lacks(line_text(line), '\n'),
{
    let text = line_text(line);
    let head = head_text(line.head);
    let middle = parameters_text(line.parameters);
    let rest = rest_text(line.rest);
    lemma_parameters_lack(line.parameters);
    assert(lacks(rest, '\n')) by {
        if let Some(found) = line.rest {
            assert forall|i: int| 0 <= i < rest.len() implies #[trigger] rest[i] != '\n' by {
                if i > 0 {
                    assert(rest[i] == found[i - 1]);
                }
            }
        }
    }
    assert forall|i: int| 0 <= i < text.len() implies #[trigger] text[i] != '\n' by {
        if i < head.len() {
            assert(text[i] == head[i]);
        } else if i < head.len() + middle.len() {
            assert(text[i] == middle[i - head.len()]);
        } else {
            assert(text[i] == rest[i - head.len() - middle.len()]);
        }
    }
}

/// Lines set what stands in them.
proof fn lemma_all_lines(map: Map<Seq<char>, Seq<char>>, lines: Seq<HeaderLine>)
    requires
        lines.len() > 0,
        forall|k: int| 0 <= k < lines.len() ==> is_line(#[trigger] lines[k]),
    ensures
        with_lines(map, split(lines_text(lines), '\n')) == with_pairs(map, lines_pairs(lines)),
    decreases lines.len(),
{
    let text = lines_text(lines);
    let first = lines[0];
    let later = lines.drop_first();
    let line = line_text(first);
    let after = with_pairs(map, line_pairs(first));
    assert(is_line(lines[0]));
    lemma_line_lacks(first);
    lemma_one_line(map, first);
    lemma_more_pairs(map, line_pairs(first), lines_pairs(later));
    if lines.len() == 1 {
        lemma_no_position(text, '\n');
        assert(split(text, '\n')[0] == line);
        assert(split(text, '\n').drop_first() =~= Seq::<Seq<char>>::empty());
        assert(with_lines(after, split(text, '\n').drop_first()) == after);
        assert(with_pairs(after, lines_pairs(later)) == after);
    } else {
        assert forall|k: int| 0 <= k < later.len() implies is_line(#[trigger] later[k]) by {
            assert(is_line(lines[k + 1]));
        }
        lemma_split(line, '\n', lines_text(later));
        assert(split(text, '\n')[0] == line);
        assert(split(text, '\n').drop_first() =~= split(lines_text(later), '\n'));
        lemma_all_lines(after, later);
    }
}

/// What is read from a header section are the names and values that stand in its lines,
/// whatever white space stands around them, and nothing else; where a name occurs more
/// than once, its last value stays. A line without a `:` has its parameters all the same;
/// what follows something that is no parameter is left out.
pub proof fn law_header_lines_are_read(lines: Seq<HeaderLine>)
    requires
        forall|k: int| 0 <= k < lines.len() ==> is_line(#[trigger] lines[k]),
    ensures
        holds_pairs(header_fields(lines_text(lines)), lines_pairs(lines)),
{
    lemma_holds(lines_pairs(lines));
    if lines.len() == 0 {
        let blank = HeaderLine {
            head: Head::Other(Seq::empty()),
            parameters: Seq::empty(),
            rest: None,
        };
        let one = seq![blank];
        assert(line_text(blank) =~= Seq::<char>::empty());
        assert(line_pairs(blank) =~= Seq::<(Seq<char>, Seq<char>)>::empty());
        assert(one.drop_first() =~= Seq::<HeaderLine>::empty());
        assert(lines_pairs(one.drop_first()) =~= Seq::<(Seq<char>, Seq<char>)>::empty());
        assert(lines_pairs(one) =~= lines_pairs(lines));
        assert(lines_text(one) == lines_text(lines));
        assert(is_line(one[0]));
        lemma_all_lines(Map::empty(), one);
    } else {
        lemma_all_lines(Map::empty(), lines);
    }
}

} // verus!
