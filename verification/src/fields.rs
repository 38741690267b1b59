//! Headers come out of a header section as they went in.

use crate::headers::{header_fields, with_field, with_line, with_lines, with_parameters};
use crate::text::{
    is_first_position, is_white_space, lemma_first_position, lemma_no_position, split, trim,
    trim_end, trim_start,
};
use vstd::prelude::*;

verus! {

/// A header: its name, its value and its parameters, name and value each.
pub struct Field {
    /// The name.
    pub name: Seq<char>,
    /// The value.
    pub value: Seq<char>,
    /// The parameters.
    pub parameters: Seq<(Seq<char>, Seq<char>)>,
}

/// The parameters, as they stand in a header line.
pub open spec fn encoded_parameters(parameters: Seq<(Seq<char>, Seq<char>)>) -> Seq<char>
    decreases parameters.len(),
{
    if parameters.len() == 0 {
        Seq::empty()
    } else {
        seq![';'] + (encoded_parameter(parameters[0]) + encoded_parameters(
            parameters.drop_first(),
        ))
    }
}

/// A parameter, as it stands behind its `;`.
pub open spec fn encoded_parameter(parameter: (Seq<char>, Seq<char>)) -> Seq<char> {
    seq![' '] + (parameter.0 + (seq!['='] + parameter.1))
}

/// The header without its parameters, as it stands in a header line.
pub open spec fn encoded_value(field: Field) -> Seq<char> {
    field.name + (seq![':', ' '] + field.value)
}

/// The header line.
pub open spec fn encoded_field(field: Field) -> Seq<char> {
    encoded_value(field) + encoded_parameters(field.parameters)
}

/// The header section that is made up of these headers, a line each.
pub open spec fn encoded_fields(fields: Seq<Field>) -> Seq<char>
    decreases fields.len(),
{
    if fields.len() == 0 {
        Seq::empty()
    } else if fields.len() == 1 {
        encoded_field(fields[0])
    } else {
        encoded_field(fields[0]) + (seq!['\r', '\n'] + encoded_fields(fields.drop_first()))
    }
}

/// The text begins and ends with no white space, and holds neither what ends a line
/// nor what ends a parameter.
pub open spec fn is_bare(text: Seq<char>) -> bool {
    &&& text.len() > 0 ==> !is_white_space(text[0]) && !is_white_space(text.last())
    &&& forall|i: int| 0 <= i < text.len() ==> text[i] != ';' && text[i] != '\n'
}

/// The header can stand in a header section: its name and its value, and those of its
/// parameters, are bare, and no name holds what ends it.
pub open spec fn is_plain(field: Field) -> bool {
    &&& is_bare(field.name)
    &&& is_bare(field.value)
    &&& forall|i: int| 0 <= i < field.name.len() ==> field.name[i] != ':'
    &&& forall|k: int|
        0 <= k < field.parameters.len() ==> is_plain_parameter(#[trigger] field.parameters[k])
}

/// The parameter can stand in a header line.
pub open spec fn is_plain_parameter(parameter: (Seq<char>, Seq<char>)) -> bool {
    &&& is_bare(parameter.0)
    &&& is_bare(parameter.1)
    &&& forall|i: int| 0 <= i < parameter.0.len() ==> parameter.0[i] != '='
}

/// `map` with the values of the parameters.
pub open spec fn parameters_set(
    map: Map<Seq<char>, Seq<char>>,
    parameters: Seq<(Seq<char>, Seq<char>)>,
) -> Map<Seq<char>, Seq<char>>
    decreases parameters.len(),
{
    if parameters.len() == 0 {
        map
    } else {
        parameters_set(
            map.insert(parameters[0].0, parameters[0].1),
            parameters.drop_first(),
        )
    }
}

/// `map` with the values of the headers and of their parameters.
pub open spec fn fields_set(
    map: Map<Seq<char>, Seq<char>>,
    fields: Seq<Field>,
) -> Map<Seq<char>, Seq<char>>
    decreases fields.len(),
{
    if fields.len() == 0 {
        map
    } else {
        fields_set(
            parameters_set(map.insert(fields[0].name, fields[0].value), fields[0].parameters),
            fields.drop_first(),
        )
    }
}

/// All characters are white space.
pub(crate) open spec fn is_blank(text: Seq<char>) -> bool {
    forall|i: int| 0 <= i < text.len() ==> is_white_space(#[trigger] text[i])
}

/// What a line may end in before its line end is white space, and nothing else.
spec fn is_line_tail(text: Seq<char>) -> bool {
    text == Seq::<char>::empty() || text == seq!['\r']
}

/// White space at the beginning goes.
proof fn lemma_trim_start(blank: Seq<char>, rest: Seq<char>)
    requires
        is_blank(blank),
    ensures
        trim_start(blank + rest) == trim_start(rest),
    decreases blank.len(),
{
    if blank.len() == 0 {
        assert(blank + rest =~= rest);
    } else {
        let later = blank.drop_first();
        assert forall|i: int| 0 <= i < later.len() implies is_white_space(#[trigger] later[i]) by {
            assert(is_white_space(blank[i + 1]));
        }
        lemma_trim_start(later, rest);
        assert(is_white_space(blank[0]));
        assert((blank + rest).subrange(1, (blank + rest).len() as int) =~= later + rest);
    }
}

/// White space at the end goes.
proof fn lemma_trim_end(rest: Seq<char>, blank: Seq<char>)
    requires
        is_blank(blank),
    ensures
        trim_end(rest + blank) == trim_end(rest),
    decreases blank.len(),
{
    if blank.len() == 0 {
        assert(rest + blank =~= rest);
    } else {
        let earlier = blank.drop_last();
        assert forall|i: int| 0 <= i < earlier.len() implies is_white_space(
            #[trigger] earlier[i],
        ) by {
            assert(is_white_space(blank[i]));
        }
        lemma_trim_end(rest, earlier);
        assert(is_white_space(blank[blank.len() - 1]));
        assert((rest + blank).subrange(0, (rest + blank).len() - 1) =~= rest + earlier);
    }
}

/// What is bare stays when the white space around it goes.
pub(crate) proof fn lemma_trim(before: Seq<char>, text: Seq<char>, after: Seq<char>)
    requires
        is_blank(before),
        is_bare(text),
        is_blank(after),
    ensures
        trim(before + (text + after)) == text,
{
    let none = Seq::<char>::empty();
    lemma_trim_start(before, text + after);
    if text.len() == 0 {
        assert(text + after =~= after + none);
        lemma_trim_start(after, none);
        assert(trim(before + (text + after)) =~= text);
    } else {
        assert((text + after)[0] == text[0]);
        lemma_trim_end(text, after);
    }
}

/// A cut behind the first of two pieces.
pub(crate) proof fn lemma_split(piece: Seq<char>, c: char, rest: Seq<char>)
    requires
        forall|i: int| 0 <= i < piece.len() ==> piece[i] != c,
    ensures
        split(piece + (seq![c] + rest), c) == seq![piece] + split(rest, c),
{
    let text = piece + (seq![c] + rest);
    assert(is_first_position(text, c, piece.len() as int));
    lemma_first_position(text, c, piece.len() as int);
    assert(text.subrange(0, piece.len() as int) =~= piece);
    assert(text.subrange(piece.len() as int + 1, text.len() as int) =~= rest);
}

/// A piece that holds a name, the separator and a value, with white space around
/// them, sets the value of the name.
proof fn lemma_field(
    map: Map<Seq<char>, Seq<char>>,
    before: Seq<char>,
    name: Seq<char>,
    separator: char,
    between: Seq<char>,
    value: Seq<char>,
    after: Seq<char>,
)
    requires
        is_blank(before),
        is_blank(between),
        is_blank(after),
        is_bare(name),
        is_bare(value),
        forall|i: int| 0 <= i < name.len() ==> name[i] != separator,
        !is_white_space(separator),
    ensures
        with_field(
            map,
            before + (name + (seq![separator] + (between + (value + after)))),
            separator,
        ) == map.insert(name, value),
{
    let piece = before + (name + (seq![separator] + (between + (value + after))));
    let at = (before.len() + name.len()) as int;
    assert(is_first_position(piece, separator, at)) by {
        assert forall|i: int| 0 <= i < at implies piece[i] != separator by {
            if i < before.len() {
                assert(is_white_space(before[i]));
            } else {
                assert(piece[i] == name[i - before.len()]);
            }
        }
    }
    lemma_first_position(piece, separator, at);
    let none = Seq::<char>::empty();
    assert(piece.subrange(0, at) =~= before + (name + none));
    assert(piece.subrange(at + 1, piece.len() as int) =~= between + (value + after));
    lemma_trim(before, name, none);
    lemma_trim(between, value, after);
}

/// Parameters are set as they stand in a line.
proof fn lemma_parameters(
    map: Map<Seq<char>, Seq<char>>,
    parameters: Seq<(Seq<char>, Seq<char>)>,
    tail: Seq<char>,
)
    requires
        parameters.len() > 0,
        forall|k: int|
            0 <= k < parameters.len() ==> is_plain_parameter(#[trigger] parameters[k]),
        is_line_tail(tail),
    ensures
        ({
            let text = encoded_parameter(parameters[0]) + (encoded_parameters(
                parameters.drop_first(),
            ) + tail);
            with_parameters(map, split(text, ';')) == parameters_set(map, parameters)
        }),
    decreases parameters.len(),
{
    let first = parameters[0];
    let later = parameters.drop_first();
    let text = encoded_parameter(first) + (encoded_parameters(later) + tail);
    let none = Seq::<char>::empty();
    let after = map.insert(first.0, first.1);
    assert(is_plain_parameter(parameters[0]));
    assert(is_blank(seq![' ']));
    assert forall|k: int| 0 <= k < later.len() implies is_plain_parameter(#[trigger] later[k]) by {
        assert(is_plain_parameter(parameters[k + 1]));
    }
    let end = if later.len() == 0 {
        tail
    } else {
        none
    };
    let piece = seq![' '] + (first.0 + (seq!['='] + (none + (first.1 + end))));
    lemma_field(map, seq![' '], first.0, '=', none, first.1, end);
    assert(is_first_position(piece, '=', 1 + first.0.len() as int)) by {
        assert forall|i: int| 0 <= i < 1 + first.0.len() implies piece[i] != '=' by {
            if i > 0 {
                assert(piece[i] == first.0[i - 1]);
            }
        }
    }
    lemma_first_position(piece, '=', 1 + first.0.len() as int);
    assert forall|i: int| 0 <= i < piece.len() implies piece[i] != ';' by {
        if 1 <= i && i < 1 + first.0.len() {
            assert(piece[i] == first.0[i - 1]);
        } else if 2 + first.0.len() <= i && i < 2 + first.0.len() + first.1.len() {
            assert(piece[i] == first.1[i - 2 - first.0.len()]);
        }
    }
    if later.len() == 0 {
        assert(text =~= piece);
        lemma_no_position(text, ';');
        let pieces = split(text, ';');
        assert(pieces[0] == piece);
        assert(pieces.drop_first() =~= Seq::<Seq<char>>::empty());
        assert(with_parameters(after, pieces.drop_first()) == after);
        assert(parameters_set(after, later) == after);
    } else {
        let rest = encoded_parameter(later[0]) + (encoded_parameters(later.drop_first()) + tail);
        assert(text =~= piece + (seq![';'] + rest));
        lemma_split(piece, ';', rest);
        let pieces = split(text, ';');
        assert(pieces[0] == piece);
        assert(pieces.drop_first() =~= split(rest, ';'));
        lemma_parameters(after, later, tail);
    }
}

/// A header line sets what it holds.
proof fn lemma_line(map: Map<Seq<char>, Seq<char>>, field: Field, tail: Seq<char>)
    requires
        is_plain(field),
        is_line_tail(tail),
    ensures
        with_line(map, encoded_field(field) + tail) == parameters_set(
            map.insert(field.name, field.value),
            field.parameters,
        ),
{
    let line = encoded_field(field) + tail;
    let none = Seq::<char>::empty();
    let parameters = field.parameters;
    let end = if parameters.len() == 0 {
        tail
    } else {
        none
    };
    let after = map.insert(field.name, field.value);
    let piece = none + (field.name + (seq![':'] + (seq![' '] + (field.value + end))));
    assert(is_blank(seq![' ']));
    lemma_field(map, none, field.name, ':', seq![' '], field.value, end);
    assert forall|i: int| 0 <= i < piece.len() implies piece[i] != ';' by {
        if i < field.name.len() {
            assert(piece[i] == field.name[i]);
        } else if field.name.len() + 2 <= i && i < field.name.len() + 2 + field.value.len() {
            assert(piece[i] == field.value[i - 2 - field.name.len()]);
        }
    }
    if parameters.len() == 0 {
        assert(line =~= piece);
        lemma_no_position(line, ';');
        let pieces = split(line, ';');
        assert(pieces[0] == piece);
        assert(pieces.drop_first() =~= Seq::<Seq<char>>::empty());
        assert(with_parameters(after, pieces.drop_first()) == after);
    } else {
        let rest = encoded_parameter(parameters[0]) + (encoded_parameters(
            parameters.drop_first(),
        ) + tail);
        assert(line =~= piece + (seq![';'] + rest));
        lemma_split(piece, ';', rest);
        let pieces = split(line, ';');
        assert(pieces[0] == piece);
        assert(pieces.drop_first() =~= split(rest, ';'));
        lemma_parameters(after, parameters, tail);
    }
}

/// Parameters hold no line end.
proof fn lemma_parameters_in_line(parameters: Seq<(Seq<char>, Seq<char>)>)
    requires
        forall|k: int|
            0 <= k < parameters.len() ==> is_plain_parameter(#[trigger] parameters[k]),
    ensures
        forall|i: int|
            0 <= i < encoded_parameters(parameters).len() ==> encoded_parameters(parameters)[i]
                != '\n',
    decreases parameters.len(),
{
    if parameters.len() > 0 {
        let first = parameters[0];
        let later = parameters.drop_first();
        let text = encoded_parameters(parameters);
        let head = encoded_parameter(first);
        assert(is_plain_parameter(parameters[0]));
        assert forall|k: int| 0 <= k < later.len() implies is_plain_parameter(
            #[trigger] later[k],
        ) by {
            assert(is_plain_parameter(parameters[k + 1]));
        }
        lemma_parameters_in_line(later);
        assert forall|i: int| 0 <= i < text.len() implies text[i] != '\n' by {
            if 1 <= i && i < 1 + head.len() {
                assert(text[i] == head[i - 1]);
                if 2 <= i && i < 2 + first.0.len() {
                    assert(head[i - 1] == first.0[i - 2]);
                } else if i >= 3 + first.0.len() {
                    assert(head[i - 1] == first.1[i - 3 - first.0.len()]);
                }
            } else if i >= 1 + head.len() {
                assert(text[i] == encoded_parameters(later)[i - 1 - head.len()]);
            }
        }
    }
}

/// A header line holds no line end.
proof fn lemma_field_in_line(field: Field)
    requires
        is_plain(field),
    ensures
        forall|i: int| 0 <= i < encoded_field(field).len() ==> encoded_field(field)[i] != '\n',
{
    let text = encoded_field(field);
    let head = encoded_value(field);
    lemma_parameters_in_line(field.parameters);
    assert forall|i: int| 0 <= i < text.len() implies text[i] != '\n' by {
        if i < field.name.len() {
            assert(text[i] == field.name[i]);
        } else if field.name.len() + 2 <= i && i < head.len() {
            assert(text[i] == field.value[i - 2 - field.name.len()]);
        } else if i >= head.len() {
            assert(text[i] == encoded_parameters(field.parameters)[i - head.len()]);
        }
    }
}

/// Header lines set what they hold, one after the other.
proof fn lemma_lines(map: Map<Seq<char>, Seq<char>>, fields: Seq<Field>)
    requires
        forall|k: int| 0 <= k < fields.len() ==> is_plain(#[trigger] fields[k]),
    ensures
        with_lines(map, split(encoded_fields(fields), '\n')) == fields_set(map, fields),
    decreases fields.len(),
{
    let text = encoded_fields(fields);
    let none = Seq::<char>::empty();
    if fields.len() == 0 {
        lemma_no_position(text, '\n');
        lemma_no_position(none, ';');
        lemma_no_position(none, ':');
        let pieces = split(text, '\n');
        assert(pieces[0] == none);
        assert(split(none, ';').drop_first() =~= Seq::<Seq<char>>::empty());
        assert(split(none, ';')[0] == none);
        assert(with_line(map, none) == map);
        assert(pieces.drop_first() =~= Seq::<Seq<char>>::empty());
        assert(with_lines(map, pieces.drop_first()) == map);
    } else {
        let first = fields[0];
        let later = fields.drop_first();
        let after = parameters_set(map.insert(first.name, first.value), first.parameters);
        assert(is_plain(fields[0]));
        assert forall|k: int| 0 <= k < later.len() implies is_plain(#[trigger] later[k]) by {
            assert(is_plain(fields[k + 1]));
        }
        lemma_field_in_line(first);
        if fields.len() == 1 {
            lemma_line(map, first, none);
            assert(text + none =~= text);
            lemma_no_position(text, '\n');
            let pieces = split(text, '\n');
            assert(pieces[0] == text);
            assert(pieces.drop_first() =~= Seq::<Seq<char>>::empty());
            assert(with_lines(after, pieces.drop_first()) == after);
            assert(later.len() == 0);
            assert(fields_set(after, later) == after);
        } else {
            let line = encoded_field(first) + seq!['\r'];
            lemma_line(map, first, seq!['\r']);
            assert(text =~= line + (seq!['\n'] + encoded_fields(later)));
            assert forall|i: int| 0 <= i < line.len() implies line[i] != '\n' by {
                if i < encoded_field(first).len() {
                    assert(line[i] == encoded_field(first)[i]);
                }
            }
            lemma_split(line, '\n', encoded_fields(later));
            let pieces = split(text, '\n');
            assert(pieces[0] == line);
            assert(pieces.drop_first() =~= split(encoded_fields(later), '\n'));
            lemma_lines(after, later);
        }
    }
}

/// The headers that a header section is made up of, and their parameters, are those
/// that are read from it. Where a name occurs more than once, its last value stays.
pub proof fn law_headers_come_out_as_they_went_in(fields: Seq<Field>)
    requires
        forall|k: int| 0 <= k < fields.len() ==> is_plain(#[trigger] fields[k]),
    ensures
        header_fields(encoded_fields(fields)) == fields_set(
            Map::<Seq<char>, Seq<char>>::empty(),
            fields,
        ),
{
    lemma_lines(Map::<Seq<char>, Seq<char>>::empty(), fields);
}

} // verus!
