//! The header section of a part.

use crate::text::{
    chars_of, find_char, first_position, lemma_first_position, lemma_no_position, same_text, split,
    trim, trimmed_between,
};
use vstd::prelude::*;

verus! {

/// The headers of a part: a map from names to values, kept in the order in which
/// the names first came.
#[derive(Debug)]
pub struct HeaderMap {
    entries: Vec<(String, String)>,
}

/// `at` is a place of `name` among `entries`.
pub open spec fn is_entry_of(
    entries: Seq<(Seq<char>, Seq<char>)>,
    name: Seq<char>,
    at: int,
) -> bool {
    0 <= at < entries.len() && entries[at].0 == name
}

/// The map that a list of names and values stands for.
pub open spec fn map_of(entries: Seq<(Seq<char>, Seq<char>)>) -> Map<Seq<char>, Seq<char>> {
    Map::new(
        |name: Seq<char>| exists|at: int| is_entry_of(entries, name, at),
        |name: Seq<char>| entries[choose|at: int| is_entry_of(entries, name, at)].1,
    )
}

/// No name occurs twice.
pub open spec fn names_differ(entries: Seq<(Seq<char>, Seq<char>)>) -> bool {
    forall|i: int, j: int| 0 <= i < j < entries.len() ==> entries[i].0 != entries[j].0
}

impl View for HeaderMap {
    type V = Map<Seq<char>, Seq<char>>;

    open spec fn view(&self) -> Map<Seq<char>, Seq<char>> {
        map_of(self.listed())
    }
}

impl HeaderMap {
    /// The names and values, in order.
    pub closed spec fn listed(&self) -> Seq<(Seq<char>, Seq<char>)> {
        self.entries@.map_values(|e: (String, String)| (e.0@, e.1@))
    }

    #[verifier::type_invariant]
    spec fn well_formed(&self) -> bool {
        names_differ(self.listed())
    }

    /// A map without headers.
    pub fn new() -> (map: HeaderMap)
        ensures
            map@ == Map::<Seq<char>, Seq<char>>::empty(),
            map.listed() == Seq::<(Seq<char>, Seq<char>)>::empty(),
    {
        let map = HeaderMap { entries: Vec::new() };
        assert(map.listed() =~= Seq::<(Seq<char>, Seq<char>)>::empty());
        assert(map@ =~= Map::<Seq<char>, Seq<char>>::empty());
        map
    }

    /// How many headers there are.
    pub fn len(&self) -> (len: usize)
        ensures
            len == self.listed().len(),
            names_differ(self.listed()),
    {
        proof {
            use_type_invariant(self);
        }
        self.entries.len()
    }

    /// The header at place `at`: its name and its value.
    pub fn entry(&self, at: usize) -> (res: (&str, &str))
        requires
            at < self.listed().len(),
        ensures
            (res.0@, res.1@) == self.listed()[at as int],
    {
        let entry = &self.entries[at];
        (entry.0.as_str(), entry.1.as_str())
    }

    /// The place of `name`.
    fn place_of(&self, name: &str) -> (res: Option<usize>)
        ensures
            match res {
                Some(at) => is_entry_of(self.listed(), name@, at as int),
                None => forall|i: int| !is_entry_of(self.listed(), name@, i),
            },
    {
        let mut at: usize = 0;
        while at < self.entries.len()
            invariant
                at <= self.entries@.len(),
                forall|i: int| 0 <= i < at ==> !is_entry_of(self.listed(), name@, i),
            decreases self.entries@.len() - at,
        {
            assert(self.listed()[at as int].0 == self.entries@[at as int].0@);
            if same_text(self.entries[at].0.as_str(), name) {
                return Some(at);
            }
            at = at + 1;
        }
        None
    }

    /// The value of the header `name`.
    pub fn get(&self, name: &str) -> (res: Option<&String>)
        ensures
            match res {
                Some(value) => self@.contains_key(name@) && value@ == self@[name@],
                None => !self@.contains_key(name@),
            },
    {
        proof {
            use_type_invariant(self);
        }
        match self.place_of(name) {
            Some(at) => {
                proof {
                    lemma_entry(self.listed(), name@, at as int);
                    assert(self.listed()[at as int].1 == self.entries@[at as int].1@);
                }
                Some(&self.entries[at].1)
            },
            None => None,
        }
    }

    /// Sets the header `name` to `value`, in place of the value that it had.
    pub fn insert(&mut self, name: String, value: String)
        ensures
            final(self)@ == old(self)@.insert(name@, value@),
            forall|at: int|
                is_entry_of(old(self).listed(), name@, at) ==> final(self).listed() == old(
                    self,
                ).listed().update(at, (name@, value@)),
            !old(self)@.contains_key(name@) ==> final(self).listed() == old(self).listed().push(
                (name@, value@),
            ),
    {
        proof {
            use_type_invariant(&*self);
        }
        let ghost before = self.listed();
        let place = self.place_of(name.as_str());
        let mut entries: Vec<(String, String)> = Vec::new();
        std::mem::swap(&mut entries, &mut self.entries);
        let ghost name_text = name@;
        let ghost value_text = value@;
        match place {
            Some(at) => {
                entries[at] = (name, value);
                let ghost after = entries@.map_values(|e: (String, String)| (e.0@, e.1@));
                proof {
                    assert(after =~= before.update(at as int, (name_text, value_text)));
                    lemma_replace(before, name_text, value_text, at as int);
                }
            },
            None => {
                entries.push((name, value));
                let ghost after = entries@.map_values(|e: (String, String)| (e.0@, e.1@));
                proof {
                    assert(after =~= before.push((name_text, value_text)));
                    lemma_append(before, name_text, value_text);
                }
            },
        }
        self.entries = entries;
    }
}

/// The entry of a name gives its value.
proof fn lemma_entry(entries: Seq<(Seq<char>, Seq<char>)>, name: Seq<char>, at: int)
    requires
        names_differ(entries),
        is_entry_of(entries, name, at),
    ensures
        map_of(entries).contains_key(name),
        map_of(entries)[name] == entries[at].1,
{
    let chosen = choose|i: int| is_entry_of(entries, name, i);
    assert(is_entry_of(entries, name, chosen));
    assert(chosen == at);
}

/// Replacing the entry of a name sets its value.
proof fn lemma_replace(
    entries: Seq<(Seq<char>, Seq<char>)>,
    name: Seq<char>,
    value: Seq<char>,
    at: int,
)
    requires
        names_differ(entries),
        is_entry_of(entries, name, at),
    ensures
        names_differ(entries.update(at, (name, value))),
        map_of(entries.update(at, (name, value))) == map_of(entries).insert(name, value),
{
    let after = entries.update(at, (name, value));
    let left = map_of(after);
    let right = map_of(entries).insert(name, value);
    assert forall|k: Seq<char>|
        #![trigger left.dom().contains(k)]
        #![trigger right.dom().contains(k)]
        #![trigger left[k]]
        left.contains_key(k) == right.contains_key(k) && (left.contains_key(k) ==> left[k]
            == right[k]) by {
        if left.contains_key(k) {
            let i = choose|i: int| is_entry_of(after, k, i);
            lemma_entry(after, k, i);
            if k != name {
                lemma_entry(entries, k, i);
            } else {
                lemma_entry(after, k, at);
            }
        }
        if right.contains_key(k) && k != name {
            let i = choose|i: int| is_entry_of(entries, k, i);
            assert(is_entry_of(after, k, i));
        }
        if k == name {
            assert(is_entry_of(after, k, at));
        }
    }
    assert(left =~= right);
}

/// A new entry sets the value of its name.
proof fn lemma_append(entries: Seq<(Seq<char>, Seq<char>)>, name: Seq<char>, value: Seq<char>)
    requires
        names_differ(entries),
        forall|i: int| !is_entry_of(entries, name, i),
    ensures
        names_differ(entries.push((name, value))),
        map_of(entries.push((name, value))) == map_of(entries).insert(name, value),
{
    let after = entries.push((name, value));
    assert forall|i: int, j: int| 0 <= i < j < after.len() implies after[i].0 != after[j].0 by {
        assert(!is_entry_of(entries, name, i));
    }
    let left = map_of(after);
    let right = map_of(entries).insert(name, value);
    assert forall|k: Seq<char>|
        #![trigger left.dom().contains(k)]
        #![trigger right.dom().contains(k)]
        #![trigger left[k]]
        left.contains_key(k) == right.contains_key(k) && (left.contains_key(k) ==> left[k]
            == right[k]) by {
        assert(is_entry_of(after, name, entries.len() as int));
        if left.contains_key(k) {
            let i = choose|i: int| is_entry_of(after, k, i);
            lemma_entry(after, k, i);
            if k != name {
                lemma_entry(entries, k, i);
            } else {
                lemma_entry(after, k, entries.len() as int);
            }
        }
        if right.contains_key(k) && k != name {
            let i = choose|i: int| is_entry_of(entries, k, i);
            assert(is_entry_of(after, k, i));
        }
    }
    assert(left =~= right);
}

/// `fields` with the one that `piece` holds: a name, the separator and a value,
/// the white space around both left out. Without a separator it holds none.
pub open spec fn with_field(
    fields: Map<Seq<char>, Seq<char>>,
    piece: Seq<char>,
    separator: char,
) -> Map<Seq<char>, Seq<char>> {
    match first_position(piece, separator) {
        Some(at) => fields.insert(
            trim(piece.subrange(0, at)),
            trim(piece.subrange(at + 1, piece.len() as int)),
        ),
        None => fields,
    }
}

/// `fields` with those of the parameters, `name=value` each, up to the first that
/// has no `=`.
pub open spec fn with_parameters(
    fields: Map<Seq<char>, Seq<char>>,
    parameters: Seq<Seq<char>>,
) -> Map<Seq<char>, Seq<char>>
    decreases parameters.len(),
{
    if parameters.len() == 0 || first_position(parameters[0], '=') is None {
        fields
    } else {
        with_parameters(with_field(fields, parameters[0], '='), parameters.drop_first())
    }
}

/// `fields` with those of a header line: `name: value`, then its parameters, a
/// `;` before each.
pub open spec fn with_line(
    fields: Map<Seq<char>, Seq<char>>,
    line: Seq<char>,
) -> Map<Seq<char>, Seq<char>> {
    let pieces = split(line, ';');
    with_parameters(with_field(fields, pieces[0], ':'), pieces.drop_first())
}

/// `fields` with those of the header lines, one after the other: the last value
/// of a name stays.
pub open spec fn with_lines(
    fields: Map<Seq<char>, Seq<char>>,
    lines: Seq<Seq<char>>,
) -> Map<Seq<char>, Seq<char>>
    decreases lines.len(),
{
    if lines.len() == 0 {
        fields
    } else {
        with_lines(with_line(fields, lines[0]), lines.drop_first())
    }
}

/// The headers that a header section holds. The `\r` that may end a line is white
/// space around what the line holds.
pub open spec fn header_fields(section: Seq<char>) -> Map<Seq<char>, Seq<char>> {
    with_lines(Map::empty(), split(section, '\n'))
}

/// Puts the field that the characters from `from` to `to` hold into `map`; tells
/// whether there was one.
fn add_field(
    map: &mut HeaderMap,
    chars: &Vec<char>,
    from: usize,
    to: usize,
    separator: char,
) -> (found: bool)
    requires
        from <= to <= chars@.len(),
    ensures
        final(map)@ == with_field(old(map)@, chars@.subrange(from as int, to as int), separator),
        found == (first_position(chars@.subrange(from as int, to as int), separator) is Some),
{
    let ghost piece = chars@.subrange(from as int, to as int);
    match find_char(chars, from, to, separator) {
        Some(at) => {
            proof {
                lemma_first_position(piece, separator, at - from);
                assert(piece.subrange(0, at - from) =~= chars@.subrange(from as int, at as int));
                assert(piece.subrange(at - from + 1, piece.len() as int) =~= chars@.subrange(
                    at + 1,
                    to as int,
                ));
            }
            let name = trimmed_between(chars, from, at);
            let value = trimmed_between(chars, at + 1, to);
            map.insert(name, value);
            true
        },
        None => {
            proof {
                lemma_no_position(piece, separator);
            }
            false
        },
    }
}

/// Puts the parameters that the characters from `from` to `to` hold into `map`.
fn add_parameters(map: &mut HeaderMap, chars: &Vec<char>, from: usize, to: usize)
    requires
        from <= to <= chars@.len(),
    ensures
        final(map)@ == with_parameters(
            old(map)@,
            split(chars@.subrange(from as int, to as int), ';'),
        ),
    decreases to - from,
{
    let ghost rest = chars@.subrange(from as int, to as int);
    let ghost before = map@;
    match find_char(chars, from, to, ';') {
        Some(at) => {
            let ghost head = chars@.subrange(from as int, at as int);
            let ghost tail = split(chars@.subrange(at + 1, to as int), ';');
            proof {
                lemma_first_position(rest, ';', at - from);
                assert(rest.subrange(0, at - from) =~= head);
                assert(rest.subrange(at - from + 1, rest.len() as int) =~= chars@.subrange(
                    at + 1,
                    to as int,
                ));
                assert(split(rest, ';')[0] == head);
                assert(split(rest, ';').drop_first() =~= tail);
            }
            if add_field(map, chars, from, at, '=') {
                add_parameters(map, chars, at + 1, to);
            }
        },
        None => {
            proof {
                lemma_no_position(rest, ';');
                assert(split(rest, ';')[0] == rest);
                assert(split(rest, ';').drop_first() =~= Seq::<Seq<char>>::empty());
                let after = with_field(before, rest, '=');
                assert(with_parameters(after, Seq::<Seq<char>>::empty()) == after);
            }
            add_field(map, chars, from, to, '=');
        },
    }
}

/// Puts the fields of the line from `from` to `to` into `map`.
fn add_line(map: &mut HeaderMap, chars: &Vec<char>, from: usize, to: usize)
    requires
        from <= to <= chars@.len(),
    ensures
        final(map)@ == with_line(old(map)@, chars@.subrange(from as int, to as int)),
{
    let ghost line = chars@.subrange(from as int, to as int);
    match find_char(chars, from, to, ';') {
        Some(at) => {
            let ghost tail = split(chars@.subrange(at + 1, to as int), ';');
            proof {
                lemma_first_position(line, ';', at - from);
                assert(line.subrange(0, at - from) =~= chars@.subrange(from as int, at as int));
                assert(line.subrange(at - from + 1, line.len() as int) =~= chars@.subrange(
                    at + 1,
                    to as int,
                ));
                assert(split(line, ';')[0] == chars@.subrange(from as int, at as int));
                assert(split(line, ';').drop_first() =~= tail);
            }
            add_field(map, chars, from, at, ':');
            add_parameters(map, chars, at + 1, to);
        },
        None => {
            proof {
                lemma_no_position(line, ';');
                assert(split(line, ';')[0] == line);
                assert(split(line, ';').drop_first() =~= Seq::<Seq<char>>::empty());
            }
            add_field(map, chars, from, to, ':');
        },
    }
}

/// Reads a header section.
pub fn parse_header_section(section: &str) -> (map: HeaderMap)
    ensures
        map@ == header_fields(section@),
{
    let chars = chars_of(section);
    let mut map = HeaderMap::new();
    let mut from: usize = 0;
    let mut more: bool = true;
    assert(chars@.subrange(0, chars@.len() as int) =~= chars@);
    while more
        invariant
            chars@ == section@,
            from <= chars@.len(),
            more ==> header_fields(section@) == with_lines(
                map@,
                split(chars@.subrange(from as int, chars@.len() as int), '\n'),
            ),
            !more ==> header_fields(section@) == map@,
        decreases chars@.len() - from + (if more { 1int } else { 0int }),
    {
        let ghost rest = chars@.subrange(from as int, chars@.len() as int);
        let ghost before = map@;
        match find_char(&chars, from, chars.len(), '\n') {
            Some(at) => {
                proof {
                    let tail = split(chars@.subrange(at + 1, chars@.len() as int), '\n');
                    lemma_first_position(rest, '\n', at - from);
                    assert(rest.subrange(0, at - from) =~= chars@.subrange(from as int, at as int));
                    assert(rest.subrange(at - from + 1, rest.len() as int) =~= chars@.subrange(
                        at + 1,
                        chars@.len() as int,
                    ));
                    assert(split(rest, '\n')[0] == chars@.subrange(from as int, at as int));
                    assert(split(rest, '\n').drop_first() =~= tail);
                }
                add_line(&mut map, &chars, from, at);
                from = at + 1;
            },
            None => {
                proof {
                    lemma_no_position(rest, '\n');
                    let after = with_line(before, rest);
                    assert(split(rest, '\n')[0] == rest);
                    assert(split(rest, '\n').drop_first() =~= Seq::<Seq<char>>::empty());
                    assert(with_lines(after, Seq::<Seq<char>>::empty()) == after);
                }
                add_line(&mut map, &chars, from, chars.len());
                more = false;
            },
        }
    }
    map
}

/// The names of a map are those that are listed, each with its value.
pub proof fn law_what_is_listed_is_there(map: HeaderMap, name: Seq<char>, at: int)
    requires
        names_differ(map.listed()),
    ensures
        map@.contains_key(name) <==> exists|i: int|
            0 <= i < map.listed().len() && (#[trigger] map.listed()[i]).0 == name,
        0 <= at < map.listed().len() && map.listed()[at].0 == name ==> map@[name]
            == map.listed()[at].1,
{
    let entries = map.listed();
    if map@.contains_key(name) {
        let i = choose|i: int| is_entry_of(entries, name, i);
        assert(entries[i].0 == name);
    }
    if exists|i: int| 0 <= i < entries.len() && (#[trigger] entries[i]).0 == name {
        let i = choose|i: int| 0 <= i < entries.len() && (#[trigger] entries[i]).0 == name;
        assert(is_entry_of(entries, name, i));
    }
    if is_entry_of(entries, name, at) {
        lemma_entry(entries, name, at);
    }
}

} // verus!
