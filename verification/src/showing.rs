//! What is shown of parts: the texts, piece by piece, in which numbers are written as
//! people write them.

use crate::display::{byte_lines, bytes_shown, header_lines, FileReport};
use crate::multipart::{DataType, MultiPart};
use crate::text::{decimal, digit};
use vstd::prelude::*;

verus! {

/// The number that decimal digits stand for.
pub open spec fn numeral_value(text: Seq<char>) -> int
    decreases text.len(),
{
    if text.len() == 0 {
        0
    } else {
        10 * numeral_value(text.drop_last()) + (text.last() as int - '0' as int)
    }
}

/// `text` is the number in decimal digits, without zeros before it.
pub open spec fn is_numeral(text: Seq<char>, n: nat) -> bool {
    &&& text.len() > 0
    &&& forall|i: int| 0 <= i < text.len() ==> '0' <= #[trigger] text[i] <= '9'
    &&& text.len() > 1 ==> text[0] != '0'
    &&& numeral_value(text) == n
}

/// Digits without zeros before them stand for more than nothing.
proof fn lemma_positive(text: Seq<char>)
    requires
        text.len() > 0,
        forall|i: int| 0 <= i < text.len() ==> '0' <= #[trigger] text[i] <= '9',
        text[0] != '0',
    ensures
        numeral_value(text) > 0,
    decreases text.len(),
{
    let head = text.drop_last();
    assert('0' <= text[text.len() - 1] <= '9');
    if text.len() == 1 {
        assert(numeral_value(head) == 0);
    } else {
        assert forall|i: int| 0 <= i < head.len() implies '0' <= #[trigger] head[i] <= '9' by {
            assert('0' <= text[i] <= '9');
        }
        lemma_positive(head);
    }
}

/// A number in decimal is its numeral.
proof fn lemma_decimal(n: nat)
    ensures
        is_numeral(decimal(n), n),
    decreases n,
{
    let text = decimal(n);
    if n < 10 {
        assert(text.drop_last() =~= Seq::<char>::empty());
        assert(numeral_value(text.drop_last()) == 0);
        assert(digit(n) as int == 48 + n);
    } else {
        let head = decimal(n / 10);
        lemma_decimal(n / 10);
        assert(text.drop_last() =~= head);
        assert(digit(n % 10) as int == 48 + n % 10);
        assert forall|i: int| 0 <= i < text.len() implies '0' <= #[trigger] text[i] <= '9' by {
            if i < head.len() {
                assert('0' <= head[i] <= '9');
            }
        }
        assert(text[0] == head[0]);
        if head.len() == 1 && head[0] == '0' {
            assert(head.drop_last() =~= Seq::<char>::empty());
            assert(numeral_value(head.drop_last()) == 0);
        }
    }
}

/// A number has one numeral.
proof fn lemma_numeral(text: Seq<char>, n: nat)
    requires
        is_numeral(text, n),
    ensures
        text == decimal(n),
    decreases text.len(),
{
    let head = text.drop_last();
    let low = text.last() as int - '0' as int;
    assert('0' <= text[text.len() - 1] <= '9');
    assert(digit(low as nat) == text.last());
    if text.len() == 1 {
        assert(numeral_value(head) == 0);
        assert(text =~= seq![text.last()]);
    } else {
        assert forall|i: int| 0 <= i < head.len() implies '0' <= #[trigger] head[i] <= '9' by {
            assert('0' <= text[i] <= '9');
        }
        lemma_positive(head);
        let high = numeral_value(head);
        assert(n == 10 * high + low);
        assert(n / 10 == high && n % 10 == low);
        lemma_numeral(head, high as nat);
        assert(text =~= head.push(text.last()));
    }
}

/// Numbers are written in decimal digits, without zeros before them.
pub proof fn law_numbers_are_written_in_decimal(text: Seq<char>, n: nat)
    ensures
        text == decimal(n) <==> is_numeral(text, n),
{
    lemma_decimal(n);
    if is_numeral(text, n) {
        lemma_numeral(text, n);
    }
}

/// The lines of bytes, one after the other.
proof fn lemma_byte_lines(bytes: Seq<u8>, lines: Seq<Seq<char>>, numbers: Seq<Seq<char>>)
    requires
        numbers.len() == bytes.len(),
        lines.len() == bytes.len(),
        forall|i: int| 0 <= i < bytes.len() ==> is_numeral(#[trigger] numbers[i], bytes[i] as nat),
        forall|i: int|
            0 <= i < bytes.len() ==> #[trigger] lines[i] == "    "@ + numbers[i] + ",\n"@,
    ensures
        byte_lines(bytes) == lines.flatten(),
    decreases bytes.len(),
{
    if bytes.len() == 0 {
        assert(lines.flatten() =~= Seq::<char>::empty());
    } else {
        let last = bytes.len() - 1;
        assert(is_numeral(numbers[last], bytes[last] as nat));
        lemma_numeral(numbers[last], bytes[last] as nat);
        assert(lines[last] == "    "@ + numbers[last] + ",\n"@);
        lemma_byte_lines(bytes.drop_last(), lines.drop_last(), numbers.drop_last());
        lines.lemma_flatten_and_flatten_alt_are_equivalent();
        lines.drop_last().lemma_flatten_and_flatten_alt_are_equivalent();
        assert(lines.flatten() == lines.drop_last().flatten() + lines.last());
        assert(byte_lines(bytes) =~= lines.drop_last().flatten() + lines.last());
    }
}

/// Of bytes, their number is shown and then each, in a line of its own.
pub proof fn law_bytes_are_shown(
    bytes: Seq<u8>,
    count: Seq<char>,
    numbers: Seq<Seq<char>>,
    lines: Seq<Seq<char>>,
)
    requires
        is_numeral(count, bytes.len()),
        numbers.len() == bytes.len(),
        lines.len() == bytes.len(),
        forall|i: int| 0 <= i < bytes.len() ==> is_numeral(#[trigger] numbers[i], bytes[i] as nat),
        forall|i: int|
            0 <= i < bytes.len() ==> #[trigger] lines[i] == "    "@ + numbers[i] + ",\n"@,
    ensures
        bytes.len() == 0 ==> bytes_shown(bytes) == "Bytes("@ + count + " bytes) "@ + "[]"@,
        bytes.len() > 0 ==> bytes_shown(bytes) == "Bytes("@ + count + " bytes) "@ + (
        "[\n"@ + lines.flatten() + "]"@),
{
    lemma_numeral(count, bytes.len());
    lemma_byte_lines(bytes, lines, numbers);
}

/// Of data in memory the bytes are shown. Of data in a file the number of bytes and the
/// path are shown, or what kept them from being known.
pub proof fn law_data_are_shown<F>(
    data: DataType<F>,
    report: Option<FileReport>,
    count: Seq<char>,
)
    requires
        data is File ==> report is Some,
        data is File && report->0 is Read ==> is_numeral(count, (report->0)->length as nat),
    ensures
        data matches DataType::Bytes(bytes) ==> data.shown(report) == bytes_shown(bytes@),
        data is File ==> data.shown(report) == match report->0 {
            FileReport::Read { length: _, path } => "File("@ + count + " bytes, path="@ + path@
                + ")"@,
            FileReport::CloneFailed(why) => "File(<error cloning handle: "@ + why@ + ">)"@,
            FileReport::SeekFailed(why) => "File(<error seeking: "@ + why@ + ">)"@,
            FileReport::ReadFailed(why) => "File(<error reading file: "@ + why@ + ">)"@,
        },
{
    if data is File {
        if let FileReport::Read { length, path } = report->0 {
            lemma_numeral(count, length as nat);
        }
    }
}

/// The lines of headers, one after the other.
proof fn lemma_header_lines(entries: Seq<(Seq<char>, Seq<char>)>, lines: Seq<Seq<char>>)
    requires
        lines.len() == entries.len(),
        forall|i: int|
            0 <= i < entries.len() ==> #[trigger] lines[i] == "    "@ + entries[i].0 + ": "@
                + entries[i].1 + ",\n"@,
    ensures
        header_lines(entries) == lines.flatten(),
    decreases entries.len(),
{
    if entries.len() == 0 {
        assert(lines.flatten() =~= Seq::<char>::empty());
    } else {
        let last = entries.len() - 1;
        assert(lines[last] == "    "@ + entries[last].0 + ": "@ + entries[last].1 + ",\n"@);
        lemma_header_lines(entries.drop_last(), lines.drop_last());
        lines.lemma_flatten_and_flatten_alt_are_equivalent();
        lines.drop_last().lemma_flatten_and_flatten_alt_are_equivalent();
        assert(lines.flatten() == lines.drop_last().flatten() + lines.last());
        assert(header_lines(entries) =~= lines.drop_last().flatten() + lines.last());
    }
}

/// Of a part its headers are shown, a line each, then its data, its content type and its
/// two limits.
pub proof fn law_parts_are_shown<F>(
    part: MultiPart<F>,
    report: Option<FileReport>,
    lines: Seq<Seq<char>>,
    memory: Seq<char>,
    file: Seq<char>,
)
    requires
        is_numeral(memory, part.max_body_limit_until_file as nat),
        is_numeral(file, part.max_file_size as nat),
        part.headers matches Some(map) ==> {
            &&& lines.len() == map.listed().len()
            &&& forall|i: int|
                0 <= i < lines.len() ==> #[trigger] lines[i] == "    "@ + map.listed()[i].0
                    + ": "@ + map.listed()[i].1 + ",\n"@
        },
    ensures
        part.shown(report) == "MultiPart {\n"@ + (match part.headers {
            Some(map) => if map.listed().len() > 0 {
                "  headers: {\n"@ + lines.flatten() + "  },\n"@
            } else {
                "  headers: {},\n"@
            },
            None => "  headers: None,\n"@,
        }) + (match part.data {
            Some(data) => "  data: "@ + data.shown(report) + ",\n"@,
            None => "  data: None,\n"@,
        }) + (match part.content_type {
            Some(kind) => "  content_type: "@ + kind@ + ",\n"@,
            None => "  content_type: None,\n"@,
        }) + ("  max_body_limit_until_file: "@ + memory + ",\n"@ + "  max_file_size: "@ + file
            + ",\n"@) + "}"@,
{
    lemma_numeral(memory, part.max_body_limit_until_file as nat);
    lemma_numeral(file, part.max_file_size as nat);
    if let Some(map) = part.headers {
        lemma_header_lines(map.listed(), lines);
    }
}

} // verus!
