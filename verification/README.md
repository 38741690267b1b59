# multipart_parser

A streaming parser for `multipart/*` request bodies, written and proved in Verus.

A body is fed to the parser in chunks. Small parts stay in memory; larger ones go
to temporary files. Three limits are set when the parser is made: the size of a
header section, the size up to which a part is held in memory, and the size that a
part may have in a file.

The library in `src/` opens no file. Where a part has to go to one, `parse` returns
a request; the caller does what it asks for and hands the answer to `resume`. The
crate in `app/` is such a caller: it answers with temporary files, and looks from
outside like a parser that does its own input and output.

```rust
let mut parser = MultiPartParser::new(1024, 1024, 8 * 1024, boundary);
let mut progress = parser.parse(chunk)?;
while let Progress::Request(request) = progress {
    progress = parser.resume(answer(request))?;
}
let parts = parser.get_parts()?;
```

## Layout

| Module      | What it holds                                                            |
| ----------- | ------------------------------------------------------------------------ |
| `parser`    | the parser: `new`, `parse`, `resume`, `get_parts`, and its errors        |
| `machine`   | what the parser does, as a mathematical machine; the contracts refer to it |
| `multipart` | a part, where its data are kept, and what is asked of the caller         |
| `headers`   | header sections and the map that is read from them                       |
| `search`    | searching for boundaries, whole and cut off at the end of a chunk        |
| `text`      | reading and writing text                                                 |
| `display`   | parts and errors as text for people to read                              |
| `laws`      | what holds whatever the parser is fed and answered                       |
| `wire`      | how parts stand in a body                                                |
| `streaming` | parts come out of a body as they went in                                 |
| `contents`  | what is done does not depend on what stands for a file                   |
| `ending`    | what follows the last boundary is ignored                                |
| `fields`    | headers come out of a header section as they went in                     |

## What is proved

- `parse` and `resume` do exactly what the machine does, for every chunk and every
  answer, and no call panics.
- Parts come out as they went in, whatever the chunks in which a body arrives, and
  however deep parts are made up of parts
  (`streaming::law_parts_come_out_as_they_went_in`). This is said of bodies that keep
  within the limits and whose parts do not hold the delimiter (`ParserView::carries`
  in `wire`), and of chunks of which the last one completes the body. It is said of
  every type of file handle, where a function from handles to bytes tells what the
  files hold and every answer does what was asked for (`is_faithful` in `wire`).
- What follows the last boundary in its chunk is ignored, whatever the body
  (`ending::law_what_follows_the_end_is_ignored`).
- What is handed to a part piece by piece is what it holds, also where its data move
  from memory to a file (`contents::law_writes_add_up`).
- No more of a part is held in memory than the limit allows
  (`laws::law_memory_is_bounded`), no more of the stream is kept for the next chunk
  than the beginning of a delimiter or of a header section
  (`laws::law_little_is_kept`), and no file grows beyond its limit
  (`laws::law_files_keep_within_the_limit`).
- Each request is awaited, and answering comes to an end
  (`laws::law_requests_are_awaited`, `laws::law_requests_come_to_an_end`).

Not proved, but stated and relied on: what `std::str::from_utf8` and
`String::push` do.
