# fonttype

A library for reading and writing TrueType / OpenType font files, with its
behaviour stated in contracts and proved with Verus, and the `fonttool`
command line program around it.

## Layout

- `src/` — the verified library.
  - `codec`, `parse`, `write`, `math`, `text`: big-endian numbers, the
    bounds-checked reader, the byte writer, and the text helpers.
  - `tables/`: one module per table (`head`, `hhea`, `maxp`, `post`, `name`,
    `cmap`, `OS/2`, `glyf`/`loca`, `hmtx`, `kern`, `GPOS`, `GSUB`, `HVAR`,
    `gvar`, `fvar`, `STAT`, `CFF `, `COLR`, `CPAL`, `SVG `), each with a
    spec of its bytes (`encode` / `decode`) and the reader and writer proved
    against it.
  - `font`, `font_read`, `font_build`: writing a whole font, reading one,
    and building, subsetting, merging and stripping fonts.
  - `sfnt`, `woff`, `woff2`, `ttc`: plain table lists and the container
    formats.
  - `validation`, `modifier`, `tracer`, `coverage`, `encoding`: checks,
    edits, bitmap tracing, code point coverage, and the character encodings.
  - `traced_font`, `compare`: a font made from a traced glyph, and the
    structural differences between two fonts.
  - `roundtrip`, `write_read`: the laws that tie writing to reading;
    `tables/cmap_round`, `tables/name_round`, `tables/post_round` and
    `tables/glyf_round` show that written tables fit what the reader
    reads and read back, and `tables/cmap_reverse` shows that reverse code
    point lookup inverts forward lookup.
- `tests/` — tests run against the compiled library.
- `app/` — the `fonttool` program: argument handling, file I/O, image
  files, and the floating-point parts (rasterising, Bezier editing and
  CharString decoding).

## Checking

Verus checks `src/`; the tests are ordinary Rust tests.
