# pnggrep

A verified library for finding, listing and stripping the metadata that
plotting scripts embed in figures (PNG text chunks, SVG `<metadata>` blocks,
PDF Info dictionaries), with a small command-line front end.

Layout:

- `src/text.rs`: character-level utilities (ASCII case folding, Unicode
  whitespace and control classes, search, trimming, line splitting, number
  parsing and rendering) and the conversions between strings and bytes.
- `src/model.rs`: metadata entries, key normalisation and key resolution.
- `src/paths.rs`: Unix path components, file stems and extensions, and
  replacing a file name.
- `src/png.rs`: the PNG chunk reader (`tEXt`, `zTXt`, `iTXt`), with bounded
  zlib decompression.
- `src/svg.rs`: XML entity decoding, the flat JSON reader used for
  descriptions, and the SVG tag scanner.
- `src/sanitize.rs`: CRC-32, the PNG/SVG/PDF sanitizers and their dispatch by
  file extension, the provenance stamp and the naming of sanitized copies.
- `src/walker.rs`: directory skipping rules, terminal-safe text, and the lines
  that searching and listing print.
- `app/main.rs`: argument handling, file and directory I/O, printing.

Every function in `src/` carries a contract. Verus checks each of them
against the function's body, except for the few small wrappers around
standard-library and `miniz_oxide` calls (marked `external_body`), whose
contracts are taken on trust and say only what those functions document.
The proof functions in `src/` state properties that span several
functions, such as that a sanitized PNG or SVG reads back with nothing but
its stamp.
