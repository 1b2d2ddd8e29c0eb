# pdf_page

Extraction of page-level content from PDF pages: boxes of embedded images and
of filled paths, vector paths, URI links, and the way from page space to
viewport space.

- `src/` is the library, verified with Verus. It decides what to ask the PDF
  engine, and computes from the answers. Coordinates are single precision
  numbers held by their bits: `single` states each operation as exact
  arithmetic followed by one rounding, and `rounding` says what rounding is.
- `app/` makes the engine's calls and converts its values.
- `tests/` runs the library, and holds its arithmetic against the hardware's.
