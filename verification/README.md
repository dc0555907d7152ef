# epub_reader_core

EPUB parsing and display preparation, verified with Verus.

The library (`src/`) reads an EPUB from its bytes and gives its metadata,
spine sections, table of contents (EPUB 3 navigation document or EPUB 2
NCX), resources and cover; extracts each section's plain text with a map
back to the source and to CFIs; searches the text; parses, writes and
orders CFIs; resolves hrefs to normalized archive paths; and prepares a
section for display (link and asset rewriting, highlight marks, styles).
Every function carries a contract that Verus proves, and laws such as
"a CFI written out reads back as itself" are stated and proved as proof
functions.

Modules:

- `archive` – the ZIP container as a list of named files (`zip`)
- `container`, `package`, `navigation`, `xml`, `dom` – `container.xml`,
  the OPF package, NCX and navigation documents (`quick-xml`, `scraper`)
- `path` – percent-decoding, normalization and resolution of hrefs
- `text`, `text_map` – plain text of a document, with source spans and CFI
  positions for every piece of it
- `cfi`, `cfi_parse`, `cfi_order`, `cfi_laws` – CFI values, their text,
  reading them back and their order
- `search` – full-text search with excerpts and CFIs
- `rewrite`, `highlight`, `render`, `view`, `layout` – rewriting references
  in HTML and CSS, highlight marks, display-ready sections, body
  extraction and column layout
- `book` – the book: sections loaded on demand, resources, cover, TOC
- `server` – what the test server answers for a resource request
  (`mime_guess`)

`app/` is a small web server (axum) that serves one book from disk and a
reader page; it also holds the parts that work with floating-point
progress percentages (`locations`).

`tests/` holds the test suite.
