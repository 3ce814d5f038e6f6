# sinorag

Corpus tooling for Chinese Buddhist texts (CBETA, Kanripo, GD-CEF corpora),
with its text-processing core verified in Verus.

## Layout

- `src/` — the verified library. Every function carries a `requires` /
  `ensures` contract over spec functions and views, and laws that relate
  several functions are public proof functions.
  - `text` — character-sequence helpers (trimming, searching, splitting,
    lines, decimal numbers) shared by the other modules.
  - `catalog`, `translator`, `parallels`, `sidecar` — the CBETA work list,
    translator fields and dynasties, cross-canon parallels, and the per-work
    classification table with its fascicle fallback.
  - `patch` — filling blank author / period / title metadata from the work
    catalog.
  - `cef`, `cef_ingest` — validation of a GD-CEF corpus and its passage rows.
  - `kanripo` — paragraphs, README metadata, XML escaping and TEI for
    Kanripo repositories.
  - `authority` — person and place authority records out of TEI XML.
  - `dict` — dictionary entries out of the dictionary JSON layouts.
  - `markdown` — parsing Markdown (through pulldown-cmark) and lowering its
    event stream into blocks and spans.
  - `pdf_text`, `typography`, `hocr`, `wide`, `export` — the text decisions
    of PDF output: glyph faces, font names, subset tags, wrapping tokens,
    punctuation, hyphenation, hOCR ids, UTF-16 strings, bilingual sections.
  - `catalog_index` — the corpus catalog: the outline tree of corpora,
    canons, works, divisions and passage ranges built from sorted passage
    rows, the work records, each document's range node, and section
    queries.
  - `scope` — resolving a node or work id to a start node and document
    range, and picking the smallest node that holds a passage within a
    character budget.
  - `terebess` — Terebess biography pages: placeholder filtering, site
    chrome and tags removed, the main embedded image, page ids and names.
  - `frontier` — seed phrase filtering and the facet summary (sorted
    counts of periods, canons, origins and traditions) of passages.
  - `build_pack` — fingerprints shortened for messages.
  - `expand`, `cli` — context expansion requests and command-line types.
- `tests/` — tests of the library, run against the real outside crates.
- `app/` — the command-line program: argument handling, file and parquet
  I/O, JSON/TOML parsing entry points, and the floating-point
  cost estimates.
