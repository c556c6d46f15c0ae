# coolwords_ui

The rules behind the coolwords reading tool's web UI, written in Verus and proved
against their contracts: tag names and sections, the per-book tag store and the
interest a word's tags give it, tag layouts and drag-and-drop reordering, the
Collection page, the word filters, the book catalog (search plans, bulk grabs,
subject counts), the book library (slugs, import and OCR job arguments), the
background-job registry, the exclusion report, marking a word in an example
sentence, and build identification.

Layout:

- `src/` — the verified library, one module per area (`tags`, `interest`,
  `layout`, `collection`, `words`, `catalog`, `library`, `jobs`, `excluded`,
  `buildinfo`, `booktags`, `highlight`), on top of `text` (character-level definitions) and
  `sorting` (a stable sort with its result pinned down).
- `tests/` — tests of the library on concrete values.
- `app/` — a partial server around it: JSON routes for build identification,
  the background jobs, catalog search, bulk grabs and subject counts, the book
  list and book edits, confirming an import, tag management and tagging, and a
  word's usage era; with the SQLite reads, the job and importer processes, the
  clock, and the floating-point usage-trajectory judgements. The web pages and
  the remaining endpoints (word lists and details, the collection, uploads, OCR
  administration, the exclusion report) are not served: their rules are in
  `src/`.
