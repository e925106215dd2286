# csv_columns

Column alignment for CSV/TSV documents, verified with Verus: field
splitting with quote handling, whitespace Align and Shrink, virtual-align
pads, and the decisions of the language server and of the editor extension
that launches it.

## Layout

- `src/text.rs` — the character model: Unicode whitespace and trimming,
  ASCII lower-casing (idempotent, so extensions match without regard to
  case), UTF-8/UTF-16 lengths, display width (through `unicode-width`) and
  string building.
- `src/rainbow_csv_core/` — span-tracked splitting that tolerates whitespace
  around quoted fields, one-pass document analysis, Align/Shrink, pads per
  line range, and the laws: Align and Shrink are idempotent, Shrink after
  Align equals Shrink, documents with unbalanced quotes are left alone,
  aligned lines pair with the input's lines (same terminators, same values),
  rewritten lines re-parse to the same values, the analysis flags
  `needs_align` and `needs_shrink` say exactly whether the rewrite changes
  the text, the pads of a line range are the document's pads on those lines,
  and the pads line up the delimiters (for display widths that fit the
  analysis's `u32` fields).
  An aligned document needs no pads: proved outright for printable-ASCII
  documents, and for other documents under the premise that trailing
  spaces add their count to a string's display width, which the
  `unicode-width` tables give but which is stated, not proved, here.
- `src/csv_core/` — the simpler core the language server uses: raw field
  splitting, trimmed records, column widths, Align/Shrink and pads, with the
  laws that the pads of a line range are the document's pads on those lines,
  that a warning-free split joins back to the line, and that Shrink's change
  flag is exactly whether the text changed.
- `src/lsp.rs` — document dialects, whole-document edits, code actions,
  inlay hints, request answers and the command-line tool's output.
- `src/extension.rs` — release asset per platform, installed versions, the
  installation state machine and the server command.
- `app/` — the language server loop, the `csv-align` command and the editor
  extension glue; they perform the I/O the library asks for.
- `tests/` — scenario tests for every module.
