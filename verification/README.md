# vweditor

The core of a viewer and editor for large CSV/TSV/text files, written in Verus:
the library's functions are verified against their `requires`/`ensures`
contracts.

Layout of `src/`:

- `chars` — small helpers between `String`s and character vectors.
- `csv` — one delimited record: splitting into field values, joining back
  (with the proof that splitting a joined line gives the values back).
- `edit` — the text operations of edit mode on a list of lines: inserting,
  deleting, selecting, word ranges, row insertion/removal and reordering
  (with the proofs that cut-and-paste and a reordering followed by its inverse
  give the text back).
- `cells` — grid operations: setting, clearing, copying and pasting cells.
- `undo` — undo steps and the undo stack, bounded by a step count and a byte
  budget (held by every stack, unless a single step alone exceeds it).
- `buffer` — loading a file's bytes into the edit buffer.
- `sort`, `column_sort`, `filter` — sorting the data lines by several
  criteria or by one column, filtering them, and sorting what a filter
  passed.
- `distinct`, `text_order` — the distinct values of a column, in dictionary
  order, and the HyperLogLog registers that stand for the values past the
  exact tally's cap.
- `archive` — taking the one table out of a zip archive.
- `i18n` — the texts of the user interface in Korean and English.

`app/` is the command-line front: it reads files and arguments, parses
numbers (floating point) for number sorts, hashes values with std's hasher
for the sketch, and turns the sketch's registers into an estimate (floating
point). `tests/` exercises the library with concrete inputs.
