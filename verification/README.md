# injm

`injm` fills marked regions of source files: the lines between an
`injm begin` and an `injm end` comment are replaced by text read from
standard input, or by the content of input blocks (`injm begin <id`) of
other files that match output blocks (`injm begin >id`).

The library (`src/`) is verified with Verus. Its contracts are stated over
sequences of characters, and it proves, among other things:

- marker extraction: which comments open and close blocks, which IDs a
  begin marker gives (a marker with both `<id` and `>id` gives an input
  block and an output block with the same markers), the errors and the
  line on which each is reported,
  and that blocks extracted from comments in file order are in order;
- filling: what each output block receives; that filling again replaces
  the earlier content, for every file whose lines end in `\n` or `\r\n`;
  that what was filled reads back from the result and that a filled block
  is reported in sync by the check, for such files and filled text with no
  carriage return before a newline or at its end; that unmatched blocks
  keep a text with no carriage return before a newline (lines lose such a
  carriage return); and that final newlines are kept;
- the ID checks (missing and duplicated IDs, the first one reported), the
  listing of blocks, and the sync check.

Layout:

- `src/text.rs`: characters, words, lines, decimal numbers.
- `src/engine/`: marker extraction from comments, parsing the files that
  patterns matched, ID checks.
- `src/marker.rs`, `src/injector.rs`: block IDs and injection of standard
  input into blocks; filling output blocks from input blocks.
- `src/types.rs`, `src/checker/`, `src/validator/`: located blocks, the
  sync check, file and ID validation.
- `src/cmd/`: what the `inject`, `list` and `check` commands decide.
- `app/`: the command line program; it finds and reads files, detects their
  language and finds their comments with tree-sitter, and prints or writes
  what the library computes.
