# json_parser

A small JSON parser, verified with Verus, that builds a parse tree whose
nodes record the byte offsets of their first and last bytes in the input.

- `src/grammar.rs` states, as functions on the input characters, what is
  accepted and which tree is built (`spec_parse`).
- `src/parser.rs` holds `JsonParser`; each function is proved to build
  exactly what the grammar says, and `try_parse` gives `None` where the
  grammar refuses the input (`parse` requires an accepted input). The
  readers of each construct (`value`, `parse_number`, `items`, ...) work on a
  `CharCursor`; each requires that its construct is accepted at the cursor
  and builds exactly what the grammar says. `try_parse` uses their fallible
  forms, which give `None` where the grammar refuses.
- `src/node.rs` holds the tree types and their model; `src/render.rs` their
  text form; `src/cursor.rs` and `src/text.rs` the characters of the input
  with their byte offsets.
- `src/laws/` proves properties of the grammar: whitespace around a text
  only moves offsets; numbers are exactly `-?(0|[1-9][0-9]*)(\.[0-9]+)?`;
  a string ends at its first unescaped quote; a value's kind is given by its
  first character; every node has the shape its kind gives (strings start
  and end on quote bytes), lies within its
  parent and within the input, and the root spans the text without the
  whitespace around it; the text of every scalar is the input at its offsets;
  the texts accepted are exactly those of a JSON grammar written out on its
  own (`json_text`, where a comma in an object follows its value directly),
  and every tree built is the tree of its derivation: each node spans its
  part of the text, children in order between their brackets.
