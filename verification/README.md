# harper_ls

The logic of a language server for English prose, verified with Verus: completion of the word at
the cursor, conversion between text indices and editor positions, the recognition of file paths,
and what the server decides between its requests and its answers.

- `src/` is the library. Every executable function has a contract that Verus proves. What is taken
  from `std` and from outside crates on trust stands in `chars.rs`, `server/uri.rs` and
  `server/commands.rs`.
  - `keyboard_distance` holds typed words against candidates, with costs by the distance of keys.
  - `word_frequency` ranks words and collocations by frequency lists.
  - `dictionary` says what is asked of a dictionary, and is one to which words can be added.
  - `pos_conv` converts between indices and positions counted in UTF-16 code units.
  - `document` and `lexing` hold the tokens of a text, and find paths in it.
  - `completion` finds the word at the cursor, counts the words around it, scores, ranks and cases
    the candidates, and makes up the answer.
  - `server` decides how documents are parsed, what commands do, when problems are published, and
    which changes of a document still matter.
- `tests/` runs the library on examples.
- `app/` is the server around it: the protocol, files, time and floating point. Parsers, linters
  and word lists come in through the `Engine` trait.

Frequency lists are given as texts with one word, or one pair of words, on each line.
