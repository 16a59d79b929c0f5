# sztools

A family of text tools over bytes that may or may not be UTF-8, with their logic verified by Verus:
`sz-count`, `sz-find`, `sz-replace`, `sz-dedup`, `sz-cols`, `sz-outline` and `sz-fuzzy-find`.

## Layout

- `src/` is the library. Every function states what it returns or changes, and Verus proves it.
  The calls into `stringzilla`, `glob` and the standard library whose results are taken on trust
  stand behind small wrappers, each with a doc comment that says what is claimed of the call;
  most of them are in `src/sz.rs`.
- `tests/` runs the library on concrete inputs.
- `app/` is the programs: arguments, files, directory walks, standard streams and exit codes. It
  hands the library bytes and plain values and performs the actions that the library decides on.

Streams larger than memory are handled window by window (`src/windows.rs`, `src/walks.rs`). A window
asks for bytes while it has room for them, and is widened only where no record ends in it. The
streaming halves of `sz-count`, `sz-cols` and `sz-find` are proved to come to their end and to give
what the whole text would have given; only the number of words that a stream holds, counted by
Unicode whitespace and alone, is left open where its bytes are no UTF-8. A search that may stop early leaves the rest of its input
unread, and is proved to have reported what the whole input would have, whatever that rest holds;
where a file's hash is asked for it reads to the end.

Files are replaced through a temporary beside them, one step at a time (`src/landing.rs`), so that an
interrupted write leaves either the old contents or the new ones.

## Tables

`sz-fuzzy-find` reads its keyboard layouts, character folds and recorded misspellings from
`keyboards.tsv`, `folds.tsv` and `misspellings.tsv`, in the directory named by `SZ_TABLES`, or in a
`tables` directory beside the program. Its ranking kernels are those of `stringzilla::szs`
(`Substrings` with BM25 scores), which `app/engine.rs` calls.
