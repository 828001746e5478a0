# sudachi lexicon reader

Reads the CSV source of a Sudachi lexicon into entries and writes their
binary form. The library's own steps are proved by Verus against their
contracts; splitting the CSV text into records is the `csv` crate's work,
which the contracts name (`csv_rows`) and take as given.

- `src/parse.rs`, `src/numbers.rs`, `src/text.rs`: the field grammar
  (escapes `\uXXXX` and `\u{...}`, integers, word references, modes,
  `/`-separated lists, `,`-separated inline split units).
- `src/pos.rs`: parts of speech and the insertion-ordered table that gives
  them ids (an `indexmap::IndexMap` behind trusted wrappers).
- `src/csv_source.rs`: the CSV records (`csv` crate) behind trusted wrappers,
  and the names for what reading a text record by record gives.
- `src/entry.rs`: lexicon entries, their defaulted fields and their binary form.
- `src/primitives.rs`: little-endian integers, UTF-16 strings with length
  prefixes, `u32` lists.
- `src/lexicon.rs`: the reader: records to entries, the part-of-speech table.
- `src/dump.rs`: how fields are written back into a CSV dump.
- `src/laws.rs`: properties that relate several functions.
- `app/lib.rs`: files, memory maps and `std::io::Write` around the library.
