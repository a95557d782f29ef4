# runome

A Japanese morphological analyzer whose library is verified with Verus: dictionary
resources, a Viterbi lattice and a tokenizer, each function with a `requires` /
`ensures` contract proved against its body.

## Layout

- `src/category.rs` — character category masks and the code-point category index.
- `src/text.rs` — characters of strings and their order.
- `src/types.rs`, `src/error.rs` — dictionary records and errors.
- `src/bytes.rs`, `src/connection.rs`, `src/morpheme_index.rs` — the connection-cost
  matrix and the morpheme index, and the parsers of their packed files.
- `src/resource.rs` — a system dictionary's data, its assembly, validation and queries.
- `src/dictionary.rs` — system and user dictionaries indexed by first character, with
  an exact prefix lookup.
- `src/lattice.rs` — the Viterbi lattice; its best path is proved cheapest.
- `src/chunking.rs` — trimming and splitting text into chunks.
- `src/token.rs` — tokens and results.
- `src/tokenizer.rs` — the tokenizer. Each chunk's results are proved to be those of
  the cheapest path through a lattice that holds, at each position reached, exactly
  the user and system dictionary words and the unknown words that start there; the
  results' surfaces make up the trimmed text.
- `src/uniqueness.rs` — two lattices built for the same chunk agree slot by slot, so
  tokenizing a text has one outcome, and splitting it into words gives the surfaces of
  its tokens.
- `src/loader.rs` — what the loader decides from what it finds on disk.
- `app/lib.rs` — reading a dictionary directory from disk (bincode files, memory-mapped
  packs) and building a tokenizer over it.
- `tests/` — tests over a small dictionary built in memory.
