# search_engine

A small search engine over a folder of documents, with its logic verified by
Verus.

- `src/index`: the positional inverted index (sorted dictionary), the k-gram
  index for wildcard queries, variable-byte numbers, and the on-disk index:
  writing the vocabulary, postings (variable-byte gaps), table and weight
  files as bytes, and reading terms, postings, frequencies and weights back
  from them; proved laws state that what the reader gives back of the
  written files is what was written.
- `src/parser`: normalizing and stemming tokens, indexing a document body
  (and filling the k-gram index with its terms when that is switched on), and
  the query parser (alternatives split at `+`, groups in parentheses
  multiplied out).
- `src/processor`: boolean queries against the on-disk index (words, `-`
  negation, quoted phrases, `a NEAR/k b`, wildcards), with the phrase and
  proximity merges of position lists.
- `src/classifier`: the contingency counts of a term and an author class, and
  the vocabulary over the classes.
- `src/paths`, `src/reader`: moving between folders, and document fields.
- `app/`: the interactive program around the library: reading and writing
  files, JSON, ranked retrieval and classifier scores (floating point).
- `tests/`: tests of the library.
