# diffviz

Verified core of a code-review tool and of the HNSW index it uses.

- `src/review/`: review state (chunks, approvals, instructions, decisions),
  the review engine with its decision cascades, the instruction export and
  import, summaries, and the mock diff provider.
- `src/hnsw/`: node identifiers, the node wire format (builder, writer,
  parser), the chunked graph tape and its memory manager, neighbor edits,
  the graph side of the index, and the byte layout of the index files.
- `app/`: what stays unverified: float distances and the HNSW search,
  prefetch hints, file I/O and memory maps, serde forms of the types.
- `tests/`: tests of the library.

`src/` is checked with Verus; every public function carries a contract.
Laws about a single operation stand in that operation's contract; laws
that relate several operations or definitions are public proof functions.
