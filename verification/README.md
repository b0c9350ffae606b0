# fast_m2

A verified core of the MaxMatch (M2) scorer for grammatical error
correction (Dahlmeier & Ng, 2012), written in Verus.

## Layout

- `src/edit.rs` — token edits, gold edits, merging two adjacent edits,
  matching an edit against a gold edit, comparing texts without spaces and case.
- `src/align.rs` — the weighted edit-distance matrix of two token sequences
  with every optimal predecessor of each cell.
- `src/graph.rs` — the lattice of edits: breadth-first collection from the
  backpointers, and the sorted union of two lattices.
- `src/order.rs` — the lexicographic order of vertices and edges and sorting by it.
- `src/closure.rs` — extending the lattice with merged edits (a
  Floyd-Warshall-style pass) and dropping merged no-ops.
- `src/sentence.rs` — the lattice of a sentence pair, and its uniqueness.
- `src/weights.rs` — the weight changes that one annotator's gold edits
  cause on the arcs of the lattice, including the two-pointer walk over
  insertion points.
- `src/extract.rs` — reading the edit sequence off a shortest-path tree,
  matching it against the gold edits, dropping space-and-case-only edits.
- `src/tokens.rs` — splitting a sentence into tokens at Unicode white space.
- `app/lib.rs` — the Python module: floating-point weights,
  Bellman-Ford, and the precision / recall / F statistics.
- `tests/` — tests of the library on concrete sentences.
