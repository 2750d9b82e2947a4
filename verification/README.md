# venn_search

A verified library for the search for simple, monotone 6-Venn diagrams whose curves can
be drawn as triangles.

- `src/` is the library, written in Verus: every function carries its contract and is
  proved against it, except two small trusted wrappers around std calls that vstd gives
  no specification (`String::push` in `text.rs`, `Vec::capacity` in `trail`), whose
  contracts state what std documents.
  - `geometry`: colors, color and cycle sets, facial cycles, edges, vertices, faces.
  - `memo`: the fixed tables — all facial cycles, the possible vertices, the faces with
    their allowed cycles and vertex links; `memo::cycle_laws` proves that the cycle
    table lists each canonical color sequence exactly once (NCYCLES of them).
  - `trail`, `state`, `context`: the search state, whose writes are recorded so that any
    checkpoint can be restored.
  - `propagation`: constraint propagation between faces, crossing limits, corners and
    disconnected curves.
  - `symmetry`: canonicality under the dihedral group acting on the colors.
  - `engine`, `predicates`: the backtracking engine as a state machine, the search
    steps it runs, and (`predicates::report`) the walks whose faces the reporting
    predicates write.
- `tests/` exercises the library.
- `app/` runs searches: the engine's loop over the predicates, and the predicates that
  write solutions to files.
