# opt-eqsat

Optimistic equality saturation for a small imperative language, verified
with Verus.

A program is parsed (`grammar`), translated into an SSA e-graph with a
control-flow graph (`ssa`), cleaned by dead-code elimination, and then
analysed and rewritten in turns: an interval analysis with global value
numbering that treats loop back edges optimistically (`analyses`), and
equality saturation with algebraic rewrites guided by the analysis
(`rewrites`). `domains` holds the interval lattice and the union-find,
`hashcons` the table from values to classes, `generate` a generator of
random well-scoped programs, and `ast` the syntax tree and its printer.

Layout:

- `src/` the verified library;
- `tests/` the tests, run against the compiled library;
- `app/` the benchmark program, which times the analyses on generated
  programs and writes a table of the results.
