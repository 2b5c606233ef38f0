# constraint_theory_core

A constraint satisfaction toolkit whose logic is verified with Verus.

`src/` is the verified library:

- `csp` — variables with finite integer domains, unary/binary/n-ary
  constraints, problems, consistency and satisfaction checks, all-different
  and N-Queens diagonal helpers, solver configuration and statistics.
- `ac3` — AC-3 arc consistency: it only filters domains (keeping their
  order), reads only binary constraints, keeps every value of every
  arc-consistent family of sub-domains (so it prunes exactly to the
  arc-consistent closure), and reports a wiped-out domain. When opposite
  orientations of a pair use symmetric relations, it keeps every assignment
  that satisfies the binary constraints; with no self-loops as well, a `true`
  result leaves the network arc consistent.
- `backtracking` — chronological backtracking, MRV, forward checking with
  LCV ordering, and MAC; every returned assignment is a solution, the
  solvers report `None` only for unsolvable problems (under the stated
  conditions), and plain backtracking returns the first solution in
  variable and domain order.
- `cdcl` — a CDCL SAT solver (unit propagation, 1-UIP conflict analysis,
  non-chronological backtracking, clause learning) whose search is proved to
  terminate; every learnt clause follows from the clauses and is unit after
  the backjump, every returned model satisfies all clauses, and `None` means
  the clauses are unsatisfiable (when no literal has the code 0).
- `puzzle`, `sudoku` — N-Queens (solving and counting), 4x4 and 9x9 Sudoku,
  graph colouring, with proofs that their solutions are exactly the intended
  placements, boards and colourings, and that the N-Queens counter returns
  the number of non-attacking placements.
- `cache`, `quantizer`, `dcs` — binary GCD, primitive Pythagorean triples,
  exact Pythagorean-ratio tests, quantizer presets and integer thresholds.

`app/` holds the floating-point side (hidden dimensions, holonomy,
quantization, the lattice cache and the SIMD batch path) as ordinary Rust on
top of the library. `tests/` exercises the library.
