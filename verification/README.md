# limiga

A constraint solving library whose logic is verified with Verus.

## Layout

- `src/cdcl/`: a clause-learning SAT solver with propagators over integer interval
  domains encoded by literals: literals and variables, the assignment and trail, clause
  preprocessing, the clause database, two-watched-literal propagation, conflict analysis with
  clause minimisation, and the search loop. Its central contract: a clause added at the root
  level holds in every solution the solver reports (`Solver::entails`, `Solver::admits`,
  `Solver::lemma_admitted_satisfies`).
- `src/constraints/`: constraints posted to that solver: `bool_and` as clauses, and
  `bool_lin_leq` / `bool_lin_eq` through the `LinearBool` propagator.
- `src/cp/`: a finite-domain constraint solver over bit-set domains, with a trailed domain
  store, a propagator queue, the `NotEq` propagator, offset views and a depth-first search.
- `src/dimacs/`: an incremental DIMACS CNF parser, fed in chunks.
- `src/flatzinc/`: a parser for a subset of FlatZinc, line by line.
- `src/text.rs`: character-level helpers shared by the parsers.
- `app/`: the parts that read files and readers, the error types with their `Display`
  impls, and a VSIDS brancher whose activities are floating-point numbers.
- `tests/`: the test suite.
