# jolt_transpiler

A verified library that turns Jolt verifier computations, recorded as a DAG of
symbolic field operations, into Go circuits for the gnark proving framework.

`src/` is the library, checked by Verus:

- `mle_ast` — the append-only node arena and its handles; `dag` — building,
  inspecting and rendering expression DAGs (Graphviz, standalone circuits).
- `poseidon`, `blake2b` — transcripts that record their hashes as arena nodes;
  `gnark_blindfold_transcript` — the concrete Poseidon transcript over BN254;
  `zk_fiat_shamir` — challenges of the zero-knowledge Fiat-Shamir stages.
- `codegen` — inline gnark code for one expression and the Stage 1 circuit;
  `bundle`, `gnark_codegen`, `circuit`, `fragments`, `constants`, `names`,
  `fields` — constraint bundles, common-subexpression hoisting and the full
  circuit file with its static checks.
- `ast_evaluator` — concrete evaluation of nodes over the BN254 scalar field;
  `symbolize` — IO layout and bytecode witness fixups.
- `ast_curve` — symbolic G1 elements that record curve operations;
  `assertion_debug` — a log of compared values; `size_class` — circuit size
  classes; `scalar`, `bytes`, `text`, `sorted` — arithmetic and text helpers.

`app/` is the command-line driver (file output, JSON), and `tests/` holds the
tests.
