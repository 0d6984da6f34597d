# tamago

The decisions of a tensor-graph superoptimizer driver, verified with Verus.
The driver saturates a tensor graph with rewrite rules (egg, tensat) and
extracts, samples, diagnoses or prunes; this library holds the logic around
those calls, each part with a contract:

- `rules`, `text`: reading rule files (blank lines, trimming, `lhs=>rhs`
  sides, the parse-check tally).
- `expr`, `egraph`: plain models of expressions and rebuilt e-graphs, with
  lookup, canonicalisation and statistics.
- `chain`: the reachability diagnosis of a min-of-max start graph (natural
  chains, the order-independent subset closure, the outer minimum).
- `ground`, `prune`: grounding rule patterns over square inputs, and the
  greedy redundancy pruner as a state machine driven one check at a time.
- `extract`, `names`: ILP arguments and node picks, rule-family ranking,
  sample bookkeeping, file names and weight-name provenance.
- `prove`: the bookkeeping of repeated proof trips.
- `mode`: which of the optimize mode's options takes effect.
- `laws`: properties that span functions, as proof functions.

`app/` is the command line around it: argument handling, files, the calls into
egg and tensat, and the float-valued cost and runtime parts.
