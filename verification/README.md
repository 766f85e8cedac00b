# nmlt

Executable finite-state checks, verified with Verus:

- finite graphs with identity-stutter closure, reachability and shortest
  paths (`graph`);
- temporal checking of `always`, `eventually` and `leads_to` under weak and
  strong fairness, with a complete fair-cycle search (`temporal`,
  `fair_cycle`);
- observation maps, one-step refinement with stuttering and finite
  observation-trace inclusion (`observation`, `refinement`, `certificate`);
- open systems: interfaces, payload types and contracts, composition,
  compatibility, canonical encoding, open refinement and congruence
  (`open`, `open_contract`, `compose`, `open_encoding`, `open_refinement`,
  `congruence`);
- runtime journal adaptation (`runtime`);
- finite Boolean verification conditions, their evidence, certificates,
  reachability, model-based testing and solver/proof-assistant result
  normalization (`vc`);
- workflow values and types (`workflow`).

Every public function states its result in its contract; the proofs are
checked by Verus.

Not part of this library: the workflow language (parser, type checker,
lowering and evaluator), resource-graded refinement and composition, and
the encoding-correspondence and two-sided congruence checkers. The latter
rest on graded and kernel crates that are not available to this build.
