# ccx

A completion procedure for unit equalities over slotted e-graphs. Equations are
added to an e-graph; classes waiting to be processed (`us`) are unified with the
processed ones (`wo`) and extended by applications of the function symbols, until
no class waits or a limit is reached.

- `src/` is the verified library: slot maps, applied ids and substitutions with
  their renaming and transport, syntactic unification of terms, a snapshot of the
  e-graph with morphisms and subsumption between classes, unification of classes and term
  extraction over it, the decisions of the merge and deduction steps and of unifier
  instantiation, the size and symbol analyses, the worklist operations, the search
  for the classes above changed ones, the recursion budget, the stopping rules and
  the stop-reason tokens, and the reading of equations.
- `app/` drives the e-graph: the language definition, the trait implementations,
  the snapshots it hands the library, the e-graph actions (adding, uniting and
  finding) that the library's decisions call for, the runner loop and `main`. It
  converts between the e-graph's values and the library's plain values.
- `tests/` exercise the library on concrete values.
