# cedar_analysis

Static analysis of Cedar policies: executable Rust, with contracts that Verus
proves.

What is proved about the code:

- **Normal forms** (`src/dnf`): a boolean expression becomes an ordered
  disjunction of cubes that evaluates like it, errors included, wherever the
  answers about which of its atoms may err are right. Atoms are split and freed
  of record and set literals first; policies are split into one policy per cube,
  and a policy set is turned into allow policies only, all without changing a
  decision on an input on which the condition of each policy is well typed
  (`Tree::typed`) if the scope of the policy is true there: validation types a
  condition only past its scope.
- **Symbolic evaluation** (`src/evaluator`): an expression is simplified under
  assumptions with the help of a solver. The outcomes that are reported cover
  every input that satisfies the assumptions, whatever entities are missing in
  its store, and the simplified expression evaluates like the expression
  (`law_evaluating_is_sound`). This rests on the answers of the solver being
  sound, and on the compiler being right: it sees an input as its completion, in
  which the missing entities are there with what the schema requires of them
  (`World::completed_by`), and the term of an atom denotes what the atom
  evaluates to on the completion (`NTree::denoted`). That the existence-sensitive
  accesses of an atom make up for the difference is proved
  (`law_accesses_cover_missing_entities`), and so is that the asserts of an
  assumed outcome or decision hold wherever it is met
  (`law_met_assumption_holds`, `law_assumed_decision_holds`). With exact answers,
  terms that denote what the expressions evaluate to and no entity missing, the
  outcomes are exactly those that occur.
- **Residuals and typechecked policies** (`src/residual.rs`,
  `src/typechecked.rs`): which outcomes a partially evaluated condition can still
  have, per request environment. None is left out where values have the types of
  the expressions they come from (`RTree::well_typed`), which is what validation
  promises.
- **Findings** (`src/simplify`, `src/semantics.rs`, `src/lint.rs`): which
  expressions of a policy document are determined in every request environment,
  under the assumptions that a schema states, and how they are reported.

The meaning of expressions that all of this speaks of is in `src/tree.rs` (the
shape of expressions) and `src/model.rs` (their evaluation). The names of the
fields of a record literal are in order and distinct (`Tree::wf`):
`ExprKind::record` builds such literals, and the rewrites keep them so.

The parser, the validator, the symbolic compiler and the solver are not part of
the library: it takes them as functions, or asks its caller for their answers.
`app/` runs the loops that wait for a solver and is the `cedar lint` command.
`tests/` runs everything on concrete expressions, with a typechecker for small
schemas, and with a solver that tries every model of a finite family.
