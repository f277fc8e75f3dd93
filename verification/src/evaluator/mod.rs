//! A symbolic evaluator: simplifies a boolean expression under logical
//! assumptions, using a solver to decide which sub-expressions are determined.
//!
//! # Contract
//!
//! Fix a schema, a request environment, a boolean expression `e` that is well
//! typed in it, and the registered assumptions. An evaluation gives an
//! expression `r` whose nodes carry [`EvaluationMetadata`], such that on every
//! input (request and entities) that satisfies the assumptions:
//!
//! * the outcome of `e` (`True`, `False` or `Error`) is one of the outcomes of
//!   `r`;
//! * evaluating `r` gives the same result as evaluating `e`, up to the *kind*
//!   of error;
//! * given an exact solver, the outcomes of `r` are exactly those that `e`
//!   takes over these inputs;
//! * a `has` of an optional attribute, or a `hasTag`, whose access follows in
//!   the scope it guards is never folded to the literal `true` (it is returned
//!   with outcomes `{True}` instead), so every access in `r` is guarded as
//!   strict validation requires.
//!
//! `r` is built from the *typechecked* form of `e`, which may differ
//! structurally from `e`. Errors are reserved for infrastructure failures
//! (solver errors, ill-typed input, an unknown request environment,
//! contradictory assumptions, the recursion limit). An expression that
//! necessarily errs is a normal result whose outcomes are `{Error}`.
//!
//! # Entity existence
//!
//! The symbolic store cannot express that an entity is absent: `<entity>.attr`
//! compiles to a term that never errs and `<entity> has attr` of a required
//! attribute to the literal `true`, while on an actual store an access on a
//! missing entity errs and such a `has` is `false`. The evaluator tracks
//! existence itself with a predicate per entity type, used only in asserts it
//! adds: it holds for every entity of an assumed store, and for the receiver
//! of every strict access of an expression that an assumption or the trail
//! says evaluated without error. The three outcome questions ask for a boolean
//! together with the existence of the receivers that it takes. After them, each
//! existence-sensitive access of an atom asks whether its receiver can be an
//! entity that does not exist; if it can, the outcomes the atom may then take
//! join the set. And where an expression has an outcome, because it is assumed
//! or because it let the next operand be evaluated, what is asserted of its
//! atoms is that their terms have the values that lead there, or that a
//! receiver is missing that does.
//!
//! What the laws about missing entities rest on is in [`missing`].
//!
//! # Running an evaluation
//!
//! The solver is not called from here. [`Evaluator::prepare`] gives the nodes
//! and the base asserts, and [`step`] takes the answers of the solver so far
//! and gives the next query, or the result.

pub mod access_laws;
pub mod agree;
pub mod assumptions;
pub mod build_laws;
pub mod compile;
pub mod err;
pub mod fold;
pub mod guards;
pub mod laws;
pub mod metadata;
pub mod missing;
pub mod node;
pub mod query_laws;
pub mod run;
pub mod run_laws;
pub mod session;
pub mod session_laws;
pub mod state;
pub mod state_laws;
pub mod table;
pub mod term;

pub use err::EvaluationError;
pub use fold::SymbolicFold;
pub use metadata::{typed_of, EvaluationMetadata};
pub use run::{step, EvaluationTrace, NodeOutcome, QueryRecord, Step};
pub use session::{request_env_of, Evaluator, Prepared, Request};
