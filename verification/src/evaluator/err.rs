//! Errors of the symbolic evaluator.

use vstd::prelude::*;

use crate::types::{RequestEnv, Type};

verus! {

/// Infrastructure errors of the symbolic evaluator.
///
/// None of these variants means "the evaluated expression errors": that is a
/// normal result, reported through the possible outcomes of the returned
/// expression.
#[derive(Debug)]
pub enum EvaluationError {
    /// The request environment is not declared in the schema.
    RequestEnvNotFound(RequestEnv),
    /// The target expression is not well typed in the request environment.
    NotWellTyped {
        /// Errors from the typechecker.
        errs: Vec<String>,
    },
    /// A typechecked policy set was built against a different schema than the
    /// evaluator's; its cached typed conditions do not apply.
    SchemaMismatch,
    /// The target expression is well typed but not boolean.
    NotBoolean {
        /// Type the typechecker assigned to the expression.
        ty: Type,
    },
    /// An assumption is not well typed in the request environment being
    /// evaluated.
    AssumptionNotWellTyped {
        /// The request environment.
        env: RequestEnv,
        /// Errors from the typechecker.
        errs: Vec<String>,
    },
    /// The assumptions are contradictory in this request environment: no
    /// well-formed input satisfies them, so nothing can be said about the
    /// expression.
    UnsatisfiableAssumptions,
    /// Assumed entity data does not fit the schema.
    InvalidEntities(String),
    /// An assumed request does not fit the schema.
    InvalidRequest(String),
    /// The expression nests too deeply.
    RecursionLimit,
    /// An internal invariant was violated.
    Internal(&'static str),
    /// Errors from symbolic compilation or the solver.
    SymCC(String),
}

} // verus!
