//! Analysis of boolean Cedar policy expressions: disjunctive normal form,
//! atom splitting and elimination, guided simplification, and the symbolic
//! evaluator's decision logic, all with machine-checked contracts.

pub mod ast;
pub mod tree;
pub mod tree_laws;
pub mod expr_util;
pub mod outcome;
pub mod outcome_laws;
pub mod iferror;
pub mod dnf;
pub mod lint;
pub mod message_laws;
pub mod model;
pub mod policy;
pub mod policy_laws;
pub mod condition_laws;
pub mod error_laws;
pub mod evaluator;
pub mod types;
pub mod text;
pub mod text_laws;
pub mod residual;
pub mod residual_laws;
pub mod residual_parts;
pub mod semantics;
pub mod simplify;
pub mod slots;
pub mod typechecked;
pub mod typechecked_laws;

