//! What an error comes from, and what `iferror` is called with.

use vstd::prelude::*;

use crate::dnf::DnfError;
use crate::evaluator::compile::as_assumption_error;
use crate::evaluator::err::EvaluationError;
use crate::iferror::two_booleans;
use crate::model::{Value, World};
use crate::residual::Val;
use crate::types::{BoolType, RequestEnv, Type};

verus! {

/// What the typechecker found wrong, if that is what the error reports.
pub open spec fn type_errors(e: EvaluationError) -> Option<Vec<String>> {
    match e {
        EvaluationError::NotWellTyped { errs } => Some(errs),
        EvaluationError::AssumptionNotWellTyped { errs, .. } => Some(errs),
        _ => None,
    }
}

/// The error of an assumption has what the typechecker found wrong with it and
/// the environment it was wrong in, and every other error stays as it is.
pub proof fn law_assumption_error_keeps_its_cause(
    e: EvaluationError,
    env: RequestEnv,
    r: EvaluationError,
)
    requires
        as_assumption_error(e, env, r),
    ensures
        type_errors(r) == type_errors(e),
        !(r is NotWellTyped),
        e is NotWellTyped ==> (r matches EvaluationError::AssumptionNotWellTyped { env: x, .. }
            && x.principal@ == env.principal@ && x.action@ == env.action@ && x.resource@
            == env.resource@),
        !(e is NotWellTyped) ==> r == e,
{
}

/// The evaluator's error that an error of the normalization stands for.
pub open spec fn cause(e: DnfError) -> Option<EvaluationError> {
    match e {
        DnfError::NotWellTyped { errs } => Some(EvaluationError::NotWellTyped { errs }),
        DnfError::RequestEnvNotFound(env) => Some(EvaluationError::RequestEnvNotFound(env)),
        DnfError::Typecheck(x) => Some(x),
        _ => None,
    }
}

/// An error of typechecking is kept whole, and wrapped only if the
/// normalization has no error of its own for it.
pub proof fn law_typecheck_error_keeps_its_cause(e: EvaluationError)
    ensures
        cause(crate::dnf::elim::typecheck_error_spec(e)) == Some(e),
        crate::dnf::elim::typecheck_error_spec(e) is Typecheck <==> !(e is NotWellTyped)
            && !(e is RequestEnvNotFound),
{
}

/// The boolean of a value is what the value is as an expression.
pub proof fn law_boolean_is_what_the_value_is(v: Val, w: World, b: bool)
    requires
        !(v is Ext),
    ensures
        v.boolean() == Some(b) <==> v.tree().eval(w) == Ok::<Value, int>(Value::Bool(b)),
{
    assert(v.tree().op == v.op());
}

/// `iferror` takes two arguments, each of them any boolean.
pub proof fn law_two_booleans(params: Seq<Type>)
    ensures
        two_booleans(params) <==> params.len() == 2 && forall|i: int|
            0 <= i < params.len() ==> #[trigger] params[i] == Type::Bool(BoolType::AnyBool),
{
    if params.len() == 2 && forall|i: int|
        0 <= i < params.len() ==> #[trigger] params[i] == Type::Bool(BoolType::AnyBool) {
        assert(params =~= seq![Type::Bool(BoolType::AnyBool), Type::Bool(BoolType::AnyBool)]);
    }
}

} // verus!
