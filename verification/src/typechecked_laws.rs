//! What typechecking a policy and folding its conditions come to.

use std::sync::Arc;

use vstd::prelude::*;

use crate::ast::Expr;
use crate::evaluator::fold::evaluations;
use crate::model::{Value, World};
use crate::policy::Policy;
use crate::policy_laws::{Asked, Hierarchy};
use crate::residual::Residual;
use crate::tree::Tree;
use crate::typechecked::{
    env_data, env_error, wraps, Checked, EnvData, PolicyCheck, StaticError, TypecheckError,
    Typecheckable, TypecheckedPolicy,
};
use crate::types::{RequestEnv, Schema, Type};

verus! {

/// An answer of the validator is a typed expression exactly if it found no
/// error, neither about entities and literals nor in typechecking, whether the
/// policy applies in the environment or not; otherwise it is the errors, those
/// about entities and literals first.
pub proof fn law_answer_without_errors_is_typed(a: Checked)
    ensures
        match a.result() {
            Ok(e) => a.errs@.len() == 0 && match a.check {
                PolicyCheck::Success(x) => e == x,
                PolicyCheck::Irrelevant(errs, x) => errs@.len() == 0 && e == x,
                PolicyCheck::Fail(_) => false,
            },
            Err(e) => {
                &&& e is NotWellTyped
                &&& if a.errs@.len() > 0 {
                    e->errs == a.errs
                } else {
                    match a.check {
                        PolicyCheck::Success(_) => false,
                        PolicyCheck::Irrelevant(errs, _) => errs@.len() > 0 && e->errs == errs,
                        PolicyCheck::Fail(errs) => e->errs == errs,
                    }
                }
            },
        },
{
}

/// The policy that a bare expression is typechecked as has the expression as
/// its condition, on every request.
pub proof fn law_wrapped_expression_is_the_condition(p: Policy, e: Expr<()>, w: World)
    requires
        wraps(p, e),
    ensures
        p.condition_tree().eval(w) == w.as_bool(e.tree().eval(w)),
{
    let t = Tree::bool(true);
    let inner = Tree::and(t, e.tree()).fold_literals();
    let below = Tree::and(t, inner).fold_literals();
    crate::policy_laws::lemma_and(t, e.tree(), w);
    crate::policy_laws::lemma_and(t, inner, w);
    crate::policy_laws::lemma_and(t, below, w);
}

/// What is known of a policy in an environment is what the typechecker answered
/// there, with the slots standing for what they are linked to.
pub proof fn law_typed_condition_is_the_answer(policy: Policy, a: Checked, d: EnvData, w: World)
    requires
        env_data(policy, a, d),
        a.result()->Ok_0.tree().shaped(),
        w.links(policy.principal_slot, policy.resource_slot),
    ensures
        d.typed is Ok,
        d.typed->Ok_0.tree().eval(w) == a.result()->Ok_0.tree().eval(w),
{
    crate::policy_laws::law_filled_evaluates_alike(
        a.result()->Ok_0.tree(),
        policy.slot_env(),
        w,
    );
}

/// The condition of a typechecked policy is false on requests out of the
/// policy's scope, and on others what its `when` clause is.
pub proof fn law_typechecked_condition_means<C: Fn(&Policy, &RequestEnv) -> Checked>(
    p: TypecheckedPolicy,
    policy: Arc<Policy>,
    schema: Arc<Schema>,
    check: &C,
    a: Asked,
    h: Hierarchy,
    w: World,
)
    requires
        p.is_check_of(policy, schema, check),
        policy.grounded(),
        policy.condition_tree().shaped(),
        w.is_on(h),
        w.asks(a),
        w.links(policy.principal_slot, policy.resource_slot),
    ensures
        p.condition_spec().tree().eval(w) == if policy.scope_met(a, h) {
            match policy.when {
                Some(e) => w.as_bool(e.tree().eval(w)),
                None => Ok::<Value, int>(Value::Bool(true)),
            }
        } else {
            Ok::<Value, int>(Value::Bool(false))
        },
{
    policy.law_condition_means(a, h, w);
    crate::policy_laws::law_filled_evaluates_alike(policy.condition_tree(), policy.slot_env(), w);
}

/// Once a residual was interpreted, the residual is the interpreted one and its
/// outcomes are sound: the outcome of evaluating it is one of them, wherever
/// its evaluation is well typed.
pub proof fn law_folded_outcomes_are_sound(
    before: EnvData,
    residual: Residual,
    typed: Result<Option<Expr<Option<Type>>>, StaticError>,
    after: EnvData,
    w: World,
)
    requires
        before.folded(residual, typed, after),
        w.operators_work(),
        residual@.well_typed(w),
    ensures
        after.residual@ == residual@,
        after.outcomes@.contains(residual@.outcome(w)),
        match typed {
            Err(e) => after.typed == Err::<Arc<Expr<Option<Type>>>, StaticError>(e),
            Ok(Some(t)) => after.typed is Ok && *after.typed->Ok_0 == t,
            Ok(None) => after.typed == before.typed,
        },
{
    residual@.law_outcomes_are_sound(w);
}

/// The typed condition that is known in an environment is the one recorded for
/// it, of a policy that was typechecked against a schema with the same text.
pub proof fn law_known_condition_is_the_recorded_one(
    p: TypecheckedPolicy,
    env: RequestEnv,
    schema: Schema,
    i: int,
)
    requires
        p.keys().no_duplicates(),
        0 <= i < p.entries().len(),
        p.entries()[i].0.principal@ == env.principal@,
        p.entries()[i].0.action@ == env.action@,
        p.entries()[i].0.resource@ == env.resource@,
    ensures
        match p.entries()[i].1.typed {
            Ok(t) => p.known(&env, &schema) == if schema.text() == p.schema_spec().text() {
                Some(t)
            } else {
                None
            },
            Err(_) => p.known(&env, &schema) is None,
        },
        p.data(&env) == Some(p.entries()[i].1),
{
    let keys = p.keys();
    assert(keys[i] == env@);
    assert(keys.contains(env@));
    let j = keys.index_of(env@);
    assert(keys[j] == env@);
    assert(i == j);
}

/// Nothing is known in an environment that is not recorded.
pub proof fn law_nothing_known_elsewhere(p: TypecheckedPolicy, env: RequestEnv, schema: Schema)
    requires
        forall|i: int| 0 <= i < p.entries().len() ==> (#[trigger] p.entries()[i]).0@ != env@,
    ensures
        p.known(&env, &schema) is None,
        p.data(&env) is None,
{
    let keys = p.keys();
    if keys.contains(env@) {
        let j = keys.index_of(env@);
        assert(p.entries()[j].0@ == env@);
    }
}

/// The environments that are left to fold are those in which the condition is
/// not a static error, in their order.
pub proof fn law_open_environments_are_those_without_static_error(
    p: TypecheckedPolicy,
    n: nat,
) -> (at: Seq<int>)
    requires
        n <= p.entries().len(),
    ensures
        at.len() == p.open_envs(n).len(),
        forall|j: int|
            0 <= j < at.len() ==> 0 <= (#[trigger] at[j]) < n && p.entries()[at[j]].1.typed is Ok
                && p.open_envs(n)[j] == p.entries()[at[j]].0@,
        forall|i: int, j: int| 0 <= i < j < at.len() ==> (#[trigger] at[i]) < (#[trigger] at[j]),
        forall|i: int|
            0 <= i < n && (#[trigger] p.entries()[i]).1.typed is Ok ==> at.contains(i),
    decreases n,
{
    if n == 0 {
        seq![]
    } else {
        let front = law_open_environments_are_those_without_static_error(p, (n - 1) as nat);
        if p.entries()[n - 1].1.typed is Ok {
            let at = front.push(n - 1);
            assert forall|i: int|
                0 <= i < n && (#[trigger] p.entries()[i]).1.typed is Ok implies at.contains(i) by {
                if i < n - 1 {
                    let j = front.index_of(i);
                    assert(front.contains(i));
                    assert(at[j] == i);
                } else {
                    assert(at[front.len() as int] == i);
                }
            }
            at
        } else {
            front
        }
    }
}

/// Folding a set evaluates every policy in every environment in which its
/// condition is not a static error, each once, policy by policy and in the
/// order of the environments, and nothing else.
pub proof fn law_fold_evaluates_every_open_condition(
    items: Seq<TypecheckedPolicy>,
    n: nat,
) -> (at: Seq<(int, int)>)
    requires
        n <= items.len(),
    ensures
        at.len() == evaluations(items, n).len(),
        forall|j: int|
            0 <= j < at.len() ==> {
                let (k, i) = #[trigger] at[j];
                &&& 0 <= k < n
                &&& 0 <= i < items[k].entries().len()
                &&& items[k].entries()[i].1.typed is Ok
                &&& evaluations(items, n)[j] == (k, items[k].entries()[i].0@)
            },
        forall|i: int, j: int|
            0 <= i < j < at.len() ==> (#[trigger] at[i]).0 < (#[trigger] at[j]).0 || (at[i].0
                == at[j].0 && at[i].1 < at[j].1),
        forall|k: int, i: int|
            #![trigger items[k].entries()[i]]
            0 <= k < n && 0 <= i < items[k].entries().len() && items[k].entries()[i].1.typed is Ok
                ==> at.contains((k, i)),
    decreases n,
{
    if n == 0 {
        seq![]
    } else {
        let front = law_fold_evaluates_every_open_condition(items, (n - 1) as nat);
        let p = items[n - 1];
        let envs = law_open_environments_are_those_without_static_error(p, p.entries().len());
        let mine = envs.map_values(|i: int| (n - 1, i));
        let at = front + mine;
        let before = evaluations(items, (n - 1) as nat);
        assert(evaluations(items, n).len() == before.len() + envs.len());
        assert forall|j: int| 0 <= j < at.len() implies {
            let (k, i) = #[trigger] at[j];
            &&& 0 <= k < n
            &&& 0 <= i < items[k].entries().len()
            &&& items[k].entries()[i].1.typed is Ok
            &&& evaluations(items, n)[j] == (k, items[k].entries()[i].0@)
        } by {
            if j < front.len() {
                assert(at[j] == front[j]);
                assert(evaluations(items, n)[j] == before[j]);
            } else {
                let m = j - front.len();
                assert(at[j] == (n - 1, envs[m]));
            }
        }
        assert forall|i: int, j: int| 0 <= i < j < at.len() implies (#[trigger] at[i]).0 < (
        #[trigger] at[j]).0 || (at[i].0 == at[j].0 && at[i].1 < at[j].1) by {
            if j < front.len() {
                assert(at[i] == front[i] && at[j] == front[j]);
            } else {
                assert(at[j] == (n - 1, envs[j - front.len()]));
                if i < front.len() {
                    assert(at[i] == front[i]);
                } else {
                    assert(at[i] == (n - 1, envs[i - front.len()]));
                }
            }
        }
        assert forall|k: int, i: int|
            #![trigger items[k].entries()[i]]
            0 <= k < n && 0 <= i < items[k].entries().len() && items[k].entries()[i].1.typed is Ok
            implies at.contains((k, i)) by {
            if k < n - 1 {
                let j = front.index_of((k, i));
                assert(front.contains((k, i)));
                assert(at[j] == (k, i));
            } else {
                assert(p.entries()[i].1.typed is Ok);
                let j = envs.index_of(i);
                assert(envs.contains(i));
                assert(mine[j] == (k, i));
                assert(at[front.len() + j] == (k, i));
            }
        }
        at
    }
}

/// A policy has no typed condition from an answer exactly if there is none, it
/// has an unbound slot, or a node of it has no type or is unknown.
pub proof fn law_answer_that_does_not_serve(policy: Policy, a: Checked)
    ensures
        match env_error(policy, a) {
            None => a.result() matches Ok(t) && t.tree().unbound(policy.slot_env()) is None
                && t.fully_typed() && !t.tree().has_unknown(),
            Some(TypecheckError::NotWellTyped { errs }) => a.result() is Err,
            Some(TypecheckError::UnboundSlot(slot)) => a.result() matches Ok(t)
                && t.tree().unbound(policy.slot_env()) == Some(slot),
            Some(TypecheckError::MissingType) => a.result() matches Ok(t) && t.tree().unbound(
                policy.slot_env(),
            ) is None && !(t.fully_typed() && !t.tree().has_unknown()),
        },
{
}

} // verus!
