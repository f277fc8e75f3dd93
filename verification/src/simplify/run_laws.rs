//! What a run of the simplifier looks at, evaluates and reports.

use std::sync::Arc;

use vstd::prelude::*;

use crate::ast::{ExprKind, Prim};
use crate::evaluator::err::EvaluationError;
use crate::evaluator::session::assumption_gives;
use crate::model::World;
use crate::policy::Policy;
use crate::policy_laws::{Asked, Hierarchy};
use crate::semantics::Assumption;
use crate::simplify::run::{
    appended, candidate_gives, conditioned, fails_at, fine_up_to, picks_from, present,
};
use crate::simplify::{Finding, SimplifyError, SimplifyStep, Simplifier};
use crate::typechecked::{Checked, TypecheckError, TypecheckedPolicy};
use crate::types::{RequestEnv, Schema};

verus! {

/// A policy has something to simplify exactly if it has a `when` clause that is
/// not written as `true`; one that has nothing applies to all of its scope.
pub proof fn law_policy_without_condition_is_its_scope(
    p: Policy,
    a: Asked,
    h: Hierarchy,
    w: World,
)
    ensures
        conditioned(p) <==> p.when is Some && !(p.when->Some_0.kind
            matches ExprKind::Lit(Prim::Bool(b)) && b),
        !conditioned(p) ==> (p.applies(a, h, w) <==> p.scope_met(a, h)),
{
    if let Some(e) = p.when {
        assert(e.tree().op == e.op());
    }
}

/// The policy is looked at: it is not linked from a template and has something
/// to simplify.
pub open spec fn looked_at(p: Policy) -> bool {
    &&& p.principal_slot is None
    &&& p.resource_slot is None
    &&& p.when is Some
    &&& !(p.when->Some_0.kind matches ExprKind::Lit(Prim::Bool(b)) && b)
}

/// The policies that are simplified are those that are looked at, validate and
/// typecheck, each once and in their order: every other one that is looked at
/// does not validate or does not typecheck.
pub proof fn law_every_valid_policy_is_simplified<
    V: Fn(&Policy) -> Vec<String>,
    C: Fn(&Policy, &RequestEnv) -> Checked,
>(
    policies: Seq<Policy>,
    schema: Arc<Schema>,
    validate: &V,
    check: &C,
    picks: Seq<Option<TypecheckedPolicy>>,
) -> (at: Seq<int>)
    requires
        picks_from(policies, schema, validate, check, picks),
    ensures
        at.len() == present(picks).len(),
        forall|k: int|
            0 <= k < at.len() ==> {
                let i = #[trigger] at[k];
                &&& 0 <= i < policies.len()
                &&& looked_at(policies[i])
                &&& present(picks)[k].is_check_of(Arc::new(policies[i]), schema, check)
                &&& exists|errs: Vec<String>| #[trigger]
                    call_ensures(validate, (&policies[i],), errs) && errs@.len() == 0
            },
        forall|k: int, l: int| 0 <= k < l < at.len() ==> (#[trigger] at[k]) < (#[trigger] at[l]),
        forall|i: int|
            0 <= i < policies.len() && looked_at(#[trigger] policies[i]) ==> {
                ||| at.contains(i)
                ||| exists|errs: Vec<String>| #[trigger]
                    call_ensures(validate, (&policies[i],), errs) && errs@.len() > 0
                ||| exists|e: TypecheckError| #[trigger]
                    TypecheckedPolicy::fails_with(Arc::new(policies[i]), schema, check, e)
            },
{
    let at = lemma_present(picks);
    assert forall|i: int| 0 <= i < policies.len() implies (looked_at(#[trigger] policies[i])
        <==> policies[i].principal_slot is None && policies[i].resource_slot is None && conditioned(
        policies[i],
    )) by {
        if let Some(e) = policies[i].when {
            assert(e.tree().op == e.op());
        }
    }
    assert forall|k: int| 0 <= k < at.len() implies {
        let i = #[trigger] at[k];
        &&& 0 <= i < policies.len()
        &&& looked_at(policies[i])
        &&& present(picks)[k].is_check_of(Arc::new(policies[i]), schema, check)
        &&& exists|errs: Vec<String>| #[trigger]
            call_ensures(validate, (&policies[i],), errs) && errs@.len() == 0
    } by {
        let i = at[k];
        assert(candidate_gives(policies[i], schema, validate, check, picks[i]));
    }
    assert forall|i: int| 0 <= i < policies.len() && looked_at(#[trigger] policies[i]) implies {
        ||| at.contains(i)
        ||| exists|errs: Vec<String>| #[trigger]
            call_ensures(validate, (&policies[i],), errs) && errs@.len() > 0
        ||| exists|e: TypecheckError| #[trigger]
            TypecheckedPolicy::fails_with(Arc::new(policies[i]), schema, check, e)
    } by {
        assert(candidate_gives(policies[i], schema, validate, check, picks[i]));
    }
    at
}

/// Where the ones that are there stand.
proof fn lemma_present(picks: Seq<Option<TypecheckedPolicy>>) -> (at: Seq<int>)
    ensures
        at.len() == present(picks).len(),
        forall|k: int|
            0 <= k < at.len() ==> 0 <= (#[trigger] at[k]) < picks.len() && picks[at[k]] == Some(
                present(picks)[k],
            ),
        forall|k: int, l: int| 0 <= k < l < at.len() ==> (#[trigger] at[k]) < (#[trigger] at[l]),
        forall|i: int| 0 <= i < picks.len() && (#[trigger] picks[i]) is Some ==> at.contains(i),
    decreases picks.len(),
{
    if picks.len() == 0 {
        seq![]
    } else {
        let n = picks.len() - 1;
        let front = lemma_present(picks.drop_last());
        assert forall|i: int| 0 <= i < n implies #[trigger] picks.drop_last()[i] == picks[i] by {}
        if picks.last() is Some {
            let at = front.push(n);
            assert forall|k: int| 0 <= k < at.len() implies 0 <= (#[trigger] at[k]) < picks.len()
                && picks[at[k]] == Some(present(picks)[k]) by {
                if k < front.len() {
                    assert(at[k] == front[k]);
                    assert(picks.drop_last()[front[k]] == picks[front[k]]);
                }
            }
            assert forall|i: int|
                0 <= i < picks.len() && (#[trigger] picks[i]) is Some implies at.contains(i) by {
                if i < n {
                    assert(picks.drop_last()[i] is Some);
                    let j = front.index_of(i);
                    assert(at[j] == i);
                } else {
                    assert(at[front.len() as int] == i);
                }
            }
            at
        } else {
            assert forall|i: int|
                0 <= i < picks.len() && (#[trigger] picks[i]) is Some implies front.contains(i) by {
                assert(picks.drop_last()[i] is Some);
            }
            assert forall|k: int| 0 <= k < front.len() implies 0 <= (#[trigger] front[k])
                < picks.len() && picks[front[k]] == Some(present(picks)[k]) by {
                assert(picks.drop_last()[front[k]] == picks[front[k]]);
            }
            front
        }
    }
}

impl Simplifier {
    /// The policy at `k` has been evaluated in the environment at `j`.
    pub open spec fn has_evaluated(&self, k: int, j: int) -> bool {
        0 <= k < self.observed_spec().len() && 0 <= j < self.observed_spec()[k]@.len()
    }

    /// The run goes through the environments that are probed, one after the
    /// other, and then evaluates the policies, each in every environment one
    /// after the other; it is done once every policy has been evaluated in
    /// every environment.
    pub proof fn law_steps_go_through_everything(&self, step: SimplifyStep)
        requires
            self.wf(),
            self.step_is(step),
        ensures
            match step {
                SimplifyStep::Probe(env) => {
                    &&& 0 <= self.probed_spec() < self.probes_spec()
                    &&& *env == self.envs_spec()[self.probed_spec()]
                    &&& forall|k: int, j: int| !#[trigger] self.has_evaluated(k, j)
                },
                SimplifyStep::Evaluate(policy, env) => {
                    &&& self.probed_spec() == self.probes_spec()
                    &&& exists|k: int, j: int| #[trigger] self.is_next(k, j, *policy, *env)
                },
                SimplifyStep::Done => {
                    &&& self.probed_spec() == self.probes_spec()
                    &&& forall|k: int, j: int|
                        0 <= k < self.candidates_spec().len() && 0 <= j < self.envs_spec().len()
                            ==> #[trigger] self.has_evaluated(k, j)
                },
            },
    {
        let obs = self.observed_spec();
        match step {
            SimplifyStep::Probe(_) => {},
            SimplifyStep::Evaluate(policy, env) => {
                let n = obs.len() as int;
                if self.unfinished() {
                    let j = obs.last()@.len() as int;
                    assert(obs[n - 1] == obs.last());
                    assert(self.is_next(n - 1, j, *policy, *env));
                } else {
                    if n > 0 {
                        assert(obs[n - 1] == obs.last());
                    }
                    assert(self.is_next(n, 0, *policy, *env));
                }
            },
            SimplifyStep::Done => {
                assert forall|k: int, j: int|
                    0 <= k < self.candidates_spec().len() && 0 <= j
                        < self.envs_spec().len() implies #[trigger] self.has_evaluated(k, j) by {
                    assert(0 < obs[k]@.len());
                    if k == obs.len() - 1 {
                        assert(obs[k] == obs.last());
                    }
                }
            },
        }
    }

    /// The policy at `k` comes next, in the environment at `j`: exactly what
    /// comes before them has been evaluated.
    pub open spec fn is_next(&self, k: int, j: int, policy: TypecheckedPolicy, env: RequestEnv) ->
        bool {
        &&& 0 <= k < self.candidates_spec().len()
        &&& 0 <= j < self.envs_spec().len()
        &&& policy == self.candidates_spec()[k]
        &&& env == self.envs_spec()[j]
        &&& forall|a: int, b: int|
            0 <= a < self.candidates_spec().len() && 0 <= b < self.envs_spec().len() ==> (
            #[trigger] self.has_evaluated(a, b) <==> a < k || (a == k && b < j))
    }

    /// There is always a next step, and one only.
    pub proof fn law_one_step_is_next(&self, a: SimplifyStep, b: SimplifyStep)
        requires
            self.wf(),
            self.step_is(a),
            self.step_is(b),
        ensures
            a is Probe == b is Probe,
            a is Done == b is Done,
            a is Evaluate == b is Evaluate,
    {
    }
}

/// Where the findings of the `k`th policy start.
pub open spec fn part_start(parts: Seq<Seq<Finding>>, k: int) -> int
    decreases k,
{
    if k <= 0 {
        0
    } else {
        part_start(parts, k - 1) + parts[k - 1].len()
    }
}

/// The finding stands at this position.
pub open spec fn stands_at(all: Seq<Finding>, i: int, f: Finding) -> bool {
    0 <= i < all.len() && all[i] == f
}

/// The findings of all policies are those of each, whole and in their order,
/// one policy after the other.
pub proof fn law_findings_are_those_of_each_policy(parts: Seq<Seq<Finding>>)
    ensures
        appended(parts).len() == part_start(parts, parts.len() as int),
        forall|k: int, i: int|
            0 <= k < parts.len() && 0 <= i < parts[k].len() ==> #[trigger] stands_at(
                appended(parts),
                part_start(parts, k) + i,
                parts[k][i],
            ),
    decreases parts.len(),
{
    if parts.len() > 0 {
        let front = parts.drop_last();
        let n = front.len() as int;
        law_findings_are_those_of_each_policy(front);
        lemma_part_start(parts, front, n);
        assert forall|k: int, i: int|
            0 <= k < parts.len() && 0 <= i < parts[k].len() implies #[trigger] stands_at(
            appended(parts),
            part_start(parts, k) + i,
            parts[k][i],
        ) by {
            if k < n {
                lemma_part_start(parts, front, k);
                assert(front[k] == parts[k]);
                assert(stands_at(appended(front), part_start(front, k) + i, front[k][i]));
            }
        }
    }
}

/// Where the findings of a policy start depends on those before it alone.
proof fn lemma_part_start(a: Seq<Seq<Finding>>, b: Seq<Seq<Finding>>, k: int)
    requires
        forall|j: int| 0 <= j < k ==> #[trigger] a[j] == b[j],
    ensures
        part_start(a, k) == part_start(b, k),
        part_start(a, k) >= 0,
    decreases k,
{
    if k > 0 {
        lemma_part_start(a, b, k - 1);
        assert(a[k - 1] == b[k - 1]);
    }
}

/// The assumptions are found fine exactly if each is fine in every environment.
pub proof fn law_assumptions_are_fine_everywhere<K: Fn(&Policy, &RequestEnv) -> Checked>(
    schema: &Schema,
    assumptions: Seq<Assumption>,
    check: &K,
)
    ensures
        fine_up_to(schema, assumptions, check, schema.envs().len() as int, 0) <==> forall|
            a: int,
            b: int,
        |
            #![trigger schema.envs()[a], assumptions[b]]
            0 <= a < schema.envs().len() && 0 <= b < assumptions.len() ==> assumption_gives(
                &assumptions[b].expression,
                &schema.envs()[a],
                schema,
                check,
                Ok(()),
            ),
{
}

/// An assumption that is not fine is reported with its declaration, as it is
/// written, and with the first environment in which it is not; every assumption
/// is fine in the environments before, and those before it are in that one.
pub proof fn law_first_bad_assumption_is_reported<
    K: Fn(&Policy, &RequestEnv) -> Checked,
    F: Fn(&EvaluationError) -> String,
>(
    schema: &Schema,
    assumptions: Seq<Assumption>,
    check: &K,
    show: &F,
    i: int,
    j: int,
    e: SimplifyError,
)
    requires
        fails_at(schema, assumptions, check, show, i, j, e),
    ensures
        0 <= i < schema.envs().len(),
        0 <= j < assumptions.len(),
        exists|x: EvaluationError| #[trigger]
            assumption_gives(
                &assumptions[j].expression,
                &schema.envs()[i],
                schema,
                check,
                Err(x),
            ),
        forall|a: int, b: int|
            #![trigger schema.envs()[a], assumptions[b]]
            0 <= a < schema.envs().len() && 0 <= b < assumptions.len() && (a < i || (a == i && b
                < j)) ==> assumption_gives(
                &assumptions[b].expression,
                &schema.envs()[a],
                schema,
                check,
                Ok(()),
            ),
        e matches SimplifyError::AssumptionNotWellTyped {
            origin,
            expression,
            principal,
            action,
            resource,
            ..
        } && origin@ == assumptions[j].origin@ && expression@ == assumptions[j].source@
            && principal@ == schema.envs()[i].principal@ && resource@ == schema.envs()[i].resource@
            && action@ == schema.envs()[i].action.ty@ + "::\""@ + crate::text::escaped(
            schema.envs()[i].action.eid@,
        ) + "\""@,
{
}

} // verus!
