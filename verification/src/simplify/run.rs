//! The run of the simplifier: which policies are looked at, which evaluations
//! it takes, and what is made of their results.

use std::sync::Arc;

use vstd::prelude::*;

use crate::ast::{share, Data, ExprKind, Prim};
use crate::evaluator::err::EvaluationError;
use crate::evaluator::run::NodeOutcome;
use crate::evaluator::session::Evaluator;
use crate::policy::{Policy, PolicySet};
use crate::semantics::Assumption;
use crate::simplify::{policy_findings, Finding};
use crate::text::join;
use crate::tree::{Atomic, Op};
use crate::typechecked::{Checked, TypecheckedPolicy};
use crate::types::{RequestEnv, Schema};

verus! {

/// Errors of the simplifier (a policy that does not validate is not an
/// error: it is skipped).
#[derive(Debug)]
pub enum SimplifyError {
    /// The policy document does not parse.
    Parse(String),
    /// A `@semantics` assumption is not well typed (or not boolean) in some
    /// request environment: it needs an `if <var> is <type> then .. else true`
    /// guard.
    AssumptionNotWellTyped {
        /// The declaration the annotation is on.
        origin: String,
        /// The assumption as written.
        expression: String,
        /// The environment's principal type.
        principal: String,
        /// The environment's action.
        action: String,
        /// The environment's resource type.
        resource: String,
        /// The typechecker's message.
        message: String,
    },
    /// The `@semantics` assumptions contradict each other (or the schema) in
    /// some request environment, where everything would then be vacuously
    /// determined.
    UnsatisfiableAssumptions {
        /// The environment's principal type.
        principal: String,
        /// The environment's action.
        action: String,
        /// The environment's resource type.
        resource: String,
    },
    /// The symbolic evaluator failed.
    Evaluation(EvaluationError),
}

/// A request environment in a message.
pub open spec fn env_text(
    principal: Seq<char>,
    action: Seq<char>,
    resource: Seq<char>,
) -> Seq<char> {
    "(principal: "@ + principal + ", action: "@ + action + ", resource: "@ + resource + ")"@
}

fn describe_env(principal: &String, action: &String, resource: &String) -> (r: String)
    ensures
        r@ == env_text(principal@, action@, resource@),
{
    let s = "(principal: ".to_owned().concat(principal.as_str());
    let s = s.concat(", action: ").concat(action.as_str());
    let s = s.concat(", resource: ").concat(resource.as_str());
    s.concat(")")
}

impl SimplifyError {
    /// The message for the user, where the evaluator's own message is `inner`.
    pub open spec fn text(&self, inner: Seq<char>) -> Seq<char> {
        match self {
            SimplifyError::Parse(m) => "the policies do not parse: "@ + m@,
            SimplifyError::AssumptionNotWellTyped {
                origin,
                expression,
                principal,
                action,
                resource,
                message,
            } => "the @semantics assumption on "@ + origin@ + " (`"@ + expression@
                + "`) is not well typed in the request environment "@ + env_text(
                principal@,
                action@,
                resource@,
            ) + ": "@ + message@,
            SimplifyError::UnsatisfiableAssumptions { principal, action, resource } =>
                "the @semantics assumptions are unsatisfiable in the request environment "@
                + env_text(principal@, action@, resource@),
            SimplifyError::Evaluation(_) => "symbolic evaluation failed: "@ + inner,
        }
    }

    /// The message for the user; `show` gives the evaluator's own messages.
    pub fn describe<F: Fn(&EvaluationError) -> String>(&self, show: &F) -> (r: String)
        requires
            forall|e: EvaluationError| call_requires(show, (&e,)),
        ensures
            match self {
                SimplifyError::Evaluation(e) => exists|m: String| #[trigger]
                    call_ensures(show, (e,), m) && r@ == self.text(m@),
                _ => r@ == self.text(seq![]),
            },
    {
        match self {
            SimplifyError::Parse(m) => "the policies do not parse: ".to_owned().concat(m.as_str()),
            SimplifyError::AssumptionNotWellTyped {
                origin,
                expression,
                principal,
                action,
                resource,
                message,
            } => {
                let env = describe_env(principal, action, resource);
                let s = "the @semantics assumption on ".to_owned().concat(origin.as_str());
                let s = s.concat(" (`").concat(expression.as_str());
                let s = s.concat("`) is not well typed in the request environment ");
                let s = s.concat(env.as_str());
                s.concat(": ").concat(message.as_str())
            },
            SimplifyError::UnsatisfiableAssumptions { principal, action, resource } => {
                let env = describe_env(principal, action, resource);
                "the @semantics assumptions are unsatisfiable in the request environment ".to_owned().concat(
                    env.as_str())
            },
            SimplifyError::Evaluation(e) => {
                let m = show(e);
                "symbolic evaluation failed: ".to_owned().concat(m.as_str())
            },
        }
    }
}

/// What is wrong with the assumptions is reported in a message that starts
/// with `the @semantics`.
pub proof fn law_assumption_messages(e: SimplifyError, inner: Seq<char>)
    requires
        e is AssumptionNotWellTyped || e is UnsatisfiableAssumptions,
    ensures
        crate::semantics::starts_as_semantics(e.text(inner)),
{
    reveal_strlit("the @semantics");
    reveal_strlit("the @semantics assumption on ");
    reveal_strlit("the @semantics assumptions are unsatisfiable in the request environment ");
    assert(e.text(inner).take("the @semantics"@.len() as int) =~= "the @semantics"@);
}

/// The error names the environment.
pub open spec fn names_env(
    principal: String,
    action: String,
    resource: String,
    env: RequestEnv,
) -> bool {
    &&& principal@ == env.principal@
    &&& action@ == crate::semantics::entity_text(env.action.ty@, env.action.eid@)
    &&& resource@ == env.resource@
}

/// `e` reports that the assumption `a` fails with `x` in `env`.
pub open spec fn reports_assumption<F: Fn(&EvaluationError) -> String>(
    e: SimplifyError,
    a: Assumption,
    env: RequestEnv,
    x: EvaluationError,
    show: &F,
) -> bool {
    e matches SimplifyError::AssumptionNotWellTyped {
        origin,
        expression,
        principal,
        action,
        resource,
        message,
    } && origin@ == a.origin@ && expression@ == a.source@ && names_env(
        principal,
        action,
        resource,
        env,
    ) && match x {
        EvaluationError::AssumptionNotWellTyped { errs, .. } | EvaluationError::NotWellTyped {
            errs,
        } => message@ == crate::text::joined(errs@, "; "@),
        _ => call_ensures(show, (&x,), message),
    }
}

fn assumption_report<F: Fn(&EvaluationError) -> String>(
    a: &Assumption,
    env: &RequestEnv,
    x: EvaluationError,
    show: &F,
) -> (r: SimplifyError)
    requires
        forall|e: EvaluationError| call_requires(show, (&e,)),
    ensures
        reports_assumption(r, *a, *env, x, show),
{
    let message = match &x {
        EvaluationError::AssumptionNotWellTyped { errs, .. } => join(errs, "; "),
        EvaluationError::NotWellTyped { errs } => join(errs, "; "),
        _ => show(&x),
    };
    SimplifyError::AssumptionNotWellTyped {
        origin: a.origin.clone(),
        expression: a.source.clone(),
        principal: env.principal.clone(),
        action: env.action.describe(),
        resource: env.resource.clone(),
        message,
    }
}

/// The assumptions are fine in the environments before `i`, and the first `j`
/// of them in environment `i`.
pub open spec fn fine_up_to<K: Fn(&Policy, &RequestEnv) -> Checked>(
    schema: &Schema,
    assumptions: Seq<Assumption>,
    check: &K,
    i: int,
    j: int,
) -> bool {
    forall|a: int, b: int|
        #![trigger schema.envs()[a], assumptions[b]]
        0 <= a < schema.envs().len() && 0 <= b < assumptions.len() && (a < i || (a == i && b < j))
            ==> crate::evaluator::session::assumption_gives(
            &assumptions[b].expression,
            &schema.envs()[a],
            schema,
            check,
            Ok(()),
        )
}

/// The first assumption that is not fine, and where: environment `i`,
/// assumption `j`.
pub open spec fn fails_at<
    K: Fn(&Policy, &RequestEnv) -> Checked,
    F: Fn(&EvaluationError) -> String,
>(
    schema: &Schema,
    assumptions: Seq<Assumption>,
    check: &K,
    show: &F,
    i: int,
    j: int,
    e: SimplifyError,
) -> bool {
    &&& 0 <= i < schema.envs().len() && 0 <= j < assumptions.len()
    &&& fine_up_to(schema, assumptions, check, i, j)
    &&& exists|x: EvaluationError| #[trigger]
        reports_assumption(e, assumptions[j], schema.envs()[i], x, show)
            && crate::evaluator::session::assumption_gives(
            &assumptions[j].expression,
            &schema.envs()[i],
            schema,
            check,
            Err(x),
        )
}

/// Checks that each of the schema's `@semantics` assumptions is well typed and
/// boolean in every request environment, as each is assumed `true` in every
/// one.
pub fn check_assumptions<
    K: Fn(&Policy, &RequestEnv) -> Checked,
    F: Fn(&EvaluationError) -> String,
>(evaluator: &Evaluator, assumptions: &Vec<Assumption>, check: &K, show: &F) -> (r: Result<
    (),
    SimplifyError,
>)
    requires
        forall|p: Policy, e: RequestEnv| call_requires(check, (&p, &e)),
        forall|e: EvaluationError| call_requires(show, (&e,)),
    ensures
        match r {
            Ok(_) => fine_up_to(
                &evaluator.schema_spec(),
                assumptions@,
                check,
                evaluator.schema_spec().envs().len() as int,
                0,
            ),
            Err(e) => exists|i: int, j: int| #[trigger]
                fails_at(&evaluator.schema_spec(), assumptions@, check, show, i, j, e),
        },
{
    let schema = evaluator.schema();
    let envs = schema.request_envs();
    let mut i: usize = 0;
    while i < envs.len()
        invariant
            i <= envs@.len(),
            *schema == evaluator.schema_spec(),
            envs@ == schema.envs(),
            forall|p: Policy, e: RequestEnv| call_requires(check, (&p, &e)),
            forall|e: EvaluationError| call_requires(show, (&e,)),
            fine_up_to(&**schema, assumptions@, check, i as int, 0),
        decreases envs@.len() - i,
    {
        let mut j: usize = 0;
        while j < assumptions.len()
            invariant
                i < envs@.len(),
                j <= assumptions@.len(),
                *schema == evaluator.schema_spec(),
                envs@ == schema.envs(),
                forall|p: Policy, e: RequestEnv| call_requires(check, (&p, &e)),
                forall|e: EvaluationError| call_requires(show, (&e,)),
                fine_up_to(&**schema, assumptions@, check, i as int, j as int),
            decreases assumptions@.len() - j,
        {
            match evaluator.typecheck_assumption(&assumptions[j].expression, &envs[i], check) {
                Ok(_) => {},
                Err(x) => {
                    let e = assumption_report(&assumptions[j], &envs[i], x, show);
                    assert(fails_at(
                        &**schema,
                        assumptions@,
                        check,
                        show,
                        i as int,
                        j as int,
                        e,
                    ));
                    return Err(e);
                },
            }
            j += 1;
        }
        i += 1;
    }
    Ok(())
}

/// What an error of the evaluation of `true` under the assumptions means:
/// contradictory assumptions are reported as such, with the environment.
pub fn probe_error(e: EvaluationError, env: &RequestEnv) -> (r: SimplifyError)
    ensures
        match e {
            EvaluationError::UnsatisfiableAssumptions => r
                matches SimplifyError::UnsatisfiableAssumptions { principal, action, resource }
                && names_env(principal, action, resource, *env),
            _ => r == SimplifyError::Evaluation(e),
        },
{
    match e {
        EvaluationError::UnsatisfiableAssumptions => SimplifyError::UnsatisfiableAssumptions {
            principal: env.principal.clone(),
            action: env.action.describe(),
            resource: env.resource.clone(),
        },
        e => SimplifyError::Evaluation(e),
    }
}

/// The policy has a `when` clause that is not the literal `true`.
pub open spec fn conditioned(policy: Policy) -> bool {
    policy.when matches Some(e) && e.tree().op != Op::Lit(Atomic::Bool(true))
}

/// Whether the policy has something to simplify. Without `when`/`unless` its
/// condition is only its scope, and the typechecker would fold
/// `permit(principal, action, resource);` to `true`, which would be reported
/// as a whole policy that is always true.
pub fn has_condition(policy: &Policy) -> (r: bool)
    ensures
        r == conditioned(*policy),
{
    match &policy.when {
        Some(e) => match &e.kind {
            ExprKind::Lit(Prim::Bool(b)) => !*b,
            _ => true,
        },
        None => false,
    }
}

/// Whether the policy is simplified, and what it is typechecked to: it must be
/// static, have a condition, validate (`validate` gives the errors that the
/// validator finds in it alone) and typecheck in every request environment.
pub open spec fn candidate_gives<
    V: Fn(&Policy) -> Vec<String>,
    C: Fn(&Policy, &RequestEnv) -> Checked,
>(
    policy: Policy,
    schema: Arc<Schema>,
    validate: &V,
    check: &C,
    r: Option<TypecheckedPolicy>,
) -> bool {
    if policy.principal_slot is Some || policy.resource_slot is Some || !conditioned(policy) {
        r is None
    } else {
        exists|errs: Vec<String>| #[trigger]
            call_ensures(validate, (&policy,), errs) && if errs@.len() > 0 {
                r is None
            } else {
                match r {
                    Some(t) => t.is_check_of(Arc::new(policy), schema, check),
                    None => exists|e: crate::typechecked::TypecheckError| #[trigger]
                        TypecheckedPolicy::fails_with(Arc::new(policy), schema, check, e),
                }
            }
    }
}

/// The policy, typechecked in every request environment of the schema, if it
/// is to be simplified.
fn candidate<V: Fn(&Policy) -> Vec<String>, C: Fn(&Policy, &RequestEnv) -> Checked>(
    policy: &Policy,
    schema: &Arc<Schema>,
    validate: &V,
    check: &C,
) -> (r: Option<TypecheckedPolicy>)
    requires
        forall|p: Policy| call_requires(validate, (&p,)),
        forall|p: Policy, e: RequestEnv| call_requires(check, (&p, &e)),
    ensures
        candidate_gives(*policy, *schema, validate, check, r),
{
    if !policy.is_static() || !has_condition(policy) {
        return None;
    }
    let errs = validate(policy);
    if errs.len() > 0 {
        return None;
    }
    match TypecheckedPolicy::new(Arc::new(policy.dup()), share(schema), check) {
        Ok(t) => Some(t),
        Err(_) => None,
    }
}

/// The ones that are there.
pub open spec fn present(picks: Seq<Option<TypecheckedPolicy>>) -> Seq<TypecheckedPolicy>
    decreases picks.len(),
{
    if picks.len() == 0 {
        seq![]
    } else {
        match picks.last() {
            Some(t) => present(picks.drop_last()).push(t),
            None => present(picks.drop_last()),
        }
    }
}

/// `picks` are the candidates among `policies`, in order.
pub open spec fn picks_from<
    V: Fn(&Policy) -> Vec<String>,
    C: Fn(&Policy, &RequestEnv) -> Checked,
>(
    policies: Seq<Policy>,
    schema: Arc<Schema>,
    validate: &V,
    check: &C,
    picks: Seq<Option<TypecheckedPolicy>>,
) -> bool {
    &&& picks.len() == policies.len()
    &&& forall|i: int|
        0 <= i < picks.len() ==> candidate_gives(
            policies[i],
            schema,
            validate,
            check,
            #[trigger] picks[i],
        )
}

/// What the simplifier needs next.
#[derive(Debug)]
pub enum SimplifyStep<'a> {
    /// The evaluation of `true` in this environment under the assumptions: it
    /// asks the solver whether they contradict each other.
    Probe(&'a RequestEnv),
    /// The evaluation of the policy's condition in this environment under the
    /// assumptions.
    Evaluate(&'a TypecheckedPolicy, &'a RequestEnv),
    /// Nothing: the findings are there.
    Done,
}

/// A run of the simplifier.
#[derive(Debug)]
pub struct Simplifier {
    envs: Vec<RequestEnv>,
    /// How many environments are probed: all, or none without assumptions.
    probes: usize,
    /// How many have been.
    probed: usize,
    candidates: Vec<TypecheckedPolicy>,
    /// What the evaluations observed: for each candidate so far, in each
    /// environment so far.
    observed: Vec<Vec<Vec<NodeOutcome>>>,
}

impl Simplifier {
    /// The environments.
    pub closed spec fn envs_spec(&self) -> Seq<RequestEnv> {
        self.envs@
    }

    /// How many environments are probed.
    pub closed spec fn probes_spec(&self) -> int {
        self.probes as int
    }

    /// How many environments have been probed.
    pub closed spec fn probed_spec(&self) -> int {
        self.probed as int
    }

    /// The policies to simplify.
    pub closed spec fn candidates_spec(&self) -> Seq<TypecheckedPolicy> {
        self.candidates@
    }

    /// What the evaluations observed.
    pub closed spec fn observed_spec(&self) -> Seq<Vec<Vec<NodeOutcome>>> {
        self.observed@
    }

    /// Every policy but the last has been evaluated in every environment.
    pub open spec fn wf(&self) -> bool {
        let envs = self.envs_spec().len();
        let obs = self.observed_spec();
        &&& 0 <= self.probed_spec() <= self.probes_spec() <= envs
        &&& obs.len() <= self.candidates_spec().len()
        &&& obs.len() > 0 ==> self.probed_spec() == self.probes_spec()
        &&& forall|k: int|
            0 <= k < obs.len() ==> 0 < (#[trigger] obs[k])@.len() <= envs && (k < obs.len() - 1
                ==> obs[k]@.len() == envs)
    }

    /// The last policy has been evaluated in some environments only.
    pub open spec fn unfinished(&self) -> bool {
        self.observed_spec().len() > 0 && self.observed_spec().last()@.len()
            < self.envs_spec().len()
    }

    /// Every evaluation has been made.
    pub open spec fn done(&self) -> bool {
        &&& self.probed_spec() == self.probes_spec()
        &&& self.envs_spec().len() == 0 || (!self.unfinished() && self.observed_spec().len()
            == self.candidates_spec().len())
    }

    /// The next step: the probes, then the policies, each in every
    /// environment.
    pub open spec fn step_is(&self, step: SimplifyStep) -> bool {
        let obs = self.observed_spec();
        match step {
            SimplifyStep::Probe(env) => self.probed_spec() < self.probes_spec() && *env
                == self.envs_spec()[self.probed_spec()],
            SimplifyStep::Evaluate(policy, env) => {
                &&& self.probed_spec() == self.probes_spec()
                &&& !self.done()
                &&& if self.unfinished() {
                    *policy == self.candidates_spec()[obs.len() - 1] && *env
                        == self.envs_spec()[obs.last()@.len() as int]
                } else {
                    *policy == self.candidates_spec()[obs.len() as int] && *env
                        == self.envs_spec()[0]
                }
            },
            SimplifyStep::Done => self.done(),
        }
    }

    /// What is to be evaluated next.
    pub fn next(&self) -> (r: SimplifyStep<'_>)
        requires
            self.wf(),
        ensures
            self.step_is(r),
    {
        if self.probed < self.probes {
            return SimplifyStep::Probe(&self.envs[self.probed]);
        }
        if self.envs.len() == 0 {
            return SimplifyStep::Done;
        }
        let n = self.observed.len();
        if n > 0 && self.observed[n - 1].len() < self.envs.len() {
            let m = self.observed[n - 1].len();
            return SimplifyStep::Evaluate(&self.candidates[n - 1], &self.envs[m]);
        }
        if n < self.candidates.len() {
            SimplifyStep::Evaluate(&self.candidates[n], &self.envs[0])
        } else {
            SimplifyStep::Done
        }
    }

    /// Nothing but what was observed differs.
    pub open spec fn same_task(&self, other: &Simplifier) -> bool {
        &&& self.envs_spec() == other.envs_spec()
        &&& self.probes_spec() == other.probes_spec()
        &&& self.candidates_spec() == other.candidates_spec()
    }

    /// Takes the result of the evaluation that [`Simplifier::next`] asked for:
    /// the nodes it visited. An error ends the run; contradictory assumptions
    /// are reported with the environment that was probed.
    pub fn record(&mut self, result: Result<Vec<NodeOutcome>, EvaluationError>) -> (r: Result<
        (),
        SimplifyError,
    >)
        requires
            old(self).wf(),
            !old(self).done(),
        ensures
            final(self).wf(),
            final(self).same_task(old(self)),
            match result {
                Err(e) => {
                    &&& final(self).probed_spec() == old(self).probed_spec()
                    &&& final(self).observed_spec() == old(self).observed_spec()
                    &&& if old(self).probed_spec() < old(self).probes_spec()
                        && e is UnsatisfiableAssumptions {
                        r matches Err(
                            SimplifyError::UnsatisfiableAssumptions { principal, action, resource },
                        ) && names_env(
                            principal,
                            action,
                            resource,
                            old(self).envs_spec()[old(self).probed_spec()],
                        )
                    } else {
                        r == Err::<(), SimplifyError>(SimplifyError::Evaluation(e))
                    }
                },
                Ok(v) => r is Ok && {
                    let was = old(self).observed_spec();
                    let now = final(self).observed_spec();
                    if old(self).probed_spec() < old(self).probes_spec() {
                        final(self).probed_spec() == old(self).probed_spec() + 1 && now == was
                    } else {
                        &&& final(self).probed_spec() == old(self).probed_spec()
                        &&& if old(self).unfinished() {
                            now.drop_last() == was.drop_last() && now.last()@ == was.last()@.push(v)
                        } else {
                            now.drop_last() == was && now.last()@ == seq![v]
                        }
                    }
                },
            },
    {
        if self.probed < self.probes {
            return match result {
                Ok(_) => {
                    self.probed = self.probed + 1;
                    Ok(())
                },
                Err(e) => Err(probe_error(e, &self.envs[self.probed])),
            };
        }
        let v = match result {
            Ok(v) => v,
            Err(e) => return Err(SimplifyError::Evaluation(e)),
        };
        let n = self.observed.len();
        let ghost was = self.observed@;
        if n > 0 && self.observed[n - 1].len() < self.envs.len() {
            if let Some(mut last) = self.observed.pop() {
                last.push(v);
                self.observed.push(last);
            }
            assert(self.observed@.drop_last() =~= was.drop_last());
        } else {
            let mut first: Vec<Vec<NodeOutcome>> = Vec::new();
            first.push(v);
            assert(first@ =~= seq![v]);
            self.observed.push(first);
            assert(self.observed@.drop_last() =~= was);
        }
        Ok(())
    }

    /// The findings of all policies, one policy after the other.
    pub fn findings(&self) -> (r: Vec<Finding>)
        requires
            self.wf(),
        ensures
            exists|parts: Seq<Seq<Finding>>| #[trigger]
                self.parts_are(parts) && r@ == appended(parts),
    {
        let mut all: Vec<Finding> = Vec::new();
        let ghost mut parts: Seq<Seq<Finding>> = seq![];
        let mut k: usize = 0;
        while k < self.observed.len()
            invariant
                k <= self.observed@.len(),
                self.observed@.len() <= self.candidates@.len(),
                parts.len() == k,
                all@ == appended(parts),
                forall|i: int| 0 <= i < k ==> self.part_is(i, #[trigger] parts[i]),
            decreases self.observed@.len() - k,
        {
            let policy = &self.candidates[k];
            let mut found = policy_findings(
                policy.policy(),
                policy.condition(),
                &self.observed[k],
            );
            let ghost part = found@;
            all.append(&mut found);
            proof {
                let longer = parts.push(part);
                assert(longer.drop_last() =~= parts);
                parts = longer;
            }
            k += 1;
        }
        assert(self.parts_are(parts));
        all
    }

    /// The findings of the policy at `k`.
    pub open spec fn part_is(&self, k: int, part: Seq<Finding>) -> bool {
        let policy = self.candidates_spec()[k];
        crate::simplify::are_findings(
            part,
            crate::simplify::tables(self.observed_spec()[k]@, policy.policy_spec().loc),
            crate::simplify::conjunctions_of(*policy.condition_spec()),
        )
    }

    /// The findings, policy by policy.
    pub open spec fn parts_are(&self, parts: Seq<Seq<Finding>>) -> bool {
        &&& parts.len() == self.observed_spec().len()
        &&& forall|i: int| 0 <= i < parts.len() ==> self.part_is(i, #[trigger] parts[i])
    }
}

/// The parts, one after the other.
pub open spec fn appended(parts: Seq<Seq<Finding>>) -> Seq<Finding>
    decreases parts.len(),
{
    if parts.len() == 0 {
        seq![]
    } else {
        appended(parts.drop_last()) + parts.last()
    }
}

/// A run of the simplifier over every policy of `policies` (what the policy
/// document parses to) against the evaluator's schema, under the schema's
/// `@semantics` `assumptions`, each assumed `true` in every request
/// environment, so each must typecheck in every one, which is checked first.
///
/// The evaluations that [`Simplifier::next`] asks for are made with the
/// expressions of the assumptions as extra assumptions. An unsatisfiable set
/// is an error even when no policy gets evaluated (an empty or invalid
/// document), which is what the probes are for.
pub fn simplify<
    V: Fn(&Policy) -> Vec<String>,
    K: Fn(&Policy, &RequestEnv) -> Checked,
    F: Fn(&EvaluationError) -> String,
>(
    evaluator: &Evaluator,
    policies: Result<PolicySet, String>,
    assumptions: &Vec<Assumption>,
    validate: &V,
    check: &K,
    show: &F,
) -> (r: Result<Simplifier, SimplifyError>)
    requires
        forall|p: Policy| call_requires(validate, (&p,)),
        forall|p: Policy, e: RequestEnv| call_requires(check, (&p, &e)),
        forall|e: EvaluationError| call_requires(show, (&e,)),
    ensures
        match policies {
            Err(m) => r == Err::<Simplifier, SimplifyError>(SimplifyError::Parse(m)),
            Ok(ps) => match r {
                Err(e) => exists|i: int, j: int| #[trigger]
                    fails_at(&evaluator.schema_spec(), assumptions@, check, show, i, j, e),
                Ok(s) => {
                    &&& fine_up_to(
                        &evaluator.schema_spec(),
                        assumptions@,
                        check,
                        evaluator.schema_spec().envs().len() as int,
                        0,
                    )
                    &&& s.wf()
                    &&& s.envs_spec() == evaluator.schema_spec().envs()
                    &&& s.probes_spec() == if assumptions@.len() == 0 {
                        0
                    } else {
                        s.envs_spec().len() as int
                    }
                    &&& s.probed_spec() == 0
                    &&& s.observed_spec().len() == 0
                    &&& exists|picks: Seq<Option<TypecheckedPolicy>>| #[trigger]
                        picks_from(
                            ps.items(),
                            evaluator.schema_spec(),
                            validate,
                            check,
                            picks,
                        ) && s.candidates_spec() == present(picks)
                },
            },
        },
{
    let ps = match policies {
        Ok(ps) => ps,
        Err(m) => return Err(SimplifyError::Parse(m)),
    };
    match check_assumptions(evaluator, assumptions, check, show) {
        Ok(_) => {},
        Err(e) => return Err(e),
    }
    let schema = evaluator.schema();
    let candidates = candidates(&ps, schema, validate, check);
    let envs = copy_envs(schema.request_envs());
    let probes: usize = if assumptions.len() == 0 {
        0
    } else {
        envs.len()
    };
    Ok(Simplifier { envs, probes, probed: 0, candidates, observed: Vec::new() })
}

/// The policies that are to be simplified.
fn candidates<V: Fn(&Policy) -> Vec<String>, K: Fn(&Policy, &RequestEnv) -> Checked>(
    policies: &PolicySet,
    schema: &Arc<Schema>,
    validate: &V,
    check: &K,
) -> (r: Vec<TypecheckedPolicy>)
    requires
        forall|p: Policy| call_requires(validate, (&p,)),
        forall|p: Policy, e: RequestEnv| call_requires(check, (&p, &e)),
    ensures
        exists|picks: Seq<Option<TypecheckedPolicy>>| #[trigger]
            picks_from(policies.items(), *schema, validate, check, picks) && r@ == present(picks),
{
    let mut out: Vec<TypecheckedPolicy> = Vec::new();
    let ghost mut picks: Seq<Option<TypecheckedPolicy>> = seq![];
    let all = policies.policies();
    let mut i: usize = 0;
    while i < all.len()
        invariant
            i <= all@.len(),
            all@ == policies.items(),
            forall|p: Policy| call_requires(validate, (&p,)),
            forall|p: Policy, e: RequestEnv| call_requires(check, (&p, &e)),
            picks_from(all@.take(i as int), *schema, validate, check, picks),
            out@ == present(picks),
        decreases all@.len() - i,
    {
        let pick = candidate(&all[i], schema, validate, check);
        proof {
            let longer = picks.push(pick);
            assert(longer.drop_last() =~= picks);
            let few = all@.take(i as int);
            let more = all@.take(i + 1);
            assert forall|k: int| 0 <= k < longer.len() implies candidate_gives(
                more[k],
                *schema,
                validate,
                check,
                #[trigger] longer[k],
            ) by {
                if k < picks.len() {
                    assert(longer[k] == picks[k]);
                    assert(more[k] == few[k]);
                }
            }
            picks = longer;
        }
        if let Some(t) = pick {
            out.push(t);
        }
        i += 1;
    }
    assert(all@.take(i as int) =~= policies.items());
    out
}

fn copy_envs(envs: &Vec<RequestEnv>) -> (r: Vec<RequestEnv>)
    ensures
        r@ == envs@,
{
    let mut out: Vec<RequestEnv> = Vec::new();
    let mut i: usize = 0;
    while i < envs.len()
        invariant
            i <= envs@.len(),
            out@ == envs@.take(i as int),
        decreases envs@.len() - i,
    {
        out.push(envs[i].dup());
        assert(envs@.take(i + 1) =~= envs@.take(i as int).push(envs@[i as int]));
        i += 1;
    }
    assert(envs@.take(i as int) =~= envs@);
    out
}

} // verus!
