//! Policies typechecked once, in every request environment of a schema, so
//! that the consumers of typed conditions do not run the typechecker on every
//! use.
//!
//! [`TypecheckedPolicySet`] owns a [`PolicySet`] and the schema it was
//! validated against; for every policy and every request environment it
//! stores the typed condition, with the slots substituted, the residual of
//! that condition, and its possible boolean outcomes.
//!
//! The typechecker itself is a parameter: a function from a policy and a
//! request environment to a [`Checked`].

use std::sync::Arc;

use linked_hash_map::LinkedHashMap;
use vstd::prelude::*;

use crate::ast::{share, Data, Expr, SlotId};
use crate::model::World;
use crate::outcome::{EvaluationOutcome, Outcomes};
use crate::policy::{Effect, Policy, PolicySet};
use crate::residual::Residual;
use crate::slots::{substitute_slots, SlotEnv};
use crate::tree::Tree;
use crate::types::{RequestEnv, Schema, Type};

verus! {

/// Why a policy or an expression could not be typechecked.
#[derive(Debug)]
pub enum TypecheckError {
    /// The policy (or expression) is not well typed in some request
    /// environment.
    NotWellTyped {
        /// The errors of the validator.
        errs: Vec<String>,
    },
    /// The typed expression has a node without a type.
    MissingType,
    /// A template slot that the policy does not bind.
    UnboundSlot(SlotId),
}

/// The typechecker's answer.
#[derive(Debug)]
pub enum PolicyCheck {
    /// The policy is well typed.
    Success(Expr<Option<Type>>),
    /// The policy never applies in this environment.
    Irrelevant(Vec<String>, Expr<Option<Type>>),
    /// The policy is not well typed.
    Fail(Vec<String>),
}

/// What the validator says of a policy in one request environment.
#[derive(Debug)]
pub struct Checked {
    /// The errors about entity types and literals, which do not come from
    /// the typechecker.
    pub errs: Vec<String>,
    pub check: PolicyCheck,
}

impl Checked {
    /// The answer, as its consumers read it: `Success` and an error-free
    /// `Irrelevant` are typed expressions; anything else is an error.
    pub open spec fn result(self) -> Result<Expr<Option<Type>>, TypecheckError> {
        if self.errs@.len() > 0 {
            Err(TypecheckError::NotWellTyped { errs: self.errs })
        } else {
            match self.check {
                PolicyCheck::Success(e) => Ok(e),
                PolicyCheck::Irrelevant(errs, e) => if errs@.len() == 0 {
                    Ok(e)
                } else {
                    Err(TypecheckError::NotWellTyped { errs })
                },
                PolicyCheck::Fail(errs) => Err(TypecheckError::NotWellTyped { errs }),
            }
        }
    }

    /// The answer, as its consumers read it.
    pub fn into_result(self) -> (r: Result<Expr<Option<Type>>, TypecheckError>)
        ensures
            r == self.result(),
    {
        if self.errs.len() > 0 {
            return Err(TypecheckError::NotWellTyped { errs: self.errs });
        }
        match self.check {
            PolicyCheck::Success(e) => Ok(e),
            PolicyCheck::Irrelevant(errs, e) => if errs.len() == 0 {
                Ok(e)
            } else {
                Err(TypecheckError::NotWellTyped { errs })
            },
            PolicyCheck::Fail(errs) => Err(TypecheckError::NotWellTyped { errs }),
        }
    }
}

/// `p` is the policy that a bare expression is typechecked as: a `permit`
/// with an unconstrained scope and the expression as its condition.
pub open spec fn wraps(p: Policy, e: Expr<()>) -> bool {
    &&& p.id@ == "__typecheck"@
    &&& p.effect == Effect::Permit
    &&& p.annotations@.len() == 0
    &&& p.loc is None
    &&& p.principal is Any && p.action is Any && p.resource is Any
    &&& p.principal_slot is None && p.resource_slot is None
    &&& p.when == Some(Arc::new(e))
}

/// `r` is what the typechecker says of the bare expression `e`.
pub open spec fn checks_expr<C: Fn(&Policy, &RequestEnv) -> Checked>(
    check: &C,
    e: Expr<()>,
    env: RequestEnv,
    r: Result<Expr<Option<Type>>, TypecheckError>,
) -> bool {
    exists|p: Policy, a: Checked| #[trigger]
        call_ensures(check, (&p, &env), a) && wraps(p, e) && r == a.result()
}

/// Typechecks a bare expression in `env` and returns the typed expression:
/// the condition of the `permit` that it is wrapped in, typed. The typechecker
/// may rewrite it.
pub fn typecheck_expr<C: Fn(&Policy, &RequestEnv) -> Checked>(
    expr: &Expr<()>,
    env: &RequestEnv,
    check: &C,
) -> (r: Result<Expr<Option<Type>>, TypecheckError>)
    requires
        forall|p: Policy, e: RequestEnv| call_requires(check, (&p, &e)),
    ensures
        checks_expr(check, *expr, *env, r),
{
    let wrapper = Policy::from_when_clause(
        Effect::Permit,
        expr.dup(),
        "__typecheck".to_owned(),
        None,
    );
    let answer = check(&wrapper, env);
    assert(call_ensures(check, (&wrapper, env), answer) && wraps(wrapper, *expr));
    answer.into_result()
}

/// Typechecks the condition of `policy` in `env`, its slots bound as the
/// policy binds them, and returns the typed condition with the slots left in.
pub fn typecheck_policy<C: Fn(&Policy, &RequestEnv) -> Checked>(
    policy: &Policy,
    env: &RequestEnv,
    check: &C,
) -> (r: Result<Expr<Option<Type>>, TypecheckError>)
    requires
        forall|p: Policy, e: RequestEnv| call_requires(check, (&p, &e)),
    ensures
        exists|a: Checked| #[trigger]
            call_ensures(check, (policy, env), a) && r == a.result(),
{
    let answer = check(policy, env);
    assert(call_ensures(check, (policy, env), answer));
    answer.into_result()
}

/// Something that can be typechecked in a request environment.
pub trait Typecheckable: Sized {
    /// The untyped expression.
    spec fn untyped_expr(&self) -> Expr<()>;

    /// The typed expression, where it is known without typechecking.
    spec fn known(&self, env: &RequestEnv, schema: &Schema) -> Option<Arc<Expr<Option<Type>>>>;

    /// The untyped expression.
    fn untyped(&self) -> (r: &Expr<()>)
        ensures
            *r == self.untyped_expr(),
    ;

    /// The typed expression in `env` under `schema`, whose typechecker is
    /// `check`: the one that is known, or what [`typecheck_expr`] gives for
    /// the untyped one.
    fn typechecked<C: Fn(&Policy, &RequestEnv) -> Checked>(
        &self,
        env: &RequestEnv,
        schema: &Schema,
        check: &C,
    ) -> (r: Result<Arc<Expr<Option<Type>>>, TypecheckError>)
        requires
            forall|p: Policy, e: RequestEnv| call_requires(check, (&p, &e)),
        ensures
            match self.known(env, schema) {
                Some(t) => r == Ok::<Arc<Expr<Option<Type>>>, TypecheckError>(t),
                None => checks_expr(
                    check,
                    self.untyped_expr(),
                    *env,
                    match r {
                        Ok(t) => Ok(*t),
                        Err(e) => Err(e),
                    },
                ),
            },
    ;
}

impl Typecheckable for Expr<()> {
    open spec fn untyped_expr(&self) -> Expr<()> {
        *self
    }

    open spec fn known(&self, env: &RequestEnv, schema: &Schema) -> Option<
        Arc<Expr<Option<Type>>>,
    > {
        None
    }

    fn untyped(&self) -> (r: &Expr<()>) {
        self
    }

    fn typechecked<C: Fn(&Policy, &RequestEnv) -> Checked>(
        &self,
        env: &RequestEnv,
        schema: &Schema,
        check: &C,
    ) -> (r: Result<Arc<Expr<Option<Type>>>, TypecheckError>) {
        match typecheck_expr(self, env, check) {
            Ok(t) => Ok(Arc::new(t)),
            Err(e) => Err(e),
        }
    }
}

impl<T: Typecheckable> Typecheckable for Arc<T> {
    open spec fn untyped_expr(&self) -> Expr<()> {
        (**self).untyped_expr()
    }

    open spec fn known(&self, env: &RequestEnv, schema: &Schema) -> Option<
        Arc<Expr<Option<Type>>>,
    > {
        (**self).known(env, schema)
    }

    fn untyped(&self) -> (r: &Expr<()>) {
        (**self).untyped()
    }

    fn typechecked<C: Fn(&Policy, &RequestEnv) -> Checked>(
        &self,
        env: &RequestEnv,
        schema: &Schema,
        check: &C,
    ) -> (r: Result<Arc<Expr<Option<Type>>>, TypecheckError>) {
        (**self).typechecked(env, schema, check)
    }
}

impl<T: Typecheckable> Typecheckable for &T {
    open spec fn untyped_expr(&self) -> Expr<()> {
        (**self).untyped_expr()
    }

    open spec fn known(&self, env: &RequestEnv, schema: &Schema) -> Option<
        Arc<Expr<Option<Type>>>,
    > {
        (**self).known(env, schema)
    }

    fn untyped(&self) -> (r: &Expr<()>) {
        (**self).untyped()
    }

    fn typechecked<C: Fn(&Policy, &RequestEnv) -> Checked>(
        &self,
        env: &RequestEnv,
        schema: &Schema,
        check: &C,
    ) -> (r: Result<Arc<Expr<Option<Type>>>, TypecheckError>) {
        (**self).typechecked(env, schema, check)
    }
}

/// A [`Typecheckable`] whose typed form is fixed in advance: no typechecker
/// runs on it.
#[derive(Debug)]
pub struct Pretyped {
    untyped: Expr<()>,
    typed: Arc<Expr<Option<Type>>>,
}

impl Pretyped {
    /// `typed` must be the typed form of `untyped` in every environment it is
    /// evaluated in.
    pub fn new(untyped: Expr<()>, typed: Arc<Expr<Option<Type>>>) -> (r: Self)
        ensures
            r.untyped_expr() == untyped,
            forall|env: &RequestEnv, schema: &Schema| #[trigger]
                r.known(env, schema) == Some(typed),
    {
        Pretyped { untyped, typed }
    }
}

impl Typecheckable for Pretyped {
    closed spec fn untyped_expr(&self) -> Expr<()> {
        self.untyped
    }

    closed spec fn known(&self, env: &RequestEnv, schema: &Schema) -> Option<
        Arc<Expr<Option<Type>>>,
    > {
        Some(self.typed)
    }

    fn untyped(&self) -> (r: &Expr<()>) {
        &self.untyped
    }

    fn typechecked<C: Fn(&Policy, &RequestEnv) -> Checked>(
        &self,
        env: &RequestEnv,
        schema: &Schema,
        check: &C,
    ) -> (r: Result<Arc<Expr<Option<Type>>>, TypecheckError>) {
        Ok(share(&self.typed))
    }
}

/// Folding established that a condition always errs in an environment. An
/// error is not expressible as an expression, so where the typed condition
/// would be, this is.
#[derive(Debug)]
pub struct StaticError {
    /// The type the condition had.
    pub ty: Type,
}

/// What is known about one policy in one request environment.
#[derive(Debug)]
pub struct EnvData {
    /// The typed condition, slots substituted, every node typed; `Err` once a
    /// fold reduced the whole condition to an error.
    pub typed: Result<Arc<Expr<Option<Type>>>, StaticError>,
    /// The condition as a residual.
    pub residual: Arc<Residual>,
    /// The possible outcomes of the condition.
    pub outcomes: Outcomes,
}

impl EnvData {
    /// What is known of the typed condition `t` before any analysis: its
    /// residual, and the outcomes of that.
    pub open spec fn is_of(self, t: Expr<Option<Type>>) -> bool {
        &&& self.typed matches Ok(x) && *x == t
        &&& t.residual(SlotEnv::none()) matches Ok(r) && r == self.residual@
        &&& self.outcomes@ == self.residual@.outcomes()
    }

    fn new(typed: Arc<Expr<Option<Type>>>) -> (r: Result<EnvData, TypecheckError>)
        ensures
            match r {
                Ok(d) => d.is_of(*typed),
                Err(e) => e is MissingType && typed.residual(SlotEnv::none()) is Err,
            },
    {
        match Residual::try_from_typed_expr(&typed, &SlotEnv::new()) {
            Ok(residual) => {
                let outcomes = residual.possible_bool_outcomes();
                Ok(EnvData { typed: Ok(typed), residual: Arc::new(residual), outcomes })
            },
            Err(_) => Err(TypecheckError::MissingType),
        }
    }

    /// What is known once an interpreter reduced the residual to `residual`,
    /// whose typed form is `typed`, if it has one.
    pub open spec fn folded(
        self,
        residual: Residual,
        typed: Result<Option<Expr<Option<Type>>>, StaticError>,
        new: EnvData,
    ) -> bool {
        &&& *new.residual == residual
        &&& new.outcomes@ == residual@.outcomes()
        &&& match typed {
            Err(e) => new.typed == Err::<Arc<Expr<Option<Type>>>, StaticError>(e),
            Ok(Some(t)) => new.typed matches Ok(x) && *x == t,
            Ok(None) => new.typed == self.typed,
        }
    }

    /// Records an interpreted residual: its outcomes, and its typed form where
    /// it has one.
    fn fold_residual(
        self,
        residual: Residual,
        typed: Result<Option<Expr<Option<Type>>>, StaticError>,
    ) -> (r: EnvData)
        ensures
            self.folded(residual, typed, r),
    {
        let outcomes = residual.possible_bool_outcomes();
        let typed = match typed {
            Err(e) => Err(e),
            Ok(Some(t)) => Ok(Arc::new(t)),
            Ok(None) => self.typed,
        };
        EnvData { typed, residual: Arc::new(residual), outcomes }
    }
}

impl Policy {
    /// What the slots are bound to.
    pub open spec fn slot_env(&self) -> SlotEnv {
        SlotEnv { principal: self.principal_slot, resource: self.resource_slot }
    }
}

/// What stops `policy` from having a typed condition, when the typechecker's
/// answer is `a`.
pub open spec fn env_error(policy: Policy, a: Checked) -> Option<TypecheckError> {
    match a.result() {
        Err(e) => Some(e),
        Ok(t) => match t.tree().unbound(policy.slot_env()) {
            Some(slot) => Some(TypecheckError::UnboundSlot(slot)),
            None => if t.fully_typed() && !t.tree().has_unknown() {
                None
            } else {
                Some(TypecheckError::MissingType)
            },
        },
    }
}

/// `d` is what is known of `policy` when the typechecker's answer is `a`: its
/// typed condition is the answer with the slots substituted.
pub open spec fn env_data(policy: Policy, a: Checked, d: EnvData) -> bool {
    &&& a.result() matches Ok(t) && d.typed matches Ok(x) && {
        &&& x.tree() == t.tree().filled(policy.slot_env())
        &&& t.filled_as(*x, policy.slot_env())
        &&& d.is_of(*x)
    }
}

impl Expr<Option<Type>> {
    /// Substituting slots keeps the types.
    proof fn lemma_filled_typed(&self, x: Expr<Option<Type>>, env: SlotEnv)
        requires
            self.filled_as(x, env),
        ensures
            x.fully_typed() == self.fully_typed(),
        decreases self,
    {
        assert forall|i: int| 0 <= i < self.kids().len() implies (
        #[trigger] self.kids()[i]).fully_typed() == x.kids()[i].fully_typed() by {
            self.lemma_kid_decreases(i);
            self.kids()[i].lemma_filled_typed(x.kids()[i], env);
        }
        if x.fully_typed() {
            assert forall|i: int| 0 <= i < self.kids().len() implies (
            #[trigger] self.kids()[i]).fully_typed() by {
                assert(x.kids()[i].fully_typed());
            }
        }
        if self.fully_typed() {
            assert forall|i: int| 0 <= i < x.kids().len() implies (
            #[trigger] x.kids()[i]).fully_typed() by {
                assert(self.kids()[i].fully_typed());
            }
        }
    }
}

impl Tree {
    /// Substituting slots keeps the unknowns.
    proof fn lemma_filled_unknown(self, env: SlotEnv)
        requires
            self.shaped(),
        ensures
            self.filled(env).has_unknown() == self.has_unknown(),
        decreases self,
    {
        let t = self.filled(env);
        if self.op is Slot {
            assert(self.kids.len() == 0);
            assert(t.kids.len() == 0);
        } else {
            assert forall|i: int| 0 <= i < self.kids.len() implies (
            #[trigger] self.kids[i]).has_unknown() == t.kids[i].has_unknown() by {
                self.kids[i].lemma_filled_unknown(env);
            }
            if self.has_unknown() && !(self.op is Unknown) {
                let i = choose|i: int|
                    0 <= i < self.kids.len() && (#[trigger] self.kids[i]).has_unknown();
                assert(t.kids[i].has_unknown());
            }
        }
    }
}

/// The typechecker `check` answers `answers` on `policy` in the environments
/// `envs`, one after the other.
pub open spec fn answers_on<C: Fn(&Policy, &RequestEnv) -> Checked>(
    check: &C,
    policy: Policy,
    envs: Seq<RequestEnv>,
    answers: Seq<Checked>,
) -> bool {
    &&& answers.len() <= envs.len()
    &&& forall|i: int|
        0 <= i < answers.len() ==> call_ensures(check, (&policy, &envs[i]), #[trigger] answers[i])
}

/// One policy, typechecked in every request environment of a schema.
#[derive(Debug)]
pub struct TypecheckedPolicy {
    policy: Arc<Policy>,
    /// The condition with the slots substituted.
    condition: Arc<Expr<()>>,
    /// The schema the conditions were typechecked against.
    schema: Arc<Schema>,
    envs: Vec<(RequestEnv, EnvData)>,
}

impl TypecheckedPolicy {
    /// The policy.
    pub closed spec fn policy_spec(&self) -> Arc<Policy> {
        self.policy
    }

    /// The condition, with the slots substituted.
    pub closed spec fn condition_spec(&self) -> Arc<Expr<()>> {
        self.condition
    }

    /// The schema.
    pub closed spec fn schema_spec(&self) -> Arc<Schema> {
        self.schema
    }

    /// What is known, environment by environment.
    pub closed spec fn entries(&self) -> Seq<(RequestEnv, EnvData)> {
        self.envs@
    }

    /// The environments.
    pub open spec fn keys(&self) -> Seq<(Seq<char>, (Seq<char>, Seq<char>), Seq<char>)> {
        self.entries().map_values(|e: (RequestEnv, EnvData)| e.0@)
    }

    /// What is known in the environment `env`.
    pub open spec fn data(&self, env: &RequestEnv) -> Option<EnvData> {
        if self.keys().contains(env@) {
            Some(self.entries()[self.keys().index_of(env@)].1)
        } else {
            None
        }
    }

    /// No environment comes twice.
    #[verifier::type_invariant]
    spec fn envs_are_distinct(self) -> bool {
        self.envs@.map_values(|e: (RequestEnv, EnvData)| e.0@).no_duplicates()
    }

    /// The policy typechecked in the environments of the schema: what is
    /// known in each comes from the typechecker's answer there.
    pub open spec fn is_check_of<C: Fn(&Policy, &RequestEnv) -> Checked>(
        &self,
        policy: Arc<Policy>,
        schema: Arc<Schema>,
        check: &C,
    ) -> bool {
        &&& self.policy_spec() == policy
        &&& self.schema_spec() == schema
        &&& policy.condition_tree().unbound(policy.slot_env()) is None
        &&& self.condition_spec().tree() == policy.condition_tree().filled(policy.slot_env())
        &&& self.keys() == crate::types::env_views(schema.envs())
        &&& exists|answers: Seq<Checked>| #[trigger]
            answers_on(check, *policy, schema.envs(), answers) && answers.len()
                == schema.envs().len() && forall|i: int|
                0 <= i < answers.len() ==> env_data(
                    *policy,
                    #[trigger] answers[i],
                    self.entries()[i].1,
                )
    }

    /// Typechecking the policy in the environments of the schema fails: its
    /// condition has an unbound slot, or the answer in the first environment
    /// that does not give a typed condition is the reason.
    pub open spec fn fails_with<C: Fn(&Policy, &RequestEnv) -> Checked>(
        policy: Arc<Policy>,
        schema: Arc<Schema>,
        check: &C,
        e: TypecheckError,
    ) -> bool {
        match policy.condition_tree().unbound(policy.slot_env()) {
            Some(slot) => e == TypecheckError::UnboundSlot(slot),
            None => exists|answers: Seq<Checked>| #[trigger]
                answers_on(check, *policy, schema.envs(), answers) && answers.len() > 0 && env_error(
                    *policy,
                    answers.last(),
                ) == Some(e) && forall|i: int|
                    0 <= i < answers.len() - 1 ==> env_error(*policy, #[trigger] answers[i])
                        is None,
        }
    }

    /// The first `n` of `ps` typecheck in every environment of the schema.
    pub open spec fn first_check<C: Fn(&Policy, &RequestEnv) -> Checked>(
        ps: Seq<Policy>,
        n: int,
        schema: Arc<Schema>,
        check: &C,
    ) -> bool {
        exists|done: Seq<TypecheckedPolicy>|
            done.len() == n && #[trigger] Self::are_checks_of(done, ps, schema, check)
    }

    /// `done` are the first of `ps`, typechecked.
    pub open spec fn are_checks_of<C: Fn(&Policy, &RequestEnv) -> Checked>(
        done: Seq<TypecheckedPolicy>,
        ps: Seq<Policy>,
        schema: Arc<Schema>,
        check: &C,
    ) -> bool {
        forall|j: int|
            0 <= j < done.len() ==> (#[trigger] done[j]).is_check_of(
                Arc::new(ps[j]),
                schema,
                check,
            )
    }

    /// Typechecks `policy` in every request environment of `schema`, whose
    /// typechecker is `check`.
    pub fn new<C: Fn(&Policy, &RequestEnv) -> Checked>(
        policy: Arc<Policy>,
        schema: Arc<Schema>,
        check: &C,
    ) -> (r: Result<Self, TypecheckError>)
        requires
            forall|p: Policy, e: RequestEnv| call_requires(check, (&p, &e)),
        ensures
            match r {
                Ok(p) => p.is_check_of(policy, schema, check),
                Err(e) => Self::fails_with(policy, schema, check, e),
            },
    {
        let slots = policy.env();
        let condition = match substitute_slots(&policy.condition(), &slots) {
            Ok(c) => Arc::new(c),
            Err(e) => return Err(e),
        };
        let mut envs: Vec<(RequestEnv, EnvData)> = Vec::new();
        let ghost mut answers: Seq<Checked> = seq![];
        let all = schema.request_envs();
        let mut i: usize = 0;
        while i < all.len()
            invariant
                i <= all@.len(),
                all@ == schema.envs(),
                slots == policy.slot_env(),
                policy.condition_tree().unbound(slots) is None,
                forall|p: Policy, e: RequestEnv| call_requires(check, (&p, &e)),
                envs@.len() == i,
                answers.len() == i,
                answers_on(check, *policy, schema.envs(), answers),
                forall|j: int| 0 <= j < i ==> (#[trigger] envs@[j]).0@ == all@[j]@,
                forall|j: int|
                    0 <= j < i ==> env_data(*policy, #[trigger] answers[j], envs@[j].1),
                forall|j: int| 0 <= j < i ==> env_error(*policy, #[trigger] answers[j]) is None,
            decreases all@.len() - i,
        {
            let answer = check(&policy, &all[i]);
            let ghost before = answers;
            proof {
                answers = answers.push(answer);
                assert(answers_on(check, *policy, schema.envs(), answers)) by {
                    assert forall|j: int| 0 <= j < answers.len() implies call_ensures(
                        check,
                        (&*policy, &schema.envs()[j]),
                        #[trigger] answers[j],
                    ) by {
                        if j < i {
                            assert(answers[j] == before[j]);
                        }
                    }
                }
                assert(answers.last() == answer);
                assert forall|j: int| 0 <= j < answers.len() - 1 implies env_error(
                    *policy,
                    #[trigger] answers[j],
                ) is None by {
                    assert(answers[j] == before[j]);
                }
            }
            let typed = match answer.into_result() {
                Ok(t) => t,
                Err(e) => return Err(e),
            };
            let filled = match substitute_slots(&typed, &slots) {
                Ok(t) => t,
                Err(e) => return Err(e),
            };
            proof {
                typed.lemma_filled_typed(filled, slots);
                typed.lemma_tree_shaped();
                typed.tree().lemma_filled_unknown(slots);
                typed.tree().law_filled_has_no_slot(slots);
                filled.tree().lemma_filled_no_slot(SlotEnv::none());
                filled.law_residual_exists(SlotEnv::none());
            }
            let data = match EnvData::new(Arc::new(filled)) {
                Ok(d) => d,
                Err(e) => return Err(e),
            };
            let ghost old_envs = envs@;
            envs.push((all[i].dup(), data));
            proof {
                assert forall|j: int| 0 <= j < answers.len() implies env_data(
                    *policy,
                    #[trigger] answers[j],
                    envs@[j].1,
                ) by {
                    if j < i {
                        assert(answers[j] == before[j]);
                        assert(envs@[j] == old_envs[j]);
                    }
                }
            }
            i += 1;
        }
        proof {
            assert(envs@.map_values(|e: (RequestEnv, EnvData)| e.0@) =~= crate::types::env_views(
                schema.envs(),
            ));
        }
        let r = TypecheckedPolicy { policy, condition, schema, envs };
        assert(r.keys() =~= crate::types::env_views(schema.envs()));
        Ok(r)
    }
}

impl TypecheckedPolicy {
    /// The position of an environment.
    proof fn lemma_position(&self, env: &RequestEnv, i: int)
        requires
            self.keys().no_duplicates(),
            0 <= i < self.entries().len(),
            self.entries()[i].0@ == env@,
        ensures
            self.keys().contains(env@),
            self.keys().index_of(env@) == i,
            self.data(env) == Some(self.entries()[i].1),
    {
        assert(self.keys()[i] == env@);
        let j = self.keys().index_of(env@);
        assert(self.keys()[j] == env@);
    }

    /// The position of `env` among the environments.
    fn position(&self, env: &RequestEnv) -> (r: Option<usize>)
        ensures
            match r {
                Some(i) => {
                    &&& i < self.envs@.len()
                    &&& self.envs@[i as int].0@ == env@
                    &&& self.keys().index_of(env@) == i
                    &&& self.keys().contains(env@)
                    &&& self.data(env) == Some(self.envs@[i as int].1)
                },
                None => self.data(env) is None,
            },
    {
        proof {
            use_type_invariant(&*self);
        }
        let mut i: usize = 0;
        while i < self.envs.len()
            invariant
                i <= self.envs@.len(),
                self.keys().no_duplicates(),
                forall|j: int| 0 <= j < i ==> (#[trigger] self.keys()[j]) != env@,
            decreases self.envs@.len() - i,
        {
            if self.envs[i].0 == *env {
                proof {
                    self.lemma_position(env, i as int);
                }
                return Some(i);
            }
            i += 1;
        }
        None
    }

    /// The policy.
    pub fn policy(&self) -> (r: &Arc<Policy>)
        ensures
            *r == self.policy_spec(),
    {
        &self.policy
    }

    /// The policy's id.
    pub fn id(&self) -> (r: &String)
        ensures
            r@ == self.policy_spec().id@,
    {
        &self.policy.id
    }

    /// The policy's condition, with the slots substituted.
    pub fn condition(&self) -> (r: &Arc<Expr<()>>)
        ensures
            *r == self.condition_spec(),
    {
        &self.condition
    }

    /// The schema the conditions were typechecked against.
    pub fn schema(&self) -> (r: &Arc<Schema>)
        ensures
            *r == self.schema_spec(),
    {
        &self.schema
    }

    /// The request environments the policy is typechecked in: every
    /// environment of the schema.
    pub fn request_types(&self) -> (r: Vec<RequestEnv>)
        ensures
            crate::types::env_views(r@) == self.keys(),
    {
        let mut r: Vec<RequestEnv> = Vec::new();
        let mut i: usize = 0;
        while i < self.envs.len()
            invariant
                i <= self.envs@.len(),
                r@.len() == i,
                forall|j: int| 0 <= j < i ==> (#[trigger] r@[j])@ == self.envs@[j].0@,
            decreases self.envs@.len() - i,
        {
            r.push(self.envs[i].0.dup());
            i += 1;
        }
        assert(crate::types::env_views(r@) =~= self.keys());
        r
    }

    /// The request environments the policy is typechecked in.
    pub fn request_envs(&self) -> (r: Vec<RequestEnv>)
        ensures
            crate::types::env_views(r@) == self.keys(),
    {
        self.request_types()
    }

    /// The first `n` environments, without those in which the condition is a
    /// static error.
    pub open spec fn open_envs(&self, n: nat) -> Seq<
        (Seq<char>, (Seq<char>, Seq<char>), Seq<char>),
    >
        decreases n,
    {
        if n == 0 {
            seq![]
        } else {
            let front = self.open_envs((n - 1) as nat);
            if self.entries()[n - 1].1.typed is Ok {
                front.push(self.entries()[n - 1].0@)
            } else {
                front
            }
        }
    }

    /// The request environments in which the condition is not a static error.
    pub(crate) fn unresolved_envs(&self) -> (r: Vec<RequestEnv>)
        ensures
            crate::types::env_views(r@) == self.open_envs(self.entries().len()),
    {
        let mut r: Vec<RequestEnv> = Vec::new();
        let mut i: usize = 0;
        assert(crate::types::env_views(r@) =~= self.open_envs(0));
        while i < self.envs.len()
            invariant
                i <= self.envs@.len(),
                crate::types::env_views(r@) == self.open_envs(i as nat),
            decreases self.envs@.len() - i,
        {
            if self.envs[i].1.typed.is_ok() {
                let ghost was = r@;
                r.push(self.envs[i].0.dup());
                assert(crate::types::env_views(r@) =~= crate::types::env_views(was).push(
                    self.envs@[i as int].0@,
                ));
            }
            i += 1;
        }
        r
    }

    /// The typed condition in `env`, or the static error a fold reduced it to;
    /// `None` for an environment not of the schema.
    pub fn typed_condition(&self, env: &RequestEnv) -> (r: Option<
        &Result<Arc<Expr<Option<Type>>>, StaticError>,
    >)
        ensures
            r is Some == self.data(env) is Some,
            r matches Some(t) ==> *t == self.data(env)->Some_0.typed,
    {
        match self.position(env) {
            Some(i) => Some(&self.envs[i].1.typed),
            None => None,
        }
    }

    /// The possible outcomes of the condition in `env`; `None` for an
    /// environment not of the schema.
    pub fn outcomes(&self, env: &RequestEnv) -> (r: Option<&Outcomes>)
        ensures
            r is Some == self.data(env) is Some,
            r matches Some(o) ==> *o == self.data(env)->Some_0.outcomes,
    {
        match self.position(env) {
            Some(i) => Some(&self.envs[i].1.outcomes),
            None => None,
        }
    }

    /// The condition as a residual in `env`; `None` for an environment not of
    /// the schema.
    pub fn residual(&self, env: &RequestEnv) -> (r: Option<&Arc<Residual>>)
        ensures
            r is Some == self.data(env) is Some,
            r matches Some(x) ==> *x == self.data(env)->Some_0.residual,
    {
        match self.position(env) {
            Some(i) => Some(&self.envs[i].1.residual),
            None => None,
        }
    }

    /// Whether `schema` is the schema the conditions were typechecked against.
    pub fn same_schema(&self, schema: &Schema) -> (r: bool)
        ensures
            r == schema.same_as(&self.schema_spec()),
    {
        schema.same(&self.schema)
    }

    /// Only what is known in `env` differs between `self` and `new`.
    pub open spec fn differs_only_in(&self, new: &TypecheckedPolicy, env: &RequestEnv) -> bool {
        &&& new.policy_spec() == self.policy_spec()
        &&& new.condition_spec() == self.condition_spec()
        &&& new.schema_spec() == self.schema_spec()
        &&& new.keys() == self.keys()
        &&& forall|other: &RequestEnv| other@ != env@ ==> #[trigger] new.data(other) == self.data(
            other,
        )
    }

    /// Replaces what is known in `env` by the result of an analysis that
    /// produced `typed` (equivalent to the condition) and `outcomes` (sound
    /// for it); the residual is rebuilt from `typed`.
    ///
    /// Fails, and changes nothing, if `env` is not an environment of the
    /// schema or `typed` has no residual.
    pub fn fold_env(
        &mut self,
        env: &RequestEnv,
        typed: Arc<Expr<Option<Type>>>,
        outcomes: Outcomes,
    ) -> (r: Result<(), TypecheckError>)
        ensures
            match r {
                Ok(_) => {
                    &&& old(self).data(env) is Some
                    &&& old(self).differs_only_in(final(self), env)
                    &&& final(self).data(env) matches Some(d) && {
                        &&& d.typed == Ok::<Arc<Expr<Option<Type>>>, StaticError>(typed)
                        &&& typed.residual(SlotEnv::none()) matches Ok(t) && t == d.residual@
                        &&& d.outcomes == outcomes
                    }
                },
                Err(e) => {
                    &&& e is MissingType
                    &&& old(self).data(env) is None || typed.residual(SlotEnv::none()) is Err
                    &&& *final(self) == *old(self)
                },
            },
    {
        let i = match self.position(env) {
            Some(i) => i,
            None => return Err(TypecheckError::MissingType),
        };
        let residual = match Residual::try_from_typed_expr(&typed, &SlotEnv::new()) {
            Ok(r) => r,
            Err(_) => return Err(TypecheckError::MissingType),
        };
        proof {
            use_type_invariant(&*self);
        }
        let data = EnvData { typed: Ok(typed), residual: Arc::new(residual), outcomes };
        self.put(i, data);
        proof {
            use_type_invariant(&*self);
            self.lemma_position(env, i as int);
        }
        Ok(())
    }

    /// Replaces what is known in the environment at position `i`.
    fn put(&mut self, i: usize, data: EnvData)
        requires
            i < old(self).entries().len(),
        ensures
            final(self).policy_spec() == old(self).policy_spec(),
            final(self).condition_spec() == old(self).condition_spec(),
            final(self).schema_spec() == old(self).schema_spec(),
            final(self).keys() == old(self).keys(),
            final(self).entries() == old(self).entries().update(
                i as int,
                (old(self).entries()[i as int].0, data),
            ),
            forall|other: &RequestEnv|
                other@ != old(self).entries()[i as int].0@ ==> #[trigger] final(self).data(other)
                    == old(self).data(other),
    {
        proof {
            use_type_invariant(&*self);
        }
        let ghost before = *self;
        let mut envs: Vec<(RequestEnv, EnvData)> = Vec::new();
        std::mem::swap(&mut envs, &mut self.envs);
        let key = envs[i].0.dup();
        envs.set(i, (key, data));
        assert(envs@.map_values(|e: (RequestEnv, EnvData)| e.0@) =~= before.keys());
        self.envs = envs;
        proof {
            assert(self.keys() =~= before.keys());
            assert forall|other: &RequestEnv|
                other@ != before.entries()[i as int].0@ implies #[trigger] self.data(other)
                == before.data(other) by {
                if self.keys().contains(other@) {
                    let j = self.keys().index_of(other@);
                    assert(self.keys()[j] == other@);
                    assert(j != i);
                }
            }
        }
    }

    /// What `interpret` makes of the residual in each environment is recorded;
    /// where it makes nothing of it, nothing changes.
    pub open spec fn folded_by<
        F: Fn(&Residual, &RequestEnv) -> Option<
            (Residual, Result<Option<Expr<Option<Type>>>, StaticError>),
        >,
    >(&self, new: &TypecheckedPolicy, interpret: &F) -> bool {
        &&& new.policy_spec() == self.policy_spec()
        &&& new.condition_spec() == self.condition_spec()
        &&& new.schema_spec() == self.schema_spec()
        &&& new.keys() == self.keys()
        &&& forall|i: int|
            0 <= i < self.entries().len() ==> entry_folded(
                #[trigger] self.entries()[i],
                new.entries()[i],
                interpret,
            )
    }

    /// Interprets every environment's residual and records the result.
    ///
    /// `interpret` partially evaluates a residual against the maximally
    /// unknown request of an environment; it gives the new residual and its
    /// typed form, or nothing if there is no such request.
    pub fn constant_fold<
        F: Fn(&Residual, &RequestEnv) -> Option<
            (Residual, Result<Option<Expr<Option<Type>>>, StaticError>),
        >,
    >(&mut self, interpret: &F)
        requires
            forall|r: Residual, e: RequestEnv| call_requires(interpret, (&r, &e)),
        ensures
            old(self).folded_by(final(self), interpret),
    {
        proof {
            use_type_invariant(&*self);
        }
        let ghost before = *self;
        let mut todo: Vec<(RequestEnv, EnvData)> = Vec::new();
        std::mem::swap(&mut todo, &mut self.envs);
        let ghost all = todo@;
        let mut done: Vec<(RequestEnv, EnvData)> = Vec::new();
        while todo.len() > 0
            invariant
                todo@ == all.skip(done@.len() as int),
                done@.len() <= all.len(),
                forall|r: Residual, e: RequestEnv| call_requires(interpret, (&r, &e)),
                forall|j: int| 0 <= j < done@.len() ==> (#[trigger] done@[j]).0@ == all[j].0@,
                forall|j: int|
                    0 <= j < done@.len() ==> entry_folded(#[trigger] all[j], done@[j], interpret),
            decreases todo@.len(),
        {
            let ghost n = done@.len() as int;
            let (env, data) = todo.remove(0);
            assert(all[n] == (env, data));
            let new = match interpret(&data.residual, &env) {
                Some((residual, typed)) => data.fold_residual(residual, typed),
                None => data,
            };
            done.push((env, new));
            assert(todo@ =~= all.skip(done@.len() as int));
            assert(entry_folded(all[n], done@[n], interpret));
        }
        assert(done@.map_values(|e: (RequestEnv, EnvData)| e.0@) =~= before.keys());
        self.envs = done;
        assert(self.keys() =~= before.keys());
    }
}

/// What was known in an environment, and what is known once `interpret` was
/// run on the residual there.
pub open spec fn entry_folded<
    F: Fn(&Residual, &RequestEnv) -> Option<
        (Residual, Result<Option<Expr<Option<Type>>>, StaticError>),
    >,
>(before: (RequestEnv, EnvData), after: (RequestEnv, EnvData), interpret: &F) -> bool {
    &&& after.0@ == before.0@
    &&& exists|o: Option<(Residual, Result<Option<Expr<Option<Type>>>, StaticError>)>| #[trigger]
        call_ensures(interpret, (&*before.1.residual, &before.0), o) && match o {
            Some((residual, typed)) => before.1.folded(residual, typed, after.1),
            None => after.1 == before.1,
        }
}

impl Typecheckable for TypecheckedPolicy {
    open spec fn untyped_expr(&self) -> Expr<()> {
        *self.condition_spec()
    }

    /// The cached typed condition, when the schema is the one the policy was
    /// typechecked against and `env` has a typed condition.
    open spec fn known(&self, env: &RequestEnv, schema: &Schema) -> Option<
        Arc<Expr<Option<Type>>>,
    > {
        if schema.same_as(&self.schema_spec()) {
            match self.data(env) {
                Some(d) => match d.typed {
                    Ok(t) => Some(t),
                    Err(_) => None,
                },
                None => None,
            }
        } else {
            None
        }
    }

    fn untyped(&self) -> (r: &Expr<()>) {
        &self.condition
    }

    fn typechecked<C: Fn(&Policy, &RequestEnv) -> Checked>(
        &self,
        env: &RequestEnv,
        schema: &Schema,
        check: &C,
    ) -> (r: Result<Arc<Expr<Option<Type>>>, TypecheckError>) {
        if self.same_schema(schema) {
            if let Some(Ok(typed)) = self.typed_condition(env) {
                return Ok(share(typed));
            }
        }
        match typecheck_expr(&self.condition, env, check) {
            Ok(t) => Ok(Arc::new(t)),
            Err(e) => Err(e),
        }
    }
}

/// A map that keeps its entries in the order of insertion.
#[verifier::external_type_specification]
#[verifier::external_body]
#[verifier::reject_recursive_types(K)]
#[verifier::reject_recursive_types(V)]
#[verifier::reject_recursive_types(S)]
pub struct ExLinkedHashMap<K, V, S>(LinkedHashMap<K, V, S>);

/// The entries of the map, in their order.
pub uninterp spec fn ordered(m: LinkedHashMap<String, usize>) -> Seq<(Seq<char>, usize)>;

/// An empty map.
///
/// Calls `LinkedHashMap::new`.
#[verifier::external_body]
fn empty_map() -> (m: LinkedHashMap<String, usize>)
    ensures
        ordered(m) == Seq::<(Seq<char>, usize)>::empty(),
{
    LinkedHashMap::new()
}

/// Puts the value `v` under the key `k`, and returns the value that was there.
///
/// Calls `LinkedHashMap::insert`: a new key comes last; the value of one that
/// was there is replaced, and its entry moves to the end.
#[verifier::external_body]
fn put_entry(m: &mut LinkedHashMap<String, usize>, k: String, v: usize) -> (r: Option<usize>)
    ensures
        match r {
            None => {
                &&& ordered(*final(m)) == ordered(*old(m)).push((k@, v))
                &&& forall|i: int|
                    0 <= i < ordered(*old(m)).len() ==> (#[trigger] ordered(*old(m))[i]).0 != k@
            },
            Some(x) => exists|i: int|
                0 <= i < ordered(*old(m)).len() && #[trigger] ordered(*old(m))[i] == (k@, x)
                    && ordered(*final(m)) == ordered(*old(m)).remove(i).push((k@, v)),
        },
{
    m.insert(k, v)
}

/// The value under the key `k`.
///
/// Calls `LinkedHashMap::get`.
#[verifier::external_body]
fn find_entry(m: &LinkedHashMap<String, usize>, k: &String) -> (r: Option<usize>)
    ensures
        match r {
            Some(x) => ordered(*m).contains((k@, x)),
            None => forall|i: int| 0 <= i < ordered(*m).len() ==> (#[trigger] ordered(*m)[i]).0 != k@,
        },
{
    m.get(k).copied()
}

/// The values, in the order of their entries.
///
/// Calls `LinkedHashMap::values`.
#[verifier::external_body]
fn entry_values(m: &LinkedHashMap<String, usize>) -> (r: Vec<usize>)
    ensures
        r@ == ordered(*m).map_values(|e: (Seq<char>, usize)| e.1),
{
    m.values().copied().collect()
}

/// A policy set validated against a schema, with every policy typechecked in
/// every request environment.
pub struct TypecheckedPolicySet {
    policies: PolicySet,
    schema: Arc<Schema>,
    /// The position of each policy in `typechecked`, by its id.
    positions: LinkedHashMap<String, usize>,
    typechecked: Vec<TypecheckedPolicy>,
}

/// What validating `policies` against `schema` and typechecking them comes to:
/// the typechecked policies in their order, or the validator's errors `errs`,
/// or why the first of the policies that does not typecheck does not.
pub open spec fn set_check_gives<C: Fn(&Policy, &RequestEnv) -> Checked>(
    policies: PolicySet,
    schema: Arc<Schema>,
    errs: Vec<String>,
    check: &C,
    r: Result<TypecheckedPolicySet, TypecheckError>,
) -> bool {
    match r {
        Ok(s) => {
            &&& errs@.len() == 0
            &&& s.wf()
            &&& s.policy_set_spec() == policies
            &&& s.schema_spec() == schema
            &&& s.items().len() == policies.items().len()
            &&& s.ids() == policies.items().map_values(|p: Policy| p.id@)
            &&& forall|i: int|
                0 <= i < s.items().len() ==> (#[trigger] s.items()[i]).is_check_of(
                    Arc::new(policies.items()[i]),
                    schema,
                    check,
                )
        },
        Err(e) => if errs@.len() > 0 {
            e == (TypecheckError::NotWellTyped { errs })
        } else {
            exists|i: int|
                0 <= i < policies.items().len() && TypecheckedPolicy::fails_with(
                    Arc::new(#[trigger] policies.items()[i]),
                    schema,
                    check,
                    e,
                ) && TypecheckedPolicy::first_check(policies.items(), i, schema, check)
        },
    }
}

impl PolicySet {
    /// Validates the policy set against `schema` and typechecks every policy
    /// in every request environment; see [`TypecheckedPolicySet::new`].
    pub fn typecheck<C: Fn(&Policy, &RequestEnv) -> Checked>(
        self,
        schema: &Arc<Schema>,
        errs: Vec<String>,
        check: &C,
    ) -> (r: Result<TypecheckedPolicySet, TypecheckError>)
        requires
            forall|p: Policy, e: RequestEnv| call_requires(check, (&p, &e)),
        ensures
            set_check_gives(self, *schema, errs, check, r),
    {
        TypecheckedPolicySet::new(self, share(schema), errs, check)
    }
}

impl TypecheckedPolicySet {
    /// The policy set.
    pub closed spec fn policy_set_spec(&self) -> PolicySet {
        self.policies
    }

    /// The schema.
    pub closed spec fn schema_spec(&self) -> Arc<Schema> {
        self.schema
    }

    /// The typechecked policies.
    pub closed spec fn items(&self) -> Seq<TypecheckedPolicy> {
        self.typechecked@
    }

    /// The ids of the policies, in the order of the policies.
    pub closed spec fn ids(&self) -> Seq<Seq<char>> {
        ordered(self.positions).map_values(|e: (Seq<char>, usize)| e.0)
    }

    /// There is one typechecked policy for each id, at the id's position.
    pub closed spec fn wf(&self) -> bool {
        &&& ordered(self.positions).len() == self.typechecked@.len()
        &&& forall|i: int|
            0 <= i < ordered(self.positions).len() ==> (#[trigger] ordered(self.positions)[i]).1
                == i
        &&& self.ids().no_duplicates()
    }

    /// Validates `policies` against `schema` and typechecks every policy in
    /// every request environment. `errs` are the errors that the validator
    /// finds in the policies, and `check` is the schema's typechecker.
    pub fn new<C: Fn(&Policy, &RequestEnv) -> Checked>(
        policies: PolicySet,
        schema: Arc<Schema>,
        errs: Vec<String>,
        check: &C,
    ) -> (r: Result<Self, TypecheckError>)
        requires
            forall|p: Policy, e: RequestEnv| call_requires(check, (&p, &e)),
        ensures
            set_check_gives(policies, schema, errs, check, r),
    {
        if errs.len() > 0 {
            return Err(TypecheckError::NotWellTyped { errs });
        }
        let mut positions = empty_map();
        let mut typechecked: Vec<TypecheckedPolicy> = Vec::new();
        let all = policies.policies();
        let mut i: usize = 0;
        while i < all.len()
            invariant
                i <= all@.len(),
                errs@.len() == 0,
                all@ == policies.items(),
                all@.map_values(|p: Policy| p@) == policies@,
                crate::policy::PolicyView::distinct_ids(policies@),
                forall|p: Policy, e: RequestEnv| call_requires(check, (&p, &e)),
                typechecked@.len() == i,
                ordered(positions).len() == i,
                forall|j: int|
                    0 <= j < i ==> (#[trigger] ordered(positions)[j]).0 == all@[j].id@ && ordered(
                        positions,
                    )[j].1 == j,
                forall|j: int|
                    0 <= j < i ==> (#[trigger] typechecked@[j]).is_check_of(
                        Arc::new(all@[j]),
                        schema,
                        check,
                    ),
            decreases all@.len() - i,
        {
            let policy = &all[i];
            let t = match TypecheckedPolicy::new(Arc::new(policy.dup()), share(&schema), check) {
                Ok(t) => t,
                Err(e) => {
                    assert(TypecheckedPolicy::fails_with(
                        Arc::new(policies.items()[i as int]),
                        schema,
                        check,
                        e,
                    ));
                    assert(TypecheckedPolicy::are_checks_of(
                        typechecked@,
                        policies.items(),
                        schema,
                        check,
                    ));
                    return Err(e);
                },
            };
            let ghost before = ordered(positions);
            let old_position = put_entry(&mut positions, policy.id.clone(), i);
            proof {
                assert forall|j: int| 0 <= j < i implies (#[trigger] before[j]).0
                    != policy.id@ by {
                    assert(policies@[j].id == all@[j].id@);
                    assert(policies@[i as int].id == all@[i as int].id@);
                }
                assert(old_position is None);
            }
            typechecked.push(t);
            i += 1;
        }
        let r = TypecheckedPolicySet { policies, schema, positions, typechecked };
        proof {
            assert(r.ids() =~= policies.items().map_values(|p: Policy| p.id@));
            assert forall|a: int, b: int| 0 <= a < r.ids().len() && 0 <= b < r.ids().len() && a
                != b implies r.ids()[a] != r.ids()[b] by {
                assert(policies@[a].id == policies.items()[a].id@);
                assert(policies@[b].id == policies.items()[b].id@);
                if a < b {
                    assert(policies@[a].id != policies@[b].id);
                } else {
                    assert(policies@[b].id != policies@[a].id);
                }
            }
        }
        Ok(r)
    }

    /// The policy set.
    pub fn policy_set(&self) -> (r: &PolicySet)
        ensures
            *r == self.policy_set_spec(),
    {
        &self.policies
    }

    /// The policy set, giving up what was computed for it.
    pub fn into_policy_set(self) -> (r: PolicySet)
        ensures
            r == self.policy_set_spec(),
    {
        self.policies
    }

    /// The schema.
    pub fn schema(&self) -> (r: &Arc<Schema>)
        ensures
            *r == self.schema_spec(),
    {
        &self.schema
    }

    /// The policy with `id`.
    pub fn policy(&self, id: &String) -> (r: Option<&Policy>)
        ensures
            match r {
                Some(p) => p.id@ == id@ && self.policy_set_spec().items().contains(*p),
                None => forall|i: int|
                    0 <= i < self.policy_set_spec()@.len() ==> (
                    #[trigger] self.policy_set_spec()@[i]).id != id@,
            },
    {
        self.policies.policy(id)
    }

    /// The typechecked policies, in the policy set's order.
    pub fn policies(&self) -> (r: Vec<&TypecheckedPolicy>)
        requires
            self.wf(),
        ensures
            r@.len() == self.items().len(),
            forall|i: int| 0 <= i < r@.len() ==> *(#[trigger] r@[i]) == self.items()[i],
    {
        let order = entry_values(&self.positions);
        let mut r: Vec<&TypecheckedPolicy> = Vec::new();
        let mut i: usize = 0;
        while i < order.len()
            invariant
                i <= order@.len(),
                self.wf(),
                order@ == ordered(self.positions).map_values(|e: (Seq<char>, usize)| e.1),
                r@.len() == i,
                forall|j: int| 0 <= j < i ==> *(#[trigger] r@[j]) == self.typechecked@[j],
            decreases order@.len() - i,
        {
            assert(order@[i as int] == ordered(self.positions)[i as int].1);
            r.push(&self.typechecked[order[i]]);
            i += 1;
        }
        r
    }

    /// The typechecked policy at position `i`.
    pub(crate) fn nth(&self, i: usize) -> (r: &TypecheckedPolicy)
        requires
            i < self.items().len(),
        ensures
            *r == self.items()[i as int],
    {
        &self.typechecked[i]
    }

    /// The typechecked policy at position `i`, mutably (for a fold).
    pub(crate) fn nth_mut(&mut self, i: usize) -> (r: &mut TypecheckedPolicy)
        requires
            old(self).wf(),
            i < old(self).items().len(),
        ensures
            *r == old(self).items()[i as int],
            final(self).wf(),
            final(self).ids() == old(self).ids(),
            final(self).policy_set_spec() == old(self).policy_set_spec(),
            final(self).schema_spec() == old(self).schema_spec(),
            final(self).items() == old(self).items().update(i as int, *final(r)),
    {
        &mut self.typechecked[i]
    }

    /// How many policies there are.
    pub fn len(&self) -> (r: usize)
        ensures
            r == self.items().len(),
    {
        self.typechecked.len()
    }

    /// The position of the policy with `id`.
    fn position(&self, id: &String) -> (r: Option<usize>)
        requires
            self.wf(),
        ensures
            match r {
                Some(i) => i < self.typechecked@.len() && self.ids()[i as int] == id@,
                None => !self.ids().contains(id@),
            },
    {
        let r = find_entry(&self.positions, id);
        proof {
            match r {
                Some(x) => {
                    let i = choose|i: int|
                        0 <= i < ordered(self.positions).len() && ordered(self.positions)[i] == (
                            id@,
                            x,
                        );
                    assert(self.ids()[i] == id@);
                },
                None => {
                    assert forall|i: int| 0 <= i < self.ids().len() implies self.ids()[i]
                        != id@ by {
                        assert(ordered(self.positions)[i].0 != id@);
                    }
                },
            }
        }
        r
    }

    /// The typechecked policy with `id`.
    pub fn get(&self, id: &String) -> (r: Option<&TypecheckedPolicy>)
        requires
            self.wf(),
        ensures
            match r {
                Some(p) => exists|i: int|
                    0 <= i < self.ids().len() && #[trigger] self.ids()[i] == id@ && self.items()[i]
                        == *p,
                None => !self.ids().contains(id@),
            },
    {
        match self.position(id) {
            Some(i) => {
                assert(self.ids()[i as int] == id@);
                Some(&self.typechecked[i])
            },
            None => None,
        }
    }

    /// The typechecked policy with `id`, mutably (for a fold).
    pub fn get_mut(&mut self, id: &String) -> (r: Option<&mut TypecheckedPolicy>)
        requires
            old(self).wf(),
        ensures
            final(self).wf(),
            final(self).ids() == old(self).ids(),
            final(self).policy_set_spec() == old(self).policy_set_spec(),
            final(self).schema_spec() == old(self).schema_spec(),
            match r {
                Some(p) => exists|i: int|
                    0 <= i < old(self).ids().len() && #[trigger] old(self).ids()[i] == id@ && old(
                        self,
                    ).items()[i] == *p && final(self).items() == old(self).items().update(
                        i,
                        *final(p),
                    ),
                None => !old(self).ids().contains(id@) && final(self).items() == old(self).items(),
            },
    {
        match self.position(id) {
            Some(i) => {
                assert(self.ids()[i as int] == id@);
                Some(&mut self.typechecked[i])
            },
            None => None,
        }
    }

    /// Folds every policy's condition in every environment with `interpret`;
    /// see [`TypecheckedPolicy::constant_fold`].
    pub fn constant_fold<
        F: Fn(&Residual, &RequestEnv) -> Option<
            (Residual, Result<Option<Expr<Option<Type>>>, StaticError>),
        >,
    >(self, interpret: &F) -> (r: Self)
        requires
            self.wf(),
            forall|r: Residual, e: RequestEnv| call_requires(interpret, (&r, &e)),
        ensures
            r.wf(),
            r.ids() == self.ids(),
            r.policy_set_spec() == self.policy_set_spec(),
            r.schema_spec() == self.schema_spec(),
            r.items().len() == self.items().len(),
            forall|i: int|
                0 <= i < r.items().len() ==> (#[trigger] self.items()[i]).folded_by(
                    &r.items()[i],
                    interpret,
                ),
    {
        let TypecheckedPolicySet { policies, schema, positions, typechecked } = self;
        let mut todo = typechecked;
        let ghost all = todo@;
        let mut done: Vec<TypecheckedPolicy> = Vec::new();
        while todo.len() > 0
            invariant
                todo@ == all.skip(done@.len() as int),
                done@.len() <= all.len(),
                forall|r: Residual, e: RequestEnv| call_requires(interpret, (&r, &e)),
                forall|j: int|
                    0 <= j < done@.len() ==> (#[trigger] all[j]).folded_by(&done@[j], interpret),
            decreases todo@.len(),
        {
            let mut p = todo.remove(0);
            p.constant_fold(interpret);
            done.push(p);
            assert(todo@ =~= all.skip(done@.len() as int));
        }
        TypecheckedPolicySet { policies, schema, positions, typechecked: done }
    }
}

/// Every outcome: what is known about a boolean expression before any
/// analysis.
pub fn all_outcomes() -> (r: Outcomes)
    ensures
        r@ == Outcomes::flags(true, true, true),
        forall|o: EvaluationOutcome| r@.contains(o),
{
    Outcomes::all()
}

impl Tree {
    /// Where nothing is bound, nothing is filled in.
    pub(crate) proof fn lemma_filled_none(self)
        ensures
            self.filled(SlotEnv::none()) == self,
        decreases self,
    {
        let t = self.filled(SlotEnv::none());
        assert forall|i: int| 0 <= i < self.kids.len() implies (#[trigger] self.kids[i]).filled(
            SlotEnv::none(),
        ) == self.kids[i] by {
            self.kids[i].lemma_filled_none();
        }
        assert(t.kids =~= self.kids);
    }
}

/// The outcomes that are recorded for a typed condition are sound: the outcome
/// of evaluating it is one of them, wherever its evaluation is well typed.
pub proof fn law_recorded_outcomes_are_sound(d: EnvData, t: Expr<Option<Type>>, w: World)
    requires
        d.is_of(t),
        w.operators_work(),
        d.residual@.well_typed(w),
    ensures
        d.outcomes@.contains(t.tree().outcome(w)),
{
    t.law_residual_preserves_evaluation(SlotEnv::none(), w);
    t.tree().lemma_filled_none();
    d.residual@.law_outcomes_are_sound(w);
}

} // verus!
