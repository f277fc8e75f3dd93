//! The symbolic evaluator: bound to a schema, with assumptions that apply to
//! every evaluation, in every request environment.

use std::sync::Arc;

use vstd::prelude::*;

use crate::ast::{Data, EntityUid, Expr};
use crate::evaluator::assumptions::{EntityInfo, PartialEntity, PartialRequest};
use crate::evaluator::compile::{
    assumption_error, require_boolean, typecheck, Compiled, Sym, SymEnv,
};
use crate::evaluator::err::EvaluationError;
use crate::evaluator::metadata::EvaluationMetadata;
use crate::evaluator::node::{build_tree, copy_of, mark_kept, Node};
use crate::evaluator::run::{EvaluationTrace, QueryRecord};
use crate::evaluator::state::{
    extend_terms, Assumption, Backend, CompiledSet, EnvState, PolicyError, Terms,
};
use crate::evaluator::table::EnvTable;
use crate::evaluator::term::{reaches_solver, Term};
use crate::expr_util::{erase, fits, MAX_NESTING};
use crate::outcome::{EvaluationOutcome, Outcomes};
use crate::policy::{Decision, Policy, PolicySet};
use crate::tree::Tree;
use crate::typechecked::{Checked, Typecheckable};
use crate::types::{RequestEnv, Schema, Type};

verus! {

/// A request, of which parts may be unknown. The context is the literal of its
/// value, or the reason why it does not fit its type.
#[derive(Debug)]
pub struct Request {
    pub principal: Option<EntityUid>,
    pub action: Option<EntityUid>,
    pub resource: Option<EntityUid>,
    pub context: Option<Result<Term, String>>,
}

/// The request environment a concrete request belongs to, if its action is in
/// the schema.
pub fn request_env_of(request: &Request, schema: &Schema) -> (r: Option<RequestEnv>)
    ensures
        match r {
            Some(env) => {
                &&& request.principal matches Some(p) && env.principal@ == p.ty@
                &&& request.action matches Some(a) && env.action@ == a@ && exists|i: int|
                    0 <= i < schema.action_uids().len() && (#[trigger] schema.action_uids()[i])@
                        == a@
                &&& request.resource matches Some(x) && env.resource@ == x.ty@
            },
            None => request.principal is None || request.action is None || request.resource is None
                || forall|i: int|
                0 <= i < schema.action_uids().len() ==> (#[trigger] schema.action_uids()[i])@
                    != request.action->Some_0@,
        },
{
    match (&request.principal, &request.action, &request.resource) {
        (Some(p), Some(a), Some(r)) => {
            if schema.has_action(a) {
                Some(
                    RequestEnv {
                        principal: p.ty.clone(),
                        action: a.dup(),
                        resource: r.ty.clone(),
                    },
                )
            } else {
                None
            }
        },
        _ => None,
    }
}

impl Request {
    /// The request with everything known, if it is and fits the schema;
    /// otherwise the error: the first part that is unknown, that the types of
    /// the principal and the resource do not apply to the action, or what is
    /// wrong with the context.
    pub open spec fn known(&self, schema: Schema) -> Result<PartialRequest, Seq<char>> {
        match (self.principal, self.action, self.resource, self.context) {
            (None, _, _, _) => Err("principal is unknown"@),
            (_, None, _, _) => Err("action is unknown"@),
            (_, _, None, _) => Err("resource is unknown"@),
            (_, _, _, None) => Err("context is unknown"@),
            (Some(p), Some(a), Some(r), Some(context)) => {
                let env = RequestEnv { principal: p.ty, action: a, resource: r.ty };
                if !crate::types::env_views(schema.envs()).contains(env@) {
                    Err("the principal and resource types do not apply to the action"@)
                } else {
                    match context {
                        Err(m) => Err(m@),
                        Ok(c) => Ok(
                            PartialRequest {
                                principal_type: p.ty,
                                principal_eid: Some(p.eid),
                                action: a,
                                resource_type: r.ty,
                                resource_eid: Some(r.eid),
                                context: Some(Ok(c)),
                            },
                        ),
                    }
                }
            },
        }
    }

    /// The request as a partial one, which must be concrete and fit the
    /// schema.
    pub fn to_partial(&self, schema: &Schema) -> (r: Result<PartialRequest, EvaluationError>)
        ensures
            match r {
                Ok(p) => self.known(*schema) == Ok::<PartialRequest, Seq<char>>(p),
                Err(EvaluationError::InvalidRequest(m)) => self.known(*schema) == Err::<
                    PartialRequest,
                    Seq<char>,
                >(m@),
                Err(_) => false,
            },
    {
        let principal = match &self.principal {
            Some(p) => p,
            None => return Err(
                EvaluationError::InvalidRequest("principal is unknown".to_owned()),
            ),
        };
        let action = match &self.action {
            Some(a) => a,
            None => return Err(EvaluationError::InvalidRequest("action is unknown".to_owned())),
        };
        let resource = match &self.resource {
            Some(x) => x,
            None => return Err(EvaluationError::InvalidRequest("resource is unknown".to_owned())),
        };
        let context = match &self.context {
            Some(c) => c,
            None => return Err(EvaluationError::InvalidRequest("context is unknown".to_owned())),
        };
        let env = RequestEnv {
            principal: principal.ty.clone(),
            action: action.dup(),
            resource: resource.ty.clone(),
        };
        if !schema.has_env(&env) {
            return Err(
                EvaluationError::InvalidRequest(
                    "the principal and resource types do not apply to the action".to_owned(),
                ),
            );
        }
        let context = match context {
            Ok(c) => c,
            Err(m) => return Err(EvaluationError::InvalidRequest(m.clone())),
        };
        Ok(
            PartialRequest {
                principal_type: principal.ty.clone(),
                principal_eid: Some(principal.eid.clone()),
                action: action.dup(),
                resource_type: resource.ty.clone(),
                resource_eid: Some(resource.eid.clone()),
                context: Some(Ok(context.dup())),
            },
        )
    }
}

impl<
    K: Fn(&Policy, &RequestEnv) -> Checked,
    C: Fn(&Expr<()>) -> Result<Compiled, String>,
    P: Fn(&PolicySet, &RequestEnv) -> Result<CompiledSet, PolicyError>,
    I: Fn(&EntityUid) -> EntityInfo,
> Backend<K, C, P, I> {
    /// `states` are the terms before and after each of the assumptions from
    /// `from` on.
    pub open spec fn compiles_to(
        &self,
        assumptions: Seq<Assumption>,
        from: int,
        states: Seq<Terms>,
        env: RequestEnv,
        schema: Schema,
        s: Sym,
    ) -> bool {
        &&& states.len() >= 1
        &&& from + states.len() - 1 <= assumptions.len()
        &&& forall|k: int|
            1 <= k < states.len() ==> self.gives(
                assumptions[from + k - 1],
                env,
                schema,
                s,
                states[k - 1],
                Ok(()),
                #[trigger] states[k],
            )
    }

    /// The assumptions from `from` on are compiled one after the other, up to
    /// the first that fails.
    pub open spec fn catches_up(
        &self,
        assumptions: Seq<Assumption>,
        from: int,
        env: RequestEnv,
        schema: Schema,
        before: Terms,
        r: Result<(), EvaluationError>,
        after: EnvState,
    ) -> bool {
        exists|states: Seq<Terms>|
            states.len() >= 1 && states[0] == before && after.compiled_upto == from + states.len()
                - 1 && (forall|s: Sym| #[trigger]
                self.sym.computes(s) ==> self.compiles_to(
                    assumptions,
                    from,
                    states,
                    env,
                    schema,
                    s,
                )) && match r {
                Ok(_) => after.compiled_upto == assumptions.len() && after@ == #[trigger] states.last(),
                Err(_) => after.compiled_upto < assumptions.len() && forall|s: Sym| #[trigger]
                    self.sym.computes(s) ==> self.gives(
                        assumptions[after.compiled_upto as int],
                        env,
                        schema,
                        s,
                        states.last(),
                        r,
                        after@,
                    ),
            }
    }
}

impl EnvState {
    /// Compiles the assumptions that have not been compiled yet.
    pub fn catch_up<
        K: Fn(&Policy, &RequestEnv) -> Checked,
        C: Fn(&Expr<()>) -> Result<Compiled, String>,
        P: Fn(&PolicySet, &RequestEnv) -> Result<CompiledSet, PolicyError>,
        I: Fn(&EntityUid) -> EntityInfo,
    >(
        &mut self,
        assumptions: &Vec<Assumption>,
        env: &RequestEnv,
        schema: &Schema,
        backend: &Backend<K, C, P, I>,
    ) -> (r: Result<(), EvaluationError>)
        requires
            backend.callable(),
            old(self).compiled_upto <= assumptions@.len(),
        ensures
            final(self).compiled_upto <= assumptions@.len(),
            backend.catches_up(
                assumptions@,
                old(self).compiled_upto as int,
                *env,
                *schema,
                old(self)@,
                r,
                *final(self),
            ),
    {
        let ghost from = self.compiled_upto as int;
        let ghost mut states: Seq<Terms> = seq![self@];
        while self.compiled_upto < assumptions.len()
            invariant
                self.compiled_upto <= assumptions@.len(),
                backend.callable(),
                from == old(self).compiled_upto,
                states.len() >= 1,
                states[0] == old(self)@,
                states.last() == self@,
                self.compiled_upto == from + states.len() - 1,
                forall|s: Sym| #[trigger]
                    backend.sym.computes(s) ==> backend.compiles_to(
                        assumptions@,
                        from,
                        states,
                        *env,
                        *schema,
                        s,
                    ),
            decreases assumptions@.len() - self.compiled_upto,
        {
            let i = self.compiled_upto;
            let ghost before = states;
            match self.compile_assumption(&assumptions[i], env, schema, backend) {
                Ok(_) => {},
                Err(e) => {
                    assert(states.last() == states[states.len() - 1]);
                    return Err(e);
                },
            }
            self.compiled_upto = i + 1;
            proof {
                states = states.push(self@);
                assert forall|s: Sym| #[trigger] backend.sym.computes(s) implies backend.compiles_to(
                    assumptions@,
                    from,
                    states,
                    *env,
                    *schema,
                    s,
                ) by {
                    assert(backend.compiles_to(assumptions@, from, before, *env, *schema, s));
                    assert forall|k: int| 1 <= k < states.len() implies backend.gives(
                        assumptions@[from + k - 1],
                        *env,
                        *schema,
                        s,
                        states[k - 1],
                        Ok(()),
                        #[trigger] states[k],
                    ) by {
                        if k < before.len() {
                            assert(states[k] == before[k]);
                            assert(states[k - 1] == before[k - 1]);
                        } else {
                            assert(states[k - 1] == before.last());
                        }
                    }
                }
            }
        }
        Ok(())
    }
}

/// The typed form of the expression to evaluate, which must be boolean and not
/// nest too deeply.
pub open spec fn target_gives<T: Typecheckable, K: Fn(&Policy, &RequestEnv) -> Checked>(
    expr: &T,
    env: &RequestEnv,
    schema: &Schema,
    check: &K,
    r: Result<Arc<Expr<Option<Type>>>, EvaluationError>,
) -> bool {
    exists|t: Result<Arc<Expr<Option<Type>>>, EvaluationError>| #[trigger]
        crate::evaluator::compile::typecheck_gives(expr, env, schema, check, t) && match t {
            Err(e) => r == t,
            Ok(typed) => match typed.data {
                None => r matches Err(EvaluationError::NotWellTyped { errs }) && errs@.len() == 0,
                Some(Type::Bool(_)) => if typed.tree().fits(MAX_NESTING as nat) {
                    r == t
                } else {
                    r matches Err(EvaluationError::RecursionLimit)
                },
                Some(ty) => r matches Err(EvaluationError::NotBoolean { ty: x }) && x == ty,
            },
        }
}

/// Typechecks the expression to evaluate.
fn target<T: Typecheckable, K: Fn(&Policy, &RequestEnv) -> Checked>(
    expr: &T,
    env: &RequestEnv,
    schema: &Schema,
    check: &K,
) -> (r: Result<Arc<Expr<Option<Type>>>, EvaluationError>)
    requires
        forall|p: Policy, e: RequestEnv| call_requires(check, (&p, &e)),
    ensures
        target_gives(expr, env, schema, check, r),
{
    let t = typecheck(expr, env, schema, check);
    assert(crate::evaluator::compile::typecheck_gives(expr, env, schema, check, t));
    let typed = match t {
        Ok(t) => t,
        Err(e) => return Err(e),
    };
    match require_boolean(&typed) {
        Ok(_) => {},
        Err(e) => return Err(e),
    }
    if !fits(&typed, MAX_NESTING) {
        return Err(EvaluationError::RecursionLimit);
    }
    Ok(typed)
}

/// Whether `expr` can be an assumption in `env`: it must be well typed and
/// boolean.
pub open spec fn assumption_gives<K: Fn(&Policy, &RequestEnv) -> Checked>(
    expr: &Expr<()>,
    env: &RequestEnv,
    schema: &Schema,
    check: &K,
    r: Result<(), EvaluationError>,
) -> bool {
    exists|t: Result<Arc<Expr<Option<Type>>>, EvaluationError>| #[trigger]
        crate::evaluator::compile::typecheck_gives(expr, env, schema, check, t) && match t {
            Err(e) => r matches Err(x) && crate::evaluator::compile::as_assumption_error(e, *env, x),
            Ok(typed) => match typed.data {
                None => r matches Err(EvaluationError::NotWellTyped { errs }) && errs@.len() == 0,
                Some(Type::Bool(_)) => r is Ok,
                Some(ty) => r matches Err(EvaluationError::NotBoolean { ty: x }) && x == ty,
            },
        }
}

/// `root` is the nodes of `typed`, with the guards that are kept marked.
pub open spec fn is_root(
    root: crate::evaluator::node::NTree,
    typed: Expr<Option<Type>>,
    s: Sym,
) -> bool {
    &&& typed.nodes(s) is Ok
    &&& exists|kept: Seq<Tree>|
        root == #[trigger] typed.nodes(s)->Ok_0.marked(kept) && forall|g: Tree| #[trigger]
            kept.contains(g) <==> s.keeps(typed.tree(), g)
}

/// The nodes of `typed`, with the guards that are kept marked.
fn marked_nodes<C: Fn(&Expr<()>) -> Result<Compiled, String>>(
    typed: &Arc<Expr<Option<Type>>>,
    sym: &SymEnv<C>,
    footprint: &mut Vec<Term>,
) -> (r: Result<Node, EvaluationError>)
    requires
        sym.callable(),
    ensures
        forall|s: Sym| #[trigger]
            sym.computes(s) ==> {
                &&& final(footprint)@.to_set() == old(footprint)@.to_set() + typed.touched(s)
                &&& match r {
                    Ok(n) => is_root(n@, **typed, s),
                    Err(e) => typed.nodes(s) matches Err(b) && b.reported_as(e),
                }
            },
{
    let root = match build_tree(typed, sym, footprint) {
        Ok(n) => n,
        Err(e) => return Err(e),
    };
    let kept = sym.kept_guards(typed);
    let ghost n = root@;
    let ghost ks = crate::ast::trees(kept@);
    let r = mark_kept(root, &kept);
    proof {
        assert forall|s: Sym| #[trigger] sym.computes(s) implies is_root(r@, **typed, s) by {
            assert(r@ == n.marked(ks));
            assert forall|g: Tree| #[trigger] ks.contains(g) <==> s.keeps(
                typed.tree(),
                g,
            ) by {
                assert(sym.computes(s));
            }
        }
    }
    Ok(r)
}

/// The expressions are assumed to be true, one after the other, from `states[0]`
/// on.
pub open spec fn extras_give<
    K: Fn(&Policy, &RequestEnv) -> Checked,
    C: Fn(&Expr<()>) -> Result<Compiled, String>,
    P: Fn(&PolicySet, &RequestEnv) -> Result<CompiledSet, PolicyError>,
    I: Fn(&EntityUid) -> EntityInfo,
>(
    backend: &Backend<K, C, P, I>,
    extras: Seq<Expr<()>>,
    states: Seq<Terms>,
    env: RequestEnv,
    schema: Schema,
    s: Sym,
) -> bool {
    &&& 1 <= states.len() <= extras.len() + 1
    &&& forall|k: int|
        1 <= k < states.len() ==> backend.expr_outcomes_gives(
            extras[k - 1],
            set![EvaluationOutcome::True],
            env,
            schema,
            s,
            states[k - 1],
            Ok(()),
            #[trigger] states[k],
        )
}

/// An evaluation that is ready to run.
#[derive(Debug)]
pub struct Prepared {
    /// The expression, typed and without its types.
    pub erased: Expr<()>,
    /// Its nodes.
    pub root: Node,
    /// What every query starts with: assumptions, extra assumptions and
    /// enforcement constraints.
    pub base: Vec<Term>,
}

/// The asserts that every query starts with: those of `start`, those of the
/// extra assumptions, and what `enforce` gives for everything they mention;
/// then, if `closed`, what the assumptions say more where no entity is missing.
pub open spec fn closes_with<
    K: Fn(&Policy, &RequestEnv) -> Checked,
    C: Fn(&Expr<()>) -> Result<Compiled, String>,
    P: Fn(&PolicySet, &RequestEnv) -> Result<CompiledSet, PolicyError>,
    I: Fn(&EntityUid) -> EntityInfo,
    F: Fn(&Vec<Term>) -> Vec<Term>,
>(
    backend: &Backend<K, C, P, I>,
    enforce: &F,
    extras: Seq<Expr<()>>,
    start: Terms,
    env: RequestEnv,
    schema: Schema,
    closed: bool,
    base: Seq<Term>,
) -> bool {
    exists|states: Seq<Terms>, fp: Vec<Term>, added: Vec<Term>| #[trigger]
        call_ensures(enforce, (&fp,), added) && states.len() == extras.len() + 1 && states[0]
            == start && #[trigger] states.last().footprint == fp@.to_set() && base == states.last().asserts
            + added@ + (if closed {
            states.last().closed
        } else {
            seq![]
        }) && forall|s: Sym| #[trigger]
            backend.sym.computes(s) ==> extras_give(backend, extras, states, env, schema, s)
}

/// The terms of `state`, and what the nodes of `typed` mention.
pub open spec fn touching(state: Terms, typed: Expr<Option<Type>>, s: Sym) -> Terms {
    Terms { footprint: state.footprint + typed.touched(s), ..state }
}

impl Prepared {
    /// The evaluation of `typed` in a request environment whose assumptions
    /// come to `state`, with the extra assumptions `extras`; `enforce` gives
    /// the constraints that keep the store a hierarchy.
    pub open spec fn is_for<
        K: Fn(&Policy, &RequestEnv) -> Checked,
        C: Fn(&Expr<()>) -> Result<Compiled, String>,
        P: Fn(&PolicySet, &RequestEnv) -> Result<CompiledSet, PolicyError>,
        I: Fn(&EntityUid) -> EntityInfo,
        F: Fn(&Vec<Term>) -> Vec<Term>,
    >(
        &self,
        typed: Expr<Option<Type>>,
        state: Terms,
        extras: Seq<Expr<()>>,
        env: RequestEnv,
        schema: Schema,
        backend: &Backend<K, C, P, I>,
        enforce: &F,
    ) -> bool {
        &&& self.erased.tree() == typed.tree()
        &&& exists|start: Terms| #[trigger]
            closes_with(backend, enforce, extras, start, env, schema, false, self.base@) && forall|s: Sym|
             #[trigger]
                backend.sym.computes(s) ==> is_root(self.root@, typed, s) && start == touching(
                    state,
                    typed,
                    s,
                )
    }
}

impl EnvState {
    /// A copy.
    pub fn copy(&self) -> (r: Self)
        ensures
            r.asserts@ == self.asserts@,
            r.closed@ == self.closed@,
            r.footprint@ == self.footprint@,
            r.compiled_upto == self.compiled_upto,
    {
        EnvState {
            asserts: copy_of(&self.asserts),
            closed: copy_of(&self.closed),
            footprint: copy_of(&self.footprint),
            compiled_upto: self.compiled_upto,
        }
    }

    /// Assumes that each of `extras` is true.
    fn assume_extras<
        K: Fn(&Policy, &RequestEnv) -> Checked,
        C: Fn(&Expr<()>) -> Result<Compiled, String>,
        P: Fn(&PolicySet, &RequestEnv) -> Result<CompiledSet, PolicyError>,
        I: Fn(&EntityUid) -> EntityInfo,
    >(
        &mut self,
        extras: &Vec<Expr<()>>,
        env: &RequestEnv,
        schema: &Schema,
        backend: &Backend<K, C, P, I>,
    ) -> (r: Result<(), EvaluationError>)
        requires
            backend.callable(),
        ensures
            match r {
                Ok(_) => exists|states: Seq<Terms>|
                    states.len() == extras@.len() + 1 && states[0] == old(self)@
                        && #[trigger] states.last() == final(self)@ && forall|s: Sym| #[trigger]
                        backend.sym.computes(s) ==> extras_give(
                            backend,
                            extras@,
                            states,
                            *env,
                            *schema,
                            s,
                        ),
                Err(e) => exists|states: Seq<Terms>| #[trigger]
                    extra_fails(backend, extras@, states, *env, *schema, e) && states[0] == old(
                        self,
                    )@,
            },
    {
        let ghost mut states: Seq<Terms> = seq![self@];
        let outcomes = Outcomes::of(EvaluationOutcome::True);
        let mut i: usize = 0;
        while i < extras.len()
            invariant
                i <= extras@.len(),
                backend.callable(),
                outcomes@ == set![EvaluationOutcome::True],
                states.len() == i + 1,
                states[0] == old(self)@,
                states.last() == self@,
                forall|s: Sym| #[trigger]
                    backend.sym.computes(s) ==> extras_give(
                        backend,
                        extras@,
                        states,
                        *env,
                        *schema,
                        s,
                    ),
            decreases extras@.len() - i,
        {
            let ghost before = states;
            match self.assume_expr(&extras[i], &outcomes, env, schema, backend) {
                Ok(_) => {},
                Err(e) => {
                    proof {
                        assert forall|s: Sym| #[trigger] backend.sym.computes(s) implies exists|
                            after: Terms,
                        | #[trigger]
                            backend.expr_outcomes_gives(
                                extras@[states.len() - 1],
                                set![EvaluationOutcome::True],
                                *env,
                                *schema,
                                s,
                                states.last(),
                                Err(e),
                                after,
                            ) by {
                            assert(backend.expr_outcomes_gives(
                                extras@[states.len() - 1],
                                set![EvaluationOutcome::True],
                                *env,
                                *schema,
                                s,
                                states.last(),
                                Err(e),
                                self@,
                            ));
                        }
                        assert(extra_fails(backend, extras@, states, *env, *schema, e));
                    }
                    return Err(e);
                },
            }
            proof {
                states = states.push(self@);
                assert forall|s: Sym| #[trigger] backend.sym.computes(s) implies extras_give(
                    backend,
                    extras@,
                    states,
                    *env,
                    *schema,
                    s,
                ) by {
                    assert(extras_give(backend, extras@, before, *env, *schema, s));
                    assert forall|k: int| 1 <= k < states.len() implies backend.expr_outcomes_gives(
                        extras@[k - 1],
                        set![EvaluationOutcome::True],
                        *env,
                        *schema,
                        s,
                        states[k - 1],
                        Ok(()),
                        #[trigger] states[k],
                    ) by {
                        if k < before.len() {
                            assert(states[k] == before[k]);
                            assert(states[k - 1] == before[k - 1]);
                        } else {
                            assert(states[k - 1] == before.last());
                        }
                    }
                }
            }
            i += 1;
        }
        Ok(())
    }
}

impl EnvState {
    /// Assumes that each of `extras` is true and adds the constraints that
    /// `enforce` gives. `closed` says that no entity is missing.
    fn close<
        K: Fn(&Policy, &RequestEnv) -> Checked,
        C: Fn(&Expr<()>) -> Result<Compiled, String>,
        P: Fn(&PolicySet, &RequestEnv) -> Result<CompiledSet, PolicyError>,
        I: Fn(&EntityUid) -> EntityInfo,
        F: Fn(&Vec<Term>) -> Vec<Term>,
    >(
        self,
        extras: &Vec<Expr<()>>,
        env: &RequestEnv,
        schema: &Schema,
        backend: &Backend<K, C, P, I>,
        enforce: &F,
        closed: bool,
    ) -> (r: Result<Vec<Term>, EvaluationError>)
        requires
            backend.callable(),
            forall|ts: Vec<Term>| call_requires(enforce, (&ts,)),
        ensures
            match r {
                Ok(base) => closes_with(
                    backend,
                    enforce,
                    extras@,
                    self@,
                    *env,
                    *schema,
                    closed,
                    base@,
                ),
                Err(e) => exists|states: Seq<Terms>| #[trigger]
                    extra_fails(backend, extras@, states, *env, *schema, e) && states[0] == self@,
            },
    {
        let ghost start = self@;
        let mut scratch = self;
        match scratch.assume_extras(extras, env, schema, backend) {
            Ok(_) => {},
            Err(e) => return Err(e),
        }
        let added = enforce(&scratch.footprint);
        let mut base = copy_of(&scratch.asserts);
        crate::evaluator::node::copy_into(&added, &mut base);
        if closed {
            crate::evaluator::node::copy_into(&scratch.closed, &mut base);
        }
        proof {
            let states = choose|states: Seq<Terms>|
                states.len() == extras@.len() + 1 && states[0] == start && #[trigger] states.last()
                    == scratch@ && forall|s: Sym| #[trigger]
                    backend.sym.computes(s) ==> extras_give(
                        backend,
                        extras@,
                        states,
                        *env,
                        *schema,
                        s,
                    );
            assert(call_ensures(enforce, (&scratch.footprint,), added));
            assert(states.last().footprint == scratch.footprint@.to_set());
            assert(base@ =~= states.last().asserts + added@ + (if closed {
                states.last().closed
            } else {
                seq![]
            }));
        }
        Ok(base)
    }
}

/// The symbolic evaluator. Bound to a schema; assumptions are registered with
/// the `assume_*` methods and apply to every subsequent evaluation, in every
/// request environment.
#[derive(Debug)]
pub struct Evaluator {
    schema: Arc<Schema>,
    assumptions: Vec<Assumption>,
    envs: EnvTable<EnvState>,
    solver_queries: usize,
    recording: bool,
    trace: Option<EvaluationTrace>,
}

impl Evaluator {
    /// The schema.
    pub closed spec fn schema_spec(&self) -> Arc<Schema> {
        self.schema
    }

    /// The registered assumptions, in order.
    pub closed spec fn registered(&self) -> Seq<Assumption> {
        self.assumptions@
    }

    /// What has been compiled, environment by environment.
    pub closed spec fn compiled(&self) -> Map<
        (Seq<char>, (Seq<char>, Seq<char>), Seq<char>),
        EnvState,
    > {
        self.envs@
    }

    /// The number of solver queries issued.
    pub closed spec fn queries_spec(&self) -> usize {
        self.solver_queries
    }

    /// Whether traces are recorded.
    pub closed spec fn records(&self) -> bool {
        self.recording
    }

    /// The trace that was recorded.
    pub closed spec fn trace_spec(&self) -> Option<EvaluationTrace> {
        self.trace
    }

    /// No more assumptions have been compiled than there are.
    pub open spec fn wf(&self) -> bool {
        forall|k: (Seq<char>, (Seq<char>, Seq<char>), Seq<char>)| #[trigger]
            self.compiled().contains_key(k) ==> self.compiled()[k].compiled_upto
                <= self.registered().len()
    }

    /// What has been compiled for `env`, or nothing.
    pub open spec fn terms_in(&self, env: RequestEnv) -> Terms {
        if self.compiled().contains_key(env@) {
            self.compiled()[env@]@
        } else {
            Terms { asserts: seq![], closed: seq![], footprint: Set::empty() }
        }
    }

    /// How many assumptions have been compiled for `env`.
    pub open spec fn upto_in(&self, env: RequestEnv) -> int {
        if self.compiled().contains_key(env@) {
            self.compiled()[env@].compiled_upto as int
        } else {
            0
        }
    }

    /// Constructs an evaluator for `schema`.
    pub fn new(schema: Arc<Schema>) -> (r: Self)
        ensures
            r.wf(),
            r.schema_spec() == schema,
            r.registered() == Seq::<Assumption>::empty(),
            r.compiled() == Map::<
                (Seq<char>, (Seq<char>, Seq<char>), Seq<char>),
                EnvState,
            >::empty(),
            r.queries_spec() == 0,
            !r.records(),
            r.trace_spec() is None,
    {
        let assumptions: Vec<Assumption> = Vec::new();
        assert(assumptions@ =~= Seq::<Assumption>::empty());
        Evaluator {
            schema,
            assumptions,
            envs: EnvTable::new(),
            solver_queries: 0,
            recording: false,
            trace: None,
        }
    }

    /// The schema the evaluator is bound to.
    pub fn schema(&self) -> (r: &Arc<Schema>)
        ensures
            *r == self.schema_spec(),
    {
        &self.schema
    }

    /// Number of solver queries issued so far (queries that never reached the
    /// solver are not counted).
    pub fn solver_queries(&self) -> (r: usize)
        ensures
            r == self.queries_spec(),
    {
        self.solver_queries
    }

    /// Starts or stops recording a trace.
    pub fn record_trace(&mut self, on: bool)
        ensures
            final(self).same_but_trace(old(self)),
            final(self).queries_spec() == old(self).queries_spec(),
            final(self).records() == on,
            final(self).trace_spec() == if on {
                old(self).trace_spec()
            } else {
                None
            },
    {
        self.recording = on;
        if !on {
            self.trace = None;
        }
    }

    /// Takes the trace recorded since the last evaluation.
    pub fn take_trace(&mut self) -> (r: Option<EvaluationTrace>)
        ensures
            r == old(self).trace_spec(),
            final(self).trace_spec() is None,
            final(self).same_but_trace(old(self)),
            final(self).queries_spec() == old(self).queries_spec(),
            final(self).records() == old(self).records(),
    {
        self.trace.take()
    }

    /// The schema, the assumptions and what they compiled to are the same.
    pub open spec fn same_but_trace(&self, other: &Evaluator) -> bool {
        &&& self.schema_spec() == other.schema_spec()
        &&& self.registered() == other.registered()
        &&& self.compiled() == other.compiled()
    }

    /// One assumption more.
    pub open spec fn plus(&self, a: Assumption, new: &Evaluator) -> bool {
        &&& new.schema_spec() == self.schema_spec()
        &&& new.registered() == self.registered().push(a)
        &&& new.compiled() == self.compiled()
        &&& new.queries_spec() == self.queries_spec()
        &&& new.records() == self.records()
        &&& new.trace_spec() == self.trace_spec()
        &&& self.wf() ==> new.wf()
    }

    /// Registers an assumption.
    fn register(&mut self, a: Assumption)
        ensures
            old(self).plus(a, final(self)),
    {
        self.assumptions.push(a);
        assert(self.compiled() == old(self).compiled());
    }

    /// Assumes that `expr` evaluates to `true`.
    pub fn assume_expr(&mut self, expr: Expr<()>)
        ensures
            final(self).registered().len() == old(self).registered().len() + 1,
            old(self).plus(final(self).registered().last(), final(self)),
            final(self).registered().last() matches Assumption::ExprOutcomes(e, o) && *e == expr
                && o@ == set![EvaluationOutcome::True],
    {
        self.assume_expr_outcomes(expr, Outcomes::of(EvaluationOutcome::True));
    }

    /// Assumes that `expr` evaluates to one of `outcomes`.
    pub fn assume_expr_outcomes(&mut self, expr: Expr<()>, outcomes: Outcomes)
        ensures
            old(self).plus(
                Assumption::ExprOutcomes(Arc::new(expr), outcomes),
                final(self),
            ),
    {
        self.register(Assumption::ExprOutcomes(Arc::new(expr), outcomes));
    }

    /// Assumes that authorizing with `policies` yields `decision`.
    pub fn assume_policyset_decision(&mut self, policies: PolicySet, decision: Decision)
        ensures
            old(self).plus(
                Assumption::PolicySetDecision(Arc::new(policies), decision),
                final(self),
            ),
    {
        self.register(Assumption::PolicySetDecision(Arc::new(policies), decision));
    }

    /// Assumes that the entity store agrees with `entities` on every entity in
    /// it, each where the partial entity provides something. Entities not in
    /// `entities` stay unconstrained.
    pub fn assume_partial_entities(&mut self, entities: Vec<PartialEntity>)
        ensures
            old(self).plus(Assumption::Entities(Arc::new(entities)), final(self)),
    {
        self.register(Assumption::Entities(Arc::new(entities)));
    }

    /// Assumes that the entity store contains exactly the data in `entities`
    /// for the entities in it; fails if they do not validate against the
    /// schema.
    pub fn assume_entities(&mut self, entities: Result<Vec<PartialEntity>, String>) -> (r: Result<
        (),
        EvaluationError,
    >)
        ensures
            match entities {
                Ok(es) => r is Ok && old(self).plus(
                    Assumption::Entities(Arc::new(es)),
                    final(self),
                ),
                Err(m) => r == Err::<(), EvaluationError>(EvaluationError::InvalidEntities(m))
                    && *final(self) == *old(self),
            },
    {
        match entities {
            Ok(es) => {
                self.assume_partial_entities(es);
                Ok(())
            },
            Err(m) => Err(EvaluationError::InvalidEntities(m)),
        }
    }

    /// Assumes that the request agrees with `request` on the parts it
    /// provides. In a request environment in which the request cannot occur,
    /// the assumption is `false`.
    pub fn assume_partial_request(&mut self, request: PartialRequest)
        ensures
            old(self).plus(Assumption::Request(Arc::new(request)), final(self)),
    {
        self.register(Assumption::Request(Arc::new(request)));
    }

    /// Assumes that the request is exactly `request`, which must be concrete
    /// and fit the schema.
    pub fn assume_request(&mut self, request: &Request) -> (r: Result<(), EvaluationError>)
        ensures
            match request.known(*old(self).schema_spec()) {
                Ok(p) => r is Ok && old(self).plus(
                    Assumption::Request(Arc::new(p)),
                    final(self),
                ),
                Err(m) => *final(self) == *old(self) && (
                r matches Err(EvaluationError::InvalidRequest(x)) && x@ == m),
            },
    {
        match request.to_partial(&self.schema) {
            Ok(p) => {
                self.assume_partial_request(p);
                Ok(())
            },
            Err(e) => Err(e),
        }
    }

    /// Checks that `expr` can be an assumption in `env`: well typed and
    /// boolean.
    pub fn typecheck_assumption<K: Fn(&Policy, &RequestEnv) -> Checked>(
        &self,
        expr: &Expr<()>,
        env: &RequestEnv,
        check: &K,
    ) -> (r: Result<(), EvaluationError>)
        requires
            forall|p: Policy, e: RequestEnv| call_requires(check, (&p, &e)),
        ensures
            assumption_gives(expr, env, &self.schema_spec(), check, r),
    {
        let t = typecheck(expr, env, &self.schema, check);
        assert(crate::evaluator::compile::typecheck_gives(
            expr,
            env,
            &self.schema_spec(),
            check,
            t,
        ));
        match t {
            Ok(typed) => require_boolean(&typed),
            Err(e) => Err(assumption_error(e, env)),
        }
    }
}

impl Evaluator {
    /// Only what is compiled for `env` differs.
    pub open spec fn differs_in(&self, new: &Evaluator, env: RequestEnv) -> bool {
        &&& new.schema_spec() == self.schema_spec()
        &&& new.registered() == self.registered()
        &&& new.queries_spec() == self.queries_spec()
        &&& new.records() == self.records()
        &&& new.trace_spec() == self.trace_spec()
        &&& new.wf()
        &&& forall|k: (Seq<char>, (Seq<char>, Seq<char>), Seq<char>)|
            k != env@ ==> (#[trigger] new.compiled().contains_key(k)
                == self.compiled().contains_key(k)) && (new.compiled().contains_key(k)
                ==> new.compiled()[k] == self.compiled()[k])
    }

    /// Makes sure that every registered assumption has been compiled for
    /// `env`, whose compilers are `backend`.
    pub fn prepare_env<
        K: Fn(&Policy, &RequestEnv) -> Checked,
        C: Fn(&Expr<()>) -> Result<Compiled, String>,
        P: Fn(&PolicySet, &RequestEnv) -> Result<CompiledSet, PolicyError>,
        I: Fn(&EntityUid) -> EntityInfo,
    >(&mut self, env: &RequestEnv, backend: &Backend<K, C, P, I>) -> (r: Result<
        (),
        EvaluationError,
    >)
        requires
            old(self).wf(),
            backend.callable(),
        ensures
            old(self).differs_in(final(self), *env),
            if !old(self).compiled().contains_key(env@) && !crate::types::env_views(
                old(self).schema_spec().envs(),
            ).contains(env@) {
                r matches Err(EvaluationError::RequestEnvNotFound(e)) && e@ == env@
                    && final(self).compiled() == old(self).compiled()
            } else {
                final(self).compiled().contains_key(env@) && backend.catches_up(
                    old(self).registered(),
                    old(self).upto_in(*env),
                    *env,
                    *old(self).schema_spec(),
                    old(self).terms_in(*env),
                    r,
                    final(self).compiled()[env@],
                )
            },
    {
        let mut state = match self.envs.get(env) {
            Some(st) => {
                let st = st.copy();
                assert(st@ =~= self.terms_in(*env));
                st
            },
            None => {
                if !self.schema.has_env(env) {
                    return Err(EvaluationError::RequestEnvNotFound(env.dup()));
                }
                EnvState::new()
            },
        };
        let r = state.catch_up(&self.assumptions, env, &self.schema, backend);
        let ghost end = state;
        self.envs.put(env, state);
        assert(self.compiled() == old(self).compiled().insert(env@, end));
        r
    }

    /// What every query about `expr` in `env` starts from: its typed form, its
    /// nodes, and the compiled assumptions with what the nodes mention.
    fn begin<
        T: Typecheckable,
        K: Fn(&Policy, &RequestEnv) -> Checked,
        C: Fn(&Expr<()>) -> Result<Compiled, String>,
        P: Fn(&PolicySet, &RequestEnv) -> Result<CompiledSet, PolicyError>,
        I: Fn(&EntityUid) -> EntityInfo,
    >(&mut self, expr: &T, env: &RequestEnv, backend: &Backend<K, C, P, I>) -> (r: Result<
        (Arc<Expr<Option<Type>>>, Node, EnvState),
        EvaluationError,
    >)
        requires
            old(self).wf(),
            backend.callable(),
        ensures
            old(self).differs_in(final(self), *env),
            match r {
                Ok((typed, root, start)) => {
                    &&& final(self).upto_in(*env) == old(self).registered().len()
                    &&& target_gives(
                        expr,
                        env,
                        &old(self).schema_spec(),
                        &backend.check,
                        Ok(typed),
                    )
                    &&& forall|s: Sym| #[trigger]
                        backend.sym.computes(s) ==> is_root(root@, *typed, s) && start@
                            == touching(final(self).terms_in(*env), *typed, s)
                },
                Err(e) => start_fails(old(self), final(self), expr, *env, backend, e),
            },
    {
        match self.prepare_env(env, backend) {
            Ok(_) => {},
            Err(e) => return Err(e),
        }
        let t = target(expr, env, &self.schema, &backend.check);
        assert(target_gives(expr, env, &self.schema_spec(), &backend.check, t));
        let typed = match t {
            Ok(t) => t,
            Err(e) => return Err(e),
        };
        let mut start = match self.envs.get(env) {
            Some(st) => st.copy(),
            None => return Err(EvaluationError::Internal("request env not prepared")),
        };
        assert(start@ =~= self.terms_in(*env));
        let root = match marked_nodes(&typed, &backend.sym, &mut start.footprint) {
            Ok(n) => n,
            Err(e) => return Err(e),
        };
        proof {
            assert forall|s: Sym| #[trigger] backend.sym.computes(s) implies start@ == touching(
                self.terms_in(*env),
                *typed,
                s,
            ) by {
                assert(start@ =~= touching(self.terms_in(*env), *typed, s));
            }
        }
        Ok((typed, root, start))
    }

    /// Prepares the evaluation of `expr` in `env` under the registered
    /// assumptions and `extras` (each assumed to be `true`, for this
    /// evaluation only). `backend` holds the compilers for `env`, and
    /// `enforce` gives the constraints that keep the store a hierarchy for the
    /// entities it is given.
    pub fn prepare<
        T: Typecheckable,
        K: Fn(&Policy, &RequestEnv) -> Checked,
        C: Fn(&Expr<()>) -> Result<Compiled, String>,
        P: Fn(&PolicySet, &RequestEnv) -> Result<CompiledSet, PolicyError>,
        I: Fn(&EntityUid) -> EntityInfo,
        F: Fn(&Vec<Term>) -> Vec<Term>,
    >(
        &mut self,
        expr: &T,
        env: &RequestEnv,
        extras: &Vec<Expr<()>>,
        backend: &Backend<K, C, P, I>,
        enforce: &F,
    ) -> (r: Result<Prepared, EvaluationError>)
        requires
            old(self).wf(),
            backend.callable(),
            forall|ts: Vec<Term>| call_requires(enforce, (&ts,)),
        ensures
            final(self).wf(),
            final(self).registered() == old(self).registered(),
            final(self).schema_spec() == old(self).schema_spec(),
            final(self).queries_spec() == old(self).queries_spec(),
            final(self).records() == old(self).records(),
            r matches Ok(p) ==> {
                &&& final(self).upto_in(*env) == old(self).registered().len()
                &&& exists|typed: Arc<Expr<Option<Type>>>| #[trigger]
                    target_gives(expr, env, &old(self).schema_spec(), &backend.check, Ok(typed))
                        && p.is_for(
                        *typed,
                        final(self).terms_in(*env),
                        extras@,
                        *env,
                        *old(self).schema_spec(),
                        backend,
                        enforce,
                    )
            },
            r is Ok && old(self).records() ==> (final(self).trace_spec() matches Some(t)
                && t.erased.tree() == r->Ok_0.erased.tree() && t.base@ == r->Ok_0.base@
                && t.ce_base is None && t.queries@.len() == 0),
            !(r is Ok && old(self).records()) ==> final(self).trace_spec() == old(
                self,
            ).trace_spec(),
            r is Err ==> prepare_fails(
                old(self),
                final(self),
                expr,
                *env,
                extras@,
                backend,
                r->Err_0,
            ),
    {
        let (typed, root, start) = match self.begin(expr, env, backend) {
            Ok(x) => x,
            Err(e) => return Err(e),
        };
        let ghost terms = start@;
        let base = match start.close(extras, env, &self.schema, backend, enforce, false) {
            Ok(b) => b,
            Err(e) => {
                proof {
                    let states = choose|states: Seq<Terms>| #[trigger]
                        extra_fails(backend, extras@, states, *env, *self.schema_spec(), e)
                            && states[0] == terms;
                    assert(extra_fails(backend, extras@, states, *env, *self.schema_spec(), e));
                    assert(target_gives(
                        expr,
                        env,
                        &self.schema_spec(),
                        &backend.check,
                        Ok(typed),
                    ));
                }
                return Err(e);
            },
        };
        let p = Prepared { erased: erase(&typed), root, base };
        assert(p.is_for(
            *typed,
            self.terms_in(*env),
            extras@,
            *env,
            *self.schema_spec(),
            backend,
            enforce,
        )) by {
            assert(closes_with(
                backend,
                enforce,
                extras@,
                terms,
                *env,
                *self.schema_spec(),
                false,
                p.base@,
            ));
        }
        if self.recording {
            self.trace = Some(
                EvaluationTrace {
                    erased: erase(&p.erased),
                    base: copy_of(&p.base),
                    ce_base: None,
                    queries: Vec::new(),
                },
            );
        }
        Ok(p)
    }

    /// The asserts of the query whether the evaluated expression `result` and
    /// `expr` differ on some input in `env` under the registered assumptions
    /// and `extras`. The terms of the two know of no missing entity, so what
    /// the assumptions say more where none is missing is asserted too:
    /// unsatisfiable asserts mean that the two are equivalent on every such
    /// input in whose store nothing is missing that they look up
    /// ([`Setting::law_difference_decides`](crate::evaluator::laws::Setting)).
    ///
    /// `result` is compiled as is, without typechecking it again: a folded
    /// `principal has foo` may have left a `principal.foo` behind that only
    /// typechecks with what the `has` provided.
    pub fn difference<
        T: Typecheckable,
        K: Fn(&Policy, &RequestEnv) -> Checked,
        C: Fn(&Expr<()>) -> Result<Compiled, String>,
        P: Fn(&PolicySet, &RequestEnv) -> Result<CompiledSet, PolicyError>,
        I: Fn(&EntityUid) -> EntityInfo,
        F: Fn(&Vec<Term>) -> Vec<Term>,
    >(
        &mut self,
        expr: &T,
        result: &Expr<EvaluationMetadata>,
        env: &RequestEnv,
        extras: &Vec<Expr<()>>,
        backend: &Backend<K, C, P, I>,
        enforce: &F,
    ) -> (r: Result<Vec<Term>, EvaluationError>)
        requires
            old(self).wf(),
            backend.callable(),
            forall|ts: Vec<Term>| call_requires(enforce, (&ts,)),
        ensures
            final(self).wf(),
            final(self).registered() == old(self).registered(),
            final(self).schema_spec() == old(self).schema_spec(),
            final(self).queries_spec() == old(self).queries_spec(),
            final(self).records() == old(self).records(),
            match r {
                Ok(asserts) => difference_is(
                    old(self),
                    final(self),
                    expr,
                    result.tree(),
                    *env,
                    extras@,
                    backend,
                    enforce,
                    asserts@,
                ),
                Err(e) => difference_fails(
                    old(self),
                    final(self),
                    expr,
                    result.tree(),
                    *env,
                    extras@,
                    backend,
                    e,
                ),
            },
            match old(self).trace_spec() {
                Some(t) => if r is Ok && old(self).records() {
                    final(self).trace_spec() matches Some(u) && u.erased == t.erased && u.base
                        == t.base && u.queries == t.queries && (u.ce_base matches Some(b) && b@
                        == r->Ok_0@.drop_last())
                } else {
                    final(self).trace_spec() == old(self).trace_spec()
                },
                None => final(self).trace_spec() is None,
            },
    {
        let (typed, root, start) = match self.begin(expr, env, backend) {
            Ok(x) => x,
            Err(e) => return Err(e),
        };
        let mut start = start;
        let ghost before = start@;
        let c = match backend.sym.compiled(result) {
            Ok(c) => c,
            Err(m) => {
                proof {
                    assert(target_gives(
                        expr,
                        env,
                        &self.schema_spec(),
                        &backend.check,
                        Ok(typed),
                    ));
                }
                return Err(EvaluationError::SymCC(m));
            },
        };
        extend_terms(&c.footprint, &mut start.footprint);
        let ghost terms = start@;
        assert(terms =~= Terms {
            footprint: before.footprint + c.footprint@.to_set(),
            ..before
        });
        let base = match start.close(extras, env, &self.schema, backend, enforce, true) {
            Ok(b) => b,
            Err(e) => {
                proof {
                    let states = choose|states: Seq<Terms>| #[trigger]
                        extra_fails(backend, extras@, states, *env, *self.schema_spec(), e)
                            && states[0] == terms;
                    assert(extra_fails(backend, extras@, states, *env, *self.schema_spec(), e));
                    assert(target_gives(
                        expr,
                        env,
                        &self.schema_spec(),
                        &backend.check,
                        Ok(typed),
                    ));
                }
                return Err(e);
            },
        };
        if self.recording {
            if let Some(t) = self.trace.take() {
                self.trace = Some(
                    EvaluationTrace {
                        erased: t.erased,
                        base: t.base,
                        ce_base: Some(copy_of(&base)),
                        queries: t.queries,
                    },
                );
            }
        }
        let ghost all = base@;
        let mut asserts = base;
        asserts.push(
            Term::Not(Arc::new(Term::Eq(Arc::new(root.term.dup()), Arc::new(c.term)))),
        );
        proof {
            assert(asserts@.drop_last() =~= all);
            assert(target_gives(expr, env, &self.schema_spec(), &backend.check, Ok(typed)));
            assert(closes_with(
                backend,
                enforce,
                extras@,
                terms,
                *env,
                *self.schema_spec(),
                true,
                asserts@.drop_last(),
            ));
            assert forall|s: Sym| #[trigger] backend.sym.computes(s) implies differ_in(
                *typed,
                result.tree(),
                self.terms_in(*env),
                s,
                terms,
                asserts@.last(),
            ) by {
                assert(is_root(root@, *typed, s));
            }
            assert(asks_for_difference(
                backend,
                *typed,
                result.tree(),
                self.terms_in(*env),
                terms,
                asserts@.last(),
            ));
            assert(difference_is(
                old(self),
                self,
                expr,
                result.tree(),
                *env,
                extras@,
                backend,
                enforce,
                asserts@,
            ));
        }
        Ok(asserts)
    }

    /// Records the queries of an evaluation: those that needed the solver are
    /// counted, and all are added to the trace.
    pub fn record(&mut self, queries: Vec<QueryRecord>)
        requires
            old(self).queries_spec() + queries@.len() <= usize::MAX,
        ensures
            final(self).same_but_trace(old(self)),
            final(self).records() == old(self).records(),
            final(self).queries_spec() == old(self).queries_spec() + asked(queries@),
            match old(self).trace_spec() {
                Some(t) => final(self).trace_spec() matches Some(u) && u.erased == t.erased
                    && u.base == t.base && u.ce_base == t.ce_base && u.queries@ == t.queries@
                    + queries@,
                None => final(self).trace_spec() is None,
            },
    {
        let mut n: usize = 0;
        let mut i: usize = 0;
        while i < queries.len()
            invariant
                i <= queries@.len(),
                n <= i,
                n == asked(queries@.take(i as int)),
            decreases queries@.len() - i,
        {
            assert(queries@.take(i + 1).drop_last() =~= queries@.take(i as int));
            if reaches_solver(&queries[i].asserts) {
                n += 1;
            }
            i += 1;
        }
        assert(queries@.take(i as int) =~= queries@);
        self.solver_queries = self.solver_queries + n;
        if let Some(t) = self.trace.take() {
            let EvaluationTrace { erased, base, ce_base, queries: old_queries } = t;
            let mut all = old_queries;
            let mut more = queries;
            all.append(&mut more);
            self.trace = Some(EvaluationTrace { erased, base, ce_base, queries: all });
        }
    }
}

impl Evaluator {
    /// Counts a query that the solver failed to answer, if it needed the
    /// solver. There is no answer to add to the trace.
    pub fn record_failed(&mut self, asserts: &Vec<Term>)
        requires
            old(self).queries_spec() < usize::MAX,
        ensures
            final(self).same_but_trace(old(self)),
            final(self).records() == old(self).records(),
            final(self).trace_spec() == old(self).trace_spec(),
            final(self).queries_spec() == old(self).queries_spec()
                + if crate::evaluator::term::undecided(asserts@) {
                1nat
            } else {
                0nat
            },
    {
        if reaches_solver(asserts) {
            self.solver_queries = self.solver_queries + 1;
        }
    }
}

/// How many of the queries needed the solver.
pub open spec fn asked(queries: Seq<QueryRecord>) -> nat
    decreases queries.len(),
{
    if queries.len() == 0 {
        0
    } else {
        asked(queries.drop_last()) + if crate::evaluator::term::undecided(
            queries.last().asserts@,
        ) {
            1nat
        } else {
            0nat
        }
    }
}

/// The extra assumption after those that come to `states` fails.
pub open spec fn extra_fails<
    K: Fn(&Policy, &RequestEnv) -> Checked,
    C: Fn(&Expr<()>) -> Result<Compiled, String>,
    P: Fn(&PolicySet, &RequestEnv) -> Result<CompiledSet, PolicyError>,
    I: Fn(&EntityUid) -> EntityInfo,
>(
    backend: &Backend<K, C, P, I>,
    extras: Seq<Expr<()>>,
    states: Seq<Terms>,
    env: RequestEnv,
    schema: Schema,
    e: EvaluationError,
) -> bool {
    &&& 1 <= states.len() <= extras.len()
    &&& forall|s: Sym| #[trigger]
        backend.sym.computes(s) ==> extras_give(backend, extras, states, env, schema, s)
            && exists|after: Terms| #[trigger]
            backend.expr_outcomes_gives(
                extras[states.len() - 1],
                set![EvaluationOutcome::True],
                env,
                schema,
                s,
                states.last(),
                Err(e),
                after,
            )
}

/// Why there is nothing to ask about an expression, what is found first: an
/// assumption does not compile, the expression is not a boolean that
/// typechecks, or its nodes do not compile.
pub open spec fn start_fails<
    T: Typecheckable,
    K: Fn(&Policy, &RequestEnv) -> Checked,
    C: Fn(&Expr<()>) -> Result<Compiled, String>,
    P: Fn(&PolicySet, &RequestEnv) -> Result<CompiledSet, PolicyError>,
    I: Fn(&EntityUid) -> EntityInfo,
>(
    before: &Evaluator,
    after: &Evaluator,
    expr: &T,
    env: RequestEnv,
    backend: &Backend<K, C, P, I>,
    e: EvaluationError,
) -> bool {
    let schema = *before.schema_spec();
    ||| e matches EvaluationError::RequestEnvNotFound(x) && x@ == env@ && !crate::types::env_views(
        schema.envs(),
    ).contains(env@)
    ||| after.compiled().contains_key(env@) && backend.catches_up(
        before.registered(),
        before.upto_in(env),
        env,
        schema,
        before.terms_in(env),
        Err(e),
        after.compiled()[env@],
    )
    ||| after.upto_in(env) == before.registered().len() && target_gives(
        expr,
        &env,
        &schema,
        &backend.check,
        Err(e),
    )
    ||| after.upto_in(env) == before.registered().len() && exists|
        typed: Arc<Expr<Option<Type>>>,
    | #[trigger]
        target_gives(expr, &env, &schema, &backend.check, Ok(typed)) && forall|s: Sym| #[trigger]
            backend.sym.computes(s) ==> (typed.nodes(s) matches Err(b) && b.reported_as(e))
}

/// Why an evaluation cannot be prepared, what is found first: there is nothing
/// to ask about the expression, or an extra assumption does not compile.
pub open spec fn prepare_fails<
    T: Typecheckable,
    K: Fn(&Policy, &RequestEnv) -> Checked,
    C: Fn(&Expr<()>) -> Result<Compiled, String>,
    P: Fn(&PolicySet, &RequestEnv) -> Result<CompiledSet, PolicyError>,
    I: Fn(&EntityUid) -> EntityInfo,
>(
    before: &Evaluator,
    after: &Evaluator,
    expr: &T,
    env: RequestEnv,
    extras: Seq<Expr<()>>,
    backend: &Backend<K, C, P, I>,
    e: EvaluationError,
) -> bool {
    let schema = *before.schema_spec();
    ||| start_fails(before, after, expr, env, backend, e)
    ||| after.upto_in(env) == before.registered().len() && exists|
        typed: Arc<Expr<Option<Type>>>,
        states: Seq<Terms>,
    | #[trigger]
        target_gives(expr, &env, &schema, &backend.check, Ok(typed)) && #[trigger]
        extra_fails(backend, extras, states, env, schema, e) && forall|s: Sym| #[trigger]
            backend.sym.computes(s) ==> typed.nodes(s) is Ok && states[0] == touching(
                after.terms_in(env),
                *typed,
                s,
            )
}

/// `start` adds what the nodes of `typed` and `result` mention to `state`, and
/// `query` is that the two differ.
pub open spec fn differ_in(
    typed: Expr<Option<Type>>,
    result: Tree,
    state: Terms,
    s: Sym,
    start: Terms,
    query: Term,
) -> bool {
    &&& typed.nodes(s) is Ok
    &&& (s.compile)(result) matches Ok(c) && start == with_footprint(
        touching(state, typed, s),
        c.footprint@,
    ) && query == Term::differ(typed.nodes(s)->Ok_0.term, c.term)
}

/// [`differ_in`], whatever the compiler computes.
pub open spec fn asks_for_difference<
    K: Fn(&Policy, &RequestEnv) -> Checked,
    C: Fn(&Expr<()>) -> Result<Compiled, String>,
    P: Fn(&PolicySet, &RequestEnv) -> Result<CompiledSet, PolicyError>,
    I: Fn(&EntityUid) -> EntityInfo,
>(
    backend: &Backend<K, C, P, I>,
    typed: Expr<Option<Type>>,
    result: Tree,
    state: Terms,
    start: Terms,
    query: Term,
) -> bool {
    forall|s: Sym| #[trigger]
        backend.sym.computes(s) ==> differ_in(typed, result, state, s, start, query)
}

/// The asserts of the query whether `expr` and `result` differ: what every
/// query about both starts with, and that they do.
pub open spec fn difference_is<
    T: Typecheckable,
    K: Fn(&Policy, &RequestEnv) -> Checked,
    C: Fn(&Expr<()>) -> Result<Compiled, String>,
    P: Fn(&PolicySet, &RequestEnv) -> Result<CompiledSet, PolicyError>,
    I: Fn(&EntityUid) -> EntityInfo,
    F: Fn(&Vec<Term>) -> Vec<Term>,
>(
    before: &Evaluator,
    after: &Evaluator,
    expr: &T,
    result: Tree,
    env: RequestEnv,
    extras: Seq<Expr<()>>,
    backend: &Backend<K, C, P, I>,
    enforce: &F,
    asserts: Seq<Term>,
) -> bool {
    let schema = *before.schema_spec();
    &&& after.upto_in(env) == before.registered().len()
    &&& asserts.len() > 0
    &&& exists|typed: Arc<Expr<Option<Type>>>, start: Terms| #[trigger]
        target_gives(expr, &env, &schema, &backend.check, Ok(typed)) && #[trigger]
        closes_with(backend, enforce, extras, start, env, schema, true, asserts.drop_last())
            && asks_for_difference(
            backend,
            *typed,
            result,
            after.terms_in(env),
            start,
            asserts.last(),
        )
}

/// More terms in the footprint.
pub open spec fn with_footprint(state: Terms, more: Seq<Term>) -> Terms {
    Terms { footprint: state.footprint + more.to_set(), ..state }
}

/// Why it cannot be asked whether two expressions differ, what is found first:
/// there is nothing to ask about the one, the other does not compile, or an
/// extra assumption does not.
pub open spec fn difference_fails<
    T: Typecheckable,
    K: Fn(&Policy, &RequestEnv) -> Checked,
    C: Fn(&Expr<()>) -> Result<Compiled, String>,
    P: Fn(&PolicySet, &RequestEnv) -> Result<CompiledSet, PolicyError>,
    I: Fn(&EntityUid) -> EntityInfo,
>(
    before: &Evaluator,
    after: &Evaluator,
    expr: &T,
    result: Tree,
    env: RequestEnv,
    extras: Seq<Expr<()>>,
    backend: &Backend<K, C, P, I>,
    e: EvaluationError,
) -> bool {
    let schema = *before.schema_spec();
    ||| start_fails(before, after, expr, env, backend, e)
    ||| after.upto_in(env) == before.registered().len() && exists|
        typed: Arc<Expr<Option<Type>>>,
    | #[trigger]
        target_gives(expr, &env, &schema, &backend.check, Ok(typed)) && forall|s: Sym| #[trigger]
            backend.sym.computes(s) ==> typed.nodes(s) is Ok && ((s.compile)(result) matches Err(m)
                && e == EvaluationError::SymCC(m))
    ||| after.upto_in(env) == before.registered().len() && exists|
        typed: Arc<Expr<Option<Type>>>,
        states: Seq<Terms>,
    | #[trigger]
        target_gives(expr, &env, &schema, &backend.check, Ok(typed)) && #[trigger]
        extra_fails(backend, extras, states, env, schema, e) && forall|s: Sym| #[trigger]
            backend.sym.computes(s) ==> typed.nodes(s) is Ok && ((s.compile)(result) matches Ok(c)
                && states[0] == with_footprint(
                touching(after.terms_in(env), *typed, s),
                c.footprint@,
            ))
}

} // verus!
