//! The assumptions of an evaluator, and what they compile to in each request
//! environment.

use std::sync::Arc;

use vstd::prelude::*;

use crate::ast::{Data, EntityUid, Expr};
use crate::evaluator::assumptions::{
    entity_asserts, request_asserts, AView, Asserted, EntityInfo, PartialEntity, PartialRequest,
    SymRequest,
};
use crate::evaluator::compile::{assumption_error, typecheck, Compiled, Existence, Sym, SymEnv};
use crate::evaluator::err::EvaluationError;
use crate::evaluator::node::{build_tree, copy_into, NTree, Node};
use crate::evaluator::term::{or, outcome_constraint, Term};
use crate::outcome::{EvaluationOutcome, Outcomes};
use crate::policy::{Decision, Effect, Policy, PolicySet};
use crate::slots::substitute_slots;
use crate::tree::Tree;
use crate::typechecked::Checked;
use crate::types::{RequestEnv, Schema, Type};

verus! {

/// An assumption, kept uncompiled because it has to be compiled once per
/// request environment.
#[derive(Debug)]
pub enum Assumption {
    /// The expression takes one of the outcomes.
    ExprOutcomes(Arc<Expr<()>>, Outcomes),
    /// The policy set produces the decision.
    PolicySetDecision(Arc<PolicySet>, Decision),
    /// The entity store agrees with the (partial) entities.
    Entities(Arc<Vec<PartialEntity>>),
    /// The request agrees with the (partial) request.
    Request(Arc<PartialRequest>),
}

/// What a policy set compiles to: a term that is true where it allows the
/// request.
#[derive(Debug)]
pub struct CompiledSet {
    pub term: Term,
    pub footprint: Vec<Term>,
}

/// Why a policy set does not compile.
#[derive(Debug)]
pub enum PolicyError {
    NotWellTyped(Vec<String>),
    Other(String),
}

/// What the evaluator needs from outside in one request environment: the
/// typechecker, the compilers, what the schema says of entities, and the
/// symbolic request.
#[derive(Debug)]
pub struct Backend<K, C, P, I> {
    pub check: K,
    pub sym: SymEnv<C>,
    pub policies: P,
    pub entity: I,
    pub request: SymRequest,
}

impl<
    K: Fn(&Policy, &RequestEnv) -> Checked,
    C: Fn(&Expr<()>) -> Result<Compiled, String>,
    P: Fn(&PolicySet, &RequestEnv) -> Result<CompiledSet, PolicyError>,
    I: Fn(&EntityUid) -> EntityInfo,
> Backend<K, C, P, I> {
    /// Everything can be called.
    pub open spec fn callable(&self) -> bool {
        &&& forall|p: Policy, e: RequestEnv| call_requires(&self.check, (&p, &e))
        &&& self.sym.callable()
        &&& forall|p: PolicySet, e: RequestEnv| call_requires(self.policies, (&p, &e))
        &&& forall|u: EntityUid| call_requires(self.entity, (&u,))
    }
}

/// Everything compiled for one request environment.
#[derive(Debug)]
pub struct EnvState {
    /// One term or more per compiled assumption.
    pub asserts: Vec<Term>,
    /// What the assumptions say more where no entity is missing.
    pub closed: Vec<Term>,
    /// The footprints of the compiled assumptions.
    pub footprint: Vec<Term>,
    /// How many of the assumptions have been compiled.
    pub compiled_upto: usize,
}

/// The terms of an [`EnvState`].
#[verifier::ext_equal]
pub struct Terms {
    pub asserts: Seq<Term>,
    pub closed: Seq<Term>,
    pub footprint: Set<Term>,
}

impl EnvState {
    /// The terms.
    pub open spec fn view(&self) -> Terms {
        Terms {
            asserts: self.asserts@,
            closed: self.closed@,
            footprint: self.footprint@.to_set(),
        }
    }
}

impl Terms {
    /// More asserts, and more terms in the footprint.
    pub open spec fn plus(self, asserts: Seq<Term>, footprint: Set<Term>) -> Terms {
        self.plus_open(asserts, seq![], footprint)
    }

    /// More asserts, with `closed` where no entity is missing, and more terms in
    /// the footprint.
    pub open spec fn plus_open(
        self,
        asserts: Seq<Term>,
        closed: Seq<Term>,
        footprint: Set<Term>,
    ) -> Terms {
        Terms {
            asserts: self.asserts + asserts,
            closed: self.closed + closed,
            footprint: self.footprint + footprint,
        }
    }
}

/// The terms that say that the receivers of `facts` exist.
pub open spec fn fact_terms(facts: Seq<Existence>) -> Seq<Term> {
    facts.map_values(|c: Existence| c.present())
}

/// What an expression that takes one of `outcomes`, none of them an error, is
/// known to have evaluated to.
pub open spec fn truth_of(outcomes: Set<EvaluationOutcome>) -> Option<bool> {
    if outcomes == set![EvaluationOutcome::True] {
        Some(true)
    } else if outcomes == set![EvaluationOutcome::False] {
        Some(false)
    } else {
        None
    }
}

/// The existence facts of the assumption that `typed` takes one of `outcomes`.
/// An expression that does not err has evaluated its strict receivers: they
/// exist.
pub open spec fn outcome_facts(
    typed: Tree,
    outcomes: Set<EvaluationOutcome>,
    s: Sym,
) -> Seq<Term> {
    if outcomes.contains(EvaluationOutcome::Error) {
        seq![]
    } else {
        fact_terms(typed.facts(s, truth_of(outcomes)))
    }
}

/// The terms of the assumption that `typed`, which compiles to `c`, takes one
/// of `outcomes`: its nodes have one of them, a missing receiver being a
/// reason, and the existence facts.
pub open spec fn outcome_terms(
    typed: Expr<Option<Type>>,
    c: Compiled,
    outcomes: Set<EvaluationOutcome>,
    s: Sym,
) -> Seq<Term> {
    let taken = match typed.nodes(s) {
        Ok(n) => n.took_one(outcomes),
        Err(_) => Term::takes(c.term, outcomes),
    };
    seq![taken] + outcome_facts(typed.tree(), outcomes, s)
}

/// What it says more where no entity is missing: the term takes one of the
/// outcomes.
pub open spec fn closed_terms(c: Compiled, outcomes: Set<EvaluationOutcome>) -> Seq<Term> {
    seq![Term::takes(c.term, outcomes)]
}

/// Adds the existence facts of `typed` as an assumption that it evaluated as
/// `truth` says.
fn push_facts<C: Fn(&Expr<()>) -> Result<Compiled, String>>(
    typed: &Expr<Option<Type>>,
    sym: &SymEnv<C>,
    truth: Option<bool>,
    out: &mut Vec<Term>,
)
    requires
        sym.callable(),
    ensures
        forall|s: Sym| #[trigger]
            sym.computes(s) ==> final(out)@ == old(out)@ + fact_terms(typed.tree().facts(s, truth)),
{
    let facts = sym.existence_facts(typed, truth);
    let ghost all = fact_terms(facts@);
    let mut i: usize = 0;
    assert(out@ =~= old(out)@ + all.take(0));
    while i < facts.len()
        invariant
            i <= facts@.len(),
            all == fact_terms(facts@),
            out@ == old(out)@ + all.take(i as int),
        decreases facts@.len() - i,
    {
        out.push(facts[i].exists_fact());
        i += 1;
        assert(all.take(i as int) =~= all.take(i - 1).push(all[i - 1]));
        assert(out@ =~= old(out)@ + all.take(i as int));
    }
    assert(all.take(i as int) =~= all);
}

/// Adds the terms of `v` to those that `out` lists.
pub(super) fn extend_terms(v: &Vec<Term>, out: &mut Vec<Term>)
    ensures
        final(out)@ == old(out)@ + v@,
        final(out)@.to_set() == old(out)@.to_set() + v@.to_set(),
{
    let ghost before = out@;
    copy_into(v, out);
    proof {
        let all = before + v@;
        assert forall|t: Term| #[trigger] all.to_set().contains(t) <==> (before.to_set()
            + v@.to_set()).contains(t) by {
            if before.contains(t) {
                let i = choose|i: int| 0 <= i < before.len() && before[i] == t;
                assert(all[i] == t);
            }
            if v@.contains(t) {
                let i = choose|i: int| 0 <= i < v@.len() && v@[i] == t;
                assert(all[before.len() + i] == t);
            }
            if all.contains(t) {
                let i = choose|i: int| 0 <= i < all.len() && all[i] == t;
                if i < before.len() {
                    assert(before.contains(t));
                } else {
                    assert(v@[i - before.len()] == t);
                    assert(v@.contains(t));
                }
            }
        }
        assert(all.to_set() =~= before.to_set() + v@.to_set());
    }
}

impl EnvState {
    /// Nothing compiled yet.
    pub fn new() -> (r: EnvState)
        ensures
            r@ == (Terms { asserts: seq![], closed: seq![], footprint: Set::empty() }),
            r.compiled_upto == 0,
    {
        let r = EnvState {
            asserts: Vec::new(),
            closed: Vec::new(),
            footprint: Vec::new(),
            compiled_upto: 0,
        };
        assert(r@.asserts =~= seq![]);
        assert(r@.closed =~= seq![]);
        assert(r@.footprint =~= Set::empty());
        r
    }

    /// Compiles the assumption that the expression `typed` takes one of
    /// `outcomes`.
    pub fn assume_typed<C: Fn(&Expr<()>) -> Result<Compiled, String>>(
        &mut self,
        typed: &Arc<Expr<Option<Type>>>,
        outcomes: &Outcomes,
        sym: &SymEnv<C>,
    ) -> (r: Result<(), EvaluationError>)
        requires
            sym.callable(),
        ensures
            final(self).compiled_upto == old(self).compiled_upto,
            forall|s: Sym| #[trigger]
                sym.computes(s) ==> match (s.compile)(typed.tree()) {
                    Ok(c) => r is Ok && final(self)@ == old(self)@.plus_open(
                        outcome_terms(**typed, c, outcomes@, s),
                        closed_terms(c, outcomes@),
                        c.footprint@.to_set(),
                    ),
                    Err(m) => r == Err::<(), EvaluationError>(EvaluationError::SymCC(m))
                        && final(self)@ == old(self)@,
                },
    {
        let ghost before = self@;
        let c = match sym.compiled(&**typed) {
            Ok(c) => c,
            Err(m) => return Err(EvaluationError::SymCC(m)),
        };
        let closed = outcome_constraint(&c.term, outcomes);
        let mut touched: Vec<Term> = Vec::new();
        let taken = match build_tree(typed, sym, &mut touched) {
            Ok(n) => n.took_one(outcomes),
            Err(_) => closed.dup(),
        };
        let mut facts: Vec<Term> = Vec::new();
        if !outcomes.contains(EvaluationOutcome::Error) {
            let truth = if outcomes.len() == 1 {
                Some(outcomes.contains(EvaluationOutcome::True))
            } else {
                None
            };
            proof {
                lemma_truth(outcomes@, truth);
            }
            push_facts(&**typed, sym, truth, &mut facts);
        }
        assert forall|s: Sym| #[trigger] sym.computes(s) implies facts@ == outcome_facts(
            typed.tree(),
            outcomes@,
            s,
        ) by {
            assert(facts@ =~= outcome_facts(typed.tree(), outcomes@, s));
        }
        self.asserts.push(taken);
        copy_into(&facts, &mut self.asserts);
        self.closed.push(closed);
        extend_terms(&c.footprint, &mut self.footprint);
        proof {
            assert forall|s: Sym| #[trigger] sym.computes(s) implies self@ == before.plus_open(
                outcome_terms(**typed, c, outcomes@, s),
                closed_terms(c, outcomes@),
                c.footprint@.to_set(),
            ) by {
                assert(self@.asserts =~= before.asserts + outcome_terms(**typed, c, outcomes@, s));
                assert(self@.closed =~= before.closed + closed_terms(c, outcomes@));
            }
        }
        Ok(())
    }
}

/// A set of outcomes without an error is a known boolean exactly if it has one
/// element.
proof fn lemma_truth(outcomes: Set<EvaluationOutcome>, truth: Option<bool>)
    requires
        outcomes.finite(),
        outcomes.len() >= 1,
        !outcomes.contains(EvaluationOutcome::Error),
        truth == if outcomes.len() == 1 {
            Some(outcomes.contains(EvaluationOutcome::True))
        } else {
            None
        },
    ensures
        truth == truth_of(outcomes),
{
    Set::lemma_is_singleton(outcomes);
    if outcomes.len() == 1 {
        let x = outcomes.choose();
        assert(outcomes.contains(x));
        match x {
            EvaluationOutcome::True => {
                assert(outcomes =~= set![EvaluationOutcome::True]);
            },
            EvaluationOutcome::False => {
                assert(outcomes =~= set![EvaluationOutcome::False]);
                assert(!outcomes.contains(EvaluationOutcome::True));
                assert(!set![EvaluationOutcome::False].contains(EvaluationOutcome::True));
            },
            EvaluationOutcome::Error => {},
        }
        assert(set![EvaluationOutcome::True].contains(EvaluationOutcome::True));
    } else {
        assert(set![EvaluationOutcome::True].len() == 1);
        assert(set![EvaluationOutcome::False].len() == 1);
    }
}

/// The policies that permit.
pub open spec fn permits(ps: Seq<Policy>) -> Seq<Policy>
    decreases ps.len(),
{
    if ps.len() == 0 {
        seq![]
    } else if ps.last().effect == Effect::Permit {
        permits(ps.drop_last()).push(ps.last())
    } else {
        permits(ps.drop_last())
    }
}

/// The only policy of `ps` that permits, if there is exactly one.
fn only_permit(ps: &Vec<Policy>) -> (r: Option<&Policy>)
    ensures
        match r {
            Some(p) => permits(ps@) == seq![*p],
            None => permits(ps@).len() != 1,
        },
{
    let mut found: Option<&Policy> = None;
    let mut more = false;
    let mut i: usize = 0;
    while i < ps.len()
        invariant
            i <= ps@.len(),
            more == (permits(ps@.take(i as int)).len() > 1),
            match found {
                Some(p) => more || permits(ps@.take(i as int)) =~= seq![*p],
                None => permits(ps@.take(i as int)) =~= seq![],
            },
        decreases ps@.len() - i,
    {
        assert(ps@.take(i + 1).drop_last() =~= ps@.take(i as int));
        if ps[i].effect == Effect::Permit {
            if found.is_some() {
                more = true;
            } else {
                found = Some(&ps[i]);
            }
        }
        i += 1;
    }
    assert(ps@.take(i as int) =~= ps@);
    if more {
        None
    } else {
        found
    }
}

/// One of the first `n` of `ns` with the effect is true.
pub open spec fn some_true(ps: Seq<Policy>, ns: Seq<NTree>, effect: Effect, n: nat) -> Term
    decreases n,
{
    if n == 0 {
        Term::Bool(false)
    } else {
        let rest = some_true(ps, ns, effect, (n - 1) as nat);
        if ps[n - 1].effect == effect {
            Term::or_of(rest, ns[n - 1].took(EvaluationOutcome::True))
        } else {
            rest
        }
    }
}

/// None of the first `n` of `ns` with the effect is true: each is false or
/// errs.
pub open spec fn none_true(ps: Seq<Policy>, ns: Seq<NTree>, effect: Effect, n: nat) -> Term
    decreases n,
{
    if n == 0 {
        Term::Bool(true)
    } else {
        let rest = none_true(ps, ns, effect, (n - 1) as nat);
        if ps[n - 1].effect == effect {
            Term::And(
                Arc::new(rest),
                Arc::new(
                    Term::or_of(
                        ns[n - 1].took(EvaluationOutcome::False),
                        ns[n - 1].took(EvaluationOutcome::Error),
                    ),
                ),
            )
        } else {
            rest
        }
    }
}

/// The decision, where `allowed` is true if the request is allowed.
pub open spec fn plain_decision(allowed: Term, decision: Decision) -> Term {
    if decision == Decision::Allow {
        allowed
    } else {
        Term::Not(Arc::new(allowed))
    }
}

/// The policies, whose conditions have the nodes `ns`, come to the decision: a
/// permit is true and no forbid is, or not.
pub open spec fn decided(ps: Seq<Policy>, ns: Seq<NTree>, decision: Decision) -> Term {
    if decision == Decision::Allow {
        Term::And(
            Arc::new(some_true(ps, ns, Effect::Permit, ns.len())),
            Arc::new(none_true(ps, ns, Effect::Forbid, ns.len())),
        )
    } else {
        Term::Or(
            Arc::new(none_true(ps, ns, Effect::Permit, ns.len())),
            Arc::new(some_true(ps, ns, Effect::Forbid, ns.len())),
        )
    }
}

/// What the nodes of `ns` are.
pub open spec fn node_views(ns: Seq<Node>) -> Seq<NTree> {
    ns.map_values(|n: Node| n@)
}

/// One of `ns` with the effect is true.
fn some_true_term(ps: &Vec<Policy>, ns: &Vec<Node>, effect: Effect) -> (r: Term)
    requires
        ns@.len() == ps@.len(),
    ensures
        r == some_true(ps@, node_views(ns@), effect, ns@.len()),
{
    let mut r = Term::Bool(false);
    let mut i: usize = 0;
    while i < ns.len()
        invariant
            i <= ns@.len(),
            ns@.len() == ps@.len(),
            r == some_true(ps@, node_views(ns@), effect, i as nat),
        decreases ns@.len() - i,
    {
        if ps[i].effect == effect {
            r = or(r, ns[i].took().on_true);
        }
        i += 1;
    }
    r
}

/// None of `ns` with the effect is true.
fn none_true_term(ps: &Vec<Policy>, ns: &Vec<Node>, effect: Effect) -> (r: Term)
    requires
        ns@.len() == ps@.len(),
    ensures
        r == none_true(ps@, node_views(ns@), effect, ns@.len()),
{
    let mut r = Term::Bool(true);
    let mut i: usize = 0;
    while i < ns.len()
        invariant
            i <= ns@.len(),
            ns@.len() == ps@.len(),
            r == none_true(ps@, node_views(ns@), effect, i as nat),
        decreases ns@.len() - i,
    {
        if ps[i].effect == effect {
            let t = ns[i].took();
            r = Term::And(Arc::new(r), Arc::new(or(t.on_false, t.on_error)));
        }
        i += 1;
    }
    r
}

/// The policies come to the decision.
fn decided_term(ps: &Vec<Policy>, ns: &Vec<Node>, decision: Decision) -> (r: Term)
    requires
        ns@.len() == ps@.len(),
    ensures
        r == decided(ps@, node_views(ns@), decision),
{
    match decision {
        Decision::Allow => Term::And(
            Arc::new(some_true_term(ps, ns, Effect::Permit)),
            Arc::new(none_true_term(ps, ns, Effect::Forbid)),
        ),
        Decision::Deny => Term::Or(
            Arc::new(none_true_term(ps, ns, Effect::Permit)),
            Arc::new(some_true_term(ps, ns, Effect::Forbid)),
        ),
    }
}

/// The terms that say that the entities exist.
pub open spec fn existing(es: Seq<PartialEntity>) -> Seq<Term> {
    es.map_values(|e: PartialEntity| Term::Exists(e.uid.ty, Arc::new(Term::Entity(e.uid))))
}

/// The asserts that the store agrees with the first `n` entities, of which the
/// schema says `infos`, or why one does not fit.
pub open spec fn entities_asserted(es: Seq<PartialEntity>, infos: Seq<EntityInfo>, n: nat) -> Result<
    AView,
    Seq<char>,
>
    decreases n,
{
    if n == 0 || n > es.len() {
        Ok(AView { asserts: seq![], footprint: seq![] })
    } else {
        match entities_asserted(es, infos, (n - 1) as nat) {
            Ok(v) => es[n - 1].asserted(infos[n - 1], v),
            Err(m) => Err(m),
        }
    }
}

impl<
    K: Fn(&Policy, &RequestEnv) -> Checked,
    C: Fn(&Expr<()>) -> Result<Compiled, String>,
    P: Fn(&PolicySet, &RequestEnv) -> Result<CompiledSet, PolicyError>,
    I: Fn(&EntityUid) -> EntityInfo,
> Backend<K, C, P, I> {
    /// The assumption that `expr` takes one of `outcomes` comes to `after`.
    pub open spec fn expr_outcomes_gives(
        &self,
        expr: Expr<()>,
        outcomes: Set<EvaluationOutcome>,
        env: RequestEnv,
        schema: Schema,
        s: Sym,
        before: Terms,
        r: Result<(), EvaluationError>,
        after: Terms,
    ) -> bool {
        exists|t: Result<Arc<Expr<Option<Type>>>, EvaluationError>| #[trigger]
            crate::evaluator::compile::typecheck_gives(&expr, &env, &schema, &self.check, t)
                && match t {
                Ok(typed) => match (s.compile)(typed.tree()) {
                    Ok(c) => r is Ok && after == before.plus_open(
                        outcome_terms(*typed, c, outcomes, s),
                        closed_terms(c, outcomes),
                        c.footprint@.to_set(),
                    ),
                    Err(m) => r == Err::<(), EvaluationError>(EvaluationError::SymCC(m)) && after
                        == before,
                },
                Err(e) => after == before && (r matches Err(x)
                    && crate::evaluator::compile::as_assumption_error(e, env, x)),
            }
    }

    /// The facts of the one permit that was true come to `after`.
    pub open spec fn permit_gives(
        &self,
        permit: Policy,
        env: RequestEnv,
        schema: Schema,
        s: Sym,
        before: Terms,
        r: Result<(), EvaluationError>,
        after: Terms,
    ) -> bool {
        exists|e: Expr<()>, t: Result<Arc<Expr<Option<Type>>>, EvaluationError>| #[trigger]
            crate::evaluator::compile::typecheck_gives(&e, &env, &schema, &self.check, t)
                && e.tree() == permit.condition_tree() && match t {
                Ok(typed) => r is Ok && after == before.plus(
                    fact_terms(typed.tree().facts(s, Some(true))),
                    Set::empty(),
                ),
                Err(x) => after == before && (r matches Err(y)
                    && crate::evaluator::compile::as_assumption_error(x, env, y)),
            }
    }

    /// `n` is the nodes of the typed condition of the policy, with its slots
    /// filled.
    pub open spec fn condition_nodes(
        &self,
        policy: Policy,
        env: RequestEnv,
        schema: Schema,
        n: NTree,
    ) -> bool {
        exists|e: Expr<()>, typed: Arc<Expr<Option<Type>>>| #[trigger]
            crate::evaluator::compile::typecheck_gives(&e, &env, &schema, &self.check, Ok(typed))
                && e.tree() == policy.condition_tree().filled(policy.bindings()) && forall|s: Sym| #[trigger]
                self.sym.computes(s) ==> (typed.nodes(s) matches Ok(x) && x == n)
    }

    /// The condition of the policy has no nodes.
    pub open spec fn no_condition_nodes(
        &self,
        policy: Policy,
        env: RequestEnv,
        schema: Schema,
    ) -> bool {
        ||| policy.condition_tree().unbound(policy.bindings()) is Some
        ||| exists|e: Expr<()>, t: Result<Arc<Expr<Option<Type>>>, EvaluationError>| #[trigger]
            crate::evaluator::compile::typecheck_gives(&e, &env, &schema, &self.check, t)
                && e.tree() == policy.condition_tree().filled(policy.bindings()) && match t {
                Ok(typed) => forall|s: Sym| #[trigger]
                    self.sym.computes(s) ==> typed.nodes(s) is Err,
                Err(_) => true,
            }
    }

    /// `taken` says that the policies come to `decision`, a missing receiver
    /// being a reason: over the nodes of their conditions, or `plain` where one
    /// has none.
    pub open spec fn decision_taken(
        &self,
        ps: Seq<Policy>,
        decision: Decision,
        env: RequestEnv,
        schema: Schema,
        plain: Term,
        taken: Term,
    ) -> bool {
        ||| exists|ns: Seq<NTree>| #[trigger]
            self.all_nodes(ps, env, schema, ns) && taken == decided(ps, ns, decision)
        ||| taken == plain && exists|i: int|
            0 <= i < ps.len() && #[trigger] self.no_condition_nodes(ps[i], env, schema)
    }

    /// `ns` are the nodes of the typed conditions of `ps`.
    pub open spec fn all_nodes(
        &self,
        ps: Seq<Policy>,
        env: RequestEnv,
        schema: Schema,
        ns: Seq<NTree>,
    ) -> bool {
        &&& ns.len() == ps.len()
        &&& forall|i: int|
            0 <= i < ns.len() ==> self.condition_nodes(ps[i], env, schema, #[trigger] ns[i])
    }

    /// The assumption that the policies come to `decision` comes to `after`.
    /// A request that is allowed by a single permit made that permit true.
    pub open spec fn decision_gives(
        &self,
        policies: PolicySet,
        decision: Decision,
        env: RequestEnv,
        schema: Schema,
        s: Sym,
        before: Terms,
        r: Result<(), EvaluationError>,
        after: Terms,
    ) -> bool {
        exists|p: Result<CompiledSet, PolicyError>| #[trigger]
            call_ensures(self.policies, (&policies, &env), p) && match p {
                Ok(c) => exists|taken: Term| #[trigger]
                    self.decision_taken(
                        policies.items(),
                        decision,
                        env,
                        schema,
                        plain_decision(c.term, decision),
                        taken,
                    ) && {
                        let mid = before.plus_open(
                            seq![taken],
                            seq![plain_decision(c.term, decision)],
                            c.footprint@.to_set(),
                        );
                        let ps = permits(policies.items());
                        if decision == Decision::Allow && ps.len() == 1 {
                            self.permit_gives(ps[0], env, schema, s, mid, r, after)
                        } else {
                            r is Ok && after == mid
                        }
                    },
                Err(PolicyError::NotWellTyped(errs)) => after == before && (
                r matches Err(EvaluationError::AssumptionNotWellTyped { env: en, errs: es }) && en@
                    == env@ && es == errs),
                Err(PolicyError::Other(m)) => after == before && r == Err::<(), EvaluationError>(
                    EvaluationError::SymCC(m),
                ),
            }
    }

    /// The assumption about the entities comes to `after`.
    pub open spec fn entities_gives(
        &self,
        es: Seq<PartialEntity>,
        before: Terms,
        r: Result<(), EvaluationError>,
        after: Terms,
    ) -> bool {
        exists|infos: Seq<EntityInfo>| #[trigger]
            self.describes(es, infos) && match entities_asserted(es, infos, infos.len()) {
                Ok(v) => infos.len() == es.len() && r is Ok && after == before.plus(
                    v.asserts + existing(es),
                    v.footprint.to_set(),
                ),
                Err(m) => after == before && (r matches Err(EvaluationError::InvalidEntities(x))
                    && x@ == m),
            }
    }

    /// The schema says `infos` of the first entities.
    pub open spec fn describes(&self, es: Seq<PartialEntity>, infos: Seq<EntityInfo>) -> bool {
        &&& infos.len() <= es.len()
        &&& forall|i: int|
            0 <= i < infos.len() ==> call_ensures(
                self.entity,
                (&es[i].uid,),
                #[trigger] infos[i],
            )
    }

    /// The assumption comes to `after`.
    pub open spec fn gives(
        &self,
        assumption: Assumption,
        env: RequestEnv,
        schema: Schema,
        s: Sym,
        before: Terms,
        r: Result<(), EvaluationError>,
        after: Terms,
    ) -> bool {
        match assumption {
            Assumption::ExprOutcomes(expr, outcomes) => self.expr_outcomes_gives(
                *expr,
                outcomes@,
                env,
                schema,
                s,
                before,
                r,
                after,
            ),
            Assumption::PolicySetDecision(policies, decision) => self.decision_gives(
                *policies,
                decision,
                env,
                schema,
                s,
                before,
                r,
                after,
            ),
            Assumption::Entities(es) => self.entities_gives(es@, before, r, after),
            Assumption::Request(request) => match r {
                Ok(_) => {
                    let v = request.asserted(env, self.request);
                    &&& request.accepted(env, schema)
                    &&& after == before.plus(v.asserts, v.footprint.to_set())
                },
                Err(e) => after == before && request.refused(env, schema, e),
            },
        }
    }
}

impl<
    K: Fn(&Policy, &RequestEnv) -> Checked,
    C: Fn(&Expr<()>) -> Result<Compiled, String>,
    P: Fn(&PolicySet, &RequestEnv) -> Result<CompiledSet, PolicyError>,
    I: Fn(&EntityUid) -> EntityInfo,
> Backend<K, C, P, I> {
    /// The nodes of the typed conditions of `ps`, if all have nodes.
    fn nodes_of(&self, ps: &Vec<Policy>, env: &RequestEnv, schema: &Schema) -> (r: Option<
        Vec<Node>,
    >)
        requires
            self.callable(),
        ensures
            match r {
                Some(ns) => self.all_nodes(ps@, *env, *schema, node_views(ns@)),
                None => exists|i: int|
                    0 <= i < ps@.len() && #[trigger] self.no_condition_nodes(
                        ps@[i],
                        *env,
                        *schema,
                    ),
            },
    {
        let mut ns: Vec<Node> = Vec::new();
        let mut i: usize = 0;
        while i < ps.len()
            invariant
                i <= ps@.len(),
                self.callable(),
                ns@.len() == i,
                forall|j: int|
                    0 <= j < i ==> self.condition_nodes(
                        ps@[j],
                        *env,
                        *schema,
                        #[trigger] node_views(ns@)[j],
                    ),
            decreases ps@.len() - i,
        {
            let slots = ps[i].env();
            let condition = match substitute_slots(&ps[i].condition(), &slots) {
                Ok(e) => e,
                Err(_) => {
                    assert(self.no_condition_nodes(ps@[i as int], *env, *schema));
                    return None;
                },
            };
            let t = typecheck(&condition, env, schema, &self.check);
            assert(crate::evaluator::compile::typecheck_gives(
                &condition,
                env,
                schema,
                &self.check,
                t,
            ));
            let typed = match t {
                Ok(typed) => typed,
                Err(_) => {
                    assert(self.no_condition_nodes(ps@[i as int], *env, *schema));
                    return None;
                },
            };
            let mut touched: Vec<Term> = Vec::new();
            match build_tree(&typed, &self.sym, &mut touched) {
                Ok(n) => {
                    let ghost before = ns@;
                    ns.push(n);
                    assert(self.condition_nodes(ps@[i as int], *env, *schema, n@));
                    assert(node_views(ns@) =~= node_views(before).push(n@));
                },
                Err(_) => {
                    assert(self.no_condition_nodes(ps@[i as int], *env, *schema));
                    return None;
                },
            }
            i += 1;
        }
        Some(ns)
    }
}

impl EnvState {
    /// Compiles the assumption that `expr` takes one of `outcomes`.
    pub fn assume_expr<
        K: Fn(&Policy, &RequestEnv) -> Checked,
        C: Fn(&Expr<()>) -> Result<Compiled, String>,
        P: Fn(&PolicySet, &RequestEnv) -> Result<CompiledSet, PolicyError>,
        I: Fn(&EntityUid) -> EntityInfo,
    >(
        &mut self,
        expr: &Expr<()>,
        outcomes: &Outcomes,
        env: &RequestEnv,
        schema: &Schema,
        backend: &Backend<K, C, P, I>,
    ) -> (r: Result<(), EvaluationError>)
        requires
            backend.callable(),
        ensures
            final(self).compiled_upto == old(self).compiled_upto,
            forall|s: Sym| #[trigger]
                backend.sym.computes(s) ==> backend.expr_outcomes_gives(
                    *expr,
                    outcomes@,
                    *env,
                    *schema,
                    s,
                    old(self)@,
                    r,
                    final(self)@,
                ),
    {
        let t = typecheck(expr, env, schema, &backend.check);
        assert(crate::evaluator::compile::typecheck_gives(expr, env, schema, &backend.check, t));
        match t {
            Ok(typed) => self.assume_typed(&typed, outcomes, &backend.sym),
            Err(e) => Err(assumption_error(e, env)),
        }
    }

    fn assume_decision<
        K: Fn(&Policy, &RequestEnv) -> Checked,
        C: Fn(&Expr<()>) -> Result<Compiled, String>,
        P: Fn(&PolicySet, &RequestEnv) -> Result<CompiledSet, PolicyError>,
        I: Fn(&EntityUid) -> EntityInfo,
    >(
        &mut self,
        policies: &PolicySet,
        decision: Decision,
        env: &RequestEnv,
        schema: &Schema,
        backend: &Backend<K, C, P, I>,
    ) -> (r: Result<(), EvaluationError>)
        requires
            backend.callable(),
        ensures
            final(self).compiled_upto == old(self).compiled_upto,
            forall|s: Sym| #[trigger]
                backend.sym.computes(s) ==> backend.decision_gives(
                    *policies,
                    decision,
                    *env,
                    *schema,
                    s,
                    old(self)@,
                    r,
                    final(self)@,
                ),
    {
        let ghost before = self@;
        let p = (backend.policies)(policies, env);
        assert(call_ensures(backend.policies, (policies, env), p));
        let c = match p {
            Ok(c) => c,
            Err(PolicyError::NotWellTyped(errs)) => {
                return Err(EvaluationError::AssumptionNotWellTyped { env: env.dup(), errs });
            },
            Err(PolicyError::Other(m)) => return Err(EvaluationError::SymCC(m)),
        };
        let plain = match decision {
            Decision::Allow => c.term,
            Decision::Deny => Term::Not(Arc::new(c.term)),
        };
        let taken = match backend.nodes_of(policies.policies(), env, schema) {
            Some(ns) => {
                let t = decided_term(policies.policies(), &ns, decision);
                assert(backend.all_nodes(policies.items(), *env, *schema, node_views(ns@)));
                t
            },
            None => plain.dup(),
        };
        assert(backend.decision_taken(
            policies.items(),
            decision,
            *env,
            *schema,
            plain,
            taken,
        ));
        self.asserts.push(taken);
        self.closed.push(plain);
        extend_terms(&c.footprint, &mut self.footprint);
        let ghost mid = before.plus_open(seq![taken], seq![plain], c.footprint@.to_set());
        assert(self@.asserts =~= mid.asserts);
        assert(self@.closed =~= mid.closed);
        assert(self@ =~= mid);
        if decision == Decision::Allow {
            if let Some(permit) = only_permit(policies.policies()) {
                let condition = permit.condition();
                let t = typecheck(&condition, env, schema, &backend.check);
                assert(crate::evaluator::compile::typecheck_gives(
                    &condition,
                    env,
                    schema,
                    &backend.check,
                    t,
                ));
                let typed = match t {
                    Ok(typed) => typed,
                    Err(e) => return Err(assumption_error(e, env)),
                };
                push_facts(&typed, &backend.sym, Some(true), &mut self.asserts);
                proof {
                    assert forall|s: Sym| #[trigger] backend.sym.computes(s) implies self@
                        == mid.plus(
                        fact_terms(typed.tree().facts(s, Some(true))),
                        Set::empty(),
                    ) by {
                        assert(self@.footprint =~= mid.footprint + Set::<Term>::empty());
                        assert(self@.closed =~= mid.closed + Seq::<Term>::empty());
                    }
                }
            }
        }
        Ok(())
    }

    fn assume_entities<
        K: Fn(&Policy, &RequestEnv) -> Checked,
        C: Fn(&Expr<()>) -> Result<Compiled, String>,
        P: Fn(&PolicySet, &RequestEnv) -> Result<CompiledSet, PolicyError>,
        I: Fn(&EntityUid) -> EntityInfo,
    >(&mut self, es: &Vec<PartialEntity>, backend: &Backend<K, C, P, I>) -> (r: Result<
        (),
        EvaluationError,
    >)
        requires
            backend.callable(),
        ensures
            final(self).compiled_upto == old(self).compiled_upto,
            backend.entities_gives(es@, old(self)@, r, final(self)@),
    {
        let ghost before = self@;
        let mut out = Asserted::new();
        let ghost mut infos: Seq<EntityInfo> = seq![];
        let mut i: usize = 0;
        while i < es.len()
            invariant
                i <= es@.len(),
                backend.callable(),
                *self == *old(self),
                infos.len() == i,
                backend.describes(es@, infos),
                entities_asserted(es@, infos, i as nat) == Ok::<AView, Seq<char>>(out@),
            decreases es@.len() - i,
        {
            let info = (backend.entity)(&es[i].uid);
            proof {
                let longer = infos.push(info);
                assert(backend.describes(es@, longer)) by {
                    assert forall|j: int| 0 <= j < longer.len() implies call_ensures(
                        backend.entity,
                        (&es@[j].uid,),
                        #[trigger] longer[j],
                    ) by {
                        if j < i {
                            assert(longer[j] == infos[j]);
                        }
                    }
                }
                lemma_entities_prefix(es@, infos, longer, i as nat);
                infos = longer;
            }
            match entity_asserts(&es[i], &info, &mut out) {
                Ok(_) => {},
                Err(e) => {
                    assert(backend.describes(es@, infos));
                    return Err(e);
                },
            }
            i += 1;
        }
        let ghost v = out@;
        extend_terms(&out.asserts, &mut self.asserts);
        extend_terms(&out.footprint, &mut self.footprint);
        let ghost start = self.asserts@;
        let ghost all = existing(es@);
        let mut k: usize = 0;
        assert(self.asserts@ =~= start + all.take(0));
        while k < es.len()
            invariant
                k <= es@.len(),
                all == existing(es@),
                self.compiled_upto == old(self).compiled_upto,
                self.footprint@.to_set() == before.footprint + v.footprint.to_set(),
                self.asserts@ == start + all.take(k as int),
                self.closed@ == before.closed,
            decreases es@.len() - k,
        {
            let uid = &es[k].uid;
            self.asserts.push(Term::Exists(uid.ty.clone(), Arc::new(Term::Entity(uid.dup()))));
            k += 1;
            assert(all.take(k as int) =~= all.take(k - 1).push(all[k - 1]));
            assert(self.asserts@ =~= start + all.take(k as int));
        }
        proof {
            assert(all.take(k as int) =~= all);
            assert(self@.asserts =~= before.asserts + (v.asserts + all));
            assert(self@.closed =~= before.closed + Seq::<Term>::empty());
            assert(backend.describes(es@, infos));
        }
        Ok(())
    }

    /// Compiles `assumption` for the request environment `env`.
    pub fn compile_assumption<
        K: Fn(&Policy, &RequestEnv) -> Checked,
        C: Fn(&Expr<()>) -> Result<Compiled, String>,
        P: Fn(&PolicySet, &RequestEnv) -> Result<CompiledSet, PolicyError>,
        I: Fn(&EntityUid) -> EntityInfo,
    >(
        &mut self,
        assumption: &Assumption,
        env: &RequestEnv,
        schema: &Schema,
        backend: &Backend<K, C, P, I>,
    ) -> (r: Result<(), EvaluationError>)
        requires
            backend.callable(),
        ensures
            final(self).compiled_upto == old(self).compiled_upto,
            forall|s: Sym| #[trigger]
                backend.sym.computes(s) ==> backend.gives(
                    *assumption,
                    *env,
                    *schema,
                    s,
                    old(self)@,
                    r,
                    final(self)@,
                ),
    {
        match assumption {
            Assumption::ExprOutcomes(expr, outcomes) => self.assume_expr(
                expr,
                outcomes,
                env,
                schema,
                backend,
            ),
            Assumption::PolicySetDecision(policies, decision) => self.assume_decision(
                policies,
                *decision,
                env,
                schema,
                backend,
            ),
            Assumption::Entities(es) => self.assume_entities(es, backend),
            Assumption::Request(request) => {
                match request_asserts(request, env, &backend.request, schema) {
                    Ok(a) => {
                        extend_terms(&a.asserts, &mut self.asserts);
                        extend_terms(&a.footprint, &mut self.footprint);
                        assert(self@.closed =~= old(self)@.closed + Seq::<Term>::empty());
                        Ok(())
                    },
                    Err(e) => Err(e),
                }
            },
        }
    }
}

/// Only the first `n` descriptions matter for the first `n` entities.
proof fn lemma_entities_prefix(
    es: Seq<PartialEntity>,
    a: Seq<EntityInfo>,
    b: Seq<EntityInfo>,
    n: nat,
)
    requires
        n <= a.len() <= b.len(),
        forall|i: int| 0 <= i < n ==> a[i] == #[trigger] b[i],
    ensures
        entities_asserted(es, a, n) == entities_asserted(es, b, n),
    decreases n,
{
    if n > 0 {
        lemma_entities_prefix(es, a, b, (n - 1) as nat);
        assert(a[n - 1] == b[n - 1]);
    }
}

} // verus!
