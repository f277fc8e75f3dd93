//! What an evaluation is prepared from: the nodes of an expression, what they
//! mention, and what every query starts with.

use std::sync::Arc;

use vstd::prelude::*;

use crate::ast::{EntityUid, Expr, ExprKind, UnaryOp};
use crate::evaluator::assumptions::EntityInfo;
use crate::evaluator::compile::{Compiled, Sym};
use crate::evaluator::err::EvaluationError;
use crate::evaluator::node::{NKind, NTree};
use crate::evaluator::run::QueryRecord;
use crate::evaluator::session::{
    asked, assumption_gives, closes_with, extras_give, target_gives, Request,
};
use crate::evaluator::state::{Backend, CompiledSet, PolicyError, Terms};
use crate::evaluator::term::Term;
use crate::outcome::EvaluationOutcome;
use crate::policy::{Policy, PolicySet};
use crate::tree::Tree;
use crate::typechecked::{Checked, Typecheckable};
use crate::types::{RequestEnv, Schema, Type};

verus! {

impl NTree {
    /// The nodes follow the structure of the expression: `&&`, `||`, `!` and a
    /// boolean `if` have nodes for their operands, as far as these compile, and
    /// everything else is an atom.
    pub open spec fn follows(self, e: Expr<Option<Type>>) -> bool
        decreases self,
    {
        &&& self.expr == e
        &&& match e.kind {
            ExprKind::And { left, right } => self.kind matches NKind::And(l, r) && l.follows(*left)
                && (r matches Some(r) ==> r.follows(*right)),
            ExprKind::Or { left, right } => self.kind matches NKind::Or(l, r) && l.follows(*left)
                && (r matches Some(r) ==> r.follows(*right)),
            ExprKind::UnaryApp { op, arg } => if op == UnaryOp::Not {
                self.kind matches NKind::Not(x) && x.follows(*arg)
            } else {
                self.kind is Atom
            },
            ExprKind::If { test_expr, then_expr, else_expr } => if e.data
                matches Some(Type::Bool(_)) {
                self.kind matches NKind::If(c, a, b) && c.follows(*test_expr) && (a matches Some(a)
                    ==> a.follows(*then_expr)) && (b matches Some(b) ==> b.follows(*else_expr))
            } else {
                self.kind is Atom
            },
            _ => self.kind is Atom,
        }
    }

    /// Nodes that follow an expression have no structure in their atoms.
    pub proof fn law_followed_structure_is_in_no_atom(self, e: Expr<Option<Type>>)
        requires
            self.follows(e),
        ensures
            self.atoms_are_no_structure(),
        decreases self,
    {
        reveal_with_fuel(NTree::follows, 2);
        match self.kind {
            NKind::Atom { .. } => {},
            NKind::Not(x) => {
                x.law_followed_structure_is_in_no_atom(x.expr);
            },
            NKind::And(l, r) => {
                l.law_followed_structure_is_in_no_atom(l.expr);
                if let Some(r) = r {
                    r.law_followed_structure_is_in_no_atom(r.expr);
                }
            },
            NKind::Or(l, r) => {
                l.law_followed_structure_is_in_no_atom(l.expr);
                if let Some(r) = r {
                    r.law_followed_structure_is_in_no_atom(r.expr);
                }
            },
            NKind::If(c, a, b) => {
                c.law_followed_structure_is_in_no_atom(c.expr);
                if let Some(a) = a {
                    a.law_followed_structure_is_in_no_atom(a.expr);
                }
                if let Some(b) = b {
                    b.law_followed_structure_is_in_no_atom(b.expr);
                }
            },
        }
    }

    /// Marking guards keeps the structure.
    pub proof fn law_marked_nodes_follow(self, kept: Seq<Tree>, e: Expr<Option<Type>>)
        requires
            self.follows(e),
        ensures
            self.marked(kept).follows(e),
        decreases self,
    {
        reveal_with_fuel(NTree::follows, 2);
        match self.kind {
            NKind::Atom { .. } => {},
            NKind::Not(x) => {
                x.law_marked_nodes_follow(kept, x.expr);
            },
            NKind::And(l, r) => {
                l.law_marked_nodes_follow(kept, l.expr);
                if let Some(r) = r {
                    r.law_marked_nodes_follow(kept, r.expr);
                }
            },
            NKind::Or(l, r) => {
                l.law_marked_nodes_follow(kept, l.expr);
                if let Some(r) = r {
                    r.law_marked_nodes_follow(kept, r.expr);
                }
            },
            NKind::If(c, a, b) => {
                c.law_marked_nodes_follow(kept, c.expr);
                if let Some(a) = a {
                    a.law_marked_nodes_follow(kept, a.expr);
                }
                if let Some(b) = b {
                    b.law_marked_nodes_follow(kept, b.expr);
                }
            },
        }
    }
}

impl Expr<Option<Type>> {
    /// The nodes of a typed expression follow its structure.
    pub proof fn law_nodes_follow_the_structure(&self, s: Sym)
        requires
            self.nodes(s) is Ok,
        ensures
            self.nodes(s)->Ok_0.follows(*self),
        decreases self,
    {
        match self.kind {
            ExprKind::And { left, right } => {
                left.law_nodes_follow_the_structure(s);
                if right.nodes(s) is Ok {
                    right.law_nodes_follow_the_structure(s);
                }
            },
            ExprKind::Or { left, right } => {
                left.law_nodes_follow_the_structure(s);
                if right.nodes(s) is Ok {
                    right.law_nodes_follow_the_structure(s);
                }
            },
            ExprKind::UnaryApp { op, arg } => {
                if op == UnaryOp::Not {
                    arg.law_nodes_follow_the_structure(s);
                }
            },
            ExprKind::If { test_expr, then_expr, else_expr } => {
                if self.is_bool() {
                    test_expr.law_nodes_follow_the_structure(s);
                    if then_expr.nodes(s) is Ok {
                        then_expr.law_nodes_follow_the_structure(s);
                    }
                    if else_expr.nodes(s) is Ok {
                        else_expr.law_nodes_follow_the_structure(s);
                    }
                }
            },
            _ => {},
        }
    }

    /// What the nodes of an expression mention covers what each of its atoms
    /// mentions.
    pub proof fn law_every_atom_is_mentioned(&self, s: Sym)
        requires
            self.nodes(s) is Ok,
        ensures
            self.nodes(s)->Ok_0.all_atoms(mentioned_in(self.touched(s), s)),
        decreases self,
    {
        let n = self.nodes(s)->Ok_0;
        let all = self.touched(s);
        match self.kind {
            ExprKind::And { left, right } | ExprKind::Or { left, right } => {
                left.law_every_atom_is_mentioned(s);
                left.nodes(s)->Ok_0.lemma_mentioned_in_more(left.touched(s), all, s);
                if right.nodes(s) is Ok {
                    right.law_every_atom_is_mentioned(s);
                    right.nodes(s)->Ok_0.lemma_mentioned_in_more(right.touched(s), all, s);
                }
            },
            ExprKind::UnaryApp { op, arg } => {
                if op == UnaryOp::Not {
                    arg.law_every_atom_is_mentioned(s);
                }
            },
            ExprKind::If { test_expr, then_expr, else_expr } => {
                if self.is_bool() {
                    test_expr.law_every_atom_is_mentioned(s);
                    test_expr.nodes(s)->Ok_0.lemma_mentioned_in_more(test_expr.touched(s), all, s);
                    if then_expr.nodes(s) is Ok {
                        then_expr.law_every_atom_is_mentioned(s);
                        then_expr.nodes(s)->Ok_0.lemma_mentioned_in_more(
                            then_expr.touched(s),
                            all,
                            s,
                        );
                    }
                    if else_expr.nodes(s) is Ok {
                        else_expr.law_every_atom_is_mentioned(s);
                        else_expr.nodes(s)->Ok_0.lemma_mentioned_in_more(
                            else_expr.touched(s),
                            all,
                            s,
                        );
                    }
                }
            },
            _ => {},
        }
    }
}

/// What an atom compiles to mentions only entities of `all`.
pub open spec fn mentioned_in(all: Set<Term>, s: Sym) -> spec_fn(NTree) -> bool {
    |n: NTree|
        (s.compile)(n.expr.tree()) matches Ok(c) && forall|t: Term| #[trigger]
            c.footprint@.contains(t) ==> all.contains(t)
}

impl NTree {
    proof fn lemma_mentioned_in_more(self, few: Set<Term>, more: Set<Term>, s: Sym)
        requires
            self.all_atoms(mentioned_in(few, s)),
            few.subset_of(more),
        ensures
            self.all_atoms(mentioned_in(more, s)),
        decreases self,
    {
        match self.kind {
            NKind::Atom { .. } => {},
            NKind::Not(x) => {
                x.lemma_mentioned_in_more(few, more, s);
            },
            NKind::And(l, r) => {
                l.lemma_mentioned_in_more(few, more, s);
                if let Some(r) = r {
                    r.lemma_mentioned_in_more(few, more, s);
                }
            },
            NKind::Or(l, r) => {
                l.lemma_mentioned_in_more(few, more, s);
                if let Some(r) = r {
                    r.lemma_mentioned_in_more(few, more, s);
                }
            },
            NKind::If(c, a, b) => {
                c.lemma_mentioned_in_more(few, more, s);
                if let Some(a) = a {
                    a.lemma_mentioned_in_more(few, more, s);
                }
                if let Some(b) = b {
                    b.lemma_mentioned_in_more(few, more, s);
                }
            },
        }
    }
}

impl Request {
    /// The schema has the environment that the request belongs to.
    pub open spec fn fits(&self, schema: Schema) -> bool {
        exists|i: int|
            0 <= i < schema.envs().len() && (#[trigger] schema.envs()[i]).principal@
                == self.principal->Some_0.ty@ && schema.envs()[i].action@ == self.action->Some_0@
                && schema.envs()[i].resource@ == self.resource->Some_0.ty@
    }

    /// A request can be assumed exactly if all of it is known, its environment
    /// is one of the schema and its context fits; what is then assumed is all
    /// of it. Otherwise the first thing that is unknown or wrong is reported.
    pub proof fn law_request_is_known(&self, schema: Schema)
        ensures
            match self.known(schema) {
                Ok(p) => {
                    &&& self.principal matches Some(u) && p.principal_type@ == u.ty@ && (
                    p.principal_eid matches Some(e) && e@ == u.eid@)
                    &&& self.action matches Some(u) && p.action@ == u@
                    &&& self.resource matches Some(u) && p.resource_type@ == u.ty@ && (
                    p.resource_eid matches Some(e) && e@ == u.eid@)
                    &&& self.context matches Some(Ok(c)) && p.context == Some(
                        Ok::<Term, String>(c),
                    )
                    &&& self.fits(schema)
                },
                Err(m) => if self.principal is None {
                    m == "principal is unknown"@
                } else if self.action is None {
                    m == "action is unknown"@
                } else if self.resource is None {
                    m == "resource is unknown"@
                } else if self.context is None {
                    m == "context is unknown"@
                } else if !self.fits(schema) {
                    m == "the principal and resource types do not apply to the action"@
                } else {
                    self.context matches Some(Err(why)) && m == why@
                },
            },
    {
        if self.principal is Some && self.action is Some && self.resource is Some {
            let env = RequestEnv {
                principal: self.principal->Some_0.ty,
                action: self.action->Some_0,
                resource: self.resource->Some_0.ty,
            };
            let views = crate::types::env_views(schema.envs());
            assert(views.contains(env@) <==> self.fits(schema)) by {
                if views.contains(env@) {
                    let i = views.index_of(env@);
                    assert(schema.envs()[i]@ == env@);
                }
                if self.fits(schema) {
                    let i = choose|i: int|
                        0 <= i < schema.envs().len() && (#[trigger] schema.envs()[i]).principal@
                            == self.principal->Some_0.ty@ && schema.envs()[i].action@
                            == self.action->Some_0@ && schema.envs()[i].resource@
                            == self.resource->Some_0.ty@;
                    assert(views[i] == env@);
                }
            }
        }
    }
}

/// The query cannot be answered from its literals: none of its asserts is
/// `false`, and one is not `true`.
pub open spec fn needs_solver(q: QueryRecord) -> bool {
    &&& forall|i: int| 0 <= i < q.asserts@.len() ==> (#[trigger] q.asserts@[i]) != Term::Bool(false)
    &&& exists|i: int| 0 <= i < q.asserts@.len() && (#[trigger] q.asserts@[i]) != Term::Bool(true)
}

/// The queries that are counted are those that cannot be answered from their
/// literals.
pub proof fn law_counted_queries_need_the_solver(queries: Seq<QueryRecord>)
    ensures
        asked(queries) == queries.filter(|q: QueryRecord| needs_solver(q)).len(),
        asked(queries) <= queries.len(),
    decreases queries.len(),
{
    reveal(Seq::filter);
    if queries.len() > 0 {
        let f = queries.drop_last();
        let q = queries.last();
        law_counted_queries_need_the_solver(f);
        assert(crate::evaluator::term::undecided(q.asserts@) == needs_solver(q)) by {
            if forall|i: int|
                0 <= i < q.asserts@.len() ==> (#[trigger] q.asserts@[i]) != Term::Bool(false) {
                if q.asserts@.contains(Term::Bool(false)) {
                    let i = q.asserts@.index_of(Term::Bool(false));
                    assert(q.asserts@[i] == Term::Bool(false));
                }
            } else {
                let i = choose|i: int|
                    0 <= i < q.asserts@.len() && (#[trigger] q.asserts@[i]) == Term::Bool(false);
                assert(q.asserts@.contains(q.asserts@[i]));
            }
        }
    }
}

/// What is to be evaluated is boolean, is what the typechecker made of the
/// expression, and does not nest too deeply.
pub proof fn law_target_is_boolean<T: Typecheckable, K: Fn(&Policy, &RequestEnv) -> Checked>(
    expr: &T,
    env: &RequestEnv,
    schema: &Schema,
    check: &K,
    typed: Arc<Expr<Option<Type>>>,
)
    requires
        target_gives(expr, env, schema, check, Ok(typed)),
    ensures
        typed.data is Some && typed.data->Some_0 is Bool,
        typed.tree().fits(crate::expr_util::MAX_NESTING as nat),
        crate::evaluator::compile::typecheck_gives(expr, env, schema, check, Ok(typed)),
{
}

/// An expression can be assumed only if it typechecks and is boolean.
pub proof fn law_assumption_is_boolean<K: Fn(&Policy, &RequestEnv) -> Checked>(
    expr: &Expr<()>,
    env: &RequestEnv,
    schema: &Schema,
    check: &K,
)
    requires
        assumption_gives(expr, env, schema, check, Ok(())),
    ensures
        exists|typed: Arc<Expr<Option<Type>>>| #[trigger]
            crate::evaluator::compile::typecheck_gives(expr, env, schema, check, Ok(typed))
                && typed.data is Some && typed.data->Some_0 is Bool,
{
    let t = choose|t: Result<Arc<Expr<Option<Type>>>, EvaluationError>| #[trigger]
        crate::evaluator::compile::typecheck_gives(expr, env, schema, check, t) && match t {
            Err(_) => false,
            Ok(typed) => typed.data matches Some(Type::Bool(_)),
        };
    assert(crate::evaluator::compile::typecheck_gives(expr, env, schema, check, Ok(t->Ok_0)));
}

/// One assumption after the other, asserts and mentioned entities only grow.
proof fn lemma_extras_grow<
    K: Fn(&Policy, &RequestEnv) -> Checked,
    C: Fn(&Expr<()>) -> Result<Compiled, String>,
    P: Fn(&PolicySet, &RequestEnv) -> Result<CompiledSet, PolicyError>,
    I: Fn(&EntityUid) -> EntityInfo,
>(
    backend: &Backend<K, C, P, I>,
    extras: Seq<Expr<()>>,
    states: Seq<Terms>,
    env: RequestEnv,
    schema: Schema,
    s: Sym,
    k: int,
)
    requires
        extras_give(backend, extras, states, env, schema, s),
        0 <= k < states.len(),
    ensures
        forall|t: Term| #[trigger]
            states[k].asserts.contains(t) ==> states.last().asserts.contains(t),
        forall|t: Term| #[trigger]
            states[k].closed.contains(t) ==> states.last().closed.contains(t),
        states[k].footprint.subset_of(states.last().footprint),
    decreases states.len() - k,
{
    if k < states.len() - 1 {
        lemma_extras_grow(backend, extras, states, env, schema, s, k + 1);
        let a = states[k];
        let b = states[k + 1];
        assert(backend.expr_outcomes_gives(
            extras[k],
            set![EvaluationOutcome::True],
            env,
            schema,
            s,
            a,
            Ok(()),
            b,
        ));
        assert forall|t: Term| #[trigger] a.asserts.contains(t) implies b.asserts.contains(t) by {
            let i = a.asserts.index_of(t);
            assert(b.asserts[i] == t);
        }
        assert forall|t: Term| #[trigger] a.closed.contains(t) implies b.closed.contains(t) by {
            let i = a.closed.index_of(t);
            assert(b.closed[i] == t);
        }
    } else {
        assert(states[k] == states.last());
    }
}

/// Every query starts with all asserts of the assumptions, with those of the
/// extra assumptions, each of which is assumed to be true, and with what is
/// enforced for all that they mention; and where no entity is missing, with
/// what the assumptions then say more.
pub proof fn law_every_query_starts_with_the_assumptions<
    K: Fn(&Policy, &RequestEnv) -> Checked,
    C: Fn(&Expr<()>) -> Result<Compiled, String>,
    P: Fn(&PolicySet, &RequestEnv) -> Result<CompiledSet, PolicyError>,
    I: Fn(&EntityUid) -> EntityInfo,
    F: Fn(&Vec<Term>) -> Vec<Term>,
>(
    backend: &Backend<K, C, P, I>,
    enforce: &F,
    extras: Seq<Expr<()>>,
    start: Terms,
    env: RequestEnv,
    schema: Schema,
    closed: bool,
    base: Seq<Term>,
    s: Sym,
) -> (states: Seq<Terms>)
    requires
        closes_with(backend, enforce, extras, start, env, schema, closed, base),
        backend.sym.computes(s),
    ensures
        states.len() == extras.len() + 1,
        states[0] == start,
        forall|k: int|
            0 <= k < extras.len() ==> #[trigger] backend.expr_outcomes_gives(
                extras[k],
                set![EvaluationOutcome::True],
                env,
                schema,
                s,
                states[k],
                Ok(()),
                states[k + 1],
            ),
        forall|t: Term| #[trigger] start.asserts.contains(t) ==> base.contains(t),
        forall|t: Term| #[trigger] states.last().asserts.contains(t) ==> base.contains(t),
        closed ==> forall|t: Term| #[trigger] start.closed.contains(t) ==> base.contains(t),
        exists|fp: Vec<Term>, added: Vec<Term>| #[trigger]
            call_ensures(enforce, (&fp,), added) && (forall|t: Term| #[trigger]
                start.footprint.contains(t) ==> fp@.contains(t)) && (forall|t: Term| #[trigger]
                added@.contains(t) ==> base.contains(t)),
{
    let (states, fp, added) = choose|states: Seq<Terms>, fp: Vec<Term>, added: Vec<Term>| #[trigger]
        call_ensures(enforce, (&fp,), added) && states.len() == extras.len() + 1 && states[0]
            == start && #[trigger] states.last().footprint == fp@.to_set() && base
            == states.last().asserts + added@ + (if closed {
            states.last().closed
        } else {
            seq![]
        }) && forall|s: Sym| #[trigger]
            backend.sym.computes(s) ==> extras_give(backend, extras, states, env, schema, s);
    assert(extras_give(backend, extras, states, env, schema, s));
    lemma_extras_grow(backend, extras, states, env, schema, s, 0);
    let last = states.last();
    assert forall|t: Term| #[trigger] last.asserts.contains(t) implies base.contains(t) by {
        let i = last.asserts.index_of(t);
        assert(base[i] == t);
    }
    assert forall|t: Term| #[trigger] start.asserts.contains(t) implies base.contains(t) by {
        assert(states[0].asserts.contains(t));
    }
    assert forall|t: Term| #[trigger] added@.contains(t) implies base.contains(t) by {
        let i = added@.index_of(t);
        assert(base[last.asserts.len() + i] == t);
    }
    if closed {
        assert forall|t: Term| #[trigger] start.closed.contains(t) implies base.contains(t) by {
            assert(states[0].closed.contains(t));
            let i = last.closed.index_of(t);
            assert(base[last.asserts.len() + added@.len() + i] == t);
        }
    }
    assert forall|t: Term| #[trigger] start.footprint.contains(t) implies fp@.contains(t) by {
        assert(last.footprint.contains(t));
        assert(fp@.to_set().contains(t));
    }
    assert forall|k: int| 0 <= k < extras.len() implies #[trigger] backend.expr_outcomes_gives(
        extras[k],
        set![EvaluationOutcome::True],
        env,
        schema,
        s,
        states[k],
        Ok(()),
        states[k + 1],
    ) by {
        assert(states[k + 1] == states[k + 1]);
    }
    states
}

} // verus!
