//! What the asserts of an assumption rule out: where they hold and no receiver
//! is missing, what is assumed is so.

use std::sync::Arc;

use vstd::prelude::*;

use crate::ast::{EntityUid, Expr};
use crate::evaluator::assumptions::EntityInfo;
use crate::evaluator::compile::{Compiled, Existence, Sym};
use crate::evaluator::err::EvaluationError;
use crate::evaluator::node::{FView, NKind, NTree};
use crate::evaluator::state::{
    closed_terms, decided, none_true, outcome_terms, permits, some_true, Backend, CompiledSet,
    PolicyError, Terms,
};
use crate::evaluator::term::{Model, Term};
use crate::outcome::EvaluationOutcome;
use crate::policy::{Decision, Effect, Policy, PolicySet};
use crate::typechecked::Checked;
use crate::types::{RequestEnv, Schema, Type};

verus! {

impl NTree {
    /// The outcome of the nodes in a model: that of an atom is the one of its
    /// term, and `!`, `&&`, `||` and `if` have theirs from the children that
    /// they evaluate.
    pub open spec fn answer(self, m: Model) -> EvaluationOutcome
        decreases self,
    {
        match self.kind {
            NKind::Atom { .. } => self.term.outcome(m),
            NKind::Not(x) => match x.answer(m) {
                EvaluationOutcome::True => EvaluationOutcome::False,
                EvaluationOutcome::False => EvaluationOutcome::True,
                EvaluationOutcome::Error => EvaluationOutcome::Error,
            },
            NKind::And(l, r) => match (l.answer(m), r) {
                (EvaluationOutcome::True, Some(r)) => r.answer(m),
                (o, _) => o,
            },
            NKind::Or(l, r) => match (l.answer(m), r) {
                (EvaluationOutcome::False, Some(r)) => r.answer(m),
                (o, _) => o,
            },
            NKind::If(c, a, b) => match (c.answer(m), a, b) {
                (EvaluationOutcome::True, Some(a), _) => a.answer(m),
                (EvaluationOutcome::False, _, Some(b)) => b.answer(m),
                _ => EvaluationOutcome::Error,
            },
        }
    }

    /// Nothing is missing in the model: no receiver of an access of an atom is
    /// a missing entity, and every child that is evaluated is there.
    pub open spec fn nothing_missing(self, m: Model) -> bool
        decreases self,
    {
        match self.kind {
            NKind::Atom { checks, .. } => forall|i: int|
                0 <= i < checks.len() ==> !(#[trigger] checks[i]).missing().holds(m),
            NKind::Not(x) => x.nothing_missing(m),
            NKind::And(l, r) => {
                &&& l.nothing_missing(m)
                &&& match r {
                    Some(r) => r.nothing_missing(m),
                    None => l.answer(m) is False,
                }
            },
            NKind::Or(l, r) => {
                &&& l.nothing_missing(m)
                &&& match r {
                    Some(r) => r.nothing_missing(m),
                    None => l.answer(m) is True,
                }
            },
            NKind::If(c, a, b) => {
                &&& c.nothing_missing(m)
                &&& match a {
                    Some(a) => a.nothing_missing(m),
                    None => c.answer(m) is False,
                }
                &&& match b {
                    Some(b) => b.nothing_missing(m),
                    None => c.answer(m) is True,
                }
            },
        }
    }

    /// What holds where the nodes have an outcome rules out every other: where
    /// nothing is missing, it holds only if the outcome is that of the nodes.
    pub proof fn law_took_is_the_outcome(self, o: EvaluationOutcome, m: Model)
        requires
            self.nothing_missing(m),
            self.took(o).holds(m),
        ensures
            self.answer(m) == o,
        decreases self,
    {
        let yes = EvaluationOutcome::True;
        let no = EvaluationOutcome::False;
        match self.kind {
            NKind::Atom { checks, .. } => {
                self.facts.lemma_asked(self.term, o, m);
                Existence::lemma_or_missing(
                    self.facts.asked(self.term, o),
                    checks,
                    checks.len(),
                    o,
                    m,
                );
            },
            NKind::Not(x) => {
                x.law_took_is_the_outcome(o.flip(), m);
            },
            NKind::And(l, r) => {
                let second = Term::both_of(
                    l.took(yes),
                    match r {
                        Some(r) => Some(r.took(o)),
                        None => None,
                    },
                );
                Term::lemma_or(l.took(o), second, m);
                if second.holds(m) {
                    Term::lemma_both(
                        l.took(yes),
                        match r {
                            Some(r) => Some(r.took(o)),
                            None => None,
                        },
                        m,
                    );
                    l.law_took_is_the_outcome(yes, m);
                    if let Some(r) = r {
                        r.law_took_is_the_outcome(o, m);
                    }
                } else {
                    l.law_took_is_the_outcome(o, m);
                }
            },
            NKind::Or(l, r) => {
                let second = Term::both_of(
                    l.took(no),
                    match r {
                        Some(r) => Some(r.took(o)),
                        None => None,
                    },
                );
                Term::lemma_or(l.took(o), second, m);
                if second.holds(m) {
                    Term::lemma_both(
                        l.took(no),
                        match r {
                            Some(r) => Some(r.took(o)),
                            None => None,
                        },
                        m,
                    );
                    l.law_took_is_the_outcome(no, m);
                    if let Some(r) = r {
                        r.law_took_is_the_outcome(o, m);
                    }
                } else {
                    l.law_took_is_the_outcome(o, m);
                }
            },
            NKind::If(c, a, b) => {
                let ta = match a {
                    Some(a) => Some(a.took(o)),
                    None => None,
                };
                let tb = match b {
                    Some(b) => Some(b.took(o)),
                    None => None,
                };
                let first = Term::both_of(c.took(yes), ta);
                let second = Term::both_of(c.took(no), tb);
                let branches = Term::or_of(first, second);
                Term::lemma_or(c.took(o), branches, m);
                Term::lemma_or(first, second, m);
                Term::lemma_both(c.took(yes), ta, m);
                Term::lemma_both(c.took(no), tb, m);
                if first.holds(m) {
                    c.law_took_is_the_outcome(yes, m);
                    if let Some(a) = a {
                        a.law_took_is_the_outcome(o, m);
                    }
                } else if second.holds(m) {
                    c.law_took_is_the_outcome(no, m);
                    if let Some(b) = b {
                        b.law_took_is_the_outcome(o, m);
                    }
                } else {
                    c.law_took_is_the_outcome(o, m);
                }
            },
        }
    }

    /// What holds where the nodes have one of some outcomes rules out the
    /// others.
    pub proof fn law_took_one_is_one_of_the_outcomes(
        self,
        outcomes: Set<EvaluationOutcome>,
        m: Model,
    )
        requires
            self.nothing_missing(m),
            self.took_one(outcomes).holds(m),
        ensures
            outcomes.contains(self.answer(m)),
    {
        let yes = self.took(EvaluationOutcome::True);
        let no = self.took(EvaluationOutcome::False);
        let err = self.took(EvaluationOutcome::Error);
        let a = if outcomes.contains(EvaluationOutcome::True) {
            yes
        } else {
            Term::Bool(false)
        };
        let b = if outcomes.contains(EvaluationOutcome::False) {
            Term::or_of(a, no)
        } else {
            a
        };
        Term::lemma_or(a, no, m);
        Term::lemma_or(b, err, m);
        if outcomes.contains(EvaluationOutcome::True) && yes.holds(m) {
            self.law_took_is_the_outcome(EvaluationOutcome::True, m);
        } else if outcomes.contains(EvaluationOutcome::False) && no.holds(m) {
            self.law_took_is_the_outcome(EvaluationOutcome::False, m);
        } else {
            self.law_took_is_the_outcome(EvaluationOutcome::Error, m);
        }
    }
}

/// What is known to have been evaluated where an expression takes one of
/// `outcomes`: it is true, it is false, or it is one of the two.
pub open spec fn facts_assumed(
    typed: &Expr<Option<Type>>,
    outcomes: Set<EvaluationOutcome>,
    s: Sym,
) -> Seq<Existence> {
    let t = outcomes.contains(EvaluationOutcome::True);
    let f = outcomes.contains(EvaluationOutcome::False);
    typed.tree().facts(
        s,
        if t && !f {
            Some(true)
        } else if f && !t {
            Some(false)
        } else {
            None
        },
    )
}

/// The asserts of the assumption that an expression takes one of `outcomes`
/// rule out the others, where nothing is missing; and if an error is not among
/// them, they say that the receivers exist that it has evaluated.
pub proof fn law_assumed_outcomes_are_said(
    typed: &Expr<Option<Type>>,
    c: Compiled,
    outcomes: Set<EvaluationOutcome>,
    s: Sym,
    m: Model,
)
    requires
        Term::all_hold(outcome_terms(*typed, c, outcomes, s), m),
        !(outcomes == Set::<EvaluationOutcome>::empty()),
    ensures
        match typed.nodes(s) {
            Ok(n) => n.nothing_missing(m) ==> outcomes.contains(n.answer(m)),
            Err(_) => outcomes.contains(c.term.outcome(m)),
        },
        !outcomes.contains(EvaluationOutcome::Error) ==> forall|i: int|
            0 <= i < facts_assumed(typed, outcomes, s).len() ==> (#[trigger] facts_assumed(
                typed,
                outcomes,
                s,
            )[i]).present().holds(m),
{
    let terms = outcome_terms(*typed, c, outcomes, s);
    assert(terms[0].holds(m));
    match typed.nodes(s) {
        Ok(n) => {
            if n.nothing_missing(m) {
                n.law_took_one_is_one_of_the_outcomes(outcomes, m);
            }
        },
        Err(_) => {
            Term::law_takes(c.term, outcomes, m);
        },
    }
    if !outcomes.contains(EvaluationOutcome::Error) {
        lemma_truth(outcomes);
        let facts = facts_assumed(typed, outcomes, s);
        assert forall|i: int| 0 <= i < facts.len() implies (
        #[trigger] facts[i]).present().holds(m) by {
            assert(terms[i + 1] == facts[i].present());
            assert(terms[i + 1].holds(m));
        }
    }
}

/// What is known of an expression that does not err.
proof fn lemma_truth(outcomes: Set<EvaluationOutcome>)
    requires
        !outcomes.contains(EvaluationOutcome::Error),
        !(outcomes == Set::<EvaluationOutcome>::empty()),
    ensures
        ({
            let t = outcomes.contains(EvaluationOutcome::True);
            let f = outcomes.contains(EvaluationOutcome::False);
            crate::evaluator::state::truth_of(outcomes) == if t && !f {
                Some(true)
            } else if f && !t {
                Some(false)
            } else {
                None
            }
        }),
{
    let t = outcomes.contains(EvaluationOutcome::True);
    let f = outcomes.contains(EvaluationOutcome::False);
    if t && !f {
        assert(outcomes =~= set![EvaluationOutcome::True]);
    } else if f && !t {
        assert(outcomes =~= set![EvaluationOutcome::False]);
        assert(!set![EvaluationOutcome::True].contains(EvaluationOutcome::False));
    } else if t && f {
        assert(!set![EvaluationOutcome::True].contains(EvaluationOutcome::False));
        assert(!set![EvaluationOutcome::False].contains(EvaluationOutcome::True));
    } else {
        assert(outcomes =~= Set::empty());
    }
}

/// What an assumption says more where no entity is missing is exactly that its
/// term has one of the outcomes.
pub proof fn law_closed_terms_say_the_outcome(
    c: Compiled,
    outcomes: Set<EvaluationOutcome>,
    m: Model,
)
    ensures
        Term::all_hold(closed_terms(c, outcomes), m) <==> outcomes.contains(c.term.outcome(m)),
{
    let ts = closed_terms(c, outcomes);
    Term::law_takes(c.term, outcomes, m);
    assert(ts[0] == Term::takes(c.term, outcomes));
    assert(ts.len() == 1);
}

/// Once an assumption about an expression is compiled, its asserts hold in a
/// model only where those before held, the expression takes one of the assumed
/// outcomes (where nothing is missing), and its term does if the closed terms
/// hold.
pub proof fn law_compiled_assumption_is_said<
    K: Fn(&Policy, &RequestEnv) -> Checked,
    C: Fn(&Expr<()>) -> Result<Compiled, String>,
    P: Fn(&PolicySet, &RequestEnv) -> Result<CompiledSet, PolicyError>,
    I: Fn(&EntityUid) -> EntityInfo,
>(
    backend: &Backend<K, C, P, I>,
    expr: Expr<()>,
    outcomes: Set<EvaluationOutcome>,
    env: RequestEnv,
    schema: Schema,
    s: Sym,
    before: Terms,
    after: Terms,
    m: Model,
) -> (typed: Arc<Expr<Option<Type>>>)
    requires
        backend.expr_outcomes_gives(expr, outcomes, env, schema, s, before, Ok(()), after),
        !(outcomes == Set::<EvaluationOutcome>::empty()),
        Term::all_hold(after.asserts, m),
    ensures
        crate::evaluator::compile::typecheck_gives(
            &expr,
            &env,
            &schema,
            &backend.check,
            Ok(typed),
        ),
        (s.compile)(typed.tree()) is Ok,
        Term::all_hold(before.asserts, m),
        typed.nodes(s) matches Ok(n) ==> n.nothing_missing(m) ==> outcomes.contains(n.answer(m)),
        Term::all_hold(after.closed, m) ==> Term::all_hold(before.closed, m) && outcomes.contains(
            (s.compile)(typed.tree())->Ok_0.term.outcome(m),
        ),
        forall|t: Term| #[trigger] before.footprint.contains(t) ==> after.footprint.contains(t),
        forall|t: Term| #[trigger]
            (s.compile)(typed.tree())->Ok_0.footprint@.contains(t) ==> after.footprint.contains(t),
{
    let t = choose|t: Result<Arc<Expr<Option<Type>>>, EvaluationError>| #[trigger]
        crate::evaluator::compile::typecheck_gives(&expr, &env, &schema, &backend.check, t)
            && match t {
            Ok(typed) => match (s.compile)(typed.tree()) {
                Ok(c) => after == before.plus_open(
                    outcome_terms(*typed, c, outcomes, s),
                    closed_terms(c, outcomes),
                    c.footprint@.to_set(),
                ),
                Err(_) => false,
            },
            Err(_) => false,
        };
    let x = t->Ok_0;
    let c = (s.compile)(x.tree())->Ok_0;
    let added = after.asserts.skip(before.asserts.len() as int);
    assert(added =~= outcome_terms(*x, c, outcomes, s));
    assert(after.asserts =~= before.asserts + added);
    Term::lemma_all_hold_append(before.asserts, added, m);
    law_assumed_outcomes_are_said(&*x, c, outcomes, s, m);
    let more = after.closed.skip(before.closed.len() as int);
    assert(more =~= closed_terms(c, outcomes));
    assert(after.closed =~= before.closed + more);
    Term::lemma_all_hold_append(before.closed, more, m);
    law_closed_terms_say_the_outcome(c, outcomes, m);
    assert forall|t: Term| #[trigger] c.footprint@.contains(t) implies after.footprint.contains(
        t,
    ) by {
        assert(c.footprint@.to_set().contains(t));
    }
    x
}

/// Some policy with the effect is true in the model.
pub open spec fn some_answers_true(ps: Seq<Policy>, ns: Seq<NTree>, effect: Effect, m: Model) ->
    bool {
    exists|i: int|
        0 <= i < ns.len() && (#[trigger] ps[i]).effect == effect && ns[i].answer(m) is True
}

proof fn lemma_some_true(ps: Seq<Policy>, ns: Seq<NTree>, effect: Effect, n: nat, m: Model)
    requires
        n <= ns.len(),
        forall|i: int| 0 <= i < ns.len() ==> (#[trigger] ns[i]).nothing_missing(m),
        some_true(ps, ns, effect, n).holds(m),
    ensures
        some_answers_true(ps, ns, effect, m),
    decreases n,
{
    if n > 0 {
        let rest = some_true(ps, ns, effect, (n - 1) as nat);
        let took = ns[n - 1].took(EvaluationOutcome::True);
        if ps[n - 1].effect == effect {
            Term::lemma_or(rest, took, m);
            if took.holds(m) {
                assert(ns[n - 1].nothing_missing(m));
                ns[n - 1].law_took_is_the_outcome(EvaluationOutcome::True, m);
                assert(ps[n - 1].effect == effect && ns[n - 1].answer(m) is True);
            } else {
                lemma_some_true(ps, ns, effect, (n - 1) as nat, m);
            }
        } else {
            lemma_some_true(ps, ns, effect, (n - 1) as nat, m);
        }
    }
}

proof fn lemma_none_true(ps: Seq<Policy>, ns: Seq<NTree>, effect: Effect, n: nat, m: Model)
    requires
        n <= ns.len(),
        forall|i: int| 0 <= i < ns.len() ==> (#[trigger] ns[i]).nothing_missing(m),
        none_true(ps, ns, effect, n).holds(m),
    ensures
        forall|i: int|
            0 <= i < n && (#[trigger] ps[i]).effect == effect ==> !(ns[i].answer(m) is True),
    decreases n,
{
    if n > 0 {
        let rest = none_true(ps, ns, effect, (n - 1) as nat);
        let no = ns[n - 1].took(EvaluationOutcome::False);
        let err = ns[n - 1].took(EvaluationOutcome::Error);
        if ps[n - 1].effect == effect {
            assert(rest.holds(m) && Term::or_of(no, err).holds(m));
            Term::lemma_or(no, err, m);
            assert(ns[n - 1].nothing_missing(m));
            if no.holds(m) {
                ns[n - 1].law_took_is_the_outcome(EvaluationOutcome::False, m);
            } else {
                ns[n - 1].law_took_is_the_outcome(EvaluationOutcome::Error, m);
            }
        }
        lemma_none_true(ps, ns, effect, (n - 1) as nat, m);
    }
}

/// The assert that policies come to a decision rules out the other: where
/// nothing is missing, it holds for `Allow` only if some permit is true and no
/// forbid is, and for `Deny` only if no permit is true or some forbid is.
pub proof fn law_assumed_decision_is_said(
    ps: Seq<Policy>,
    ns: Seq<NTree>,
    decision: Decision,
    m: Model,
)
    requires
        ns.len() == ps.len(),
        forall|i: int| 0 <= i < ns.len() ==> (#[trigger] ns[i]).nothing_missing(m),
        decided(ps, ns, decision).holds(m),
    ensures
        decision is Allow <==> some_answers_true(ps, ns, Effect::Permit, m) && !some_answers_true(
            ps,
            ns,
            Effect::Forbid,
            m,
        ),
{
    if decision == Decision::Allow {
        lemma_some_true(ps, ns, Effect::Permit, ns.len(), m);
        lemma_none_true(ps, ns, Effect::Forbid, ns.len(), m);
    } else {
        let none = none_true(ps, ns, Effect::Permit, ns.len());
        let some = some_true(ps, ns, Effect::Forbid, ns.len());
        assert(none.holds(m) || some.holds(m));
        if none.holds(m) {
            lemma_none_true(ps, ns, Effect::Permit, ns.len(), m);
        } else {
            lemma_some_true(ps, ns, Effect::Forbid, ns.len(), m);
        }
    }
}

/// The policies that permit are those with that effect, each once and in their
/// order.
pub proof fn law_permits_are_those_with_the_effect(ps: Seq<Policy>) -> (at: Seq<int>)
    ensures
        at.len() == permits(ps).len(),
        forall|k: int|
            0 <= k < at.len() ==> 0 <= (#[trigger] at[k]) < ps.len() && ps[at[k]].effect is Permit
                && permits(ps)[k] == ps[at[k]],
        forall|k: int, l: int| 0 <= k < l < at.len() ==> (#[trigger] at[k]) < (#[trigger] at[l]),
        forall|i: int|
            0 <= i < ps.len() && (#[trigger] ps[i]).effect is Permit ==> at.contains(i),
    decreases ps.len(),
{
    if ps.len() == 0 {
        seq![]
    } else {
        let n = ps.len() - 1;
        let front = law_permits_are_those_with_the_effect(ps.drop_last());
        assert forall|i: int| 0 <= i < n implies #[trigger] ps.drop_last()[i] == ps[i] by {}
        assert forall|k: int| 0 <= k < front.len() implies 0 <= (#[trigger] front[k]) < n
            && ps[front[k]].effect is Permit && permits(ps.drop_last())[k] == ps[front[k]] by {
            assert(ps.drop_last()[front[k]] == ps[front[k]]);
        }
        if ps.last().effect == Effect::Permit {
            let at = front.push(n);
            assert forall|i: int|
                0 <= i < ps.len() && (#[trigger] ps[i]).effect is Permit implies at.contains(i) by {
                if i < n {
                    assert(ps.drop_last()[i].effect is Permit);
                    let j = front.index_of(i);
                    assert(at[j] == i);
                } else {
                    assert(at[front.len() as int] == i);
                }
            }
            at
        } else {
            assert forall|i: int|
                0 <= i < ps.len() && (#[trigger] ps[i]).effect is Permit implies front.contains(
                i,
            ) by {
                assert(ps.drop_last()[i].effect is Permit);
            }
            front
        }
    }
}

/// What a structure node is known to have evaluated: a true `&&` both operands,
/// as true, and a false `||` both, as false; `!` its operand with the other
/// value; otherwise the left operand or the test, with either value.
pub proof fn law_structure_knows_what_it_evaluated(kind: NKind, e: Existence)
    ensures
        ({
            let f = FView::of_structure(kind);
            match kind {
                NKind::And(l, Some(r)) => {
                    &&& f.on_true.contains(e) <==> l.facts.on_true.contains(e)
                        || r.facts.on_true.contains(e)
                    &&& f.on_false.contains(e) <==> l.facts.any.contains(e)
                    &&& f.any.contains(e) <==> l.facts.any.contains(e)
                },
                NKind::Or(l, Some(r)) => {
                    &&& f.on_false.contains(e) <==> l.facts.on_false.contains(e)
                        || r.facts.on_false.contains(e)
                    &&& f.on_true.contains(e) <==> l.facts.any.contains(e)
                    &&& f.any.contains(e) <==> l.facts.any.contains(e)
                },
                NKind::Not(x) => {
                    &&& f.on_true.contains(e) <==> x.facts.on_false.contains(e)
                    &&& f.on_false.contains(e) <==> x.facts.on_true.contains(e)
                    &&& f.any.contains(e) <==> x.facts.any.contains(e)
                },
                NKind::If(c, _, _) => {
                    &&& f.on_true.contains(e) <==> c.facts.any.contains(e)
                    &&& f.on_false.contains(e) <==> c.facts.any.contains(e)
                    &&& f.any.contains(e) <==> c.facts.any.contains(e)
                },
                _ => true,
            }
        }),
{
    match kind {
        NKind::And(l, Some(r)) => {
            lemma_contains_append(l.facts.on_true, r.facts.on_true, e);
        },
        NKind::Or(l, Some(r)) => {
            lemma_contains_append(l.facts.on_false, r.facts.on_false, e);
        },
        _ => {},
    }
}

proof fn lemma_contains_append(a: Seq<Existence>, b: Seq<Existence>, e: Existence)
    ensures
        (a + b).contains(e) <==> a.contains(e) || b.contains(e),
{
    if a.contains(e) {
        let i = a.index_of(e);
        assert((a + b)[i] == e);
    }
    if b.contains(e) {
        let i = b.index_of(e);
        assert((a + b)[a.len() + i] == e);
    }
    if (a + b).contains(e) {
        let i = (a + b).index_of(e);
        if i < a.len() {
            assert(a[i] == e);
        } else {
            assert(b[i - a.len()] == e);
        }
    }
}

} // verus!
