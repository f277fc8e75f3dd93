//! What the result of an evaluation says of the expression.
//!
//! The laws are relative to the compiler and the solver: to what the terms of
//! the nodes denote on an input, and to whether the solver's answers are
//! right.

use vstd::prelude::*;

use crate::ast::{Expr, ExprKind, UnaryOp};
use crate::evaluator::compile::{Existence, Sym};
use crate::evaluator::metadata::{ETree, EvaluationMetadata};
use crate::evaluator::node::{FView, NKind, NTree};
use crate::evaluator::run::{Given, St};
use crate::evaluator::term::{Model, Term};
use crate::model::World;
use crate::outcome::{EvaluationOutcome, Outcomes};
use crate::tree::{Op, Tree};
use crate::types::Type;

verus! {

/// The inputs that satisfy the assumptions, and what each gives the terms.
pub struct Setting {
    pub envs: spec_fn(World) -> bool,
    pub model: spec_fn(World) -> Model,
}

/// `a` is a prefix of `b`.
pub open spec fn extends(a: Seq<Seq<Term>>, b: Seq<Seq<Term>>) -> bool {
    a.len() <= b.len() && forall|i: int| 0 <= i < a.len() ==> a[i] == #[trigger] b[i]
}

impl Setting {
    /// The solver's answers to the queries `log` are sound: what it says is
    /// unsatisfiable holds on no input.
    pub open spec fn sound(self, q: Given, log: Seq<Seq<Term>>) -> bool {
        &&& log.len() <= q.answers.len()
        &&& forall|i: int, w: World|
            0 <= i < log.len() && q.answers[i] && (self.envs)(w) ==> !#[trigger] Term::all_hold(
                log[i],
                (self.model)(w),
            )
    }

    /// The solver's answers are exact: what it does not say is unsatisfiable
    /// holds on some input.
    pub open spec fn exact(self, q: Given, log: Seq<Seq<Term>>) -> bool {
        &&& self.sound(q, log)
        &&& forall|i: int|
            0 <= i < log.len() && !q.answers[i] ==> exists|w: World|
                (self.envs)(w) && #[trigger] Term::all_hold(log[i], (self.model)(w))
    }

    /// The asserts that every query starts with hold on every input.
    pub open spec fn assumes(self, base: Seq<Term>) -> bool {
        forall|w: World| (self.envs)(w) ==> #[trigger] Term::all_hold(base, (self.model)(w))
    }

    proof fn lemma_sound_prefix(self, q: Given, a: Seq<Seq<Term>>, b: Seq<Seq<Term>>)
        requires
            self.sound(q, b),
            extends(a, b),
        ensures
            self.sound(q, a),
    {
        assert forall|i: int, w: World|
            0 <= i < a.len() && q.answers[i] && (self.envs)(w) implies !#[trigger] Term::all_hold(
            a[i],
            (self.model)(w),
        ) by {
            assert(a[i] == b[i]);
            assert(!Term::all_hold(b[i], (self.model)(w)));
        }
    }

    proof fn lemma_exact_prefix(self, q: Given, a: Seq<Seq<Term>>, b: Seq<Seq<Term>>)
        requires
            self.exact(q, b),
            extends(a, b),
        ensures
            self.exact(q, a),
    {
        self.lemma_sound_prefix(q, a, b);
        assert forall|i: int| 0 <= i < a.len() && !q.answers[i] implies exists|w: World|
            (self.envs)(w) && #[trigger] Term::all_hold(a[i], (self.model)(w)) by {
            assert(a[i] == b[i]);
            let w = choose|w: World|
                (self.envs)(w) && #[trigger] Term::all_hold(b[i], (self.model)(w));
            assert(Term::all_hold(a[i], (self.model)(w)));
        }
    }
}

impl Term {
    pub proof fn lemma_all_hold_append(a: Seq<Term>, b: Seq<Term>, m: Model)
        ensures
            Term::all_hold(a + b, m) <==> Term::all_hold(a, m) && Term::all_hold(b, m),
    {
        if Term::all_hold(a + b, m) {
            assert forall|i: int| 0 <= i < a.len() implies (#[trigger] a[i]).holds(m) by {
                assert((a + b)[i].holds(m));
            }
            assert forall|i: int| 0 <= i < b.len() implies (#[trigger] b[i]).holds(m) by {
                assert((a + b)[a.len() + i].holds(m));
            }
        }
    }

    proof fn lemma_all_hold_push(a: Seq<Term>, t: Term, m: Model)
        ensures
            Term::all_hold(a.push(t), m) <==> Term::all_hold(a, m) && t.holds(m),
    {
        assert(a.push(t) =~= a + seq![t]);
        Term::lemma_all_hold_append(a, seq![t], m);
        assert(seq![t][0] == t);
    }
}

impl Given {
    /// Asking adds to the log.
    proof fn lemma_ask(self, set: Setting, trail: Seq<Term>, c: Term, st: St, w: World)
        requires
            self.ask(trail, c, st) is Got,
            set.sound(self, self.ask(trail, c, st)->Got_1.log),
            (set.envs)(w),
            Term::all_hold(self.base, (set.model)(w)),
            Term::all_hold(trail, (set.model)(w)),
            c.holds((set.model)(w)),
        ensures
            !self.ask(trail, c, st)->Got_0,
    {
        let m = (set.model)(w);
        let asserts = (self.base + trail).push(c);
        Term::lemma_all_hold_append(self.base, trail, m);
        Term::lemma_all_hold_push(self.base + trail, c, m);
        let log = self.ask(trail, c, st)->Got_1.log;
        assert(log[st.log.len() as int] == asserts);
        assert(Term::all_hold(log[st.log.len() as int], m));
    }

    /// A satisfiable question has an input.
    proof fn lemma_ask_exact(self, set: Setting, trail: Seq<Term>, c: Term, st: St) -> (w: World)
        requires
            self.ask(trail, c, st) is Got,
            set.exact(self, self.ask(trail, c, st)->Got_1.log),
            !self.ask(trail, c, st)->Got_0,
        ensures
            (set.envs)(w),
            Term::all_hold(trail, (set.model)(w)),
            c.holds((set.model)(w)),
    {
        let log = self.ask(trail, c, st)->Got_1.log;
        let i = st.log.len() as int;
        assert(log[i] == (self.base + trail).push(c));
        let w = choose|w: World|
            (set.envs)(w) && #[trigger] Term::all_hold(log[i], (set.model)(w));
        Term::lemma_all_hold_push(self.base + trail, c, (set.model)(w));
        Term::lemma_all_hold_append(self.base, trail, (set.model)(w));
        w
    }

    proof fn lemma_term_grows(self, term: Term, facts: FView, trail: Seq<Term>, st: St)
        requires
            self.term_outcomes(term, facts, trail, st) is Got,
        ensures
            extends(st.log, self.term_outcomes(term, facts, trail, st)->Got_1.log),
    {
    }

    proof fn lemma_checks_grow(
        self,
        checks: Seq<Existence>,
        n: nat,
        o: Set<EvaluationOutcome>,
        trail: Seq<Term>,
        st: St,
    )
        requires
            self.with_checks(checks, n, o, trail, st) is Got,
        ensures
            extends(st.log, self.with_checks(checks, n, o, trail, st)->Got_1.log),
            o.subset_of(self.with_checks(checks, n, o, trail, st)->Got_0),
        decreases n,
    {
        if n > 0 {
            self.lemma_checks_grow(checks, (n - 1) as nat, o, trail, st);
        }
    }

    proof fn lemma_atom_grows(
        self,
        term: Term,
        facts: FView,
        checks: Seq<Existence>,
        trail: Seq<Term>,
        st: St,
    )
        requires
            self.atom_outcomes(term, facts, checks, trail, st) is Got,
        ensures
            extends(st.log, self.atom_outcomes(term, facts, checks, trail, st)->Got_1.log),
    {
        self.lemma_term_grows(term, facts, trail, st);
        let o = self.term_outcomes(term, facts, trail, st)->Got_0;
        let st1 = self.term_outcomes(term, facts, trail, st)->Got_1;
        self.lemma_checks_grow(checks, checks.len(), o, trail, st1);
    }

    /// The outcome that a term denotes on an input is among those found.
    proof fn lemma_term_sound(
        self,
        set: Setting,
        term: Term,
        facts: FView,
        trail: Seq<Term>,
        st: St,
        w: World,
    )
        requires
            term.outcome((set.model)(w)) is True ==> Term::all_hold(
                facts.known(true),
                (set.model)(w),
            ),
            term.outcome((set.model)(w)) is False ==> Term::all_hold(
                facts.known(false),
                (set.model)(w),
            ),
            self.term_outcomes(term, facts, trail, st) is Got,
            set.sound(self, self.term_outcomes(term, facts, trail, st)->Got_1.log),
            (set.envs)(w),
            Term::all_hold(self.base, (set.model)(w)),
            Term::all_hold(trail, (set.model)(w)),
        ensures
            self.term_outcomes(term, facts, trail, st)->Got_0.contains(term.outcome((set.model)(w))),
    {
        let m = (set.model)(w);
        let log = self.term_outcomes(term, facts, trail, st)->Got_1.log;
        term.lemma_questions(m);
        if term.literal() is Some {
            term.lemma_literal(m);
        } else {
            let yes = facts.question(term, true);
            let no = facts.question(term, false);
            Term::lemma_and_all(Term::is_bool(term, true), facts.known(true), m);
            Term::lemma_and_all(Term::is_bool(term, false), facts.known(false), m);
            let none = Term::is_none_of(term);
            let st1 = self.ask(trail, yes, st)->Got_1;
            let st2 = self.ask(trail, no, st1)->Got_1;
            set.lemma_sound_prefix(self, st1.log, log);
            set.lemma_sound_prefix(self, st2.log, log);
            match term.outcome(m) {
                EvaluationOutcome::True => self.lemma_ask(set, trail, yes, st, w),
                EvaluationOutcome::False => self.lemma_ask(set, trail, no, st1, w),
                EvaluationOutcome::Error => if none != Term::Bool(false) {
                    self.lemma_ask(set, trail, none, st2, w)
                },
            }
        }
    }

    /// What a missing receiver adds is among the outcomes found.
    proof fn lemma_checks_sound(
        self,
        set: Setting,
        checks: Seq<Existence>,
        n: nat,
        o: Set<EvaluationOutcome>,
        trail: Seq<Term>,
        st: St,
        w: World,
        i: int,
    )
        requires
            self.with_checks(checks, n, o, trail, st) is Got,
            set.sound(self, self.with_checks(checks, n, o, trail, st)->Got_1.log),
            (set.envs)(w),
            Term::all_hold(self.base, (set.model)(w)),
            Term::all_hold(trail, (set.model)(w)),
            0 <= i < n <= checks.len(),
            checks[i].missing().holds((set.model)(w)),
        ensures
            checks[i].adds.set().subset_of(self.with_checks(checks, n, o, trail, st)->Got_0),
        decreases n,
    {
        let log = self.with_checks(checks, n, o, trail, st)->Got_1.log;
        let prev = self.with_checks(checks, (n - 1) as nat, o, trail, st);
        let st1 = prev->Got_1;
        let c = checks[n - 1];
        if c.adds.set().subset_of(prev->Got_0) {
        } else {
            assert(self.ask(trail, c.missing(), st1) is Got);
        }
        set.lemma_sound_prefix(self, st1.log, log);
        if i < n - 1 {
            self.lemma_checks_sound(set, checks, (n - 1) as nat, o, trail, st, w, i);
        } else if !c.adds.set().subset_of(prev->Got_0) {
            self.lemma_ask(set, trail, c.missing(), st1, w);
        }
    }

    /// Where no receiver is missing on any input, exact answers add nothing.
    proof fn lemma_checks_exact(
        self,
        set: Setting,
        checks: Seq<Existence>,
        n: nat,
        o: Set<EvaluationOutcome>,
        trail: Seq<Term>,
        st: St,
    )
        requires
            self.with_checks(checks, n, o, trail, st) is Got,
            set.exact(self, self.with_checks(checks, n, o, trail, st)->Got_1.log),
            n <= checks.len(),
            forall|i: int, w: World|
                0 <= i < checks.len() && (set.envs)(w) ==> !(#[trigger] checks[i].missing()).holds(
                    #[trigger] (set.model)(w),
                ),
        ensures
            self.with_checks(checks, n, o, trail, st)->Got_0 == o,
        decreases n,
    {
        if n > 0 {
            let log = self.with_checks(checks, n, o, trail, st)->Got_1.log;
            let prev = self.with_checks(checks, (n - 1) as nat, o, trail, st);
            let st1 = prev->Got_1;
            let c = checks[n - 1];
            if c.adds.set().subset_of(prev->Got_0) {
            } else {
                assert(self.ask(trail, c.missing(), st1) is Got);
                if !self.ask(trail, c.missing(), st1)->Got_0 {
                    let w = self.lemma_ask_exact(set, trail, c.missing(), st1);
                    assert(!checks[n - 1].missing().holds((set.model)(w)));
                }
            }
            set.lemma_exact_prefix(self, st1.log, log);
            self.lemma_checks_exact(set, checks, (n - 1) as nat, o, trail, st);
        }
    }

    /// Each outcome found for a term that is asked about is denoted on some
    /// input.
    proof fn lemma_term_exact(
        self,
        set: Setting,
        term: Term,
        facts: FView,
        trail: Seq<Term>,
        st: St,
        o: EvaluationOutcome,
    ) -> (w: World)
        requires
            self.term_outcomes(term, facts, trail, st) is Got,
            set.exact(self, self.term_outcomes(term, facts, trail, st)->Got_1.log),
            self.term_outcomes(term, facts, trail, st)->Got_0.contains(o),
            exists|v: World| (set.envs)(v) && #[trigger] Term::all_hold(trail, (set.model)(v)),
        ensures
            (set.envs)(w),
            Term::all_hold(trail, (set.model)(w)),
            term.outcome((set.model)(w)) == o,
    {
        let log = self.term_outcomes(term, facts, trail, st)->Got_1.log;
        if term.literal() is Some {
            let w = choose|v: World|
                (set.envs)(v) && #[trigger] Term::all_hold(trail, (set.model)(v));
            term.lemma_literal((set.model)(w));
            w
        } else {
            let yes = facts.question(term, true);
            let no = facts.question(term, false);
            let none = Term::is_none_of(term);
            let st1 = self.ask(trail, yes, st)->Got_1;
            let st2 = self.ask(trail, no, st1)->Got_1;
            set.lemma_exact_prefix(self, st1.log, log);
            set.lemma_exact_prefix(self, st2.log, log);
            let w = match o {
                EvaluationOutcome::True => self.lemma_ask_exact(set, trail, yes, st),
                EvaluationOutcome::False => self.lemma_ask_exact(set, trail, no, st1),
                EvaluationOutcome::Error => self.lemma_ask_exact(set, trail, none, st2),
            };
            let m = (set.model)(w);
            term.lemma_questions(m);
            Term::lemma_and_all(Term::is_bool(term, true), facts.known(true), m);
            Term::lemma_and_all(Term::is_bool(term, false), facts.known(false), m);
            w
        }
    }
}

impl NTree {
    /// The outcome of the node's expression on an input.
    pub open spec fn outcome(self, w: World) -> EvaluationOutcome {
        self.expr.tree().outcome(w)
    }

    /// The nodes are those of the expression.
    pub open spec fn mirrors(self) -> bool
        decreases self,
    {
        match self.kind {
            NKind::And(l, r) => self.expr.kind matches ExprKind::And { left, right } && {
                &&& l.expr == *left
                &&& l.mirrors()
                &&& r matches Some(r) ==> r.expr == *right && r.mirrors()
            },
            NKind::Or(l, r) => self.expr.kind matches ExprKind::Or { left, right } && {
                &&& l.expr == *left
                &&& l.mirrors()
                &&& r matches Some(r) ==> r.expr == *right && r.mirrors()
            },
            NKind::If(c, a, b) => self.expr.kind matches ExprKind::If {
                test_expr,
                then_expr,
                else_expr,
            } && {
                &&& c.expr == *test_expr
                &&& c.mirrors()
                &&& a matches Some(a) ==> a.expr == *then_expr && a.mirrors()
                &&& b matches Some(b) ==> b.expr == *else_expr && b.mirrors()
            },
            NKind::Not(x) => self.expr.kind matches ExprKind::UnaryApp { op, arg } && op
                == UnaryOp::Not && x.expr == *arg && x.mirrors(),
            NKind::Atom { .. } => true,
        }
    }

    /// The terms are right about the input, as far as evaluation gets: an
    /// atom's outcome is denoted by its term, or is one that a missing
    /// receiver adds; the receivers of the facts of a boolean exist; and where
    /// an operand takes the value that lets the next one be evaluated, what is
    /// put on the trail holds. This follows from the
    /// compiler being right about the input ([`NTree::lemma_faithful`]).
    pub open spec fn faithful(self, set: Setting, w: World) -> bool
        decreases self,
    {
        let m = (set.model)(w);
        match self.kind {
            NKind::Atom { checks, .. } => {
                &&& self.term.outcome(m) == self.outcome(w) || exists|i: int|
                    0 <= i < checks.len() && (#[trigger] checks[i]).missing().holds(m)
                        && checks[i].adds.set().contains(self.outcome(w))
                &&& self.outcome(w) is True ==> Term::all_hold(self.facts.known(true), m)
                &&& self.outcome(w) is False ==> Term::all_hold(self.facts.known(false), m)
            },
            NKind::Not(x) => x.faithful(set, w),
            NKind::And(l, r) => {
                &&& l.faithful(set, w)
                &&& l.outcome(w) is True ==> {
                    &&& Term::all_hold(l.trail(true), m)
                    &&& r matches Some(r) ==> r.faithful(set, w)
                }
            },
            NKind::Or(l, r) => {
                &&& l.faithful(set, w)
                &&& l.outcome(w) is False ==> {
                    &&& Term::all_hold(l.trail(false), m)
                    &&& r matches Some(r) ==> r.faithful(set, w)
                }
            },
            NKind::If(c, a, b) => {
                &&& c.faithful(set, w)
                &&& c.outcome(w) is True ==> {
                    &&& Term::all_hold(c.trail(true), m)
                    &&& a matches Some(a) ==> a.faithful(set, w)
                }
                &&& c.outcome(w) is False ==> {
                    &&& Term::all_hold(c.trail(false), m)
                    &&& b matches Some(b) ==> b.faithful(set, w)
                }
            },
        }
    }

    /// The log only grows.
    proof fn lemma_grows(self, q: Given, trail: Seq<Term>, st: St)
        requires
            self.eval(q, trail, st) is Got,
        ensures
            extends(st.log, self.eval(q, trail, st)->Got_1.log),
        decreases self, 1nat,
    {
        self.lemma_inner_grows(q, trail, st);
    }

    proof fn lemma_inner_grows(self, q: Given, trail: Seq<Term>, st: St)
        requires
            self.eval_inner(q, trail, st) is Got,
        ensures
            extends(st.log, self.eval_inner(q, trail, st)->Got_1.log),
        decreases self, 0nat,
    {
        match self.kind {
            NKind::Atom { checks, .. } => {
                q.lemma_atom_grows(self.term, self.facts, checks, trail, st);
            },
            NKind::Not(x) => {
                x.lemma_grows(q, trail, st);
            },
            NKind::And(l, r) => {
                l.lemma_grows(q, trail, st);
                let lv = l.eval(q, trail, st)->Got_0;
                let st1 = l.eval(q, trail, st)->Got_1;
                match r {
                    Some(r) => {
                        if r.eval(q, trail, st1) is Got {
                            r.lemma_grows(q, trail, st1);
                        }
                        if r.eval(q, trail + l.trail(true), st1) is Got {
                            r.lemma_grows(q, trail + l.trail(true), st1);
                        }
                    },
                    None => {},
                }
            },
            NKind::Or(l, r) => {
                l.lemma_grows(q, trail, st);
                let st1 = l.eval(q, trail, st)->Got_1;
                match r {
                    Some(r) => {
                        if r.eval(q, trail, st1) is Got {
                            r.lemma_grows(q, trail, st1);
                        }
                        if r.eval(q, trail + l.trail(false), st1) is Got {
                            r.lemma_grows(q, trail + l.trail(false), st1);
                        }
                    },
                    None => {},
                }
            },
            NKind::If(c, a, b) => {
                c.lemma_grows(q, trail, st);
                let cv = c.eval(q, trail, st)->Got_0;
                let st1 = c.eval(q, trail, st)->Got_1;
                if a is Some && a->Some_0.eval(q, trail, st1) is Got {
                    a->Some_0.lemma_grows(q, trail, st1);
                }
                if b is Some && b->Some_0.eval(q, trail, st1) is Got {
                    b->Some_0.lemma_grows(q, trail, st1);
                }
                if a is Some && b is Some {
                    let st2 = if cv.outcomes.contains(EvaluationOutcome::True) {
                        let ev = a->Some_0.eval(q, trail + c.trail(true), st1);
                        if ev is Got {
                            a->Some_0.lemma_grows(q, trail + c.trail(true), st1);
                        }
                        ev->Got_1
                    } else {
                        st1
                    };
                    let ev = b->Some_0.eval(q, trail + c.trail(false), st2);
                    if ev is Got {
                        b->Some_0.lemma_grows(q, trail + c.trail(false), st2);
                    }
                }
            },
        }
    }
}

impl Tree {
    pub proof fn lemma_and_outcome(a: Tree, b: Tree, w: World)
        ensures
            Tree::and(a, b).outcome(w) == (match a.outcome(w) {
                EvaluationOutcome::True => b.outcome(w),
                other => other,
            }),
    {
        assert(Tree::and(a, b).kids[0] == a && Tree::and(a, b).kids[1] == b);
    }

    pub proof fn lemma_or_outcome(a: Tree, b: Tree, w: World)
        ensures
            Tree::or(a, b).outcome(w) == (match a.outcome(w) {
                EvaluationOutcome::False => b.outcome(w),
                other => other,
            }),
    {
        assert(Tree::or(a, b).kids[0] == a && Tree::or(a, b).kids[1] == b);
    }

    pub proof fn lemma_not_outcome(a: Tree, w: World)
        ensures
            Tree::not(a).outcome(w) == a.outcome(w).flip(),
    {
        assert(Tree::not(a).kids[0] == a);
    }

    pub proof fn lemma_ite_outcome(c: Tree, a: Tree, b: Tree, w: World)
        ensures
            Tree::ite(c, a, b).outcome(w) == (match c.outcome(w) {
                EvaluationOutcome::True => a.outcome(w),
                EvaluationOutcome::False => b.outcome(w),
                EvaluationOutcome::Error => EvaluationOutcome::Error,
            }),
    {
        let t = Tree::ite(c, a, b);
        assert(t.kids[0] == c && t.kids[1] == a && t.kids[2] == b);
    }
}

impl FView {
    /// What is asked of a term holds where it has the outcome and the facts
    /// hold.
    pub proof fn lemma_asked(self, term: Term, o: EvaluationOutcome, m: Model)
        ensures
            self.asked(term, o).holds(m) <==> {
                &&& term.outcome(m) == o
                &&& o is True ==> Term::all_hold(self.known(true), m)
                &&& o is False ==> Term::all_hold(self.known(false), m)
            },
    {
        term.lemma_questions(m);
        Term::lemma_and_all(Term::is_bool(term, true), self.known(true), m);
        Term::lemma_and_all(Term::is_bool(term, false), self.known(false), m);
    }
}

impl Existence {
    /// A disjunction over checks holds where `t` does, or where the receiver
    /// of one that lets the atom have the outcome `o` is missing.
    pub proof fn lemma_or_missing(
        t: Term,
        checks: Seq<Existence>,
        n: nat,
        o: EvaluationOutcome,
        m: Model,
    )
        requires
            n <= checks.len(),
        ensures
            Existence::or_missing(t, checks, n, o).holds(m) <==> t.holds(m) || exists|i: int|
                0 <= i < n && (#[trigger] checks[i]).missing().holds(m)
                    && checks[i].adds.set().contains(o),
        decreases n,
    {
        if n > 0 {
            Existence::lemma_or_missing(t, checks, (n - 1) as nat, o, m);
            let rest = Existence::or_missing(t, checks, (n - 1) as nat, o);
            Term::lemma_or(rest, checks[n - 1].missing(), m);
        }
    }
}

impl ETree {
    /// A literal evaluates to itself.
    proof fn lemma_literal_outcome(self, w: World)
        ensures
            self.literal() matches Some(b) ==> self.tree().outcome(w) == EvaluationOutcome::of_bool(
                b,
            ),
    {
    }
}

impl NTree {
    /// What the node's expression is, in terms of its children's.
    pub proof fn lemma_shape(self)
        requires
            self.mirrors(),
        ensures
            self.kind matches NKind::And(l, r) ==> self.expr.tree() == Tree::and(
                l.expr.tree(),
                self.expr.kind->And_right.tree(),
            ) && (r matches Some(r) ==> r.expr == *self.expr.kind->And_right),
            self.kind matches NKind::Or(l, r) ==> self.expr.tree() == Tree::or(
                l.expr.tree(),
                self.expr.kind->Or_right.tree(),
            ) && (r matches Some(r) ==> r.expr == *self.expr.kind->Or_right),
            self.kind matches NKind::Not(x) ==> self.expr.tree() == Tree::not(x.expr.tree()),
            self.kind matches NKind::If(c, a, b) ==> self.expr.tree() == Tree::ite(
                c.expr.tree(),
                self.expr.kind->then_expr.tree(),
                self.expr.kind->else_expr.tree(),
            ) && (a matches Some(a) ==> a.expr == *self.expr.kind->then_expr) && (b matches Some(b)
                ==> b.expr == *self.expr.kind->else_expr),
    {
        let t = self.expr.tree();
        match self.kind {
            NKind::And(l, _) => {
                assert(t.kids =~= Tree::and(
                    l.expr.tree(),
                    self.expr.kind->And_right.tree(),
                ).kids);
            },
            NKind::Or(l, _) => {
                assert(t.kids =~= Tree::or(l.expr.tree(), self.expr.kind->Or_right.tree()).kids);
            },
            NKind::Not(x) => {
                assert(t.kids =~= Tree::not(x.expr.tree()).kids);
            },
            NKind::If(c, _, _) => {
                assert(t.kids =~= Tree::ite(
                    c.expr.tree(),
                    self.expr.kind->then_expr.tree(),
                    self.expr.kind->else_expr.tree(),
                ).kids);
            },
            NKind::Atom { .. } => {},
        }
    }

    /// `v` is right about the node on an input: its outcomes contain the
    /// node's, and it evaluates as the node does.
    pub open spec fn is_right(self, v: ETree, w: World) -> bool {
        &&& v.outcomes.contains(self.outcome(w))
        &&& v.tree().outcome(w) == self.outcome(w)
    }

    /// On every input that satisfies the assumptions and the trail, the
    /// outcome of the node is one of those of the result, and the result
    /// evaluates as the node does, up to the kind of error; provided that the
    /// terms are right about the input and the solver's answers are sound.
    pub proof fn law_evaluation_is_sound(
        self,
        set: Setting,
        q: Given,
        trail: Seq<Term>,
        st: St,
        w: World,
    )
        requires
            self.mirrors(),
            self.eval(q, trail, st) is Got,
            set.sound(q, self.eval(q, trail, st)->Got_1.log),
            (set.envs)(w),
            Term::all_hold(q.base, (set.model)(w)),
            Term::all_hold(trail, (set.model)(w)),
            self.faithful(set, w),
        ensures
            self.is_right(self.eval(q, trail, st)->Got_0, w),
        decreases self, 1nat,
    {
        match self.kind {
            NKind::Atom { .. } => self.lemma_atom_sound(set, q, trail, st, w),
            NKind::Not(x) => {
                self.lemma_shape();
                x.law_evaluation_is_sound(set, q, trail, st, w);
                let v = x.eval(q, trail, st)->Got_0;
                v.lemma_literal_outcome(w);
                Tree::lemma_not_outcome(x.expr.tree(), w);
                Tree::lemma_not_outcome(v.tree(), w);
                let r = self.eval(q, trail, st)->Got_0;
                self.lit(true).lemma_literal_outcome(w);
                self.lit(false).lemma_literal_outcome(w);
                if v.literal() is None && v.outcomes != set![EvaluationOutcome::Error] {
                    assert(r.tree().kids =~= Tree::not(v.tree()).kids);
                    assert(x.outcome(w).flip().flip() == x.outcome(w));
                }
            },
            NKind::And(l, r) => self.lemma_and_sound(*l, r, set, q, trail, st, w),
            NKind::Or(l, r) => self.lemma_or_sound(*l, r, set, q, trail, st, w),
            NKind::If(c, a, b) => self.lemma_if_sound(*c, a, b, set, q, trail, st, w),
        }
    }

    proof fn lemma_atom_sound(
        self,
        set: Setting,
        q: Given,
        trail: Seq<Term>,
        st: St,
        w: World,
    )
        requires
            self.kind is Atom,
            self.eval(q, trail, st) is Got,
            set.sound(q, self.eval(q, trail, st)->Got_1.log),
            (set.envs)(w),
            Term::all_hold(q.base, (set.model)(w)),
            Term::all_hold(trail, (set.model)(w)),
            self.faithful(set, w),
        ensures
            self.is_right(self.eval(q, trail, st)->Got_0, w),
    {
        let checks = self.kind->checks;
        let m = (set.model)(w);
        let ev = q.atom_outcomes(self.term, self.facts, checks, trail, st);
        let first = q.term_outcomes(self.term, self.facts, trail, st);
        let st1 = first->Got_1;
        q.lemma_term_grows(self.term, self.facts, trail, st);
        q.lemma_checks_grow(checks, checks.len(), first->Got_0, trail, st1);
        set.lemma_sound_prefix(q, st1.log, ev->Got_1.log);
        if self.term.outcome(m) == self.outcome(w) {
            q.lemma_term_sound(set, self.term, self.facts, trail, st, w);
        } else {
            let i = choose|i: int|
                0 <= i < checks.len() && (#[trigger] checks[i]).missing().holds(m)
                    && checks[i].adds.set().contains(self.outcome(w));
            q.lemma_checks_sound(set, checks, checks.len(), first->Got_0, trail, st1, w, i);
        }
        let o = ev->Got_0;
        assert(o.contains(self.outcome(w)));
        self.lit(true).lemma_literal_outcome(w);
        self.lit(false).lemma_literal_outcome(w);
        self.expr.lemma_annotated_tree(o);
    }

    proof fn lemma_and_sound(
        self,
        l: NTree,
        r: Option<Box<NTree>>,
        set: Setting,
        q: Given,
        trail: Seq<Term>,
        st: St,
        w: World,
    )
        requires
            self.kind == NKind::And(Box::new(l), r),
            self.mirrors(),
            self.eval(q, trail, st) is Got,
            set.sound(q, self.eval(q, trail, st)->Got_1.log),
            (set.envs)(w),
            Term::all_hold(q.base, (set.model)(w)),
            Term::all_hold(trail, (set.model)(w)),
            self.faithful(set, w),
        ensures
            self.is_right(self.eval(q, trail, st)->Got_0, w),
        decreases self, 0nat,
    {
        self.lemma_shape();
        let log = self.eval(q, trail, st)->Got_1.log;
        let res = self.eval(q, trail, st)->Got_0;
        let lv = l.eval(q, trail, st)->Got_0;
        let st1 = l.eval(q, trail, st)->Got_1;
        let right = *self.expr.kind->And_right;
        Tree::lemma_and_outcome(l.expr.tree(), right.tree(), w);
        self.lit(true).lemma_literal_outcome(w);
        self.lit(false).lemma_literal_outcome(w);
        l.lit(true).lemma_literal_outcome(w);
        lv.lemma_literal_outcome(w);
        let longer = trail + l.trail(true);
        if r is Some {
            if r->Some_0.eval(q, trail, st1) is Got {
                r->Some_0.lemma_grows(q, trail, st1);
            }
            if r->Some_0.eval(q, longer, st1) is Got {
                r->Some_0.lemma_grows(q, longer, st1);
            }
        }
        set.lemma_sound_prefix(q, st1.log, log);
        l.law_evaluation_is_sound(set, q, trail, st, w);
        if lv.outcomes == set![EvaluationOutcome::Error] || lv.literal() == Some(false) {
        } else if lv.literal() == Some(true) {
            r->Some_0.law_evaluation_is_sound(set, q, trail, st1, w);
        } else if !lv.outcomes.contains(EvaluationOutcome::True) {
        } else {
            let r = r->Some_0;
            let rv = r.eval(q, longer, st1)->Got_0;
            rv.lemma_literal_outcome(w);
            if l.outcome(w) is True {
                Term::lemma_all_hold_append(trail, l.trail(true), (set.model)(w));
                r.law_evaluation_is_sound(set, q, longer, st1, w);
            }
            Tree::lemma_and_outcome(lv.tree(), rv.tree(), w);
            assert(res == self.conjunction(l, lv, rv));
            let whole = self.structure(
                Op::And,
                Outcomes::and_of(lv.outcomes, rv.outcomes),
                seq![lv, rv],
            );
            assert(whole.tree().kids =~= Tree::and(lv.tree(), rv.tree()).kids);
        }
    }

    proof fn lemma_or_sound(
        self,
        l: NTree,
        r: Option<Box<NTree>>,
        set: Setting,
        q: Given,
        trail: Seq<Term>,
        st: St,
        w: World,
    )
        requires
            self.kind == NKind::Or(Box::new(l), r),
            self.mirrors(),
            self.eval(q, trail, st) is Got,
            set.sound(q, self.eval(q, trail, st)->Got_1.log),
            (set.envs)(w),
            Term::all_hold(q.base, (set.model)(w)),
            Term::all_hold(trail, (set.model)(w)),
            self.faithful(set, w),
        ensures
            self.is_right(self.eval(q, trail, st)->Got_0, w),
        decreases self, 0nat,
    {
        self.lemma_shape();
        let log = self.eval(q, trail, st)->Got_1.log;
        let res = self.eval(q, trail, st)->Got_0;
        let lv = l.eval(q, trail, st)->Got_0;
        let st1 = l.eval(q, trail, st)->Got_1;
        let right = *self.expr.kind->Or_right;
        Tree::lemma_or_outcome(l.expr.tree(), right.tree(), w);
        self.lit(true).lemma_literal_outcome(w);
        self.lit(false).lemma_literal_outcome(w);
        lv.lemma_literal_outcome(w);
        let longer = trail + l.trail(false);
        if r is Some {
            if r->Some_0.eval(q, trail, st1) is Got {
                r->Some_0.lemma_grows(q, trail, st1);
            }
            if r->Some_0.eval(q, longer, st1) is Got {
                r->Some_0.lemma_grows(q, longer, st1);
            }
        }
        set.lemma_sound_prefix(q, st1.log, log);
        l.law_evaluation_is_sound(set, q, trail, st, w);
        if lv.outcomes == set![EvaluationOutcome::Error] || lv.literal() == Some(true) {
        } else if lv.literal() == Some(false) {
            r->Some_0.law_evaluation_is_sound(set, q, trail, st1, w);
        } else if !lv.outcomes.contains(EvaluationOutcome::False) {
        } else {
            let r = r->Some_0;
            let rv = r.eval(q, longer, st1)->Got_0;
            rv.lemma_literal_outcome(w);
            if l.outcome(w) is False {
                Term::lemma_all_hold_append(trail, l.trail(false), (set.model)(w));
                r.law_evaluation_is_sound(set, q, longer, st1, w);
            }
            Tree::lemma_or_outcome(lv.tree(), rv.tree(), w);
            assert(res == self.disjunction(lv, rv));
            let whole = self.structure(
                Op::Or,
                Outcomes::or_of(lv.outcomes, rv.outcomes),
                seq![lv, rv],
            );
            assert(whole.tree().kids =~= Tree::or(lv.tree(), rv.tree()).kids);
        }
    }

    proof fn lemma_if_sound(
        self,
        c: NTree,
        a: Option<Box<NTree>>,
        b: Option<Box<NTree>>,
        set: Setting,
        q: Given,
        trail: Seq<Term>,
        st: St,
        w: World,
    )
        requires
            self.kind == NKind::If(Box::new(c), a, b),
            self.mirrors(),
            self.eval(q, trail, st) is Got,
            set.sound(q, self.eval(q, trail, st)->Got_1.log),
            (set.envs)(w),
            Term::all_hold(q.base, (set.model)(w)),
            Term::all_hold(trail, (set.model)(w)),
            self.faithful(set, w),
        ensures
            self.is_right(self.eval(q, trail, st)->Got_0, w),
        decreases self, 0nat,
    {
        self.lemma_shape();
        let log = self.eval(q, trail, st)->Got_1.log;
        let cv = c.eval(q, trail, st)->Got_0;
        let st1 = c.eval(q, trail, st)->Got_1;
        Tree::lemma_ite_outcome(
            c.expr.tree(),
            self.expr.kind->then_expr.tree(),
            self.expr.kind->else_expr.tree(),
            w,
        );
        cv.lemma_literal_outcome(w);
        if cv.outcomes == set![EvaluationOutcome::Error] {
            c.law_evaluation_is_sound(set, q, trail, st, w);
        } else if cv.literal() == Some(true) {
            a->Some_0.lemma_grows(q, trail, st1);
            set.lemma_sound_prefix(q, st1.log, log);
            c.law_evaluation_is_sound(set, q, trail, st, w);
            a->Some_0.law_evaluation_is_sound(set, q, trail, st1, w);
        } else if cv.literal() == Some(false) {
            b->Some_0.lemma_grows(q, trail, st1);
            set.lemma_sound_prefix(q, st1.log, log);
            c.law_evaluation_is_sound(set, q, trail, st, w);
            b->Some_0.law_evaluation_is_sound(set, q, trail, st1, w);
        } else {
            let a = *a->Some_0;
            let b = *b->Some_0;
            let yes = trail + c.trail(true);
            let no = trail + c.trail(false);
            let can_true = cv.outcomes.contains(EvaluationOutcome::True);
            let can_false = cv.outcomes.contains(EvaluationOutcome::False);
            let av = if can_true {
                Some(a.eval(q, yes, st1)->Got_0)
            } else {
                None
            };
            let st2 = if can_true {
                a.eval(q, yes, st1)->Got_1
            } else {
                st1
            };
            let bv = if can_false {
                Some(b.eval(q, no, st2)->Got_0)
            } else {
                None
            };
            if can_true {
                a.lemma_grows(q, yes, st1);
            }
            if can_false {
                b.lemma_grows(q, no, st2);
            }
            assert(extends(st1.log, st2.log));
            assert(extends(st2.log, log));
            assert(extends(st1.log, log));
            set.lemma_sound_prefix(q, st1.log, log);
            set.lemma_sound_prefix(q, st2.log, log);
            c.law_evaluation_is_sound(set, q, trail, st, w);
            let res = self.eval(q, trail, st)->Got_0;
            assert(res == self.conditional(a, b, cv, av, bv));
            if c.outcome(w) is True {
                Term::lemma_all_hold_append(trail, c.trail(true), (set.model)(w));
                a.law_evaluation_is_sound(set, q, yes, st1, w);
            }
            if c.outcome(w) is False {
                Term::lemma_all_hold_append(trail, c.trail(false), (set.model)(w));
                b.law_evaluation_is_sound(set, q, no, st2, w);
            }
            self.lemma_conditional_right(a, b, cv, av, bv, w);
        }
    }

    /// A conditional of right parts is right.
    proof fn lemma_conditional_right(
        self,
        a: NTree,
        b: NTree,
        cv: ETree,
        av: Option<ETree>,
        bv: Option<ETree>,
        w: World,
    )
        requires
            self.kind is If,
            self.mirrors(),
            a.expr == *self.expr.kind->then_expr,
            b.expr == *self.expr.kind->else_expr,
            self.kind->If_0.is_right(cv, w),
            av is Some == cv.outcomes.contains(EvaluationOutcome::True),
            bv is Some == cv.outcomes.contains(EvaluationOutcome::False),
            self.kind->If_0.outcome(w) is True ==> a.is_right(av->Some_0, w),
            self.kind->If_0.outcome(w) is False ==> b.is_right(bv->Some_0, w),
        ensures
            self.is_right(self.conditional(a, b, cv, av, bv), w),
    {
        self.lemma_shape();
        let c = *self.kind->If_0;
        let all = Outcomes::flags(true, true, true);
        Tree::lemma_ite_outcome(c.expr.tree(), a.expr.tree(), b.expr.tree(), w);
        let at = match av {
            Some(v) => v,
            None => a.expr.annotated(all),
        };
        let bt = match bv {
            Some(v) => v,
            None => b.expr.annotated(all),
        };
        a.expr.lemma_annotated_tree(all);
        b.expr.lemma_annotated_tree(all);
        let av_out = match av {
            Some(v) => Some(v.outcomes),
            None => None,
        };
        let bv_out = match bv {
            Some(v) => Some(v.outcomes),
            None => None,
        };
        let out = EvaluationMetadata::ite_of(cv.outcomes, av_out, bv_out);
        let res = self.conditional(a, b, cv, av, bv);
        if av is Some && av->Some_0.literal() is Some && cv.outcomes
            == set![EvaluationOutcome::True] {
            assert(c.outcome(w) is True);
        } else {
            assert(res.kids =~= seq![cv, at, bt]);
            assert(res.outcomes == out);
            assert(res.tree().kids =~= Tree::ite(cv.tree(), at.tree(), bt.tree()).kids);
            Tree::lemma_ite_outcome(cv.tree(), at.tree(), bt.tree(), w);
            let none = Set::<EvaluationOutcome>::empty();
            let set = Outcomes::ite_of(
                cv.outcomes,
                match av_out {
                    Some(s) => s,
                    None => none,
                },
                match bv_out {
                    Some(s) => s,
                    None => none,
                },
            );
            assert(set.contains(self.outcome(w)));
            assert(set != none);
            assert(out == set);
        }
    }
}

impl NTree {
    /// The terms denote exactly what the expressions evaluate to on every
    /// input, no receiver is missing, and a child that is not compiled is
    /// never reached.
    pub open spec fn denotes(self, set: Setting) -> bool
        decreases self,
    {
        &&& forall|w: World|
            (set.envs)(w) ==> {
                let m = #[trigger] (set.model)(w);
                &&& self.term.outcome(m) == self.outcome(w)
                &&& self.outcome(w) is True ==> Term::all_hold(self.facts.known(true), m)
                &&& self.outcome(w) is False ==> Term::all_hold(self.facts.known(false), m)
                &&& self.kind matches NKind::And(l, None) ==> !(l.outcome(w) is True)
                &&& self.kind matches NKind::Or(l, None) ==> !(l.outcome(w) is False)
                &&& self.kind matches NKind::If(c, None, _) ==> !(c.outcome(w) is True)
                &&& self.kind matches NKind::If(c, _, None) ==> !(c.outcome(w) is False)
            }
        &&& match self.kind {
            NKind::Atom { checks, .. } => forall|i: int, w: World|
                0 <= i < checks.len() && (set.envs)(w) ==> !(#[trigger] checks[i].missing()).holds(
                    #[trigger] (set.model)(w),
                ),
            NKind::Not(x) => x.denotes(set),
            NKind::And(l, r) | NKind::Or(l, r) => l.denotes(set) && (r matches Some(r)
                ==> r.denotes(set)),
            NKind::If(c, a, b) => {
                &&& c.denotes(set)
                &&& a matches Some(a) ==> a.denotes(set)
                &&& b matches Some(b) ==> b.denotes(set)
            },
        }
    }

    proof fn lemma_denotes_faithful(self, set: Setting, w: World)
        requires
            self.mirrors(),
            self.denotes(set),
            (set.envs)(w),
        ensures
            self.faithful(set, w),
        decreases self,
    {
        let m = (set.model)(w);
        assert(self.term.outcome(m) == self.outcome(w));
        match self.kind {
            NKind::Atom { .. } => {},
            NKind::Not(x) => x.lemma_denotes_faithful(set, w),
            NKind::And(l, r) | NKind::Or(l, r) => {
                l.lemma_denotes_faithful(set, w);
                l.lemma_trail(set, true, w);
                l.lemma_trail(set, false, w);
                if r is Some {
                    r->Some_0.lemma_denotes_faithful(set, w);
                }
            },
            NKind::If(c, a, b) => {
                c.lemma_denotes_faithful(set, w);
                c.lemma_trail(set, true, w);
                c.lemma_trail(set, false, w);
                if a is Some {
                    a->Some_0.lemma_denotes_faithful(set, w);
                }
                if b is Some {
                    b->Some_0.lemma_denotes_faithful(set, w);
                }
            },
        }
    }

    /// What holds where the node has the outcome holds nowhere else.
    proof fn lemma_took_exact(self, set: Setting, o: EvaluationOutcome, w: World)
        requires
            self.mirrors(),
            self.denotes(set),
            (set.envs)(w),
        ensures
            self.took(o).holds((set.model)(w)) <==> self.outcome(w) == o,
        decreases self,
    {
        let m = (set.model)(w);
        let yes = EvaluationOutcome::True;
        let no = EvaluationOutcome::False;
        assert(self.term.outcome(m) == self.outcome(w));
        self.lemma_shape();
        match self.kind {
            NKind::Atom { checks, .. } => {
                self.term.lemma_questions(m);
                assert forall|i: int| 0 <= i < checks.len() implies !(
                #[trigger] checks[i]).missing().holds(m) by {
                    assert(!checks[i].missing().holds((set.model)(w)));
                }
                self.facts.lemma_asked(self.term, o, m);
                Existence::lemma_or_missing(
                    self.facts.asked(self.term, o),
                    checks,
                    checks.len(),
                    o,
                    m,
                );
            },
            NKind::Not(x) => {
                x.lemma_took_exact(set, o.flip(), w);
                Tree::lemma_not_outcome(x.expr.tree(), w);
            },
            NKind::And(l, r) => {
                l.lemma_took_exact(set, yes, w);
                l.lemma_took_exact(set, o, w);
                let t = match r {
                    Some(r) => {
                        r.lemma_took_exact(set, o, w);
                        Some(r.took(o))
                    },
                    None => None,
                };
                let second = Term::both_of(l.took(yes), t);
                Term::lemma_both(l.took(yes), t, m);
                Term::lemma_or(l.took(o), second, m);
                Tree::lemma_and_outcome(l.expr.tree(), self.expr.kind->And_right.tree(), w);
            },
            NKind::Or(l, r) => {
                l.lemma_took_exact(set, no, w);
                l.lemma_took_exact(set, o, w);
                let t = match r {
                    Some(r) => {
                        r.lemma_took_exact(set, o, w);
                        Some(r.took(o))
                    },
                    None => None,
                };
                let second = Term::both_of(l.took(no), t);
                Term::lemma_both(l.took(no), t, m);
                Term::lemma_or(l.took(o), second, m);
                Tree::lemma_or_outcome(l.expr.tree(), self.expr.kind->Or_right.tree(), w);
            },
            NKind::If(c, a, b) => {
                c.lemma_took_exact(set, yes, w);
                c.lemma_took_exact(set, no, w);
                c.lemma_took_exact(set, o, w);
                let t = match a {
                    Some(a) => {
                        a.lemma_took_exact(set, o, w);
                        Some(a.took(o))
                    },
                    None => None,
                };
                let f = match b {
                    Some(b) => {
                        b.lemma_took_exact(set, o, w);
                        Some(b.took(o))
                    },
                    None => None,
                };
                let then = Term::both_of(c.took(yes), t);
                let els = Term::both_of(c.took(no), f);
                Term::lemma_both(c.took(yes), t, m);
                Term::lemma_both(c.took(no), f, m);
                Term::lemma_or(then, els, m);
                Term::lemma_or(c.took(o), Term::or_of(then, els), m);
                Tree::lemma_ite_outcome(
                    c.expr.tree(),
                    self.expr.kind->then_expr.tree(),
                    self.expr.kind->else_expr.tree(),
                    w,
                );
            },
        }
    }

    /// What is put on the trail holds exactly where the node takes the value.
    proof fn lemma_trail(self, set: Setting, b: bool, w: World)
        requires
            self.mirrors(),
            self.denotes(set),
            (set.envs)(w),
        ensures
            Term::all_hold(self.trail(b), (set.model)(w)) <==> self.outcome(w)
                == EvaluationOutcome::of_bool(b),
    {
        let m = (set.model)(w);
        let o = EvaluationOutcome::of_bool(b);
        self.lemma_took_exact(set, o, w);
        assert(self.term.outcome(m) == self.outcome(w));
        assert(self.trail(b)[0] == self.took(o));
        assert(Term::all_hold(self.trail(b), m) ==> self.trail(b)[0].holds(m));
        self.lemma_trail_holds(b, m);
    }

    /// The trail holds where its parts do.
    pub proof fn lemma_trail_holds(self, b: bool, m: Model)
        requires
            self.took(EvaluationOutcome::of_bool(b)).holds(m) ==> Term::all_hold(
                self.facts.known(b),
                m,
            ),
        ensures
            self.took(EvaluationOutcome::of_bool(b)).holds(m) ==> Term::all_hold(self.trail(b), m),
    {
        if self.took(EvaluationOutcome::of_bool(b)).holds(m) {
            assert forall|i: int| 0 <= i < self.trail(b).len() implies (#[trigger] self.trail(
                b,
            )[i]).holds(m) by {
                if i > 0 {
                    assert(self.trail(b)[i] == self.facts.known(b)[i - 1]);
                }
            }
        }
    }

    /// What a run of the evaluator on the node is about: it has a result, the
    /// answers are exact, and the trail holds on the input `w0`.
    spec fn run_is_exact(
        self,
        set: Setting,
        q: Given,
        trail: Seq<Term>,
        st: St,
        w0: World,
    ) -> bool {
        &&& self.mirrors()
        &&& self.denotes(set)
        &&& self.eval(q, trail, st) is Got
        &&& set.exact(q, self.eval(q, trail, st)->Got_1.log)
        &&& set.assumes(q.base)
        &&& (set.envs)(w0)
        &&& Term::all_hold(trail, (set.model)(w0))
    }

    /// Soundness, where the terms denote what the expressions are.
    proof fn lemma_right(
        self,
        set: Setting,
        q: Given,
        trail: Seq<Term>,
        st: St,
        w0: World,
        w: World,
    )
        requires
            self.run_is_exact(set, q, trail, st, w0),
            (set.envs)(w),
            Term::all_hold(trail, (set.model)(w)),
        ensures
            self.is_right(self.eval(q, trail, st)->Got_0, w),
    {
        self.lemma_denotes_faithful(set, w);
        assert(Term::all_hold(q.base, (set.model)(w)));
        self.law_evaluation_is_sound(set, q, trail, st, w);
    }

    /// The outcome on a given input shows that there is one.
    proof fn lemma_some(
        self,
        set: Setting,
        q: Given,
        trail: Seq<Term>,
        st: St,
        w0: World,
    ) -> (o: EvaluationOutcome)
        requires
            self.run_is_exact(set, q, trail, st, w0),
        ensures
            self.eval(q, trail, st)->Got_0.outcomes.contains(o),
    {
        self.lemma_right(set, q, trail, st, w0, w0);
        self.outcome(w0)
    }

    /// Every outcome of the result is attained: there is an input that
    /// satisfies the assumptions and the trail on which the node has it;
    /// provided that the terms denote exactly what the expressions evaluate
    /// to, no entity is missing, and the solver's answers are exact.
    pub proof fn law_evaluation_is_exact(
        self,
        set: Setting,
        q: Given,
        trail: Seq<Term>,
        st: St,
        w0: World,
        o: EvaluationOutcome,
    ) -> (w: World)
        requires
            self.mirrors(),
            self.denotes(set),
            self.eval(q, trail, st) is Got,
            set.exact(q, self.eval(q, trail, st)->Got_1.log),
            set.assumes(q.base),
            (set.envs)(w0),
            Term::all_hold(trail, (set.model)(w0)),
            self.eval(q, trail, st)->Got_0.outcomes.contains(o),
        ensures
            (set.envs)(w),
            Term::all_hold(trail, (set.model)(w)),
            self.outcome(w) == o,
        decreases self, 1nat,
    {
        match self.kind {
            NKind::Atom { checks, .. } => {
                let ev = q.atom_outcomes(self.term, self.facts, checks, trail, st);
                let first = q.term_outcomes(self.term, self.facts, trail, st);
                let st1 = first->Got_1;
                q.lemma_checks_grow(checks, checks.len(), first->Got_0, trail, st1);
                set.lemma_exact_prefix(q, st1.log, ev->Got_1.log);
                q.lemma_checks_exact(set, checks, checks.len(), first->Got_0, trail, st1);
                assert(first->Got_0.contains(o));
                assert(Term::all_hold(trail, (set.model)(w0)));
                q.lemma_term_exact(set, self.term, self.facts, trail, st, o)
            },
            NKind::Not(x) => {
                self.lemma_shape();
                let v = x.eval(q, trail, st)->Got_0;
                let p = match v.literal() {
                    Some(_) => x.lemma_some(set, q, trail, st, w0),
                    None => if v.outcomes == set![EvaluationOutcome::Error] {
                        o
                    } else {
                        o.flip()
                    },
                };
                let w = x.law_evaluation_is_exact(set, q, trail, st, w0, p);
                x.lemma_right(set, q, trail, st, w0, w);
                v.lemma_literal_outcome(w);
                Tree::lemma_not_outcome(x.expr.tree(), w);
                assert(o.flip().flip() == o);
                w
            },
            NKind::And(l, r) => self.lemma_and_exact(*l, r, set, q, trail, st, w0, o),
            NKind::Or(l, r) => self.lemma_or_exact(*l, r, set, q, trail, st, w0, o),
            NKind::If(c, a, b) => self.lemma_if_exact(*c, a, b, set, q, trail, st, w0, o),
        }
    }

    proof fn lemma_and_exact(
        self,
        l: NTree,
        r: Option<Box<NTree>>,
        set: Setting,
        q: Given,
        trail: Seq<Term>,
        st: St,
        w0: World,
        o: EvaluationOutcome,
    ) -> (w: World)
        requires
            self.kind == NKind::And(Box::new(l), r),
            self.run_is_exact(set, q, trail, st, w0),
            self.eval(q, trail, st)->Got_0.outcomes.contains(o),
        ensures
            (set.envs)(w),
            Term::all_hold(trail, (set.model)(w)),
            self.outcome(w) == o,
        decreases self, 0nat,
    {
        self.lemma_shape();
        let log = self.eval(q, trail, st)->Got_1.log;
        let lv = l.eval(q, trail, st)->Got_0;
        let st1 = l.eval(q, trail, st)->Got_1;
        let right = *self.expr.kind->And_right;
        let longer = trail + l.trail(true);
        if r is Some {
            if r->Some_0.eval(q, trail, st1) is Got {
                r->Some_0.lemma_grows(q, trail, st1);
            }
            if r->Some_0.eval(q, longer, st1) is Got {
                r->Some_0.lemma_grows(q, longer, st1);
            }
        }
        set.lemma_exact_prefix(q, st1.log, log);
        assert(l.run_is_exact(set, q, trail, st, w0));
        if lv.outcomes == set![EvaluationOutcome::Error] {
            let w = l.law_evaluation_is_exact(set, q, trail, st, w0, o);
            Tree::lemma_and_outcome(l.expr.tree(), right.tree(), w);
            w
        } else if lv.literal() == Some(false) {
            l.lemma_right(set, q, trail, st, w0, w0);
            lv.lemma_literal_outcome(w0);
            Tree::lemma_and_outcome(l.expr.tree(), right.tree(), w0);
            w0
        } else if lv.literal() == Some(true) {
            let w = r->Some_0.law_evaluation_is_exact(set, q, trail, st1, w0, o);
            l.lemma_right(set, q, trail, st, w0, w);
            lv.lemma_literal_outcome(w);
            Tree::lemma_and_outcome(l.expr.tree(), right.tree(), w);
            w
        } else if !lv.outcomes.contains(EvaluationOutcome::True) {
            let w = l.law_evaluation_is_exact(set, q, trail, st, w0, o);
            Tree::lemma_and_outcome(l.expr.tree(), right.tree(), w);
            w
        } else {
            let r = *r->Some_0;
            let rv = r.eval(q, longer, st1)->Got_0;
            // An input on which the right operand is reached.
            let w1 = l.law_evaluation_is_exact(
                set,
                q,
                trail,
                st,
                w0,
                EvaluationOutcome::True,
            );
            l.lemma_trail(set, true, w1);
            Term::lemma_all_hold_append(trail, l.trail(true), (set.model)(w1));
            assert(r.run_is_exact(set, q, longer, st1, w1));
            let res = self.conjunction(l, lv, rv);
            if rv.literal() is None || (rv.literal() == Some(false) && lv.outcomes.contains(
                EvaluationOutcome::Error,
            )) {
                if rv.outcomes.contains(o) {
                    let w = r.law_evaluation_is_exact(set, q, longer, st1, w1, o);
                    Term::lemma_all_hold_append(trail, l.trail(true), (set.model)(w));
                    l.lemma_trail(set, true, w);
                    Tree::lemma_and_outcome(l.expr.tree(), right.tree(), w);
                    w
                } else {
                    let w = l.law_evaluation_is_exact(set, q, trail, st, w0, o);
                    Tree::lemma_and_outcome(l.expr.tree(), right.tree(), w);
                    w
                }
            } else if rv.literal() == Some(true) {
                assert(lv.outcomes.contains(o));
                let w = l.law_evaluation_is_exact(set, q, trail, st, w0, o);
                Tree::lemma_and_outcome(l.expr.tree(), right.tree(), w);
                if o is True {
                    l.lemma_trail(set, true, w);
                    Term::lemma_all_hold_append(trail, l.trail(true), (set.model)(w));
                    r.lemma_right(set, q, longer, st1, w1, w);
                    rv.lemma_literal_outcome(w);
                }
                w
            } else {
                r.lemma_right(set, q, longer, st1, w1, w1);
                rv.lemma_literal_outcome(w1);
                Tree::lemma_and_outcome(l.expr.tree(), right.tree(), w1);
                w1
            }
        }
    }

    proof fn lemma_or_exact(
        self,
        l: NTree,
        r: Option<Box<NTree>>,
        set: Setting,
        q: Given,
        trail: Seq<Term>,
        st: St,
        w0: World,
        o: EvaluationOutcome,
    ) -> (w: World)
        requires
            self.kind == NKind::Or(Box::new(l), r),
            self.run_is_exact(set, q, trail, st, w0),
            self.eval(q, trail, st)->Got_0.outcomes.contains(o),
        ensures
            (set.envs)(w),
            Term::all_hold(trail, (set.model)(w)),
            self.outcome(w) == o,
        decreases self, 0nat,
    {
        self.lemma_shape();
        let log = self.eval(q, trail, st)->Got_1.log;
        let lv = l.eval(q, trail, st)->Got_0;
        let st1 = l.eval(q, trail, st)->Got_1;
        let right = *self.expr.kind->Or_right;
        let longer = trail + l.trail(false);
        if r is Some {
            if r->Some_0.eval(q, trail, st1) is Got {
                r->Some_0.lemma_grows(q, trail, st1);
            }
            if r->Some_0.eval(q, longer, st1) is Got {
                r->Some_0.lemma_grows(q, longer, st1);
            }
        }
        set.lemma_exact_prefix(q, st1.log, log);
        assert(l.run_is_exact(set, q, trail, st, w0));
        if lv.outcomes == set![EvaluationOutcome::Error] {
            let w = l.law_evaluation_is_exact(set, q, trail, st, w0, o);
            Tree::lemma_or_outcome(l.expr.tree(), right.tree(), w);
            w
        } else if lv.literal() == Some(true) {
            l.lemma_right(set, q, trail, st, w0, w0);
            lv.lemma_literal_outcome(w0);
            Tree::lemma_or_outcome(l.expr.tree(), right.tree(), w0);
            w0
        } else if lv.literal() == Some(false) {
            let w = r->Some_0.law_evaluation_is_exact(set, q, trail, st1, w0, o);
            l.lemma_right(set, q, trail, st, w0, w);
            lv.lemma_literal_outcome(w);
            Tree::lemma_or_outcome(l.expr.tree(), right.tree(), w);
            w
        } else if !lv.outcomes.contains(EvaluationOutcome::False) {
            let w = l.law_evaluation_is_exact(set, q, trail, st, w0, o);
            Tree::lemma_or_outcome(l.expr.tree(), right.tree(), w);
            w
        } else {
            let r = *r->Some_0;
            let rv = r.eval(q, longer, st1)->Got_0;
            // An input on which the right operand is reached.
            let w1 = l.law_evaluation_is_exact(
                set,
                q,
                trail,
                st,
                w0,
                EvaluationOutcome::False,
            );
            l.lemma_trail(set, false, w1);
            Term::lemma_all_hold_append(trail, l.trail(false), (set.model)(w1));
            assert(r.run_is_exact(set, q, longer, st1, w1));
            let res = self.disjunction(lv, rv);
            if rv.literal() is None || (rv.literal() == Some(true) && lv.outcomes.contains(
                EvaluationOutcome::Error,
            )) {
                if rv.outcomes.contains(o) {
                    let w = r.law_evaluation_is_exact(set, q, longer, st1, w1, o);
                    Term::lemma_all_hold_append(trail, l.trail(false), (set.model)(w));
                    l.lemma_trail(set, false, w);
                    Tree::lemma_or_outcome(l.expr.tree(), right.tree(), w);
                    w
                } else {
                    let w = l.law_evaluation_is_exact(set, q, trail, st, w0, o);
                    Tree::lemma_or_outcome(l.expr.tree(), right.tree(), w);
                    w
                }
            } else if rv.literal() == Some(false) {
                assert(lv.outcomes.contains(o));
                let w = l.law_evaluation_is_exact(set, q, trail, st, w0, o);
                Tree::lemma_or_outcome(l.expr.tree(), right.tree(), w);
                if o is False {
                    l.lemma_trail(set, false, w);
                    Term::lemma_all_hold_append(trail, l.trail(false), (set.model)(w));
                    r.lemma_right(set, q, longer, st1, w1, w);
                    rv.lemma_literal_outcome(w);
                }
                w
            } else {
                r.lemma_right(set, q, longer, st1, w1, w1);
                rv.lemma_literal_outcome(w1);
                Tree::lemma_or_outcome(l.expr.tree(), right.tree(), w1);
                w1
            }
        }
    }

    proof fn lemma_if_exact(
        self,
        c: NTree,
        a: Option<Box<NTree>>,
        b: Option<Box<NTree>>,
        set: Setting,
        q: Given,
        trail: Seq<Term>,
        st: St,
        w0: World,
        o: EvaluationOutcome,
    ) -> (w: World)
        requires
            self.kind == NKind::If(Box::new(c), a, b),
            self.run_is_exact(set, q, trail, st, w0),
            self.eval(q, trail, st)->Got_0.outcomes.contains(o),
        ensures
            (set.envs)(w),
            Term::all_hold(trail, (set.model)(w)),
            self.outcome(w) == o,
        decreases self, 0nat,
    {
        self.lemma_shape();
        let log = self.eval(q, trail, st)->Got_1.log;
        let cv = c.eval(q, trail, st)->Got_0;
        let st1 = c.eval(q, trail, st)->Got_1;
        let then = self.expr.kind->then_expr.tree();
        let els = self.expr.kind->else_expr.tree();
        if cv.outcomes == set![EvaluationOutcome::Error] {
            let w = c.law_evaluation_is_exact(set, q, trail, st, w0, o);
            Tree::lemma_ite_outcome(c.expr.tree(), then, els, w);
            w
        } else if cv.literal() == Some(true) {
            a->Some_0.lemma_grows(q, trail, st1);
            set.lemma_exact_prefix(q, st1.log, log);
            let w = a->Some_0.law_evaluation_is_exact(set, q, trail, st1, w0, o);
            c.lemma_right(set, q, trail, st, w0, w);
            cv.lemma_literal_outcome(w);
            Tree::lemma_ite_outcome(c.expr.tree(), then, els, w);
            w
        } else if cv.literal() == Some(false) {
            b->Some_0.lemma_grows(q, trail, st1);
            set.lemma_exact_prefix(q, st1.log, log);
            let w = b->Some_0.law_evaluation_is_exact(set, q, trail, st1, w0, o);
            c.lemma_right(set, q, trail, st, w0, w);
            cv.lemma_literal_outcome(w);
            Tree::lemma_ite_outcome(c.expr.tree(), then, els, w);
            w
        } else {
            let a = *a->Some_0;
            let b = *b->Some_0;
            let yes = trail + c.trail(true);
            let no = trail + c.trail(false);
            let can_true = cv.outcomes.contains(EvaluationOutcome::True);
            let can_false = cv.outcomes.contains(EvaluationOutcome::False);
            let av = if can_true {
                Some(a.eval(q, yes, st1)->Got_0)
            } else {
                None
            };
            let st2 = if can_true {
                a.eval(q, yes, st1)->Got_1
            } else {
                st1
            };
            let bv = if can_false {
                Some(b.eval(q, no, st2)->Got_0)
            } else {
                None
            };
            if can_true {
                a.lemma_grows(q, yes, st1);
            }
            if can_false {
                b.lemma_grows(q, no, st2);
            }
            assert(extends(st2.log, log));
            assert(extends(st1.log, log));
            set.lemma_exact_prefix(q, st1.log, log);
            set.lemma_exact_prefix(q, st2.log, log);
            let res = self.eval(q, trail, st)->Got_0;
            assert(res == self.conditional(a, b, cv, av, bv));
            assert(c.run_is_exact(set, q, trail, st, w0));
            c.lemma_right(set, q, trail, st, w0, w0);
            if can_true {
                let w1 = c.law_evaluation_is_exact(
                    set,
                    q,
                    trail,
                    st,
                    w0,
                    EvaluationOutcome::True,
                );
                c.lemma_trail(set, true, w1);
                Term::lemma_all_hold_append(trail, c.trail(true), (set.model)(w1));
                let x = a.lemma_some(set, q, yes, st1, w1);
                assert(av->Some_0.outcomes.contains(x));
            }
            if can_false {
                let w1 = c.law_evaluation_is_exact(
                    set,
                    q,
                    trail,
                    st,
                    w0,
                    EvaluationOutcome::False,
                );
                c.lemma_trail(set, false, w1);
                Term::lemma_all_hold_append(trail, c.trail(false), (set.model)(w1));
                let x = b.lemma_some(set, q, no, st2, w1);
                assert(bv->Some_0.outcomes.contains(x));
            }
            self.lemma_conditional_from(a, b, cv, av, bv, o, c.outcome(w0));
            if can_true && av->Some_0.outcomes.contains(o) {
                let w1 = c.law_evaluation_is_exact(
                    set,
                    q,
                    trail,
                    st,
                    w0,
                    EvaluationOutcome::True,
                );
                c.lemma_trail(set, true, w1);
                Term::lemma_all_hold_append(trail, c.trail(true), (set.model)(w1));
                let w = a.law_evaluation_is_exact(set, q, yes, st1, w1, o);
                Term::lemma_all_hold_append(trail, c.trail(true), (set.model)(w));
                c.lemma_trail(set, true, w);
                Tree::lemma_ite_outcome(c.expr.tree(), then, els, w);
                w
            } else if can_false && bv->Some_0.outcomes.contains(o) {
                let w1 = c.law_evaluation_is_exact(
                    set,
                    q,
                    trail,
                    st,
                    w0,
                    EvaluationOutcome::False,
                );
                c.lemma_trail(set, false, w1);
                Term::lemma_all_hold_append(trail, c.trail(false), (set.model)(w1));
                let w = b.law_evaluation_is_exact(set, q, no, st2, w1, o);
                Term::lemma_all_hold_append(trail, c.trail(false), (set.model)(w));
                c.lemma_trail(set, false, w);
                Tree::lemma_ite_outcome(c.expr.tree(), then, els, w);
                w
            } else {
                let w = c.law_evaluation_is_exact(set, q, trail, st, w0, o);
                Tree::lemma_ite_outcome(c.expr.tree(), then, els, w);
                w
            }
        }
    }

    /// Where an outcome of a conditional comes from.
    proof fn lemma_conditional_from(
        self,
        a: NTree,
        b: NTree,
        cv: ETree,
        av: Option<ETree>,
        bv: Option<ETree>,
        o: EvaluationOutcome,
        some: EvaluationOutcome,
    )
        requires
            av is Some == cv.outcomes.contains(EvaluationOutcome::True),
            bv is Some == cv.outcomes.contains(EvaluationOutcome::False),
            self.conditional(a, b, cv, av, bv).outcomes.contains(o),
            cv.outcomes.contains(some),
            av is Some ==> exists|x: EvaluationOutcome| av->Some_0.outcomes.contains(x),
            bv is Some ==> exists|x: EvaluationOutcome| bv->Some_0.outcomes.contains(x),
        ensures
            (av is Some && av->Some_0.outcomes.contains(o)) || (bv is Some
                && bv->Some_0.outcomes.contains(o)) || (o is Error && cv.outcomes.contains(o)),
    {
        let none = Set::<EvaluationOutcome>::empty();
        let av_out = match av {
            Some(v) => Some(v.outcomes),
            None => None,
        };
        let bv_out = match bv {
            Some(v) => Some(v.outcomes),
            None => None,
        };
        let set = Outcomes::ite_of(
            cv.outcomes,
            match av_out {
                Some(s) => s,
                None => none,
            },
            match bv_out {
                Some(s) => s,
                None => none,
            },
        );
        if av is Some && av->Some_0.literal() is Some && cv.outcomes
            == set![EvaluationOutcome::True] {
        } else {
            let out = EvaluationMetadata::ite_of(cv.outcomes, av_out, bv_out);
            assert(self.conditional(a, b, cv, av, bv).outcomes == out);
            if set == none {
                match some {
                    EvaluationOutcome::True => {
                        let x = choose|x: EvaluationOutcome| av->Some_0.outcomes.contains(x);
                        assert(set.contains(x));
                    },
                    EvaluationOutcome::False => {
                        let x = choose|x: EvaluationOutcome| bv->Some_0.outcomes.contains(x);
                        assert(set.contains(x));
                    },
                    EvaluationOutcome::Error => {
                        assert(set.contains(some));
                    },
                }
            }
        }
    }
}

impl Expr<Option<Type>> {
    /// The nodes of an expression are its own.
    pub proof fn lemma_nodes_mirror(&self, s: Sym)
        ensures
            self.nodes(s) matches Ok(n) ==> n.mirrors() && n.expr == *self,
        decreases self,
    {
        match &self.kind {
            ExprKind::And { left, right } => {
                left.lemma_nodes_mirror(s);
                right.lemma_nodes_mirror(s);
            },
            ExprKind::Or { left, right } => {
                left.lemma_nodes_mirror(s);
                right.lemma_nodes_mirror(s);
            },
            ExprKind::UnaryApp { arg, .. } => {
                arg.lemma_nodes_mirror(s);
            },
            ExprKind::If { test_expr, then_expr, else_expr } => {
                test_expr.lemma_nodes_mirror(s);
                then_expr.lemma_nodes_mirror(s);
                else_expr.lemma_nodes_mirror(s);
            },
            _ => {},
        }
    }
}

impl NTree {
    /// Marking keeps the nodes.
    pub proof fn lemma_marked_mirrors(self, kept: Seq<Tree>)
        requires
            self.mirrors(),
        ensures
            self.marked(kept).mirrors(),
            self.marked(kept).expr == self.expr,
        decreases self,
    {
        match self.kind {
            NKind::Atom { .. } => {},
            NKind::Not(x) => x.lemma_marked_mirrors(kept),
            NKind::And(l, r) | NKind::Or(l, r) => {
                l.lemma_marked_mirrors(kept);
                if r is Some {
                    r->Some_0.lemma_marked_mirrors(kept);
                }
            },
            NKind::If(c, a, b) => {
                c.lemma_marked_mirrors(kept);
                if a is Some {
                    a->Some_0.lemma_marked_mirrors(kept);
                }
                if b is Some {
                    b->Some_0.lemma_marked_mirrors(kept);
                }
            },
        }
    }

    /// The whole evaluation is sound: on every input that satisfies the
    /// assumptions, the outcome of the expression is one of those of the
    /// result, and the result evaluates as the expression does, up to the kind
    /// of error; provided that the terms are right about the input and the
    /// solver's answers are sound.
    pub proof fn law_result_is_sound(self, set: Setting, q: Given, w: World)
        requires
            self.mirrors(),
            self.evaluation(q) is Got,
            set.sound(q, self.evaluation(q)->Got_1.log),
            set.assumes(q.base),
            (set.envs)(w),
            self.faithful(set, w),
        ensures
            self.evaluation(q)->Got_0.outcomes.contains(self.outcome(w)),
            self.evaluation(q)->Got_0.tree().outcome(w) == self.outcome(w),
    {
        let st = St { log: seq![], obs: seq![] };
        let st1 = q.query(q.base, st)->Got_1;
        assert(Term::all_hold(q.base, (set.model)(w)));
        assert(Term::all_hold(Seq::<Term>::empty(), (set.model)(w)));
        assert(self.is_right(self.eval(q, seq![], st1)->Got_0, w)) by {
            self.law_evaluation_is_sound(set, q, seq![], st1, w);
        }
    }

    /// The whole evaluation is exact: each outcome of the result is that of
    /// the expression on some input that satisfies the assumptions; provided
    /// that the terms denote exactly what the expressions evaluate to, no
    /// entity is missing, and the solver's answers are exact.
    pub proof fn law_result_is_exact(self, set: Setting, q: Given, o: EvaluationOutcome) -> (w:
        World)
        requires
            self.mirrors(),
            self.denotes(set),
            self.evaluation(q) is Got,
            set.exact(q, self.evaluation(q)->Got_1.log),
            set.assumes(q.base),
            self.evaluation(q)->Got_0.outcomes.contains(o),
        ensures
            (set.envs)(w),
            self.outcome(w) == o,
    {
        let st = St { log: seq![], obs: seq![] };
        let st1 = q.query(q.base, st)->Got_1;
        let log = self.evaluation(q)->Got_1.log;
        self.lemma_grows(q, seq![], st1);
        assert(st1.log[0] == q.base);
        assert(log[0] == st1.log[0]);
        assert(!q.answers[0]);
        let w0 = choose|w: World|
            (set.envs)(w) && #[trigger] Term::all_hold(log[0], (set.model)(w));
        assert(Term::all_hold(Seq::<Term>::empty(), (set.model)(w0)));
        self.law_evaluation_is_exact(set, q, seq![], st1, w0, o)
    }

    /// Contradictory assumptions are reported: if no input satisfies the
    /// asserts, and the solver is exact, there is no result.
    pub proof fn law_contradiction_is_reported(self, set: Setting, q: Given)
        requires
            self.evaluation(q) is Got,
            set.exact(q, self.evaluation(q)->Got_1.log),
        ensures
            exists|w: World| (set.envs)(w) && #[trigger] Term::all_hold(q.base, (set.model)(w)),
    {
        let st = St { log: seq![], obs: seq![] };
        let st1 = q.query(q.base, st)->Got_1;
        let log = self.evaluation(q)->Got_1.log;
        self.lemma_grows(q, seq![], st1);
        assert(st1.log[0] == q.base);
        assert(log[0] == st1.log[0]);
        assert(!q.answers[0]);
    }

    /// A guard that is kept is not folded to the literal `true`.
    pub proof fn law_kept_guard_is_not_folded(self, q: Given, trail: Seq<Term>, st: St)
        requires
            self.kind matches NKind::Atom { keep, .. } && keep,
            !(self.expr.kind is Lit),
            self.eval(q, trail, st) is Got,
        ensures
            self.eval(q, trail, st)->Got_0.literal() != Some(true),
            self.eval(q, trail, st)->Got_0.outcomes == set![EvaluationOutcome::True]
                ==> self.eval(q, trail, st)->Got_0.tree() == self.expr.tree(),
    {
        let o = q.atom_outcomes(self.term, self.facts, self.kind->checks, trail, st)->Got_0;
        self.expr.lemma_annotated_tree(o);
        if o == set![EvaluationOutcome::False] {
            assert(o.contains(EvaluationOutcome::False));
            assert(!set![EvaluationOutcome::True].contains(EvaluationOutcome::False));
        }
    }

    /// What is left of `g && scope`, where the guard `g` is kept, is a literal,
    /// the guard alone, or `g && ..`: an access is never left without the
    /// guard before it.
    pub proof fn law_guard_stays_before_its_scope(self, q: Given, trail: Seq<Term>, st: St)
        requires
            self.kind matches NKind::And(g, _) && (g.kind matches NKind::Atom { keep, .. } && keep)
                && !(g.expr.kind is Lit),
            self.eval(q, trail, st) is Got,
        ensures
            ({
                let g = self.kind->And_0.expr.tree();
                let v = self.eval(q, trail, st)->Got_0;
                v.literal() is Some || v.tree() == g || (v.op == Op::And && v.kids.len() == 2
                    && v.kids[0].tree() == g)
            }),
    {
        let g = *self.kind->And_0;
        g.law_kept_guard_is_not_folded(q, trail, st);
        g.lemma_kept_guard_value(q, trail, st);
    }

    /// What is left of `if g then scope else other`, where the guard `g` is
    /// kept, is a literal, the guard alone, or `if g then .. else ..`, unless
    /// the guard is `false` and what is left is that of `other`.
    pub proof fn law_guard_stays_as_the_test(self, q: Given, trail: Seq<Term>, st: St)
        requires
            self.kind matches NKind::If(g, _, _) && (g.kind matches NKind::Atom { keep, .. }
                && keep) && !(g.expr.kind is Lit),
            self.eval(q, trail, st) is Got,
        ensures
            ({
                let g = self.kind->If_0.expr.tree();
                let v = self.eval(q, trail, st)->Got_0;
                ||| v.literal() is Some
                ||| v.tree() == g
                ||| v.op == Op::If && v.kids.len() == 3 && v.kids[0].tree() == g
                ||| self.kind->If_0.eval(q, trail, st)->Got_0.literal() == Some(false)
            }),
    {
        let g = *self.kind->If_0;
        g.law_kept_guard_is_not_folded(q, trail, st);
        g.lemma_kept_guard_value(q, trail, st);
    }

    /// A kept guard is evaluated to itself, or to `false`.
    proof fn lemma_kept_guard_value(self, q: Given, trail: Seq<Term>, st: St)
        requires
            self.kind matches NKind::Atom { keep, .. } && keep,
            self.eval(q, trail, st) is Got,
        ensures
            ({
                let v = self.eval(q, trail, st)->Got_0;
                v.literal() == Some(false) || v.tree() == self.expr.tree()
            }),
    {
        let o = q.atom_outcomes(self.term, self.facts, self.kind->checks, trail, st)->Got_0;
        self.expr.lemma_annotated_tree(o);
    }
}

impl Expr<Option<Type>> {
    /// Evaluating a typed expression is sound. The nodes that are evaluated are
    /// its own, each with the term, the checks and the facts that its
    /// sub-expression gives; on every input `w` that satisfies the
    /// assumptions, whatever entities are missing in its store, the outcome of
    /// the expression is one of those of the result, and the result evaluates
    /// as the expression does, up to the kind of error; provided that the
    /// solver's answers are sound and that the compiler is right: it sees the
    /// input as its completion `v`, and the term of every atom denotes what
    /// the atom evaluates to there.
    pub proof fn law_evaluating_is_sound(
        &self,
        root: NTree,
        s: Sym,
        set: Setting,
        q: Given,
        v: World,
        w: World,
    )
        requires
            crate::evaluator::session::is_root(root, *self, s),
            root.evaluation(q) is Got,
            set.sound(q, root.evaluation(q)->Got_1.log),
            set.assumes(q.base),
            (set.envs)(w),
            s.sees((set.model)(w), v, w),
            root.denoted(s, (set.model)(w), v, w),
        ensures
            root.compiled_by(s),
            root.evaluation(q)->Got_0.outcomes.contains(self.tree().outcome(w)),
            root.evaluation(q)->Got_0.tree().outcome(w) == self.tree().outcome(w),
    {
        let n = self.nodes(s)->Ok_0;
        let kept = choose|kept: Seq<Tree>| root == #[trigger] n.marked(kept);
        self.lemma_nodes_mirror(s);
        self.law_nodes_have_their_terms(s);
        n.lemma_marked_mirrors(kept);
        n.lemma_marked_compiled(kept, s);
        root.lemma_faithful(set, s, v, w);
        root.law_result_is_sound(set, q, w);
    }
}

impl NTree {
    /// What an expression is simplified to is well formed, as the expression
    /// is: the names of the fields of every record stay in order.
    pub proof fn law_result_stays_in_order(self, q: Given, trail: Seq<Term>, st: St)
        requires
            self.mirrors(),
            self.expr.tree().wf(),
            self.eval(q, trail, st) is Got,
        ensures
            self.eval(q, trail, st)->Got_0.tree().wf(),
        decreases self,
    {
        self.lemma_shape();
        let res = self.eval(q, trail, st)->Got_0;
        let t = self.expr.tree();
        assert(self.lit(true).tree().wf() && self.lit(false).tree().wf());
        match self.kind {
            NKind::Atom { checks, .. } => {
                let o = q.atom_outcomes(self.term, self.facts, checks, trail, st)->Got_0;
                self.expr.lemma_annotated_tree(o);
            },
            NKind::Not(x) => {
                assert(t.kids[0] == x.expr.tree());
                x.law_result_stays_in_order(q, trail, st);
                res.lemma_kids_wf();
            },
            NKind::And(l, r) => {
                assert(t.kids[0] == l.expr.tree() && t.kids[1]
                    == self.expr.kind->And_right.tree());
                l.law_result_stays_in_order(q, trail, st);
                let st1 = l.eval(q, trail, st)->Got_1;
                assert(l.lit(true).tree().wf());
                if r is Some {
                    let r = *r->Some_0;
                    if r.eval(q, trail, st1) is Got {
                        r.law_result_stays_in_order(q, trail, st1);
                    }
                    if r.eval(q, trail + l.trail(true), st1) is Got {
                        r.law_result_stays_in_order(q, trail + l.trail(true), st1);
                    }
                }
                res.lemma_kids_wf();
            },
            NKind::Or(l, r) => {
                assert(t.kids[0] == l.expr.tree() && t.kids[1]
                    == self.expr.kind->Or_right.tree());
                l.law_result_stays_in_order(q, trail, st);
                let st1 = l.eval(q, trail, st)->Got_1;
                if r is Some {
                    let r = *r->Some_0;
                    if r.eval(q, trail, st1) is Got {
                        r.law_result_stays_in_order(q, trail, st1);
                    }
                    if r.eval(q, trail + l.trail(false), st1) is Got {
                        r.law_result_stays_in_order(q, trail + l.trail(false), st1);
                    }
                }
                res.lemma_kids_wf();
            },
            NKind::If(c, a, b) => {
                assert(t.kids[0] == c.expr.tree() && t.kids[1]
                    == self.expr.kind->then_expr.tree() && t.kids[2]
                    == self.expr.kind->else_expr.tree());
                c.law_result_stays_in_order(q, trail, st);
                let cv = c.eval(q, trail, st)->Got_0;
                let st1 = c.eval(q, trail, st)->Got_1;
                let all = Outcomes::flags(true, true, true);
                if a is Some && a->Some_0.eval(q, trail, st1) is Got {
                    a->Some_0.law_result_stays_in_order(q, trail, st1);
                }
                if b is Some && b->Some_0.eval(q, trail, st1) is Got {
                    b->Some_0.law_result_stays_in_order(q, trail, st1);
                }
                if a is Some && b is Some {
                    let yes = a->Some_0.eval(q, trail + c.trail(true), st1);
                    let st2 = if cv.outcomes.contains(EvaluationOutcome::True) {
                        if yes is Got {
                            a->Some_0.law_result_stays_in_order(q, trail + c.trail(true), st1);
                        }
                        yes->Got_1
                    } else {
                        st1
                    };
                    if b->Some_0.eval(q, trail + c.trail(false), st2) is Got {
                        b->Some_0.law_result_stays_in_order(q, trail + c.trail(false), st2);
                    }
                    a->Some_0.expr.lemma_annotated_tree(all);
                    b->Some_0.expr.lemma_annotated_tree(all);
                }
                res.lemma_kids_wf();
            },
        }
    }
}

impl ETree {
    /// A structure node with well-formed children is well formed.
    proof fn lemma_kids_wf(self)
        ensures
            self.op.takes(self.kids.len()) && !(self.op is Record) && (forall|i: int|
                0 <= i < self.kids.len() ==> (#[trigger] self.kids[i]).tree().wf())
                ==> self.tree().wf(),
    {
        if self.op.takes(self.kids.len()) && !(self.op is Record) && (forall|i: int|
            0 <= i < self.kids.len() ==> (#[trigger] self.kids[i]).tree().wf()) {
            let t = self.tree();
            assert forall|i: int| 0 <= i < t.kids.len() implies (#[trigger] t.kids[i]).wf() by {
                assert(t.kids[i] == self.kids[i].tree());
            }
        }
    }
}

impl NTree {
    /// Marking keeps the terms.
    proof fn lemma_marked_compiled(self, kept: Seq<Tree>, s: Sym)
        requires
            self.compiled_by(s),
        ensures
            self.marked(kept).compiled_by(s),
            self.marked(kept).facts == self.facts,
        decreases self,
    {
        match self.kind {
            NKind::Atom { .. } => {},
            NKind::Not(x) => x.lemma_marked_compiled(kept, s),
            NKind::And(l, r) | NKind::Or(l, r) => {
                l.lemma_marked_compiled(kept, s);
                if r is Some {
                    r->Some_0.lemma_marked_compiled(kept, s);
                }
            },
            NKind::If(c, a, b) => {
                c.lemma_marked_compiled(kept, s);
                if a is Some {
                    a->Some_0.lemma_marked_compiled(kept, s);
                }
                if b is Some {
                    b->Some_0.lemma_marked_compiled(kept, s);
                }
            },
        }
    }
}

impl Setting {
    /// What asking whether an expression `t` and its result `r` differ
    /// decides, where `a` and `b` are their terms. If the asserts are
    /// unsatisfiable, both have the same outcome on every input that satisfies
    /// the assumptions; if they hold on an input, the outcomes differ there.
    /// Both are said of the inputs on which the terms denote the outcomes:
    /// those in whose store nothing is missing that the two look up.
    pub proof fn law_difference_decides(
        self,
        base: Seq<Term>,
        a: Term,
        b: Term,
        t: Tree,
        r: Tree,
        w: World,
    )
        requires
            (self.envs)(w),
            self.assumes(base),
            a.outcome((self.model)(w)) == t.outcome(w),
            b.outcome((self.model)(w)) == r.outcome(w),
            Term::same_value(a, b).holds((self.model)(w)) == (a.value((self.model)(w)) == b.value(
                (self.model)(w),
            )),
        ensures
            Term::all_hold(base.push(Term::differ(a, b)), (self.model)(w)) <==> t.outcome(w)
                != r.outcome(w),
    {
        let m = (self.model)(w);
        Term::lemma_all_hold_push(base, Term::differ(a, b), m);
        assert(Term::all_hold(base, m));
        assert(Term::differ(a, b).holds(m) == !Term::same_value(a, b).holds(m));
        assert(a.value(m) == b.value(m) <==> a.outcome(m) == b.outcome(m));
    }
}

} // verus!
