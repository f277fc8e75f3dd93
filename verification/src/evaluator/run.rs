//! The evaluation proper, as a function of the solver's answers so far.
//!
//! The evaluator asks the solver whether lists of asserts are unsatisfiable.
//! [`step`] is given the answers to the questions it has asked, in order, and
//! either asks the next one or is done.

use std::sync::Arc;

use vstd::prelude::*;

use crate::ast::{Data, Expr, ExprKind, Loc, Prim, UnaryOp};
use crate::evaluator::compile::{Adds, Existence};
use crate::evaluator::err::EvaluationError;
use crate::evaluator::metadata::{literal_of, zip_types, ETree, EvaluationMetadata};
use crate::evaluator::node::{copy_into, FView, Facts, NKind, NTree, Node, NodeKind};
use crate::evaluator::term::{both, is_bool, is_literal, is_none, or, term_literal, Term};
use crate::outcome::{EvaluationOutcome, Outcomes};
use crate::tree::{Atomic, Op};

verus! {

/// One query the evaluator issued: the full assert list (base, trail and
/// constraint concatenated) and its answer.
#[derive(Debug)]
pub struct QueryRecord {
    /// The asserts, in query order.
    pub asserts: Vec<Term>,
    /// Whether they were unsatisfiable.
    pub unsat: bool,
}

/// A recording of one evaluation.
#[derive(Debug)]
pub struct EvaluationTrace {
    /// The typechecked-then-erased target expression: the tree the evaluator
    /// actually walks.
    pub erased: Expr<()>,
    /// The base asserts of the evaluation, in query order.
    pub base: Vec<Term>,
    /// The base asserts of the equivalence check, if one was recorded.
    pub ce_base: Option<Vec<Term>>,
    /// Every query, in order.
    pub queries: Vec<QueryRecord>,
}

/// The outcome set of one node the evaluator visited, with the node's source
/// location.
#[derive(Debug)]
pub struct NodeOutcome {
    /// Where the node is in the source, if known.
    pub loc: Option<Loc>,
    /// Whether the node is a literal.
    pub literal: bool,
    /// The node's outcomes under the trail it was reached with.
    pub outcomes: Outcomes,
    /// Whether the node is a `has`/`hasTag` guard the evaluator keeps.
    pub kept: bool,
}

/// What a [`NodeOutcome`] is.
#[verifier::ext_equal]
pub struct Obs {
    pub loc: Option<Loc>,
    pub literal: bool,
    pub outcomes: Set<EvaluationOutcome>,
    pub kept: bool,
}

impl NodeOutcome {
    /// What was observed.
    pub open spec fn view(&self) -> Obs {
        Obs {
            loc: self.loc,
            literal: self.literal,
            outcomes: self.outcomes@,
            kept: self.kept,
        }
    }
}

/// How far an evaluation has come: the queries asked and the nodes visited.
#[verifier::ext_equal]
pub struct St {
    pub log: Seq<Seq<Term>>,
    pub obs: Seq<Obs>,
}

/// The queries asked, with their answers, and the nodes visited.
#[derive(Debug)]
pub struct Progress {
    pub queries: Vec<QueryRecord>,
    pub observed: Vec<NodeOutcome>,
}

impl Progress {
    /// How far the evaluation has come.
    pub open spec fn view(&self) -> St {
        St {
            log: self.queries@.map_values(|q: QueryRecord| q.asserts@),
            obs: self.observed@.map_values(|o: NodeOutcome| o@),
        }
    }

    /// The answers on record are the first of `answers`.
    pub open spec fn agrees(&self, answers: Seq<bool>) -> bool {
        &&& self.queries@.len() <= answers.len()
        &&& forall|i: int|
            0 <= i < self.queries@.len() ==> (#[trigger] self.queries@[i]).unsat == answers[i]
    }
}

/// Where part of an evaluation ends: with a result, with a question (the last
/// one in the log) or with a failure.
pub enum Ev<A> {
    Got(A, St),
    Ask(St),
    Fail(EvaluationError, St),
}

impl<A> Ev<A> {
    /// The same end of a larger part, which is not a result.
    pub open spec fn stop<B>(self) -> Ev<B> {
        match self {
            Ev::Got(_, st) => Ev::Ask(st),
            Ev::Ask(st) => Ev::Ask(st),
            Ev::Fail(e, st) => Ev::Fail(e, st),
        }
    }
}

/// Why part of an evaluation has no result.
#[derive(Debug)]
pub enum Stop {
    /// The asserts of the next query.
    Ask(Vec<Term>),
    Fail(EvaluationError),
}

impl Stop {
    /// `ev` ends like this.
    pub open spec fn ends<A>(self, ev: Ev<A>, st: St) -> bool {
        match self {
            Stop::Ask(q) => ev matches Ev::Ask(s) && s == (St { log: st.log.push(q@), obs: st.obs }),
            Stop::Fail(e) => ev matches Ev::Fail(x, s) && x == e && s == st,
        }
    }
}

/// What an evaluation is given: the asserts that every query starts with, and
/// the answers to its first queries.
pub struct Given {
    pub base: Seq<Term>,
    pub answers: Seq<bool>,
}

impl Given {
    /// Asks whether `asserts` are unsatisfiable.
    pub open spec fn query(self, asserts: Seq<Term>, st: St) -> Ev<bool> {
        let next = St { log: st.log.push(asserts), obs: st.obs };
        if st.log.len() < self.answers.len() {
            Ev::Got(self.answers[st.log.len() as int], next)
        } else {
            Ev::Ask(next)
        }
    }

    /// Asks whether `constraint` is unsatisfiable under `trail`.
    pub open spec fn ask(self, trail: Seq<Term>, constraint: Term, st: St) -> Ev<bool> {
        self.query((self.base + trail).push(constraint), st)
    }

    /// The outcomes of a term under `trail`: three questions, unless the term
    /// is a literal or can not be an error. Whether it can be a boolean is
    /// asked together with the existence facts of an atom that has taken it.
    pub open spec fn term_outcomes(
        self,
        term: Term,
        facts: FView,
        trail: Seq<Term>,
        st: St,
    ) -> Ev<Set<EvaluationOutcome>> {
        match term.literal() {
            Some(o) => Ev::Got(set![o], st),
            None => match self.ask(trail, facts.question(term, true), st) {
                Ev::Got(no_true, st1) => match self.ask(trail, facts.question(term, false), st1) {
                    Ev::Got(no_false, st2) => {
                        let none = Term::is_none_of(term);
                        if none == Term::Bool(false) {
                            Ev::Got(Outcomes::flags(!no_true, !no_false, false), st2)
                        } else {
                            match self.ask(trail, none, st2) {
                                Ev::Got(no_error, st3) => Ev::Got(
                                    Outcomes::flags(!no_true, !no_false, !no_error),
                                    st3,
                                ),
                                ev => ev.stop(),
                            }
                        }
                    },
                    ev => ev.stop(),
                },
                ev => ev.stop(),
            },
        }
    }

    /// The outcomes after the first `n` existence questions: where the
    /// receiver can be missing, what the atom may then be joins them.
    pub open spec fn with_checks(
        self,
        checks: Seq<Existence>,
        n: nat,
        outcomes: Set<EvaluationOutcome>,
        trail: Seq<Term>,
        st: St,
    ) -> Ev<Set<EvaluationOutcome>>
        decreases n,
    {
        if n == 0 {
            Ev::Got(outcomes, st)
        } else {
            match self.with_checks(checks, (n - 1) as nat, outcomes, trail, st) {
                Ev::Got(o, st1) => {
                    let c = checks[n - 1];
                    if c.adds.set().subset_of(o) {
                        Ev::Got(o, st1)
                    } else {
                        match self.ask(trail, c.missing(), st1) {
                            Ev::Got(unsat, st2) => Ev::Got(
                                if unsat {
                                    o
                                } else {
                                    o + c.adds.set()
                                },
                                st2,
                            ),
                            ev => ev.stop(),
                        }
                    }
                },
                ev => ev,
            }
        }
    }

    /// The outcomes of an atom under `trail`: those of its term, and those that
    /// missing receivers add.
    pub open spec fn atom_outcomes(
        self,
        term: Term,
        facts: FView,
        checks: Seq<Existence>,
        trail: Seq<Term>,
        st: St,
    ) -> Ev<Set<EvaluationOutcome>> {
        match self.term_outcomes(term, facts, trail, st) {
            Ev::Got(o, st1) => match self.with_checks(checks, checks.len(), o, trail, st1) {
                Ev::Got(all, st2) => if all == Set::<EvaluationOutcome>::empty() {
                    Ev::Fail(
                        EvaluationError::Internal(
                            "no possible outcome for an atom under a satisfiable trail",
                        ),
                        st2,
                    )
                } else {
                    Ev::Got(all, st2)
                },
                ev => ev,
            },
            ev => ev,
        }
    }
}

impl FView {
    /// The existence facts of having taken the value `b`.
    pub open spec fn known(self, b: bool) -> Seq<Term> {
        self.given(Some(b)).map_values(|c: Existence| c.present())
    }

    /// The term is `some(b)`, and the existence facts of having taken it hold.
    pub open spec fn question(self, term: Term, b: bool) -> Term {
        Term::and_all(Term::is_bool(term, b), self.known(b))
    }

    /// The term has the outcome, and the existence facts of a boolean hold.
    pub open spec fn asked(self, term: Term, o: EvaluationOutcome) -> Term {
        match o {
            EvaluationOutcome::True => self.question(term, true),
            EvaluationOutcome::False => self.question(term, false),
            EvaluationOutcome::Error => Term::is_none_of(term),
        }
    }
}

impl Existence {
    /// The receiver exists.
    pub open spec fn present(self) -> Term {
        Term::Exists(self.ety, Arc::new(Term::OptionGet(Arc::new(self.receiver))))
    }

    /// The receiver is an entity that does not exist.
    pub open spec fn missing(self) -> Term {
        Term::And(
            Arc::new(Term::IsSome(Arc::new(self.receiver))),
            Arc::new(Term::Not(Arc::new(self.present()))),
        )
    }

    /// `t`, or one of the first `n` of `checks` that let an atom have the
    /// outcome `o` has a missing receiver.
    pub open spec fn or_missing(
        t: Term,
        checks: Seq<Existence>,
        n: nat,
        o: EvaluationOutcome,
    ) -> Term
        decreases n,
    {
        if n == 0 {
            t
        } else {
            let rest = Existence::or_missing(t, checks, (n - 1) as nat, o);
            let c = checks[n - 1];
            if c.adds.set().contains(o) {
                Term::or_of(rest, c.missing())
            } else {
                rest
            }
        }
    }

    /// The fact that the receiver exists.
    pub fn exists_fact(&self) -> (r: Term)
        ensures
            r == self.present(),
    {
        Term::Exists(
            self.ety.clone(),
            Arc::new(Term::OptionGet(Arc::new(self.receiver.dup()))),
        )
    }

    /// The constraint that the receiver is an entity that does not exist.
    pub fn missing_term(&self) -> (r: Term)
        ensures
            r == self.missing(),
    {
        Term::And(
            Arc::new(Term::IsSome(Arc::new(self.receiver.dup()))),
            Arc::new(Term::Not(Arc::new(self.exists_fact()))),
        )
    }
}

impl NTree {
    /// The literal `b` in the place of the node.
    pub open spec fn lit(self, b: bool) -> ETree {
        ETree {
            op: Op::Lit(Atomic::Bool(b)),
            loc: self.expr.loc,
            outcomes: set![EvaluationOutcome::of_bool(b)],
            ty: self.expr.data,
            kids: seq![],
        }
    }

    /// A structure node in the place of the node.
    pub open spec fn structure(self, op: Op, outcomes: Set<EvaluationOutcome>, kids: Seq<ETree>) ->
        ETree {
        ETree { op, loc: self.expr.loc, outcomes, ty: self.expr.data, kids }
    }

    /// What holds where the node has the outcome `o`. An atom has it where its
    /// term has (and its facts hold, if it is a boolean), or where the receiver
    /// of an access is missing that lets the atom have it; the other nodes where their children have the outcomes
    /// that make theirs. A child that is not compiled says nothing.
    pub open spec fn took(self, o: EvaluationOutcome) -> Term
        decreases self,
    {
        let yes = EvaluationOutcome::True;
        let no = EvaluationOutcome::False;
        match self.kind {
            NKind::Atom { checks, .. } => Existence::or_missing(
                self.facts.asked(self.term, o),
                checks,
                checks.len(),
                o,
            ),
            NKind::Not(x) => x.took(o.flip()),
            NKind::And(l, r) => {
                let second = Term::both_of(
                    l.took(yes),
                    match r {
                        Some(r) => Some(r.took(o)),
                        None => None,
                    },
                );
                if o == yes {
                    second
                } else {
                    Term::or_of(l.took(o), second)
                }
            },
            NKind::Or(l, r) => {
                let second = Term::both_of(
                    l.took(no),
                    match r {
                        Some(r) => Some(r.took(o)),
                        None => None,
                    },
                );
                if o == no {
                    second
                } else {
                    Term::or_of(l.took(o), second)
                }
            },
            NKind::If(c, a, b) => {
                let branches = Term::or_of(
                    Term::both_of(
                        c.took(yes),
                        match a {
                            Some(a) => Some(a.took(o)),
                            None => None,
                        },
                    ),
                    Term::both_of(
                        c.took(no),
                        match b {
                            Some(b) => Some(b.took(o)),
                            None => None,
                        },
                    ),
                );
                if o == EvaluationOutcome::Error {
                    Term::or_of(c.took(o), branches)
                } else {
                    branches
                }
            },
        }
    }

    /// What holds where the node has one of the outcomes.
    pub open spec fn took_one(self, outcomes: Set<EvaluationOutcome>) -> Term {
        let a = if outcomes.contains(EvaluationOutcome::True) {
            self.took(EvaluationOutcome::True)
        } else {
            Term::Bool(false)
        };
        let b = if outcomes.contains(EvaluationOutcome::False) {
            Term::or_of(a, self.took(EvaluationOutcome::False))
        } else {
            a
        };
        if outcomes.contains(EvaluationOutcome::Error) {
            Term::or_of(b, self.took(EvaluationOutcome::Error))
        } else {
            b
        }
    }

    /// What follows from the node having taken the value `b`: what holds
    /// there, and the existence facts.
    pub open spec fn trail(self, b: bool) -> Seq<Term> {
        seq![self.took(EvaluationOutcome::of_bool(b))] + self.facts.known(b)
    }

    /// A kept guard whose scope folded to a literal guards nothing any more:
    /// the literal `true` it stands for.
    pub open spec fn unguard(self, v: ETree) -> ETree {
        if self.kind is Atom && v.literal() is None && v.outcomes == set![EvaluationOutcome::True] {
            self.lit(true)
        } else {
            v
        }
    }

    /// The evaluation of a node under `trail`: what follows from the path
    /// taken to it.
    pub open spec fn eval(self, q: Given, trail: Seq<Term>, st: St) -> Ev<ETree>
        decreases self, 1nat,
    {
        match self.eval_inner(q, trail, st) {
            Ev::Got(r, st1) => Ev::Got(
                r,
                St {
                    log: st1.log,
                    obs: st1.obs.push(
                        Obs {
                            loc: self.expr.loc,
                            literal: self.expr.kind is Lit,
                            outcomes: r.outcomes,
                            kept: self.kind matches NKind::Atom { keep: true, .. },
                        },
                    ),
                },
            ),
            ev => ev,
        }
    }

    /// The evaluation of a node, before it is recorded.
    pub open spec fn eval_inner(self, q: Given, trail: Seq<Term>, st: St) -> Ev<ETree>
        decreases self, 0nat,
    {
        match self.kind {
            NKind::Atom { checks, keep } => match q.atom_outcomes(
                self.term,
                self.facts,
                checks,
                trail,
                st,
            ) {
                Ev::Got(o, st1) => Ev::Got(
                    if o == set![EvaluationOutcome::True] && !keep {
                        self.lit(true)
                    } else if o == set![EvaluationOutcome::False] {
                        self.lit(false)
                    } else {
                        self.expr.annotated(o)
                    },
                    st1,
                ),
                ev => ev.stop(),
            },
            NKind::Not(x) => match x.eval(q, trail, st) {
                Ev::Got(v, st1) => Ev::Got(
                    match v.literal() {
                        Some(b) => self.lit(!b),
                        None => if v.outcomes == set![EvaluationOutcome::Error] {
                            v
                        } else {
                            self.structure(
                                Op::Unary(UnaryOp::Not),
                                Outcomes::not_of(v.outcomes),
                                seq![v],
                            )
                        },
                    },
                    st1,
                ),
                ev => ev,
            },
            NKind::And(l, r) => match l.eval(q, trail, st) {
                Ev::Got(lv, st1) => if lv.outcomes == set![EvaluationOutcome::Error] {
                    Ev::Got(lv, st1)
                } else if lv.literal() == Some(false) {
                    Ev::Got(self.lit(false), st1)
                } else if lv.literal() == Some(true) {
                    match r {
                        Some(r) => r.eval(q, trail, st1),
                        None => Ev::Fail(
                            EvaluationError::Internal(
                                "right operand of `&&` missing although the left one is true",
                            ),
                            st1,
                        ),
                    }
                } else if !lv.outcomes.contains(EvaluationOutcome::True) {
                    Ev::Got(lv, st1)
                } else {
                    match r {
                        Some(r) => match r.eval(q, trail + l.trail(true), st1) {
                            Ev::Got(rv, st2) => Ev::Got(self.conjunction(*l, lv, rv), st2),
                            ev => ev,
                        },
                        None => Ev::Fail(
                            EvaluationError::Internal(
                                "right operand of `&&` missing although the left one can be true",
                            ),
                            st1,
                        ),
                    }
                },
                ev => ev,
            },
            NKind::Or(l, r) => match l.eval(q, trail, st) {
                Ev::Got(lv, st1) => if lv.outcomes == set![EvaluationOutcome::Error] {
                    Ev::Got(lv, st1)
                } else if lv.literal() == Some(true) {
                    Ev::Got(self.lit(true), st1)
                } else if lv.literal() == Some(false) {
                    match r {
                        Some(r) => r.eval(q, trail, st1),
                        None => Ev::Fail(
                            EvaluationError::Internal(
                                "right operand of `||` missing although the left one is false",
                            ),
                            st1,
                        ),
                    }
                } else if !lv.outcomes.contains(EvaluationOutcome::False) {
                    Ev::Got(lv, st1)
                } else {
                    match r {
                        Some(r) => match r.eval(q, trail + l.trail(false), st1) {
                            Ev::Got(rv, st2) => Ev::Got(self.disjunction(lv, rv), st2),
                            ev => ev,
                        },
                        None => Ev::Fail(
                            EvaluationError::Internal(
                                "right operand of `||` missing although the left one can be false",
                            ),
                            st1,
                        ),
                    }
                },
                ev => ev,
            },
            NKind::If(c, a, b) => match c.eval(q, trail, st) {
                Ev::Got(cv, st1) => if cv.outcomes == set![EvaluationOutcome::Error] {
                    Ev::Got(cv, st1)
                } else if cv.literal() == Some(true) {
                    match a {
                        Some(a) => a.eval(q, trail, st1),
                        None => Ev::Fail(
                            EvaluationError::Internal(
                                "then-branch missing although the test is true",
                            ),
                            st1,
                        ),
                    }
                } else if cv.literal() == Some(false) {
                    match b {
                        Some(b) => b.eval(q, trail, st1),
                        None => Ev::Fail(
                            EvaluationError::Internal(
                                "else-branch missing although the test is false",
                            ),
                            st1,
                        ),
                    }
                } else {
                    match (a, b) {
                        (Some(a), Some(b)) => {
                            let at = if cv.outcomes.contains(EvaluationOutcome::True) {
                                match a.eval(q, trail + c.trail(true), st1) {
                                    Ev::Got(v, s) => Ev::Got(Some(v), s),
                                    ev => ev.stop(),
                                }
                            } else {
                                Ev::Got(None, st1)
                            };
                            match at {
                                Ev::Got(av, st2) => {
                                    let bt = if cv.outcomes.contains(EvaluationOutcome::False) {
                                        match b.eval(q, trail + c.trail(false), st2) {
                                            Ev::Got(v, s) => Ev::Got(Some(v), s),
                                            ev => ev.stop(),
                                        }
                                    } else {
                                        Ev::Got(None, st2)
                                    };
                                    match bt {
                                        Ev::Got(bv, st3) => Ev::Got(
                                            self.conditional(*a, *b, cv, av, bv),
                                            st3,
                                        ),
                                        ev => ev.stop(),
                                    }
                                },
                                ev => ev.stop(),
                            }
                        },
                        _ => Ev::Fail(
                            EvaluationError::Internal(
                                "branch missing although the test is not a literal",
                            ),
                            st1,
                        ),
                    }
                },
                ev => ev,
            },
        }
    }

    /// `lv && rv`, for the left operand `l`.
    pub open spec fn conjunction(self, l: NTree, lv: ETree, rv: ETree) -> ETree {
        if rv.literal() == Some(true) {
            l.unguard(lv)
        } else if rv.literal() == Some(false) && !lv.outcomes.contains(EvaluationOutcome::Error) {
            self.lit(false)
        } else {
            self.structure(Op::And, Outcomes::and_of(lv.outcomes, rv.outcomes), seq![lv, rv])
        }
    }

    /// `lv || rv`
    pub open spec fn disjunction(self, lv: ETree, rv: ETree) -> ETree {
        if rv.literal() == Some(false) {
            lv
        } else if rv.literal() == Some(true) && !lv.outcomes.contains(EvaluationOutcome::Error) {
            self.lit(true)
        } else {
            self.structure(Op::Or, Outcomes::or_of(lv.outcomes, rv.outcomes), seq![lv, rv])
        }
    }

    /// `if cv then av else bv`, for the branches `a` and `b`, of which one
    /// that was not visited stays as it is.
    pub open spec fn conditional(
        self,
        a: NTree,
        b: NTree,
        cv: ETree,
        av: Option<ETree>,
        bv: Option<ETree>,
    ) -> ETree {
        let all = Outcomes::flags(true, true, true);
        if av is Some && av->Some_0.literal() is Some && cv.outcomes
            == set![EvaluationOutcome::True] {
            av->Some_0
        } else {
            self.structure(
                Op::If,
                EvaluationMetadata::ite_of(
                    cv.outcomes,
                    match av {
                        Some(v) => Some(v.outcomes),
                        None => None,
                    },
                    match bv {
                        Some(v) => Some(v.outcomes),
                        None => None,
                    },
                ),
                seq![
                    cv,
                    match av {
                        Some(v) => v,
                        None => a.expr.annotated(all),
                    },
                    match bv {
                        Some(v) => v,
                        None => b.expr.annotated(all),
                    },
                ],
            )
        }
    }

    /// The whole evaluation: the asserts alone are asked first.
    pub open spec fn evaluation(self, q: Given) -> Ev<ETree> {
        let st = St { log: seq![], obs: seq![] };
        match q.query(q.base, st) {
            Ev::Got(unsat, st1) => if unsat {
                Ev::Fail(EvaluationError::UnsatisfiableAssumptions, st1)
            } else {
                self.eval(q, seq![], st1)
            },
            ev => ev.stop(),
        }
    }
}

/// Copies of `base` and `trail`, followed by `constraint`.
fn asserts_of(base: &Vec<Term>, trail: &Vec<Term>, constraint: Term) -> (r: Vec<Term>)
    ensures
        r@ == (base@ + trail@).push(constraint),
{
    let mut r: Vec<Term> = Vec::new();
    copy_into(base, &mut r);
    copy_into(trail, &mut r);
    r.push(constraint);
    assert(r@ =~= (base@ + trail@).push(constraint));
    r
}

impl Progress {
    /// Nothing asked, nothing visited.
    fn new() -> (r: Progress)
        ensures
            r@ == (St { log: seq![], obs: seq![] }),
            forall|answers: Seq<bool>| #[trigger] r.agrees(answers),
    {
        let r = Progress { queries: Vec::new(), observed: Vec::new() };
        assert(r@.log =~= seq![]);
        assert(r@.obs =~= seq![]);
        r
    }

    /// Asks whether `asserts` are unsatisfiable.
    fn query(&mut self, answers: &Vec<bool>, asserts: Vec<Term>, base: Ghost<Seq<Term>>) -> (r:
        Result<bool, Stop>)
        requires
            old(self).agrees(answers@),
        ensures
            final(self).agrees(answers@),
            match r {
                Ok(unsat) => (Given { base: base@, answers: answers@ }).query(
                    asserts@,
                    old(self)@,
                ) == Ev::Got(unsat, final(self)@),
                Err(stop) => stop.ends(
                    (Given { base: base@, answers: answers@ }).query(asserts@, old(self)@),
                    final(self)@,
                ),
            },
    {
        let n = self.queries.len();
        if n < answers.len() {
            let unsat = answers[n];
            let ghost before = self@;
            self.queries.push(QueryRecord { asserts, unsat });
            assert(self@.log =~= before.log.push(asserts@));
            assert(self@.obs =~= before.obs);
            Ok(unsat)
        } else {
            Err(Stop::Ask(asserts))
        }
    }

    /// Asks whether `constraint` is unsatisfiable under `trail`.
    fn ask(
        &mut self,
        base: &Vec<Term>,
        answers: &Vec<bool>,
        trail: &Vec<Term>,
        constraint: Term,
    ) -> (r: Result<bool, Stop>)
        requires
            old(self).agrees(answers@),
        ensures
            final(self).agrees(answers@),
            match r {
                Ok(unsat) => (Given { base: base@, answers: answers@ }).ask(
                    trail@,
                    constraint,
                    old(self)@,
                ) == Ev::Got(unsat, final(self)@),
                Err(stop) => stop.ends(
                    (Given { base: base@, answers: answers@ }).ask(trail@, constraint, old(self)@),
                    final(self)@,
                ),
            },
    {
        self.query(answers, asserts_of(base, trail, constraint), Ghost(base@))
    }

    /// The outcomes of `term` under `trail`, where `facts` are those of the
    /// atom.
    fn term_outcomes(
        &mut self,
        base: &Vec<Term>,
        answers: &Vec<bool>,
        trail: &Vec<Term>,
        term: &Term,
        facts: &Facts,
    ) -> (r: Result<Adds, Stop>)
        requires
            old(self).agrees(answers@),
        ensures
            final(self).agrees(answers@),
            match r {
                Ok(o) => (Given { base: base@, answers: answers@ }).term_outcomes(
                    *term,
                    facts@,
                    trail@,
                    old(self)@,
                ) == Ev::Got(o.set(), final(self)@),
                Err(stop) => stop.ends(
                    (Given { base: base@, answers: answers@ }).term_outcomes(
                        *term,
                        facts@,
                        trail@,
                        old(self)@,
                    ),
                    final(self)@,
                ),
            },
    {
        if let Some(o) = term_literal(term) {
            let r = Adds {
                can_true: o == EvaluationOutcome::True,
                can_false: o == EvaluationOutcome::False,
                can_error: o == EvaluationOutcome::Error,
            };
            assert(r.set() =~= set![o]);
            return Ok(r);
        }
        let no_true = match self.ask(base, answers, trail, facts.question(term, true)) {
            Ok(u) => u,
            Err(stop) => return Err(stop),
        };
        let no_false = match self.ask(base, answers, trail, facts.question(term, false)) {
            Ok(u) => u,
            Err(stop) => return Err(stop),
        };
        let none = is_none(term);
        let can_error = if is_literal(&none, false) {
            false
        } else {
            match self.ask(base, answers, trail, none) {
                Ok(u) => !u,
                Err(stop) => return Err(stop),
            }
        };
        Ok(Adds { can_true: !no_true, can_false: !no_false, can_error })
    }

    /// The outcomes of an atom with the term `term`, the facts `facts` and the
    /// accesses `checks` under `trail`.
    fn atom_outcomes(
        &mut self,
        base: &Vec<Term>,
        answers: &Vec<bool>,
        trail: &Vec<Term>,
        term: &Term,
        facts: &Facts,
        checks: &Vec<Existence>,
    ) -> (r: Result<Outcomes, Stop>)
        requires
            old(self).agrees(answers@),
        ensures
            final(self).agrees(answers@),
            match r {
                Ok(o) => (Given { base: base@, answers: answers@ }).atom_outcomes(
                    *term,
                    facts@,
                    checks@,
                    trail@,
                    old(self)@,
                ) == Ev::Got(o@, final(self)@),
                Err(stop) => stop.ends(
                    (Given { base: base@, answers: answers@ }).atom_outcomes(
                        *term,
                        facts@,
                        checks@,
                        trail@,
                        old(self)@,
                    ),
                    final(self)@,
                ),
            },
    {
        let ghost q = Given { base: base@, answers: answers@ };
        let mut outcomes = match self.term_outcomes(base, answers, trail, term, facts) {
            Ok(o) => o,
            Err(stop) => return Err(stop),
        };
        let ghost first = outcomes.set();
        let ghost st1 = self@;
        let mut i: usize = 0;
        while i < checks.len()
            invariant
                i <= checks@.len(),
                q == (Given { base: base@, answers: answers@ }),
                self.agrees(answers@),
                q.term_outcomes(*term, facts@, trail@, old(self)@) == Ev::Got(first, st1),
                q.with_checks(checks@, i as nat, first, trail@, st1) == Ev::Got(
                    outcomes.set(),
                    self@,
                ),
            decreases checks@.len() - i,
        {
            let check = &checks[i];
            let adds = check.adds;
            let known = (!adds.can_true || outcomes.can_true) && (!adds.can_false
                || outcomes.can_false) && (!adds.can_error || outcomes.can_error);
            proof {
                let a = adds.set();
                let o = outcomes.set();
                assert(a.contains(EvaluationOutcome::True) == adds.can_true);
                assert(a.contains(EvaluationOutcome::False) == adds.can_false);
                assert(a.contains(EvaluationOutcome::Error) == adds.can_error);
                assert(o.contains(EvaluationOutcome::True) == outcomes.can_true);
                assert(o.contains(EvaluationOutcome::False) == outcomes.can_false);
                assert(o.contains(EvaluationOutcome::Error) == outcomes.can_error);
                assert(known == a.subset_of(o));
            }
            if !known {
                match self.ask(base, answers, trail, check.missing_term()) {
                    Ok(unsat) => {
                        if !unsat {
                            let ghost before = outcomes.set();
                            outcomes = Adds {
                                can_true: outcomes.can_true || adds.can_true,
                                can_false: outcomes.can_false || adds.can_false,
                                can_error: outcomes.can_error || adds.can_error,
                            };
                            assert(outcomes.set() =~= before + adds.set());
                        }
                    },
                    Err(stop) => {
                        proof {
                            q.lemma_checks_stop(
                                checks@,
                                (i + 1) as nat,
                                checks@.len(),
                                first,
                                trail@,
                                st1,
                            );
                        }
                        return Err(stop);
                    },
                }
            }
            i += 1;
        }
        proof {
            let o = outcomes.set();
            if outcomes.can_true {
                assert(o.contains(EvaluationOutcome::True));
            }
            if outcomes.can_false {
                assert(o.contains(EvaluationOutcome::False));
            }
            if outcomes.can_error {
                assert(o.contains(EvaluationOutcome::Error));
            }
            if !outcomes.can_true && !outcomes.can_false && !outcomes.can_error {
                assert(o =~= Set::<EvaluationOutcome>::empty());
            }
        }
        match Outcomes::from_flags(outcomes.can_true, outcomes.can_false, outcomes.can_error) {
            Some(o) => Ok(o),
            None => Err(
                Stop::Fail(
                    EvaluationError::Internal(
                        "no possible outcome for an atom under a satisfiable trail",
                    ),
                ),
            ),
        }
    }
}

impl Given {
    /// Once the existence questions stop, they stay stopped.
    proof fn lemma_checks_stop(
        self,
        checks: Seq<Existence>,
        i: nat,
        n: nat,
        outcomes: Set<EvaluationOutcome>,
        trail: Seq<Term>,
        st: St,
    )
        requires
            i <= n,
            !(self.with_checks(checks, i, outcomes, trail, st) is Got),
        ensures
            self.with_checks(checks, n, outcomes, trail, st) == self.with_checks(
                checks,
                i,
                outcomes,
                trail,
                st,
            ),
        decreases n,
    {
        if i < n {
            self.lemma_checks_stop(checks, i, (n - 1) as nat, outcomes, trail, st);
        }
    }
}

/// `t`, or one of `checks` that let an atom have the outcome `o` has a missing
/// receiver.
fn or_missing(t: Term, checks: &Vec<Existence>, o: EvaluationOutcome) -> (r: Term)
    ensures
        r == Existence::or_missing(t, checks@, checks@.len(), o),
{
    let mut r = t;
    let mut i: usize = 0;
    while i < checks.len()
        invariant
            i <= checks@.len(),
            r == Existence::or_missing(t, checks@, i as nat, o),
        decreases checks@.len() - i,
    {
        let adds = checks[i].adds;
        let adds_it = match o {
            EvaluationOutcome::True => adds.can_true,
            EvaluationOutcome::False => adds.can_false,
            EvaluationOutcome::Error => adds.can_error,
        };
        if adds_it {
            r = or(r, checks[i].missing_term());
        }
        i += 1;
    }
    r
}

impl Facts {
    /// The term is `some(b)`, and the existence facts of having taken it hold.
    fn question(&self, term: &Term, b: bool) -> (r: Term)
        ensures
            r == self@.question(*term, b),
    {
        let facts = self.get(Some(b));
        let ghost all = self@.known(b);
        let mut r = is_bool(term, b);
        let mut i: usize = 0;
        assert(all.take(0) =~= seq![]);
        while i < facts.len()
            invariant
                i <= facts@.len(),
                all == facts@.map_values(|c: Existence| c.present()),
                r == Term::and_all(Term::is_bool(*term, b), all.take(i as int)),
            decreases facts@.len() - i,
        {
            r = Term::And(Arc::new(r), Arc::new(facts[i].exists_fact()));
            i += 1;
            assert(all.take(i as int).drop_last() =~= all.take(i - 1));
        }
        assert(all.take(i as int) =~= all);
        r
    }
}

/// What holds where a node has each outcome.
pub struct Took {
    pub on_true: Term,
    pub on_false: Term,
    pub on_error: Term,
}

impl Took {
    /// The terms are those of `n`.
    pub open spec fn is_of(self, n: NTree) -> bool {
        &&& self.on_true == n.took(EvaluationOutcome::True)
        &&& self.on_false == n.took(EvaluationOutcome::False)
        &&& self.on_error == n.took(EvaluationOutcome::Error)
    }
}

/// The terms of a child, if it is compiled.
struct ChildTook {
    on_true: Option<Term>,
    on_false: Option<Term>,
    on_error: Option<Term>,
}

impl Node {
    /// The literal `b` in the place of the node.
    fn literal_expr(&self, b: bool) -> (r: Expr<EvaluationMetadata>)
        ensures
            r.full() == self@.lit(b),
    {
        let r = Expr {
            kind: ExprKind::Lit(Prim::Bool(b)),
            loc: self.expr.loc,
            data: EvaluationMetadata::literal(b).with_ty(self.expr.data.dup()),
        };
        assert(r.full().kids =~= seq![]);
        r
    }

    /// A structure node in the place of the node.
    fn structure_expr(
        &self,
        metadata: EvaluationMetadata,
        kind: ExprKind<EvaluationMetadata>,
    ) -> (r: Expr<EvaluationMetadata>)
        ensures
            r.kind == kind,
            r.loc == self.expr.loc,
            r.data.can_be() == metadata.can_be(),
            r.data.type_of() == self.expr.data,
    {
        Expr { kind, loc: self.expr.loc, data: metadata.with_ty(self.expr.data.dup()) }
    }

    /// What holds where the node has each outcome.
    pub fn took(&self) -> (r: Took)
        ensures
            r.is_of(self@),
        decreases self,
    {
        match &self.kind {
            NodeKind::Atom { checks, .. } => Took {
                on_true: or_missing(
                    self.facts.question(&self.term, true),
                    checks,
                    EvaluationOutcome::True,
                ),
                on_false: or_missing(
                    self.facts.question(&self.term, false),
                    checks,
                    EvaluationOutcome::False,
                ),
                on_error: or_missing(is_none(&self.term), checks, EvaluationOutcome::Error),
            },
            NodeKind::Not(x) => {
                let t = x.took();
                Took { on_true: t.on_false, on_false: t.on_true, on_error: t.on_error }
            },
            NodeKind::And(l, rest) => {
                let t = l.took();
                let r = Self::child_took(rest);
                Took {
                    on_false: or(t.on_false, both(t.on_true.dup(), r.on_false)),
                    on_error: or(t.on_error, both(t.on_true.dup(), r.on_error)),
                    on_true: both(t.on_true, r.on_true),
                }
            },
            NodeKind::Or(l, rest) => {
                let t = l.took();
                let r = Self::child_took(rest);
                Took {
                    on_true: or(t.on_true, both(t.on_false.dup(), r.on_true)),
                    on_error: or(t.on_error, both(t.on_false.dup(), r.on_error)),
                    on_false: both(t.on_false, r.on_false),
                }
            },
            NodeKind::If(c, a, b) => {
                let t = c.took();
                let x = Self::child_took(a);
                let y = Self::child_took(b);
                Took {
                    on_true: or(
                        both(t.on_true.dup(), x.on_true),
                        both(t.on_false.dup(), y.on_true),
                    ),
                    on_false: or(
                        both(t.on_true.dup(), x.on_false),
                        both(t.on_false.dup(), y.on_false),
                    ),
                    on_error: or(
                        t.on_error,
                        or(both(t.on_true, x.on_error), both(t.on_false, y.on_error)),
                    ),
                }
            },
        }
    }

    /// The same of a child, if it is compiled.
    fn child_took(node: &Option<Box<Node>>) -> (r: ChildTook)
        ensures
            match *node {
                Some(x) => {
                    &&& r.on_true == Some(x@.took(EvaluationOutcome::True))
                    &&& r.on_false == Some(x@.took(EvaluationOutcome::False))
                    &&& r.on_error == Some(x@.took(EvaluationOutcome::Error))
                },
                None => r.on_true is None && r.on_false is None && r.on_error is None,
            },
        decreases node,
    {
        match node {
            Some(x) => {
                let t = x.took();
                ChildTook {
                    on_true: Some(t.on_true),
                    on_false: Some(t.on_false),
                    on_error: Some(t.on_error),
                }
            },
            None => ChildTook { on_true: None, on_false: None, on_error: None },
        }
    }

    /// What holds where the node has one of the outcomes.
    pub fn took_one(&self, outcomes: &Outcomes) -> (r: Term)
        ensures
            r == self@.took_one(outcomes@),
    {
        let t = self.took();
        let a = if outcomes.contains(EvaluationOutcome::True) {
            t.on_true
        } else {
            Term::Bool(false)
        };
        let b = if outcomes.contains(EvaluationOutcome::False) {
            or(a, t.on_false)
        } else {
            a
        };
        if outcomes.contains(EvaluationOutcome::Error) {
            or(b, t.on_error)
        } else {
            b
        }
    }

    /// `trail`, followed by what follows from the node having evaluated to
    /// `b`.
    fn push_trail(&self, trail: &Vec<Term>, b: bool) -> (r: Vec<Term>)
        ensures
            r@ == trail@ + self@.trail(b),
    {
        let mut r: Vec<Term> = Vec::new();
        copy_into(trail, &mut r);
        let took = self.took();
        r.push(if b { took.on_true } else { took.on_false });
        let facts = self.facts.get(Some(b));
        let ghost start = trail@.push(self@.took(EvaluationOutcome::of_bool(b)));
        let ghost terms = facts@.map_values(|c: Existence| c.present());
        let mut i: usize = 0;
        assert(r@ =~= start + terms.take(0));
        while i < facts.len()
            invariant
                i <= facts@.len(),
                terms == facts@.map_values(|c: Existence| c.present()),
                r@ == start + terms.take(i as int),
            decreases facts@.len() - i,
        {
            r.push(facts[i].exists_fact());
            i += 1;
            assert(terms.take(i as int) =~= terms.take(i - 1).push(terms[i - 1]));
            assert(r@ =~= start + terms.take(i as int));
        }
        assert(r@ =~= trail@ + self@.trail(b));
        r
    }

    /// A kept guard whose scope folded to a literal is the literal `true`;
    /// anything else stays as it is.
    fn unguard(&self, v: Expr<EvaluationMetadata>) -> (r: Expr<EvaluationMetadata>)
        ensures
            r.full() == self@.unguard(v.full()),
    {
        let atom = match &self.kind {
            NodeKind::Atom { .. } => true,
            _ => false,
        };
        if atom && literal_of(&v).is_none() && v.data.is_literal(true) {
            self.literal_expr(true)
        } else {
            v
        }
    }
}

/// Evaluates `node` under `trail`, and records what its outcomes are.
fn eval_node(
    node: &Node,
    base: &Vec<Term>,
    answers: &Vec<bool>,
    trail: &Vec<Term>,
    progress: &mut Progress,
) -> (r: Result<Expr<EvaluationMetadata>, Stop>)
    requires
        old(progress).agrees(answers@),
    ensures
        final(progress).agrees(answers@),
        match r {
            Ok(v) => node@.eval(
                Given { base: base@, answers: answers@ },
                trail@,
                old(progress)@,
            ) == Ev::Got(v.full(), final(progress)@),
            Err(stop) => stop.ends(
                node@.eval(Given { base: base@, answers: answers@ }, trail@, old(progress)@),
                final(progress)@,
            ),
        },
    decreases node, 2nat,
{
    let result = match eval_node_inner(node, base, answers, trail, progress) {
        Ok(v) => v,
        Err(stop) => return Err(stop),
    };
    let literal = match &node.expr.kind {
        ExprKind::Lit(_) => true,
        _ => false,
    };
    let kept = match &node.kind {
        NodeKind::Atom { keep, .. } => *keep,
        _ => false,
    };
    let ghost before = progress@;
    let o = NodeOutcome {
        loc: node.expr.loc,
        literal,
        outcomes: result.data.outcomes().dup(),
        kept,
    };
    progress.observed.push(o);
    assert(progress@.obs =~= before.obs.push(o@));
    assert(progress@.log =~= before.log);
    Ok(result)
}

/// Evaluates `node` under `trail`.
#[verifier::spinoff_prover]
fn eval_node_inner(
    node: &Node,
    base: &Vec<Term>,
    answers: &Vec<bool>,
    trail: &Vec<Term>,
    progress: &mut Progress,
) -> (out: Result<Expr<EvaluationMetadata>, Stop>)
    requires
        old(progress).agrees(answers@),
    ensures
        final(progress).agrees(answers@),
        match out {
            Ok(v) => node@.eval_inner(
                Given { base: base@, answers: answers@ },
                trail@,
                old(progress)@,
            ) == Ev::Got(v.full(), final(progress)@),
            Err(stop) => stop.ends(
                node@.eval_inner(Given { base: base@, answers: answers@ }, trail@, old(progress)@),
                final(progress)@,
            ),
        },
    decreases node, 1nat,
{
    match &node.kind {
        NodeKind::Atom { checks, keep } => {
            let outcomes = match progress.atom_outcomes(
                base,
                answers,
                trail,
                &node.term,
                &node.facts,
                checks,
            ) {
                Ok(o) => o,
                Err(stop) => return Err(stop),
            };
            let metadata = EvaluationMetadata::new(outcomes);
            if metadata.is_literal(true) && !*keep {
                Ok(node.literal_expr(true))
            } else if metadata.is_literal(false) {
                Ok(node.literal_expr(false))
            } else {
                Ok(zip_types(&node.expr, metadata))
            }
        },
        NodeKind::Not(x) => eval_not(node, x, base, answers, trail, progress),
        NodeKind::And(l, r) => eval_and(node, l, r, base, answers, trail, progress),
        NodeKind::Or(l, r) => eval_or(node, l, r, base, answers, trail, progress),
        NodeKind::If(c, a, b) => eval_if(node, c, a, b, base, answers, trail, progress),
    }
}

/// Evaluates `!x`.
#[verifier::spinoff_prover]
fn eval_not(
    node: &Node,
    x: &Box<Node>,
    base: &Vec<Term>,
    answers: &Vec<bool>,
    trail: &Vec<Term>,
    progress: &mut Progress,
) -> (out: Result<Expr<EvaluationMetadata>, Stop>)
    requires
        old(progress).agrees(answers@),
        node.kind matches NodeKind::Not(y) && y == x,
    ensures
        final(progress).agrees(answers@),
        match out {
            Ok(v) => node@.eval_inner(
                Given { base: base@, answers: answers@ },
                trail@,
                old(progress)@,
            ) == Ev::Got(v.full(), final(progress)@),
            Err(stop) => stop.ends(
                node@.eval_inner(Given { base: base@, answers: answers@ }, trail@, old(progress)@),
                final(progress)@,
            ),
        },
    decreases node, 0nat,
{
    let xv = match eval_node(x, base, answers, trail, progress) {
        Ok(v) => v,
        Err(stop) => return Err(stop),
    };
    if let Some(b) = literal_of(&xv) {
        return Ok(node.literal_expr(!b));
    }
    if xv.data.is_error() {
        return Ok(xv);
    }
    let metadata = xv.data.negated();
    let ghost v = xv.full();
    let r = node.structure_expr(
        metadata,
        ExprKind::UnaryApp { op: UnaryOp::Not, arg: Arc::new(xv) },
    );
    assert(r.full().kids =~= seq![v]);
    Ok(r)
}

/// Evaluates `l && r`.
#[verifier::spinoff_prover]
fn eval_and(
    node: &Node,
    l: &Box<Node>,
    r: &Option<Box<Node>>,
    base: &Vec<Term>,
    answers: &Vec<bool>,
    trail: &Vec<Term>,
    progress: &mut Progress,
) -> (out: Result<Expr<EvaluationMetadata>, Stop>)
    requires
        old(progress).agrees(answers@),
        node.kind matches NodeKind::And(x, y) && x == l && y == r,
    ensures
        final(progress).agrees(answers@),
        match out {
            Ok(v) => node@.eval_inner(
                Given { base: base@, answers: answers@ },
                trail@,
                old(progress)@,
            ) == Ev::Got(v.full(), final(progress)@),
            Err(stop) => stop.ends(
                node@.eval_inner(Given { base: base@, answers: answers@ }, trail@, old(progress)@),
                final(progress)@,
            ),
        },
    decreases node, 0nat,
{
    let lv = match eval_node(l, base, answers, trail, progress) {
        Ok(v) => v,
        Err(stop) => return Err(stop),
    };
    if lv.data.is_error() {
        return Ok(lv);
    }
    match literal_of(&lv) {
        Some(false) => return Ok(node.literal_expr(false)),
        Some(true) => {
            return match r {
                Some(r) => eval_node(r, base, answers, trail, progress),
                None => Err(
                    Stop::Fail(
                        EvaluationError::Internal(
                            "right operand of `&&` missing although the left one is true",
                        ),
                    ),
                ),
            };
        },
        None => {},
    }
    if !lv.data.can(EvaluationOutcome::True) {
        return Ok(lv);
    }
    let r = match r {
        Some(r) => r,
        None => return Err(
            Stop::Fail(
                EvaluationError::Internal(
                    "right operand of `&&` missing although the left one can be true",
                ),
            ),
        ),
    };
    let longer = l.push_trail(trail, true);
    let rv = match eval_node(r, base, answers, &longer, progress) {
        Ok(v) => v,
        Err(stop) => return Err(stop),
    };
    match literal_of(&rv) {
        Some(true) => return Ok(l.unguard(lv)),
        Some(false) => if lv.data.is_error_free() {
            return Ok(node.literal_expr(false));
        },
        None => {},
    }
    let metadata = lv.data.and(&rv.data);
    let ghost vs = seq![lv.full(), rv.full()];
    let e = node.structure_expr(
        metadata,
        ExprKind::And { left: Arc::new(lv), right: Arc::new(rv) },
    );
    assert(e.full().kids =~= vs);
    Ok(e)
}

/// Evaluates `l || r`.
#[verifier::spinoff_prover]
fn eval_or(
    node: &Node,
    l: &Box<Node>,
    r: &Option<Box<Node>>,
    base: &Vec<Term>,
    answers: &Vec<bool>,
    trail: &Vec<Term>,
    progress: &mut Progress,
) -> (out: Result<Expr<EvaluationMetadata>, Stop>)
    requires
        old(progress).agrees(answers@),
        node.kind matches NodeKind::Or(x, y) && x == l && y == r,
    ensures
        final(progress).agrees(answers@),
        match out {
            Ok(v) => node@.eval_inner(
                Given { base: base@, answers: answers@ },
                trail@,
                old(progress)@,
            ) == Ev::Got(v.full(), final(progress)@),
            Err(stop) => stop.ends(
                node@.eval_inner(Given { base: base@, answers: answers@ }, trail@, old(progress)@),
                final(progress)@,
            ),
        },
    decreases node, 0nat,
{
    let lv = match eval_node(l, base, answers, trail, progress) {
        Ok(v) => v,
        Err(stop) => return Err(stop),
    };
    if lv.data.is_error() {
        return Ok(lv);
    }
    match literal_of(&lv) {
        Some(true) => return Ok(node.literal_expr(true)),
        Some(false) => {
            return match r {
                Some(r) => eval_node(r, base, answers, trail, progress),
                None => Err(
                    Stop::Fail(
                        EvaluationError::Internal(
                            "right operand of `||` missing although the left one is false",
                        ),
                    ),
                ),
            };
        },
        None => {},
    }
    if !lv.data.can(EvaluationOutcome::False) {
        return Ok(lv);
    }
    let r = match r {
        Some(r) => r,
        None => return Err(
            Stop::Fail(
                EvaluationError::Internal(
                    "right operand of `||` missing although the left one can be false",
                ),
            ),
        ),
    };
    let longer = l.push_trail(trail, false);
    let rv = match eval_node(r, base, answers, &longer, progress) {
        Ok(v) => v,
        Err(stop) => return Err(stop),
    };
    match literal_of(&rv) {
        Some(false) => return Ok(lv),
        Some(true) => if lv.data.is_error_free() {
            return Ok(node.literal_expr(true));
        },
        None => {},
    }
    let metadata = lv.data.or(&rv.data);
    let ghost vs = seq![lv.full(), rv.full()];
    let e = node.structure_expr(
        metadata,
        ExprKind::Or { left: Arc::new(lv), right: Arc::new(rv) },
    );
    assert(e.full().kids =~= vs);
    Ok(e)
}

/// Evaluates `if c then a else b`.
#[verifier::spinoff_prover]
fn eval_if(
    node: &Node,
    c: &Box<Node>,
    a: &Option<Box<Node>>,
    b: &Option<Box<Node>>,
    base: &Vec<Term>,
    answers: &Vec<bool>,
    trail: &Vec<Term>,
    progress: &mut Progress,
) -> (out: Result<Expr<EvaluationMetadata>, Stop>)
    requires
        old(progress).agrees(answers@),
        node.kind matches NodeKind::If(x, y, z) && x == c && y == a && z == b,
    ensures
        final(progress).agrees(answers@),
        match out {
            Ok(v) => node@.eval_inner(
                Given { base: base@, answers: answers@ },
                trail@,
                old(progress)@,
            ) == Ev::Got(v.full(), final(progress)@),
            Err(stop) => stop.ends(
                node@.eval_inner(Given { base: base@, answers: answers@ }, trail@, old(progress)@),
                final(progress)@,
            ),
        },
    decreases node, 0nat,
{
    let cv = match eval_node(c, base, answers, trail, progress) {
        Ok(v) => v,
        Err(stop) => return Err(stop),
    };
    if cv.data.is_error() {
        return Ok(cv);
    }
    match literal_of(&cv) {
        Some(true) => {
            return match a {
                Some(a) => eval_node(a, base, answers, trail, progress),
                None => Err(
                    Stop::Fail(
                        EvaluationError::Internal(
                            "then-branch missing although the test is true",
                        ),
                    ),
                ),
            };
        },
        Some(false) => {
            return match b {
                Some(b) => eval_node(b, base, answers, trail, progress),
                None => Err(
                    Stop::Fail(
                        EvaluationError::Internal(
                            "else-branch missing although the test is false",
                        ),
                    ),
                ),
            };
        },
        None => {},
    }
    let (a, b) = match (a, b) {
        (Some(a), Some(b)) => (a, b),
        _ => return Err(
            Stop::Fail(
                EvaluationError::Internal(
                    "branch missing although the test is not a literal",
                ),
            ),
        ),
    };
    let av = if cv.data.can(EvaluationOutcome::True) {
        let longer = c.push_trail(trail, true);
        match eval_node(a, base, answers, &longer, progress) {
            Ok(v) => Some(v),
            Err(stop) => return Err(stop),
        }
    } else {
        None
    };
    let bv = if cv.data.can(EvaluationOutcome::False) {
        let longer = c.push_trail(trail, false);
        match eval_node(b, base, answers, &longer, progress) {
            Ok(v) => Some(v),
            Err(stop) => return Err(stop),
        }
    } else {
        None
    };
    Ok(conditional(node, a, b, cv, av, bv))
}

/// What an evaluated expression is, if there is one.
spec fn fulls(v: Option<Expr<EvaluationMetadata>>) -> Option<ETree> {
    match v {
        Some(v) => Some(v.full()),
        None => None,
    }
}

/// The outcomes of an evaluated expression, if there is one.
spec fn outcomes_in(v: Option<ETree>) -> Option<Set<EvaluationOutcome>> {
    match v {
        Some(v) => Some(v.outcomes),
        None => None,
    }
}

/// The `if` of evaluated parts; a branch that was not visited stays as it is.
fn conditional(
    node: &Node,
    a: &Node,
    b: &Node,
    cv: Expr<EvaluationMetadata>,
    av: Option<Expr<EvaluationMetadata>>,
    bv: Option<Expr<EvaluationMetadata>>,
) -> (r: Expr<EvaluationMetadata>)
    ensures
        r.full() == node@.conditional(a@, b@, cv.full(), fulls(av), fulls(bv)),
{
    let ghost af = fulls(av);
    let ghost bf = fulls(bv);
    let ghost a_out = outcomes_in(af);
    let ghost b_out = outcomes_in(bf);
    let always = cv.data.is_literal(true);
    let metadata = {
        let am = match &av {
            Some(v) => Some(&v.data),
            None => None,
        };
        let bm = match &bv {
            Some(v) => Some(&v.data),
            None => None,
        };
        proof {
            assert(a_out == match am {
                Some(m) => Some(m.can_be()),
                None => None,
            });
            assert(b_out == match bm {
                Some(m) => Some(m.can_be()),
                None => None,
            });
        }
        cv.data.ite(am, bm)
    };
    assert(metadata.can_be() == EvaluationMetadata::ite_of(cv.full().outcomes, a_out, b_out));
    let av = match av {
        Some(v) => {
            if always && literal_of(&v).is_some() {
                return v;
            }
            v
        },
        None => zip_types(&a.expr, EvaluationMetadata::default()),
    };
    let bv = match bv {
        Some(v) => v,
        None => zip_types(&b.expr, EvaluationMetadata::default()),
    };
    let ghost vs = seq![cv.full(), av.full(), bv.full()];
    let e = node.structure_expr(
        metadata,
        ExprKind::If { test_expr: Arc::new(cv), then_expr: Arc::new(av), else_expr: Arc::new(bv) },
    );
    proof {
        let all = Outcomes::flags(true, true, true);
        assert(e.full().kids =~= vs);
        assert(vs =~= seq![
            cv.full(),
            match af {
                Some(v) => v,
                None => a@.expr.annotated(all),
            },
            match bf {
                Some(v) => v,
                None => b@.expr.annotated(all),
            },
        ]);
        assert(e.full() == node@.structure(
            Op::If,
            EvaluationMetadata::ite_of(cv.full().outcomes, a_out, b_out),
            vs,
        ));
        assert(e.full() == node@.conditional(a@, b@, cv.full(), af, bf));
    }
    e
}

/// What [`step`] comes to.
#[derive(Debug)]
pub enum Step {
    /// Whether these asserts are unsatisfiable has to be answered next.
    Ask(Vec<Term>),
    /// The evaluated expression.
    Done(Expr<EvaluationMetadata>),
    /// The evaluation fails.
    Fail(EvaluationError),
}

/// Evaluates `root` with the asserts `base`, as far as `answers` go: the
/// solver's answers to the queries asked, in order. Also returns the queries
/// that were answered and the outcomes of the nodes that were visited.
pub fn step(root: &Node, base: &Vec<Term>, answers: &Vec<bool>) -> (r: (Step, Progress))
    ensures
        r.1.agrees(answers@),
        match r.0 {
            Step::Ask(q) => root@.evaluation(Given { base: base@, answers: answers@ }) == Ev::<
                ETree,
            >::Ask(St { log: r.1@.log.push(q@), obs: r.1@.obs }),
            Step::Done(e) => root@.evaluation(Given { base: base@, answers: answers@ })
                == Ev::Got(e.full(), r.1@),
            Step::Fail(e) => root@.evaluation(Given { base: base@, answers: answers@ }) == Ev::<
                ETree,
            >::Fail(e, r.1@),
        },
{
    let mut progress = Progress::new();
    let mut start: Vec<Term> = Vec::new();
    copy_into(base, &mut start);
    assert(start@ =~= base@);
    match progress.query(answers, start, Ghost(base@)) {
        Ok(unsat) => {
            if unsat {
                return (Step::Fail(EvaluationError::UnsatisfiableAssumptions), progress);
            }
        },
        Err(Stop::Ask(q)) => return (Step::Ask(q), progress),
        Err(Stop::Fail(e)) => return (Step::Fail(e), progress),
    }
    let trail: Vec<Term> = Vec::new();
    assert(trail@ =~= seq![]);
    match eval_node(root, base, answers, &trail, &mut progress) {
        Ok(e) => (Step::Done(e), progress),
        Err(Stop::Ask(q)) => (Step::Ask(q), progress),
        Err(Stop::Fail(e)) => (Step::Fail(e), progress),
    }
}

} // verus!
