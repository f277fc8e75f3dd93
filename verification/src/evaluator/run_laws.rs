//! What the result of an evaluation looks like and what it records.

use vstd::prelude::*;

use crate::ast::UnaryOp;
use crate::evaluator::compile::Existence;
use crate::evaluator::metadata::ETree;
use crate::evaluator::node::{FView, NKind, NTree};
use crate::evaluator::run::{Ev, Given, St};
use crate::evaluator::term::Term;
use crate::outcome::EvaluationOutcome;
use crate::tree::Op;

verus! {

impl ETree {
    /// The root has nothing left to fold: no operand of `!`, no left operand of
    /// `&&` and `||` and no test of `if` is a literal or always errs; no right
    /// operand is the literal that changes nothing, nor, unless the left one
    /// can err, the one that decides; and where `&&` or `||` goes on, the left
    /// operand can have the value that it goes on for.
    pub open spec fn is_reduced(self) -> bool {
        &&& self.op == Op::Unary(UnaryOp::Not) ==> {
            &&& self.kids[0].literal() is None
            &&& self.kids[0].outcomes != set![EvaluationOutcome::Error]
        }
        &&& self.op == Op::And ==> {
            &&& self.kids[0].literal() is None
            &&& self.kids[0].outcomes != set![EvaluationOutcome::Error]
            &&& self.kids[0].outcomes.contains(EvaluationOutcome::True)
            &&& self.kids[1].literal() != Some(true)
            &&& self.kids[1].literal() == Some(false) ==> self.kids[0].outcomes.contains(
                EvaluationOutcome::Error,
            )
        }
        &&& self.op == Op::Or ==> {
            &&& self.kids[0].literal() is None
            &&& self.kids[0].outcomes != set![EvaluationOutcome::Error]
            &&& self.kids[0].outcomes.contains(EvaluationOutcome::False)
            &&& self.kids[1].literal() != Some(false)
            &&& self.kids[1].literal() == Some(true) ==> self.kids[0].outcomes.contains(
                EvaluationOutcome::Error,
            )
        }
    }
}

impl NTree {
    /// The nodes are those of the expressions they are for: an atom is none of
    /// `&&`, `||` and `!`.
    pub open spec fn atoms_are_no_structure(self) -> bool
        decreases self,
    {
        match self.kind {
            NKind::Atom { .. } => {
                let op = self.expr.op();
                op != Op::And && op != Op::Or && op != Op::Unary(UnaryOp::Not)
            },
            NKind::Not(x) => x.atoms_are_no_structure(),
            NKind::And(l, r) => l.atoms_are_no_structure() && (r matches Some(r)
                ==> r.atoms_are_no_structure()),
            NKind::Or(l, r) => l.atoms_are_no_structure() && (r matches Some(r)
                ==> r.atoms_are_no_structure()),
            NKind::If(c, a, b) => c.atoms_are_no_structure() && (a matches Some(a)
                ==> a.atoms_are_no_structure()) && (b matches Some(b)
                ==> b.atoms_are_no_structure()),
        }
    }

    /// What an evaluation gives has nothing left to fold.
    pub proof fn law_result_is_reduced(self, q: Given, trail: Seq<Term>, st: St)
        requires
            self.atoms_are_no_structure(),
            self.eval(q, trail, st) is Got,
        ensures
            self.eval(q, trail, st)->Got_0.is_reduced(),
        decreases self,
    {
        match self.kind {
            NKind::Atom { .. } => {},
            NKind::Not(x) => {
                x.law_result_is_reduced(q, trail, st);
            },
            NKind::And(l, r) => {
                l.law_result_is_reduced(q, trail, st);
                let lv = l.eval(q, trail, st)->Got_0;
                let st1 = l.eval(q, trail, st)->Got_1;
                if let Some(r) = r {
                    if lv.literal() == Some(true) && lv.outcomes != set![
                        EvaluationOutcome::Error,
                    ] {
                        r.law_result_is_reduced(q, trail, st1);
                    }
                }
            },
            NKind::Or(l, r) => {
                l.law_result_is_reduced(q, trail, st);
                let lv = l.eval(q, trail, st)->Got_0;
                let st1 = l.eval(q, trail, st)->Got_1;
                if let Some(r) = r {
                    if lv.literal() == Some(false) && lv.outcomes != set![
                        EvaluationOutcome::Error,
                    ] {
                        r.law_result_is_reduced(q, trail, st1);
                    }
                }
            },
            NKind::If(c, a, b) => {
                c.law_result_is_reduced(q, trail, st);
                let cv = c.eval(q, trail, st)->Got_0;
                let st1 = c.eval(q, trail, st)->Got_1;
                if cv.outcomes != set![EvaluationOutcome::Error] {
                    if cv.literal() == Some(true) {
                        if let Some(a) = a {
                            a.law_result_is_reduced(q, trail, st1);
                        }
                    } else if cv.literal() == Some(false) {
                        if let Some(b) = b {
                            b.law_result_is_reduced(q, trail, st1);
                        }
                    } else if let (Some(a), Some(b)) = (a, b) {
                        if cv.outcomes.contains(EvaluationOutcome::True) && a.eval(
                            q,
                            trail + c.trail(true),
                            st1,
                        ) is Got {
                            a.law_result_is_reduced(q, trail + c.trail(true), st1);
                        }
                    }
                }
            },
        }
    }

    /// An atom whose only outcome is a boolean becomes the literal, in its
    /// place and with its type, unless it is a guard that is kept and the
    /// literal would be `true`; any other stays as it is, with its outcomes.
    pub proof fn law_determined_atom_is_folded(self, q: Given, trail: Seq<Term>, st: St)
        requires
            self.kind is Atom,
            self.eval(q, trail, st) is Got,
        ensures
            ({
                let v = self.eval(q, trail, st)->Got_0;
                let keep = self.kind matches NKind::Atom { keep, .. } && keep;
                &&& v.outcomes == set![EvaluationOutcome::False] ==> v.literal() == Some(false)
                &&& v.outcomes == set![EvaluationOutcome::True] && !keep ==> v.literal() == Some(
                    true,
                )
                &&& v.outcomes != set![EvaluationOutcome::False] && (v.outcomes != set![
                    EvaluationOutcome::True,
                ] || keep) ==> v.tree() == self.expr.tree()
                &&& v.loc == self.expr.loc
            }),
    {
        let checks = self.kind->checks;
        let o = q.atom_outcomes(self.term, self.facts, checks, trail, st)->Got_0;
        assert(set![EvaluationOutcome::True] != set![EvaluationOutcome::False]) by {
            assert(set![EvaluationOutcome::True].contains(EvaluationOutcome::True));
            assert(!set![EvaluationOutcome::False].contains(EvaluationOutcome::True));
        }
        self.expr.lemma_annotated_tree(o);
        self.lemma_annotated_root(o);
    }

    proof fn lemma_annotated_root(self, o: Set<EvaluationOutcome>)
        ensures
            self.expr.annotated(o).outcomes == o,
            self.expr.annotated(o).loc == self.expr.loc,
            self.expr.annotated(o).op == self.expr.op(),
    {
    }

    /// Every evaluated node is recorded, after what its evaluation records:
    /// with its location, whether it is a literal, its outcomes, and whether it
    /// is a guard that is kept.
    pub proof fn law_every_visit_is_recorded(self, q: Given, trail: Seq<Term>, st: St)
        requires
            self.eval(q, trail, st) is Got,
        ensures
            ({
                let v = self.eval(q, trail, st)->Got_0;
                let obs = self.eval(q, trail, st)->Got_1.obs;
                &&& obs.len() > st.obs.len()
                &&& obs.take(st.obs.len() as int) == st.obs
                &&& obs.last().loc == self.expr.loc
                &&& obs.last().literal == (self.expr.kind is Lit)
                &&& obs.last().outcomes == v.outcomes
                &&& obs.last().kept == (self.kind matches NKind::Atom { keep, .. } && keep)
            }),
    {
        let inner = self.eval_inner(q, trail, st)->Got_1;
        self.lemma_obs_kept(q, trail, st);
        let all = self.eval(q, trail, st)->Got_1.obs;
        assert(all.take(st.obs.len() as int) =~= inner.obs.take(st.obs.len() as int));
    }

    /// What was recorded stays.
    proof fn lemma_obs_kept(self, q: Given, trail: Seq<Term>, st: St)
        requires
            self.eval_inner(q, trail, st) is Got,
        ensures
            ({
                let obs = self.eval_inner(q, trail, st)->Got_1.obs;
                obs.len() >= st.obs.len() && obs.take(st.obs.len() as int) == st.obs
            }),
        decreases self, 0nat,
    {
        let n = st.obs.len() as int;
        assert(st.obs.take(n) =~= st.obs);
        match self.kind {
            NKind::Atom { checks, .. } => {
                q.lemma_atom_obs(self.term, self.facts, checks, trail, st);
            },
            NKind::Not(x) => {
                x.lemma_obs_kept_by(q, trail, st);
            },
            NKind::And(l, r) => {
                l.lemma_obs_kept_by(q, trail, st);
                let lv = l.eval(q, trail, st)->Got_0;
                let st1 = l.eval(q, trail, st)->Got_1;
                if let Some(r) = r {
                    if r.eval(q, trail, st1) is Got {
                        r.lemma_obs_kept_by(q, trail, st1);
                        lemma_prefix(st, st1, r.eval(q, trail, st1)->Got_1);
                    }
                    if r.eval(q, trail + l.trail(true), st1) is Got {
                        r.lemma_obs_kept_by(q, trail + l.trail(true), st1);
                        lemma_prefix(st, st1, r.eval(q, trail + l.trail(true), st1)->Got_1);
                    }
                }
            },
            NKind::Or(l, r) => {
                l.lemma_obs_kept_by(q, trail, st);
                let st1 = l.eval(q, trail, st)->Got_1;
                if let Some(r) = r {
                    if r.eval(q, trail, st1) is Got {
                        r.lemma_obs_kept_by(q, trail, st1);
                        lemma_prefix(st, st1, r.eval(q, trail, st1)->Got_1);
                    }
                    if r.eval(q, trail + l.trail(false), st1) is Got {
                        r.lemma_obs_kept_by(q, trail + l.trail(false), st1);
                        lemma_prefix(st, st1, r.eval(q, trail + l.trail(false), st1)->Got_1);
                    }
                }
            },
            NKind::If(c, a, b) => {
                c.lemma_obs_kept_by(q, trail, st);
                let cv = c.eval(q, trail, st)->Got_0;
                let st1 = c.eval(q, trail, st)->Got_1;
                if let Some(a) = a {
                    if a.eval(q, trail, st1) is Got {
                        a.lemma_obs_kept_by(q, trail, st1);
                        lemma_prefix(st, st1, a.eval(q, trail, st1)->Got_1);
                    }
                }
                if let Some(b) = b {
                    if b.eval(q, trail, st1) is Got {
                        b.lemma_obs_kept_by(q, trail, st1);
                        lemma_prefix(st, st1, b.eval(q, trail, st1)->Got_1);
                    }
                }
                if let (Some(a), Some(b)) = (a, b) {
                    let yes = trail + c.trail(true);
                    let no = trail + c.trail(false);
                    let st2 = if cv.outcomes.contains(EvaluationOutcome::True) {
                        a.eval(q, yes, st1)->Got_1
                    } else {
                        st1
                    };
                    if cv.outcomes.contains(EvaluationOutcome::True) && a.eval(
                        q,
                        yes,
                        st1,
                    ) is Got {
                        a.lemma_obs_kept_by(q, yes, st1);
                        lemma_prefix(st, st1, st2);
                        if b.eval(q, no, st2) is Got {
                            b.lemma_obs_kept_by(q, no, st2);
                            lemma_prefix(st, st2, b.eval(q, no, st2)->Got_1);
                        }
                    }
                    if b.eval(q, no, st1) is Got {
                        b.lemma_obs_kept_by(q, no, st1);
                        lemma_prefix(st, st1, b.eval(q, no, st1)->Got_1);
                    }
                }
            },
        }
    }

    proof fn lemma_obs_kept_by(self, q: Given, trail: Seq<Term>, st: St)
        ensures
            self.eval(q, trail, st) is Got ==> ({
                let obs = self.eval(q, trail, st)->Got_1.obs;
                obs.len() >= st.obs.len() && obs.take(st.obs.len() as int) == st.obs
            }),
        decreases self, 1nat,
    {
        if self.eval(q, trail, st) is Got {
            self.lemma_obs_kept(q, trail, st);
            let inner = self.eval_inner(q, trail, st)->Got_1.obs;
            let all = self.eval(q, trail, st)->Got_1.obs;
            assert(all.take(st.obs.len() as int) =~= inner.take(st.obs.len() as int));
        }
    }
}

impl Given {
    /// Asking records no node.
    proof fn lemma_atom_obs(
        self,
        term: Term,
        facts: FView,
        checks: Seq<Existence>,
        trail: Seq<Term>,
        st: St,
    )
        ensures
            self.atom_outcomes(term, facts, checks, trail, st) matches Ev::Got(_, s) ==> s.obs
                == st.obs,
    {
        if let Ev::Got(o, st1) = self.term_outcomes(term, facts, trail, st) {
            assert(st1.obs == st.obs);
            self.lemma_checks_obs(checks, checks.len(), o, trail, st1);
        }
    }

    proof fn lemma_checks_obs(
        self,
        checks: Seq<Existence>,
        n: nat,
        o: Set<EvaluationOutcome>,
        trail: Seq<Term>,
        st: St,
    )
        ensures
            self.with_checks(checks, n, o, trail, st) matches Ev::Got(_, s) ==> s.obs == st.obs,
        decreases n,
    {
        if n > 0 {
            self.lemma_checks_obs(checks, (n - 1) as nat, o, trail, st);
        }
    }
}

/// What was recorded before what was recorded before.
proof fn lemma_prefix(a: St, b: St, c: St)
    requires
        a.obs.len() <= b.obs.len() <= c.obs.len(),
        b.obs.take(a.obs.len() as int) == a.obs,
        c.obs.take(b.obs.len() as int) == b.obs,
    ensures
        c.obs.take(a.obs.len() as int) == a.obs,
{
    assert(c.obs.take(a.obs.len() as int) =~= c.obs.take(b.obs.len() as int).take(
        a.obs.len() as int,
    ));
}

impl NTree {
    /// A guard that is kept before `&&` though it is always true goes where
    /// there is nothing left to guard: either what it guards stays behind it, or
    /// all of it is a literal.
    pub proof fn law_kept_guard_goes_with_its_scope(self, q: Given, trail: Seq<Term>, st: St)
        requires
            self.eval(q, trail, st) is Got,
            self.kind is And,
            self.kind->And_0.kind is Atom,
            self.kind->And_0.eval(q, trail, st)->Got_0.literal() is None,
            self.kind->And_0.eval(q, trail, st)->Got_0.outcomes == set![EvaluationOutcome::True],
        ensures
            ({
                let v = self.eval(q, trail, st)->Got_0;
                ||| v.literal() is Some
                ||| v.op == Op::And && v.kids.len() == 2 && v.kids[0] == self.kind->And_0.eval(
                    q,
                    trail,
                    st,
                )->Got_0 && v.kids[1].literal() is None
            }),
    {
        let lv = self.kind->And_0.eval(q, trail, st)->Got_0;
        assert(lv.outcomes.contains(EvaluationOutcome::True));
        assert(!lv.outcomes.contains(EvaluationOutcome::Error));
        assert(!set![EvaluationOutcome::Error].contains(EvaluationOutcome::True));
    }

    /// A test that is kept though it is always true stands before no literal:
    /// the `if` is then the literal.
    pub proof fn law_kept_test_stands_before_no_literal(self, q: Given, trail: Seq<Term>, st: St)
        requires
            self.eval(q, trail, st) is Got,
            self.kind is If,
            self.kind->If_0.eval(q, trail, st)->Got_0.literal() is None,
            self.kind->If_0.eval(q, trail, st)->Got_0.outcomes == set![EvaluationOutcome::True],
        ensures
            ({
                let v = self.eval(q, trail, st)->Got_0;
                ||| v.literal() is Some
                ||| v.op == Op::If && v.kids.len() == 3 && v.kids[0] == self.kind->If_0.eval(
                    q,
                    trail,
                    st,
                )->Got_0 && v.kids[1].literal() is None
            }),
    {
        let cv = self.kind->If_0.eval(q, trail, st)->Got_0;
        assert(cv.outcomes.contains(EvaluationOutcome::True));
        assert(!cv.outcomes.contains(EvaluationOutcome::False));
        assert(!set![EvaluationOutcome::Error].contains(EvaluationOutcome::True));
    }
}

} // verus!
