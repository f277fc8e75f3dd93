//! Which questions an evaluation asks, and which it need not.

use vstd::prelude::*;

use crate::outcome::EvaluationOutcome;

use super::compile::Existence;
use super::node::{FView, NTree};
use super::run::{Ev, Given, St};
use super::term::{Model, Term};

verus! {

impl NTree {
    /// What follows from a node having taken a value is that it has, and that
    /// every receiver exists that must where it has.
    pub proof fn law_trail_says_what_is_known(self, b: bool, m: Model)
        ensures
            Term::all_hold(self.trail(b), m) <==> self.took(
                if b {
                    EvaluationOutcome::True
                } else {
                    EvaluationOutcome::False
                },
            ).holds(m) && forall|i: int|
                0 <= i < self.given_facts(b).len() ==> (#[trigger] self.given_facts(
                    b,
                )[i]).present().holds(m),
    {
        let all = self.trail(b);
        let facts = self.given_facts(b);
        assert(all.len() == 1 + facts.len());
        assert(all[0] == self.took(EvaluationOutcome::of_bool(b)));
        assert forall|i: int| 0 <= i < facts.len() implies all[i + 1] == (
        #[trigger] facts[i]).present() by {}
        if Term::all_hold(all, m) {
            assert(all[0].holds(m));
            assert forall|i: int| 0 <= i < facts.len() implies (
            #[trigger] facts[i]).present().holds(m) by {
                assert(all[i + 1].holds(m));
            }
        }
        if all[0].holds(m) && forall|i: int|
            0 <= i < facts.len() ==> (#[trigger] facts[i]).present().holds(m) {
            assert forall|i: int| 0 <= i < all.len() implies (#[trigger] all[i]).holds(m) by {
                if i > 0 {
                    assert(all[i] == facts[i - 1].present());
                }
            }
        }
    }

    /// The accesses whose receivers exist where the node is `b`.
    pub open spec fn given_facts(self, b: bool) -> Seq<Existence> {
        if b {
            self.facts.on_true
        } else {
            self.facts.on_false
        }
    }
}

impl Given {
    /// A missing receiver is not asked about where it could add nothing: if all
    /// that the accesses could add is there, nothing is asked.
    pub proof fn law_needless_check_is_not_asked(
        self,
        checks: Seq<Existence>,
        n: nat,
        outcomes: Set<EvaluationOutcome>,
        trail: Seq<Term>,
        st: St,
    )
        requires
            n <= checks.len(),
            forall|i: int|
                0 <= i < checks.len() ==> (#[trigger] checks[i]).adds.set().subset_of(outcomes),
        ensures
            self.with_checks(checks, n, outcomes, trail, st) == Ev::Got(outcomes, st),
        decreases n,
    {
        if n > 0 {
            self.law_needless_check_is_not_asked(checks, (n - 1) as nat, outcomes, trail, st);
            assert(checks[n - 1].adds.set().subset_of(outcomes));
        }
    }

    /// Missing receivers take away no outcome, and add none but what an access
    /// adds; at most one question is asked for each.
    pub proof fn law_checks_only_add(
        self,
        checks: Seq<Existence>,
        n: nat,
        outcomes: Set<EvaluationOutcome>,
        trail: Seq<Term>,
        st: St,
    )
        requires
            n <= checks.len(),
        ensures
            self.with_checks(checks, n, outcomes, trail, st) matches Ev::Got(o, st1) ==> {
                &&& outcomes.subset_of(o)
                &&& forall|x: EvaluationOutcome| #[trigger]
                    o.contains(x) ==> outcomes.contains(x) || exists|i: int|
                        0 <= i < n && (#[trigger] checks[i]).adds.set().contains(x)
                &&& st.log.len() <= st1.log.len() <= st.log.len() + n
                &&& st1.obs == st.obs
            },
        decreases n,
    {
        if n > 0 {
            self.law_checks_only_add(checks, (n - 1) as nat, outcomes, trail, st);
            if let Ev::Got(o, st1) = self.with_checks(checks, n, outcomes, trail, st) {
                let before = self.with_checks(checks, (n - 1) as nat, outcomes, trail, st);
                assert forall|x: EvaluationOutcome| #[trigger]
                    o.contains(x) implies outcomes.contains(x) || exists|i: int|
                    0 <= i < n && (#[trigger] checks[i]).adds.set().contains(x) by {
                    if !before->Got_0.contains(x) {
                        assert(checks[n - 1].adds.set().contains(x));
                    }
                }
            }
        }
    }

    /// Of a literal nothing is asked; of anything else, whether it can be true
    /// and whether it can be false; and whether it can be an error only if it
    /// can be nothing.
    pub proof fn law_questions_about_a_term(
        self,
        term: Term,
        facts: FView,
        trail: Seq<Term>,
        st: St,
    )
        ensures
            self.term_outcomes(term, facts, trail, st) matches Ev::Got(o, st1) ==> {
                &&& o.subset_of(
                    set![
                        EvaluationOutcome::True,
                        EvaluationOutcome::False,
                        EvaluationOutcome::Error,
                    ],
                )
                &&& st1.log.len() == st.log.len() + if term.literal() is Some {
                    0int
                } else if Term::is_none_of(term) == Term::Bool(false) {
                    2int
                } else {
                    3int
                }
                &&& term.literal() is None && Term::is_none_of(term) == Term::Bool(false)
                    ==> !o.contains(EvaluationOutcome::Error)
                &&& term.literal() matches Some(x) ==> o == set![x]
                &&& st1.obs == st.obs
            },
    {
    }
}

impl Existence {
    /// A receiver is missing where it is something, and there is no entity of its
    /// type that it is.
    pub proof fn law_missing_receiver_is_something_that_is_not_there(self, m: Model)
        ensures
            self.missing().holds(m) <==> Term::IsSome(std::sync::Arc::new(self.receiver)).holds(m)
                && !Term::Exists(
                self.ety,
                std::sync::Arc::new(Term::OptionGet(std::sync::Arc::new(self.receiver))),
            ).holds(m),
            self.present().holds(m) ==> !self.missing().holds(m),
    {
        reveal_with_fuel(Term::holds, 3);
    }
}

} // verus!
