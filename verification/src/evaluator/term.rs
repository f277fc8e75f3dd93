//! The terms that the evaluator hands to the solver.
//!
//! What the symbolic compiler makes of an expression is opaque here: a number
//! by which it is found again, and what the evaluator reads of it. The
//! constraints over such terms are built by the functions of this module.

use std::sync::Arc;

use vstd::prelude::*;

use crate::ast::{share, Data, EntityUid};
use crate::outcome::{EvaluationOutcome, Outcomes};

verus! {

/// A term. Boolean expressions compile to terms of optional booleans, where
/// nothing stands for an error; constraints are terms of booleans.
#[derive(Debug)]
pub enum Term {
    /// A boolean.
    Bool(bool),
    /// What the compiler made of an expression. `total` says that it is never
    /// nothing.
    Compiled { id: u64, total: bool },
    /// Something.
    SomeOf(Arc<Term>),
    /// Nothing.
    NoneOf,
    Eq(Arc<Term>, Arc<Term>),
    And(Arc<Term>, Arc<Term>),
    Or(Arc<Term>, Arc<Term>),
    Not(Arc<Term>),
    IsSome(Arc<Term>),
    IsNone(Arc<Term>),
    /// What a term that is something holds.
    OptionGet(Arc<Term>),
    /// The entity of this type exists.
    Exists(String, Arc<Term>),
    /// An entity.
    Entity(EntityUid),
    /// A string.
    Text(String),
    /// A function of the symbolic store, by its number, applied to a term.
    App(u64, Arc<Term>),
    /// The empty set of entities of this type.
    NoEntities(String),
    /// The empty set of strings.
    NoTexts,
    /// A set with one more element.
    Insert(Arc<Term>, Arc<Term>),
    /// The tag with this name of an entity.
    TagOf(Arc<Term>, Arc<Term>),
}

impl Data for Term {
    fn dup(&self) -> (r: Self) {
        match self {
            Term::Bool(b) => Term::Bool(*b),
            Term::Compiled { id, total } => Term::Compiled { id: *id, total: *total },
            Term::SomeOf(t) => Term::SomeOf(share(t)),
            Term::NoneOf => Term::NoneOf,
            Term::Eq(a, b) => Term::Eq(share(a), share(b)),
            Term::And(a, b) => Term::And(share(a), share(b)),
            Term::Or(a, b) => Term::Or(share(a), share(b)),
            Term::Not(t) => Term::Not(share(t)),
            Term::IsSome(t) => Term::IsSome(share(t)),
            Term::IsNone(t) => Term::IsNone(share(t)),
            Term::OptionGet(t) => Term::OptionGet(share(t)),
            Term::Exists(ety, t) => Term::Exists(ety.clone(), share(t)),
            Term::Entity(u) => Term::Entity(u.dup()),
            Term::Text(s) => Term::Text(s.clone()),
            Term::App(f, t) => Term::App(*f, share(t)),
            Term::NoEntities(ety) => Term::NoEntities(ety.clone()),
            Term::NoTexts => Term::NoTexts,
            Term::Insert(a, b) => Term::Insert(share(a), share(b)),
            Term::TagOf(a, b) => Term::TagOf(share(a), share(b)),
        }
    }
}

/// What an input gives the terms that are not built here.
pub struct Model {
    /// The value of an optional boolean.
    pub value: spec_fn(Term) -> Option<bool>,
    /// Whether a boolean term, or one that some entity exists, is true.
    pub truth: spec_fn(Term) -> bool,
}

impl Term {
    /// `some(b)`
    pub open spec fn some_bool(b: bool) -> Term {
        Term::SomeOf(Arc::new(Term::Bool(b)))
    }

    /// The value of an optional boolean term in a model.
    pub open spec fn value(self, m: Model) -> Option<bool> {
        match self {
            Term::NoneOf => None,
            Term::SomeOf(t) => match *t {
                Term::Bool(b) => Some(b),
                _ => Some((m.value)(self) == Some(true)),
            },
            Term::Compiled { total: true, .. } => Some((m.value)(self) == Some(true)),
            _ => (m.value)(self),
        }
    }

    /// The boolean term is true in a model.
    pub open spec fn holds(self, m: Model) -> bool
        decreases self,
    {
        match self {
            Term::Bool(b) => b,
            Term::And(a, b) => a.holds(m) && b.holds(m),
            Term::Or(a, b) => a.holds(m) || b.holds(m),
            Term::Not(t) => !t.holds(m),
            Term::Eq(a, b) => if b == Term::some_bool(true) {
                a.value(m) == Some(true)
            } else if b == Term::some_bool(false) {
                a.value(m) == Some(false)
            } else {
                (m.truth)(self)
            },
            Term::IsNone(t) => t.value(m) is None,
            _ => (m.truth)(self),
        }
    }

    /// All of `ts` are true in a model.
    pub open spec fn all_hold(ts: Seq<Term>, m: Model) -> bool {
        forall|i: int| 0 <= i < ts.len() ==> (#[trigger] ts[i]).holds(m)
    }

    /// The outcome that the term denotes, if it is a literal.
    pub open spec fn literal(self) -> Option<EvaluationOutcome> {
        match self {
            Term::SomeOf(t) => match *t {
                Term::Bool(b) => Some(EvaluationOutcome::of_bool(b)),
                _ => None,
            },
            Term::NoneOf => Some(EvaluationOutcome::Error),
            _ => None,
        }
    }

    /// `t == some(b)`
    pub open spec fn is_bool(t: Term, b: bool) -> Term {
        Term::Eq(Arc::new(t), Arc::new(Term::some_bool(b)))
    }

    /// `a == b`
    pub open spec fn same_value(a: Term, b: Term) -> Term {
        Term::Eq(Arc::new(a), Arc::new(b))
    }

    /// `!(a == b)`
    pub open spec fn differ(a: Term, b: Term) -> Term {
        Term::Not(Arc::new(Term::same_value(a, b)))
    }

    /// `is_none(t)`, or the literal where it is one.
    pub open spec fn is_none_of(t: Term) -> Term {
        match t {
            Term::NoneOf => Term::Bool(true),
            Term::SomeOf(_) => Term::Bool(false),
            Term::Compiled { total: true, .. } => Term::Bool(false),
            _ => Term::IsNone(Arc::new(t)),
        }
    }

    /// `a || b`, or `b` where `a` is the literal `false`.
    pub open spec fn or_of(a: Term, b: Term) -> Term {
        if a == Term::Bool(false) {
            b
        } else {
            Term::Or(Arc::new(a), Arc::new(b))
        }
    }

    /// `a && b`, or `a` where there is no `b`.
    pub open spec fn both_of(a: Term, b: Option<Term>) -> Term {
        match b {
            Some(b) => Term::And(Arc::new(a), Arc::new(b)),
            None => a,
        }
    }

    /// `t && ..` with each of `ts`.
    pub open spec fn and_all(t: Term, ts: Seq<Term>) -> Term
        decreases ts.len(),
    {
        if ts.len() == 0 {
            t
        } else {
            Term::And(Arc::new(Term::and_all(t, ts.drop_last())), Arc::new(ts.last()))
        }
    }

    /// The term takes one of the outcomes.
    pub open spec fn takes(t: Term, outcomes: Set<EvaluationOutcome>) -> Term {
        let a = if outcomes.contains(EvaluationOutcome::True) {
            Term::or_of(Term::Bool(false), Term::is_bool(t, true))
        } else {
            Term::Bool(false)
        };
        let b = if outcomes.contains(EvaluationOutcome::False) {
            Term::or_of(a, Term::is_bool(t, false))
        } else {
            a
        };
        if outcomes.contains(EvaluationOutcome::Error) {
            Term::or_of(b, Term::is_none_of(t))
        } else {
            b
        }
    }

    /// The outcome that a value of an optional boolean stands for.
    pub open spec fn outcome_of(v: Option<bool>) -> EvaluationOutcome {
        match v {
            Some(b) => EvaluationOutcome::of_bool(b),
            None => EvaluationOutcome::Error,
        }
    }

    /// The outcome that the term denotes in a model.
    pub open spec fn outcome(self, m: Model) -> EvaluationOutcome {
        Term::outcome_of(self.value(m))
    }
}

/// If `term` is a literal, the outcome it denotes.
pub fn term_literal(term: &Term) -> (r: Option<EvaluationOutcome>)
    ensures
        r == term.literal(),
{
    match term {
        Term::SomeOf(t) => match &**t {
            Term::Bool(true) => Some(EvaluationOutcome::True),
            Term::Bool(false) => Some(EvaluationOutcome::False),
            _ => None,
        },
        Term::NoneOf => Some(EvaluationOutcome::Error),
        _ => None,
    }
}

/// `t == some(b)`
pub fn is_bool(t: &Term, b: bool) -> (r: Term)
    ensures
        r == Term::is_bool(*t, b),
{
    Term::Eq(Arc::new(t.dup()), Arc::new(Term::SomeOf(Arc::new(Term::Bool(b)))))
}

/// `is_none(t)`, or the literal where it is one.
pub fn is_none(t: &Term) -> (r: Term)
    ensures
        r == Term::is_none_of(*t),
{
    match t {
        Term::NoneOf => Term::Bool(true),
        Term::SomeOf(_) => Term::Bool(false),
        Term::Compiled { total: true, .. } => Term::Bool(false),
        _ => Term::IsNone(Arc::new(t.dup())),
    }
}

/// `a && b`, or `a` where there is no `b`.
pub fn both(a: Term, b: Option<Term>) -> (r: Term)
    ensures
        r == Term::both_of(a, b),
{
    match b {
        Some(b) => Term::And(Arc::new(a), Arc::new(b)),
        None => a,
    }
}

/// `a || b`, or `b` where `a` is the literal `false`.
pub fn or(a: Term, b: Term) -> (r: Term)
    ensures
        r == Term::or_of(a, b),
{
    match &a {
        Term::Bool(false) => b,
        _ => Term::Or(Arc::new(a), Arc::new(b)),
    }
}

/// Whether `t` is the literal `b`.
pub fn is_literal(t: &Term, b: bool) -> (r: bool)
    ensures
        r == (*t == Term::Bool(b)),
{
    match t {
        Term::Bool(x) => *x == b,
        _ => false,
    }
}

/// A term that holds iff the optional boolean `t` takes one of `outcomes`.
pub fn outcome_constraint(t: &Term, outcomes: &Outcomes) -> (r: Term)
    ensures
        r == Term::takes(*t, outcomes@),
{
    let mut constraint = Term::Bool(false);
    if outcomes.contains(EvaluationOutcome::True) {
        constraint = or(constraint, is_bool(t, true));
    }
    if outcomes.contains(EvaluationOutcome::False) {
        constraint = or(constraint, is_bool(t, false));
    }
    if outcomes.contains(EvaluationOutcome::Error) {
        constraint = or(constraint, is_none(t));
    }
    constraint
}

/// A query that needs the solver: no assert is the literal `false`, and not
/// all are the literal `true`.
pub open spec fn undecided(asserts: Seq<Term>) -> bool {
    !asserts.contains(Term::Bool(false)) && exists|i: int|
        0 <= i < asserts.len() && #[trigger] asserts[i] != Term::Bool(true)
}

/// Whether a query needs the solver.
pub fn reaches_solver(asserts: &Vec<Term>) -> (r: bool)
    ensures
        r == undecided(asserts@),
{
    let mut open = false;
    let mut i: usize = 0;
    while i < asserts.len()
        invariant
            i <= asserts@.len(),
            forall|j: int| 0 <= j < i ==> (#[trigger] asserts@[j]) != Term::Bool(false),
            open == exists|j: int| 0 <= j < i && #[trigger] asserts@[j] != Term::Bool(true),
        decreases asserts@.len() - i,
    {
        if is_literal(&asserts[i], false) {
            assert(asserts@[i as int] == Term::Bool(false));
            return false;
        }
        if !is_literal(&asserts[i], true) {
            assert(asserts@[i as int] != Term::Bool(true));
            open = true;
        }
        i += 1;
    }
    open
}

impl Term {
    /// A conjunction holds where all of its parts do.
    pub proof fn lemma_and_all(t: Term, ts: Seq<Term>, m: Model)
        ensures
            Term::and_all(t, ts).holds(m) <==> t.holds(m) && Term::all_hold(ts, m),
        decreases ts.len(),
    {
        if ts.len() > 0 {
            let front = ts.drop_last();
            Term::lemma_and_all(t, front, m);
            assert(ts.last() == ts[ts.len() - 1]);
            if Term::all_hold(ts, m) {
                assert forall|i: int| 0 <= i < front.len() implies (#[trigger] front[i]).holds(
                    m,
                ) by {
                    assert(front[i] == ts[i]);
                }
            }
            if Term::all_hold(front, m) && ts.last().holds(m) {
                assert forall|i: int| 0 <= i < ts.len() implies (#[trigger] ts[i]).holds(m) by {
                    if i < front.len() {
                        assert(front[i] == ts[i]);
                    }
                }
            }
        }
    }

    /// A disjunction holds where one of its parts does.
    pub proof fn lemma_or(a: Term, b: Term, m: Model)
        ensures
            Term::or_of(a, b).holds(m) <==> a.holds(m) || b.holds(m),
    {
    }

    /// A conjunction holds where both of its parts do.
    pub proof fn lemma_both(a: Term, b: Option<Term>, m: Model)
        ensures
            Term::both_of(a, b).holds(m) <==> a.holds(m) && (b matches Some(b) ==> b.holds(m)),
    {
    }
}

impl Term {
    /// The constraint that a term takes one of some outcomes holds exactly
    /// where the outcome it denotes is one of them.
    pub proof fn law_takes(t: Term, outcomes: Set<EvaluationOutcome>, m: Model)
        ensures
            Term::takes(t, outcomes).holds(m) == outcomes.contains(t.outcome(m)),
    {
        reveal_with_fuel(Term::holds, 4);
        let yes = Term::is_bool(t, true);
        let no = Term::is_bool(t, false);
        let none = Term::is_none_of(t);
        assert(Term::some_bool(true) != Term::some_bool(false)) by {
            assert(Term::some_bool(true)->SomeOf_0 != Term::some_bool(false)->SomeOf_0);
        }
        assert(yes.holds(m) == (t.value(m) == Some(true)));
        assert(no.holds(m) == (t.value(m) == Some(false)));
        assert(none.holds(m) == (t.value(m) is None));
        assert(t.outcome(m) is True <==> t.value(m) == Some(true));
        assert(t.outcome(m) is False <==> t.value(m) == Some(false));
        assert(t.outcome(m) is Error <==> t.value(m) is None);
    }

    /// A literal denotes its outcome in every model.
    pub proof fn lemma_literal(self, m: Model)
        requires
            self.literal() is Some,
        ensures
            self.literal() == Some(self.outcome(m)),
    {
    }

    /// What the three questions about a term say.
    pub proof fn lemma_questions(self, m: Model)
        ensures
            Term::is_bool(self, true).holds(m) == (self.outcome(m) is True),
            Term::is_bool(self, false).holds(m) == (self.outcome(m) is False),
            Term::is_none_of(self).holds(m) == (self.outcome(m) is Error),
    {
        assert(Term::some_bool(true) != Term::some_bool(false)) by {
            assert(Term::some_bool(true)->SomeOf_0 != Term::some_bool(false)->SomeOf_0);
        }
    }
}

} // verus!
