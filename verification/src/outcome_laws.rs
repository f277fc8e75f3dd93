//! The outcomes of `!`, `&&`, `||` and `if`, held against evaluation.

use vstd::prelude::*;

use crate::ast::UnaryOp;
use crate::model::World;
use crate::outcome::{EvaluationOutcome, Outcomes};
use crate::tree::{Op, Tree};

verus! {

/// The outcomes of `!` are those of evaluating `!` on each outcome of its
/// operand.
pub proof fn law_not_is_evaluated(t: Tree, w: World)
    requires
        t.op == Op::Unary(UnaryOp::Not),
        t.kids.len() == 1,
    ensures
        Outcomes::not_of(set![t.kids[0].outcome(w)]) == set![t.outcome(w)],
{
    let a = Outcomes::not_of(set![t.kids[0].outcome(w)]);
    assert forall|o: EvaluationOutcome| a.contains(o) <==> o == t.outcome(w) by {}
    assert(a =~= set![t.outcome(w)]);
}

/// The outcomes of `&&` are those of evaluating it on each outcome of its
/// operands.
pub proof fn law_and_is_evaluated(t: Tree, w: World)
    requires
        t.op == Op::And,
        t.kids.len() == 2,
    ensures
        Outcomes::and_of(set![t.kids[0].outcome(w)], set![t.kids[1].outcome(w)]) == set![
            t.outcome(w),
        ],
{
    let a = Outcomes::and_of(set![t.kids[0].outcome(w)], set![t.kids[1].outcome(w)]);
    assert forall|o: EvaluationOutcome| a.contains(o) <==> o == t.outcome(w) by {}
    assert(a =~= set![t.outcome(w)]);
}

/// The outcomes of `||` are those of evaluating it on each outcome of its
/// operands.
pub proof fn law_or_is_evaluated(t: Tree, w: World)
    requires
        t.op == Op::Or,
        t.kids.len() == 2,
    ensures
        Outcomes::or_of(set![t.kids[0].outcome(w)], set![t.kids[1].outcome(w)]) == set![
            t.outcome(w),
        ],
{
    let a = Outcomes::or_of(set![t.kids[0].outcome(w)], set![t.kids[1].outcome(w)]);
    assert forall|o: EvaluationOutcome| a.contains(o) <==> o == t.outcome(w) by {}
    assert(a =~= set![t.outcome(w)]);
}

/// The outcomes of `if` are those of evaluating it on each outcome of its test
/// and its branches.
pub proof fn law_if_is_evaluated(t: Tree, w: World)
    requires
        t.op == Op::If,
        t.kids.len() == 3,
    ensures
        Outcomes::ite_of(
            set![t.kids[0].outcome(w)],
            set![t.kids[1].outcome(w)],
            set![t.kids[2].outcome(w)],
        ) == set![t.outcome(w)],
{
    let a = Outcomes::ite_of(
        set![t.kids[0].outcome(w)],
        set![t.kids[1].outcome(w)],
        set![t.kids[2].outcome(w)],
    );
    assert forall|o: EvaluationOutcome| a.contains(o) <==> o == t.outcome(w) by {}
    assert(a =~= set![t.outcome(w)]);
}

/// The outcomes on operands that can have several are those on each choice of
/// one: joining the outcomes of an operand joins the results.
pub proof fn law_outcomes_are_joined(
    a: Set<EvaluationOutcome>,
    b: Set<EvaluationOutcome>,
    x: Set<EvaluationOutcome>,
    y: Set<EvaluationOutcome>,
)
    ensures
        Outcomes::not_of(a + b) == Outcomes::not_of(a) + Outcomes::not_of(b),
        Outcomes::and_of(a + b, x) == Outcomes::and_of(a, x) + Outcomes::and_of(b, x),
        Outcomes::and_of(x, a + b) == Outcomes::and_of(x, a) + Outcomes::and_of(x, b),
        Outcomes::or_of(a + b, x) == Outcomes::or_of(a, x) + Outcomes::or_of(b, x),
        Outcomes::or_of(x, a + b) == Outcomes::or_of(x, a) + Outcomes::or_of(x, b),
        Outcomes::ite_of(a + b, x, y) == Outcomes::ite_of(a, x, y) + Outcomes::ite_of(b, x, y),
        Outcomes::ite_of(x, a + b, y) == Outcomes::ite_of(x, a, y) + Outcomes::ite_of(x, b, y),
        Outcomes::ite_of(x, y, a + b) == Outcomes::ite_of(x, y, a) + Outcomes::ite_of(x, y, b),
{
    assert(Outcomes::not_of(a + b) =~= Outcomes::not_of(a) + Outcomes::not_of(b));
    assert(Outcomes::and_of(a + b, x) =~= Outcomes::and_of(a, x) + Outcomes::and_of(b, x));
    assert(Outcomes::and_of(x, a + b) =~= Outcomes::and_of(x, a) + Outcomes::and_of(x, b));
    assert(Outcomes::or_of(a + b, x) =~= Outcomes::or_of(a, x) + Outcomes::or_of(b, x));
    assert(Outcomes::or_of(x, a + b) =~= Outcomes::or_of(x, a) + Outcomes::or_of(x, b));
    assert(Outcomes::ite_of(a + b, x, y) =~= Outcomes::ite_of(a, x, y) + Outcomes::ite_of(
        b,
        x,
        y,
    ));
    assert(Outcomes::ite_of(x, a + b, y) =~= Outcomes::ite_of(x, a, y) + Outcomes::ite_of(
        x,
        b,
        y,
    ));
    assert(Outcomes::ite_of(x, y, a + b) =~= Outcomes::ite_of(x, y, a) + Outcomes::ite_of(
        x,
        y,
        b,
    ));
}

/// An operand without outcomes is never evaluated: only the outcomes of the
/// others that decide are left.
pub proof fn law_no_outcomes(l: Set<EvaluationOutcome>)
    ensures
        Outcomes::not_of(Set::empty()) == Set::<EvaluationOutcome>::empty(),
        Outcomes::and_of(Set::empty(), l) == Set::<EvaluationOutcome>::empty(),
        Outcomes::or_of(Set::empty(), l) == Set::<EvaluationOutcome>::empty(),
        Outcomes::ite_of(Set::empty(), l, l) == Set::<EvaluationOutcome>::empty(),
        Outcomes::and_of(l, Set::empty()) == l.remove(EvaluationOutcome::True),
        Outcomes::or_of(l, Set::empty()) == l.remove(EvaluationOutcome::False),
        Outcomes::ite_of(l, Set::empty(), Set::empty()) == l.remove(EvaluationOutcome::True).remove(
            EvaluationOutcome::False,
        ),
{
    let none = Set::<EvaluationOutcome>::empty();
    assert(Outcomes::not_of(none) =~= none);
    assert(Outcomes::and_of(none, l) =~= none);
    assert(Outcomes::or_of(none, l) =~= none);
    assert(Outcomes::ite_of(none, l, l) =~= none);
    assert(Outcomes::and_of(l, none) =~= l.remove(EvaluationOutcome::True));
    assert(Outcomes::or_of(l, none) =~= l.remove(EvaluationOutcome::False));
    assert(Outcomes::ite_of(l, none, none) =~= l.remove(EvaluationOutcome::True).remove(
        EvaluationOutcome::False,
    ));
}

} // verus!
