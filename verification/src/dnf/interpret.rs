//! Three-valued short-circuit semantics over opaque atoms.

use vstd::prelude::*;

use crate::ast::{Expr, ExprKind, Prim, UnaryOp};
use crate::iferror::is_iferror;
use crate::outcome::EvaluationOutcome;
use crate::tree::{Op, Tree};

verus! {

impl Tree {
    /// The outcome of the boolean structure when every atom takes the
    /// outcome `atoms` assigns to it.
    pub open spec fn interp(self, atoms: spec_fn(Tree) -> EvaluationOutcome) -> EvaluationOutcome
        decreases self,
    {
        if self.op is Lit && self.op->Lit_0 is Bool {
            EvaluationOutcome::of_bool(self.op->Lit_0->Bool_0)
        } else if self.op == Op::Unary(UnaryOp::Not) && self.kids.len() == 1 {
            self.kids[0].interp(atoms).flip()
        } else if self.op == Op::And && self.kids.len() == 2 {
            match self.kids[0].interp(atoms) {
                EvaluationOutcome::True => self.kids[1].interp(atoms),
                other => other,
            }
        } else if self.op == Op::Or && self.kids.len() == 2 {
            match self.kids[0].interp(atoms) {
                EvaluationOutcome::False => self.kids[1].interp(atoms),
                other => other,
            }
        } else if self.op == Op::If && self.kids.len() == 3 {
            match self.kids[0].interp(atoms) {
                EvaluationOutcome::True => self.kids[1].interp(atoms),
                EvaluationOutcome::False => self.kids[2].interp(atoms),
                EvaluationOutcome::Error => EvaluationOutcome::Error,
            }
        } else if self.is_iferror() && self.kids.len() == 2 {
            match self.kids[0].interp(atoms) {
                EvaluationOutcome::Error => self.kids[1].interp(atoms),
                other => other,
            }
        } else {
            atoms(self)
        }
    }
}

impl<T> Expr<T> {
    /// [`Tree::interp`] for atoms that are told apart by more than their
    /// structure.
    pub open spec fn interp(
        &self,
        atoms: spec_fn(Expr<T>) -> EvaluationOutcome,
    ) -> EvaluationOutcome
        decreases self,
    {
        match self.kind {
            ExprKind::Lit(Prim::Bool(b)) => EvaluationOutcome::of_bool(b),
            ExprKind::UnaryApp { op: UnaryOp::Not, arg } => arg.interp(atoms).flip(),
            ExprKind::And { left, right } => match left.interp(atoms) {
                EvaluationOutcome::True => right.interp(atoms),
                other => other,
            },
            ExprKind::Or { left, right } => match left.interp(atoms) {
                EvaluationOutcome::False => right.interp(atoms),
                other => other,
            },
            ExprKind::If { test_expr, then_expr, else_expr } => match test_expr.interp(atoms) {
                EvaluationOutcome::True => then_expr.interp(atoms),
                EvaluationOutcome::False => else_expr.interp(atoms),
                EvaluationOutcome::Error => EvaluationOutcome::Error,
            },
            ExprKind::ExtensionFunctionApp { fn_name, args } => if fn_name@ == "iferror"@
                && args@.len() == 2 {
                match args@[0].interp(atoms) {
                    EvaluationOutcome::Error => args@[1].interp(atoms),
                    other => other,
                }
            } else {
                atoms(*self)
            },
            _ => atoms(*self),
        }
    }

    /// Where the atoms are told apart by their structure alone, the outcome
    /// of an expression is the outcome of its tree.
    pub proof fn law_interp_tree(&self, atoms: spec_fn(Tree) -> EvaluationOutcome)
        ensures
            self.interp(|e: Expr<T>| atoms(e.tree())) == self.tree().interp(atoms),
        decreases self,
    {
        let f = |e: Expr<T>| atoms(e.tree());
        let t = self.tree();
        match self.kind {
            ExprKind::Lit(Prim::Bool(b)) => {},
            ExprKind::UnaryApp { op: UnaryOp::Not, arg } => {
                assert(t.kids[0] == arg.tree());
                arg.law_interp_tree(atoms);
            },
            ExprKind::And { left, right } | ExprKind::Or { left, right } => {
                assert(t.kids[0] == left.tree());
                assert(t.kids[1] == right.tree());
                left.law_interp_tree(atoms);
                right.law_interp_tree(atoms);
            },
            ExprKind::If { test_expr, then_expr, else_expr } => {
                assert(t.kids[0] == test_expr.tree());
                assert(t.kids[1] == then_expr.tree());
                assert(t.kids[2] == else_expr.tree());
                test_expr.law_interp_tree(atoms);
                then_expr.law_interp_tree(atoms);
                else_expr.law_interp_tree(atoms);
            },
            ExprKind::ExtensionFunctionApp { fn_name, args } => {
                if fn_name@ == "iferror"@ && args@.len() == 2 {
                    assert(t.kids[0] == args@[0].tree());
                    assert(t.kids[1] == args@[1].tree());
                    args@[0].law_interp_tree(atoms);
                    args@[1].law_interp_tree(atoms);
                }
            },
            _ => {},
        }
    }
}

impl<T> Expr<T> {
    /// The outcome of the boolean structure may be `o`, where `atoms` is asked
    /// for the outcomes of the atoms.
    pub open spec fn may_be<F: Fn(&Expr<T>) -> EvaluationOutcome>(
        &self,
        atoms: &F,
        o: EvaluationOutcome,
    ) -> bool
        decreases self,
    {
        match self.kind {
            ExprKind::Lit(Prim::Bool(b)) => o == EvaluationOutcome::of_bool(b),
            ExprKind::UnaryApp { op: UnaryOp::Not, arg } => arg.may_be(atoms, o.flip()),
            ExprKind::And { left, right } => {
                ||| o != EvaluationOutcome::True && left.may_be(atoms, o)
                ||| left.may_be(atoms, EvaluationOutcome::True) && right.may_be(atoms, o)
            },
            ExprKind::Or { left, right } => {
                ||| o != EvaluationOutcome::False && left.may_be(atoms, o)
                ||| left.may_be(atoms, EvaluationOutcome::False) && right.may_be(atoms, o)
            },
            ExprKind::If { test_expr, then_expr, else_expr } => {
                ||| o == EvaluationOutcome::Error && test_expr.may_be(atoms, o)
                ||| test_expr.may_be(atoms, EvaluationOutcome::True) && then_expr.may_be(atoms, o)
                ||| test_expr.may_be(atoms, EvaluationOutcome::False) && else_expr.may_be(atoms, o)
            },
            ExprKind::ExtensionFunctionApp { fn_name, args } => if fn_name@ == "iferror"@
                && args@.len() == 2 {
                ||| o != EvaluationOutcome::Error && args@[0].may_be(atoms, o)
                ||| args@[0].may_be(atoms, EvaluationOutcome::Error) && args@[1].may_be(atoms, o)
            } else {
                call_ensures(atoms, (self,), o)
            },
            _ => call_ensures(atoms, (self,), o),
        }
    }

    /// `atoms` can be asked for the outcome of every atom that evaluation
    /// reaches; it need not be able to answer for the others.
    pub open spec fn askable<F: Fn(&Expr<T>) -> EvaluationOutcome>(&self, atoms: &F) -> bool
        decreases self,
    {
        match self.kind {
            ExprKind::Lit(Prim::Bool(b)) => true,
            ExprKind::UnaryApp { op: UnaryOp::Not, arg } => arg.askable(atoms),
            ExprKind::And { left, right } => {
                &&& left.askable(atoms)
                &&& left.may_be(atoms, EvaluationOutcome::True) ==> right.askable(atoms)
            },
            ExprKind::Or { left, right } => {
                &&& left.askable(atoms)
                &&& left.may_be(atoms, EvaluationOutcome::False) ==> right.askable(atoms)
            },
            ExprKind::If { test_expr, then_expr, else_expr } => {
                &&& test_expr.askable(atoms)
                &&& test_expr.may_be(atoms, EvaluationOutcome::True) ==> then_expr.askable(atoms)
                &&& test_expr.may_be(atoms, EvaluationOutcome::False) ==> else_expr.askable(atoms)
            },
            ExprKind::ExtensionFunctionApp { fn_name, args } => if fn_name@ == "iferror"@
                && args@.len() == 2 {
                &&& args@[0].askable(atoms)
                &&& args@[0].may_be(atoms, EvaluationOutcome::Error) ==> args@[1].askable(atoms)
            } else {
                call_requires(atoms, (self,))
            },
            _ => call_requires(atoms, (self,)),
        }
    }

    /// Where `atoms` can be asked about every expression, it can be asked
    /// about the atoms that evaluation reaches.
    pub proof fn law_askable<F: Fn(&Expr<T>) -> EvaluationOutcome>(&self, atoms: &F)
        requires
            forall|e: Expr<T>| call_requires(atoms, (&e,)),
        ensures
            self.askable(atoms),
        decreases self,
    {
        match self.kind {
            ExprKind::UnaryApp { op: UnaryOp::Not, arg } => arg.law_askable(atoms),
            ExprKind::And { left, right } | ExprKind::Or { left, right } => {
                left.law_askable(atoms);
                right.law_askable(atoms);
            },
            ExprKind::If { test_expr, then_expr, else_expr } => {
                test_expr.law_askable(atoms);
                then_expr.law_askable(atoms);
                else_expr.law_askable(atoms);
            },
            ExprKind::ExtensionFunctionApp { fn_name, args } => {
                if fn_name@ == "iferror"@ && args@.len() == 2 {
                    args@[0].law_askable(atoms);
                    args@[1].law_askable(atoms);
                }
            },
            _ => {},
        }
    }
}

/// The outcome of the boolean structure of `expr` when each atom takes the
/// outcome `atoms` assigns to it: `&&`, `||`, `!` and `if` evaluate left to
/// right, stop early and propagate errors, `iferror` coalesces an error into
/// its fallback, and every other node that is reached is passed to `atoms`. An
/// atom behind the one that decides is not.
pub fn interpret<T, F: Fn(&Expr<T>) -> EvaluationOutcome>(expr: &Expr<T>, atoms: &F) -> (r:
    EvaluationOutcome)
    requires
        expr.askable(atoms),
    ensures
        expr.may_be(atoms, r),
        forall|f: spec_fn(Expr<T>) -> EvaluationOutcome|
            #[trigger] crate::expr_util::computes(atoms, f) ==> r == expr.interp(f),
    decreases expr,
{
    match &expr.kind {
        ExprKind::Lit(Prim::Bool(true)) => EvaluationOutcome::True,
        ExprKind::Lit(Prim::Bool(false)) => EvaluationOutcome::False,
        ExprKind::UnaryApp { op: UnaryOp::Not, arg } => match interpret(&**arg, atoms) {
            EvaluationOutcome::True => EvaluationOutcome::False,
            EvaluationOutcome::False => EvaluationOutcome::True,
            EvaluationOutcome::Error => EvaluationOutcome::Error,
        },
        ExprKind::And { left, right } => match interpret(&**left, atoms) {
            EvaluationOutcome::True => interpret(&**right, atoms),
            other => other,
        },
        ExprKind::Or { left, right } => match interpret(&**left, atoms) {
            EvaluationOutcome::False => interpret(&**right, atoms),
            other => other,
        },
        ExprKind::If { test_expr, then_expr, else_expr } => match interpret(&**test_expr, atoms) {
            EvaluationOutcome::True => interpret(&**then_expr, atoms),
            EvaluationOutcome::False => interpret(&**else_expr, atoms),
            EvaluationOutcome::Error => EvaluationOutcome::Error,
        },
        ExprKind::ExtensionFunctionApp { fn_name, args } => if is_iferror(fn_name) && args.len()
            == 2 {
            match interpret(&args[0], atoms) {
                EvaluationOutcome::Error => interpret(&args[1], atoms),
                other => other,
            }
        } else {
            atoms(expr)
        },
        _ => atoms(expr),
    }
}

} // verus!
