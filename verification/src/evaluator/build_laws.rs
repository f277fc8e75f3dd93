//! When an expression has nodes, and when not.

use vstd::prelude::*;

use crate::ast::{Expr, ExprKind, UnaryOp};
use crate::types::Type;

use super::compile::Sym;
use super::node::{BuildError, NKind, NTree};
use super::term::Term;

verus! {

impl Term {
    /// The term is the boolean `b`.
    pub open spec fn is_just(self, b: bool) -> bool {
        self matches Term::SomeOf(t) && *t == Term::Bool(b)
    }
}

impl NTree {
    /// Every operand has its nodes but for those that are never evaluated: the
    /// right side of a `false &&` or a `true ||`, and the branches that a test
    /// that is a literal does not take.
    pub open spec fn lacks_dead_operands_only(self) -> bool
        decreases self,
    {
        match self.kind {
            NKind::Atom { .. } => true,
            NKind::Not(x) => x.lacks_dead_operands_only(),
            NKind::And(l, r) => {
                &&& l.lacks_dead_operands_only()
                &&& match r {
                    Some(r) => r.lacks_dead_operands_only(),
                    None => l.term.is_just(false),
                }
            },
            NKind::Or(l, r) => {
                &&& l.lacks_dead_operands_only()
                &&& match r {
                    Some(r) => r.lacks_dead_operands_only(),
                    None => l.term.is_just(true),
                }
            },
            NKind::If(c, a, b) => {
                &&& c.lacks_dead_operands_only()
                &&& match a {
                    Some(a) => a.lacks_dead_operands_only(),
                    None => c.term.is_just(false),
                }
                &&& match b {
                    Some(b) => b.lacks_dead_operands_only(),
                    None => c.term.is_just(true),
                }
            },
        }
    }

    /// Every operand has its nodes.
    pub open spec fn lacks_nothing(self) -> bool
        decreases self,
    {
        match self.kind {
            NKind::Atom { .. } => true,
            NKind::Not(x) => x.lacks_nothing(),
            NKind::And(l, r) | NKind::Or(l, r) => l.lacks_nothing() && (r matches Some(r)
                && r.lacks_nothing()),
            NKind::If(c, a, b) => c.lacks_nothing() && (a matches Some(a) && a.lacks_nothing()) && (
            b matches Some(b) && b.lacks_nothing()),
        }
    }
}

impl Expr<Option<Type>> {
    /// The expression, or an operand that is reached through `&&`, `||`, `!` and
    /// boolean `if`s, is one that `f` holds of.
    pub open spec fn some_part(&self, f: spec_fn(Expr<Option<Type>>) -> bool) -> bool
        decreases self,
    {
        f(*self) || match self.kind {
            ExprKind::And { left, right } => left.some_part(f) || right.some_part(f),
            ExprKind::Or { left, right } => left.some_part(f) || right.some_part(f),
            ExprKind::UnaryApp { op, arg } => op == UnaryOp::Not && arg.some_part(f),
            ExprKind::If { test_expr, then_expr, else_expr } => (self.data matches Some(
                Type::Bool(_),
            )) && (test_expr.some_part(f) || then_expr.some_part(f) || else_expr.some_part(f)),
            _ => false,
        }
    }

    /// Nodes are built only if every operand that can be evaluated has its own.
    pub proof fn law_only_dead_operands_are_left_out(&self, s: Sym)
        ensures
            self.nodes(s) matches Ok(n) ==> n.lacks_dead_operands_only(),
        decreases self,
    {
        match self.kind {
            ExprKind::And { left, right } => {
                left.law_only_dead_operands_are_left_out(s);
                right.law_only_dead_operands_are_left_out(s);
            },
            ExprKind::Or { left, right } => {
                left.law_only_dead_operands_are_left_out(s);
                right.law_only_dead_operands_are_left_out(s);
            },
            ExprKind::UnaryApp { op, arg } => {
                arg.law_only_dead_operands_are_left_out(s);
            },
            ExprKind::If { test_expr, then_expr, else_expr } => {
                test_expr.law_only_dead_operands_are_left_out(s);
                then_expr.law_only_dead_operands_are_left_out(s);
                else_expr.law_only_dead_operands_are_left_out(s);
            },
            _ => {},
        }
    }

    /// Where every part is typed and compiles, the nodes are built, and lack
    /// nothing.
    pub proof fn law_what_compiles_has_nodes(&self, s: Sym)
        requires
            !self.some_part(does_not_build(s)),
        ensures
            self.nodes(s) matches Ok(n) && n.lacks_nothing(),
        decreases self,
    {
        let f = does_not_build(s);
        assert(!f(*self));
        match self.kind {
            ExprKind::And { left, right } => {
                left.law_what_compiles_has_nodes(s);
                right.law_what_compiles_has_nodes(s);
            },
            ExprKind::Or { left, right } => {
                left.law_what_compiles_has_nodes(s);
                right.law_what_compiles_has_nodes(s);
            },
            ExprKind::UnaryApp { op, arg } => {
                if op == UnaryOp::Not {
                    arg.law_what_compiles_has_nodes(s);
                }
            },
            ExprKind::If { test_expr, then_expr, else_expr } => {
                if self.data matches Some(Type::Bool(_)) {
                    test_expr.law_what_compiles_has_nodes(s);
                    then_expr.law_what_compiles_has_nodes(s);
                    else_expr.law_what_compiles_has_nodes(s);
                }
            },
            _ => {},
        }
    }

    /// Where no nodes are built, the error is that of a part: it has no type, or
    /// the compiler refuses it.
    pub proof fn law_build_error_is_that_of_a_part(&self, s: Sym)
        ensures
            self.nodes(s) matches Err(e) ==> self.some_part(fails_with(s, e)),
        decreases self,
    {
        if let Err(e) = self.nodes(s) {
            let f = fails_with(s, e);
            match self.kind {
                ExprKind::And { left, right } => {
                    left.law_build_error_is_that_of_a_part(s);
                    right.law_build_error_is_that_of_a_part(s);
                },
                ExprKind::Or { left, right } => {
                    left.law_build_error_is_that_of_a_part(s);
                    right.law_build_error_is_that_of_a_part(s);
                },
                ExprKind::UnaryApp { op, arg } => {
                    arg.law_build_error_is_that_of_a_part(s);
                },
                ExprKind::If { test_expr, then_expr, else_expr } => {
                    test_expr.law_build_error_is_that_of_a_part(s);
                    then_expr.law_build_error_is_that_of_a_part(s);
                    else_expr.law_build_error_is_that_of_a_part(s);
                },
                _ => {},
            }
            assert(f(*self) == self.fails_with(s, e));
        }
    }

    /// The expression has no type, or the compiler refuses it with this message.
    pub open spec fn fails_with(&self, s: Sym, e: BuildError) -> bool {
        match e {
            BuildError::NotTyped => self.data is None,
            BuildError::Compile(m) => (s.compile)(self.tree()) matches Err(x) && x == m,
        }
    }

    /// An operand that is never evaluated keeps no nodes from being built.
    pub proof fn law_dead_operand_does_no_harm(&self, s: Sym)
        requires
            self.data is Some,
            (s.compile)(self.tree()) is Ok,
        ensures
            self.kind matches ExprKind::And { left, .. } && (left.nodes(s) matches Ok(l)
                && l.term.is_just(false)) ==> self.nodes(s) is Ok,
            self.kind matches ExprKind::Or { left, .. } && (left.nodes(s) matches Ok(l)
                && l.term.is_just(true)) ==> self.nodes(s) is Ok,
            self.kind matches ExprKind::If { test_expr, then_expr, .. } && (test_expr.nodes(
                s,
            ) matches Ok(c) && c.term.is_just(true)) && then_expr.nodes(s) is Ok ==> self.nodes(
                s,
            ) is Ok,
            self.kind matches ExprKind::If { test_expr, else_expr, .. } && (test_expr.nodes(
                s,
            ) matches Ok(c) && c.term.is_just(false)) && else_expr.nodes(s) is Ok ==> self.nodes(
                s,
            ) is Ok,
    {
    }
}

/// The expression has no type, or does not compile.
pub open spec fn does_not_build(s: Sym) -> spec_fn(Expr<Option<Type>>) -> bool {
    |e: Expr<Option<Type>>| e.data is None || (s.compile)(e.tree()) is Err
}

/// The expression has no type, or the compiler refuses it with this message.
pub open spec fn fails_with(s: Sym, e: BuildError) -> spec_fn(Expr<Option<Type>>) -> bool {
    |x: Expr<Option<Type>>| x.fails_with(s, e)
}

} // verus!
