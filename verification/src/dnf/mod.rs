//! Disjunctive normal form of a boolean expression, respecting three-valued,
//! short-circuiting evaluation.
//!
//! The `&&` / `||` / `!` / `if` structure of an expression is converted;
//! every other node is an *atom*: opaque, pure, and possibly erroring.
//!
//! # Why the textbook rules do not apply
//!
//! `&&` and `||` evaluate left to right and stop early, and every boolean
//! sub-expression may error. So `(a || b) && c` is **not**
//! `(a && c) || (b && c)`: for `a = true, c = false` the original never
//! evaluates `b`, which may error, while the rewrite does. The correct form is
//! `(a && c) || (!a && b && c)`.
//!
//! # Construction
//!
//! The converter linearises the evaluation *decision tree*: each atom is a node
//! whose `true` and `false` edges lead to what is evaluated next (an error
//! ends the evaluation), and leaves are `true` / `false`. Every root-to-leaf
//! path is one *cube*: the literals along it, in evaluation order, negated on a
//! `false` edge. Paths to a `true` leaf are the cubes that can be true; paths
//! to a `false` leaf are *never-true* cubes, rendered with a trailing
//! `&& false`, that exist only to reproduce the errors of the atoms on them.
//!
//! A literal whose atom already occurs earlier in its cube is dropped (same
//! polarity) or turns the cube into a never-true one (opposite polarity), and
//! a never-true cube is kept only if it contains a node, that is an atom
//! under a given prefix of literals, that may error and that no other kept
//! cube contains.
//!
//! # Splitting atoms
//!
//! An atom may hide boolean structure inside: an `if` at any position
//! (`(if c then x else y).field == "s"`), or a boolean `&&`/`||`/`!` under an
//! `==`, a set or a record literal. [`split_atoms`] hoists those out first, so
//! that afterwards no atom contains any `&&`/`||`/`!`/`if` node outside an
//! `iferror(..)` call (which is opaque: it catches its argument's error, so
//! nothing may be hoisted out of it), preserving evaluation exactly. The
//! hoisted `if` is guarded by `g == g` for the left siblings `g` of the
//! hoisted node, so their errors still surface first. Splitting composes with
//! the conversion: the [`Dnf`] of a split expression has cubes whose literals
//! are opaque, indivisible terms, the guards among them.

pub mod combine;
pub mod elim;
pub mod elim_laws;
pub mod interpret;
pub mod laws;
pub mod like;
pub mod literal_laws;
pub mod parts_laws;
pub mod path_laws;
pub mod paths;
pub mod policy;
pub mod split;
pub mod split_laws;
pub mod typed_laws;

use std::sync::Arc;

use vstd::prelude::*;

use crate::ast::{share, Data, Expr, ExprKind, Prim, UnaryOp};
use crate::evaluator::err::EvaluationError;
use crate::expr_util::{fits, MAX_NESTING};
use crate::tree::{Atomic, Op, Tree};
use crate::types::RequestEnv;

pub use combine::{allow_cubes, combine_allow_deny, deny_witness};
pub use elim::{eliminate_aggregates, normalize_atoms};
pub use interpret::interpret;
pub use like::{likes_have_wildcards, rewrite_like};
pub use policy::{split_policy, split_policy_set};
pub use split::{conjuncts, split_atoms, DEFAULT_MAX_SPLIT_NODES};

verus! {

/// Default cube budget of [`Dnf::of_expr`]: the number of paths (cubes before
/// pruning) after which conversion fails with [`DnfError::TooLarge`].
pub const DEFAULT_MAX_CUBES: usize = 4096;

/// Errors of the conversions of this module.
#[derive(Debug)]
pub enum DnfError {
    /// The conversion would exceed its budget.
    TooLarge {
        /// The budget that was exceeded.
        limit: usize,
        /// What the budget counts: "cubes" or "atom nodes".
        what: &'static str,
    },
    /// The expression nests too deeply.
    RecursionLimit,
    /// The expression contains a node the converter does not handle.
    Unsupported(&'static str),
    /// The expression, or a policy, is not well typed with respect to the
    /// schema.
    NotWellTyped {
        /// Errors from the typechecker or the validator.
        errs: Vec<String>,
    },
    /// The request environment is not declared in the schema.
    RequestEnvNotFound(RequestEnv),
    /// Typechecking failed for another reason.
    Typecheck(EvaluationError),
}

/// An atom or its negation.
#[derive(Debug)]
pub struct Literal<T> {
    atom: Arc<Expr<T>>,
    /// `atom` with its data erased: the identity of the atom.
    key: Expr<()>,
    negated: bool,
}

/// A conjunction of literals, evaluated left to right.
#[derive(Debug)]
pub struct Cube<T> {
    literals: Vec<Literal<T>>,
    /// The cube ends in `&& false`: it is never true and exists only to
    /// reproduce the errors of its atoms.
    never_true: bool,
}

/// A disjunction of cubes, evaluated left to right.
#[derive(Debug)]
pub struct Dnf<T> {
    cubes: Vec<Cube<T>>,
}

/// What a [`Literal`] is: an atom and a polarity.
pub struct Lit<T> {
    pub atom: Expr<T>,
    pub negated: bool,
}

/// What a [`Cube`] is: its literals in evaluation order, and whether it ends
/// in `&& false`.
#[verifier::ext_equal]
pub struct Conj<T> {
    pub lits: Seq<Lit<T>>,
    pub never_true: bool,
}

impl<T> Lit<T> {
    /// The identity of the atom.
    pub open spec fn key(self) -> Tree {
        self.atom.tree()
    }

    /// The literal as an expression.
    pub open spec fn tree(self) -> Tree {
        if self.negated {
            Tree::not(self.key())
        } else {
            self.key()
        }
    }
}

impl<T> Conj<T> {
    /// The `&&` chain of the first `n` literals, nested left.
    pub open spec fn chain(self, n: nat) -> Tree
        decreases n,
    {
        if n == 0 {
            Tree::bool(!self.never_true)
        } else if n == 1 {
            self.lits[0].tree()
        } else {
            Tree::and(self.chain((n - 1) as nat), self.lits[n - 1].tree())
        }
    }

    /// The cube as an expression: a left-associative `&&` chain of its
    /// literals, followed by `&& false` if it is never true; `true` if empty.
    pub open spec fn tree(self) -> Tree {
        if self.never_true && self.lits.len() > 0 {
            Tree::and(self.chain(self.lits.len()), Tree::bool(false))
        } else {
            self.chain(self.lits.len())
        }
    }
}

impl Tree {
    /// The literal `b`.
    pub open spec fn bool(b: bool) -> Tree {
        Tree { op: Op::Lit(Atomic::Bool(b)), kids: seq![] }
    }

    /// `a && b`
    pub open spec fn and(a: Tree, b: Tree) -> Tree {
        Tree { op: Op::And, kids: seq![a, b] }
    }

    /// `a || b`
    pub open spec fn or(a: Tree, b: Tree) -> Tree {
        Tree { op: Op::Or, kids: seq![a, b] }
    }

    /// `!a`
    pub open spec fn not(a: Tree) -> Tree {
        Tree { op: Op::Unary(UnaryOp::Not), kids: seq![a] }
    }

    /// `if c then a else b`
    pub open spec fn ite(c: Tree, a: Tree, b: Tree) -> Tree {
        Tree { op: Op::If, kids: seq![c, a, b] }
    }
}

/// A node without data or source location.
pub(crate) fn node(kind: ExprKind<()>) -> (r: Expr<()>)
    ensures
        r.kind == kind,
        r.loc is None,
{
    Expr { kind, loc: None, data: () }
}

pub(crate) fn bool_lit(b: bool) -> (r: Expr<()>)
    ensures
        r.tree() == Tree::bool(b),
        r.kind == ExprKind::<()>::Lit(Prim::Bool(b)),
{
    let r = node(ExprKind::Lit(Prim::Bool(b)));
    assert(r.tree().kids =~= Tree::bool(b).kids);
    r
}

pub(crate) fn and(left: Expr<()>, right: Expr<()>) -> (r: Expr<()>)
    ensures
        r.tree() == Tree::and(left.tree(), right.tree()),
{
    let r = node(ExprKind::And { left: Arc::new(left), right: Arc::new(right) });
    assert(r.tree().kids =~= Tree::and(left.tree(), right.tree()).kids);
    r
}

pub(crate) fn or(left: Expr<()>, right: Expr<()>) -> (r: Expr<()>)
    ensures
        r.tree() == Tree::or(left.tree(), right.tree()),
{
    let r = node(ExprKind::Or { left: Arc::new(left), right: Arc::new(right) });
    assert(r.tree().kids =~= Tree::or(left.tree(), right.tree()).kids);
    r
}

pub(crate) fn not(arg: Expr<()>) -> (r: Expr<()>)
    ensures
        r.tree() == Tree::not(arg.tree()),
{
    let r = node(ExprKind::UnaryApp { op: UnaryOp::Not, arg: Arc::new(arg) });
    assert(r.tree().kids =~= Tree::not(arg.tree()).kids);
    r
}

pub(crate) fn ite(c: Expr<()>, a: Expr<()>, b: Expr<()>) -> (r: Expr<()>)
    ensures
        r.tree() == Tree::ite(c.tree(), a.tree(), b.tree()),
{
    let r = node(
        ExprKind::If { test_expr: Arc::new(c), then_expr: Arc::new(a), else_expr: Arc::new(b) },
    );
    assert(r.tree().kids =~= Tree::ite(c.tree(), a.tree(), b.tree()).kids);
    r
}

impl<T> Literal<T> {
    /// What the literal is.
    pub closed spec fn view(self) -> Lit<T> {
        Lit { atom: *self.atom, negated: self.negated }
    }

    /// The identity of the atom is its structure.
    pub closed spec fn wf(self) -> bool {
        self.key.tree() == self.atom.tree()
    }

    /// The atom (an expression that is not `&&`, `||`, `!`, `if` or a boolean
    /// literal), with the data it carried in the input.
    pub fn atom(&self) -> (r: &Arc<Expr<T>>)
        ensures
            **r == self@.atom,
    {
        &self.atom
    }

    /// Whether the literal is the negation of its atom.
    pub fn negated(&self) -> (r: bool)
        ensures
            r == self@.negated,
    {
        self.negated
    }

    /// The literal as an expression: the atom, or `!atom`.
    pub fn to_expr(&self) -> (r: Expr<()>)
        requires
            self.wf(),
        ensures
            r.tree() == self@.tree(),
    {
        if self.negated {
            not(self.key.dup())
        } else {
            self.key.dup()
        }
    }

    fn dup(&self) -> (r: Self)
        ensures
            r == *self,
    {
        Literal { atom: share(&self.atom), key: self.key.dup(), negated: self.negated }
    }
}

impl<T> PartialEq for Literal<T> {
    /// Literals are equal when their atoms are structurally equal (ignoring
    /// data and source locations) with the same polarity.
    fn eq(&self, other: &Self) -> (r: bool) {
        self.negated == other.negated && self.key == other.key
    }
}

impl<T> vstd::std_specs::cmp::PartialEqSpecImpl for Literal<T> {
    open spec fn obeys_eq_spec() -> bool {
        true
    }

    closed spec fn eq_spec(&self, other: &Self) -> bool {
        self.negated == other.negated && self.key.tree() == other.key.tree()
    }
}

impl<T> Cube<T> {
    /// What the cube is.
    pub closed spec fn view(self) -> Conj<T> {
        Conj {
            lits: self.literals@.map_values(|l: Literal<T>| l@),
            never_true: self.never_true,
        }
    }

    /// Every literal is well formed.
    pub closed spec fn wf(self) -> bool {
        forall|i: int| 0 <= i < self.literals@.len() ==> (#[trigger] self.literals@[i]).wf()
    }

    /// The literals, in evaluation order.
    pub fn literals(&self) -> (r: &Vec<Literal<T>>)
        requires
            self.wf(),
        ensures
            r@.map_values(|l: Literal<T>| l@) == self@.lits,
            forall|i: int| 0 <= i < r@.len() ==> (#[trigger] r@[i]).wf(),
    {
        &self.literals
    }

    /// Whether the cube can never be true (it ends in `&& false`).
    pub fn is_never_true(&self) -> (r: bool)
        ensures
            r == self@.never_true,
    {
        self.never_true
    }

    /// The cube as an expression: a left-associative `&&` chain of its
    /// literals, followed by `&& false` if it is never true; `true` if empty.
    pub fn to_expr(&self) -> (r: Expr<()>)
        requires
            self.wf(),
        ensures
            r.tree() == self@.tree(),
    {
        if self.literals.len() == 0 {
            return bool_lit(!self.never_true);
        }
        let mut acc = self.literals[0].to_expr();
        let mut i: usize = 1;
        assert(self@.chain(1) == self@.lits[0].tree());
        while i < self.literals.len()
            invariant
                1 <= i <= self.literals@.len(),
                self.wf(),
                acc.tree() == self@.chain(i as nat),
            decreases self.literals@.len() - i,
        {
            let term = self.literals[i].to_expr();
            assert(term.tree() == self@.lits[i as int].tree());
            acc = and(acc, term);
            i += 1;
        }
        if self.never_true {
            acc = and(acc, bool_lit(false));
        }
        acc
    }
}

impl<T: Data> Dnf<T> {
    /// Converts a boolean `expr`, asking `can_error` whether an atom may
    /// evaluate to an error. Answering `true` is always sound; answering
    /// `false` for an atom that can error on some input makes the result
    /// differ from `expr` (it is `false` where `expr` errors) on that input.
    /// `max_cubes` bounds the number of paths (cubes before pruning).
    pub fn of<F: Fn(&Expr<T>) -> bool>(expr: &Expr<T>, can_error: &F, max_cubes: usize) -> (r:
        Result<Self, DnfError>)
        requires
            forall|e: Expr<T>| call_requires(can_error, (&e,)),
        ensures
            match r {
                Ok(d) => {
                    &&& expr.tree().fits(MAX_NESTING as nat)
                    &&& expr.routes().len() <= max_cubes
                    &&& d.wf()
                    &&& forall|ce: spec_fn(Expr<T>) -> bool|
                        #[trigger] crate::expr_util::computes(can_error, ce) ==> d@
                            == Self::of_spec(expr, ce)
                },
                Err(DnfError::RecursionLimit) => !expr.tree().fits(MAX_NESTING as nat),
                Err(e) => {
                    &&& expr.tree().fits(MAX_NESTING as nat)
                    &&& expr.routes().len() > max_cubes
                    &&& e == (DnfError::TooLarge { limit: max_cubes, what: "cubes" })
                },
            },
    {
        if !fits(expr, MAX_NESTING) {
            return Err(DnfError::RecursionLimit);
        }
        let paths = paths::paths(expr, max_cubes)?;
        Ok(Dnf { cubes: paths::prune(&paths, can_error) })
    }

    /// [`Self::of`] with every atom assumed able to error and the
    /// [`DEFAULT_MAX_CUBES`] budget. Equivalent to `expr` on every input.
    pub fn of_expr(expr: &Expr<T>) -> (r: Result<Self, DnfError>)
        ensures
            match r {
                Ok(d) => {
                    &&& expr.tree().fits(MAX_NESTING as nat)
                    &&& expr.routes().len() <= DEFAULT_MAX_CUBES
                    &&& d.wf()
                    &&& d@ == Self::of_spec(expr, |a: Expr<T>| true)
                },
                Err(DnfError::RecursionLimit) => !expr.tree().fits(MAX_NESTING as nat),
                Err(e) => {
                    &&& expr.tree().fits(MAX_NESTING as nat)
                    &&& expr.routes().len() > DEFAULT_MAX_CUBES
                    &&& e == (DnfError::TooLarge { limit: DEFAULT_MAX_CUBES, what: "cubes" })
                },
            },
    {
        let always = |a: &Expr<T>| -> (b: bool)
            ensures
                b,
            { true };
        let ghost ce = |a: Expr<T>| true;
        assert(crate::expr_util::computes(&always, ce));
        Self::of(expr, &always, DEFAULT_MAX_CUBES)
    }
}

impl<T> Dnf<T> {
    /// The cubes of `expr`, where `can_error` says which atoms may error.
    pub open spec fn of_spec(expr: &Expr<T>, can_error: spec_fn(Expr<T>) -> bool) -> Seq<Conj<T>> {
        paths::Route::prune(expr.routes(), seq![], can_error).map_values(
            |r: paths::Route<T>| r.cube(),
        )
    }

    /// What the disjunction is: its cubes in order.
    pub closed spec fn view(self) -> Seq<Conj<T>> {
        self.cubes@.map_values(|c: Cube<T>| c@)
    }

    /// Every cube is well formed.
    pub closed spec fn wf(self) -> bool {
        forall|i: int| 0 <= i < self.cubes@.len() ==> (#[trigger] self.cubes@[i]).wf()
    }

    /// The `||` chain of the first `n` of `cubes`, nested left.
    pub open spec fn chain(cubes: Seq<Conj<T>>, n: nat) -> Tree
        decreases n,
    {
        if n == 0 {
            Tree::bool(false)
        } else if n == 1 {
            cubes[0].tree()
        } else {
            Tree::or(Self::chain(cubes, (n - 1) as nat), cubes[n - 1].tree())
        }
    }

    /// The cubes, in order.
    pub fn cubes(&self) -> (r: &Vec<Cube<T>>)
        requires
            self.wf(),
        ensures
            r@.map_values(|c: Cube<T>| c@) == self@,
            forall|i: int| 0 <= i < r@.len() ==> (#[trigger] r@[i]).wf(),
    {
        &self.cubes
    }

    /// The cubes that can be true.
    pub fn true_cubes(&self) -> (r: Vec<&Cube<T>>)
        requires
            self.wf(),
        ensures
            r@.map_values(|c: &Cube<T>| c@) == self@.filter(|c: Conj<T>| !c.never_true),
            forall|i: int| 0 <= i < r@.len() ==> (#[trigger] r@[i]).wf(),
    {
        let mut out: Vec<&Cube<T>> = Vec::new();
        let ghost keep = |c: Conj<T>| !c.never_true;
        let mut i: usize = 0;
        assert(self@.take(0).filter(keep) =~= Seq::<Conj<T>>::empty()) by {
            reveal(Seq::filter);
        }
        while i < self.cubes.len()
            invariant
                i <= self.cubes@.len(),
                self.wf(),
                keep == (|c: Conj<T>| !c.never_true),
                out@.map_values(|c: &Cube<T>| c@) =~= self@.take(i as int).filter(keep),
                forall|j: int| 0 <= j < out@.len() ==> (#[trigger] out@[j]).wf(),
            decreases self.cubes@.len() - i,
        {
            assert(self@.take(i + 1).drop_last() =~= self@.take(i as int));
            assert(self@.take(i + 1).last() == self.cubes@[i as int]@);
            proof {
                reveal(Seq::filter);
            }
            if !self.cubes[i].never_true {
                out.push(&self.cubes[i]);
            }
            i += 1;
        }
        assert(self@.take(i as int) =~= self@);
        out
    }

    /// The DNF as an expression: a left-associative `||` chain of its cubes;
    /// `false` if there are none.
    pub fn to_expr(&self) -> (r: Expr<()>)
        requires
            self.wf(),
        ensures
            r.tree() == Self::chain(self@, self@.len()),
    {
        if self.cubes.len() == 0 {
            return bool_lit(false);
        }
        let mut acc = self.cubes[0].to_expr();
        let mut i: usize = 1;
        assert(Self::chain(self@, 1) == self@[0].tree());
        while i < self.cubes.len()
            invariant
                1 <= i <= self.cubes@.len(),
                self.wf(),
                acc.tree() == Self::chain(self@, i as nat),
            decreases self.cubes@.len() - i,
        {
            let cube = self.cubes[i].to_expr();
            assert(cube.tree() == self@[i as int].tree());
            acc = or(acc, cube);
            i += 1;
        }
        acc
    }
}

} // verus!
