//! Splitting atoms: hoisting `&&`/`||`/`!`/`if` nodes out of atoms so that
//! every atom becomes an opaque, indivisible term.
//!
//! Within an atom every node is strict (all children are evaluated, left to
//! right, and the first error wins) and evaluation is pure, so the first
//! offending node `B` inside an atom `A[B]` can be hoisted to the top:
//! `A[if c then x else y]` becomes `if c then A[x] else A[y]`, and a boolean
//! `B` (`&&`/`||`/`!`) becomes `if B then A[true] else A[false]`.
//!
//! Hoisting alone would *reorder* evaluation: the condition would run before
//! the atom's *left siblings*, the subterms evaluated before `B`. The hoisted
//! `if` is therefore guarded by those siblings, in evaluation order:
//!
//! ```text
//! if (g1 == g1 && (g2 == g2 && ..)) then (if c then A[x] else A[y]) else false
//! ```
//!
//! `g == g` is `true` whenever `g` evaluates and reproduces `g`'s own error
//! otherwise, so the guarded form evaluates exactly like the original.
//!
//! The one non-strict node inside atoms is `iferror(e, d)`, which *catches*
//! `e`'s error. An `iferror` call is therefore opaque: an atom whose inside
//! is never split.

use std::sync::Arc;

use vstd::prelude::*;

use crate::ast::{share, BinaryOp, Data, Expr, ExprKind, Prim, UnaryOp};
use crate::expr_util::{erase, fits, rebuild, spend, MAX_NESTING};
use crate::iferror::is_iferror_call;
use crate::tree::{Op, Tree};

use super::{and, bool_lit, ite, node, not, or, DnfError};

verus! {

/// Default node budget of [`split_atoms`].
pub const DEFAULT_MAX_SPLIT_NODES: usize = 65_536;

impl Op {
    /// A node that cannot err once its children have evaluated: a literal, a
    /// variable, set and record construction, and `==`.
    pub open spec fn never_errs(self) -> bool {
        match self {
            Op::Lit(_) | Op::Var(_) | Op::SetLit | Op::Record(_) => true,
            Op::Binary(b) => b == BinaryOp::Eq,
            _ => false,
        }
    }

    /// Boolean structure: `&&`, `||`, `!` or `if`.
    pub open spec fn is_offender(self) -> bool {
        match self {
            Op::And | Op::Or | Op::If => true,
            Op::Unary(u) => u == UnaryOp::Not,
            _ => false,
        }
    }
}

/// Where an atom is split: the atom evaluates like `if cond then yes else no`
/// once every guard has evaluated without error.
pub struct Hoisted {
    /// The subterms that are evaluated before the condition and may err.
    pub guards: Seq<Tree>,
    pub cond: Tree,
    pub yes: Tree,
    pub no: Tree,
}

impl Tree {
    /// The tree with every equality of two literals replaced by its value.
    pub open spec fn fold(self) -> Tree
        decreases self,
    {
        let kids = Tree::fold_all(self.kids);
        if self.op == Op::Binary(BinaryOp::Eq) && kids.len() == 2 && kids[0].op is Lit
            && kids[1].op is Lit {
            Tree::bool(kids[0].op == kids[1].op)
        } else {
            Tree { op: self.op, kids }
        }
    }

    /// [`Tree::fold`] of each of `ts`.
    pub open spec fn fold_all(ts: Seq<Tree>) -> Seq<Tree>
        decreases ts,
    {
        if ts.len() == 0 {
            seq![]
        } else {
            Tree::fold_all(ts.drop_last()).push(ts.last().fold())
        }
    }

    /// The subterms that may err, in evaluation order: the tree itself, or
    /// those of its children if it never errs by itself.
    pub open spec fn guards(self) -> Seq<Tree>
        decreases self,
    {
        if self.op.never_errs() {
            Tree::guards_all(self.kids)
        } else {
            seq![self]
        }
    }

    /// The guards of all of `ts`, in order.
    pub open spec fn guards_all(ts: Seq<Tree>) -> Seq<Tree>
        decreases ts,
    {
        if ts.len() == 0 {
            seq![]
        } else {
            Tree::guards_all(ts.drop_last()) + ts.last().guards()
        }
    }

    /// The subterms that evaluate whenever the tree does, to any value,
    /// without those that never err by themselves.
    pub open spec fn evaluated(self) -> Seq<Tree>
        decreases self,
    {
        (if self.op.never_errs() {
            seq![]
        } else {
            seq![self]
        }) + (if self.is_iferror() {
            seq![]
        } else if (self.op == Op::If || self.op == Op::And || self.op == Op::Or)
            && self.kids.len() > 0 {
            self.kids[0].evaluated()
        } else {
            Tree::evaluated_all(self.kids)
        })
    }

    /// [`Tree::evaluated`] of all of `ts`, in order.
    pub open spec fn evaluated_all(ts: Seq<Tree>) -> Seq<Tree>
        decreases ts,
    {
        if ts.len() == 0 {
            seq![]
        } else {
            Tree::evaluated_all(ts.drop_last()) + ts.last().evaluated()
        }
    }

    /// The `&&`-spine (`conj`) or `||`-spine, left to right, without its unit
    /// literal.
    pub open spec fn spine(self, conj: bool) -> Seq<Tree>
        decreases self,
    {
        if self.op == (if conj {
            Op::And
        } else {
            Op::Or
        }) && self.kids.len() == 2 {
            self.kids[0].spine(conj) + self.kids[1].spine(conj)
        } else if self.op == Tree::bool(conj).op {
            seq![]
        } else {
            seq![self]
        }
    }

    /// What is known to have evaluated where the tree was `true` (`conj`) or
    /// `false`.
    pub open spec fn learn(self, conj: bool) -> Seq<Tree> {
        Tree::evaluated_all(self.spine(conj))
    }

    /// The tree with its child `i` replaced by `t`.
    pub open spec fn with_kid(self, i: int, t: Tree) -> Tree {
        Tree { op: self.op, kids: self.kids.update(i, t) }
    }

    /// Where the tree is split: at the first `&&`/`||`/`!`/`if` node strictly
    /// inside it, if there is one outside `iferror` calls.
    pub open spec fn hoist(self) -> Option<Hoisted>
        decreases self, self.kids.len() + 1,
    {
        if self.is_iferror() {
            None
        } else {
            self.hoist_from(0)
        }
    }

    /// [`Tree::hoist`], looking from child `i` on.
    pub open spec fn hoist_from(self, i: int) -> Option<Hoisted>
        decreases self, self.kids.len() - i,
    {
        if i < 0 || i >= self.kids.len() {
            None
        } else {
            let kid = self.kids[i];
            let before = Tree::guards_all(Tree::fold_all(self.kids.take(i)));
            if kid.op == Op::If && kid.kids.len() == 3 {
                Some(
                    Hoisted {
                        guards: before,
                        cond: kid.kids[0],
                        yes: self.with_kid(i, kid.kids[1]),
                        no: self.with_kid(i, kid.kids[2]),
                    },
                )
            } else if kid.op.is_offender() && kid.kids.len() > 0 {
                Some(
                    Hoisted {
                        guards: before,
                        cond: kid,
                        yes: self.with_kid(i, Tree::bool(true)),
                        no: self.with_kid(i, Tree::bool(false)),
                    },
                )
            } else {
                match kid.hoist() {
                    Some(h) => Some(
                        Hoisted {
                            guards: before + h.guards,
                            cond: h.cond,
                            yes: self.with_kid(i, h.yes),
                            no: self.with_kid(i, h.no),
                        },
                    ),
                    None => self.hoist_from(i + 1),
                }
            }
        }
    }

    /// `t == t`
    pub open spec fn self_eq(t: Tree) -> Tree {
        Tree { op: Op::Binary(BinaryOp::Eq), kids: seq![t, t] }
    }

    /// `t1 && (t2 && ..)`, nested right; `true` without terms.
    pub open spec fn and_chain(ts: Seq<Tree>) -> Tree
        decreases ts.len(),
    {
        if ts.len() == 0 {
            Tree::bool(true)
        } else if ts.len() == 1 {
            ts[0]
        } else {
            Tree::and(ts[0], Tree::and_chain(ts.drop_first()))
        }
    }

    /// `if (g1 == g1 && ..) then t else false`; `t` without guards.
    pub open spec fn guarded(guards: Seq<Tree>, t: Tree) -> Tree {
        if guards.len() == 0 {
            t
        } else {
            Tree::ite(
                Tree::and_chain(guards.map_values(|g: Tree| Tree::self_eq(g))),
                t,
                Tree::bool(false),
            )
        }
    }

    /// Those of `guards` that `ctx` does not hold, in order and without
    /// repetition.
    pub open spec fn new_guards(ctx: Seq<Tree>, guards: Seq<Tree>) -> Seq<Tree>
        decreases guards.len(),
    {
        if guards.len() == 0 {
            seq![]
        } else {
            let fresh = Tree::new_guards(ctx, guards.drop_last());
            if ctx.contains(guards.last()) || fresh.contains(guards.last()) {
                fresh
            } else {
                fresh.push(guards.last())
            }
        }
    }

    /// The tree with its atoms split, where `ctx` is known to have evaluated,
    /// and what is left of a budget of atom nodes; `None` if it does not
    /// suffice.
    pub open spec fn split(self, ctx: Seq<Tree>, budget: int) -> Option<(Tree, int)>
        decreases self.size(), 1nat,
        via Self::split_terminates
    {
        if self.op is Lit && self.op->Lit_0 is Bool {
            Some((Tree::bool(self.op->Lit_0->Bool_0), budget))
        } else if self.op == Op::And && self.kids.len() == 2 {
            match self.kids[0].split(ctx, budget) {
                Some((l, b)) => match self.kids[1].split(ctx + self.kids[0].learn(true), b) {
                    Some((r, b)) => Some((Tree::and(l, r), b)),
                    None => None,
                },
                None => None,
            }
        } else if self.op == Op::Or && self.kids.len() == 2 {
            match self.kids[0].split(ctx, budget) {
                Some((l, b)) => match self.kids[1].split(ctx + self.kids[0].learn(false), b) {
                    Some((r, b)) => Some((Tree::or(l, r), b)),
                    None => None,
                },
                None => None,
            }
        } else if self.op == Op::Unary(UnaryOp::Not) && self.kids.len() == 1 {
            match self.kids[0].split(ctx, budget) {
                Some((a, b)) => Some((Tree::not(a), b)),
                None => None,
            }
        } else if self.op == Op::If && self.kids.len() == 3 {
            match self.kids[0].split(ctx, budget) {
                Some((c, b)) => match self.kids[1].split(ctx + self.kids[0].learn(true), b) {
                    Some((t, b)) => match self.kids[2].split(ctx + self.kids[0].learn(false), b) {
                        Some((e, b)) => Some((Tree::ite(c, t, e), b)),
                        None => None,
                    },
                    None => None,
                },
                None => None,
            }
        } else {
            self.split_atom(ctx, budget)
        }
    }

    /// [`Tree::split`] for an atom.
    pub open spec fn split_atom(self, ctx: Seq<Tree>, budget: int) -> Option<(Tree, int)>
        decreases self.size(), 0nat,
        via Self::split_atom_terminates
    {
        if self.size() > budget {
            None
        } else {
            match self.hoist() {
                None => Some((self.fold(), budget - self.size())),
                Some(h) => {
                    let fresh = Tree::new_guards(ctx, h.guards);
                    let inner = ctx + fresh;
                    let copies = inner + h.cond.evaluated();
                    match h.cond.split(inner, budget - self.size()) {
                        Some((test, b)) => match h.yes.split_atom(copies, b) {
                            Some((yes, b)) => match h.no.split_atom(copies, b) {
                                Some((no, b)) => Some(
                                    (Tree::guarded(fresh, Tree::ite(test, yes, no)), b),
                                ),
                                None => None,
                            },
                            None => None,
                        },
                        None => None,
                    }
                },
            }
        }
    }

    #[via_fn]
    proof fn split_terminates(self, ctx: Seq<Tree>, budget: int) {
        assert forall|i: int| 0 <= i < self.kids.len() implies (#[trigger] self.kids[i]).size()
            < self.size() by {
            Tree::lemma_kid_size(self.kids, i);
        }
    }

    #[via_fn]
    proof fn split_atom_terminates(self, ctx: Seq<Tree>, budget: int) {
        self.lemma_hoist_size();
    }

    /// Each of `ts` is at most as large as all of them.
    pub proof fn lemma_kid_size(ts: Seq<Tree>, i: int)
        requires
            0 <= i < ts.len(),
        ensures
            ts[i].size() <= Tree::sizes(ts),
        decreases ts.len(),
    {
        if i > 0 {
            Tree::lemma_kid_size(ts.subrange(1, ts.len() as int), i - 1);
        }
    }

    /// Replacing one of `ts` changes their size by the difference.
    pub proof fn lemma_update_size(ts: Seq<Tree>, i: int, t: Tree)
        requires
            0 <= i < ts.len(),
        ensures
            Tree::sizes(ts.update(i, t)) == Tree::sizes(ts) - ts[i].size() + t.size(),
        decreases ts.len(),
    {
        let tail = ts.subrange(1, ts.len() as int);
        let new = ts.update(i, t);
        if i > 0 {
            Tree::lemma_update_size(tail, i - 1, t);
            assert(new.subrange(1, new.len() as int) =~= tail.update(i - 1, t));
        } else {
            assert(new.subrange(1, new.len() as int) =~= tail);
        }
    }

    /// What an atom is split into is smaller than the atom.
    pub proof fn lemma_hoist_size(self)
        ensures
            self.hoist() matches Some(h) ==> h.cond.size() < self.size() && h.yes.size()
                < self.size() && h.no.size() < self.size(),
        decreases self, self.kids.len() + 1,
    {
        if !self.is_iferror() {
            self.lemma_hoist_from_size(0);
        }
    }

    proof fn lemma_hoist_from_size(self, i: int)
        requires
            0 <= i,
        ensures
            self.hoist_from(i) matches Some(h) ==> h.cond.size() < self.size() && h.yes.size()
                < self.size() && h.no.size() < self.size(),
        decreases self, self.kids.len() - i,
    {
        if i < self.kids.len() {
            let kid = self.kids[i];
            Tree::lemma_kid_size(self.kids, i);
            assert(Tree::bool(true).size() == 1) by {
                assert(Tree::sizes(Tree::bool(true).kids) == 0);
            }
            assert(Tree::bool(false).size() == 1) by {
                assert(Tree::sizes(Tree::bool(false).kids) == 0);
            }
            if kid.op == Op::If && kid.kids.len() == 3 {
                Tree::lemma_kid_size(kid.kids, 0);
                Tree::lemma_kid_size(kid.kids, 1);
                Tree::lemma_kid_size(kid.kids, 2);
                Tree::lemma_update_size(self.kids, i, kid.kids[1]);
                Tree::lemma_update_size(self.kids, i, kid.kids[2]);
            } else if kid.op.is_offender() && kid.kids.len() > 0 {
                Tree::lemma_kid_size(kid.kids, 0);
                Tree::lemma_update_size(self.kids, i, Tree::bool(true));
                Tree::lemma_update_size(self.kids, i, Tree::bool(false));
            } else {
                kid.lemma_hoist_size();
                match kid.hoist() {
                    Some(h) => {
                        Tree::lemma_update_size(self.kids, i, h.yes);
                        Tree::lemma_update_size(self.kids, i, h.no);
                    },
                    None => {
                        self.lemma_hoist_from_size(i + 1);
                    },
                }
            }
        }
    }
}

/// A budget of atom nodes.
pub(super) struct Budget {
    pub remaining: usize,
    pub limit: usize,
}

impl Budget {
    pub(super) fn new(max_nodes: usize) -> (r: Self)
        ensures
            r.remaining == max_nodes,
            r.limit == max_nodes,
    {
        Budget { remaining: max_nodes, limit: max_nodes }
    }

    /// Takes the nodes of `e` from the budget.
    pub(super) fn charge<T>(&mut self, e: &Expr<T>) -> (r: Result<(), DnfError>)
        ensures
            final(self).limit == old(self).limit,
            match r {
                Ok(_) => final(self).remaining == old(self).remaining - e.tree().size(),
                Err(err) => e.tree().size() > old(self).remaining && err
                    == Budget::exceeded_spec(old(self).limit),
            },
    {
        match spend(e, self.remaining) {
            Some(rest) => {
                self.remaining = rest;
                Ok(())
            },
            None => Err(DnfError::TooLarge { limit: self.limit, what: "atom nodes" }),
        }
    }

    /// The error of an exhausted budget.
    pub(super) open spec fn exceeded_spec(limit: usize) -> DnfError {
        DnfError::TooLarge { limit, what: "atom nodes" }
    }
}

/// Copies of `es`.
pub(super) fn dup_all(es: &Vec<Expr<()>>) -> (r: Vec<Expr<()>>)
    ensures
        r@ == es@,
{
    let mut out: Vec<Expr<()>> = Vec::new();
    let mut i: usize = 0;
    while i < es.len()
        invariant
            i <= es@.len(),
            out@ =~= es@.take(i as int),
        decreases es@.len() - i,
    {
        out.push(es[i].dup());
        i += 1;
    }
    out
}

/// Whether a node cannot err once its children have evaluated: a literal,
/// a variable, set and record construction, and `==` (total value
/// equality). Such a node needs no guard of its own; its children's guards
/// speak for it.
pub(super) fn never_errs_itself<T>(e: &Expr<T>) -> (r: bool)
    ensures
        r == e.tree().op.never_errs(),
{
    match &e.kind {
        ExprKind::Lit(_) | ExprKind::Var(_) | ExprKind::SetLit(_) | ExprKind::Record(_) => true,
        ExprKind::BinaryApp { op, .. } => *op == BinaryOp::Eq,
        _ => false,
    }
}

/// Whether `e` is boolean structure: an `&&`, `||`, `!` or `if` node.
pub(super) fn is_offender<T>(e: &Expr<T>) -> (r: bool)
    ensures
        r == e.tree().op.is_offender(),
        r ==> e.tree().kids.len() > 0,
{
    match &e.kind {
        ExprKind::And { .. } | ExprKind::Or { .. } | ExprKind::If { .. } => true,
        ExprKind::UnaryApp { op, .. } => *op == UnaryOp::Not,
        _ => false,
    }
}

/// Erases `e` and folds every equality of two literals to its boolean value
/// in one pass: literal equality is decided by total value equality across
/// types and never errors.
pub(super) fn erase_and_fold<T>(e: &Expr<T>) -> (r: Expr<()>)
    ensures
        r.tree() == e.tree().fold(),
    decreases e,
{
    let n = e.kid_count();
    let mut folded: Vec<Expr<()>> = Vec::new();
    let mut i: usize = 0;
    assert(e.tree().kids.take(0) =~= seq![]);
    while i < n
        invariant
            i <= n,
            n == e.kids().len(),
            folded@.len() == i,
            crate::ast::trees(folded@) =~= Tree::fold_all(e.tree().kids.take(i as int)),
        decreases n - i,
    {
        let ghost before = crate::ast::trees(folded@);
        assert(e.tree().kids.take(i + 1).drop_last() =~= e.tree().kids.take(i as int));
        let c = erase_and_fold(e.kid(i));
        folded.push(c);
        assert(crate::ast::trees(folded@) =~= before.push(c.tree()));
        i += 1;
    }
    assert(e.tree().kids.take(n as int) =~= e.tree().kids);
    let rebuilt = rebuild(e, folded, ());
    if let ExprKind::BinaryApp { op, arg1, arg2 } = &rebuilt.kind {
        assert(rebuilt.tree().kids[0] == arg1.tree());
        assert(rebuilt.tree().kids[1] == arg2.tree());
        if *op == BinaryOp::Eq {
            if let (ExprKind::Lit(a), ExprKind::Lit(b)) = (&arg1.kind, &arg2.kind) {
                return bool_lit(*a == *b);
            }
        }
    }
    rebuilt
}

/// Appends the guards for a left sibling `e` (already erased and folded) to
/// `guards`: a node that never errs by itself contributes its children's
/// guards in order (so a literal or a variable contributes none); anything
/// else is a guard itself.
pub(super) fn add_guards(e: &Expr<()>, guards: &mut Vec<Expr<()>>)
    ensures
        crate::ast::trees(final(guards)@) == crate::ast::trees(old(guards)@) + e.tree().guards(),
    decreases e,
{
    let ghost start = crate::ast::trees(guards@);
    if never_errs_itself(e) {
        let n = e.kid_count();
        let mut i: usize = 0;
        assert(start + Tree::guards_all(e.tree().kids.take(0)) =~= start);
        while i < n
            invariant
                i <= n,
                n == e.kids().len(),
                crate::ast::trees(guards@) =~= start + Tree::guards_all(
                    e.tree().kids.take(i as int),
                ),
            decreases n - i,
        {
            assert(e.tree().kids.take(i + 1).drop_last() =~= e.tree().kids.take(i as int));
            add_guards(e.kid(i), guards);
            i += 1;
        }
        assert(e.tree().kids.take(n as int) =~= e.tree().kids);
    } else {
        guards.push(e.dup());
        assert(crate::ast::trees(guards@) =~= start + seq![e.tree()]);
    }
}

/// The guards for the children of `e` before the one at `n`, in order: each
/// erased and folded, then decomposed by [`add_guards`].
fn guards_before(e: &Expr<()>, n: usize) -> (r: Vec<Expr<()>>)
    requires
        n <= e.kids().len(),
    ensures
        crate::ast::trees(r@) == Tree::guards_all(
            Tree::fold_all(e.tree().kids.take(n as int)),
        ),
{
    let mut guards: Vec<Expr<()>> = Vec::new();
    let mut i: usize = 0;
    assert(e.tree().kids.take(0) =~= seq![]);
    while i < n
        invariant
            i <= n,
            n <= e.kids().len(),
            crate::ast::trees(guards@) =~= Tree::guards_all(
                Tree::fold_all(e.tree().kids.take(i as int)),
            ),
        decreases n - i,
    {
        assert(e.tree().kids.take(i + 1).drop_last() =~= e.tree().kids.take(i as int));
        let ghost done = Tree::fold_all(e.tree().kids.take(i as int));
        let folded = erase_and_fold(e.kid(i));
        assert(done.push(folded.tree()).drop_last() =~= done);
        add_guards(&folded, &mut guards);
        i += 1;
    }
    guards
}

/// Appends to `out` the subterms `e` evaluates whenever it evaluates at all,
/// to any value: `e` itself, and recursively every child of a strict node,
/// the test or left operand of an `if`/`&&`/`||`, and nothing inside an
/// `iferror` call (which catches its argument's error), without the nodes
/// that never err by themselves, which no guard ever is.
pub(super) fn evaluated(e: &Expr<()>, out: &mut Vec<Expr<()>>)
    ensures
        crate::ast::trees(final(out)@) == crate::ast::trees(old(out)@) + e.tree().evaluated(),
    decreases e,
{
    let ghost start = crate::ast::trees(out@);
    if !never_errs_itself(e) {
        out.push(e.dup());
        assert(crate::ast::trees(out@) =~= start + seq![e.tree()]);
    } else {
        assert(start =~= start + seq![]);
    }
    let ghost head = crate::ast::trees(out@);
    if is_iferror_call(e) {
        assert(head =~= start + e.tree().evaluated());
        return;
    }
    match &e.kind {
        ExprKind::If { .. } | ExprKind::And { .. } | ExprKind::Or { .. } => {
            evaluated(e.kid(0), out);
        },
        _ => {
            let n = e.kid_count();
            let mut i: usize = 0;
            assert(head + Tree::evaluated_all(e.tree().kids.take(0)) =~= head);
            while i < n
                invariant
                    i <= n,
                    n == e.kids().len(),
                    crate::ast::trees(out@) =~= head + Tree::evaluated_all(
                        e.tree().kids.take(i as int),
                    ),
                decreases n - i,
            {
                assert(e.tree().kids.take(i + 1).drop_last() =~= e.tree().kids.take(i as int));
                evaluated(e.kid(i), out);
                i += 1;
            }
            assert(e.tree().kids.take(n as int) =~= e.tree().kids);
        },
    }
    assert(crate::ast::trees(out@) =~= start + e.tree().evaluated());
}

/// Appends the `&&`-spine (`conj`) or `||`-spine of `e` to `out`.
fn push_spine<'a>(e: &'a Expr<()>, conj: bool, out: &mut Vec<&'a Expr<()>>)
    ensures
        crate::ast::trees_of(final(out)@) == crate::ast::trees_of(old(out)@) + e.tree().spine(conj),
    decreases e,
{
    let ghost start = crate::ast::trees_of(out@);
    match &e.kind {
        ExprKind::And { left, right } if conj => {
            assert(e.tree().kids[0] == left.tree());
            assert(e.tree().kids[1] == right.tree());
            push_spine(&**left, conj, out);
            push_spine(&**right, conj, out);
        },
        ExprKind::Or { left, right } if !conj => {
            assert(e.tree().kids[0] == left.tree());
            assert(e.tree().kids[1] == right.tree());
            push_spine(&**left, conj, out);
            push_spine(&**right, conj, out);
        },
        ExprKind::Lit(Prim::Bool(b)) if *b == conj => {},
        _ => {
            out.push(e);
            assert(crate::ast::trees_of(out@) =~= start + seq![e.tree()]);
        },
    }
    assert(crate::ast::trees_of(out@) =~= start + e.tree().spine(conj));
}

/// The `&&`-spine (`conj`) or `||`-spine of `e`, without its unit literal.
fn spine(e: &Expr<()>, conj: bool) -> (r: Vec<&Expr<()>>)
    ensures
        crate::ast::trees_of(r@) == e.tree().spine(conj),
{
    let mut out: Vec<&Expr<()>> = Vec::new();
    push_spine(e, conj, &mut out);
    assert(crate::ast::trees_of(out@) =~= seq![] + e.tree().spine(conj));
    out
}

/// The `&&`-spine of `e`, left to right, without `true` literals: `(a && b) && c`
/// and `a && (b && c)` both give `[a, b, c]`; anything else is a single conjunct
/// (an unconstrained scope renders as `true`; `true && x` is `x`).
pub fn conjuncts(e: &Expr<()>) -> (r: Vec<&Expr<()>>)
    ensures
        crate::ast::trees_of(r@) == e.tree().spine(true),
{
    spine(e, true)
}

/// The `||`-spine of `e`, left to right, without `false` literals.
pub fn disjuncts(e: &Expr<()>) -> (r: Vec<&Expr<()>>)
    ensures
        crate::ast::trees_of(r@) == e.tree().spine(false),
{
    spine(e, false)
}

/// What a `cond` that evaluated to a known value establishes: every member
/// of its spine (the `&&`-spine when it was `true`, the `||`-spine when it
/// was `false`) evaluated, and so did their strict subterms.
fn learn(cond: &Expr<()>, conj: bool) -> (r: Vec<Expr<()>>)
    ensures
        crate::ast::trees(r@) == cond.tree().learn(conj),
{
    let members = if conj {
        conjuncts(cond)
    } else {
        disjuncts(cond)
    };
    let ghost all = cond.tree().spine(conj);
    let mut out: Vec<Expr<()>> = Vec::new();
    let mut i: usize = 0;
    assert(all.take(0) =~= seq![]);
    while i < members.len()
        invariant
            i <= members@.len(),
            all == crate::ast::trees_of(members@),
            crate::ast::trees(out@) =~= Tree::evaluated_all(all.take(i as int)),
        decreases members@.len() - i,
    {
        assert(all.take(i + 1).drop_last() =~= all.take(i as int));
        assert(all[i as int] == members@[i as int].tree());
        evaluated(members[i], &mut out);
        i += 1;
    }
    assert(all.take(i as int) =~= all);
    out
}

/// What a true `cond` establishes.
pub(super) fn learn_true(cond: &Expr<()>) -> (r: Vec<Expr<()>>)
    ensures
        crate::ast::trees(r@) == cond.tree().learn(true),
{
    learn(cond, true)
}

/// What a false `cond` establishes.
pub(super) fn learn_false(cond: &Expr<()>) -> (r: Vec<Expr<()>>)
    ensures
        crate::ast::trees(r@) == cond.tree().learn(false),
{
    learn(cond, false)
}

/// `ctx` extended by `learned`.
pub(super) fn extend(ctx: &Vec<Expr<()>>, learned: &Vec<Expr<()>>) -> (r: Vec<Expr<()>>)
    ensures
        crate::ast::trees(r@) == crate::ast::trees(ctx@) + crate::ast::trees(learned@),
{
    let mut out = dup_all(ctx);
    let mut i: usize = 0;
    while i < learned.len()
        invariant
            i <= learned@.len(),
            out@ =~= ctx@ + learned@.take(i as int),
        decreases learned@.len() - i,
    {
        out.push(learned[i].dup());
        i += 1;
    }
    assert(learned@.take(i as int) =~= learned@);
    assert(crate::ast::trees(out@) =~= crate::ast::trees(ctx@) + crate::ast::trees(learned@));
    out
}

/// Whether `es` holds an expression structurally equal to `e`.
pub(super) fn holds(es: &Vec<Expr<()>>, e: &Expr<()>) -> (r: bool)
    ensures
        r == crate::ast::trees(es@).contains(e.tree()),
{
    let mut i: usize = 0;
    while i < es.len()
        invariant
            i <= es@.len(),
            forall|j: int| 0 <= j < i ==> crate::ast::trees(es@)[j] != e.tree(),
        decreases es@.len() - i,
    {
        if es[i] == *e {
            assert(crate::ast::trees(es@)[i as int] == e.tree());
            return true;
        }
        i += 1;
    }
    false
}

/// The guards not already established by `ctx`, in order and without
/// repetition (a later duplicate is dropped).
pub(super) fn new_guards(ctx: &Vec<Expr<()>>, guards: &Vec<Expr<()>>) -> (r: Vec<Expr<()>>)
    ensures
        crate::ast::trees(r@) == Tree::new_guards(
            crate::ast::trees(ctx@),
            crate::ast::trees(guards@),
        ),
{
    let ghost all = crate::ast::trees(guards@);
    let mut fresh: Vec<Expr<()>> = Vec::new();
    let mut i: usize = 0;
    assert(all.take(0) =~= seq![]);
    while i < guards.len()
        invariant
            i <= guards@.len(),
            all == crate::ast::trees(guards@),
            crate::ast::trees(fresh@) =~= Tree::new_guards(
                crate::ast::trees(ctx@),
                all.take(i as int),
            ),
        decreases guards@.len() - i,
    {
        let ghost before = crate::ast::trees(fresh@);
        assert(all.take(i + 1).drop_last() =~= all.take(i as int));
        assert(all[i as int] == guards@[i as int].tree());
        let g = &guards[i];
        if !holds(ctx, g) && !holds(&fresh, g) {
            fresh.push(g.dup());
            assert(crate::ast::trees(fresh@) =~= before.push(g.tree()));
        }
        i += 1;
    }
    assert(all.take(i as int) =~= all);
    fresh
}

/// `g == g`: `true` whenever `g` evaluates, `g`'s error otherwise.
pub(super) fn self_eq(g: &Expr<()>) -> (r: Expr<()>)
    ensures
        r.tree() == Tree::self_eq(g.tree()),
{
    let g1 = Arc::new(g.dup());
    let g2 = share(&g1);
    let r = node(ExprKind::BinaryApp { op: BinaryOp::Eq, arg1: g1, arg2: g2 });
    assert(r.tree().kids =~= Tree::self_eq(g.tree()).kids);
    r
}

/// `d1 && (d2 && ..)`, nested right; the empty chain is `true`.
pub(super) fn and_chain(ds: &Vec<Expr<()>>) -> (r: Expr<()>)
    ensures
        r.tree() == Tree::and_chain(crate::ast::trees(ds@)),
{
    let ghost all = crate::ast::trees(ds@);
    if ds.len() == 0 {
        return bool_lit(true);
    }
    let mut i: usize = ds.len() - 1;
    let mut acc = ds[i].dup();
    assert(all.skip(i as int) =~= seq![ds@[i as int].tree()]);
    while i > 0
        invariant
            i < ds@.len(),
            all == crate::ast::trees(ds@),
            acc.tree() == Tree::and_chain(all.skip(i as int)),
        decreases i,
    {
        assert(all.skip(i - 1).drop_first() =~= all.skip(i as int));
        assert(all.skip(i - 1)[0] == ds@[i - 1].tree());
        i -= 1;
        acc = and(ds[i].dup(), acc);
    }
    assert(all.skip(0) =~= all);
    acc
}

/// Wraps `e` as `if (g1 == g1 && (g2 == g2 && ..)) then e else false` over
/// the `guards`, in order; `e` itself without guards.
pub(super) fn guard(guards: &Vec<Expr<()>>, e: Expr<()>) -> (r: Expr<()>)
    ensures
        r.tree() == Tree::guarded(crate::ast::trees(guards@), e.tree()),
{
    if guards.len() == 0 {
        return e;
    }
    let ghost all = crate::ast::trees(guards@).map_values(|g: Tree| Tree::self_eq(g));
    let mut eqs: Vec<Expr<()>> = Vec::new();
    let mut i: usize = 0;
    while i < guards.len()
        invariant
            i <= guards@.len(),
            all == crate::ast::trees(guards@).map_values(|g: Tree| Tree::self_eq(g)),
            crate::ast::trees(eqs@) =~= all.take(i as int),
        decreases guards@.len() - i,
    {
        let ghost before = crate::ast::trees(eqs@);
        let q = self_eq(&guards[i]);
        eqs.push(q);
        assert(all[i as int] == q.tree());
        assert(crate::ast::trees(eqs@) =~= before.push(q.tree()));
        i += 1;
    }
    assert(all.take(i as int) =~= all);
    ite(and_chain(&eqs), e, bool_lit(false))
}

/// The result of looking for the first `&&`/`||`/`!`/`if` node (in pre-order,
/// left to right, which is evaluation order) strictly inside an expression.
enum Hoist {
    /// No offending node.
    Clean,
    /// An offending node was found: the whole expression evaluates like
    /// `if cond then when_true else when_false`, once every guard has
    /// evaluated without error.
    Found {
        /// The left siblings of the offending node (the subterms evaluated
        /// before it), in evaluation order, folded, without the ones that
        /// never err.
        guards: Vec<Expr<()>>,
        cond: Expr<()>,
        when_true: Expr<()>,
        when_false: Expr<()>,
    },
}

impl Hoist {
    /// What was found.
    spec fn is(self, h: Option<Hoisted>) -> bool {
        match self {
            Hoist::Clean => h is None,
            Hoist::Found { guards, cond, when_true, when_false } => {
                &&& h is Some
                &&& crate::ast::trees(guards@) == h->0.guards
                &&& cond.tree() == h->0.cond
                &&& when_true.tree() == h->0.yes
                &&& when_false.tree() == h->0.no
            },
        }
    }
}

/// Rebuilds `e` with its `index`th child replaced by `replacement`.
fn replace_child(e: &Expr<()>, index: usize, replacement: Expr<()>) -> (r: Expr<()>)
    requires
        index < e.kids().len(),
    ensures
        r.tree() == e.tree().with_kid(index as int, replacement.tree()),
{
    let n = e.kid_count();
    let mut rebuilt: Vec<Expr<()>> = Vec::new();
    let mut i: usize = 0;
    while i < n
        invariant
            i <= n,
            n == e.kids().len(),
            index < n,
            crate::ast::trees(rebuilt@) =~= e.tree().kids.update(
                index as int,
                replacement.tree(),
            ).take(i as int),
        decreases n - i,
    {
        let ghost before = crate::ast::trees(rebuilt@);
        let c = if i == index {
            replacement.dup()
        } else {
            e.kid(i).dup()
        };
        rebuilt.push(c);
        assert(crate::ast::trees(rebuilt@) =~= before.push(c.tree()));
        i += 1;
    }
    let r = rebuild(e, rebuilt, ());
    assert(r.tree().kids =~= e.tree().with_kid(index as int, replacement.tree()).kids);
    r
}

/// Looks for the first offending node strictly inside `e`. An `iferror` call
/// is opaque: it catches its argument's error, so hoisting a node out of it
/// would move that node's error outside the coalescing scope.
fn hoist(e: &Expr<()>) -> (r: Hoist)
    ensures
        r.is(e.tree().hoist()),
    decreases e,
{
    if is_iferror_call(e) {
        return Hoist::Clean;
    }
    let n = e.kid_count();
    let mut i: usize = 0;
    while i < n
        invariant
            i <= n,
            n == e.kids().len(),
            e.tree().hoist() == e.tree().hoist_from(i as int),
        decreases n - i,
    {
        let child = e.kid(i);
        if let ExprKind::If { test_expr, then_expr, else_expr } = &child.kind {
            assert(child.tree().kids[0] == test_expr.tree());
            assert(child.tree().kids[1] == then_expr.tree());
            assert(child.tree().kids[2] == else_expr.tree());
            return Hoist::Found {
                guards: guards_before(e, i),
                cond: test_expr.dup(),
                when_true: replace_child(e, i, then_expr.dup()),
                when_false: replace_child(e, i, else_expr.dup()),
            };
        }
        if is_offender(child) {
            return Hoist::Found {
                guards: guards_before(e, i),
                cond: child.dup(),
                when_true: replace_child(e, i, bool_lit(true)),
                when_false: replace_child(e, i, bool_lit(false)),
            };
        }
        match hoist(child) {
            Hoist::Found { guards: inner, cond, when_true, when_false } => {
                // The earlier siblings are evaluated before anything inside
                // `child`.
                let before = guards_before(e, i);
                let guards = extend(&before, &inner);
                return Hoist::Found {
                    guards,
                    cond,
                    when_true: replace_child(e, i, when_true),
                    when_false: replace_child(e, i, when_false),
                };
            },
            Hoist::Clean => {},
        }
        i += 1;
    }
    Hoist::Clean
}

/// What a splitting function returns, and what it leaves of the budget.
spec fn split_is(
    r: Result<Expr<()>, DnfError>,
    before: Budget,
    after: Budget,
    s: Option<(Tree, int)>,
) -> bool {
    &&& after.limit == before.limit
    &&& match s {
        Some((t, rest)) => {
            &&& r matches Ok(x) && x.tree() == t
            &&& after.remaining == rest
        },
        None => r matches Err(e) && e == Budget::exceeded_spec(before.limit),
    }
}

/// Splits one atom: hoists its first offending node, if any, guarded by the
/// node's left siblings not already established by `ctx`, and recurses under
/// the extended context.
fn split_atom(atom: &Expr<()>, ctx: &Vec<Expr<()>>, budget: &mut Budget) -> (r: Result<
    Expr<()>,
    DnfError,
>)
    ensures
        split_is(
            r,
            *old(budget),
            *final(budget),
            atom.tree().split_atom(crate::ast::trees(ctx@), old(budget).remaining as int),
        ),
    decreases atom.tree().size(), 0nat,
{
    proof {
        atom.tree().lemma_hoist_size();
    }
    budget.charge(atom)?;
    match hoist(atom) {
        Hoist::Clean => Ok(erase_and_fold(atom)),
        Hoist::Found { guards, cond, when_true, when_false } => {
            let fresh = new_guards(ctx, &guards);
            let inner = extend(ctx, &fresh);
            // The hoisted condition is at structure position now.
            let test = split_structure(&cond, &inner, budget)?;
            // It ran before either copy: its strict subterms need no guard
            // inside them.
            let mut copies = inner;
            evaluated(&cond, &mut copies);
            let yes = split_atom(&when_true, &copies, budget)?;
            let no = split_atom(&when_false, &copies, budget)?;
            Ok(guard(&fresh, ite(test, yes, no)))
        },
    }
}

/// Splits the atoms of a boolean expression, recursing through its
/// `&&`/`||`/`!`/`if` structure. `ctx` holds the subterms already known to
/// have evaluated wherever this expression is evaluated, so they need no
/// guard here.
fn split_structure(expr: &Expr<()>, ctx: &Vec<Expr<()>>, budget: &mut Budget) -> (r: Result<
    Expr<()>,
    DnfError,
>)
    ensures
        split_is(
            r,
            *old(budget),
            *final(budget),
            expr.tree().split(crate::ast::trees(ctx@), old(budget).remaining as int),
        ),
    decreases expr.tree().size(), 1nat,
{
    proof {
        assert forall|i: int| 0 <= i < expr.tree().kids.len() implies (
        #[trigger] expr.tree().kids[i]).size() < expr.tree().size() by {
            Tree::lemma_kid_size(expr.tree().kids, i);
        }
    }
    match &expr.kind {
        ExprKind::Lit(Prim::Bool(b)) => Ok(bool_lit(*b)),
        ExprKind::And { left, right } => {
            assert(expr.tree().kids[0] == left.tree());
            assert(expr.tree().kids[1] == right.tree());
            let inner = extend(ctx, &learn_true(left));
            let l = split_structure(left, ctx, budget)?;
            let r = split_structure(right, &inner, budget)?;
            Ok(and(l, r))
        },
        ExprKind::Or { left, right } => {
            assert(expr.tree().kids[0] == left.tree());
            assert(expr.tree().kids[1] == right.tree());
            let inner = extend(ctx, &learn_false(left));
            let l = split_structure(left, ctx, budget)?;
            let r = split_structure(right, &inner, budget)?;
            Ok(or(l, r))
        },
        ExprKind::UnaryApp { op: UnaryOp::Not, arg } => {
            assert(expr.tree().kids[0] == arg.tree());
            let a = split_structure(arg, ctx, budget)?;
            Ok(not(a))
        },
        ExprKind::If { test_expr, then_expr, else_expr } => {
            assert(expr.tree().kids[0] == test_expr.tree());
            assert(expr.tree().kids[1] == then_expr.tree());
            assert(expr.tree().kids[2] == else_expr.tree());
            let inner_then = extend(ctx, &learn_true(test_expr));
            let inner_else = extend(ctx, &learn_false(test_expr));
            let c = split_structure(test_expr, ctx, budget)?;
            let t = split_structure(then_expr, &inner_then, budget)?;
            let e = split_structure(else_expr, &inner_else, budget)?;
            Ok(ite(c, t, e))
        },
        _ => split_atom(expr, ctx, budget),
    }
}

/// Rewrites the boolean expression `expr` so that no atom contains any
/// `&&`/`||`/`!`/`if` node outside an `iferror` call, preserving evaluation
/// exactly: the same value, or the same error, on every input.
///
/// Splitting duplicates the atom around every hoisted node, so the result can
/// be exponentially larger than the input; `max_nodes` bounds the total
/// number of atom nodes processed, and exhausting it fails with
/// [`DnfError::TooLarge`]. The result is erased: the input's per-node data
/// cannot describe the substituted atom variants.
pub fn split_atoms<T>(expr: &Expr<T>, max_nodes: usize) -> (r: Result<Expr<()>, DnfError>)
    ensures
        match r {
            Ok(x) => {
                &&& expr.tree().fits(MAX_NESTING as nat)
                &&& expr.tree().split(seq![], max_nodes as int) matches Some((t, _)) && x.tree()
                    == t
            },
            Err(DnfError::RecursionLimit) => !expr.tree().fits(MAX_NESTING as nat),
            Err(e) => {
                &&& expr.tree().fits(MAX_NESTING as nat)
                &&& expr.tree().split(seq![], max_nodes as int) is None
                &&& e == (DnfError::TooLarge { limit: max_nodes, what: "atom nodes" })
            },
        },
{
    if !fits(expr, MAX_NESTING) {
        return Err(DnfError::RecursionLimit);
    }
    let erased = erase(expr);
    let ctx: Vec<Expr<()>> = Vec::new();
    assert(crate::ast::trees(ctx@) =~= seq![]);
    let mut budget = Budget::new(max_nodes);
    split_structure(&erased, &ctx, &mut budget)
}

} // verus!
