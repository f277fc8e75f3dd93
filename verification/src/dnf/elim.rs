//! Eliminating record and set literals from atoms: the structure a literal
//! hides under `.attr` / `has` / `==` / `contains` / `containsAll` /
//! `containsAny` / `isEmpty` / `in` is rewritten into the operations on its
//! elements.
//!
//! The rules, applied bottom-up (children first, so their results are already
//! rewritten):
//!
//! ```text
//! {a: x, ..}.a             => x                       (the first field named a)
//! {a: x, ..} has a         => true / false
//! {a: x, ..} == {a: y, ..} => x == y && ..            (same key sets)
//! a == b, a set literal on either side
//!                          => a.containsAll(b) && b.containsAll(a)
//! [l1, .., ln].contains(x) => l1 == x || .. || ln == x
//! s.containsAll([l1, ..])  => s.contains(l1) && ..
//! s.containsAny([l1, ..])  => s.contains(l1) || ..    (and symmetrically)
//! [l1, ..].isEmpty()       => false / true
//! e in [x1, .., xn]        => e in x1 || .. || e in xn
//! ```
//!
//! where an equality, `contains` or `containsAll` a rule produces is itself
//! rewritten when it meets literals again, and the empty chains are `true`
//! (`&&`) and `false` (`||`).
//!
//! A rewrite reorders and drops evaluation: `{a: x, b: y}.b` never evaluates
//! `x` once rewritten to `y`. The pass keeps the original error behaviour
//! with guards: every atom that was rewritten becomes
//! `if (g1 == g1 && ..) then atom' else false`, where the guards are, in
//! evaluation order, the subterms the original evaluated. Guards the
//! rewritten atom evaluates itself, first and in the same order, are dropped
//! again.

use std::sync::Arc;

use vstd::prelude::*;

use crate::ast::{BinaryOp, Data, Expr, ExprKind, Prim, UnaryOp};
use crate::evaluator::compile::typecheck;
use crate::evaluator::err::EvaluationError;
use crate::expr_util::{fits, rebuild, MAX_NESTING};
use crate::iferror::is_iferror_call;
use crate::policy::Policy;
use crate::tree::{Op, Tree};
use crate::typechecked::Checked;
use crate::types::{RequestEnv, Schema, Type};

use super::split::{
    add_guards, and_chain, erase_and_fold, extend, guard, is_offender, learn_false, learn_true,
    never_errs_itself, new_guards, split_atoms, Budget,
};
use super::{and, bool_lit, ite, node, not, or, DnfError};

verus! {

/// What an atom becomes: whether anything was rewritten, the subterms the
/// original evaluates and that may err, in evaluation order, and the
/// rewritten term.
pub struct Elimd {
    pub changed: bool,
    pub guards: Seq<Tree>,
    pub term: Tree,
}

impl Tree {
    /// `t1 || (t2 || ..)`, nested right; `false` without terms.
    pub open spec fn or_chain(ts: Seq<Tree>) -> Tree
        decreases ts.len(),
    {
        if ts.len() == 0 {
            Tree::bool(false)
        } else if ts.len() == 1 {
            ts[0]
        } else {
            Tree::or(ts[0], Tree::or_chain(ts.drop_first()))
        }
    }

    /// The application of a binary operator.
    pub open spec fn binary(op: BinaryOp, a: Tree, b: Tree) -> Tree {
        Tree { op: Op::Binary(op), kids: seq![a, b] }
    }

    /// `a == b`, rewritten when both are record literals with the same keys
    /// or one is a set literal.
    pub open spec fn elim_eq(a: Tree, b: Tree) -> Tree
        decreases a.size() + b.size(), 2nat,
        via Self::elim_eq_terminates
    {
        if a.op is Record && a.op == b.op && a.kids.len() == b.kids.len() {
            Tree::and_chain(Tree::elim_eqs(a.kids, b.kids))
        } else if a.op == Op::SetLit || b.op == Op::SetLit {
            Tree::and(Tree::elim_contains_all(a, b), Tree::elim_contains_all(b, a))
        } else {
            Tree::binary(BinaryOp::Eq, a, b)
        }
    }

    /// `x == y` for each of `xs` and the corresponding one of `ys`.
    pub open spec fn elim_eqs(xs: Seq<Tree>, ys: Seq<Tree>) -> Seq<Tree>
        decreases Tree::sizes(xs) + Tree::sizes(ys), 3nat,
        via Self::elim_eqs_terminates
    {
        if xs.len() == 0 || ys.len() == 0 {
            seq![]
        } else {
            Tree::elim_eqs(xs.drop_last(), ys.drop_last()).push(
                Tree::elim_eq(xs.last(), ys.last()),
            )
        }
    }

    /// `s.containsAll(t)`, rewritten when `t` is a set literal.
    pub open spec fn elim_contains_all(s: Tree, t: Tree) -> Tree
        decreases s.size() + t.size(), 1nat,
        via Self::elim_contains_all_terminates
    {
        if t.op == Op::SetLit {
            Tree::and_chain(Tree::elim_contains_each(s, t.kids))
        } else {
            Tree::binary(BinaryOp::ContainsAll, s, t)
        }
    }

    /// `s.contains(x)` for each of `xs`.
    pub open spec fn elim_contains_each(s: Tree, xs: Seq<Tree>) -> Seq<Tree>
        decreases s.size() + Tree::sizes(xs), 3nat,
        via Self::elim_contains_each_terminates
    {
        if xs.len() == 0 {
            seq![]
        } else {
            Tree::elim_contains_each(s, xs.drop_last()).push(Tree::elim_contains(s, xs.last()))
        }
    }

    /// `s.contains(x)`, rewritten when `s` is a set literal.
    pub open spec fn elim_contains(s: Tree, x: Tree) -> Tree
        decreases s.size() + x.size(), 1nat,
        via Self::elim_contains_terminates
    {
        if s.op == Op::SetLit {
            Tree::or_chain(Tree::elim_eq_each(s.kids, x))
        } else {
            Tree::binary(BinaryOp::Contains, s, x)
        }
    }

    /// `l == x` for each `l` of `ls`.
    pub open spec fn elim_eq_each(ls: Seq<Tree>, x: Tree) -> Seq<Tree>
        decreases Tree::sizes(ls) + x.size(), 3nat,
        via Self::elim_eq_each_terminates
    {
        if ls.len() == 0 {
            seq![]
        } else {
            Tree::elim_eq_each(ls.drop_last(), x).push(Tree::elim_eq(ls.last(), x))
        }
    }

    #[via_fn]
    proof fn elim_eq_terminates(a: Tree, b: Tree) {
    }

    #[via_fn]
    proof fn elim_eqs_terminates(xs: Seq<Tree>, ys: Seq<Tree>) {
        if xs.len() > 0 && ys.len() > 0 {
            Tree::lemma_sizes_last(xs);
            Tree::lemma_sizes_last(ys);
        }
    }

    #[via_fn]
    proof fn elim_contains_all_terminates(s: Tree, t: Tree) {
    }

    #[via_fn]
    proof fn elim_contains_each_terminates(s: Tree, xs: Seq<Tree>) {
        if xs.len() > 0 {
            Tree::lemma_sizes_last(xs);
        }
    }

    #[via_fn]
    proof fn elim_contains_terminates(s: Tree, x: Tree) {
    }

    #[via_fn]
    proof fn elim_eq_each_terminates(ls: Seq<Tree>, x: Tree) {
        if ls.len() > 0 {
            Tree::lemma_sizes_last(ls);
        }
    }

    /// The last of `ts` counts like the others.
    pub proof fn lemma_sizes_last(ts: Seq<Tree>)
        requires
            ts.len() > 0,
        ensures
            Tree::sizes(ts) == Tree::sizes(ts.drop_last()) + ts.last().size(),
            ts.last().size() > 0,
        decreases ts.len(),
    {
        let tail = ts.subrange(1, ts.len() as int);
        if ts.len() == 1 {
            assert(tail =~= seq![]);
            assert(ts.drop_last() =~= seq![]);
        } else {
            Tree::lemma_sizes_last(tail);
            let front = ts.drop_last();
            assert(front.subrange(1, front.len() as int) =~= tail.drop_last());
        }
    }

    /// The position of the first of `keys` that is `key`.
    pub open spec fn key_index(keys: Seq<Seq<char>>, key: Seq<char>) -> Option<int>
        decreases keys.len(),
    {
        if keys.len() == 0 {
            None
        } else if keys[0] == key {
            Some(0)
        } else {
            match Tree::key_index(keys.drop_first(), key) {
                Some(i) => Some(i + 1),
                None => None,
            }
        }
    }

    /// The rule for a node whose children are already rewritten, if one
    /// applies.
    pub open spec fn rewrite(self) -> Option<Tree> {
        match self.op {
            Op::GetAttr(attr) => match self.kids[0].op {
                Op::Record(keys) => match Tree::key_index(keys, attr) {
                    Some(i) => Some(self.kids[0].kids[i]),
                    None => None,
                },
                _ => None,
            },
            Op::HasAttr(attr) => match self.kids[0].op {
                Op::Record(keys) => Some(Tree::bool(Tree::key_index(keys, attr) is Some)),
                _ => None,
            },
            Op::Unary(UnaryOp::IsEmpty) => if self.kids[0].op == Op::SetLit {
                Some(Tree::bool(self.kids[0].kids.len() == 0))
            } else {
                None
            },
            Op::Binary(op) => {
                let a = self.kids[0];
                let b = self.kids[1];
                match op {
                    BinaryOp::Eq => if (a.op is Record && a.op == b.op && a.kids.len()
                        == b.kids.len()) || a.op == Op::SetLit || b.op == Op::SetLit {
                        Some(Tree::elim_eq(a, b))
                    } else {
                        None
                    },
                    BinaryOp::Contains => if a.op == Op::SetLit {
                        Some(Tree::elim_contains(a, b))
                    } else {
                        None
                    },
                    BinaryOp::ContainsAll => if b.op == Op::SetLit {
                        Some(Tree::elim_contains_all(a, b))
                    } else {
                        None
                    },
                    BinaryOp::ContainsAny => if b.op == Op::SetLit {
                        Some(
                            Tree::or_chain(Tree::elim_contains_each(a, b.kids)),
                        )
                    } else if a.op == Op::SetLit {
                        Some(
                            Tree::or_chain(Tree::elim_contains_each(b, a.kids)),
                        )
                    } else {
                        None
                    },
                    BinaryOp::In => if b.op == Op::SetLit {
                        Some(
                            Tree::or_chain(
                                b.kids.map_values(|x: Tree| Tree::binary(BinaryOp::In, a, x)),
                            ),
                        )
                    } else {
                        None
                    },
                    _ => None,
                }
            },
            _ => None,
        }
    }

    /// What the tree becomes. An `iferror(..)` call, and any `&&`/`||`/`!`/`if`
    /// inside an atom, is opaque.
    pub open spec fn elim(self) -> Elimd
        decreases self,
    {
        if self.is_iferror() || self.op.is_offender() {
            Elimd { changed: false, guards: self.fold().guards(), term: self }
        } else {
            let (changed, guards, terms) = Tree::elim_all(self.kids);
            let rebuilt = Tree { op: self.op, kids: terms };
            match rebuilt.rewrite() {
                Some(term) => Elimd { changed: true, guards, term },
                None => if !changed {
                    Elimd { changed: false, guards: rebuilt.fold().guards(), term: rebuilt }
                } else if self.op.never_errs() {
                    Elimd { changed: true, guards, term: rebuilt }
                } else {
                    Elimd { changed: true, guards: guards.push(rebuilt), term: rebuilt }
                },
            }
        }
    }

    /// What all of `ts` become: whether any was rewritten, the guards of all
    /// in order, and the terms.
    pub open spec fn elim_all(ts: Seq<Tree>) -> (bool, Seq<Tree>, Seq<Tree>)
        decreases ts,
    {
        if ts.len() == 0 {
            (false, seq![], seq![])
        } else {
            let (changed, guards, terms) = Tree::elim_all(ts.drop_last());
            let e = ts.last().elim();
            (changed || e.changed, guards + e.guards, terms.push(e.term))
        }
    }

    /// The subterms that can err, in evaluation order and at the granularity
    /// of guards, as far as evaluation is certain to proceed, and whether it
    /// is certain to proceed to the end.
    pub open spec fn eval_list(self) -> (Seq<Tree>, bool)
        decreases self,
    {
        if (self.op == Op::If || self.op == Op::And || self.op == Op::Or) && self.kids.len() > 0 {
            (self.kids[0].eval_list().0, false)
        } else if self.op.never_errs() {
            Tree::eval_lists(self.kids)
        } else {
            (seq![self], true)
        }
    }

    /// [`Tree::eval_list`] of all of `ts`, one after the other.
    pub open spec fn eval_lists(ts: Seq<Tree>) -> (Seq<Tree>, bool)
        decreases ts,
    {
        if ts.len() == 0 {
            (seq![], true)
        } else {
            let (front, complete) = Tree::eval_lists(ts.drop_last());
            if complete {
                let (last, c) = ts.last().eval_list();
                (front + last, c)
            } else {
                (front, false)
            }
        }
    }

    /// `a` is a prefix of `b`.
    pub open spec fn starts(a: Seq<Tree>, b: Seq<Tree>) -> bool {
        a.len() <= b.len() && b.take(a.len() as int) == a
    }

    /// The first position from `k` on behind which `guards` only repeat the
    /// start of `order`.
    pub open spec fn repeated_from(guards: Seq<Tree>, order: Seq<Tree>, k: int) -> int
        decreases guards.len() - k,
    {
        if k >= guards.len() {
            guards.len() as int
        } else if Tree::starts(guards.skip(k), order) {
            k
        } else {
            Tree::repeated_from(guards, order, k + 1)
        }
    }

    /// `guards` without the longest suffix that `term` evaluates itself,
    /// first and in the same order.
    pub open spec fn drop_repeated(guards: Seq<Tree>, term: Tree) -> Seq<Tree> {
        guards.take(Tree::repeated_from(guards, term.eval_list().0, 0))
    }

    /// The tree with the literals of its atoms eliminated, where `ctx` is
    /// known to have evaluated, whether any atom was rewritten, and what is
    /// left of a budget of atom nodes; `None` if it does not suffice.
    pub open spec fn elim_structure(
        self,
        ctx: Seq<Tree>,
        budget: int,
    ) -> Option<(Tree, bool, int)>
        decreases self,
    {
        if self.op is Lit && self.op->Lit_0 is Bool {
            Some((Tree::bool(self.op->Lit_0->Bool_0), false, budget))
        } else if self.op == Op::And && self.kids.len() == 2 {
            match self.kids[0].elim_structure(ctx, budget) {
                Some((l, cl, b)) => match self.kids[1].elim_structure(
                    ctx + self.kids[0].learn(true),
                    b,
                ) {
                    Some((r, cr, b)) => Some((Tree::and(l, r), cl || cr, b)),
                    None => None,
                },
                None => None,
            }
        } else if self.op == Op::Or && self.kids.len() == 2 {
            match self.kids[0].elim_structure(ctx, budget) {
                Some((l, cl, b)) => match self.kids[1].elim_structure(
                    ctx + self.kids[0].learn(false),
                    b,
                ) {
                    Some((r, cr, b)) => Some((Tree::or(l, r), cl || cr, b)),
                    None => None,
                },
                None => None,
            }
        } else if self.op == Op::Unary(UnaryOp::Not) && self.kids.len() == 1 {
            match self.kids[0].elim_structure(ctx, budget) {
                Some((a, ca, b)) => Some((Tree::not(a), ca, b)),
                None => None,
            }
        } else if self.op == Op::If && self.kids.len() == 3 {
            match self.kids[0].elim_structure(ctx, budget) {
                Some((c, cc, b)) => match self.kids[1].elim_structure(
                    ctx + self.kids[0].learn(true),
                    b,
                ) {
                    Some((t, ct, b)) => match self.kids[2].elim_structure(
                        ctx + self.kids[0].learn(false),
                        b,
                    ) {
                        Some((e, ce, b)) => Some((Tree::ite(c, t, e), cc || ct || ce, b)),
                        None => None,
                    },
                    None => None,
                },
                None => None,
            }
        } else {
            self.elim_atom(ctx, budget)
        }
    }

    /// [`Tree::elim_structure`] for an atom.
    #[verifier::opaque]
    pub open spec fn elim_atom(self, ctx: Seq<Tree>, budget: int) -> Option<(Tree, bool, int)> {
        let e = self.elim();
        if !e.changed {
            Some((e.term, false, budget))
        } else {
            let guards = Tree::drop_repeated(Tree::new_guards(ctx, e.guards), e.term);
            let wrapped = Tree::guarded(guards, e.term);
            if wrapped.size() > budget {
                None
            } else {
                Some((wrapped, true, budget - wrapped.size()))
            }
        }
    }

    /// Splitting, elimination and, if that changed anything, splitting again,
    /// each with a budget of `max_nodes` atom nodes.
    pub open spec fn normalized(self, max_nodes: usize) -> Result<Tree, DnfError> {
        let exceeded = DnfError::TooLarge { limit: max_nodes, what: "atom nodes" };
        if !self.fits(MAX_NESTING as nat) {
            Err(DnfError::RecursionLimit)
        } else {
            match self.split(seq![], max_nodes as int) {
                Some((split, _)) => match split.elim_structure(seq![], max_nodes as int) {
                    Some((eliminated, changed, _)) => if !changed {
                        Ok(split)
                    } else if !eliminated.fits(MAX_NESTING as nat) {
                        Err(DnfError::RecursionLimit)
                    } else {
                        match eliminated.split(seq![], max_nodes as int) {
                            Some((t, _)) => Ok(t),
                            None => Err(exceeded),
                        }
                    },
                    None => Err(exceeded),
                },
                None => Err(exceeded),
            }
        }
    }
}

/// `d1 || (d2 || ..)`, nested right; the empty chain is `false`.
pub(super) fn or_chain(ds: &Vec<Expr<()>>) -> (r: Expr<()>)
    ensures
        r.tree() == Tree::or_chain(crate::ast::trees(ds@)),
{
    let ghost all = crate::ast::trees(ds@);
    if ds.len() == 0 {
        return bool_lit(false);
    }
    let mut i: usize = ds.len() - 1;
    let mut acc = ds[i].dup();
    assert(all.skip(i as int) =~= seq![ds@[i as int].tree()]);
    while i > 0
        invariant
            i < ds@.len(),
            all == crate::ast::trees(ds@),
            acc.tree() == Tree::or_chain(all.skip(i as int)),
        decreases i,
    {
        assert(all.skip(i - 1).drop_first() =~= all.skip(i as int));
        assert(all.skip(i - 1)[0] == ds@[i - 1].tree());
        i -= 1;
        acc = or(ds[i].dup(), acc);
    }
    assert(all.skip(0) =~= all);
    acc
}

/// The application of a binary operator.
fn binary(op: BinaryOp, a: &Expr<()>, b: &Expr<()>) -> (r: Expr<()>)
    ensures
        r.tree() == Tree::binary(op, a.tree(), b.tree()),
{
    let r = node(
        ExprKind::BinaryApp { op, arg1: Arc::new(a.dup()), arg2: Arc::new(b.dup()) },
    );
    assert(r.tree().kids =~= Tree::binary(op, a.tree(), b.tree()).kids);
    r
}

/// Whether `e` is a set literal.
fn is_set(e: &Expr<()>) -> (r: bool)
    ensures
        r == (e.tree().op == Op::SetLit),
{
    match &e.kind {
        ExprKind::SetLit(_) => true,
        _ => false,
    }
}

/// Whether `a` and `b` are record literals with the same keys.
fn same_keys(a: &Expr<()>, b: &Expr<()>) -> (r: bool)
    ensures
        r == (a.tree().op is Record && a.tree().op == b.tree().op && a.tree().kids.len()
            == b.tree().kids.len()),
{
    match (&a.kind, &b.kind) {
        (ExprKind::Record(x), ExprKind::Record(y)) => {
            let ghost ka = Seq::new(x@.len(), |i: int| x@[i].0@);
            let ghost kb = Seq::new(y@.len(), |i: int| y@[i].0@);
            assert(a.tree().op == Op::Record(ka));
            assert(b.tree().op == Op::Record(kb));
            if x.len() != y.len() {
                assert(ka.len() != kb.len());
                return false;
            }
            let mut i: usize = 0;
            while i < x.len()
                invariant
                    i <= x@.len(),
                    x@.len() == y@.len(),
                    a.tree().op == Op::Record(ka),
                    b.tree().op == Op::Record(kb),
                    ka == Seq::new(x@.len(), |i: int| x@[i].0@),
                    kb == Seq::new(y@.len(), |i: int| y@[i].0@),
                    forall|j: int| 0 <= j < i ==> ka[j] == kb[j],
                decreases x@.len() - i,
            {
                if x[i].0 != y[i].0 {
                    assert(ka[i as int] != kb[i as int]);
                    return false;
                }
                i += 1;
            }
            assert(ka =~= kb);
            true
        },
        _ => false,
    }
}

/// `a == b`, rewritten when both are record literals with the same keys or
/// one is a set literal: `{..} == {..}` is the conjunction of the per-key
/// value equalities, and an equality with a set is
/// `a.containsAll(b) && b.containsAll(a)`.
fn eq(a: &Expr<()>, b: &Expr<()>) -> (r: Expr<()>)
    ensures
        r.tree() == Tree::elim_eq(a.tree(), b.tree()),
    decreases a.tree().size() + b.tree().size(), 2nat,
{
    if same_keys(a, b) {
        let n = a.kid_count();
        let mut terms: Vec<Expr<()>> = Vec::new();
        let mut i: usize = 0;
        while i < n
            invariant
                i <= n,
                n == a.kids().len(),
                n == b.kids().len(),
                crate::ast::trees(terms@) =~= Tree::elim_eqs(
                    a.tree().kids.take(i as int),
                    b.tree().kids.take(i as int),
                ),
            decreases n - i,
        {
            let ghost before = crate::ast::trees(terms@);
            proof {
                Tree::lemma_kid_size(a.tree().kids, i as int);
                Tree::lemma_kid_size(b.tree().kids, i as int);
            }
            assert(a.tree().kids.take(i + 1).drop_last() =~= a.tree().kids.take(i as int));
            assert(b.tree().kids.take(i + 1).drop_last() =~= b.tree().kids.take(i as int));
            let t = eq(a.kid(i), b.kid(i));
            terms.push(t);
            assert(crate::ast::trees(terms@) =~= before.push(t.tree()));
            i += 1;
        }
        assert(a.tree().kids.take(n as int) =~= a.tree().kids);
        assert(b.tree().kids.take(n as int) =~= b.tree().kids);
        and_chain(&terms)
    } else if is_set(a) || is_set(b) {
        and(contains_all(a, b), contains_all(b, a))
    } else {
        binary(BinaryOp::Eq, a, b)
    }
}

/// `s.containsAll(t)`, rewritten when `t` is a set literal.
fn contains_all(s: &Expr<()>, t: &Expr<()>) -> (r: Expr<()>)
    ensures
        r.tree() == Tree::elim_contains_all(s.tree(), t.tree()),
    decreases s.tree().size() + t.tree().size(), 1nat,
{
    if is_set(t) {
        and_chain(&contains_each(s, t))
    } else {
        binary(BinaryOp::ContainsAll, s, t)
    }
}

/// `s.contains(x)` for each child `x` of `t`.
fn contains_each(s: &Expr<()>, t: &Expr<()>) -> (r: Vec<Expr<()>>)
    ensures
        crate::ast::trees(r@) == Tree::elim_contains_each(s.tree(), t.tree().kids),
    decreases s.tree().size() + t.tree().size(), 0nat,
{
    let n = t.kid_count();
    let mut terms: Vec<Expr<()>> = Vec::new();
    let mut i: usize = 0;
    while i < n
        invariant
            i <= n,
            n == t.kids().len(),
            crate::ast::trees(terms@) =~= Tree::elim_contains_each(
                s.tree(),
                t.tree().kids.take(i as int),
            ),
        decreases n - i,
    {
        let ghost before = crate::ast::trees(terms@);
        proof {
            Tree::lemma_kid_size(t.tree().kids, i as int);
        }
        assert(t.tree().kids.take(i + 1).drop_last() =~= t.tree().kids.take(i as int));
        let c = contains(s, t.kid(i));
        terms.push(c);
        assert(crate::ast::trees(terms@) =~= before.push(c.tree()));
        i += 1;
    }
    assert(t.tree().kids.take(n as int) =~= t.tree().kids);
    terms
}

/// `s.contains(x)`, rewritten when `s` is a set literal:
/// `[l1, .., ln].contains(x)` is `l1 == x || .. || ln == x`.
fn contains(s: &Expr<()>, x: &Expr<()>) -> (r: Expr<()>)
    ensures
        r.tree() == Tree::elim_contains(s.tree(), x.tree()),
    decreases s.tree().size() + x.tree().size(), 1nat,
{
    if is_set(s) {
        let n = s.kid_count();
        let mut terms: Vec<Expr<()>> = Vec::new();
        let mut i: usize = 0;
        while i < n
            invariant
                i <= n,
                n == s.kids().len(),
                crate::ast::trees(terms@) =~= Tree::elim_eq_each(
                    s.tree().kids.take(i as int),
                    x.tree(),
                ),
            decreases n - i,
        {
            let ghost before = crate::ast::trees(terms@);
            proof {
                Tree::lemma_kid_size(s.tree().kids, i as int);
            }
            assert(s.tree().kids.take(i + 1).drop_last() =~= s.tree().kids.take(i as int));
            let c = eq(s.kid(i), x);
            terms.push(c);
            assert(crate::ast::trees(terms@) =~= before.push(c.tree()));
            i += 1;
        }
        assert(s.tree().kids.take(n as int) =~= s.tree().kids);
        or_chain(&terms)
    } else {
        binary(BinaryOp::Contains, s, x)
    }
}

/// `e in x1 || ..` for the elements `x` of the set literal `t`.
fn in_any(e: &Expr<()>, t: &Expr<()>) -> (r: Expr<()>)
    ensures
        r.tree() == Tree::or_chain(
            t.tree().kids.map_values(|x: Tree| Tree::binary(BinaryOp::In, e.tree(), x)),
        ),
{
    let n = t.kid_count();
    let ghost all = t.tree().kids.map_values(|x: Tree| Tree::binary(BinaryOp::In, e.tree(), x));
    let mut terms: Vec<Expr<()>> = Vec::new();
    let mut i: usize = 0;
    while i < n
        invariant
            i <= n,
            n == t.kids().len(),
            all == t.tree().kids.map_values(|x: Tree| Tree::binary(BinaryOp::In, e.tree(), x)),
            crate::ast::trees(terms@) =~= all.take(i as int),
        decreases n - i,
    {
        let ghost before = crate::ast::trees(terms@);
        let c = binary(BinaryOp::In, e, t.kid(i));
        terms.push(c);
        assert(crate::ast::trees(terms@) =~= before.push(c.tree()));
        i += 1;
    }
    assert(all.take(n as int) =~= all);
    or_chain(&terms)
}

/// The position of the first field named `attr`.
fn field_index(fields: &Vec<(String, Expr<()>)>, attr: &String) -> (r: Option<usize>)
    ensures
        match r {
            Some(i) => i < fields@.len() && Tree::key_index(
                Seq::new(fields@.len(), |i: int| fields@[i].0@),
                attr@,
            ) == Some(i as int),
            None => Tree::key_index(
                Seq::new(fields@.len(), |i: int| fields@[i].0@),
                attr@,
            ) is None,
        },
{
    let ghost keys = Seq::new(fields@.len(), |i: int| fields@[i].0@);
    let mut i: usize = 0;
    assert(keys.skip(0) =~= keys);
    while i < fields.len()
        invariant
            i <= fields@.len(),
            keys == Seq::new(fields@.len(), |i: int| fields@[i].0@),
            Tree::key_index(keys, attr@) == (match Tree::key_index(keys.skip(i as int), attr@) {
                Some(j) => Some(j + i),
                None => None,
            }),
        decreases fields@.len() - i,
    {
        assert(keys.skip(i as int)[0] == fields@[i as int].0@);
        assert(keys.skip(i as int).drop_first() =~= keys.skip(i + 1));
        if fields[i].0 == *attr {
            return Some(i);
        }
        i += 1;
    }
    None
}

/// The rule for a node whose children are already rewritten, if one applies.
fn rewrite(e: &Expr<()>) -> (r: Option<Expr<()>>)
    ensures
        match r {
            Some(x) => e.tree().rewrite() == Some(x.tree()),
            None => e.tree().rewrite() is None,
        },
{
    match &e.kind {
        ExprKind::GetAttr { expr, attr } => {
            assert(e.tree().kids[0] == expr.tree());
            match &expr.kind {
                ExprKind::Record(fields) => match field_index(fields, attr) {
                    Some(i) => {
                        assert(expr.tree().kids[i as int] == fields@[i as int].1.tree());
                        Some(fields[i].1.dup())
                    },
                    None => None,
                },
                _ => None,
            }
        },
        ExprKind::HasAttr { expr, attr } => {
            assert(e.tree().kids[0] == expr.tree());
            match &expr.kind {
                ExprKind::Record(fields) => Some(bool_lit(field_index(fields, attr).is_some())),
                _ => None,
            }
        },
        ExprKind::UnaryApp { op: UnaryOp::IsEmpty, arg } => {
            assert(e.tree().kids[0] == arg.tree());
            match &arg.kind {
                ExprKind::SetLit(elems) => Some(bool_lit(elems.len() == 0)),
                _ => None,
            }
        },
        ExprKind::BinaryApp { op, arg1, arg2 } => {
            assert(e.tree().kids[0] == arg1.tree());
            assert(e.tree().kids[1] == arg2.tree());
            match op {
                BinaryOp::Eq => if same_keys(arg1, arg2) || is_set(arg1) || is_set(arg2) {
                    Some(eq(arg1, arg2))
                } else {
                    None
                },
                BinaryOp::Contains => if is_set(arg1) {
                    Some(contains(arg1, arg2))
                } else {
                    None
                },
                BinaryOp::ContainsAll => if is_set(arg2) {
                    Some(contains_all(arg1, arg2))
                } else {
                    None
                },
                BinaryOp::ContainsAny => if is_set(arg2) {
                    Some(or_chain(&contains_each(arg1, arg2)))
                } else if is_set(arg1) {
                    Some(or_chain(&contains_each(arg2, arg1)))
                } else {
                    None
                },
                BinaryOp::In => if is_set(arg2) {
                    Some(in_any(arg1, arg2))
                } else {
                    None
                },
                _ => None,
            }
        },
        _ => None,
    }
}

/// The result of [`elim`]: the node itself when nothing inside was rewritten
/// (a leaf region), else the guards, which are the subterms the original
/// evaluates before the rewritten term would, in evaluation order, and the
/// rewritten term.
enum Elim {
    Same(Expr<()>),
    Changed { guards: Vec<Expr<()>>, term: Expr<()> },
}

impl Elim {
    /// What was eliminated.
    spec fn is(self, e: Elimd) -> bool {
        match self {
            Elim::Same(term) => {
                &&& !e.changed
                &&& term.tree() == e.term
                &&& e.guards == e.term.fold().guards()
            },
            Elim::Changed { guards, term } => {
                &&& e.changed
                &&& crate::ast::trees(guards@) == e.guards
                &&& term.tree() == e.term
            },
        }
    }
}

/// Eliminates inside `e`; see [`Elim`].
fn elim(e: &Expr<()>) -> (r: Elim)
    ensures
        r.is(e.tree().elim()),
    decreases e,
{
    if is_iferror_call(e) || is_offender(e) {
        return Elim::Same(e.dup());
    }
    let n = e.kid_count();
    let mut any_changed = false;
    let mut guards: Vec<Expr<()>> = Vec::new();
    let mut terms: Vec<Expr<()>> = Vec::new();
    let mut i: usize = 0;
    assert(e.tree().kids.take(0) =~= seq![]);
    while i < n
        invariant
            i <= n,
            n == e.kids().len(),
            terms@.len() == i,
            Tree::elim_all(e.tree().kids.take(i as int)).0 == any_changed,
            crate::ast::trees(guards@) =~= Tree::elim_all(e.tree().kids.take(i as int)).1,
            crate::ast::trees(terms@) =~= Tree::elim_all(e.tree().kids.take(i as int)).2,
        decreases n - i,
    {
        let ghost done = crate::ast::trees(terms@);
        assert(e.tree().kids.take(i + 1).drop_last() =~= e.tree().kids.take(i as int));
        match elim(e.kid(i)) {
            Elim::Changed { guards: g, term } => {
                any_changed = true;
                guards = extend(&guards, &g);
                terms.push(term);
                assert(crate::ast::trees(terms@) =~= done.push(term.tree()));
            },
            Elim::Same(term) => {
                add_guards(&erase_and_fold(&term), &mut guards);
                terms.push(term);
                assert(crate::ast::trees(terms@) =~= done.push(term.tree()));
            },
        }
        i += 1;
    }
    assert(e.tree().kids.take(n as int) =~= e.tree().kids);
    let rebuilt = rebuild(e, terms, ());
    if let Some(term) = rewrite(&rebuilt) {
        return Elim::Changed { guards, term };
    }
    if !any_changed {
        return Elim::Same(rebuilt);
    }
    // An unrewritten node above a rewritten one: its own error must precede
    // its right siblings', unless it cannot err once its children have.
    let ghost before = crate::ast::trees(guards@);
    if !never_errs_itself(&rebuilt) {
        guards.push(rebuilt.dup());
        assert(crate::ast::trees(guards@) =~= before.push(rebuilt.tree()));
    }
    Elim::Changed { guards, term: rebuilt }
}

/// Appends to `out` the subterms of `e` that can err, in evaluation order and
/// at the granularity of guards (a node that can err is a unit; one that
/// never errs by itself contributes its children's, in order), as far as
/// evaluation is certain to proceed: the test or left operand of an
/// `if`/`&&`/`||` only, after which the list is *incomplete* (`false`); a
/// strict parent lists nothing past an incomplete child.
fn eval_list(e: &Expr<()>, out: &mut Vec<Expr<()>>) -> (complete: bool)
    ensures
        crate::ast::trees(final(out)@) == crate::ast::trees(old(out)@) + e.tree().eval_list().0,
        complete == e.tree().eval_list().1,
    decreases e,
{
    let ghost start = crate::ast::trees(out@);
    match &e.kind {
        ExprKind::If { .. } | ExprKind::And { .. } | ExprKind::Or { .. } => {
            eval_list(e.kid(0), out);
            false
        },
        _ => {
            if never_errs_itself(e) {
                let n = e.kid_count();
                let mut complete = true;
                let mut i: usize = 0;
                assert(e.tree().kids.take(0) =~= seq![]);
                assert(start + Tree::eval_lists(e.tree().kids.take(0)).0 =~= start);
                while i < n
                    invariant
                        i <= n,
                        n == e.kids().len(),
                        crate::ast::trees(out@) =~= start + Tree::eval_lists(
                            e.tree().kids.take(i as int),
                        ).0,
                        complete == Tree::eval_lists(e.tree().kids.take(i as int)).1,
                    decreases n - i,
                {
                    assert(e.tree().kids.take(i + 1).drop_last() =~= e.tree().kids.take(
                        i as int,
                    ));
                    if complete {
                        complete = eval_list(e.kid(i), out);
                    }
                    i += 1;
                }
                assert(e.tree().kids.take(n as int) =~= e.tree().kids);
                complete
            } else {
                out.push(e.dup());
                assert(crate::ast::trees(out@) =~= start + seq![e.tree()]);
                true
            }
        },
    }
}

/// Whether the elements of `guards` from `k` on are the start of `order`.
fn repeats(guards: &Vec<Expr<()>>, k: usize, order: &Vec<Expr<()>>) -> (r: bool)
    requires
        k <= guards@.len(),
    ensures
        r == Tree::starts(
            crate::ast::trees(guards@).skip(k as int),
            crate::ast::trees(order@),
        ),
{
    let ghost a = crate::ast::trees(guards@).skip(k as int);
    let ghost b = crate::ast::trees(order@);
    let end = guards.len();
    let n = end - k;
    if n > order.len() {
        return false;
    }
    let mut i: usize = 0;
    while i < n
        invariant
            i <= n,
            end == guards@.len(),
            n == end - k,
            k <= end,
            n <= order@.len(),
            a == crate::ast::trees(guards@).skip(k as int),
            b == crate::ast::trees(order@),
            forall|j: int| 0 <= j < i ==> a[j] == b[j],
        decreases n - i,
    {
        assert(a[i as int] == guards@[k + i].tree());
        assert(b[i as int] == order@[i as int].tree());
        if guards[k + i] != order[i] {
            assert(b.take(a.len() as int)[i as int] != a[i as int]);
            return false;
        }
        i += 1;
    }
    assert(b.take(a.len() as int) =~= a);
    true
}

/// Drops the guards that `term` evaluates itself, first and in the same
/// order: the longest suffix of `guards` that is a prefix of [`eval_list`]
/// of `term`. Under those guards `term` evaluates exactly like on its own: an
/// erring guard is the first erring subterm of `term`, with the same error.
fn drop_repeated(guards: Vec<Expr<()>>, term: &Expr<()>) -> (r: Vec<Expr<()>>)
    ensures
        crate::ast::trees(r@) == Tree::drop_repeated(crate::ast::trees(guards@), term.tree()),
{
    let mut order: Vec<Expr<()>> = Vec::new();
    eval_list(term, &mut order);
    let ghost all = crate::ast::trees(guards@);
    let ghost list = term.tree().eval_list().0;
    assert(crate::ast::trees(order@) =~= list);
    let mut keep: usize = 0;
    while keep < guards.len() && !repeats(&guards, keep, &order)
        invariant
            keep <= guards@.len(),
            all == crate::ast::trees(guards@),
            list == crate::ast::trees(order@),
            Tree::repeated_from(all, list, 0) == Tree::repeated_from(all, list, keep as int),
        decreases guards@.len() - keep,
    {
        keep += 1;
    }
    let mut guards = guards;
    guards.truncate(keep);
    assert(crate::ast::trees(guards@) =~= all.take(keep as int));
    guards
}

/// What [`elim_structure`] returns, and what it leaves of the budget.
spec fn elim_is(
    r: Result<(Expr<()>, bool), DnfError>,
    before: Budget,
    after: Budget,
    s: Option<(Tree, bool, int)>,
) -> bool {
    &&& after.limit == before.limit
    &&& match s {
        Some((t, changed, rest)) => {
            &&& r matches Ok(x) && x.0.tree() == t && x.1 == changed
            &&& after.remaining == rest
        },
        None => r matches Err(e) && e == Budget::exceeded_spec(before.limit),
    }
}

/// Recurses through the `&&`/`||`/`!`/`if` structure and eliminates in every
/// atom; reports whether any atom was rewritten. `ctx` holds the subterms
/// known to have evaluated here, which a rewritten atom's guards need not
/// repeat.
fn elim_structure(expr: &Expr<()>, ctx: &Vec<Expr<()>>, budget: &mut Budget) -> (r: Result<
    (Expr<()>, bool),
    DnfError,
>)
    ensures
        elim_is(
            r,
            *old(budget),
            *final(budget),
            expr.tree().elim_structure(crate::ast::trees(ctx@), old(budget).remaining as int),
        ),
    decreases expr,
{
    match &expr.kind {
        ExprKind::Lit(Prim::Bool(b)) => Ok((bool_lit(*b), false)),
        ExprKind::And { left, right } => {
            assert(expr.tree().kids[0] == left.tree());
            assert(expr.tree().kids[1] == right.tree());
            let inner = extend(ctx, &learn_true(left));
            let (l, cl) = elim_structure(left, ctx, budget)?;
            let (r, cr) = elim_structure(right, &inner, budget)?;
            Ok((and(l, r), cl || cr))
        },
        ExprKind::Or { left, right } => {
            assert(expr.tree().kids[0] == left.tree());
            assert(expr.tree().kids[1] == right.tree());
            let inner = extend(ctx, &learn_false(left));
            let (l, cl) = elim_structure(left, ctx, budget)?;
            let (r, cr) = elim_structure(right, &inner, budget)?;
            Ok((or(l, r), cl || cr))
        },
        ExprKind::UnaryApp { op: UnaryOp::Not, arg } => {
            assert(expr.tree().kids[0] == arg.tree());
            let (a, ca) = elim_structure(arg, ctx, budget)?;
            Ok((not(a), ca))
        },
        ExprKind::If { test_expr, then_expr, else_expr } => {
            assert(expr.tree().kids[0] == test_expr.tree());
            assert(expr.tree().kids[1] == then_expr.tree());
            assert(expr.tree().kids[2] == else_expr.tree());
            let inner_then = extend(ctx, &learn_true(test_expr));
            let inner_else = extend(ctx, &learn_false(test_expr));
            let (c, cc) = elim_structure(test_expr, ctx, budget)?;
            let (t, ct) = elim_structure(then_expr, &inner_then, budget)?;
            let (e, ce) = elim_structure(else_expr, &inner_else, budget)?;
            Ok((ite(c, t, e), cc || ct || ce))
        },
        _ => elim_atom(expr, ctx, budget),
    }
}

/// [`elim_structure`] for an atom.
fn elim_atom(expr: &Expr<()>, ctx: &Vec<Expr<()>>, budget: &mut Budget) -> (r: Result<
    (Expr<()>, bool),
    DnfError,
>)
    ensures
        elim_is(
            r,
            *old(budget),
            *final(budget),
            expr.tree().elim_atom(crate::ast::trees(ctx@), old(budget).remaining as int),
        ),
{
    reveal(Tree::elim_atom);
    match elim(expr) {
        Elim::Same(term) => Ok((term, false)),
        Elim::Changed { guards, term } => {
            // dedupe first: a guard listed twice would otherwise hide the
            // term's own evaluation of it
            let guards = drop_repeated(new_guards(ctx, &guards), &term);
            let wrapped = guard(&guards, term);
            budget.charge(&wrapped)?;
            Ok((wrapped, true))
        },
    }
}

/// Eliminates the literals of the atoms of `expr`, which the caller has
/// checked to be well typed.
pub(super) fn eliminate_unchecked(expr: &Expr<()>, max_nodes: usize) -> (r: Result<
    (Expr<()>, bool),
    DnfError,
>)
    ensures
        match r {
            Ok(x) => expr.tree().elim_structure(seq![], max_nodes as int) matches Some((t, c, _))
                && x.0.tree() == t && x.1 == c,
            Err(e) => expr.tree().elim_structure(seq![], max_nodes as int) is None && e
                == Budget::exceeded_spec(max_nodes),
        },
{
    let ctx: Vec<Expr<()>> = Vec::new();
    assert(crate::ast::trees(ctx@) =~= seq![]);
    let mut budget = Budget::new(max_nodes);
    elim_structure(expr, &ctx, &mut budget)
}

/// `r` is the expression, or the error, that `s` is.
pub open spec fn result_is(r: Result<Expr<()>, DnfError>, s: Result<Tree, DnfError>) -> bool {
    match s {
        Ok(t) => r matches Ok(x) && x.tree() == t,
        Err(e) => r == Err::<Expr<()>, DnfError>(e),
    }
}

/// [`normalize_atoms`] for an input the caller has already checked to be
/// well typed (a validated policy's condition).
pub(super) fn normalize_unchecked<T>(expr: &Expr<T>, max_nodes: usize) -> (r: Result<
    Expr<()>,
    DnfError,
>)
    ensures
        result_is(r, expr.tree().normalized(max_nodes)),
{
    let split = split_atoms(expr, max_nodes)?;
    let (eliminated, changed) = eliminate_unchecked(&split, max_nodes)?;
    if !changed {
        // Nothing to hoist: the second split would return its input.
        return Ok(split);
    }
    split_atoms(&eliminated, max_nodes)
}

/// The error for an expression that does not typecheck.
fn typecheck_error(e: EvaluationError) -> (r: DnfError)
    ensures
        r == typecheck_error_spec(e),
{
    match e {
        EvaluationError::NotWellTyped { errs } => DnfError::NotWellTyped { errs },
        EvaluationError::RequestEnvNotFound(env) => DnfError::RequestEnvNotFound(env),
        other => DnfError::Typecheck(other),
    }
}

/// The error for an expression that does not typecheck.
pub open spec fn typecheck_error_spec(e: EvaluationError) -> DnfError {
    match e {
        EvaluationError::NotWellTyped { errs } => DnfError::NotWellTyped { errs },
        EvaluationError::RequestEnvNotFound(env) => DnfError::RequestEnvNotFound(env),
        other => DnfError::Typecheck(other),
    }
}

/// Rewrites the boolean expression `expr` so that no atom contains a record
/// literal under `.attr` or `has`, two under `==`, a set literal as the
/// left operand of `contains` or `containsAny`, the right operand of
/// `containsAll`, `containsAny` or `in`, either side of `==`, or under
/// `isEmpty`, preserving evaluation exactly, the same value or the same error,
/// on every input on which `expr` is well typed.
///
/// `expr` is typechecked first, in the request environment `env` of `schema`
/// whose typechecker is `check`: an expression that is not well typed is
/// refused. The rules assume that much: `in` over a set type-checks *every*
/// element before answering while the disjunction stops at the first match,
/// `s.containsAll([])` is `true` only for a set-typed `s`, and `s == [l..]`
/// is `false`, not an error, for a non-set `s`.
///
/// The pass is exact on any input, but *complete* only on split input, where
/// no `&&`/`||`/`!`/`if` node hides a literal. The rules duplicate one operand
/// per element; `max_nodes` bounds the tree size of the rewritten atoms, and
/// exhausting it fails with [`DnfError::TooLarge`].
pub fn eliminate_aggregates<K: Fn(&Policy, &RequestEnv) -> Checked>(
    expr: &Expr<()>,
    schema: &Schema,
    env: &RequestEnv,
    check: &K,
    max_nodes: usize,
) -> (r: Result<Expr<()>, DnfError>)
    requires
        forall|p: Policy, e: RequestEnv| call_requires(check, (&p, &e)),
    ensures
        exists|t: Result<Arc<Expr<Option<Type>>>, EvaluationError>| #[trigger]
            crate::evaluator::compile::typecheck_gives(expr, env, schema, check, t) && match t {
                Err(e) => r == Err::<Expr<()>, DnfError>(typecheck_error_spec(e)),
                Ok(_) => if !expr.tree().fits(MAX_NESTING as nat) {
                    r == Err::<Expr<()>, DnfError>(DnfError::RecursionLimit)
                } else {
                    match expr.tree().elim_structure(seq![], max_nodes as int) {
                        Some((t, _, _)) => r matches Ok(x) && x.tree() == t,
                        None => r == Err::<Expr<()>, DnfError>(
                            DnfError::TooLarge { limit: max_nodes, what: "atom nodes" },
                        ),
                    }
                },
            },
{
    let t = typecheck(expr, env, schema, check);
    assert(crate::evaluator::compile::typecheck_gives(expr, env, schema, check, t));
    match t {
        Err(e) => Err(typecheck_error(e)),
        Ok(_) => {
            if !fits(expr, MAX_NESTING) {
                return Err(DnfError::RecursionLimit);
            }
            let (eliminated, _changed) = eliminate_unchecked(expr, max_nodes)?;
            Ok(eliminated)
        },
    }
}

/// The pipeline `split_atoms`, [`eliminate_aggregates`], `split_atoms`:
/// every atom of the result is clean (no `&&`/`||`/`!`/`if` outside an
/// `iferror` call), and the result evaluates exactly like `expr` on every
/// input. `expr` must be well typed in the request environment `env` of
/// `schema`, whose typechecker is `check`; `max_nodes` is each pass's budget.
pub fn normalize_atoms<K: Fn(&Policy, &RequestEnv) -> Checked>(
    expr: &Expr<()>,
    schema: &Schema,
    env: &RequestEnv,
    check: &K,
    max_nodes: usize,
) -> (r: Result<Expr<()>, DnfError>)
    requires
        forall|p: Policy, e: RequestEnv| call_requires(check, (&p, &e)),
    ensures
        exists|t: Result<Arc<Expr<Option<Type>>>, EvaluationError>| #[trigger]
            crate::evaluator::compile::typecheck_gives(expr, env, schema, check, t) && match t {
                Err(e) => r == Err::<Expr<()>, DnfError>(typecheck_error_spec(e)),
                Ok(_) => result_is(r, expr.tree().normalized(max_nodes)),
            },
{
    let t = typecheck(expr, env, schema, check);
    assert(crate::evaluator::compile::typecheck_gives(expr, env, schema, check, t));
    match t {
        Err(e) => Err(typecheck_error(e)),
        Ok(_) => normalize_unchecked(expr, max_nodes),
    }
}

} // verus!
