//! Splitting preserves evaluation, and leaves no boolean structure inside
//! atoms.

use vstd::prelude::*;

use crate::ast::{BinaryOp, Expr, UnaryOp};
use crate::model::{Value, World};
use crate::tree::{Op, Tree};

verus! {

impl Value {
    /// `==` is reflexive.
    pub proof fn lemma_same_refl(self)
        ensures
            self.same(self),
        decreases self,
    {
        match self {
            Value::SetOf(a) => {
                assert forall|i: int| 0 <= i < a.len() implies (#[trigger] a[i]).has_equal(a)
                    && a[i].among(a) by {
                    a[i].lemma_same_refl();
                }
            },
            Value::RecordOf(a) => {
                assert forall|i: int| 0 <= i < a.len() implies (#[trigger] a[i]).1.same(a[i].1) by {
                    assert(decreases_to!(a => a[i]));
                    assert(decreases_to!(a[i] => a[i].1));
                    a[i].1.lemma_same_refl();
                }
            },
            _ => {},
        }
    }
}

impl<T> Expr<T> {
    /// Every node of an expression has as many children as it takes.
    pub proof fn lemma_tree_shaped(&self)
        ensures
            self.tree().shaped(),
        decreases self,
    {
        let t = self.tree();
        assert forall|i: int| 0 <= i < t.kids.len() implies (#[trigger] t.kids[i]).shaped() by {
            self.lemma_kid_decreases(i);
            self.kids()[i].lemma_tree_shaped();
            assert(t.kids[i] == self.kids()[i].tree());
        }
        assert(t.op.takes(t.kids.len()));
    }
}

/// The error of `r`, if it is one.
pub open spec fn err_of<A>(r: Result<A, int>) -> Option<int> {
    match r {
        Ok(_) => None,
        Err(e) => Some(e),
    }
}

impl Tree {
    /// The error of the first of `ts` that errs.
    pub open spec fn first_err(ts: Seq<Tree>, w: World) -> Option<int>
        decreases ts.len(),
    {
        if ts.len() == 0 {
            None
        } else {
            match Tree::first_err(ts.drop_last(), w) {
                Some(e) => Some(e),
                None => err_of(ts.last().eval(w)),
            }
        }
    }

    /// All of `ts` evaluate.
    pub open spec fn all_ok(ts: Seq<Tree>, w: World) -> bool {
        forall|i: int| 0 <= i < ts.len() ==> (#[trigger] ts[i]).eval(w) is Ok
    }

    pub proof fn lemma_first_err_append(a: Seq<Tree>, b: Seq<Tree>, w: World)
        ensures
            Tree::first_err(a + b, w) == (match Tree::first_err(a, w) {
                Some(e) => Some(e),
                None => Tree::first_err(b, w),
            }),
        decreases b.len(),
    {
        if b.len() == 0 {
            assert(a + b =~= a);
        } else {
            assert((a + b).drop_last() =~= a + b.drop_last());
            Tree::lemma_first_err_append(a, b.drop_last(), w);
        }
    }

    pub proof fn lemma_first_err_none(ts: Seq<Tree>, w: World)
        ensures
            (Tree::first_err(ts, w) is None) == Tree::all_ok(ts, w),
        decreases ts.len(),
    {
        if ts.len() > 0 {
            let front = ts.drop_last();
            Tree::lemma_first_err_none(front, w);
            if Tree::all_ok(ts, w) {
                assert forall|i: int| 0 <= i < front.len() implies (#[trigger] front[i]).eval(
                    w,
                ) is Ok by {
                    assert(ts[i] == front[i]);
                }
                assert(ts[ts.len() - 1].eval(w) is Ok);
            }
            if Tree::first_err(ts, w) is None {
                assert forall|i: int| 0 <= i < ts.len() implies (#[trigger] ts[i]).eval(
                    w,
                ) is Ok by {
                    if i < front.len() {
                        assert(front[i] == ts[i]);
                    }
                }
            }
        }
    }

    /// The values of all of `ts` are their values one by one.
    pub proof fn lemma_eval_all_ok(ts: Seq<Tree>, w: World)
        ensures
            Tree::eval_all(ts, w) matches Ok(vs) ==> vs.len() == ts.len() && forall|i: int|
                0 <= i < ts.len() ==> (#[trigger] ts[i]).eval(w) == Ok::<Value, int>(vs[i]),
            Tree::all_ok(ts, w) == (Tree::eval_all(ts, w) is Ok),
            err_of(Tree::eval_all(ts, w)) == Tree::first_err(ts, w),
        decreases ts.len(),
    {
        if ts.len() > 0 {
            let front = ts.drop_last();
            Tree::lemma_eval_all_ok(front, w);
            if let Ok(vs) = Tree::eval_all(ts, w) {
                assert forall|i: int| 0 <= i < ts.len() implies (#[trigger] ts[i]).eval(w) == Ok::<
                    Value,
                    int,
                >(vs[i]) by {
                    if i < front.len() {
                        assert(front[i] == ts[i]);
                    }
                }
            }
        }
        Tree::lemma_first_err_none(ts, w);
    }

    /// What is evaluated first decides which error comes first.
    pub proof fn lemma_eval_all_prefix(ts: Seq<Tree>, n: int, w: World)
        requires
            0 <= n <= ts.len(),
        ensures
            Tree::eval_all(ts.take(n), w) matches Err(e) ==> Tree::eval_all(ts, w) == Err::<
                Seq<Value>,
                int,
            >(e),
            n < ts.len() && Tree::eval_all(ts.take(n), w) is Ok ==> (ts[n].eval(w) matches Err(e)
                ==> Tree::eval_all(ts, w) == Err::<Seq<Value>, int>(e)),
        decreases ts.len(),
    {
        if n == ts.len() {
            assert(ts.take(n) =~= ts);
        } else if n == ts.len() - 1 {
            assert(ts.take(n) =~= ts.drop_last());
        } else {
            let front = ts.drop_last();
            Tree::lemma_eval_all_prefix(front, n, w);
            assert(front.take(n) =~= ts.take(n));
        }
    }

    /// Trees that evaluate alike one by one evaluate alike together.
    pub proof fn lemma_eval_all_congr(a: Seq<Tree>, b: Seq<Tree>, w: World)
        requires
            a.len() == b.len(),
            forall|i: int| 0 <= i < a.len() ==> (#[trigger] a[i]).eval(w) == b[i].eval(w),
        ensures
            Tree::eval_all(a, w) == Tree::eval_all(b, w),
        decreases a.len(),
    {
        if a.len() > 0 {
            assert forall|i: int| 0 <= i < a.drop_last().len() implies (
            #[trigger] a.drop_last()[i]).eval(w) == b.drop_last()[i].eval(w) by {
                assert(a[i].eval(w) == b[i].eval(w));
            }
            Tree::lemma_eval_all_congr(a.drop_last(), b.drop_last(), w);
            assert(a[a.len() - 1].eval(w) == b[a.len() - 1].eval(w));
        }
    }

    /// The value of a node depends on its operator and the values of its
    /// children alone.
    pub proof fn lemma_eval_congr(a: Tree, b: Tree, w: World)
        requires
            a.op == b.op,
            a.kids.len() == b.kids.len(),
            forall|i: int|
                0 <= i < a.kids.len() ==> (#[trigger] a.kids[i]).eval(w) == b.kids[i].eval(w),
        ensures
            a.eval(w) == b.eval(w),
    {
        Tree::lemma_eval_all_congr(a.kids, b.kids, w);
        if a.kids.len() > 0 {
            assert(a.kids[0].eval(w) == b.kids[0].eval(w));
        }
        if a.kids.len() > 1 {
            assert(a.kids[1].eval(w) == b.kids[1].eval(w));
        }
        if a.kids.len() > 2 {
            assert(a.kids[2].eval(w) == b.kids[2].eval(w));
        }
    }

    /// A strict node evaluates all its children.
    pub proof fn lemma_eval_strict(self, w: World)
        requires
            self.wf(),
            !self.op.is_offender(),
            !self.is_iferror(),
        ensures
            self.op is Lit || self.op is Var ==> self.eval(w) is Ok && Tree::eval_all(
                self.kids,
                w,
            ) is Ok,
            !(self.op is Lit || self.op is Var) ==> self.eval(w) == (match Tree::eval_all(
                self.kids,
                w,
            ) {
                Ok(vs) => w.apply(self.op, vs),
                Err(e) => Err(e),
            }),
            Tree::eval_all(self.kids, w) matches Err(e) ==> self.eval(w) == Err::<Value, int>(e),
    {
        if self.op is Lit || self.op is Var {
            assert(self.kids.len() == 0);
        }
    }

    pub proof fn lemma_fold_all(ts: Seq<Tree>, i: int)
        requires
            0 <= i < ts.len(),
        ensures
            Tree::fold_all(ts).len() == ts.len(),
            Tree::fold_all(ts)[i] == ts[i].fold(),
        decreases ts.len(),
    {
        Tree::lemma_fold_all_len(ts);
        if i < ts.len() - 1 {
            Tree::lemma_fold_all_len(ts.drop_last());
            Tree::lemma_fold_all(ts.drop_last(), i);
        } else {
            Tree::lemma_fold_all_len(ts.drop_last());
        }
    }

    pub proof fn lemma_fold_all_len(ts: Seq<Tree>)
        ensures
            Tree::fold_all(ts).len() == ts.len(),
        decreases ts.len(),
    {
        if ts.len() > 0 {
            Tree::lemma_fold_all_len(ts.drop_last());
        }
    }

    /// Folding keeps the number of children right.
    pub proof fn lemma_fold_wf(self)
        requires
            self.wf(),
        ensures
            self.fold().wf(),
        decreases self,
    {
        Tree::lemma_fold_all_len(self.kids);
        let kids = Tree::fold_all(self.kids);
        assert forall|i: int| 0 <= i < kids.len() implies (#[trigger] kids[i]).wf() by {
            Tree::lemma_fold_all(self.kids, i);
            assert(self.kids[i].wf());
            self.kids[i].lemma_fold_wf();
        }
    }

    /// Folding preserves evaluation.
    pub proof fn lemma_fold_eval(self, w: World)
        requires
            self.wf(),
        ensures
            self.fold().eval(w) == self.eval(w),
        decreases self,
    {
        let kids = Tree::fold_all(self.kids);
        let mid = Tree { op: self.op, kids };
        Tree::lemma_fold_all_len(self.kids);
        assert forall|i: int| 0 <= i < self.kids.len() implies (#[trigger] self.kids[i]).eval(w)
            == kids[i].eval(w) by {
            Tree::lemma_fold_all(self.kids, i);
            self.kids[i].lemma_fold_eval(w);
        }
        Tree::lemma_eval_congr(self, mid, w);
        if self.op == Op::Binary(BinaryOp::Eq) && kids.len() == 2 && kids[0].op is Lit
            && kids[1].op is Lit {
            Tree::lemma_eval_all_ok(kids, w);
            assert(kids[0].eval(w) is Ok);
            assert(kids[1].eval(w) is Ok);
            assert(Tree::all_ok(kids, w));
        }
    }

    /// The error of a tree is that of its first erring guard.
    pub proof fn lemma_guards_eval(self, w: World)
        requires
            self.wf(),
        ensures
            err_of(self.eval(w)) == Tree::first_err(self.guards(), w),
        decreases self,
    {
        if self.op.never_errs() {
            Tree::lemma_guards_all_eval(self.kids, w);
            Tree::lemma_eval_all_ok(self.kids, w);
            self.lemma_eval_strict(w);
        } else {
            assert(seq![self].drop_last() =~= seq![]);
            assert(Tree::first_err(seq![self].drop_last(), w) is None);
            assert(seq![self].last() == self);
        }
    }

    pub proof fn lemma_guards_all_eval(ts: Seq<Tree>, w: World)
        requires
            forall|i: int| 0 <= i < ts.len() ==> (#[trigger] ts[i]).wf(),
        ensures
            err_of(Tree::eval_all(ts, w)) == Tree::first_err(Tree::guards_all(ts), w),
        decreases ts,
    {
        if ts.len() > 0 {
            Tree::lemma_guards_all_eval(ts.drop_last(), w);
            assert(ts[ts.len() - 1] == ts.last());
            ts.last().lemma_guards_eval(w);
            Tree::lemma_first_err_append(
                Tree::guards_all(ts.drop_last()),
                ts.last().guards(),
                w,
            );
        }
    }

    /// The guards before child `n` stand for the children before it.
    pub proof fn lemma_before_eval(ts: Seq<Tree>, n: int, w: World)
        requires
            0 <= n <= ts.len(),
            forall|i: int| 0 <= i < ts.len() ==> (#[trigger] ts[i]).wf(),
        ensures
            Tree::first_err(Tree::guards_all(Tree::fold_all(ts.take(n))), w) == err_of(
                Tree::eval_all(ts.take(n), w),
            ),
    {
        let front = ts.take(n);
        let folded = Tree::fold_all(front);
        Tree::lemma_fold_all_len(front);
        assert forall|i: int| 0 <= i < front.len() implies (#[trigger] front[i]).eval(w)
            == folded[i].eval(w) by {
            Tree::lemma_fold_all(front, i);
            assert(ts[i].wf());
            front[i].lemma_fold_eval(w);
        }
        assert forall|i: int| 0 <= i < folded.len() implies (#[trigger] folded[i]).wf() by {
            Tree::lemma_fold_all(front, i);
            assert(ts[i].wf());
            front[i].lemma_fold_wf();
        }
        Tree::lemma_eval_all_congr(front, folded, w);
        Tree::lemma_guards_all_eval(folded, w);
    }

    /// Replacing a child by one that evaluates alike changes nothing.
    pub proof fn lemma_with_kid_eval(self, i: int, t: Tree, w: World)
        requires
            0 <= i < self.kids.len(),
            t.eval(w) == self.kids[i].eval(w),
        ensures
            self.with_kid(i, t).eval(w) == self.eval(w),
    {
        assert forall|j: int| 0 <= j < self.kids.len() implies (#[trigger] self.kids[j]).eval(w)
            == self.with_kid(i, t).kids[j].eval(w) by {}
        Tree::lemma_eval_congr(self, self.with_kid(i, t), w);
    }

    /// `&&`, `||` and `!` evaluate to a boolean or err.
    pub proof fn lemma_offender_bool(self, w: World)
        requires
            self.wf(),
            self.op.is_offender(),
            self.op != Op::If,
        ensures
            self.eval(w) matches Ok(v) ==> v is Bool,
    {
    }

    /// An atom evaluates like what it is split into.
    pub proof fn lemma_hoist_eval(self, w: World)
        requires
            self.wf(),
            !self.op.is_offender(),
        ensures
            self.hoist() matches Some(h) ==> match Tree::first_err(h.guards, w) {
                Some(e) => self.eval(w) == Err::<Value, int>(e),
                None => self.eval(w) == Tree::ite(h.cond, h.yes, h.no).eval(w),
            },
        decreases self, self.kids.len() + 1,
    {
        if !self.is_iferror() {
            self.lemma_hoist_from_eval(0, w);
        }
    }

    proof fn lemma_hoist_from_eval(self, i: int, w: World)
        requires
            self.wf(),
            !self.op.is_offender(),
            !self.is_iferror(),
            0 <= i,
        ensures
            self.hoist_from(i) matches Some(h) ==> match Tree::first_err(h.guards, w) {
                Some(e) => self.eval(w) == Err::<Value, int>(e),
                None => self.eval(w) == Tree::ite(h.cond, h.yes, h.no).eval(w),
            },
        decreases self, self.kids.len() - i,
    {
        if i < self.kids.len() {
            let kid = self.kids[i];
            let before = Tree::guards_all(Tree::fold_all(self.kids.take(i)));
            assert(kid.wf());
            Tree::lemma_before_eval(self.kids, i, w);
            Tree::lemma_eval_all_prefix(self.kids, i, w);
            self.lemma_eval_strict(w);
            if kid.op == Op::If && kid.kids.len() == 3 {
                let yes = self.with_kid(i, kid.kids[1]);
                let no = self.with_kid(i, kid.kids[2]);
                self.lemma_ite_eval(i, kid.kids[0], yes, no, w);
                if kid.kids[0].eval(w) == Ok::<Value, int>(Value::Bool(true)) {
                    self.lemma_with_kid_eval(i, kid.kids[1], w);
                }
                if kid.kids[0].eval(w) == Ok::<Value, int>(Value::Bool(false)) {
                    self.lemma_with_kid_eval(i, kid.kids[2], w);
                }
            } else if kid.op.is_offender() && kid.kids.len() > 0 {
                kid.lemma_offender_bool(w);
                let yes = self.with_kid(i, Tree::bool(true));
                let no = self.with_kid(i, Tree::bool(false));
                self.lemma_ite_eval(i, kid, yes, no, w);
                assert(Tree::bool(true).eval(w) == Ok::<Value, int>(Value::Bool(true)));
                assert(Tree::bool(false).eval(w) == Ok::<Value, int>(Value::Bool(false)));
                if kid.eval(w) == Ok::<Value, int>(Value::Bool(true)) {
                    self.lemma_with_kid_eval(i, Tree::bool(true), w);
                }
                if kid.eval(w) == Ok::<Value, int>(Value::Bool(false)) {
                    self.lemma_with_kid_eval(i, Tree::bool(false), w);
                }
            } else {
                kid.lemma_hoist_eval(w);
                match kid.hoist() {
                    Some(h) => {
                        Tree::lemma_first_err_append(before, h.guards, w);
                        let yes = self.with_kid(i, h.yes);
                        let no = self.with_kid(i, h.no);
                        self.lemma_ite_eval(i, h.cond, yes, no, w);
                        let inner = Tree::ite(h.cond, h.yes, h.no);
                        assert(inner.kids[0] == h.cond && inner.kids[1] == h.yes && inner.kids[2]
                            == h.no);
                        if Tree::first_err(before, w) is None && Tree::first_err(h.guards, w)
                            is None {
                            if h.cond.eval(w) == Ok::<Value, int>(Value::Bool(true)) {
                                self.lemma_with_kid_eval(i, h.yes, w);
                            }
                            if h.cond.eval(w) == Ok::<Value, int>(Value::Bool(false)) {
                                self.lemma_with_kid_eval(i, h.no, w);
                            }
                        }
                    },
                    None => {
                        self.lemma_hoist_from_eval(i + 1, w);
                    },
                }
            }
        }
    }

    /// The branches of an `if`.
    proof fn lemma_ite_eval(self, i: int, c: Tree, yes: Tree, no: Tree, w: World)
        ensures
            Tree::ite(c, yes, no).eval(w) == (match c.eval(w) {
                Ok(Value::Bool(true)) => yes.eval(w),
                Ok(Value::Bool(false)) => no.eval(w),
                r => w.as_bool(r),
            }),
    {
        let t = Tree::ite(c, yes, no);
        assert(t.kids[0] == c && t.kids[1] == yes && t.kids[2] == no);
    }
}

impl Tree {
    /// Where a tree evaluates, so do the subterms that it evaluates.
    pub proof fn lemma_evaluated(self, w: World)
        requires
            self.wf(),
            self.eval(w) is Ok,
        ensures
            Tree::all_ok(self.evaluated(), w),
        decreases self,
    {
        if self.is_iferror() {
        } else if self.op == Op::If || self.op == Op::And || self.op == Op::Or {
            assert(self.kids[0].wf());
            self.kids[0].lemma_evaluated(w);
        } else if self.op == Op::Unary(UnaryOp::Not) {
            assert(self.kids[0].wf());
            assert(self.kids.drop_last() =~= seq![]);
            self.kids[0].lemma_evaluated(w);
            assert(Tree::evaluated_all(self.kids.drop_last()) =~= seq![]);
            assert(Tree::evaluated_all(self.kids) =~= self.kids[0].evaluated());
        } else {
            self.lemma_eval_strict(w);
            Tree::lemma_eval_all_ok(self.kids, w);
            Tree::lemma_evaluated_all(self.kids, w);
        }
        let tail = if self.is_iferror() {
            seq![]
        } else if (self.op == Op::If || self.op == Op::And || self.op == Op::Or)
            && self.kids.len() > 0 {
            self.kids[0].evaluated()
        } else {
            Tree::evaluated_all(self.kids)
        };
        assert(Tree::all_ok(tail, w));
        assert forall|i: int| 0 <= i < self.evaluated().len() implies (
        #[trigger] self.evaluated()[i]).eval(w) is Ok by {
            if self.op.never_errs() {
                assert(self.evaluated()[i] == tail[i]);
            } else if i > 0 {
                assert(self.evaluated()[i] == tail[i - 1]);
            }
        }
    }

    pub proof fn lemma_evaluated_all(ts: Seq<Tree>, w: World)
        requires
            forall|i: int| 0 <= i < ts.len() ==> (#[trigger] ts[i]).wf(),
            Tree::all_ok(ts, w),
        ensures
            Tree::all_ok(Tree::evaluated_all(ts), w),
        decreases ts,
    {
        if ts.len() > 0 {
            let front = ts.drop_last();
            assert forall|i: int| 0 <= i < front.len() implies (#[trigger] front[i]).eval(
                w,
            ) is Ok by {
                assert(ts[i] == front[i]);
            }
            Tree::lemma_evaluated_all(front, w);
            assert(ts[ts.len() - 1].eval(w) is Ok);
            ts.last().lemma_evaluated(w);
            let a = Tree::evaluated_all(front);
            let b = ts.last().evaluated();
            assert forall|i: int| 0 <= i < (a + b).len() implies (#[trigger] (a + b)[i]).eval(
                w,
            ) is Ok by {
                if i < a.len() {
                    assert((a + b)[i] == a[i]);
                } else {
                    assert((a + b)[i] == b[i - a.len()]);
                }
            }
        }
    }

    pub proof fn lemma_spine_wf(self, conj: bool)
        requires
            self.wf(),
        ensures
            forall|i: int| 0 <= i < self.spine(conj).len() ==> (#[trigger] self.spine(conj)[i]).wf(),
        decreases self,
    {
        if self.op == (if conj {
            Op::And
        } else {
            Op::Or
        }) && self.kids.len() == 2 {
            assert(self.kids[0].wf());
            assert(self.kids[1].wf());
            self.kids[0].lemma_spine_wf(conj);
            self.kids[1].lemma_spine_wf(conj);
            let a = self.kids[0].spine(conj);
            let b = self.kids[1].spine(conj);
            assert forall|i: int| 0 <= i < (a + b).len() implies (#[trigger] (a + b)[i]).wf() by {
                if i < a.len() {
                    assert((a + b)[i] == a[i]);
                } else {
                    assert((a + b)[i] == b[i - a.len()]);
                }
            }
        }
    }

    /// A conjunction that is true, or a disjunction that is false, has
    /// evaluated each member of its spine.
    pub proof fn lemma_spine(self, conj: bool, w: World)
        requires
            self.wf(),
            self.eval(w) == Ok::<Value, int>(Value::Bool(conj)),
        ensures
            Tree::all_ok(self.spine(conj), w),
        decreases self,
    {
        if self.op == (if conj {
            Op::And
        } else {
            Op::Or
        }) && self.kids.len() == 2 {
            assert(self.kids[0].wf());
            assert(self.kids[1].wf());
            self.kids[0].lemma_spine(conj, w);
            self.kids[1].lemma_spine(conj, w);
            let a = self.kids[0].spine(conj);
            let b = self.kids[1].spine(conj);
            assert forall|i: int| 0 <= i < (a + b).len() implies (#[trigger] (a + b)[i]).eval(
                w,
            ) is Ok by {
                if i < a.len() {
                    assert((a + b)[i] == a[i]);
                } else {
                    assert((a + b)[i] == b[i - a.len()]);
                }
            }
        }
    }

    /// What a known value establishes has evaluated.
    pub proof fn lemma_learn(self, conj: bool, w: World)
        requires
            self.wf(),
            self.eval(w) == Ok::<Value, int>(Value::Bool(conj)),
        ensures
            Tree::all_ok(self.learn(conj), w),
    {
        self.lemma_spine(conj, w);
        self.lemma_spine_wf(conj);
        Tree::lemma_evaluated_all(self.spine(conj), w);
    }

    pub proof fn lemma_all_ok_append(a: Seq<Tree>, b: Seq<Tree>, w: World)
        requires
            Tree::all_ok(a, w),
            Tree::all_ok(b, w),
        ensures
            Tree::all_ok(a + b, w),
    {
        assert forall|i: int| 0 <= i < (a + b).len() implies (#[trigger] (a + b)[i]).eval(
            w,
        ) is Ok by {
            if i < a.len() {
                assert((a + b)[i] == a[i]);
            } else {
                assert((a + b)[i] == b[i - a.len()]);
            }
        }
    }

    /// Guards that are known to have evaluated need not be repeated.
    pub proof fn lemma_new_guards(ctx: Seq<Tree>, guards: Seq<Tree>, w: World)
        requires
            Tree::all_ok(ctx, w),
        ensures
            Tree::first_err(Tree::new_guards(ctx, guards), w) == Tree::first_err(guards, w),
        decreases guards.len(),
    {
        if guards.len() > 0 {
            let g = guards.last();
            let fresh = Tree::new_guards(ctx, guards.drop_last());
            Tree::lemma_new_guards(ctx, guards.drop_last(), w);
            if ctx.contains(g) {
                let i = choose|i: int| 0 <= i < ctx.len() && ctx[i] == g;
                assert(ctx[i].eval(w) is Ok);
            } else if fresh.contains(g) {
                Tree::lemma_first_err_none(fresh, w);
                let i = choose|i: int| 0 <= i < fresh.len() && fresh[i] == g;
                if Tree::first_err(fresh, w) is None {
                    assert(fresh[i].eval(w) is Ok);
                }
            } else {
                assert(fresh.push(g).drop_last() =~= fresh);
            }
        }
    }

    /// `g == g` is true where `g` evaluates, and errs like `g` where it does
    /// not.
    pub proof fn lemma_self_eq(g: Tree, w: World)
        ensures
            Tree::self_eq(g).eval(w) == (match g.eval(w) {
                Ok(_) => Ok(Value::Bool(true)),
                Err(e) => Err(e),
            }),
    {
        let t = Tree::self_eq(g);
        Tree::lemma_eval_all_ok(t.kids, w);
        Tree::lemma_eval_all_prefix(t.kids, 0, w);
        assert(t.kids.take(0) =~= seq![]);
        assert(t.kids[0] == g && t.kids[1] == g);
        match g.eval(w) {
            Ok(v) => {
                assert(Tree::all_ok(t.kids, w));
                v.lemma_same_refl();
            },
            Err(e) => {},
        }
    }

    /// A chain of `g == g` is true where all the guards evaluate, and errs
    /// like the first that does not.
    pub proof fn lemma_guard_chain(guards: Seq<Tree>, w: World)
        ensures
            Tree::and_chain(guards.map_values(|g: Tree| Tree::self_eq(g))).eval(w) == (
            match Tree::first_err(guards, w) {
                None => Ok(Value::Bool(true)),
                Some(e) => Err(e),
            }),
        decreases guards.len(),
    {
        let eqs = guards.map_values(|g: Tree| Tree::self_eq(g));
        if guards.len() == 0 {
            assert(eqs =~= seq![]);
        } else {
            let rest = guards.drop_first();
            Tree::lemma_self_eq(guards[0], w);
            assert(guards =~= seq![guards[0]] + rest);
            Tree::lemma_first_err_append(seq![guards[0]], rest, w);
            assert(seq![guards[0]].drop_last() =~= seq![]);
            assert(Tree::first_err(seq![guards[0]].drop_last(), w) is None);
            assert(eqs[0] == Tree::self_eq(guards[0]));
            if guards.len() == 1 {
                assert(rest =~= seq![]);
            } else {
                Tree::lemma_guard_chain(rest, w);
                assert(eqs.drop_first() =~= rest.map_values(|g: Tree| Tree::self_eq(g)));
                let t = Tree::and_chain(eqs);
                assert(t.kids[0] == eqs[0]);
                assert(t.kids[1] == Tree::and_chain(eqs.drop_first()));
            }
        }
    }

    /// A guarded tree errs like the first guard that does, and else evaluates
    /// like the tree.
    pub proof fn lemma_guarded(guards: Seq<Tree>, t: Tree, w: World)
        ensures
            Tree::guarded(guards, t).eval(w) == (match Tree::first_err(guards, w) {
                None => t.eval(w),
                Some(e) => Err(e),
            }),
    {
        if guards.len() > 0 {
            Tree::lemma_guard_chain(guards, w);
            let c = Tree::and_chain(guards.map_values(|g: Tree| Tree::self_eq(g)));
            t.lemma_ite_eval(0, c, t, Tree::bool(false), w);
        }
    }

    pub proof fn lemma_with_kid_wf(self, i: int, t: Tree)
        requires
            self.wf(),
            t.wf(),
            0 <= i < self.kids.len(),
        ensures
            self.with_kid(i, t).wf(),
    {
        let r = self.with_kid(i, t);
        assert forall|j: int| 0 <= j < r.kids.len() implies (#[trigger] r.kids[j]).wf() by {
            if j != i {
                assert(r.kids[j] == self.kids[j]);
            }
        }
    }

    pub proof fn lemma_hoist_wf(self)
        requires
            self.wf(),
        ensures
            self.hoist() matches Some(h) ==> h.cond.wf() && h.yes.wf() && h.no.wf() && h.yes.op
                == self.op && h.no.op == self.op,
        decreases self, self.kids.len() + 1,
    {
        if !self.is_iferror() {
            self.lemma_hoist_from_wf(0);
        }
    }

    proof fn lemma_hoist_from_wf(self, i: int)
        requires
            self.wf(),
            0 <= i,
        ensures
            self.hoist_from(i) matches Some(h) ==> h.cond.wf() && h.yes.wf() && h.no.wf()
                && h.yes.op == self.op && h.no.op == self.op,
        decreases self, self.kids.len() - i,
    {
        if i < self.kids.len() {
            let kid = self.kids[i];
            assert(kid.wf());
            assert(Tree::bool(true).wf() && Tree::bool(false).wf());
            if kid.op == Op::If && kid.kids.len() == 3 {
                assert(kid.kids[0].wf() && kid.kids[1].wf() && kid.kids[2].wf());
                self.lemma_with_kid_wf(i, kid.kids[1]);
                self.lemma_with_kid_wf(i, kid.kids[2]);
            } else if kid.op.is_offender() && kid.kids.len() > 0 {
                self.lemma_with_kid_wf(i, Tree::bool(true));
                self.lemma_with_kid_wf(i, Tree::bool(false));
            } else {
                kid.lemma_hoist_wf();
                match kid.hoist() {
                    Some(h) => {
                        self.lemma_with_kid_wf(i, h.yes);
                        self.lemma_with_kid_wf(i, h.no);
                    },
                    None => {
                        self.lemma_hoist_from_wf(i + 1);
                    },
                }
            }
        }
    }

    /// Splitting preserves evaluation where the context has evaluated.
    pub proof fn lemma_split_eval(self, ctx: Seq<Tree>, budget: int, w: World)
        requires
            self.wf(),
            Tree::all_ok(ctx, w),
        ensures
            self.split(ctx, budget) matches Some((t, _)) ==> t.eval(w) == self.eval(w),
        decreases self.size(), 1nat,
    {
        assert forall|i: int| 0 <= i < self.kids.len() implies (#[trigger] self.kids[i]).size()
            < self.size() && self.kids[i].wf() by {
            Tree::lemma_kid_size(self.kids, i);
        }
        if self.op is Lit && self.op->Lit_0 is Bool {
        } else if self.op == Op::And && self.kids.len() == 2 {
            let k = self.kids[0];
            k.lemma_split_eval(ctx, budget, w);
            if let Some((l, b)) = k.split(ctx, budget) {
                if k.eval(w) == Ok::<Value, int>(Value::Bool(true)) {
                    k.lemma_learn(true, w);
                    Tree::lemma_all_ok_append(ctx, k.learn(true), w);
                    self.kids[1].lemma_split_eval(ctx + k.learn(true), b, w);
                }
                if let Some((r, _)) = self.kids[1].split(ctx + k.learn(true), b) {
                    assert(Tree::and(l, r).kids[0] == l && Tree::and(l, r).kids[1] == r);
                }
            }
        } else if self.op == Op::Or && self.kids.len() == 2 {
            let k = self.kids[0];
            k.lemma_split_eval(ctx, budget, w);
            if let Some((l, b)) = k.split(ctx, budget) {
                if k.eval(w) == Ok::<Value, int>(Value::Bool(false)) {
                    k.lemma_learn(false, w);
                    Tree::lemma_all_ok_append(ctx, k.learn(false), w);
                    self.kids[1].lemma_split_eval(ctx + k.learn(false), b, w);
                }
                if let Some((r, _)) = self.kids[1].split(ctx + k.learn(false), b) {
                    assert(Tree::or(l, r).kids[0] == l && Tree::or(l, r).kids[1] == r);
                }
            }
        } else if self.op == Op::Unary(UnaryOp::Not) && self.kids.len() == 1 {
            self.kids[0].lemma_split_eval(ctx, budget, w);
            if let Some((a, _)) = self.kids[0].split(ctx, budget) {
                assert(Tree::not(a).kids[0] == a);
            }
        } else if self.op == Op::If && self.kids.len() == 3 {
            let k = self.kids[0];
            k.lemma_split_eval(ctx, budget, w);
            if let Some((c, b)) = k.split(ctx, budget) {
                let yes = ctx + k.learn(true);
                let no = ctx + k.learn(false);
                if k.eval(w) == Ok::<Value, int>(Value::Bool(true)) {
                    k.lemma_learn(true, w);
                    Tree::lemma_all_ok_append(ctx, k.learn(true), w);
                    self.kids[1].lemma_split_eval(yes, b, w);
                }
                if let Some((t, b)) = self.kids[1].split(yes, b) {
                    if k.eval(w) == Ok::<Value, int>(Value::Bool(false)) {
                        k.lemma_learn(false, w);
                        Tree::lemma_all_ok_append(ctx, k.learn(false), w);
                        self.kids[2].lemma_split_eval(no, b, w);
                    }
                    if let Some((e, b)) = self.kids[2].split(no, b) {
                        self.lemma_ite_eval(0, c, t, e, w);
                    }
                }
            }
        } else {
            self.lemma_split_atom_eval(ctx, budget, w);
        }
    }

    proof fn lemma_split_atom_eval(self, ctx: Seq<Tree>, budget: int, w: World)
        requires
            self.wf(),
            !self.op.is_offender(),
            Tree::all_ok(ctx, w),
        ensures
            self.split_atom(ctx, budget) matches Some((t, _)) ==> t.eval(w) == self.eval(w),
        decreases self.size(), 0nat,
    {
        if self.size() <= budget {
            self.lemma_hoist_size();
            self.lemma_hoist_wf();
            self.lemma_hoist_eval(w);
            match self.hoist() {
                None => {
                    self.lemma_fold_eval(w);
                },
                Some(h) => {
                    let fresh = Tree::new_guards(ctx, h.guards);
                    let inner = ctx + fresh;
                    let copies = inner + h.cond.evaluated();
                    Tree::lemma_new_guards(ctx, h.guards, w);
                    Tree::lemma_first_err_none(fresh, w);
                    if Tree::first_err(fresh, w) is None {
                        Tree::lemma_all_ok_append(ctx, fresh, w);
                        h.cond.lemma_split_eval(inner, budget - self.size(), w);
                        if h.cond.eval(w) is Ok {
                            h.cond.lemma_evaluated(w);
                            Tree::lemma_all_ok_append(inner, h.cond.evaluated(), w);
                        }
                    }
                    if let Some((test, b)) = h.cond.split(inner, budget - self.size()) {
                        if Tree::first_err(fresh, w) is None && h.cond.eval(w) is Ok {
                            h.yes.lemma_split_atom_eval(copies, b, w);
                        }
                        if let Some((yes, b)) = h.yes.split_atom(copies, b) {
                            if Tree::first_err(fresh, w) is None && h.cond.eval(w) is Ok {
                                h.no.lemma_split_atom_eval(copies, b, w);
                            }
                            if let Some((no, b)) = h.no.split_atom(copies, b) {
                                self.lemma_ite_eval(0, test, yes, no, w);
                                self.lemma_ite_eval(0, h.cond, h.yes, h.no, w);
                                Tree::lemma_guarded(fresh, Tree::ite(test, yes, no), w);
                            }
                        }
                    }
                },
            }
        }
    }
}

/// Splitting preserves evaluation exactly: on every input, the split
/// expression gives the value of the original, or errs like it.
pub proof fn law_split_preserves_evaluation<T>(expr: &Expr<T>, max_nodes: nat, w: World)
    requires
        expr.tree().wf(),
    ensures
        expr.tree().split(seq![], max_nodes as int) matches Some((t, _)) ==> t.eval(w)
            == expr.tree().eval(w),
{
    expr.tree().lemma_split_eval(seq![], max_nodes as int, w);
}

impl Tree {
    /// No `&&`, `||`, `!` or `if` strictly inside, outside `iferror` calls.
    pub open spec fn clean(self) -> bool
        decreases self,
    {
        self.is_iferror() || forall|i: int|
            0 <= i < self.kids.len() ==> !(#[trigger] self.kids[i]).op.is_offender()
                && self.kids[i].clean()
    }

    /// Every atom is clean.
    pub open spec fn atoms_clean(self) -> bool
        decreases self,
    {
        if self.op.is_offender() {
            forall|i: int| 0 <= i < self.kids.len() ==> (#[trigger] self.kids[i]).atoms_clean()
        } else {
            self.clean()
        }
    }

    /// Clean, and not boolean structure itself.
    pub open spec fn indivisible(self) -> bool {
        self.wf() && self.clean() && !self.op.is_offender()
    }

    /// All of `ts` are clean, and not boolean structure themselves.
    pub open spec fn all_indivisible(ts: Seq<Tree>) -> bool {
        forall|i: int| 0 <= i < ts.len() ==> (#[trigger] ts[i]).indivisible()
    }

    pub proof fn lemma_indivisible_append(a: Seq<Tree>, b: Seq<Tree>)
        requires
            Tree::all_indivisible(a),
            Tree::all_indivisible(b),
        ensures
            Tree::all_indivisible(a + b),
    {
        assert forall|i: int| 0 <= i < (a + b).len() implies (
        #[trigger] (a + b)[i]).indivisible() by {
            if i < a.len() {
                assert((a + b)[i] == a[i]);
            } else {
                assert((a + b)[i] == b[i - a.len()]);
            }
        }
    }

    pub proof fn lemma_fold_indivisible(self)
        requires
            self.indivisible(),
        ensures
            self.fold().indivisible(),
        decreases self,
    {
        self.lemma_fold_wf();
        if !self.is_iferror() {
            Tree::lemma_fold_all_len(self.kids);
            let kids = Tree::fold_all(self.kids);
            assert forall|i: int| 0 <= i < kids.len() implies !(
            #[trigger] kids[i]).op.is_offender() && kids[i].clean() by {
                Tree::lemma_fold_all(self.kids, i);
                assert(!self.kids[i].op.is_offender());
                assert(self.kids[i].wf());
                self.kids[i].lemma_fold_indivisible();
            }
        }
    }

    pub proof fn lemma_fold_all_indivisible(ts: Seq<Tree>)
        requires
            Tree::all_indivisible(ts),
        ensures
            Tree::all_indivisible(Tree::fold_all(ts)),
    {
        Tree::lemma_fold_all_len(ts);
        assert forall|i: int| 0 <= i < ts.len() implies (
        #[trigger] Tree::fold_all(ts)[i]).indivisible() by {
            Tree::lemma_fold_all(ts, i);
            assert(ts[i].indivisible());
            ts[i].lemma_fold_indivisible();
        }
    }

    pub proof fn lemma_guards_indivisible(self)
        requires
            self.indivisible(),
        ensures
            Tree::all_indivisible(self.guards()),
        decreases self,
    {
        if self.op.never_errs() {
            assert forall|i: int| 0 <= i < self.kids.len() implies (
            #[trigger] self.kids[i]).indivisible() by {
                assert(!self.kids[i].op.is_offender());
                assert(self.kids[i].wf());
            }
            Tree::lemma_guards_all_indivisible(self.kids);
        }
    }

    pub proof fn lemma_guards_all_indivisible(ts: Seq<Tree>)
        requires
            Tree::all_indivisible(ts),
        ensures
            Tree::all_indivisible(Tree::guards_all(ts)),
        decreases ts,
    {
        if ts.len() > 0 {
            assert(ts[ts.len() - 1].indivisible());
            assert forall|i: int| 0 <= i < ts.drop_last().len() implies (
            #[trigger] ts.drop_last()[i]).indivisible() by {
                assert(ts[i].indivisible());
            }
            Tree::lemma_guards_all_indivisible(ts.drop_last());
            ts.last().lemma_guards_indivisible();
            Tree::lemma_indivisible_append(
                Tree::guards_all(ts.drop_last()),
                ts.last().guards(),
            );
        }
    }

    /// What is found is the first offender: the tree is clean if there is
    /// none, and what stands before it is.
    pub proof fn lemma_hoist_clean(self)
        requires
            self.wf(),
        ensures
            match self.hoist() {
                None => self.clean(),
                Some(h) => Tree::all_indivisible(h.guards),
            },
        decreases self, self.kids.len() + 1,
    {
        if !self.is_iferror() {
            self.lemma_hoist_from_clean(0);
        }
    }

    proof fn lemma_hoist_from_clean(self, i: int)
        requires
            self.wf(),
            !self.is_iferror(),
            0 <= i <= self.kids.len(),
            Tree::all_indivisible(self.kids.take(i)),
        ensures
            match self.hoist_from(i) {
                None => self.clean(),
                Some(h) => Tree::all_indivisible(h.guards),
            },
        decreases self, self.kids.len() - i,
    {
        Tree::lemma_fold_all_indivisible(self.kids.take(i));
        Tree::lemma_guards_all_indivisible(Tree::fold_all(self.kids.take(i)));
        if i < self.kids.len() {
            let kid = self.kids[i];
            assert(kid.wf());
            if kid.op == Op::If && kid.kids.len() == 3 {
            } else if kid.op.is_offender() && kid.kids.len() > 0 {
            } else {
                kid.lemma_hoist_clean();
                match kid.hoist() {
                    Some(h) => {
                        Tree::lemma_indivisible_append(
                            Tree::guards_all(Tree::fold_all(self.kids.take(i))),
                            h.guards,
                        );
                    },
                    None => {
                        assert(kid.indivisible());
                        assert forall|j: int| 0 <= j < i + 1 implies (
                        #[trigger] self.kids.take(i + 1)[j]).indivisible() by {
                            if j < i {
                                assert(self.kids.take(i)[j].indivisible());
                            }
                        }
                        self.lemma_hoist_from_clean(i + 1);
                    },
                }
            }
        } else {
            assert forall|j: int| 0 <= j < self.kids.len() implies !(
            #[trigger] self.kids[j]).op.is_offender() && self.kids[j].clean() by {
                assert(self.kids.take(i)[j].indivisible());
            }
        }
    }

    pub proof fn lemma_new_guards_indivisible(ctx: Seq<Tree>, guards: Seq<Tree>)
        requires
            Tree::all_indivisible(guards),
        ensures
            Tree::all_indivisible(Tree::new_guards(ctx, guards)),
        decreases guards.len(),
    {
        if guards.len() > 0 {
            assert forall|i: int| 0 <= i < guards.drop_last().len() implies (
            #[trigger] guards.drop_last()[i]).indivisible() by {
                assert(guards[i].indivisible());
            }
            Tree::lemma_new_guards_indivisible(ctx, guards.drop_last());
            assert(guards[guards.len() - 1].indivisible());
        }
    }

    pub proof fn lemma_guard_chain_clean(guards: Seq<Tree>)
        requires
            Tree::all_indivisible(guards),
        ensures
            ({
                let c = Tree::and_chain(guards.map_values(|g: Tree| Tree::self_eq(g)));
                c.atoms_clean() && c.wf()
            }),
        decreases guards.len(),
    {
        let eqs = guards.map_values(|g: Tree| Tree::self_eq(g));
        if guards.len() == 0 {
            assert(eqs =~= seq![]);
        } else {
            assert(guards[0].indivisible());
            let q = Tree::self_eq(guards[0]);
            assert(eqs[0] == q);
            assert(q.clean() && q.wf()) by {
                assert forall|i: int| 0 <= i < q.kids.len() implies !(
                #[trigger] q.kids[i]).op.is_offender() && q.kids[i].clean() && q.kids[i].wf() by {
                    assert(q.kids[i] == guards[0]);
                }
            }
            if guards.len() > 1 {
                let rest = guards.drop_first();
                assert forall|i: int| 0 <= i < rest.len() implies (
                #[trigger] rest[i]).indivisible() by {
                    assert(guards[i + 1].indivisible());
                }
                Tree::lemma_guard_chain_clean(rest);
                assert(eqs.drop_first() =~= rest.map_values(|g: Tree| Tree::self_eq(g)));
                Tree::lemma_and_clean(q, Tree::and_chain(eqs.drop_first()));
            }
        }
    }

    pub proof fn lemma_and_clean(a: Tree, b: Tree)
        requires
            a.atoms_clean(),
            b.atoms_clean(),
            a.wf(),
            b.wf(),
        ensures
            Tree::and(a, b).atoms_clean(),
            Tree::and(a, b).wf(),
            Tree::or(a, b).atoms_clean(),
            Tree::or(a, b).wf(),
            Tree::not(a).atoms_clean(),
            Tree::not(a).wf(),
    {
        assert forall|i: int| 0 <= i < 2 implies (#[trigger] Tree::and(a, b).kids[i]).atoms_clean()
            && Tree::and(a, b).kids[i].wf() by {}
        assert forall|i: int| 0 <= i < 2 implies (#[trigger] Tree::or(a, b).kids[i]).atoms_clean()
            && Tree::or(a, b).kids[i].wf() by {}
        assert forall|i: int| 0 <= i < 1 implies (#[trigger] Tree::not(a).kids[i]).atoms_clean()
            && Tree::not(a).kids[i].wf() by {}
    }

    pub proof fn lemma_ite_clean(c: Tree, a: Tree, b: Tree)
        requires
            c.atoms_clean(),
            a.atoms_clean(),
            b.atoms_clean(),
            c.wf(),
            a.wf(),
            b.wf(),
        ensures
            Tree::ite(c, a, b).atoms_clean(),
            Tree::ite(c, a, b).wf(),
    {
        assert forall|i: int| 0 <= i < 3 implies (
        #[trigger] Tree::ite(c, a, b).kids[i]).atoms_clean() && Tree::ite(c, a, b).kids[i].wf() by {}
    }

    pub proof fn lemma_guarded_clean(guards: Seq<Tree>, t: Tree)
        requires
            Tree::all_indivisible(guards),
            t.atoms_clean(),
            t.wf(),
        ensures
            Tree::guarded(guards, t).atoms_clean(),
            Tree::guarded(guards, t).wf(),
    {
        Tree::lemma_guard_chain_clean(guards);
        let c = Tree::and_chain(guards.map_values(|g: Tree| Tree::self_eq(g)));
        assert(Tree::bool(false).atoms_clean() && Tree::bool(false).wf());
        Tree::lemma_ite_clean(c, t, Tree::bool(false));
    }

    /// Split atoms are clean.
    pub proof fn lemma_split_clean(self, ctx: Seq<Tree>, budget: int)
        requires
            self.wf(),
        ensures
            self.split(ctx, budget) matches Some((t, _)) ==> t.atoms_clean() && t.wf(),
        decreases self.size(), 1nat,
    {
        assert forall|i: int| 0 <= i < self.kids.len() implies (#[trigger] self.kids[i]).size()
            < self.size() && self.kids[i].wf() by {
            Tree::lemma_kid_size(self.kids, i);
        }
        if self.op is Lit && self.op->Lit_0 is Bool {
            assert(Tree::bool(true).atoms_clean() && Tree::bool(false).atoms_clean());
        } else if self.op == Op::And && self.kids.len() == 2 {
            let k = self.kids[0];
            k.lemma_split_clean(ctx, budget);
            if let Some((l, b)) = k.split(ctx, budget) {
                self.kids[1].lemma_split_clean(ctx + k.learn(true), b);
                if let Some((r, _)) = self.kids[1].split(ctx + k.learn(true), b) {
                    Tree::lemma_and_clean(l, r);
                }
            }
        } else if self.op == Op::Or && self.kids.len() == 2 {
            let k = self.kids[0];
            k.lemma_split_clean(ctx, budget);
            if let Some((l, b)) = k.split(ctx, budget) {
                self.kids[1].lemma_split_clean(ctx + k.learn(false), b);
                if let Some((r, _)) = self.kids[1].split(ctx + k.learn(false), b) {
                    Tree::lemma_and_clean(l, r);
                }
            }
        } else if self.op == Op::Unary(UnaryOp::Not) && self.kids.len() == 1 {
            self.kids[0].lemma_split_clean(ctx, budget);
            if let Some((a, _)) = self.kids[0].split(ctx, budget) {
                Tree::lemma_and_clean(a, a);
            }
        } else if self.op == Op::If && self.kids.len() == 3 {
            let k = self.kids[0];
            k.lemma_split_clean(ctx, budget);
            if let Some((c, b)) = k.split(ctx, budget) {
                let yes = ctx + k.learn(true);
                let no = ctx + k.learn(false);
                self.kids[1].lemma_split_clean(yes, b);
                if let Some((t, b)) = self.kids[1].split(yes, b) {
                    self.kids[2].lemma_split_clean(no, b);
                    if let Some((e, b)) = self.kids[2].split(no, b) {
                        Tree::lemma_ite_clean(c, t, e);
                    }
                }
            }
        } else {
            self.lemma_split_atom_clean(ctx, budget);
        }
    }

    proof fn lemma_split_atom_clean(self, ctx: Seq<Tree>, budget: int)
        requires
            self.wf(),
            !self.op.is_offender(),
        ensures
            self.split_atom(ctx, budget) matches Some((t, _)) ==> t.atoms_clean() && t.wf(),
        decreases self.size(), 0nat,
    {
        if self.size() <= budget {
            self.lemma_hoist_size();
            self.lemma_hoist_wf();
            self.lemma_hoist_clean();
            match self.hoist() {
                None => {
                    self.lemma_fold_indivisible();
                },
                Some(h) => {
                    let fresh = Tree::new_guards(ctx, h.guards);
                    let inner = ctx + fresh;
                    let copies = inner + h.cond.evaluated();
                    Tree::lemma_new_guards_indivisible(ctx, h.guards);
                    h.cond.lemma_split_clean(inner, budget - self.size());
                    if let Some((test, b)) = h.cond.split(inner, budget - self.size()) {
                        h.yes.lemma_split_atom_clean(copies, b);
                        if let Some((yes, b)) = h.yes.split_atom(copies, b) {
                            h.no.lemma_split_atom_clean(copies, b);
                            if let Some((no, b)) = h.no.split_atom(copies, b) {
                                Tree::lemma_ite_clean(test, yes, no);
                                Tree::lemma_guarded_clean(fresh, Tree::ite(test, yes, no));
                            }
                        }
                    }
                },
            }
        }
    }
}

/// After splitting, no atom contains `&&`, `||`, `!` or `if` outside an
/// `iferror` call.
pub proof fn law_split_atoms_are_clean<T>(expr: &Expr<T>, max_nodes: nat)
    requires
        expr.tree().wf(),
    ensures
        expr.tree().split(seq![], max_nodes as int) matches Some((t, _)) ==> t.atoms_clean(),
{
    expr.tree().lemma_split_clean(seq![], max_nodes as int);
}

} // verus!
