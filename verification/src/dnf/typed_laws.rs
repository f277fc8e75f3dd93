//! Splitting keeps a well-typed evaluation well typed.

use vstd::prelude::*;

use crate::ast::{BinaryOp, UnaryOp};
use crate::model::{Value, World};
use crate::tree::{Op, Tree};

use super::split::Hoisted;

verus! {

impl Tree {
    /// Typing of what is evaluated first.
    pub proof fn lemma_typed_all_prefix(ts: Seq<Tree>, n: int, w: World)
        requires
            0 <= n <= ts.len(),
            Tree::typed_all(ts, w),
        ensures
            Tree::typed_all(ts.take(n), w),
            n < ts.len() && Tree::eval_all(ts.take(n), w) is Ok ==> ts[n].typed(w),
        decreases ts.len(),
    {
        if n == ts.len() {
            assert(ts.take(n) =~= ts);
        } else if n == ts.len() - 1 {
            assert(ts.take(n) =~= ts.drop_last());
        } else {
            Tree::lemma_typed_all_prefix(ts.drop_last(), n, w);
            assert(ts.drop_last().take(n) =~= ts.take(n));
        }
    }

    /// Trees that evaluate alike and are typed alike, one by one, are typed
    /// alike together.
    pub proof fn lemma_typed_all_congr(a: Seq<Tree>, b: Seq<Tree>, w: World)
        requires
            a.len() == b.len(),
            forall|i: int|
                0 <= i < a.len() ==> (#[trigger] a[i]).eval(w) == b[i].eval(w),
            forall|i: int|
                0 <= i < a.len() && (#[trigger] a[i]).typed(w) && Tree::eval_all(a.take(i), w) is Ok
                    ==> b[i].typed(w),
            Tree::typed_all(a, w),
        ensures
            Tree::typed_all(b, w),
        decreases a.len(),
    {
        if a.len() > 0 {
            let fa = a.drop_last();
            let fb = b.drop_last();
            assert forall|i: int| 0 <= i < fa.len() implies (#[trigger] fa[i]).eval(w)
                == fb[i].eval(w) by {
                assert(a[i].eval(w) == b[i].eval(w));
            }
            assert forall|i: int|
                0 <= i < fa.len() && (#[trigger] fa[i]).typed(w) && Tree::eval_all(
                    fa.take(i),
                    w,
                ) is Ok implies fb[i].typed(w) by {
                assert(fa.take(i) =~= a.take(i));
                assert(a[i].typed(w));
            }
            Tree::lemma_typed_all_congr(fa, fb, w);
            Tree::lemma_eval_all_congr(fa, fb, w);
            let n = a.len() - 1;
            assert(a.take(n) =~= fa);
            if Tree::eval_all(fa, w) is Ok {
                assert(a[n].typed(w));
            }
        }
    }

    pub proof fn lemma_typed_all_append(a: Seq<Tree>, b: Seq<Tree>, w: World)
        requires
            Tree::typed_all(a, w),
            Tree::eval_all(a, w) is Ok ==> Tree::typed_all(b, w),
        ensures
            Tree::typed_all(a + b, w),
        decreases b.len(),
    {
        if b.len() == 0 {
            assert(a + b =~= a);
        } else {
            assert((a + b).drop_last() =~= a + b.drop_last());
            Tree::lemma_typed_all_append(a, b.drop_last(), w);
            Tree::lemma_eval_all_ok(a, w);
            Tree::lemma_eval_all_ok(b.drop_last(), w);
            Tree::lemma_eval_all_ok(a + b.drop_last(), w);
            Tree::lemma_first_err_append(a, b.drop_last(), w);
        }
    }

    /// Folding preserves typing.
    pub proof fn lemma_fold_typed(self, w: World)
        requires
            self.wf(),
            self.typed(w),
        ensures
            self.fold().typed(w),
        decreases self,
    {
        let kids = Tree::fold_all(self.kids);
        let mid = Tree { op: self.op, kids };
        Tree::lemma_fold_all_len(self.kids);
        self.lemma_fold_eval(w);
        assert forall|i: int| 0 <= i < self.kids.len() implies (#[trigger] self.kids[i]).eval(w)
            == kids[i].eval(w) && (self.kids[i].typed(w) ==> kids[i].typed(w)) by {
            Tree::lemma_fold_all(self.kids, i);
            self.kids[i].lemma_fold_eval(w);
            if self.kids[i].typed(w) {
                self.kids[i].lemma_fold_typed(w);
            }
        }
        if self.op == Op::Binary(BinaryOp::Eq) && kids.len() == 2 && kids[0].op is Lit
            && kids[1].op is Lit {
        } else {
            Tree::lemma_typed_congr(self, mid, w);
        }
    }

    /// A node whose children evaluate alike and are typed where the original
    /// ones are is typed like the original.
    pub proof fn lemma_typed_congr(a: Tree, b: Tree, w: World)
        requires
            a.op == b.op,
            a.kids.len() == b.kids.len(),
            forall|i: int|
                0 <= i < a.kids.len() ==> (#[trigger] a.kids[i]).eval(w) == b.kids[i].eval(w),
            forall|i: int|
                0 <= i < a.kids.len() && (#[trigger] a.kids[i]).typed(w) ==> b.kids[i].typed(w),
            a.typed(w),
        ensures
            b.typed(w),
    {
        Tree::lemma_eval_congr(a, b, w);
        Tree::lemma_eval_all_congr(a.kids, b.kids, w);
        if a.kids.len() > 0 {
            assert(a.kids[0].eval(w) == b.kids[0].eval(w));
            assert(a.kids[0].typed(w) ==> b.kids[0].typed(w));
        }
        if a.kids.len() > 1 {
            assert(a.kids[1].eval(w) == b.kids[1].eval(w));
            assert(a.kids[1].typed(w) ==> b.kids[1].typed(w));
        }
        if a.kids.len() > 2 {
            assert(a.kids[2].eval(w) == b.kids[2].eval(w));
            assert(a.kids[2].typed(w) ==> b.kids[2].typed(w));
        }
        if Tree::typed_all(a.kids, w) {
            Tree::lemma_typed_all_congr(a.kids, b.kids, w);
        }
    }

    /// The guards of a typed tree are typed.
    pub proof fn lemma_guards_typed(self, w: World)
        requires
            self.wf(),
            self.typed(w),
        ensures
            Tree::typed_all(self.guards(), w),
        decreases self,
    {
        if self.op.never_errs() {
            if self.op is Lit || self.op is Var {
                assert(self.kids =~= seq![]);
            } else {
                Tree::lemma_guards_all_typed(self.kids, w);
            }
        } else {
            assert(seq![self].drop_last() =~= seq![]);
            assert(Tree::typed_all(seq![self].drop_last(), w));
        }
    }

    pub proof fn lemma_guards_all_typed(ts: Seq<Tree>, w: World)
        requires
            forall|i: int| 0 <= i < ts.len() ==> (#[trigger] ts[i]).wf(),
            Tree::typed_all(ts, w),
        ensures
            Tree::typed_all(Tree::guards_all(ts), w),
        decreases ts,
    {
        if ts.len() > 0 {
            let front = ts.drop_last();
            assert(ts[ts.len() - 1].wf());
            Tree::lemma_guards_all_typed(front, w);
            Tree::lemma_guards_all_eval(front, w);
            Tree::lemma_eval_all_ok(Tree::guards_all(front), w);
            Tree::lemma_eval_all_ok(front, w);
            if Tree::eval_all(front, w) is Ok {
                ts.last().lemma_guards_typed(w);
            }
            Tree::lemma_typed_all_append(Tree::guards_all(front), ts.last().guards(), w);
        }
    }

    /// The guards before child `n` are typed.
    pub proof fn lemma_before_typed(ts: Seq<Tree>, n: int, w: World)
        requires
            0 <= n <= ts.len(),
            forall|i: int| 0 <= i < ts.len() ==> (#[trigger] ts[i]).wf(),
            Tree::typed_all(ts, w),
        ensures
            Tree::typed_all(Tree::guards_all(Tree::fold_all(ts.take(n))), w),
    {
        let front = ts.take(n);
        let folded = Tree::fold_all(front);
        Tree::lemma_fold_all_len(front);
        Tree::lemma_typed_all_prefix(ts, n, w);
        assert forall|i: int| 0 <= i < front.len() implies (#[trigger] front[i]).eval(w)
            == folded[i].eval(w) && (front[i].typed(w) ==> folded[i].typed(w)) by {
            Tree::lemma_fold_all(front, i);
            assert(ts[i].wf());
            front[i].lemma_fold_eval(w);
            if front[i].typed(w) {
                front[i].lemma_fold_typed(w);
            }
        }
        assert forall|i: int| 0 <= i < folded.len() implies (#[trigger] folded[i]).wf() by {
            Tree::lemma_fold_all(front, i);
            assert(ts[i].wf());
            front[i].lemma_fold_wf();
        }
        Tree::lemma_typed_all_congr(front, folded, w);
        Tree::lemma_guards_all_typed(folded, w);
    }

    /// Dropping guards that have evaluated keeps the rest typed.
    pub proof fn lemma_new_guards_typed(ctx: Seq<Tree>, guards: Seq<Tree>, w: World)
        requires
            Tree::all_ok(ctx, w),
            Tree::typed_all(guards, w),
        ensures
            Tree::typed_all(Tree::new_guards(ctx, guards), w),
        decreases guards.len(),
    {
        if guards.len() > 0 {
            let g = guards.last();
            let front = guards.drop_last();
            let fresh = Tree::new_guards(ctx, front);
            Tree::lemma_new_guards_typed(ctx, front, w);
            if !ctx.contains(g) && !fresh.contains(g) {
                assert(fresh.push(g).drop_last() =~= fresh);
                Tree::lemma_new_guards(ctx, front, w);
                Tree::lemma_eval_all_ok(front, w);
                Tree::lemma_eval_all_ok(fresh, w);
            }
        }
    }

    pub proof fn lemma_self_eq_typed(g: Tree, w: World)
        requires
            g.typed(w),
        ensures
            Tree::self_eq(g).typed(w),
    {
        let t = Tree::self_eq(g);
        Tree::lemma_self_eq(g, w);
        assert(t.kids.drop_last() =~= seq![g]);
        assert(seq![g].drop_last() =~= seq![]);
        assert(Tree::typed_all(seq![g].drop_last(), w));
        assert(seq![g].last() == g);
        assert(Tree::typed_all(seq![g], w));
        assert(t.kids.last() == g);
        assert(Tree::typed_all(t.kids, w));
        Tree::lemma_eval_all_ok(t.kids, w);
        assert(g.eval(w) matches Ok(v) ==> v.alike(v));
        if let Ok(vs) = Tree::eval_all(t.kids, w) {
            assert(t.kids[0].eval(w) == Ok::<Value, int>(vs[0]));
            assert(t.kids[1].eval(w) == Ok::<Value, int>(vs[1]));
        }
    }

    /// A chain of typed guards is typed.
    pub proof fn lemma_guard_chain_typed(guards: Seq<Tree>, w: World)
        requires
            Tree::typed_all(guards, w),
        ensures
            Tree::and_chain(guards.map_values(|g: Tree| Tree::self_eq(g))).typed(w),
        decreases guards.len(),
    {
        let eqs = guards.map_values(|g: Tree| Tree::self_eq(g));
        Tree::lemma_guard_chain(guards, w);
        if guards.len() == 0 {
            assert(eqs =~= seq![]);
        } else {
            Tree::lemma_typed_all_prefix(guards, 0, w);
            assert(guards.take(0) =~= seq![]);
            Tree::lemma_self_eq_typed(guards[0], w);
            Tree::lemma_self_eq(guards[0], w);
            assert(eqs[0] == Tree::self_eq(guards[0]));
            if guards.len() > 1 {
                let rest = guards.drop_first();
                if guards[0].eval(w) is Ok {
                    Tree::lemma_typed_all_tail(guards, w);
                    Tree::lemma_guard_chain_typed(rest, w);
                }
                assert(eqs.drop_first() =~= rest.map_values(|g: Tree| Tree::self_eq(g)));
                let t = Tree::and_chain(eqs);
                assert(t.kids[0] == eqs[0]);
                assert(t.kids[1] == Tree::and_chain(eqs.drop_first()));
            }
        }
    }

    pub proof fn lemma_typed_all_tail(ts: Seq<Tree>, w: World)
        requires
            ts.len() > 0,
            Tree::typed_all(ts, w),
            ts[0].eval(w) is Ok,
        ensures
            Tree::typed_all(ts.drop_first(), w),
        decreases ts.len(),
    {
        let rest = ts.drop_first();
        if rest.len() > 0 {
            let front = ts.drop_last();
            Tree::lemma_typed_all_tail(front, w);
            assert(front.drop_first() =~= rest.drop_last());
            assert(front =~= seq![ts[0]] + rest.drop_last());
            Tree::lemma_eval_all_ok(front, w);
            Tree::lemma_eval_all_ok(rest.drop_last(), w);
            Tree::lemma_eval_all_ok(seq![ts[0]], w);
            Tree::lemma_first_err_append(seq![ts[0]], rest.drop_last(), w);
            assert(seq![ts[0]].drop_last() =~= seq![]);
            assert(Tree::first_err(seq![ts[0]].drop_last(), w) is None);
        }
    }

    pub proof fn lemma_ite_typed(c: Tree, a: Tree, b: Tree, w: World)
        requires
            c.typed(w),
            c.eval(w) == Ok::<Value, int>(Value::Bool(true)) ==> a.typed(w),
            c.eval(w) == Ok::<Value, int>(Value::Bool(false)) ==> b.typed(w),
        ensures
            Tree::ite(c, a, b).typed(w),
    {
        let t = Tree::ite(c, a, b);
        assert(t.kids[0] == c && t.kids[1] == a && t.kids[2] == b);
        assert(a.typed(w) ==> (a.eval(w) matches Ok(v) ==> v.alike(v)));
        assert(b.typed(w) ==> (b.eval(w) matches Ok(v) ==> v.alike(v)));
    }

    pub proof fn lemma_guarded_typed(guards: Seq<Tree>, t: Tree, w: World)
        requires
            Tree::typed_all(guards, w),
            Tree::first_err(guards, w) is None ==> t.typed(w),
        ensures
            Tree::guarded(guards, t).typed(w),
    {
        if guards.len() > 0 {
            Tree::lemma_guard_chain_typed(guards, w);
            Tree::lemma_guard_chain(guards, w);
            let c = Tree::and_chain(guards.map_values(|g: Tree| Tree::self_eq(g)));
            Tree::lemma_ite_typed(c, t, Tree::bool(false), w);
        }
    }

    /// Replacing a child by a typed one that evaluates alike keeps a node
    /// typed.
    pub proof fn lemma_with_kid_typed(self, i: int, t: Tree, w: World)
        requires
            0 <= i < self.kids.len(),
            self.typed(w),
            t.eval(w) == self.kids[i].eval(w),
            t.typed(w),
        ensures
            self.with_kid(i, t).typed(w),
    {
        let r = self.with_kid(i, t);
        assert forall|j: int| 0 <= j < self.kids.len() implies (#[trigger] self.kids[j]).eval(w)
            == r.kids[j].eval(w) && (self.kids[j].typed(w) ==> r.kids[j].typed(w)) by {}
        Tree::lemma_typed_congr(self, r, w);
    }

    /// What a typed atom is split into is typed where it is evaluated.
    pub proof fn lemma_hoist_typed(self, w: World)
        requires
            self.wf(),
            !self.op.is_offender(),
            self.typed(w),
        ensures
            self.hoist() matches Some(h) ==> h.typed(w),
        decreases self, self.kids.len() + 1,
    {
        if !self.is_iferror() {
            self.lemma_hoist_from_typed(0, w);
        }
    }

    proof fn lemma_hoist_from_typed(self, i: int, w: World)
        requires
            self.wf(),
            !self.op.is_offender(),
            !self.is_iferror(),
            self.typed(w),
            0 <= i,
        ensures
            self.hoist_from(i) matches Some(h) ==> h.typed(w),
        decreases self, self.kids.len() - i,
    {
        if i < self.kids.len() {
            let kid = self.kids[i];
            let before = Tree::guards_all(Tree::fold_all(self.kids.take(i)));
            assert(kid.wf());
            assert(!(self.op is Lit) && !(self.op is Var));
            assert(Tree::typed_all(self.kids, w));
            Tree::lemma_before_eval(self.kids, i, w);
            Tree::lemma_before_typed(self.kids, i, w);
            Tree::lemma_typed_all_prefix(self.kids, i, w);
            if kid.op == Op::If && kid.kids.len() == 3 {
                if Tree::first_err(before, w) is None {
                    if kid.kids[0].eval(w) == Ok::<Value, int>(Value::Bool(true)) {
                        self.lemma_with_kid_typed(i, kid.kids[1], w);
                    }
                    if kid.kids[0].eval(w) == Ok::<Value, int>(Value::Bool(false)) {
                        self.lemma_with_kid_typed(i, kid.kids[2], w);
                    }
                }
            } else if kid.op.is_offender() && kid.kids.len() > 0 {
                kid.lemma_offender_bool(w);
                if Tree::first_err(before, w) is None {
                    assert(Tree::bool(true).eval(w) == Ok::<Value, int>(Value::Bool(true)));
                    assert(Tree::bool(false).eval(w) == Ok::<Value, int>(Value::Bool(false)));
                    assert(Tree::bool(true).typed(w) && Tree::bool(false).typed(w));
                    if kid.eval(w) == Ok::<Value, int>(Value::Bool(true)) {
                        self.lemma_with_kid_typed(i, Tree::bool(true), w);
                    }
                    if kid.eval(w) == Ok::<Value, int>(Value::Bool(false)) {
                        self.lemma_with_kid_typed(i, Tree::bool(false), w);
                    }
                }
            } else {
                match kid.hoist() {
                    Some(h) => {
                        Tree::lemma_first_err_append(before, h.guards, w);
                        Tree::lemma_eval_all_ok(before, w);
                        if Tree::first_err(before, w) is None {
                            kid.lemma_hoist_typed(w);
                            kid.lemma_hoist_eval(w);
                            if Tree::first_err(h.guards, w) is None {
                                let inner = Tree::ite(h.cond, h.yes, h.no);
                                assert(inner.kids[0] == h.cond && inner.kids[1] == h.yes
                                    && inner.kids[2] == h.no);
                                if h.cond.eval(w) == Ok::<Value, int>(Value::Bool(true)) {
                                    self.lemma_with_kid_typed(i, h.yes, w);
                                }
                                if h.cond.eval(w) == Ok::<Value, int>(Value::Bool(false)) {
                                    self.lemma_with_kid_typed(i, h.no, w);
                                }
                            }
                        }
                        Tree::lemma_typed_all_append(before, h.guards, w);
                    },
                    None => {
                        self.lemma_hoist_from_typed(i + 1, w);
                    },
                }
            }
        }
    }

    /// Splitting keeps a well-typed evaluation well typed.
    pub proof fn lemma_split_typed(self, ctx: Seq<Tree>, budget: int, w: World)
        requires
            self.wf(),
            self.typed(w),
            Tree::all_ok(ctx, w),
        ensures
            self.split(ctx, budget) matches Some((t, _)) ==> t.typed(w),
        decreases self.size(), 1nat,
    {
        assert forall|i: int| 0 <= i < self.kids.len() implies (#[trigger] self.kids[i]).size()
            < self.size() && self.kids[i].wf() by {
            Tree::lemma_kid_size(self.kids, i);
        }
        self.lemma_split_eval(ctx, budget, w);
        if self.op is Lit && self.op->Lit_0 is Bool {
        } else if self.op == Op::And && self.kids.len() == 2 {
            let k = self.kids[0];
            k.lemma_split_typed(ctx, budget, w);
            k.lemma_split_eval(ctx, budget, w);
            if let Some((l, b)) = k.split(ctx, budget) {
                if k.eval(w) == Ok::<Value, int>(Value::Bool(true)) {
                    k.lemma_learn(true, w);
                    Tree::lemma_all_ok_append(ctx, k.learn(true), w);
                    self.kids[1].lemma_split_typed(ctx + k.learn(true), b, w);
                }
                if let Some((r, _)) = self.kids[1].split(ctx + k.learn(true), b) {
                    assert(Tree::and(l, r).kids[0] == l && Tree::and(l, r).kids[1] == r);
                }
            }
        } else if self.op == Op::Or && self.kids.len() == 2 {
            let k = self.kids[0];
            k.lemma_split_typed(ctx, budget, w);
            k.lemma_split_eval(ctx, budget, w);
            if let Some((l, b)) = k.split(ctx, budget) {
                if k.eval(w) == Ok::<Value, int>(Value::Bool(false)) {
                    k.lemma_learn(false, w);
                    Tree::lemma_all_ok_append(ctx, k.learn(false), w);
                    self.kids[1].lemma_split_typed(ctx + k.learn(false), b, w);
                }
                if let Some((r, _)) = self.kids[1].split(ctx + k.learn(false), b) {
                    assert(Tree::or(l, r).kids[0] == l && Tree::or(l, r).kids[1] == r);
                }
            }
        } else if self.op == Op::Unary(UnaryOp::Not) && self.kids.len() == 1 {
            self.kids[0].lemma_split_typed(ctx, budget, w);
            if let Some((a, _)) = self.kids[0].split(ctx, budget) {
                assert(Tree::not(a).kids[0] == a);
            }
        } else if self.op == Op::If && self.kids.len() == 3 {
            let k = self.kids[0];
            k.lemma_split_typed(ctx, budget, w);
            k.lemma_split_eval(ctx, budget, w);
            if let Some((c, b)) = k.split(ctx, budget) {
                let yes = ctx + k.learn(true);
                let no = ctx + k.learn(false);
                if k.eval(w) == Ok::<Value, int>(Value::Bool(true)) {
                    k.lemma_learn(true, w);
                    Tree::lemma_all_ok_append(ctx, k.learn(true), w);
                    self.kids[1].lemma_split_typed(yes, b, w);
                }
                if let Some((t, b)) = self.kids[1].split(yes, b) {
                    if k.eval(w) == Ok::<Value, int>(Value::Bool(false)) {
                        k.lemma_learn(false, w);
                        Tree::lemma_all_ok_append(ctx, k.learn(false), w);
                        self.kids[2].lemma_split_typed(no, b, w);
                    }
                    if let Some((e, b)) = self.kids[2].split(no, b) {
                        Tree::lemma_ite_typed(c, t, e, w);
                    }
                }
            }
        } else {
            self.lemma_split_atom_typed(ctx, budget, w);
        }
    }

    proof fn lemma_split_atom_typed(self, ctx: Seq<Tree>, budget: int, w: World)
        requires
            self.wf(),
            !self.op.is_offender(),
            self.typed(w),
            Tree::all_ok(ctx, w),
        ensures
            self.split_atom(ctx, budget) matches Some((t, _)) ==> t.typed(w),
        decreases self.size(), 0nat,
    {
        if self.size() <= budget {
            self.lemma_hoist_size();
            self.lemma_hoist_wf();
            self.lemma_hoist_typed(w);
            match self.hoist() {
                None => {
                    self.lemma_fold_typed(w);
                },
                Some(h) => {
                    let fresh = Tree::new_guards(ctx, h.guards);
                    let inner = ctx + fresh;
                    let copies = inner + h.cond.evaluated();
                    Tree::lemma_new_guards(ctx, h.guards, w);
                    Tree::lemma_new_guards_typed(ctx, h.guards, w);
                    Tree::lemma_first_err_none(fresh, w);
                    if Tree::first_err(fresh, w) is None {
                        Tree::lemma_all_ok_append(ctx, fresh, w);
                        h.cond.lemma_split_typed(inner, budget - self.size(), w);
                        h.cond.lemma_split_eval(inner, budget - self.size(), w);
                        if h.cond.eval(w) is Ok {
                            h.cond.lemma_evaluated(w);
                            Tree::lemma_all_ok_append(inner, h.cond.evaluated(), w);
                        }
                    }
                    if let Some((test, b)) = h.cond.split(inner, budget - self.size()) {
                        if Tree::first_err(fresh, w) is None && h.cond.eval(w) == Ok::<Value, int>(
                            Value::Bool(true),
                        ) {
                            h.yes.lemma_split_atom_typed(copies, b, w);
                        }
                        if let Some((yes, b)) = h.yes.split_atom(copies, b) {
                            if Tree::first_err(fresh, w) is None && h.cond.eval(w) == Ok::<
                                Value,
                                int,
                            >(Value::Bool(false)) {
                                h.no.lemma_split_atom_typed(copies, b, w);
                            }
                            if let Some((no, b)) = h.no.split_atom(copies, b) {
                                if Tree::first_err(fresh, w) is None {
                                    Tree::lemma_ite_typed(test, yes, no, w);
                                }
                                Tree::lemma_guarded_typed(fresh, Tree::ite(test, yes, no), w);
                            }
                        }
                    }
                },
            }
        }
    }
}

impl Hoisted {
    /// What the atom is split into is typed where it is evaluated.
    pub open spec fn typed(self, w: World) -> bool {
        &&& Tree::typed_all(self.guards, w)
        &&& Tree::first_err(self.guards, w) is None ==> {
            &&& self.cond.typed(w)
            &&& self.cond.eval(w) == Ok::<Value, int>(Value::Bool(true)) ==> self.yes.typed(w)
            &&& self.cond.eval(w) == Ok::<Value, int>(Value::Bool(false)) ==> self.no.typed(w)
        }
    }
}

} // verus!
