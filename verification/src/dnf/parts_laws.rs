//! Which parts of an expression the normalization looks at, by where they
//! stand.

use vstd::prelude::*;

use crate::ast::{BinaryOp, Expr, UnaryOp};
use crate::evaluator::guards::{at_path, stands_in};
use crate::model::{Value, World};
use crate::policy::{Effect, Policy, PolicyView};
use crate::tree::{Atomic, Op, Tree};

use super::combine::permit_fails;
use super::policy::copies_error;
use super::{Dnf, DnfError};

verus! {

/// The path leads from operand to operand through `&&` (`conj`) or `||` alone.
pub open spec fn is_spine_path(t: Tree, path: Seq<int>, conj: bool) -> bool
    decreases path.len(),
{
    path.len() == 0 || {
        &&& t.op == (if conj {
            Op::And
        } else {
            Op::Or
        })
        &&& t.kids.len() == 2
        &&& 0 <= path[0] < 2
        &&& is_spine_path(t.kids[path[0]], path.drop_first(), conj)
    }
}

/// The expression is `&&` (`conj`) or `||`, or the literal that changes nothing
/// there.
pub open spec fn is_spine(t: Tree, conj: bool) -> bool {
    ||| t.op == (if conj {
        Op::And
    } else {
        Op::Or
    }) && t.kids.len() == 2
    ||| t.op == Op::Lit(Atomic::Bool(conj))
}

/// The conjuncts (or the disjuncts) of an expression are what is reached
/// through `&&` (or `||`) alone, down to what is no `&&` (or `||`), without the
/// literals `true` (or `false`).
pub proof fn law_spine_is_reached_through_the_operator(t: Tree, conj: bool, x: Tree)
    ensures
        t.spine(conj).contains(x) <==> !is_spine(x, conj) && exists|path: Seq<int>| #[trigger]
            is_spine_path(t, path, conj) && at_path(t, path) == Some(x),
    decreases t,
{
    let all = t.spine(conj);
    let joins = t.op == (if conj {
        Op::And
    } else {
        Op::Or
    }) && t.kids.len() == 2;
    if joins {
        law_spine_is_reached_through_the_operator(t.kids[0], conj, x);
        law_spine_is_reached_through_the_operator(t.kids[1], conj, x);
        let a = t.kids[0].spine(conj);
        let b = t.kids[1].spine(conj);
        lemma_contains_append(a, b, x);
        if all.contains(x) {
            let i = if a.contains(x) {
                0int
            } else {
                1int
            };
            let p = choose|p: Seq<int>| #[trigger]
                is_spine_path(t.kids[i], p, conj) && at_path(t.kids[i], p) == Some(x);
            let q = seq![i] + p;
            assert(q.drop_first() =~= p);
            assert(is_spine_path(t, q, conj) && at_path(t, q) == Some(x));
        }
        if !is_spine(x, conj) && exists|path: Seq<int>| #[trigger]
            is_spine_path(t, path, conj) && at_path(t, path) == Some(x) {
            let p = choose|p: Seq<int>| #[trigger]
                is_spine_path(t, p, conj) && at_path(t, p) == Some(x);
            assert(p.len() > 0);
            let q = p.drop_first();
            assert(is_spine_path(t.kids[p[0]], q, conj) && at_path(t.kids[p[0]], q) == Some(x));
        }
    } else {
        if all.contains(x) {
            assert(all[0] == x);
            assert(is_spine_path(t, Seq::empty(), conj) && at_path(t, Seq::empty()) == Some(x));
        }
        if !is_spine(x, conj) && exists|path: Seq<int>| #[trigger]
            is_spine_path(t, path, conj) && at_path(t, path) == Some(x) {
            let p = choose|p: Seq<int>| #[trigger]
                is_spine_path(t, p, conj) && at_path(t, p) == Some(x);
            assert(p.len() == 0);
            assert(all[0] == x);
        }
    }
}

proof fn lemma_contains_append(a: Seq<Tree>, b: Seq<Tree>, x: Tree)
    ensures
        (a + b).contains(x) <==> a.contains(x) || b.contains(x),
{
    if a.contains(x) {
        let i = a.index_of(x);
        assert((a + b)[i] == x);
    }
    if b.contains(x) {
        let i = b.index_of(x);
        assert((a + b)[a.len() + i] == x);
    }
    if (a + b).contains(x) {
        let i = (a + b).index_of(x);
        if i < a.len() {
            assert(a[i] == x);
        } else {
            assert(b[i - a.len()] == x);
        }
    }
}

/// An expression is true exactly if all of its conjuncts are, and false exactly
/// if all of its disjuncts are.
pub proof fn law_spine_decides(t: Tree, conj: bool, w: World)
    ensures
        t.eval(w) == Ok::<Value, int>(Value::Bool(conj)) <==> forall|i: int|
            0 <= i < t.spine(conj).len() ==> (#[trigger] t.spine(conj)[i]).eval(w) == Ok::<
                Value,
                int,
            >(Value::Bool(conj)),
    decreases t,
{
    let all = t.spine(conj);
    let yes = Ok::<Value, int>(Value::Bool(conj));
    let joins = t.op == (if conj {
        Op::And
    } else {
        Op::Or
    }) && t.kids.len() == 2;
    if joins {
        law_spine_decides(t.kids[0], conj, w);
        law_spine_decides(t.kids[1], conj, w);
        let a = t.kids[0].spine(conj);
        let b = t.kids[1].spine(conj);
        assert(all == a + b);
        assert(t.eval(w) == yes <==> t.kids[0].eval(w) == yes && t.kids[1].eval(w) == yes);
        if forall|i: int| 0 <= i < all.len() ==> (#[trigger] all[i]).eval(w) == yes {
            assert forall|i: int| 0 <= i < a.len() implies (#[trigger] a[i]).eval(w) == yes by {
                assert(all[i] == a[i]);
            }
            assert forall|i: int| 0 <= i < b.len() implies (#[trigger] b[i]).eval(w) == yes by {
                assert(all[a.len() + i] == b[i]);
            }
        }
        if t.eval(w) == yes {
            assert forall|i: int| 0 <= i < all.len() implies (#[trigger] all[i]).eval(w) == yes by {
                if i < a.len() {
                    assert(all[i] == a[i]);
                } else {
                    assert(all[i] == b[i - a.len()]);
                }
            }
        }
    } else if t.op == Op::Lit(Atomic::Bool(conj)) {
        assert(t.eval(w) == yes);
    } else {
        assert(all[0] == t);
    }
}

/// The operator cannot err by itself: a literal, a variable, a set, a record,
/// or `==`.
pub open spec fn is_total(op: Op) -> bool {
    op is Lit || op is Var || op is SetLit || op is Record || op == Op::Binary(BinaryOp::Eq)
}

/// The path leads through what cannot err by itself alone.
pub open spec fn is_total_path(t: Tree, path: Seq<int>) -> bool
    decreases path.len(),
{
    path.len() == 0 || {
        &&& is_total(t.op)
        &&& 0 <= path[0] < t.kids.len()
        &&& is_total_path(t.kids[path[0]], path.drop_first())
    }
}

/// The guards of an expression are the outermost parts of it that can err by
/// themselves.
pub proof fn law_guards_are_the_outermost_that_can_err(t: Tree, x: Tree)
    ensures
        t.guards().contains(x) <==> !is_total(x.op) && exists|path: Seq<int>| #[trigger]
            is_total_path(t, path) && at_path(t, path) == Some(x),
    decreases t, 1nat,
{
    if t.op.never_errs() {
        lemma_guards_all(t.kids, x);
        if t.guards().contains(x) {
            let i = choose|i: int| 0 <= i < t.kids.len() && (#[trigger] t.kids[i]).guards().contains(x);
            law_guards_are_the_outermost_that_can_err(t.kids[i], x);
            let p = choose|p: Seq<int>| #[trigger]
                is_total_path(t.kids[i], p) && at_path(t.kids[i], p) == Some(x);
            let q = seq![i] + p;
            assert(q.drop_first() =~= p);
            assert(is_total_path(t, q) && at_path(t, q) == Some(x));
        }
        if !is_total(x.op) && exists|path: Seq<int>| #[trigger]
            is_total_path(t, path) && at_path(t, path) == Some(x) {
            let p = choose|p: Seq<int>| #[trigger]
                is_total_path(t, p) && at_path(t, p) == Some(x);
            assert(p.len() > 0);
            let i = p[0];
            let q = p.drop_first();
            assert(is_total_path(t.kids[i], q) && at_path(t.kids[i], q) == Some(x));
            law_guards_are_the_outermost_that_can_err(t.kids[i], x);
            assert(t.kids[i].guards().contains(x));
        }
    } else {
        if t.guards().contains(x) {
            assert(t.guards()[0] == x);
            assert(is_total_path(t, Seq::empty()) && at_path(t, Seq::empty()) == Some(x));
        }
        if !is_total(x.op) && exists|path: Seq<int>| #[trigger]
            is_total_path(t, path) && at_path(t, path) == Some(x) {
            let p = choose|p: Seq<int>| #[trigger]
                is_total_path(t, p) && at_path(t, p) == Some(x);
            assert(p.len() == 0);
            assert(t.guards()[0] == x);
        }
    }
}

proof fn lemma_guards_all(ts: Seq<Tree>, x: Tree)
    ensures
        Tree::guards_all(ts).contains(x) <==> exists|i: int|
            0 <= i < ts.len() && (#[trigger] ts[i]).guards().contains(x),
    decreases ts, 0nat,
{
    if ts.len() > 0 {
        let f = ts.drop_last();
        let n = f.len() as int;
        lemma_guards_all(f, x);
        lemma_contains_append(Tree::guards_all(f), ts.last().guards(), x);
        if Tree::guards_all(f).contains(x) {
            let i = choose|i: int| 0 <= i < f.len() && (#[trigger] f[i]).guards().contains(x);
            assert(ts[i].guards().contains(x));
        }
        if ts.last().guards().contains(x) {
            assert(ts[n].guards().contains(x));
        }
        if exists|i: int| 0 <= i < ts.len() && (#[trigger] ts[i]).guards().contains(x) {
            let i = choose|i: int| 0 <= i < ts.len() && (#[trigger] ts[i]).guards().contains(x);
            if i < n {
                assert(f[i].guards().contains(x));
            }
        }
    }
}

/// The path leads to what is evaluated whenever the expression is: not into an
/// `iferror`, and of `&&`, `||` and `if` into the first operand alone.
pub open spec fn is_evaluated_path(t: Tree, path: Seq<int>) -> bool
    decreases path.len(),
{
    path.len() == 0 || {
        &&& !t.is_iferror()
        &&& 0 <= path[0] < t.kids.len()
        &&& t.op == Op::And || t.op == Op::Or || t.op == Op::If ==> path[0] == 0
        &&& is_evaluated_path(t.kids[path[0]], path.drop_first())
    }
}

/// What is known to have evaluated where an expression has is every part of it
/// that is evaluated whenever it is, of those that can err by themselves.
pub proof fn law_evaluated_is_what_is_always_evaluated(t: Tree, x: Tree)
    ensures
        t.evaluated().contains(x) <==> !is_total(x.op) && exists|path: Seq<int>| #[trigger]
            is_evaluated_path(t, path) && at_path(t, path) == Some(x),
    decreases t, 1nat,
{
    let own = if t.op.never_errs() {
        seq![]
    } else {
        seq![t]
    };
    let first = (t.op == Op::If || t.op == Op::And || t.op == Op::Or) && t.kids.len() > 0;
    let below = if t.is_iferror() {
        seq![]
    } else if first {
        t.kids[0].evaluated()
    } else {
        Tree::evaluated_all(t.kids)
    };
    assert(t.evaluated() == own + below);
    lemma_contains_append(own, below, x);
    lemma_evaluated_all(t.kids, x);
    if own.contains(x) {
        assert(own[0] == x);
        assert(is_evaluated_path(t, Seq::empty()) && at_path(t, Seq::empty()) == Some(x));
    }
    if below.contains(x) {
        let i = if first {
            0int
        } else {
            choose|i: int| 0 <= i < t.kids.len() && (#[trigger] t.kids[i]).evaluated().contains(x)
        };
        law_evaluated_is_what_is_always_evaluated(t.kids[i], x);
        let p = choose|p: Seq<int>| #[trigger]
            is_evaluated_path(t.kids[i], p) && at_path(t.kids[i], p) == Some(x);
        let q = seq![i] + p;
        assert(q.drop_first() =~= p);
        assert(is_evaluated_path(t, q) && at_path(t, q) == Some(x));
    }
    if !is_total(x.op) && exists|path: Seq<int>| #[trigger]
        is_evaluated_path(t, path) && at_path(t, path) == Some(x) {
        let p = choose|p: Seq<int>| #[trigger]
            is_evaluated_path(t, p) && at_path(t, p) == Some(x);
        if p.len() == 0 {
            assert(own[0] == x);
        } else {
            let i = p[0];
            let q = p.drop_first();
            assert(is_evaluated_path(t.kids[i], q) && at_path(t.kids[i], q) == Some(x));
            law_evaluated_is_what_is_always_evaluated(t.kids[i], x);
            assert(t.kids[i].evaluated().contains(x));
        }
    }
}

proof fn lemma_evaluated_all(ts: Seq<Tree>, x: Tree)
    ensures
        Tree::evaluated_all(ts).contains(x) <==> exists|i: int|
            0 <= i < ts.len() && (#[trigger] ts[i]).evaluated().contains(x),
    decreases ts, 0nat,
{
    if ts.len() > 0 {
        let f = ts.drop_last();
        let n = f.len() as int;
        lemma_evaluated_all(f, x);
        lemma_contains_append(Tree::evaluated_all(f), ts.last().evaluated(), x);
        if Tree::evaluated_all(f).contains(x) {
            let i = choose|i: int| 0 <= i < f.len() && (#[trigger] f[i]).evaluated().contains(x);
            assert(ts[i].evaluated().contains(x));
        }
        if ts.last().evaluated().contains(x) {
            assert(ts[n].evaluated().contains(x));
        }
        if exists|i: int| 0 <= i < ts.len() && (#[trigger] ts[i]).evaluated().contains(x) {
            let i = choose|i: int| 0 <= i < ts.len() && (#[trigger] ts[i]).evaluated().contains(x);
            if i < n {
                assert(f[i].evaluated().contains(x));
            }
        }
    }
}

/// What is learned of a condition that was true (or false) is what is always
/// evaluated of each of its conjuncts (or disjuncts).
pub proof fn law_learned_of_each_conjunct(t: Tree, conj: bool, x: Tree)
    ensures
        t.learn(conj).contains(x) <==> exists|i: int|
            0 <= i < t.spine(conj).len() && (#[trigger] t.spine(conj)[i]).evaluated().contains(x),
{
    lemma_evaluated_all(t.spine(conj), x);
}

/// The guards that are added are those that are not known yet, each once and in
/// their order.
pub proof fn law_new_guards_are_those_not_known(ctx: Seq<Tree>, guards: Seq<Tree>) -> (at: Seq<int>)
    ensures
        at.len() == Tree::new_guards(ctx, guards).len(),
        forall|k: int|
            0 <= k < at.len() ==> 0 <= (#[trigger] at[k]) < guards.len() && Tree::new_guards(
                ctx,
                guards,
            )[k] == guards[at[k]] && !ctx.contains(guards[at[k]]) && forall|j: int|
                0 <= j < at[k] ==> #[trigger] guards[j] != guards[at[k]],
        forall|k: int, l: int| 0 <= k < l < at.len() ==> (#[trigger] at[k]) < (#[trigger] at[l]),
        forall|x: Tree| #[trigger]
            Tree::new_guards(ctx, guards).contains(x) <==> guards.contains(x) && !ctx.contains(x),
    decreases guards.len(),
{
    if guards.len() == 0 {
        seq![]
    } else {
        let f = guards.drop_last();
        let g = guards.last();
        let n = f.len() as int;
        let front = law_new_guards_are_those_not_known(ctx, f);
        let before = Tree::new_guards(ctx, f);
        let after = Tree::new_guards(ctx, guards);
        assert(guards =~= f.push(g));
        assert forall|x: Tree| #[trigger] guards.contains(x) <==> f.contains(x) || x == g by {
            if f.contains(x) {
                let i = f.index_of(x);
                assert(guards[i] == x);
            }
            if x == g {
                assert(guards[n] == x);
            }
            if guards.contains(x) {
                let i = guards.index_of(x);
                if i < n {
                    assert(f[i] == x);
                }
            }
        }
        assert forall|k: int| 0 <= k < front.len() implies 0 <= (#[trigger] front[k]) < n
            && before[k] == guards[front[k]] && !ctx.contains(guards[front[k]]) && forall|j: int|
            0 <= j < front[k] ==> #[trigger] guards[j] != guards[front[k]] by {
            assert(f[front[k]] == guards[front[k]]);
            assert forall|j: int| 0 <= j < front[k] implies #[trigger] guards[j]
                != guards[front[k]] by {
                assert(f[j] != f[front[k]]);
            }
        }
        if ctx.contains(g) || before.contains(g) {
            assert forall|x: Tree| #[trigger] after.contains(x) <==> guards.contains(x)
                && !ctx.contains(x) by {
                assert(before.contains(x) <==> f.contains(x) && !ctx.contains(x));
                assert(guards.contains(x) <==> f.contains(x) || x == g);
            }
            front
        } else {
            let at = front.push(n);
            assert(after == before.push(g));
            assert(!f.contains(g));
            assert forall|k: int| 0 <= k < at.len() implies 0 <= (#[trigger] at[k]) < guards.len()
                && after[k] == guards[at[k]] && !ctx.contains(guards[at[k]]) && forall|j: int|
                0 <= j < at[k] ==> #[trigger] guards[j] != guards[at[k]] by {
                if k < front.len() {
                    assert(at[k] == front[k]);
                } else {
                    assert forall|j: int| 0 <= j < n implies #[trigger] guards[j] != g by {
                        assert(f[j] == guards[j]);
                        assert(f.contains(f[j]));
                    }
                }
            }
            assert forall|x: Tree| #[trigger] after.contains(x) <==> guards.contains(x)
                && !ctx.contains(x) by {
                assert(before.contains(x) <==> f.contains(x) && !ctx.contains(x));
                if before.contains(x) {
                    let i = before.index_of(x);
                    assert(after[i] == x);
                }
                if x == g {
                    assert(after[before.len() as int] == x);
                }
                if after.contains(x) {
                    let i = after.index_of(x);
                    if i < before.len() {
                        assert(before[i] == x);
                    }
                }
            }
            at
        }
    }
}

/// The guards that are dropped are the longest tail of them that the term
/// evaluates itself, first and in the same order.
pub proof fn law_dropped_guards_are_the_longest_repeated_tail(guards: Seq<Tree>, term: Tree)
    ensures
        ({
            let kept = Tree::drop_repeated(guards, term);
            let order = term.eval_list().0;
            &&& kept.len() <= guards.len()
            &&& kept == guards.take(kept.len() as int)
            &&& guards.len() - kept.len() <= order.len()
            &&& forall|i: int|
                kept.len() <= i < guards.len() ==> #[trigger] guards[i] == order[i - kept.len()]
            &&& forall|k: int|
                0 <= k < kept.len() ==> #[trigger] is_not_repeated(guards, order, k)
        }),
{
    let order = term.eval_list().0;
    lemma_repeated_from(guards, order, 0);
    let n = Tree::repeated_from(guards, order, 0);
    if n < guards.len() {
        assert forall|i: int| n <= i < guards.len() implies #[trigger] guards[i] == order[i - n] by {
            let tail = guards.skip(n);
            assert(tail[i - n] == guards[i]);
            assert(order.take(tail.len() as int)[i - n] == tail[i - n]);
        }
    }
    assert forall|k: int| 0 <= k < n implies #[trigger] is_not_repeated(guards, order, k) by {
        let tail = guards.skip(k);
        if guards.len() - k <= order.len() {
            if forall|i: int| k <= i < guards.len() ==> !#[trigger] differs_at(guards, order, k, i) {
                assert forall|j: int| 0 <= j < tail.len() implies tail[j] == order.take(
                    tail.len() as int,
                )[j] by {
                    assert(!differs_at(guards, order, k, k + j));
                }
                assert(order.take(tail.len() as int) =~= tail);
                assert(Tree::starts(tail, order));
            }
        }
    }
}

/// The guards from `k` on are not what the order starts with.
pub open spec fn is_not_repeated(guards: Seq<Tree>, order: Seq<Tree>, k: int) -> bool {
    guards.len() - k > order.len() || exists|i: int|
        k <= i < guards.len() && #[trigger] differs_at(guards, order, k, i)
}

/// Behind `k`, the guards and the order differ at `i`.
pub open spec fn differs_at(guards: Seq<Tree>, order: Seq<Tree>, k: int, i: int) -> bool {
    guards[i] != order[i - k]
}

proof fn lemma_repeated_from(guards: Seq<Tree>, order: Seq<Tree>, k: int)
    requires
        0 <= k <= guards.len(),
    ensures
        ({
            let n = Tree::repeated_from(guards, order, k);
            &&& k <= n <= guards.len()
            &&& n < guards.len() ==> Tree::starts(guards.skip(n), order)
            &&& forall|j: int| k <= j < n ==> !#[trigger] Tree::starts(guards.skip(j), order)
        }),
    decreases guards.len() - k,
{
    if k < guards.len() && !Tree::starts(guards.skip(k), order) {
        lemma_repeated_from(guards, order, k + 1);
    }
}

/// After folding, no `==` compares two literals.
pub proof fn law_fold_leaves_no_literal_comparison(t: Tree, path: Seq<int>)
    ensures
        at_path(t.fold(), path) matches Some(x) ==> !(x.op == Op::Binary(BinaryOp::Eq)
            && x.kids.len() == 2 && x.kids[0].op is Lit && x.kids[1].op is Lit),
    decreases t,
{
    let f = t.fold();
    lemma_fold_all(t.kids);
    if path.len() > 0 && at_path(f, path) is Some {
        let i = path[0];
        assert(0 <= i < f.kids.len());
        assert(f.kids[i] == t.kids[i].fold());
        law_fold_leaves_no_literal_comparison(t.kids[i], path.drop_first());
    }
}

proof fn lemma_fold_all(ts: Seq<Tree>)
    ensures
        Tree::fold_all(ts).len() == ts.len(),
        forall|i: int| 0 <= i < ts.len() ==> #[trigger] Tree::fold_all(ts)[i] == ts[i].fold(),
    decreases ts.len(),
{
    if ts.len() > 0 {
        lemma_fold_all(ts.drop_last());
        assert forall|i: int| 0 <= i < ts.len() implies #[trigger] Tree::fold_all(ts)[i]
            == ts[i].fold() by {
            if i < ts.len() - 1 {
                assert(ts.drop_last()[i] == ts[i]);
            }
        }
    }
}

/// The permits that a set is combined into are its permits, each once and in
/// their order, with nothing but their `when` clause changed.
pub proof fn law_combined_permits_keep_the_rest(ps: Seq<PolicyView>, ws: Seq<Tree>) -> (at: Seq<int>)
    ensures
        at.len() == PolicyView::combined(ps, ws).len(),
        forall|k: int|
            0 <= k < at.len() ==> {
                let p = ps[#[trigger] at[k]];
                let c = PolicyView::combined(ps, ws)[k];
                &&& 0 <= at[k] < ps.len()
                &&& p.effect is Permit
                &&& c.id == p.id && c.effect == p.effect && c.annotations == p.annotations && c.loc
                    == p.loc
                &&& c.principal == p.principal && c.action == p.action && c.resource == p.resource
            },
        forall|k: int, l: int| 0 <= k < l < at.len() ==> (#[trigger] at[k]) < (#[trigger] at[l]),
        forall|i: int|
            0 <= i < ps.len() && (#[trigger] ps[i]).effect is Permit ==> at.contains(i),
    decreases ps.len(),
{
    if ps.len() == 0 {
        seq![]
    } else {
        let f = ps.drop_last();
        let n = f.len() as int;
        let front = law_combined_permits_keep_the_rest(f, ws);
        assert forall|i: int| 0 <= i < n implies #[trigger] f[i] == ps[i] by {}
        if ps.last().effect == Effect::Permit {
            let at = front.push(n);
            assert forall|k: int| 0 <= k < at.len() implies {
                let p = ps[#[trigger] at[k]];
                let c = PolicyView::combined(ps, ws)[k];
                &&& 0 <= at[k] < ps.len()
                &&& p.effect is Permit
                &&& c.id == p.id && c.effect == p.effect && c.annotations == p.annotations && c.loc
                    == p.loc
                &&& c.principal == p.principal && c.action == p.action && c.resource == p.resource
            } by {
                if k < n && k < front.len() {
                    assert(at[k] == front[k]);
                    assert(f[front[k]] == ps[front[k]]);
                }
            }
            assert forall|i: int|
                0 <= i < ps.len() && (#[trigger] ps[i]).effect is Permit implies at.contains(i) by {
                if i < n {
                    assert(f[i].effect is Permit);
                    let j = front.index_of(i);
                    assert(at[j] == i);
                } else {
                    assert(at[front.len() as int] == i);
                }
            }
            at
        } else {
            assert forall|i: int|
                0 <= i < ps.len() && (#[trigger] ps[i]).effect is Permit implies front.contains(
                i,
            ) by {
                assert(f[i].effect is Permit);
            }
            assert forall|k: int| 0 <= k < front.len() implies 0 <= (#[trigger] front[k]) < n
                && f[front[k]] == ps[front[k]] by {}
            front
        }
    }
}

/// The policies that a policy is split into keep its effect, scope, annotations
/// and location, and their ids are its id, `.cube` and the numerals from `0` on.
pub proof fn law_split_policies_keep_the_rest(
    p: Policy,
    e: &Expr<()>,
    max_cubes: usize,
    i: int,
)
    requires
        p.split_result(e, max_cubes) is Ok,
        0 <= i < p.split_result(e, max_cubes)->Ok_0.len(),
    ensures
        ({
            let ps = p.split_result(e, max_cubes)->Ok_0;
            let n = ps[i].id.len() - p.id@.len() - 5;
            &&& ps[i].effect == p.effect
            &&& ps[i].annotations == p.annotations
            &&& ps[i].loc == p.loc
            &&& ps[i].principal == p@.principal
            &&& ps[i].action == p@.action
            &&& ps[i].resource == p@.resource
            &&& ps[i].when is Some
            &&& n > 0
            &&& ps[i].id == p.id@ + seq!['.', 'c', 'u', 'b', 'e'] + ps[i].id.skip(
                (p.id@.len() + 5) as int,
            )
            &&& crate::text_laws::numeral_value(ps[i].id.skip((p.id@.len() + 5) as int)) == i
        }),
{
    let ps = p.split_result(e, max_cubes)->Ok_0;
    let d = crate::text::digits(i as nat);
    reveal_strlit(".cube");
    assert(".cube"@ =~= seq!['.', 'c', 'u', 'b', 'e']);
    crate::text_laws::law_numeral_stands_for_its_number(i as nat);
    assert(ps[i].id == p.id@ + ".cube"@ + d);
    assert(ps[i].id.skip((p.id@.len() + 5) as int) =~= d);
}

/// A policy is split into no more policies than the bound.
pub proof fn law_split_stays_within_the_bound(p: Policy, e: &Expr<()>, max_cubes: usize)
    ensures
        p.split_result(e, max_cubes) matches Ok(ps) ==> ps.len() <= max_cubes,
{
    law_no_more_cubes_than_paths(e, |a: Expr<()>| false);
}

/// There are no more cubes than paths.
pub proof fn law_no_more_cubes_than_paths<T>(e: &Expr<T>, can_error: spec_fn(Expr<T>) -> bool)
    ensures
        Dnf::of_spec(e, can_error).len() <= e.routes().len(),
{
    lemma_prune_len(e.routes(), seq![], can_error);
}

proof fn lemma_prune_len<T>(
    routes: Seq<super::paths::Route<T>>,
    later: Seq<super::paths::Route<T>>,
    can_error: spec_fn(Expr<T>) -> bool,
)
    ensures
        super::paths::Route::prune(routes, later, can_error).len() <= routes.len() + later.len(),
    decreases routes.len(),
{
    if routes.len() > 0 {
        let r = routes.last();
        let front = routes.drop_last();
        if r.needed(front + later, can_error) {
            lemma_prune_len(front, seq![r] + later, can_error);
        } else {
            lemma_prune_len(front, later, can_error);
        }
    }
}

/// Static copies of policies can be made exactly if no linked one has a slot
/// left, in its scope or its condition, and no two have the same id.
pub proof fn law_copies_can_be_made(ps: Seq<Policy>)
    ensures
        copies_error(ps, 0) is None <==> (forall|i: int|
            0 <= i < ps.len() ==> !(#[trigger] ps[i]).has_slot_left()) && forall|i: int, j: int|
            0 <= i < j < ps.len() ==> (#[trigger] ps[i]).id@ != (#[trigger] ps[j]).id@,
        copies_error(ps, 0) matches Some(e) ==> e == DnfError::Unsupported(
            "policy with an unfilled slot",
        ) || e == DnfError::Unsupported("duplicate policy id"),
{
    lemma_copies(ps, 0);
}

impl Policy {
    /// The policy is linked, and yet a slot is left in its scope or in its
    /// condition.
    pub open spec fn has_slot_left(&self) -> bool {
        &&& self.principal_slot is Some || self.resource_slot is Some
        &&& !self.grounded() || (self.when matches Some(e) && exists|x: Tree| #[trigger]
            stands_in(e.tree(), x) && x.op is Slot)
    }
}

proof fn lemma_copies(ps: Seq<Policy>, i: int)
    requires
        0 <= i <= ps.len(),
    ensures
        copies_error(ps, i) is None <==> (forall|k: int|
            i <= k < ps.len() ==> !(#[trigger] ps[k]).has_slot_left()) && forall|j: int, k: int|
            0 <= j < k < ps.len() && i <= k ==> (#[trigger] ps[j]).id@ != (#[trigger] ps[k]).id@,
        copies_error(ps, i) matches Some(e) ==> e == DnfError::Unsupported(
            "policy with an unfilled slot",
        ) || e == DnfError::Unsupported("duplicate policy id"),
    decreases ps.len() - i,
{
    if i < ps.len() {
        lemma_copies(ps, i + 1);
        let p = ps[i];
        assert(p.copy_fails() == p.has_slot_left()) by {
            if let Some(e) = p.when {
                lemma_slot_stands(e.tree());
            }
            assert(!Tree::bool(true).has_slot());
        }
        if copies_error(ps, i) is None {
            assert forall|j: int, k: int| 0 <= j < k < ps.len() && i <= k implies (
            #[trigger] ps[j]).id@ != (#[trigger] ps[k]).id@ by {
                if k == i {
                    assert(!(ps[j]@.id == ps[i]@.id));
                }
            }
        } else if !p.copy_fails() && exists|j: int|
            0 <= j < i && (#[trigger] ps[j])@.id == ps[i]@.id {
            let j = choose|j: int| 0 <= j < i && (#[trigger] ps[j])@.id == ps[i]@.id;
            assert(ps[j].id@ == ps[i].id@);
        }
    }
}

/// A slot is there exactly if one stands somewhere.
proof fn lemma_slot_stands(t: Tree)
    ensures
        t.has_slot() <==> exists|x: Tree| #[trigger] stands_in(t, x) && x.op is Slot,
    decreases t,
{
    if t.has_slot() {
        if t.op is Slot {
            assert(at_path(t, Seq::empty()) == Some(t));
            assert(stands_in(t, t));
        } else {
            let i = choose|i: int| 0 <= i < t.kids.len() && (#[trigger] t.kids[i]).has_slot();
            lemma_slot_stands(t.kids[i]);
            let x = choose|x: Tree| #[trigger] stands_in(t.kids[i], x) && x.op is Slot;
            let p = choose|p: Seq<int>| #[trigger] at_path(t.kids[i], p) == Some(x);
            let q = seq![i] + p;
            assert(q.drop_first() =~= p);
            assert(at_path(t, q) == Some(x));
            assert(stands_in(t, x));
        }
    }
    if exists|x: Tree| #[trigger] stands_in(t, x) && x.op is Slot {
        let x = choose|x: Tree| #[trigger] stands_in(t, x) && x.op is Slot;
        let p = choose|p: Seq<int>| #[trigger] at_path(t, p) == Some(x);
        if p.len() > 0 {
            let i = p[0];
            assert(at_path(t.kids[i], p.drop_first()) == Some(x));
            assert(stands_in(t.kids[i], x));
            lemma_slot_stands(t.kids[i]);
            assert(t.kids[i].has_slot());
        }
    }
}

/// The operator is `&&`, `||`, `!` or `if`.
pub open spec fn is_logic(op: Op) -> bool {
    op == Op::And || op == Op::Or || op == Op::If || op == Op::Unary(UnaryOp::Not)
}

/// The path leads through `&&`, `||`, `!` and `if` alone.
pub open spec fn is_logic_path(t: Tree, path: Seq<int>) -> bool
    decreases path.len(),
{
    path.len() == 0 || {
        &&& is_logic(t.op)
        &&& 0 <= path[0] < t.kids.len()
        &&& is_logic_path(t.kids[path[0]], path.drop_first())
    }
}

/// The path leads into no `iferror` call.
pub open spec fn avoids_iferror(t: Tree, path: Seq<int>) -> bool
    decreases path.len(),
{
    path.len() == 0 || {
        &&& t.op != Op::Call("iferror"@)
        &&& 0 <= path[0] < t.kids.len()
        &&& avoids_iferror(t.kids[path[0]], path.drop_first())
    }
}

/// After splitting, what is reached through `&&`, `||`, `!` and `if` alone and
/// is none of these has none of them anywhere in it, outside `iferror` calls.
pub proof fn law_split_leaves_no_logic_in_atoms<T>(
    expr: &Expr<T>,
    max_nodes: nat,
    to_atom: Seq<int>,
    within: Seq<int>,
)
    requires
        expr.tree().wf(),
    ensures
        expr.tree().split(seq![], max_nodes as int) matches Some((t, _)) ==> is_logic_path(
            t,
            to_atom,
        ) ==> (at_path(t, to_atom) matches Some(a) ==> !is_logic(a.op) ==> avoids_iferror(a, within)
            ==> (at_path(a, within) matches Some(x) ==> !is_logic(x.op))),
{
    crate::dnf::split_laws::law_split_atoms_are_clean(expr, max_nodes);
    if let Some((t, _)) = expr.tree().split(seq![], max_nodes as int) {
        if is_logic_path(t, to_atom) {
            lemma_clean_atom(t, to_atom);
            if let Some(a) = at_path(t, to_atom) {
                if !is_logic(a.op) && avoids_iferror(a, within) {
                    lemma_clean_within(a, within);
                }
            }
        }
    }
}

proof fn lemma_clean_atom(t: Tree, path: Seq<int>)
    requires
        t.atoms_clean(),
        is_logic_path(t, path),
    ensures
        at_path(t, path) matches Some(a) ==> a.atoms_clean(),
    decreases path.len(),
{
    if path.len() > 0 {
        assert(t.op.is_offender());
        assert(t.kids[path[0]].atoms_clean());
        lemma_clean_atom(t.kids[path[0]], path.drop_first());
    }
}

proof fn lemma_clean_within(a: Tree, path: Seq<int>)
    requires
        a.clean(),
        !is_logic(a.op),
        avoids_iferror(a, path),
    ensures
        at_path(a, path) matches Some(x) ==> !is_logic(x.op),
    decreases path.len(),
{
    if path.len() > 0 {
        let k = a.kids[path[0]];
        assert(!k.op.is_offender() && k.clean());
        lemma_clean_within(k, path.drop_first());
    }
}

/// The number of nodes that stand in atoms: what is reached through `&&`, `||`,
/// `!` and `if` alone and is neither one of these nor a boolean literal.
pub open spec fn atom_nodes(t: Tree) -> nat
    decreases t,
{
    if is_logic(t.op) {
        if t.kids.len() == 1 {
            atom_nodes(t.kids[0])
        } else if t.kids.len() == 2 {
            atom_nodes(t.kids[0]) + atom_nodes(t.kids[1])
        } else if t.kids.len() == 3 {
            atom_nodes(t.kids[0]) + atom_nodes(t.kids[1]) + atom_nodes(t.kids[2])
        } else {
            0
        }
    } else if t.op matches Op::Lit(Atomic::Bool(_)) {
        0
    } else {
        t.size()
    }
}

/// Where no atom has to be split, what it takes is the number of nodes that
/// stand in atoms: with less the budget is exceeded, and the rest is left.
pub proof fn law_split_takes_the_nodes_in_atoms(t: Tree, ctx: Seq<Tree>, budget: int)
    requires
        t.wf(),
        t.atoms_clean(),
        budget >= 0,
    ensures
        match t.split(ctx, budget) {
            Some((_, left)) => left == budget - atom_nodes(t) && left >= 0,
            None => atom_nodes(t) > budget,
        },
    decreases t,
{
    if is_logic(t.op) {
        assert(t.op.is_offender());
        assert forall|i: int| 0 <= i < t.kids.len() implies (#[trigger] t.kids[i]).wf()
            && t.kids[i].atoms_clean() by {}
        law_split_takes_the_nodes_in_atoms(t.kids[0], ctx, budget);
        if let Some((_, b)) = t.kids[0].split(ctx, budget) {
            let yes = ctx + t.kids[0].learn(true);
            let no = ctx + t.kids[0].learn(false);
            if t.op == Op::And {
                law_split_takes_the_nodes_in_atoms(t.kids[1], yes, b);
            } else if t.op == Op::Or {
                law_split_takes_the_nodes_in_atoms(t.kids[1], no, b);
            } else if t.op == Op::If {
                law_split_takes_the_nodes_in_atoms(t.kids[1], yes, b);
                if let Some((_, b)) = t.kids[1].split(yes, b) {
                    law_split_takes_the_nodes_in_atoms(t.kids[2], no, b);
                }
            }
        }
    } else {
        lemma_clean_hoist(t);
        assert(t.split_atom(ctx, budget) == if t.size() > budget {
            None
        } else {
            Some((t.fold(), budget - t.size()))
        });
    }
}

proof fn lemma_clean_hoist(t: Tree)
    requires
        t.clean(),
    ensures
        t.hoist() is None,
    decreases t, t.kids.len() + 1,
{
    if !t.is_iferror() {
        lemma_clean_hoist_from(t, 0);
    }
}

proof fn lemma_clean_hoist_from(t: Tree, i: int)
    requires
        t.clean(),
        !t.is_iferror(),
        0 <= i <= t.kids.len(),
    ensures
        t.hoist_from(i) is None,
    decreases t, t.kids.len() - i,
{
    if i < t.kids.len() {
        let k = t.kids[i];
        assert(!k.op.is_offender() && k.clean());
        lemma_clean_hoist(k);
        lemma_clean_hoist_from(t, i + 1);
    }
}

/// A larger budget gives the same, with as much more left.
pub proof fn law_more_budget_splits_alike(t: Tree, ctx: Seq<Tree>, budget: int, more: nat)
    ensures
        t.split(ctx, budget) matches Some((r, left)) ==> left <= budget && t.split(
            ctx,
            budget + more,
        ) == Some((r, left + more)),
    decreases t.size(), 1nat,
{
    assert forall|i: int| 0 <= i < t.kids.len() implies (#[trigger] t.kids[i]).size()
        < t.size() by {
        Tree::lemma_kid_size(t.kids, i);
    }
    if t.op is Lit && t.op->Lit_0 is Bool {
    } else if t.op == Op::And && t.kids.len() == 2 {
        law_more_budget_splits_alike(t.kids[0], ctx, budget, more);
        if let Some((_, b)) = t.kids[0].split(ctx, budget) {
            law_more_budget_splits_alike(t.kids[1], ctx + t.kids[0].learn(true), b, more);
        }
    } else if t.op == Op::Or && t.kids.len() == 2 {
        law_more_budget_splits_alike(t.kids[0], ctx, budget, more);
        if let Some((_, b)) = t.kids[0].split(ctx, budget) {
            law_more_budget_splits_alike(t.kids[1], ctx + t.kids[0].learn(false), b, more);
        }
    } else if t.op == Op::Unary(UnaryOp::Not) && t.kids.len() == 1 {
        law_more_budget_splits_alike(t.kids[0], ctx, budget, more);
    } else if t.op == Op::If && t.kids.len() == 3 {
        law_more_budget_splits_alike(t.kids[0], ctx, budget, more);
        if let Some((_, b)) = t.kids[0].split(ctx, budget) {
            let yes = ctx + t.kids[0].learn(true);
            law_more_budget_splits_alike(t.kids[1], yes, b, more);
            if let Some((_, b)) = t.kids[1].split(yes, b) {
                law_more_budget_splits_alike(t.kids[2], ctx + t.kids[0].learn(false), b, more);
            }
        }
    } else {
        lemma_more_budget_for_atom(t, ctx, budget, more);
    }
}

proof fn lemma_more_budget_for_atom(t: Tree, ctx: Seq<Tree>, budget: int, more: nat)
    ensures
        t.split_atom(ctx, budget) matches Some((r, left)) ==> left <= budget && t.split_atom(
            ctx,
            budget + more,
        ) == Some((r, left + more)),
    decreases t.size(), 0nat,
{
    t.lemma_hoist_size();
    if t.size() <= budget {
        if let Some(h) = t.hoist() {
            let inner = ctx + Tree::new_guards(ctx, h.guards);
            let copies = inner + h.cond.evaluated();
            let b0 = budget - t.size();
            assert(budget + more - t.size() == b0 + more);
            law_more_budget_splits_alike(h.cond, inner, b0, more);
            if let Some((_, b)) = h.cond.split(inner, b0) {
                lemma_more_budget_for_atom(h.yes, copies, b, more);
                if let Some((_, b)) = h.yes.split_atom(copies, b) {
                    lemma_more_budget_for_atom(h.no, copies, b, more);
                }
            }
        }
    }
}

/// A permit cannot be made static exactly if a slot is left in its scope, in
/// its condition or in a witness.
pub proof fn law_permit_fails_where_a_slot_is_left(p: Policy, ws: Seq<Tree>)
    ensures
        permit_fails(p, ws) <==> p.effect is Permit && (!p.grounded() || (p.when matches Some(e)
            && has_slot_in(e.tree())) || exists|i: int|
            0 <= i < ws.len() && has_slot_in(#[trigger] ws[i])),
{
    let first = match p.when {
        Some(e) => seq![e.tree()],
        None => seq![],
    };
    let all = first + ws;
    lemma_chain_slot(all);
    if let Some(e) = p.when {
        lemma_slot_stands(e.tree());
        assert(all[0] == e.tree());
    }
    assert forall|i: int| 0 <= i < ws.len() implies (#[trigger] ws[i]).has_slot() == has_slot_in(
        ws[i],
    ) && all[first.len() + i] == ws[i] by {
        lemma_slot_stands(ws[i]);
    }
    let when = p@.with_witnesses(ws).condition();
    assert(p@.when matches Some(t) ==> first == seq![t]);
    assert(when == Tree::and_chain(all));
    if when.has_slot() {
        let j = choose|j: int| 0 <= j < all.len() && (#[trigger] all[j]).has_slot();
        if j >= first.len() {
            assert(ws[j - first.len()].has_slot());
        }
    }
    if exists|i: int| 0 <= i < ws.len() && has_slot_in(#[trigger] ws[i]) {
        let i = choose|i: int| 0 <= i < ws.len() && has_slot_in(#[trigger] ws[i]);
        assert(all[first.len() + i].has_slot());
    }
}

/// A slot stands somewhere in the expression.
pub open spec fn has_slot_in(t: Tree) -> bool {
    exists|x: Tree| #[trigger] stands_in(t, x) && x.op is Slot
}

proof fn lemma_chain_slot(ts: Seq<Tree>)
    ensures
        Tree::and_chain(ts).has_slot() <==> exists|i: int|
            0 <= i < ts.len() && (#[trigger] ts[i]).has_slot(),
    decreases ts.len(),
{
    let t = Tree::and_chain(ts);
    if ts.len() > 1 {
        let rest = ts.drop_first();
        lemma_chain_slot(rest);
        assert(t.kids[0] == ts[0] && t.kids[1] == Tree::and_chain(rest));
        if t.has_slot() && !ts[0].has_slot() {
            let i = choose|i: int| 0 <= i < rest.len() && (#[trigger] rest[i]).has_slot();
            assert(ts[i + 1].has_slot());
        }
        if exists|i: int| 0 <= i < ts.len() && (#[trigger] ts[i]).has_slot() {
            let i = choose|i: int| 0 <= i < ts.len() && (#[trigger] ts[i]).has_slot();
            if i > 0 {
                assert(rest[i - 1].has_slot());
            }
            assert(t.kids[0].has_slot() || t.kids[1].has_slot());
        }
    } else if ts.len() == 1 {
        assert(ts[0].has_slot() == t.has_slot());
    }
}

/// All of the guards have been evaluated where `l` is `b`, or before.
pub open spec fn are_known(guards: Seq<Tree>, ctx: Seq<Tree>, l: Tree, b: bool) -> bool {
    forall|g: Tree| #[trigger]
        guards.contains(g) ==> ctx.contains(g) || exists|i: int|
            0 <= i < l.spine(b).len() && (#[trigger] l.spine(b)[i]).evaluated().contains(g)
}

/// The expression is an atom: neither `&&`, `||`, `!` or `if` nor a boolean
/// literal.
pub open spec fn is_atom(t: Tree) -> bool {
    !is_logic(t.op) && !(t.op matches Op::Lit(Atomic::Bool(_)))
}

proof fn lemma_known_guards(guards: Seq<Tree>, ctx: Seq<Tree>, l: Tree, b: bool)
    requires
        are_known(guards, ctx, l, b),
    ensures
        Tree::new_guards(ctx + l.learn(b), guards) == Seq::<Tree>::empty(),
{
    let all = ctx + l.learn(b);
    let fresh = Tree::new_guards(all, guards);
    law_new_guards_are_those_not_known(all, guards);
    if fresh.len() > 0 {
        let g = fresh[0];
        assert(fresh.contains(g));
        assert(guards.contains(g) && !all.contains(g));
        law_learned_of_each_conjunct(l, b, g);
        lemma_contains_append(ctx, l.learn(b), g);
    }
    assert(fresh =~= Seq::<Tree>::empty());
}

/// Behind an operand of `&&` (or `||`) that has been evaluated, an atom is split
/// without testing again what the operand has evaluated.
pub proof fn law_split_tests_nothing_twice(t: Tree, ctx: Seq<Tree>, budget: int, b: bool)
    requires
        t.op == (if b {
            Op::And
        } else {
            Op::Or
        }),
        t.kids.len() == 2,
        is_atom(t.kids[1]),
        t.kids[1].hoist() matches Some(h) && are_known(h.guards, ctx, t.kids[0], b),
        t.split(ctx, budget) is Some,
    ensures
        ({
            let r = t.split(ctx, budget)->Some_0.0.kids[1];
            &&& r.op == Op::If && r.kids.len() == 3
            &&& is_split_of(r.kids[0], t.kids[1].hoist()->Some_0.cond)
        }),
{
    let l = t.kids[0];
    let known = ctx + l.learn(b);
    let left = l.split(ctx, budget)->Some_0;
    lemma_split_without_guards(t.kids[1], known, left.1, ctx, l, b);
    let r = t.split(ctx, budget)->Some_0.0;
    assert(r.kids[1] == t.kids[1].split(known, left.1)->Some_0.0);
}

/// In the branches of an `if`, an atom is split without testing again what the
/// test has evaluated.
pub proof fn law_split_tests_nothing_twice_in_branches(
    t: Tree,
    ctx: Seq<Tree>,
    budget: int,
    b: bool,
    i: int,
)
    requires
        t.op == Op::If,
        t.kids.len() == 3,
        i == 1 && b || i == 2 && !b,
        is_atom(t.kids[i]),
        t.kids[i].hoist() matches Some(h) && are_known(h.guards, ctx, t.kids[0], b),
        t.split(ctx, budget) is Some,
    ensures
        ({
            let r = t.split(ctx, budget)->Some_0.0.kids[i];
            &&& r.op == Op::If && r.kids.len() == 3
            &&& is_split_of(r.kids[0], t.kids[i].hoist()->Some_0.cond)
        }),
{
    let l = t.kids[0];
    let yes = ctx + l.learn(true);
    let no = ctx + l.learn(false);
    let first = l.split(ctx, budget)->Some_0;
    let second = t.kids[1].split(yes, first.1)->Some_0;
    let r = t.split(ctx, budget)->Some_0.0;
    if b {
        lemma_split_without_guards(t.kids[1], yes, first.1, ctx, l, b);
        assert(r.kids[1] == second.0);
    } else {
        lemma_split_without_guards(t.kids[2], no, second.1, ctx, l, b);
        assert(r.kids[2] == t.kids[2].split(no, second.1)->Some_0.0);
    }
}

/// `test` is what `cond` is split into, with something known and some budget.
pub open spec fn is_split_of(test: Tree, cond: Tree) -> bool {
    exists|ctx: Seq<Tree>, budget: int|
        (#[trigger] cond.split(ctx, budget)) matches Some((x, _)) && x == test
}

proof fn lemma_split_without_guards(
    t: Tree,
    known: Seq<Tree>,
    budget: int,
    ctx: Seq<Tree>,
    l: Tree,
    b: bool,
)
    requires
        is_atom(t),
        known == ctx + l.learn(b),
        t.hoist() matches Some(h) && are_known(h.guards, ctx, l, b),
        t.split(known, budget) is Some,
    ensures
        ({
            let r = t.split(known, budget)->Some_0.0;
            &&& r.op == Op::If && r.kids.len() == 3
            &&& is_split_of(r.kids[0], t.hoist()->Some_0.cond)
        }),
{
    let h = t.hoist()->Some_0;
    lemma_known_guards(h.guards, ctx, l, b);
    let fresh = Tree::new_guards(known, h.guards);
    let inner = known + fresh;
    let r = t.split(known, budget)->Some_0.0;
    assert(t.split(known, budget) == t.split_atom(known, budget));
    let found = h.cond.split(inner, budget - t.size());
    assert(found is Some);
    assert(fresh.len() == 0);
    assert(r.kids[0] == found->Some_0.0);
}

/// Behind an operand of `&&` (or `||`), and in a branch of an `if`, a literal is
/// eliminated from an atom without testing again what the operand, or the test,
/// has evaluated.
pub proof fn law_elimination_tests_nothing_twice(
    t: Tree,
    ctx: Seq<Tree>,
    budget: int,
    b: bool,
    i: int,
)
    requires
        (i == 1 && t.kids.len() == 2 && t.op == (if b {
            Op::And
        } else {
            Op::Or
        })) || (t.op == Op::If && t.kids.len() == 3 && (i == 1 && b || i == 2 && !b)),
        is_atom(t.kids[i]),
        t.kids[i].elim().changed,
        are_known(t.kids[i].elim().guards, ctx, t.kids[0], b),
        t.elim_structure(ctx, budget) is Some,
    ensures
        t.elim_structure(ctx, budget)->Some_0.0.kids[i] == t.kids[i].elim().term,
{
    let l = t.kids[0];
    let yes = ctx + l.learn(true);
    let no = ctx + l.learn(false);
    let first = l.elim_structure(ctx, budget)->Some_0;
    let r = t.elim_structure(ctx, budget)->Some_0.0;
    if i == 1 {
        let known = if b {
            yes
        } else {
            no
        };
        lemma_eliminated_without_guards(t.kids[1], known, first.2, ctx, l, b);
        assert(r.kids[1] == t.kids[1].elim_structure(known, first.2)->Some_0.0);
    } else {
        let second = t.kids[1].elim_structure(yes, first.2)->Some_0;
        lemma_eliminated_without_guards(t.kids[2], no, second.2, ctx, l, b);
        assert(r.kids[2] == t.kids[2].elim_structure(no, second.2)->Some_0.0);
    }
}

proof fn lemma_eliminated_without_guards(
    t: Tree,
    known: Seq<Tree>,
    budget: int,
    ctx: Seq<Tree>,
    l: Tree,
    b: bool,
)
    requires
        is_atom(t),
        known == ctx + l.learn(b),
        t.elim().changed,
        are_known(t.elim().guards, ctx, l, b),
        t.elim_structure(known, budget) is Some,
    ensures
        t.elim_structure(known, budget)->Some_0.0 == t.elim().term,
{
    reveal(Tree::elim_atom);
    let e = t.elim();
    lemma_known_guards(e.guards, ctx, l, b);
    law_dropped_guards_are_the_longest_repeated_tail(Seq::empty(), e.term);
    assert(Tree::drop_repeated(Tree::new_guards(known, e.guards), e.term).len() == 0);
    assert(t.elim_structure(known, budget) == t.elim_atom(known, budget));
}

} // verus!
