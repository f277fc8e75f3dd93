//! Eliminating literals preserves every well-typed evaluation.

use vstd::prelude::*;

use crate::ast::{BinaryOp, Expr, UnaryOp};
use crate::model::{Value, World};
use crate::tree::{Op, Tree};

use super::split_laws::err_of;

verus! {

impl Value {
    /// `==` is symmetric.
    pub proof fn lemma_same_sym(self, other: Value)
        ensures
            self.same(other) == other.same(self),
        decreases self,
    {
        match (self, other) {
            (Value::SetOf(a), Value::SetOf(b)) => {
                assert forall|i: int, j: int| 0 <= i < a.len() && 0 <= j < b.len() implies (
                #[trigger] a[i]).same(#[trigger] b[j]) == b[j].same(a[i]) by {
                    a[i].lemma_same_sym(b[j]);
                }
                assert forall|i: int| 0 <= i < a.len() implies (#[trigger] a[i]).has_equal(b)
                    == a[i].among(b) by {
                    if a[i].has_equal(b) {
                        let j = choose|j: int| 0 <= j < b.len() && a[i].same(#[trigger] b[j]);
                        assert(b[j].same(a[i]));
                    }
                    if a[i].among(b) {
                        let j = choose|j: int| 0 <= j < b.len() && (#[trigger] b[j]).same(a[i]);
                        assert(a[i].same(b[j]));
                    }
                }
                assert forall|j: int| 0 <= j < b.len() implies (#[trigger] b[j]).has_equal(a)
                    == b[j].among(a) by {
                    if b[j].has_equal(a) {
                        let i = choose|i: int| 0 <= i < a.len() && b[j].same(#[trigger] a[i]);
                        assert(a[i].same(b[j]));
                    }
                    if b[j].among(a) {
                        let i = choose|i: int| 0 <= i < a.len() && (#[trigger] a[i]).same(b[j]);
                        assert(b[j].same(a[i]));
                    }
                }
            },
            (Value::RecordOf(a), Value::RecordOf(b)) => {
                assert forall|i: int| 0 <= i < a.len() && i < b.len() implies (
                #[trigger] a[i]).1.same((#[trigger] b[i]).1) == b[i].1.same(a[i].1) by {
                    assert(decreases_to!(a => a[i]));
                    assert(decreases_to!(a[i] => a[i].1));
                    a[i].1.lemma_same_sym(b[i].1);
                }
            },
            _ => {},
        }
    }

    /// Being alike is symmetric.
    pub proof fn lemma_alike_sym(self, other: Value)
        ensures
            self.alike(other) == other.alike(self),
        decreases self,
    {
        match (self, other) {
            (Value::SetOf(a), Value::SetOf(b)) => {
                assert forall|i: int, j: int| 0 <= i < a.len() && 0 <= j < b.len() implies (
                #[trigger] a[i]).alike(#[trigger] b[j]) == b[j].alike(a[i]) by {
                    a[i].lemma_alike_sym(b[j]);
                }
            },
            (Value::RecordOf(a), Value::RecordOf(b)) => {
                assert forall|i: int, j: int| 0 <= i < a.len() && 0 <= j < b.len() implies (
                #[trigger] a[i]).1.alike((#[trigger] b[j]).1) == b[j].1.alike(a[i].1) by {
                    assert(decreases_to!(a => a[i]));
                    assert(decreases_to!(a[i] => a[i].1));
                    a[i].1.lemma_alike_sym(b[j].1);
                }
            },
            _ => {},
        }
    }

    /// Two sets are equal when each contains all of the other.
    pub proof fn lemma_same_sets(self, other: Value)
        requires
            self is SetOf,
            other is SetOf,
        ensures
            self.same(other) == ((forall|j: int|
                0 <= j < other->SetOf_0.len() ==> (#[trigger] other->SetOf_0[j]).among(
                    self->SetOf_0,
                )) && (forall|i: int|
                0 <= i < self->SetOf_0.len() ==> (#[trigger] self->SetOf_0[i]).among(
                    other->SetOf_0,
                ))),
    {
        match (self, other) {
            (Value::SetOf(a), Value::SetOf(b)) => {
                assert forall|i: int| 0 <= i < a.len() implies (#[trigger] a[i]).has_equal(b)
                    == a[i].among(b) by {
                    if a[i].has_equal(b) {
                        let j = choose|j: int| 0 <= j < b.len() && a[i].same(#[trigger] b[j]);
                        a[i].lemma_same_sym(b[j]);
                        assert(b[j].same(a[i]));
                    }
                    if a[i].among(b) {
                        let j = choose|j: int| 0 <= j < b.len() && (#[trigger] b[j]).same(a[i]);
                        a[i].lemma_same_sym(b[j]);
                        assert(a[i].same(b[j]));
                    }
                }
            },
            _ => {},
        }
    }
}

impl Value {
    /// Fields of the same name of alike records are alike.
    proof fn lemma_alike_fields(self, other: Value, i: int, j: int)
        requires
            self is RecordOf,
            other is RecordOf,
            self.alike(other),
            0 <= i < self->RecordOf_0.len(),
            0 <= j < other->RecordOf_0.len(),
            self->RecordOf_0[i].0 == other->RecordOf_0[j].0,
        ensures
            self->RecordOf_0[i].1.alike(other->RecordOf_0[j].1),
    {
        match (self, other) {
            (Value::RecordOf(a), Value::RecordOf(b)) => {
                assert(a[i].0 == b[j].0);
            },
            _ => {},
        }
    }

    /// Records with the same keys are equal when their fields are.
    proof fn lemma_same_records(self, other: Value, bs: Seq<bool>)
        requires
            self is RecordOf,
            other is RecordOf,
            self->RecordOf_0.len() == bs.len(),
            other->RecordOf_0.len() == bs.len(),
            forall|i: int|
                0 <= i < bs.len() ==> (#[trigger] self->RecordOf_0[i]).0 == other->RecordOf_0[i].0,
            forall|i: int|
                0 <= i < bs.len() ==> (#[trigger] bs[i]) == self->RecordOf_0[i].1.same(
                    other->RecordOf_0[i].1,
                ),
        ensures
            self.same(other) == (forall|i: int| 0 <= i < bs.len() ==> #[trigger] bs[i]),
    {
        match (self, other) {
            (Value::RecordOf(a), Value::RecordOf(b)) => {
                if forall|i: int| 0 <= i < bs.len() ==> #[trigger] bs[i] {
                    assert forall|i: int| 0 <= i < a.len() implies (#[trigger] a[i]).0 == b[i].0
                        && a[i].1.same(b[i].1) by {
                        assert(bs[i]);
                    }
                }
                if self.same(other) {
                    assert forall|i: int| 0 <= i < bs.len() implies #[trigger] bs[i] by {
                        assert(a[i].1.same(b[i].1));
                    }
                }
            },
            _ => {},
        }
    }
}

/// `v` is the boolean `b`.
pub open spec fn is_bool(v: Result<Value, int>, b: bool) -> bool {
    v == Ok::<Value, int>(Value::Bool(b))
}

impl Tree {
    /// A chain of `&&` over booleans is true where all of them are.
    pub proof fn lemma_and_chain_eval(ts: Seq<Tree>, bs: Seq<bool>, w: World)
        requires
            ts.len() == bs.len(),
            forall|i: int| 0 <= i < ts.len() ==> is_bool((#[trigger] ts[i]).eval(w), bs[i]),
        ensures
            is_bool(
                Tree::and_chain(ts).eval(w),
                forall|i: int| 0 <= i < bs.len() ==> #[trigger] bs[i],
            ),
        decreases ts.len(),
    {
        if ts.len() == 0 {
        } else {
            assert(is_bool(ts[0].eval(w), bs[0]));
            if ts.len() > 1 {
                let tt = ts.drop_first();
                let bt = bs.drop_first();
                assert forall|i: int| 0 <= i < tt.len() implies is_bool(
                    (#[trigger] tt[i]).eval(w),
                    bt[i],
                ) by {
                    assert(is_bool(ts[i + 1].eval(w), bs[i + 1]));
                }
                Tree::lemma_and_chain_eval(tt, bt, w);
                let c = Tree::and_chain(ts);
                assert(c.kids[0] == ts[0] && c.kids[1] == Tree::and_chain(tt));
                if forall|i: int| 0 <= i < bs.len() ==> #[trigger] bs[i] {
                    assert forall|i: int| 0 <= i < bt.len() implies #[trigger] bt[i] by {
                        assert(bs[i + 1]);
                    }
                }
                if bs[0] && forall|i: int| 0 <= i < bt.len() ==> #[trigger] bt[i] {
                    assert forall|i: int| 0 <= i < bs.len() implies #[trigger] bs[i] by {
                        if i > 0 {
                            assert(bt[i - 1]);
                        }
                    }
                }
            }
        }
    }

    /// A chain of `||` over booleans is true where one of them is.
    pub proof fn lemma_or_chain_eval(ts: Seq<Tree>, bs: Seq<bool>, w: World)
        requires
            ts.len() == bs.len(),
            forall|i: int| 0 <= i < ts.len() ==> is_bool((#[trigger] ts[i]).eval(w), bs[i]),
        ensures
            is_bool(
                Tree::or_chain(ts).eval(w),
                exists|i: int| 0 <= i < bs.len() && #[trigger] bs[i],
            ),
        decreases ts.len(),
    {
        if ts.len() == 0 {
        } else {
            assert(is_bool(ts[0].eval(w), bs[0]));
            if ts.len() > 1 {
                let tt = ts.drop_first();
                let bt = bs.drop_first();
                assert forall|i: int| 0 <= i < tt.len() implies is_bool(
                    (#[trigger] tt[i]).eval(w),
                    bt[i],
                ) by {
                    assert(is_bool(ts[i + 1].eval(w), bs[i + 1]));
                }
                Tree::lemma_or_chain_eval(tt, bt, w);
                let c = Tree::or_chain(ts);
                assert(c.kids[0] == ts[0] && c.kids[1] == Tree::or_chain(tt));
                if exists|i: int| 0 <= i < bs.len() && #[trigger] bs[i] {
                    let i = choose|i: int| 0 <= i < bs.len() && #[trigger] bs[i];
                    if i > 0 {
                        assert(bt[i - 1]);
                    }
                }
                if exists|i: int| 0 <= i < bt.len() && #[trigger] bt[i] {
                    let i = choose|i: int| 0 <= i < bt.len() && #[trigger] bt[i];
                    assert(bs[i + 1]);
                }
            }
        }
    }

    pub proof fn lemma_elim_eqs_at(xs: Seq<Tree>, ys: Seq<Tree>, i: int)
        requires
            xs.len() == ys.len(),
            0 <= i < xs.len(),
        ensures
            Tree::elim_eqs(xs, ys).len() == xs.len(),
            Tree::elim_eqs(xs, ys)[i] == Tree::elim_eq(xs[i], ys[i]),
        decreases xs.len(),
    {
        Tree::lemma_elim_eqs_len(xs, ys);
        Tree::lemma_elim_eqs_len(xs.drop_last(), ys.drop_last());
        if i < xs.len() - 1 {
            Tree::lemma_elim_eqs_at(xs.drop_last(), ys.drop_last(), i);
        }
    }

    pub proof fn lemma_elim_eqs_len(xs: Seq<Tree>, ys: Seq<Tree>)
        requires
            xs.len() == ys.len(),
        ensures
            Tree::elim_eqs(xs, ys).len() == xs.len(),
        decreases xs.len(),
    {
        if xs.len() > 0 {
            Tree::lemma_elim_eqs_len(xs.drop_last(), ys.drop_last());
        }
    }

    pub proof fn lemma_elim_contains_each_len(s: Tree, xs: Seq<Tree>)
        ensures
            Tree::elim_contains_each(s, xs).len() == xs.len(),
        decreases xs.len(),
    {
        if xs.len() > 0 {
            Tree::lemma_elim_contains_each_len(s, xs.drop_last());
        }
    }

    pub proof fn lemma_elim_contains_each_at(s: Tree, xs: Seq<Tree>, i: int)
        requires
            0 <= i < xs.len(),
        ensures
            Tree::elim_contains_each(s, xs).len() == xs.len(),
            Tree::elim_contains_each(s, xs)[i] == Tree::elim_contains(s, xs[i]),
        decreases xs.len(),
    {
        Tree::lemma_elim_contains_each_len(s, xs);
        Tree::lemma_elim_contains_each_len(s, xs.drop_last());
        if i < xs.len() - 1 {
            Tree::lemma_elim_contains_each_at(s, xs.drop_last(), i);
        }
    }

    pub proof fn lemma_elim_eq_each_len(ls: Seq<Tree>, x: Tree)
        ensures
            Tree::elim_eq_each(ls, x).len() == ls.len(),
        decreases ls.len(),
    {
        if ls.len() > 0 {
            Tree::lemma_elim_eq_each_len(ls.drop_last(), x);
        }
    }

    pub proof fn lemma_elim_eq_each_at(ls: Seq<Tree>, x: Tree, i: int)
        requires
            0 <= i < ls.len(),
        ensures
            Tree::elim_eq_each(ls, x).len() == ls.len(),
            Tree::elim_eq_each(ls, x)[i] == Tree::elim_eq(ls[i], x),
        decreases ls.len(),
    {
        Tree::lemma_elim_eq_each_len(ls, x);
        Tree::lemma_elim_eq_each_len(ls.drop_last(), x);
        if i < ls.len() - 1 {
            Tree::lemma_elim_eq_each_at(ls.drop_last(), x, i);
        }
    }

    /// The value of a binary operator.
    pub proof fn lemma_binary_eval(op: BinaryOp, a: Tree, b: Tree, w: World)
        requires
            a.eval(w) is Ok,
            b.eval(w) is Ok,
        ensures
            Tree::binary(op, a, b).eval(w) == w.apply_binary(op, a.eval(w)->Ok_0, b.eval(w)->Ok_0),
    {
        let t = Tree::binary(op, a, b);
        assert(t.kids[0] == a && t.kids[1] == b);
        assert(Tree::all_ok(t.kids, w));
        Tree::lemma_eval_all_ok(t.kids, w);
        let vs = Tree::eval_all(t.kids, w)->Ok_0;
        assert(t.kids[0].eval(w) == Ok::<Value, int>(vs[0]));
        assert(t.kids[1].eval(w) == Ok::<Value, int>(vs[1]));
    }

    /// The elements of a set literal that evaluates.
    pub proof fn lemma_set_eval(self, w: World) -> (vs: Seq<Value>)
        requires
            self.op == Op::SetLit,
            self.eval(w) is Ok,
        ensures
            self.eval(w) == Ok::<Value, int>(Value::SetOf(vs)),
            vs.len() == self.kids.len(),
            forall|i: int|
                0 <= i < vs.len() ==> (#[trigger] self.kids[i]).eval(w) == Ok::<Value, int>(vs[i]),
    {
        Tree::lemma_eval_all_ok(self.kids, w);
        Tree::eval_all(self.kids, w)->Ok_0
    }

    /// A rewritten equality has the value of the equality.
    pub proof fn lemma_elim_eq(a: Tree, b: Tree, w: World)
        requires
            a.wf(),
            b.wf(),
            a.eval(w) is Ok,
            b.eval(w) is Ok,
            a.eval(w)->Ok_0.alike(b.eval(w)->Ok_0),
        ensures
            is_bool(Tree::elim_eq(a, b).eval(w), a.eval(w)->Ok_0.same(b.eval(w)->Ok_0)),
        decreases a.size() + b.size(), 2nat,
    {
        let va = a.eval(w)->Ok_0;
        let vb = b.eval(w)->Ok_0;
        if a.op is Record && a.op == b.op && a.kids.len() == b.kids.len() {
            let keys = a.op->Record_0;
            Tree::lemma_eval_all_ok(a.kids, w);
            Tree::lemma_eval_all_ok(b.kids, w);
            let xs = Tree::eval_all(a.kids, w)->Ok_0;
            let ys = Tree::eval_all(b.kids, w)->Ok_0;
            let ra = Seq::new(xs.len(), |i: int| (keys[i], xs[i]));
            let rb = Seq::new(ys.len(), |i: int| (keys[i], ys[i]));
            assert(va == Value::RecordOf(ra));
            assert(vb == Value::RecordOf(rb));
            let terms = Tree::elim_eqs(a.kids, b.kids);
            let bs = Seq::new(xs.len(), |i: int| xs[i].same(ys[i]));
            Tree::lemma_elim_eqs_len(a.kids, b.kids);
            assert forall|i: int| 0 <= i < terms.len() implies is_bool(
                (#[trigger] terms[i]).eval(w),
                bs[i],
            ) by {
                Tree::lemma_elim_eqs_at(a.kids, b.kids, i);
                Tree::lemma_kid_size(a.kids, i);
                Tree::lemma_kid_size(b.kids, i);
                assert(a.kids[i].wf() && b.kids[i].wf());
                assert(a.kids[i].eval(w) == Ok::<Value, int>(xs[i]));
                assert(b.kids[i].eval(w) == Ok::<Value, int>(ys[i]));
                va.lemma_alike_fields(vb, i, i);
                Tree::lemma_elim_eq(a.kids[i], b.kids[i], w);
            }
            Tree::lemma_and_chain_eval(terms, bs, w);
            va.lemma_same_records(vb, bs);
        } else if a.op == Op::SetLit || b.op == Op::SetLit {
            if a.op == Op::SetLit {
                let _ = a.lemma_set_eval(w);
            }
            if b.op == Op::SetLit {
                let _ = b.lemma_set_eval(w);
            }
            let xs = va->SetOf_0;
            let ys = vb->SetOf_0;
            assert(va == Value::SetOf(xs) && vb == Value::SetOf(ys));
            va.lemma_alike_sym(vb);
            Tree::lemma_elim_contains_all(a, b, w);
            Tree::lemma_elim_contains_all(b, a, w);
            va.lemma_same_sets(vb);
            let t = Tree::and(Tree::elim_contains_all(a, b), Tree::elim_contains_all(b, a));
            assert(t.kids[0] == Tree::elim_contains_all(a, b));
            assert(t.kids[1] == Tree::elim_contains_all(b, a));
        } else {
            Tree::lemma_binary_eval(BinaryOp::Eq, a, b, w);
        }
    }

    /// A rewritten `containsAll` has the value of the `containsAll`.
    pub proof fn lemma_elim_contains_all(s: Tree, t: Tree, w: World)
        requires
            s.wf(),
            t.wf(),
            s.eval(w) is Ok,
            t.eval(w) is Ok,
            s.eval(w)->Ok_0 is SetOf,
            t.eval(w)->Ok_0 is SetOf,
            s.eval(w)->Ok_0.alike(t.eval(w)->Ok_0),
        ensures
            is_bool(
                Tree::elim_contains_all(s, t).eval(w),
                forall|j: int|
                    0 <= j < t.eval(w)->Ok_0->SetOf_0.len() ==> (
                    #[trigger] t.eval(w)->Ok_0->SetOf_0[j]).among(s.eval(w)->Ok_0->SetOf_0),
            ),
        decreases s.size() + t.size(), 1nat,
    {
        let vs = s.eval(w)->Ok_0->SetOf_0;
        let vt = t.eval(w)->Ok_0->SetOf_0;
        if t.op == Op::SetLit {
            let es = t.lemma_set_eval(w);
            assert(es == vt);
            let terms = Tree::elim_contains_each(s, t.kids);
            let bs = Seq::new(vt.len(), |i: int| vt[i].among(vs));
            Tree::lemma_elim_contains_each_len(s, t.kids);
            assert forall|i: int| 0 <= i < terms.len() implies is_bool(
                (#[trigger] terms[i]).eval(w),
                bs[i],
            ) by {
                Tree::lemma_elim_contains_each_at(s, t.kids, i);
                Tree::lemma_kid_size(t.kids, i);
                assert(t.kids[i].wf());
                assert(t.kids[i].eval(w) == Ok::<Value, int>(vt[i]));
                Tree::lemma_elim_contains(s, t.kids[i], w);
            }
            Tree::lemma_and_chain_eval(terms, bs, w);
            assert((forall|j: int| 0 <= j < vt.len() ==> (#[trigger] vt[j]).among(vs)) == (
            forall|i: int| 0 <= i < bs.len() ==> #[trigger] bs[i])) by {
                if forall|j: int| 0 <= j < vt.len() ==> (#[trigger] vt[j]).among(vs) {
                    assert forall|i: int| 0 <= i < bs.len() implies #[trigger] bs[i] by {
                        assert(vt[i].among(vs));
                    }
                }
                if forall|i: int| 0 <= i < bs.len() ==> #[trigger] bs[i] {
                    assert forall|j: int| 0 <= j < vt.len() implies (#[trigger] vt[j]).among(
                        vs,
                    ) by {
                        assert(bs[j]);
                    }
                }
            }
        } else {
            Tree::lemma_binary_eval(BinaryOp::ContainsAll, s, t, w);
        }
    }

    /// A rewritten `contains` has the value of the `contains`.
    pub proof fn lemma_elim_contains(s: Tree, x: Tree, w: World)
        requires
            s.wf(),
            x.wf(),
            s.eval(w) is Ok,
            x.eval(w) is Ok,
            s.eval(w)->Ok_0 is SetOf,
            forall|i: int|
                0 <= i < s.eval(w)->Ok_0->SetOf_0.len() ==> (
                #[trigger] s.eval(w)->Ok_0->SetOf_0[i]).alike(x.eval(w)->Ok_0),
        ensures
            is_bool(
                Tree::elim_contains(s, x).eval(w),
                x.eval(w)->Ok_0.among(s.eval(w)->Ok_0->SetOf_0),
            ),
        decreases s.size() + x.size(), 1nat,
    {
        let vs = s.eval(w)->Ok_0->SetOf_0;
        let vx = x.eval(w)->Ok_0;
        if s.op == Op::SetLit {
            let es = s.lemma_set_eval(w);
            assert(es == vs);
            let terms = Tree::elim_eq_each(s.kids, x);
            let bs = Seq::new(vs.len(), |i: int| vs[i].same(vx));
            Tree::lemma_elim_eq_each_len(s.kids, x);
            assert forall|i: int| 0 <= i < terms.len() implies is_bool(
                (#[trigger] terms[i]).eval(w),
                bs[i],
            ) by {
                Tree::lemma_elim_eq_each_at(s.kids, x, i);
                Tree::lemma_kid_size(s.kids, i);
                assert(s.kids[i].wf());
                assert(s.kids[i].eval(w) == Ok::<Value, int>(vs[i]));
                assert(vs[i].alike(vx));
                Tree::lemma_elim_eq(s.kids[i], x, w);
            }
            Tree::lemma_or_chain_eval(terms, bs, w);
            assert(vx.among(vs) == (exists|i: int| 0 <= i < bs.len() && #[trigger] bs[i])) by {
                if vx.among(vs) {
                    let i = choose|i: int| 0 <= i < vs.len() && (#[trigger] vs[i]).same(vx);
                    assert(bs[i]);
                }
                if exists|i: int| 0 <= i < bs.len() && #[trigger] bs[i] {
                    let i = choose|i: int| 0 <= i < bs.len() && #[trigger] bs[i];
                    assert(vs[i].same(vx));
                }
            }
        } else {
            Tree::lemma_binary_eval(BinaryOp::Contains, s, x, w);
        }
    }

    /// The field at the first position of a key.
    proof fn lemma_key_index(keys: Seq<Seq<char>>, vs: Seq<Value>, key: Seq<char>)
        requires
            keys.len() == vs.len(),
        ensures
            ({
                let fs = Seq::new(vs.len(), |i: int| (keys[i], vs[i]));
                match Tree::key_index(keys, key) {
                    Some(i) => 0 <= i < keys.len() && Value::field(fs, key) == Some(vs[i]),
                    None => Value::field(fs, key) is None,
                }
            }),
        decreases keys.len(),
    {
        let fs = Seq::new(vs.len(), |i: int| (keys[i], vs[i]));
        if keys.len() > 0 && keys[0] != key {
            let kt = keys.drop_first();
            let vt = vs.drop_first();
            Tree::lemma_key_index(kt, vt, key);
            assert(fs.drop_first() =~= Seq::new(vt.len(), |i: int| (kt[i], vt[i])));
        }
    }

    /// A rule gives the value of the node it rewrites, and never errs, where
    /// the operands evaluate and fit.
    pub proof fn lemma_rewrite(self, w: World)
        requires
            self.wf(),
            Tree::eval_all(self.kids, w) is Ok,
            w.operands_fit(self.op, Tree::eval_all(self.kids, w)->Ok_0),
        ensures
            self.rewrite() matches Some(r) ==> r.eval(w) is Ok && r.eval(w) == self.eval(w),
    {
        if self.rewrite() is Some {
            let r = self.rewrite()->0;
            Tree::lemma_eval_all_ok(self.kids, w);
            self.lemma_eval_strict(w);
            let vs = Tree::eval_all(self.kids, w)->Ok_0;
            match self.op {
                Op::GetAttr(attr) => {
                    let rec = self.kids[0];
                    let keys = rec.op->Record_0;
                    assert(rec.wf());
                    assert(rec.eval(w) == Ok::<Value, int>(vs[0]));
                    Tree::lemma_eval_all_ok(rec.kids, w);
                    let fs = Tree::eval_all(rec.kids, w)->Ok_0;
                    Tree::lemma_key_index(keys, fs, attr);
                    let i = Tree::key_index(keys, attr)->0;
                    assert(rec.kids[i].eval(w) == Ok::<Value, int>(fs[i]));
                },
                Op::HasAttr(attr) => {
                    let rec = self.kids[0];
                    let keys = rec.op->Record_0;
                    assert(rec.wf());
                    assert(rec.eval(w) == Ok::<Value, int>(vs[0]));
                    Tree::lemma_eval_all_ok(rec.kids, w);
                    let fs = Tree::eval_all(rec.kids, w)->Ok_0;
                    Tree::lemma_key_index(keys, fs, attr);
                },
                Op::Unary(_) => {
                    let arg = self.kids[0];
                    assert(arg.eval(w) == Ok::<Value, int>(vs[0]));
                    let es = arg.lemma_set_eval(w);
                },
                Op::Binary(op) => {
                    let a = self.kids[0];
                    let b = self.kids[1];
                    assert(a.wf() && b.wf());
                    assert(a.eval(w) == Ok::<Value, int>(vs[0]));
                    assert(b.eval(w) == Ok::<Value, int>(vs[1]));
                    match op {
                        BinaryOp::Eq => {
                            Tree::lemma_elim_eq(a, b, w);
                        },
                        BinaryOp::Contains => {
                            Tree::lemma_elim_contains(a, b, w);
                        },
                        BinaryOp::ContainsAll => {
                            Tree::lemma_elim_contains_all(a, b, w);
                        },
                        BinaryOp::ContainsAny => {
                            if b.op == Op::SetLit {
                                Tree::lemma_contains_any(a, b, w);
                            } else {
                                vs[0].lemma_alike_sym(vs[1]);
                                Tree::lemma_contains_any(b, a, w);
                                let xs = vs[0]->SetOf_0;
                                let ys = vs[1]->SetOf_0;
                                assert((exists|j: int|
                                    0 <= j < xs.len() && (#[trigger] xs[j]).among(ys)) == (
                                exists|j: int| 0 <= j < ys.len() && (#[trigger] ys[j]).among(xs)))
                                    by {
                                    if exists|j: int|
                                        0 <= j < xs.len() && (#[trigger] xs[j]).among(ys) {
                                        Value::lemma_overlap_sym(xs, ys);
                                    }
                                    if exists|j: int|
                                        0 <= j < ys.len() && (#[trigger] ys[j]).among(xs) {
                                        Value::lemma_overlap_sym(ys, xs);
                                    }
                                }
                            }
                        },
                        BinaryOp::In => {
                            Tree::lemma_in_any(a, b, w);
                        },
                        _ => {},
                    }
                },
                _ => {},
            }
        }
    }

    /// `s.contains(l)` for one of the elements of the literal `t`.
    proof fn lemma_contains_any(s: Tree, t: Tree, w: World)
        requires
            s.wf(),
            t.wf(),
            t.op == Op::SetLit,
            s.eval(w) is Ok,
            t.eval(w) is Ok,
            s.eval(w)->Ok_0 is SetOf,
            s.eval(w)->Ok_0.alike(t.eval(w)->Ok_0),
        ensures
            is_bool(
                Tree::or_chain(Tree::elim_contains_each(s, t.kids)).eval(w),
                exists|j: int|
                    0 <= j < t.eval(w)->Ok_0->SetOf_0.len() && (
                    #[trigger] t.eval(w)->Ok_0->SetOf_0[j]).among(s.eval(w)->Ok_0->SetOf_0),
            ),
    {
        let vs = s.eval(w)->Ok_0->SetOf_0;
        let vt = t.lemma_set_eval(w);
        let terms = Tree::elim_contains_each(s, t.kids);
        let bs = Seq::new(vt.len(), |i: int| vt[i].among(vs));
        Tree::lemma_elim_contains_each_len(s, t.kids);
        assert forall|i: int| 0 <= i < terms.len() implies is_bool(
            (#[trigger] terms[i]).eval(w),
            bs[i],
        ) by {
            Tree::lemma_elim_contains_each_at(s, t.kids, i);
            assert(t.kids[i].wf());
            assert(t.kids[i].eval(w) == Ok::<Value, int>(vt[i]));
            Tree::lemma_elim_contains(s, t.kids[i], w);
        }
        Tree::lemma_or_chain_eval(terms, bs, w);
        if exists|j: int| 0 <= j < vt.len() && (#[trigger] vt[j]).among(vs) {
            let j = choose|j: int| 0 <= j < vt.len() && (#[trigger] vt[j]).among(vs);
            assert(bs[j]);
        }
        if exists|i: int| 0 <= i < bs.len() && #[trigger] bs[i] {
            let i = choose|i: int| 0 <= i < bs.len() && #[trigger] bs[i];
            assert(vt[i].among(vs));
        }
    }

    /// `e in x` for one of the elements of the literal `t`.
    proof fn lemma_in_any(e: Tree, t: Tree, w: World)
        requires
            e.wf(),
            t.wf(),
            t.op == Op::SetLit,
            e.eval(w) is Ok,
            t.eval(w) is Ok,
            e.eval(w)->Ok_0 is Uid,
            forall|i: int|
                0 <= i < t.eval(w)->Ok_0->SetOf_0.len() ==> (
                #[trigger] t.eval(w)->Ok_0->SetOf_0[i]) is Uid,
        ensures
            ({
                let r = Tree::or_chain(
                    t.kids.map_values(|x: Tree| Tree::binary(BinaryOp::In, e, x)),
                );
                r.eval(w) == w.apply_binary(BinaryOp::In, e.eval(w)->Ok_0, t.eval(w)->Ok_0)
                    && r.eval(w) is Ok
            }),
    {
        let vt = t.lemma_set_eval(w);
        let ve = e.eval(w)->Ok_0;
        let me = (ve->Uid_0, ve->Uid_1);
        let terms = t.kids.map_values(|x: Tree| Tree::binary(BinaryOp::In, e, x));
        let bs = Seq::new(vt.len(), |i: int| (w.within)(me, (vt[i]->Uid_0, vt[i]->Uid_1)));
        assert forall|i: int| 0 <= i < terms.len() implies is_bool(
            (#[trigger] terms[i]).eval(w),
            bs[i],
        ) by {
            assert(t.kids[i].eval(w) == Ok::<Value, int>(vt[i]));
            assert(vt[i] is Uid);
            Tree::lemma_binary_eval(BinaryOp::In, e, t.kids[i], w);
        }
        Tree::lemma_or_chain_eval(terms, bs, w);
        if exists|i: int| 0 <= i < vt.len() && (w.within)(
            me,
            ((#[trigger] vt[i])->Uid_0, vt[i]->Uid_1),
        ) {
            let i = choose|i: int|
                0 <= i < vt.len() && (w.within)(me, ((#[trigger] vt[i])->Uid_0, vt[i]->Uid_1));
            assert(bs[i]);
        }
        if exists|i: int| 0 <= i < bs.len() && #[trigger] bs[i] {
            let i = choose|i: int| 0 <= i < bs.len() && #[trigger] bs[i];
            assert((w.within)(me, (vt[i]->Uid_0, vt[i]->Uid_1)));
        }
    }
}

impl Value {
    /// Having an element in common is symmetric.
    proof fn lemma_overlap_sym(xs: Seq<Value>, ys: Seq<Value>)
        requires
            exists|j: int| 0 <= j < xs.len() && (#[trigger] xs[j]).among(ys),
        ensures
            exists|j: int| 0 <= j < ys.len() && (#[trigger] ys[j]).among(xs),
    {
        let j = choose|j: int| 0 <= j < xs.len() && (#[trigger] xs[j]).among(ys);
        let i = choose|i: int| 0 <= i < ys.len() && (#[trigger] ys[i]).same(xs[j]);
        ys[i].lemma_same_sym(xs[j]);
        assert(xs[j].same(ys[i]));
        assert(ys[i].among(xs));
    }
}

/// All of `ts` are well formed.
pub open spec fn all_wf(ts: Seq<Tree>) -> bool {
    forall|i: int| 0 <= i < ts.len() ==> (#[trigger] ts[i]).wf()
}

impl Tree {
    proof fn lemma_two_wf(op: Op, a: Tree, b: Tree)
        requires
            a.wf(),
            b.wf(),
            op.takes(2),
            !(op is Record),
        ensures
            (Tree { op, kids: seq![a, b] }).wf(),
    {
        let t = Tree { op, kids: seq![a, b] };
        assert forall|i: int| 0 <= i < 2 implies (#[trigger] t.kids[i]).wf() by {}
    }

    proof fn lemma_chains_wf(ts: Seq<Tree>)
        requires
            all_wf(ts),
        ensures
            Tree::and_chain(ts).wf(),
            Tree::or_chain(ts).wf(),
        decreases ts.len(),
    {
        if ts.len() > 0 {
            assert(ts[0].wf());
            if ts.len() > 1 {
                let tail = ts.drop_first();
                assert forall|i: int| 0 <= i < tail.len() implies (#[trigger] tail[i]).wf() by {
                    assert(ts[i + 1].wf());
                }
                Tree::lemma_chains_wf(tail);
                Tree::lemma_two_wf(Op::And, ts[0], Tree::and_chain(tail));
                Tree::lemma_two_wf(Op::Or, ts[0], Tree::or_chain(tail));
            }
        }
    }

    proof fn lemma_elim_eq_wf(a: Tree, b: Tree)
        requires
            a.wf(),
            b.wf(),
        ensures
            Tree::elim_eq(a, b).wf(),
        decreases a.size() + b.size(), 2nat,
    {
        if a.op is Record && a.op == b.op && a.kids.len() == b.kids.len() {
            let terms = Tree::elim_eqs(a.kids, b.kids);
            Tree::lemma_elim_eqs_len(a.kids, b.kids);
            assert forall|i: int| 0 <= i < terms.len() implies (#[trigger] terms[i]).wf() by {
                Tree::lemma_elim_eqs_at(a.kids, b.kids, i);
                Tree::lemma_kid_size(a.kids, i);
                Tree::lemma_kid_size(b.kids, i);
                assert(a.kids[i].wf() && b.kids[i].wf());
                Tree::lemma_elim_eq_wf(a.kids[i], b.kids[i]);
            }
            Tree::lemma_chains_wf(terms);
        } else if a.op == Op::SetLit || b.op == Op::SetLit {
            Tree::lemma_elim_contains_all_wf(a, b);
            Tree::lemma_elim_contains_all_wf(b, a);
            Tree::lemma_two_wf(
                Op::And,
                Tree::elim_contains_all(a, b),
                Tree::elim_contains_all(b, a),
            );
        } else {
            Tree::lemma_two_wf(Op::Binary(BinaryOp::Eq), a, b);
        }
    }

    proof fn lemma_elim_contains_all_wf(s: Tree, t: Tree)
        requires
            s.wf(),
            t.wf(),
        ensures
            Tree::elim_contains_all(s, t).wf(),
        decreases s.size() + t.size(), 1nat,
    {
        if t.op == Op::SetLit {
            let terms = Tree::elim_contains_each(s, t.kids);
            Tree::lemma_elim_contains_each_len(s, t.kids);
            assert forall|i: int| 0 <= i < terms.len() implies (#[trigger] terms[i]).wf() by {
                Tree::lemma_elim_contains_each_at(s, t.kids, i);
                Tree::lemma_kid_size(t.kids, i);
                assert(t.kids[i].wf());
                Tree::lemma_elim_contains_wf(s, t.kids[i]);
            }
            Tree::lemma_chains_wf(terms);
        } else {
            Tree::lemma_two_wf(Op::Binary(BinaryOp::ContainsAll), s, t);
        }
    }

    proof fn lemma_elim_contains_wf(s: Tree, x: Tree)
        requires
            s.wf(),
            x.wf(),
        ensures
            Tree::elim_contains(s, x).wf(),
        decreases s.size() + x.size(), 1nat,
    {
        if s.op == Op::SetLit {
            let terms = Tree::elim_eq_each(s.kids, x);
            Tree::lemma_elim_eq_each_len(s.kids, x);
            assert forall|i: int| 0 <= i < terms.len() implies (#[trigger] terms[i]).wf() by {
                Tree::lemma_elim_eq_each_at(s.kids, x, i);
                Tree::lemma_kid_size(s.kids, i);
                assert(s.kids[i].wf());
                Tree::lemma_elim_eq_wf(s.kids[i], x);
            }
            Tree::lemma_chains_wf(terms);
        } else {
            Tree::lemma_two_wf(Op::Binary(BinaryOp::Contains), s, x);
        }
    }

    pub(super) proof fn lemma_key_index_range(keys: Seq<Seq<char>>, key: Seq<char>)
        ensures
            Tree::key_index(keys, key) matches Some(i) ==> 0 <= i < keys.len() && keys[i] == key,
        decreases keys.len(),
    {
        if keys.len() > 0 && keys[0] != key {
            Tree::lemma_key_index_range(keys.drop_first(), key);
        }
    }

    pub(super) proof fn lemma_rewrite_wf(self)
        requires
            self.wf(),
        ensures
            self.rewrite() matches Some(r) ==> r.wf(),
    {
        if self.rewrite() is Some {
            match self.op {
                Op::GetAttr(attr) => {
                    let rec = self.kids[0];
                    assert(rec.wf());
                    Tree::lemma_key_index_range(rec.op->Record_0, attr);
                    let i = Tree::key_index(rec.op->Record_0, attr)->0;
                    assert(rec.kids[i].wf());
                },
                Op::Binary(op) => {
                    let a = self.kids[0];
                    let b = self.kids[1];
                    assert(a.wf() && b.wf());
                    match op {
                        BinaryOp::Eq => {
                            Tree::lemma_elim_eq_wf(a, b);
                        },
                        BinaryOp::Contains => {
                            Tree::lemma_elim_contains_wf(a, b);
                        },
                        BinaryOp::ContainsAll => {
                            Tree::lemma_elim_contains_all_wf(a, b);
                        },
                        BinaryOp::ContainsAny => {
                            if b.op == Op::SetLit {
                                Tree::lemma_contains_each_wf(a, b);
                            } else {
                                Tree::lemma_contains_each_wf(b, a);
                            }
                        },
                        BinaryOp::In => {
                            let terms = b.kids.map_values(
                                |x: Tree| Tree::binary(BinaryOp::In, a, x),
                            );
                            assert forall|i: int| 0 <= i < terms.len() implies (
                            #[trigger] terms[i]).wf() by {
                                assert(b.kids[i].wf());
                                Tree::lemma_two_wf(Op::Binary(BinaryOp::In), a, b.kids[i]);
                            }
                            Tree::lemma_chains_wf(terms);
                        },
                        _ => {},
                    }
                },
                _ => {},
            }
        }
    }

    proof fn lemma_contains_each_wf(s: Tree, t: Tree)
        requires
            s.wf(),
            t.wf(),
        ensures
            Tree::or_chain(Tree::elim_contains_each(s, t.kids)).wf(),
    {
        let terms = Tree::elim_contains_each(s, t.kids);
        Tree::lemma_elim_contains_each_len(s, t.kids);
        assert forall|i: int| 0 <= i < terms.len() implies (#[trigger] terms[i]).wf() by {
            Tree::lemma_elim_contains_each_at(s, t.kids, i);
            assert(t.kids[i].wf());
            Tree::lemma_elim_contains_wf(s, t.kids[i]);
        }
        Tree::lemma_chains_wf(terms);
    }

    /// What is not rewritten stays as it is, and what is rewritten is well
    /// formed.
    pub proof fn lemma_elim_shape(self)
        requires
            self.wf(),
        ensures
            !self.elim().changed ==> self.elim().term == self && self.elim().guards
                == self.fold().guards(),
            self.elim().term.wf(),
            all_wf(self.elim().guards),
        decreases self,
    {
        self.lemma_fold_wf();
        Tree::lemma_guards_wf(self.fold());
        if !(self.is_iferror() || self.op.is_offender()) {
            Tree::lemma_elim_all_shape(self.kids);
            let (changed, guards, terms) = Tree::elim_all(self.kids);
            let rebuilt = Tree { op: self.op, kids: terms };
            if !changed {
                assert(terms =~= self.kids);
                assert(rebuilt == self);
            }
            assert(rebuilt.wf());
            rebuilt.lemma_rewrite_wf();
            assert(all_wf(guards.push(rebuilt)));
        }
    }

    pub(super) proof fn lemma_elim_all_shape(ts: Seq<Tree>)
        requires
            all_wf(ts),
        ensures
            ({
                let (changed, guards, terms) = Tree::elim_all(ts);
                &&& terms.len() == ts.len()
                &&& !changed ==> terms == ts
                &&& all_wf(terms)
                &&& all_wf(guards)
            }),
        decreases ts,
    {
        if ts.len() > 0 {
            let front = ts.drop_last();
            assert forall|i: int| 0 <= i < front.len() implies (#[trigger] front[i]).wf() by {
                assert(ts[i].wf());
            }
            assert(ts[ts.len() - 1].wf());
            Tree::lemma_elim_all_shape(front);
            ts.last().lemma_elim_shape();
            let (changed, guards, terms) = Tree::elim_all(front);
            let e = ts.last().elim();
            if !changed && !e.changed {
                assert(terms.push(e.term) =~= ts);
            }
            assert forall|i: int| 0 <= i < (guards + e.guards).len() implies (
            #[trigger] (guards + e.guards)[i]).wf() by {
                if i < guards.len() {
                    assert((guards + e.guards)[i] == guards[i]);
                } else {
                    assert((guards + e.guards)[i] == e.guards[i - guards.len()]);
                }
            }
        }
    }

    proof fn lemma_guards_wf(t: Tree)
        requires
            t.wf(),
        ensures
            all_wf(t.guards()),
        decreases t,
    {
        if t.op.never_errs() {
            Tree::lemma_guards_all_wf(t.kids);
        }
    }

    proof fn lemma_guards_all_wf(ts: Seq<Tree>)
        requires
            all_wf(ts),
        ensures
            all_wf(Tree::guards_all(ts)),
        decreases ts,
    {
        if ts.len() > 0 {
            let front = ts.drop_last();
            assert forall|i: int| 0 <= i < front.len() implies (#[trigger] front[i]).wf() by {
                assert(ts[i].wf());
            }
            assert(ts[ts.len() - 1].wf());
            Tree::lemma_guards_all_wf(front);
            Tree::lemma_guards_wf(ts.last());
            let a = Tree::guards_all(front);
            let b = ts.last().guards();
            assert forall|i: int| 0 <= i < (a + b).len() implies (#[trigger] (a + b)[i]).wf() by {
                if i < a.len() {
                    assert((a + b)[i] == a[i]);
                } else {
                    assert((a + b)[i] == b[i - a.len()]);
                }
            }
        }
    }

    /// The first erring guard has the error of the tree, and where no guard
    /// errs the rewritten term has the value of the tree.
    pub proof fn lemma_elim_eval(self, w: World)
        requires
            self.wf(),
            self.typed(w),
        ensures
            Tree::first_err(self.elim().guards, w) == err_of(self.eval(w)),
            self.eval(w) is Ok ==> self.elim().term.eval(w) == self.eval(w),
        decreases self,
    {
        self.lemma_elim_shape();
        if !self.elim().changed {
            self.lemma_fold_eval(w);
            self.lemma_fold_wf();
            self.fold().lemma_guards_eval(w);
        } else {
            let (changed, guards, terms) = Tree::elim_all(self.kids);
            let rebuilt = Tree { op: self.op, kids: terms };
            self.lemma_eval_strict(w);
            Tree::lemma_elim_all_shape(self.kids);
            Tree::lemma_eval_all_ok(self.kids, w);
            if self.op is Lit || self.op is Var {
                assert(self.kids =~= seq![]);
                assert(Tree::elim_all(self.kids) == (false, Seq::<Tree>::empty(), Seq::<Tree>::empty()));
                assert(rebuilt.kids =~= self.kids);
            } else {
                Tree::lemma_elim_all_eval(self.kids, w);
                if let Ok(vs) = Tree::eval_all(self.kids, w) {
                    Tree::lemma_eval_congr(self, rebuilt, w);
                    Tree::lemma_eval_all_congr(self.kids, terms, w);
                    rebuilt.lemma_rewrite(w);
                }
                if rebuilt.rewrite() is None && !self.op.never_errs() {
                    assert(guards.push(rebuilt).drop_last() =~= guards);
                }
                if rebuilt.rewrite() is None && self.op.never_errs() {
                    // never errs once its children have evaluated
                    self.lemma_never_errs(w);
                }
            }
        }
    }

    proof fn lemma_never_errs(self, w: World)
        requires
            self.wf(),
            self.op.never_errs(),
        ensures
            Tree::eval_all(self.kids, w) is Ok ==> self.eval(w) is Ok,
    {
        self.lemma_eval_strict(w);
        Tree::lemma_eval_all_ok(self.kids, w);
    }

    proof fn lemma_elim_all_eval(ts: Seq<Tree>, w: World)
        requires
            all_wf(ts),
            Tree::typed_all(ts, w),
        ensures
            ({
                let (changed, guards, terms) = Tree::elim_all(ts);
                &&& terms.len() == ts.len()
                &&& Tree::first_err(guards, w) == err_of(Tree::eval_all(ts, w))
                &&& Tree::eval_all(ts, w) is Ok ==> forall|i: int|
                    0 <= i < ts.len() ==> (#[trigger] ts[i]).eval(w) == terms[i].eval(w)
            }),
        decreases ts,
    {
        if ts.len() > 0 {
            let front = ts.drop_last();
            assert forall|i: int| 0 <= i < front.len() implies (#[trigger] front[i]).wf() by {
                assert(ts[i].wf());
            }
            assert(ts[ts.len() - 1].wf());
            Tree::lemma_elim_all_eval(front, w);
            let (changed, guards, terms) = Tree::elim_all(front);
            let e = ts.last().elim();
            Tree::lemma_first_err_append(guards, e.guards, w);
            if Tree::eval_all(front, w) is Ok {
                ts.last().lemma_elim_eval(w);
                if Tree::eval_all(ts, w) is Ok {
                    assert forall|i: int| 0 <= i < ts.len() implies (#[trigger] ts[i]).eval(w)
                        == terms.push(e.term)[i].eval(w) by {
                        if i < front.len() {
                            assert(front[i].eval(w) == terms[i].eval(w));
                        }
                    }
                }
            }
        }
    }

    /// An error among the first subterms of [`Tree::eval_list`] is the error
    /// of the tree; where evaluation is certain to get through the list, there
    /// is no other.
    proof fn lemma_eval_list(self, n: int, w: World)
        requires
            self.wf(),
            0 <= n <= self.eval_list().0.len(),
        ensures
            Tree::first_err(self.eval_list().0.take(n), w) matches Some(e) ==> self.eval(w)
                == Err::<Value, int>(e),
            self.eval_list().1 && Tree::first_err(self.eval_list().0, w) is None ==> self.eval(
                w,
            ) is Ok,
        decreases self,
    {
        let list = self.eval_list().0;
        if self.op == Op::If || self.op == Op::And || self.op == Op::Or {
            assert(self.kids[0].wf());
            self.kids[0].lemma_eval_list(n, w);
        } else if self.op.never_errs() {
            Tree::lemma_eval_lists(self.kids, n, w);
            self.lemma_eval_strict(w);
            self.lemma_never_errs(w);
        } else {
            assert(list =~= seq![self]);
            assert(list.drop_last() =~= seq![]);
            assert(Tree::first_err(list.drop_last(), w) is None);
            if n == 0 {
                assert(list.take(n) =~= seq![]);
            } else {
                assert(list.take(n) =~= list);
            }
        }
    }

    proof fn lemma_eval_lists(ts: Seq<Tree>, n: int, w: World)
        requires
            all_wf(ts),
            0 <= n <= Tree::eval_lists(ts).0.len(),
        ensures
            Tree::first_err(Tree::eval_lists(ts).0.take(n), w) matches Some(e) ==> Tree::eval_all(
                ts,
                w,
            ) == Err::<Seq<Value>, int>(e),
            Tree::eval_lists(ts).1 && Tree::first_err(Tree::eval_lists(ts).0, w) is None
                ==> Tree::eval_all(ts, w) is Ok,
        decreases ts,
    {
        if ts.len() > 0 {
            let before = ts.drop_last();
            assert forall|i: int| 0 <= i < before.len() implies (#[trigger] before[i]).wf() by {
                assert(ts[i].wf());
            }
            assert(ts[ts.len() - 1].wf());
            let (front, complete) = Tree::eval_lists(before);
            let (last, c) = ts.last().eval_list();
            if !complete {
                Tree::lemma_eval_lists(before, n, w);
            } else {
                let list = front + last;
                Tree::lemma_first_err_append(front, last, w);
                Tree::lemma_eval_lists(before, front.len() as int, w);
                assert(front.take(front.len() as int) =~= front);
                ts.last().lemma_eval_list(last.len() as int, w);
                if n <= front.len() {
                    assert(list.take(n) =~= front.take(n));
                    Tree::lemma_eval_lists(before, n, w);
                } else {
                    let m = n - front.len();
                    assert(list.take(n) =~= front + last.take(m));
                    Tree::lemma_first_err_append(front, last.take(m), w);
                    ts.last().lemma_eval_list(m, w);
                }
            }
        }
    }

    pub(super) proof fn lemma_repeated_from(guards: Seq<Tree>, order: Seq<Tree>, k: int)
        requires
            0 <= k <= guards.len(),
        ensures
            ({
                let r = Tree::repeated_from(guards, order, k);
                0 <= r <= guards.len() && Tree::starts(guards.skip(r), order)
            }),
        decreases guards.len() - k,
    {
        if k >= guards.len() {
            assert(guards.skip(k) =~= seq![]);
            assert(order.take(0) =~= seq![]);
        } else if !Tree::starts(guards.skip(k), order) {
            Tree::lemma_repeated_from(guards, order, k + 1);
        }
    }

    /// Dropping the guards that the term evaluates itself changes nothing.
    proof fn lemma_drop_repeated(guards: Seq<Tree>, term: Tree, w: World)
        requires
            term.wf(),
        ensures
            Tree::guarded(Tree::drop_repeated(guards, term), term).eval(w) == (
            match Tree::first_err(guards, w) {
                None => term.eval(w),
                Some(e) => Err(e),
            }),
    {
        let order = term.eval_list().0;
        let k = Tree::repeated_from(guards, order, 0);
        Tree::lemma_repeated_from(guards, order, 0);
        let kept = guards.take(k);
        let rest = guards.skip(k);
        assert(guards =~= kept + rest);
        Tree::lemma_first_err_append(kept, rest, w);
        Tree::lemma_guarded(kept, term, w);
        assert(order.take(rest.len() as int) == rest);
        term.lemma_eval_list(rest.len() as int, w);
    }

    proof fn lemma_guarded_wf(guards: Seq<Tree>, t: Tree)
        requires
            all_wf(guards),
            t.wf(),
        ensures
            Tree::guarded(guards, t).wf(),
    {
        if guards.len() > 0 {
            let eqs = guards.map_values(|g: Tree| Tree::self_eq(g));
            assert forall|i: int| 0 <= i < eqs.len() implies (#[trigger] eqs[i]).wf() by {
                assert(guards[i].wf());
                Tree::lemma_two_wf(Op::Binary(BinaryOp::Eq), guards[i], guards[i]);
            }
            Tree::lemma_chains_wf(eqs);
            let r = Tree::ite(Tree::and_chain(eqs), t, Tree::bool(false));
            assert forall|i: int| 0 <= i < 3 implies (#[trigger] r.kids[i]).wf() by {}
        }
    }

    proof fn lemma_new_guards_wf(ctx: Seq<Tree>, guards: Seq<Tree>)
        requires
            all_wf(guards),
        ensures
            all_wf(Tree::new_guards(ctx, guards)),
        decreases guards.len(),
    {
        if guards.len() > 0 {
            let front = guards.drop_last();
            assert forall|i: int| 0 <= i < front.len() implies (#[trigger] front[i]).wf() by {
                assert(guards[i].wf());
            }
            Tree::lemma_new_guards_wf(ctx, front);
            assert(guards[guards.len() - 1].wf());
        }
    }

    /// Elimination gives well-formed trees.
    pub proof fn lemma_elim_structure_wf(self, ctx: Seq<Tree>, budget: int)
        requires
            self.wf(),
        ensures
            self.elim_structure(ctx, budget) matches Some((t, _, _)) ==> t.wf(),
        decreases self,
    {
        assert forall|i: int| 0 <= i < self.kids.len() implies (#[trigger] self.kids[i]).wf() by {}
        if self.op is Lit && self.op->Lit_0 is Bool {
        } else if self.op == Op::And && self.kids.len() == 2 {
            let k = self.kids[0];
            k.lemma_elim_structure_wf(ctx, budget);
            if let Some((l, _, b)) = k.elim_structure(ctx, budget) {
                self.kids[1].lemma_elim_structure_wf(ctx + k.learn(true), b);
                if let Some((r, _, _)) = self.kids[1].elim_structure(ctx + k.learn(true), b) {
                    Tree::lemma_two_wf(Op::And, l, r);
                }
            }
        } else if self.op == Op::Or && self.kids.len() == 2 {
            let k = self.kids[0];
            k.lemma_elim_structure_wf(ctx, budget);
            if let Some((l, _, b)) = k.elim_structure(ctx, budget) {
                self.kids[1].lemma_elim_structure_wf(ctx + k.learn(false), b);
                if let Some((r, _, _)) = self.kids[1].elim_structure(ctx + k.learn(false), b) {
                    Tree::lemma_two_wf(Op::Or, l, r);
                }
            }
        } else if self.op == Op::Unary(UnaryOp::Not) && self.kids.len() == 1 {
            self.kids[0].lemma_elim_structure_wf(ctx, budget);
            if let Some((a, _, _)) = self.kids[0].elim_structure(ctx, budget) {
                assert forall|i: int| 0 <= i < 1 implies (#[trigger] Tree::not(a).kids[i]).wf() by {}
            }
        } else if self.op == Op::If && self.kids.len() == 3 {
            let k = self.kids[0];
            k.lemma_elim_structure_wf(ctx, budget);
            if let Some((c, _, b)) = k.elim_structure(ctx, budget) {
                let yes = ctx + k.learn(true);
                let no = ctx + k.learn(false);
                self.kids[1].lemma_elim_structure_wf(yes, b);
                if let Some((t, _, b)) = self.kids[1].elim_structure(yes, b) {
                    self.kids[2].lemma_elim_structure_wf(no, b);
                    if let Some((e, _, b)) = self.kids[2].elim_structure(no, b) {
                        assert forall|i: int| 0 <= i < 3 implies (
                        #[trigger] Tree::ite(c, t, e).kids[i]).wf() by {}
                    }
                }
            }
        } else {
            reveal(Tree::elim_atom);
            self.lemma_elim_shape();
            let e = self.elim();
            Tree::lemma_new_guards_wf(ctx, e.guards);
            let gs = Tree::new_guards(ctx, e.guards);
            let order = e.term.eval_list().0;
            Tree::lemma_repeated_from(gs, order, 0);
            let kept = Tree::drop_repeated(gs, e.term);
            assert forall|i: int| 0 <= i < kept.len() implies (#[trigger] kept[i]).wf() by {
                assert(gs[i].wf());
            }
            Tree::lemma_guarded_wf(kept, e.term);
        }
    }

    /// Elimination preserves a well-typed evaluation where the context has
    /// evaluated.
    pub proof fn lemma_elim_structure_eval(self, ctx: Seq<Tree>, budget: int, w: World)
        requires
            self.wf(),
            self.typed(w),
            Tree::all_ok(ctx, w),
        ensures
            self.elim_structure(ctx, budget) matches Some((t, _, _)) ==> t.eval(w) == self.eval(w),
        decreases self,
    {
        assert forall|i: int| 0 <= i < self.kids.len() implies (#[trigger] self.kids[i]).wf() by {}
        if self.op is Lit && self.op->Lit_0 is Bool {
        } else if self.op == Op::And && self.kids.len() == 2 {
            let k = self.kids[0];
            k.lemma_elim_structure_eval(ctx, budget, w);
            if let Some((l, _, b)) = k.elim_structure(ctx, budget) {
                if k.eval(w) == Ok::<Value, int>(Value::Bool(true)) {
                    k.lemma_learn(true, w);
                    Tree::lemma_all_ok_append(ctx, k.learn(true), w);
                    self.kids[1].lemma_elim_structure_eval(ctx + k.learn(true), b, w);
                }
                if let Some((r, _, _)) = self.kids[1].elim_structure(ctx + k.learn(true), b) {
                    assert(Tree::and(l, r).kids[0] == l && Tree::and(l, r).kids[1] == r);
                }
            }
        } else if self.op == Op::Or && self.kids.len() == 2 {
            let k = self.kids[0];
            k.lemma_elim_structure_eval(ctx, budget, w);
            if let Some((l, _, b)) = k.elim_structure(ctx, budget) {
                if k.eval(w) == Ok::<Value, int>(Value::Bool(false)) {
                    k.lemma_learn(false, w);
                    Tree::lemma_all_ok_append(ctx, k.learn(false), w);
                    self.kids[1].lemma_elim_structure_eval(ctx + k.learn(false), b, w);
                }
                if let Some((r, _, _)) = self.kids[1].elim_structure(ctx + k.learn(false), b) {
                    assert(Tree::or(l, r).kids[0] == l && Tree::or(l, r).kids[1] == r);
                }
            }
        } else if self.op == Op::Unary(UnaryOp::Not) && self.kids.len() == 1 {
            self.kids[0].lemma_elim_structure_eval(ctx, budget, w);
            if let Some((a, _, _)) = self.kids[0].elim_structure(ctx, budget) {
                assert(Tree::not(a).kids[0] == a);
            }
        } else if self.op == Op::If && self.kids.len() == 3 {
            let k = self.kids[0];
            k.lemma_elim_structure_eval(ctx, budget, w);
            if let Some((c, _, b)) = k.elim_structure(ctx, budget) {
                let yes = ctx + k.learn(true);
                let no = ctx + k.learn(false);
                if k.eval(w) == Ok::<Value, int>(Value::Bool(true)) {
                    k.lemma_learn(true, w);
                    Tree::lemma_all_ok_append(ctx, k.learn(true), w);
                    self.kids[1].lemma_elim_structure_eval(yes, b, w);
                }
                if let Some((t, _, b)) = self.kids[1].elim_structure(yes, b) {
                    if k.eval(w) == Ok::<Value, int>(Value::Bool(false)) {
                        k.lemma_learn(false, w);
                        Tree::lemma_all_ok_append(ctx, k.learn(false), w);
                        self.kids[2].lemma_elim_structure_eval(no, b, w);
                    }
                    if let Some((e, _, b)) = self.kids[2].elim_structure(no, b) {
                        let r = Tree::ite(c, t, e);
                        assert(r.kids[0] == c && r.kids[1] == t && r.kids[2] == e);
                    }
                }
            }
        } else {
            reveal(Tree::elim_atom);
            self.lemma_elim_shape();
            self.lemma_elim_eval(w);
            let e = self.elim();
            if e.changed {
                let gs = Tree::new_guards(ctx, e.guards);
                Tree::lemma_new_guards(ctx, e.guards, w);
                Tree::lemma_drop_repeated(gs, e.term, w);
            }
        }
    }
}

/// Eliminating record and set literals preserves evaluation exactly, the same
/// value or the same error, on every input on which the evaluation of the
/// expression is well typed.
pub proof fn law_elimination_preserves_evaluation(expr: &Expr<()>, max_nodes: nat, w: World)
    requires
        expr.tree().wf(),
        expr.tree().typed(w),
    ensures
        expr.tree().elim_structure(seq![], max_nodes as int) matches Some((t, _, _)) ==> t.eval(w)
            == expr.tree().eval(w),
{
    expr.tree().lemma_elim_structure_eval(seq![], max_nodes as int, w);
}

/// Normalizing the atoms of an expression preserves evaluation exactly on
/// every input on which the evaluation of the expression is well typed, and
/// leaves no boolean structure inside an atom.
pub proof fn law_normalization_preserves_evaluation<T>(expr: &Expr<T>, max_nodes: usize, w: World)
    requires
        expr.tree().wf(),
        expr.tree().typed(w),
    ensures
        expr.tree().normalized(max_nodes) matches Ok(t) ==> t.eval(w) == expr.tree().eval(w)
            && t.atoms_clean(),
{
    lemma_normalized_eval(expr.tree(), max_nodes, w);
}

/// The rewrites keep expressions well formed: where the names of the fields of
/// every record of an expression are in order and distinct, they are so after
/// splitting, eliminating and normalizing its atoms.
pub proof fn law_records_stay_in_order<T>(expr: &Expr<T>, max_nodes: usize)
    requires
        expr.tree().wf(),
    ensures
        expr.tree().split(seq![], max_nodes as int) matches Some((t, _)) ==> t.wf(),
        expr.tree().elim_structure(seq![], max_nodes as int) matches Some((t, _, _)) ==> t.wf(),
        expr.tree().normalized(max_nodes) matches Ok(t) ==> t.wf(),
{
    let n = max_nodes as int;
    let t = expr.tree();
    t.lemma_split_clean(seq![], n);
    t.lemma_elim_structure_wf(seq![], n);
    if let Some((split, _)) = t.split(seq![], n) {
        split.lemma_elim_structure_wf(seq![], n);
        if let Some((eliminated, _, _)) = split.elim_structure(seq![], n) {
            eliminated.lemma_split_clean(seq![], n);
        }
    }
}

/// `==` between two record literals with the same field names is always
/// rewritten, in whatever order the names were written: to the conjunction of
/// the `==` of their fields.
pub proof fn law_records_are_compared_by_field(a: Tree, b: Tree)
    requires
        a.wf(),
        b.wf(),
        a.op is Record,
        b.op is Record,
        forall|k: Seq<char>| #[trigger]
            a.op->Record_0.contains(k) <==> b.op->Record_0.contains(k),
    ensures
        Tree::elim_eq(a, b) == Tree::and_chain(Tree::elim_eqs(a.kids, b.kids)),
{
    crate::tree::law_names_determine_order(a.op->Record_0, b.op->Record_0);
}

/// Normalizing a well-formed tree preserves its well-typed evaluations.
pub proof fn lemma_normalized_eval(t: Tree, max_nodes: usize, w: World)
    requires
        t.wf(),
        t.typed(w),
    ensures
        t.normalized(max_nodes) matches Ok(r) ==> r.eval(w) == t.eval(w) && r.atoms_clean(),
{
    let n = max_nodes as int;
    t.lemma_split_eval(seq![], n, w);
    t.lemma_split_typed(seq![], n, w);
    t.lemma_split_clean(seq![], n);
    if let Some((split, _)) = t.split(seq![], n) {
        split.lemma_elim_structure_eval(seq![], n, w);
        split.lemma_elim_structure_wf(seq![], n);
        if let Some((eliminated, changed, _)) = split.elim_structure(seq![], n) {
            if changed {
                eliminated.lemma_split_eval(seq![], n, w);
                eliminated.lemma_split_clean(seq![], n);
            }
        }
    }
}

} // verus!
