//! What elimination leaves of the record and set literals.

use vstd::prelude::*;

use crate::ast::{BinaryOp, Expr, UnaryOp};
use crate::tree::{Op, Tree};

verus! {

impl Tree {
    /// The root hides a literal: a record literal under one of its own
    /// attributes or under `has`, two with the same keys under `==`, a set
    /// literal as the left operand of `contains` or `containsAny`, the right
    /// operand of `containsAll`, `containsAny` or `in`, either side of `==`, or
    /// under `isEmpty`.
    pub open spec fn hides_literal(self) -> bool {
        match self.op {
            Op::GetAttr(attr) => self.kids[0].op matches Op::Record(keys) && Tree::key_index(
                keys,
                attr,
            ) is Some,
            Op::HasAttr(_) => self.kids[0].op is Record,
            Op::Unary(UnaryOp::IsEmpty) => self.kids[0].op == Op::SetLit,
            Op::Binary(BinaryOp::Eq) => {
                ||| self.kids[0].op is Record && self.kids[0].op == self.kids[1].op
                    && self.kids[0].kids.len() == self.kids[1].kids.len()
                ||| self.kids[0].op == Op::SetLit
                ||| self.kids[1].op == Op::SetLit
            },
            Op::Binary(BinaryOp::Contains) => self.kids[0].op == Op::SetLit,
            Op::Binary(BinaryOp::ContainsAll) => self.kids[1].op == Op::SetLit,
            Op::Binary(BinaryOp::ContainsAny) => self.kids[0].op == Op::SetLit || self.kids[1].op
                == Op::SetLit,
            Op::Binary(BinaryOp::In) => self.kids[1].op == Op::SetLit,
            _ => false,
        }
    }

    /// No node hides a literal, outside `iferror` calls.
    pub open spec fn literal_free(self) -> bool
        decreases self,
    {
        self.is_iferror() || (!self.hides_literal() && forall|i: int|
            0 <= i < self.kids.len() ==> (#[trigger] self.kids[i]).literal_free())
    }

    /// No set literal to the right of `in` has a set literal among its
    /// elements, once literals are eliminated in it: what typechecks has
    /// entities there.
    pub open spec fn in_entities(self) -> bool
        decreases self,
    {
        self.is_iferror() || {
            &&& forall|i: int| 0 <= i < self.kids.len() ==> (#[trigger] self.kids[i]).in_entities()
            &&& self.op == Op::Binary(BinaryOp::In) && self.kids[1].elim().term.op == Op::SetLit
                ==> forall|j: int|
                0 <= j < self.kids[1].elim().term.kids.len() ==> (
                #[trigger] self.kids[1].elim().term.kids[j]).op != Op::SetLit
        }
    }

    /// No node hides a literal and none is an `if`, outside `iferror` calls.
    spec fn tidy(self) -> bool
        decreases self,
    {
        self.is_iferror() || (self.op != Op::If && !self.hides_literal() && forall|i: int|
            0 <= i < self.kids.len() ==> (#[trigger] self.kids[i]).tidy())
    }

    /// Every atom is tidy.
    spec fn atoms_tidy(self) -> bool
        decreases self,
    {
        if self.op.is_offender() {
            forall|i: int| 0 <= i < self.kids.len() ==> (#[trigger] self.kids[i]).atoms_tidy()
        } else {
            self.tidy()
        }
    }

    /// Tidy, and neither a set nor a record literal itself.
    spec fn plain(self) -> bool {
        self.tidy() && self.op != Op::SetLit && !(self.op is Record)
    }

    spec fn all_plain(ts: Seq<Tree>) -> bool {
        forall|i: int| 0 <= i < ts.len() ==> (#[trigger] ts[i]).plain()
    }

    spec fn all_tidy(ts: Seq<Tree>) -> bool {
        forall|i: int| 0 <= i < ts.len() ==> (#[trigger] ts[i]).tidy()
    }

    proof fn lemma_tidy_atoms(self)
        requires
            self.tidy(),
        ensures
            self.atoms_tidy(),
        decreases self,
    {
        if self.op.is_offender() {
            assert forall|i: int| 0 <= i < self.kids.len() implies (
            #[trigger] self.kids[i]).atoms_tidy() by {
                assert(self.kids[i].tidy());
                self.kids[i].lemma_tidy_atoms();
            }
        }
    }

    proof fn lemma_tidy_free(self)
        requires
            self.tidy(),
        ensures
            self.literal_free(),
        decreases self,
    {
        if !self.is_iferror() {
            assert forall|i: int| 0 <= i < self.kids.len() implies (
            #[trigger] self.kids[i]).literal_free() by {
                assert(self.kids[i].tidy());
                self.kids[i].lemma_tidy_free();
            }
        }
    }

    proof fn lemma_atoms_tidy_free(self)
        requires
            self.atoms_tidy(),
        ensures
            self.literal_free(),
        decreases self,
    {
        if self.op.is_offender() {
            assert forall|i: int| 0 <= i < self.kids.len() implies (
            #[trigger] self.kids[i]).literal_free() by {
                assert(self.kids[i].atoms_tidy());
                self.kids[i].lemma_atoms_tidy_free();
            }
        } else {
            self.lemma_tidy_free();
        }
    }

    proof fn lemma_plain_append(a: Seq<Tree>, b: Seq<Tree>)
        requires
            Tree::all_plain(a),
            Tree::all_plain(b),
        ensures
            Tree::all_plain(a + b),
    {
        assert forall|i: int| 0 <= i < (a + b).len() implies (#[trigger] (a + b)[i]).plain() by {
            if i < a.len() {
                assert((a + b)[i] == a[i]);
            } else {
                assert((a + b)[i] == b[i - a.len()]);
            }
        }
    }

    /// Whether the root hides a literal depends on the roots of the children
    /// alone, as far as they are literals.
    proof fn lemma_hides_alike(a: Tree, b: Tree)
        requires
            a.wf(),
            b.wf(),
            a.op == b.op,
            a.kids.len() == b.kids.len(),
            forall|i: int|
                0 <= i < a.kids.len() ==> Tree::alike_root(#[trigger] a.kids[i], b.kids[i]),
        ensures
            a.hides_literal() == b.hides_literal(),
    {
        if a.kids.len() > 0 {
            assert(Tree::alike_root(a.kids[0], b.kids[0]));
        }
        if a.kids.len() > 1 {
            assert(Tree::alike_root(a.kids[1], b.kids[1]));
        }
    }

    /// The roots are the same, or neither is a set or record literal.
    spec fn alike_root(a: Tree, b: Tree) -> bool {
        ||| a.op == b.op && a.kids.len() == b.kids.len()
        ||| a.op != Op::SetLit && !(a.op is Record) && b.op != Op::SetLit && !(b.op is Record)
    }

    proof fn lemma_with_kid_tidy(self, i: int, t: Tree)
        requires
            self.wf(),
            self.with_kid(i, t).wf(),
            self.tidy(),
            0 <= i < self.kids.len(),
            t.tidy(),
            Tree::alike_root(self.kids[i], t),
        ensures
            self.with_kid(i, t).tidy(),
    {
        if !self.is_iferror() {
            let new = self.with_kid(i, t);
            assert forall|j: int| 0 <= j < self.kids.len() implies Tree::alike_root(
                #[trigger] self.kids[j],
                new.kids[j],
            ) by {}
            Tree::lemma_hides_alike(self, new);
            assert forall|j: int| 0 <= j < new.kids.len() implies (
            #[trigger] new.kids[j]).tidy() by {
                assert(self.kids[j].tidy());
            }
        }
    }

    proof fn lemma_fold_tidy(self)
        requires
            self.wf(),
            self.tidy(),
        ensures
            self.fold().tidy(),
            Tree::alike_root(self, self.fold()),
        decreases self,
    {
        Tree::lemma_fold_all_len(self.kids);
        self.lemma_fold_wf();
        let kids = Tree::fold_all(self.kids);
        let new = Tree { op: self.op, kids };
        if !self.is_iferror() {
            assert forall|i: int| 0 <= i < kids.len() implies (#[trigger] kids[i]).tidy()
                && Tree::alike_root(self.kids[i], kids[i]) && kids[i].wf() by {
                Tree::lemma_fold_all(self.kids, i);
                assert(self.kids[i].wf() && self.kids[i].tidy());
                self.kids[i].lemma_fold_tidy();
                self.kids[i].lemma_fold_wf();
            }
            assert(new.wf());
            assert forall|i: int| 0 <= i < self.kids.len() implies Tree::alike_root(
                #[trigger] self.kids[i],
                new.kids[i],
            ) by {
                assert(kids[i].tidy());
            }
            Tree::lemma_hides_alike(self, new);
        }
    }

    proof fn lemma_guards_plain(self)
        requires
            self.tidy(),
        ensures
            Tree::all_plain(self.guards()),
        decreases self,
    {
        if self.op.never_errs() {
            assert forall|i: int| 0 <= i < self.kids.len() implies (
            #[trigger] self.kids[i]).tidy() by {}
            Tree::lemma_guards_all_plain(self.kids);
        }
    }

    proof fn lemma_guards_all_plain(ts: Seq<Tree>)
        requires
            Tree::all_tidy(ts),
        ensures
            Tree::all_plain(Tree::guards_all(ts)),
        decreases ts,
    {
        if ts.len() > 0 {
            assert(ts[ts.len() - 1].tidy());
            assert forall|i: int| 0 <= i < ts.drop_last().len() implies (
            #[trigger] ts.drop_last()[i]).tidy() by {
                assert(ts[i].tidy());
            }
            Tree::lemma_guards_all_plain(ts.drop_last());
            ts.last().lemma_guards_plain();
            Tree::lemma_plain_append(Tree::guards_all(ts.drop_last()), ts.last().guards());
        }
    }

    proof fn lemma_before_plain(ts: Seq<Tree>)
        requires
            super::elim_laws::all_wf(ts),
            Tree::all_tidy(ts),
        ensures
            Tree::all_plain(Tree::guards_all(Tree::fold_all(ts))),
    {
        Tree::lemma_fold_all_len(ts);
        assert forall|i: int| 0 <= i < ts.len() implies (
        #[trigger] Tree::fold_all(ts)[i]).tidy() by {
            Tree::lemma_fold_all(ts, i);
            assert(ts[i].wf() && ts[i].tidy());
            ts[i].lemma_fold_tidy();
        }
        Tree::lemma_guards_all_plain(Tree::fold_all(ts));
    }

    /// What a tidy atom is split into is tidy.
    proof fn lemma_hoist_tidy(self)
        requires
            self.wf(),
            self.tidy(),
        ensures
            self.hoist() matches Some(h) ==> {
                &&& Tree::all_plain(h.guards)
                &&& h.cond.tidy()
                &&& h.yes.tidy() && h.yes.op == self.op && h.yes.kids.len() == self.kids.len()
                &&& h.no.tidy() && h.no.op == self.op && h.no.kids.len() == self.kids.len()
            },
        decreases self, self.kids.len() + 1,
    {
        if !self.is_iferror() {
            self.lemma_hoist_from_tidy(0);
        }
    }

    proof fn lemma_hoist_from_tidy(self, i: int)
        requires
            self.wf(),
            self.tidy(),
            !self.is_iferror(),
            0 <= i <= self.kids.len(),
        ensures
            self.hoist_from(i) matches Some(h) ==> {
                &&& Tree::all_plain(h.guards)
                &&& h.cond.tidy()
                &&& h.yes.tidy() && h.yes.op == self.op && h.yes.kids.len() == self.kids.len()
                &&& h.no.tidy() && h.no.op == self.op && h.no.kids.len() == self.kids.len()
            },
        decreases self, self.kids.len() - i,
    {
        if i < self.kids.len() {
            let kid = self.kids[i];
            assert(kid.wf() && kid.tidy());
            let front = self.kids.take(i);
            assert forall|j: int| 0 <= j < front.len() implies (#[trigger] front[j]).wf()
                && front[j].tidy() by {
                assert(self.kids[j].wf() && self.kids[j].tidy());
            }
            Tree::lemma_before_plain(front);
            if kid.op.is_offender() && kid.kids.len() > 0 {
                assert(Tree::bool(true).tidy() && Tree::bool(true).wf());
                assert(Tree::bool(false).tidy() && Tree::bool(false).wf());
                self.lemma_with_kid_wf(i, Tree::bool(true));
                self.lemma_with_kid_wf(i, Tree::bool(false));
                self.lemma_with_kid_tidy(i, Tree::bool(true));
                self.lemma_with_kid_tidy(i, Tree::bool(false));
            } else {
                kid.lemma_hoist_tidy();
                kid.lemma_hoist_wf();
                match kid.hoist() {
                    Some(h) => {
                        self.lemma_with_kid_wf(i, h.yes);
                        self.lemma_with_kid_wf(i, h.no);
                        self.lemma_with_kid_tidy(i, h.yes);
                        self.lemma_with_kid_tidy(i, h.no);
                        Tree::lemma_plain_append(
                            Tree::guards_all(Tree::fold_all(front)),
                            h.guards,
                        );
                    },
                    None => {
                        self.lemma_hoist_from_tidy(i + 1);
                    },
                }
            }
        }
    }

    proof fn lemma_new_guards_plain(ctx: Seq<Tree>, guards: Seq<Tree>)
        requires
            Tree::all_plain(guards),
        ensures
            Tree::all_plain(Tree::new_guards(ctx, guards)),
        decreases guards.len(),
    {
        if guards.len() > 0 {
            assert forall|i: int| 0 <= i < guards.drop_last().len() implies (
            #[trigger] guards.drop_last()[i]).plain() by {
                assert(guards[i].plain());
            }
            Tree::lemma_new_guards_plain(ctx, guards.drop_last());
            assert(guards[guards.len() - 1].plain());
        }
    }

    proof fn lemma_two_tidy(op: Op, a: Tree, b: Tree)
        requires
            a.tidy(),
            b.tidy(),
            op == Op::And || op == Op::Or || op is Binary,
            !(Tree { op, kids: seq![a, b] }).hides_literal(),
        ensures
            (Tree { op, kids: seq![a, b] }).tidy(),
    {
        let t = Tree { op, kids: seq![a, b] };
        assert forall|i: int| 0 <= i < 2 implies (#[trigger] t.kids[i]).tidy() by {}
    }

    proof fn lemma_chains_tidy(ts: Seq<Tree>)
        requires
            Tree::all_tidy(ts),
        ensures
            Tree::and_chain(ts).tidy(),
            Tree::or_chain(ts).tidy(),
        decreases ts.len(),
    {
        if ts.len() > 0 {
            assert(ts[0].tidy());
            if ts.len() > 1 {
                let tail = ts.drop_first();
                assert forall|i: int| 0 <= i < tail.len() implies (#[trigger] tail[i]).tidy() by {
                    assert(ts[i + 1].tidy());
                }
                Tree::lemma_chains_tidy(tail);
                Tree::lemma_two_tidy(Op::And, ts[0], Tree::and_chain(tail));
                Tree::lemma_two_tidy(Op::Or, ts[0], Tree::or_chain(tail));
            }
        }
    }

    /// Guards add no literal.
    proof fn lemma_guarded_tidy(guards: Seq<Tree>, t: Tree)
        requires
            Tree::all_plain(guards),
            t.atoms_tidy(),
        ensures
            Tree::guarded(guards, t).atoms_tidy(),
    {
        let eqs = guards.map_values(|g: Tree| Tree::self_eq(g));
        assert forall|i: int| 0 <= i < eqs.len() implies (#[trigger] eqs[i]).tidy() by {
            let g = guards[i];
            assert(g.plain());
            Tree::lemma_two_tidy(Op::Binary(BinaryOp::Eq), g, g);
        }
        Tree::lemma_chains_tidy(eqs);
        Tree::and_chain(eqs).lemma_tidy_atoms();
        Tree::lemma_ite_tidy(Tree::and_chain(eqs), t, Tree::bool(false));
    }

    proof fn lemma_ite_tidy(c: Tree, a: Tree, b: Tree)
        requires
            c.atoms_tidy(),
            a.atoms_tidy(),
            b.atoms_tidy(),
        ensures
            Tree::ite(c, a, b).atoms_tidy(),
            Tree::and(a, b).atoms_tidy(),
            Tree::or(a, b).atoms_tidy(),
            Tree::not(a).atoms_tidy(),
    {
        let t = Tree::ite(c, a, b);
        assert forall|i: int| 0 <= i < 3 implies (#[trigger] t.kids[i]).atoms_tidy() by {}
        let t = Tree::and(a, b);
        assert forall|i: int| 0 <= i < 2 implies (#[trigger] t.kids[i]).atoms_tidy() by {}
        let t = Tree::or(a, b);
        assert forall|i: int| 0 <= i < 2 implies (#[trigger] t.kids[i]).atoms_tidy() by {}
        let t = Tree::not(a);
        assert forall|i: int| 0 <= i < 1 implies (#[trigger] t.kids[i]).atoms_tidy() by {}
    }

    /// Splitting atoms that are tidy keeps them so.
    proof fn lemma_split_tidy(self, ctx: Seq<Tree>, budget: int)
        requires
            self.wf(),
            self.atoms_tidy(),
        ensures
            self.split(ctx, budget) matches Some((t, _)) ==> t.atoms_tidy(),
        decreases self.size(), 1nat,
    {
        assert forall|i: int| 0 <= i < self.kids.len() implies (#[trigger] self.kids[i]).size()
            < self.size() && self.kids[i].wf() by {
            Tree::lemma_kid_size(self.kids, i);
        }
        let no_tree = Tree::bool(false);
        if self.op is Lit && self.op->Lit_0 is Bool {
        } else if self.op == Op::And && self.kids.len() == 2 {
            let k = self.kids[0];
            assert(k.atoms_tidy() && self.kids[1].atoms_tidy());
            k.lemma_split_tidy(ctx, budget);
            if let Some((l, b)) = k.split(ctx, budget) {
                self.kids[1].lemma_split_tidy(ctx + k.learn(true), b);
                if let Some((r, _)) = self.kids[1].split(ctx + k.learn(true), b) {
                    Tree::lemma_ite_tidy(no_tree, l, r);
                }
            }
        } else if self.op == Op::Or && self.kids.len() == 2 {
            let k = self.kids[0];
            assert(k.atoms_tidy() && self.kids[1].atoms_tidy());
            k.lemma_split_tidy(ctx, budget);
            if let Some((l, b)) = k.split(ctx, budget) {
                self.kids[1].lemma_split_tidy(ctx + k.learn(false), b);
                if let Some((r, _)) = self.kids[1].split(ctx + k.learn(false), b) {
                    Tree::lemma_ite_tidy(no_tree, l, r);
                }
            }
        } else if self.op == Op::Unary(UnaryOp::Not) && self.kids.len() == 1 {
            assert(self.kids[0].atoms_tidy());
            self.kids[0].lemma_split_tidy(ctx, budget);
            if let Some((a, _)) = self.kids[0].split(ctx, budget) {
                Tree::lemma_ite_tidy(no_tree, a, a);
            }
        } else if self.op == Op::If && self.kids.len() == 3 {
            let k = self.kids[0];
            assert(k.atoms_tidy() && self.kids[1].atoms_tidy() && self.kids[2].atoms_tidy());
            k.lemma_split_tidy(ctx, budget);
            if let Some((c, b)) = k.split(ctx, budget) {
                let yes = ctx + k.learn(true);
                let no = ctx + k.learn(false);
                self.kids[1].lemma_split_tidy(yes, b);
                if let Some((t, b)) = self.kids[1].split(yes, b) {
                    self.kids[2].lemma_split_tidy(no, b);
                    if let Some((e, b)) = self.kids[2].split(no, b) {
                        Tree::lemma_ite_tidy(c, t, e);
                    }
                }
            }
        } else {
            self.lemma_split_atom_tidy(ctx, budget);
        }
    }

    proof fn lemma_split_atom_tidy(self, ctx: Seq<Tree>, budget: int)
        requires
            self.wf(),
            self.tidy(),
        ensures
            self.split_atom(ctx, budget) matches Some((t, _)) ==> t.atoms_tidy(),
        decreases self.size(), 0nat,
    {
        if self.size() <= budget {
            self.lemma_hoist_size();
            self.lemma_hoist_wf();
            self.lemma_hoist_tidy();
            match self.hoist() {
                None => {
                    self.lemma_fold_tidy();
                    self.fold().lemma_tidy_atoms();
                },
                Some(h) => {
                    let fresh = Tree::new_guards(ctx, h.guards);
                    let inner = ctx + fresh;
                    let copies = inner + h.cond.evaluated();
                    Tree::lemma_new_guards_plain(ctx, h.guards);
                    h.cond.lemma_tidy_atoms();
                    h.cond.lemma_split_tidy(inner, budget - self.size());
                    if let Some((test, b)) = h.cond.split(inner, budget - self.size()) {
                        h.yes.lemma_split_atom_tidy(copies, b);
                        if let Some((yes, b)) = h.yes.split_atom(copies, b) {
                            h.no.lemma_split_atom_tidy(copies, b);
                            if let Some((no, b)) = h.no.split_atom(copies, b) {
                                Tree::lemma_ite_tidy(test, yes, no);
                                Tree::lemma_guarded_tidy(fresh, Tree::ite(test, yes, no));
                            }
                        }
                    }
                },
            }
        }
    }

    proof fn lemma_elim_eq_tidy(a: Tree, b: Tree)
        requires
            a.tidy(),
            b.tidy(),
        ensures
            Tree::elim_eq(a, b).tidy(),
        decreases a.size() + b.size(), 2nat,
    {
        if a.op is Record && a.op == b.op && a.kids.len() == b.kids.len() {
            let terms = Tree::elim_eqs(a.kids, b.kids);
            Tree::lemma_elim_eqs_len(a.kids, b.kids);
            assert forall|i: int| 0 <= i < terms.len() implies (#[trigger] terms[i]).tidy() by {
                Tree::lemma_elim_eqs_at(a.kids, b.kids, i);
                Tree::lemma_kid_size(a.kids, i);
                Tree::lemma_kid_size(b.kids, i);
                assert(a.kids[i].tidy() && b.kids[i].tidy());
                Tree::lemma_elim_eq_tidy(a.kids[i], b.kids[i]);
            }
            Tree::lemma_chains_tidy(terms);
        } else if a.op == Op::SetLit || b.op == Op::SetLit {
            Tree::lemma_elim_contains_all_tidy(a, b);
            Tree::lemma_elim_contains_all_tidy(b, a);
            Tree::lemma_two_tidy(
                Op::And,
                Tree::elim_contains_all(a, b),
                Tree::elim_contains_all(b, a),
            );
        } else {
            Tree::lemma_two_tidy(Op::Binary(BinaryOp::Eq), a, b);
        }
    }

    proof fn lemma_elim_contains_all_tidy(s: Tree, t: Tree)
        requires
            s.tidy(),
            t.tidy(),
        ensures
            Tree::elim_contains_all(s, t).tidy(),
        decreases s.size() + t.size(), 1nat,
    {
        if t.op == Op::SetLit {
            let terms = Tree::elim_contains_each(s, t.kids);
            Tree::lemma_elim_contains_each_len(s, t.kids);
            assert forall|i: int| 0 <= i < terms.len() implies (#[trigger] terms[i]).tidy() by {
                Tree::lemma_elim_contains_each_at(s, t.kids, i);
                Tree::lemma_kid_size(t.kids, i);
                assert(t.kids[i].tidy());
                Tree::lemma_elim_contains_tidy(s, t.kids[i]);
            }
            Tree::lemma_chains_tidy(terms);
        } else {
            Tree::lemma_two_tidy(Op::Binary(BinaryOp::ContainsAll), s, t);
        }
    }

    proof fn lemma_elim_contains_tidy(s: Tree, x: Tree)
        requires
            s.tidy(),
            x.tidy(),
        ensures
            Tree::elim_contains(s, x).tidy(),
        decreases s.size() + x.size(), 1nat,
    {
        if s.op == Op::SetLit {
            let terms = Tree::elim_eq_each(s.kids, x);
            Tree::lemma_elim_eq_each_len(s.kids, x);
            assert forall|i: int| 0 <= i < terms.len() implies (#[trigger] terms[i]).tidy() by {
                Tree::lemma_elim_eq_each_at(s.kids, x, i);
                Tree::lemma_kid_size(s.kids, i);
                assert(s.kids[i].tidy());
                Tree::lemma_elim_eq_tidy(s.kids[i], x);
            }
            Tree::lemma_chains_tidy(terms);
        } else {
            Tree::lemma_two_tidy(Op::Binary(BinaryOp::Contains), s, x);
        }
    }

    proof fn lemma_contains_each_tidy(s: Tree, t: Tree)
        requires
            s.tidy(),
            t.tidy(),
            t.op == Op::SetLit,
        ensures
            Tree::or_chain(Tree::elim_contains_each(s, t.kids)).tidy(),
    {
        let terms = Tree::elim_contains_each(s, t.kids);
        Tree::lemma_elim_contains_each_len(s, t.kids);
        assert forall|i: int| 0 <= i < terms.len() implies (#[trigger] terms[i]).tidy() by {
            Tree::lemma_elim_contains_each_at(s, t.kids, i);
            assert(t.kids[i].tidy());
            Tree::lemma_elim_contains_tidy(s, t.kids[i]);
        }
        Tree::lemma_chains_tidy(terms);
    }

    /// A rule applies where a literal is hidden, and gives a tidy term if the
    /// children are tidy.
    proof fn lemma_rewrite_tidy(self)
        requires
            self.wf(),
            !self.is_iferror(),
            self.op != Op::If,
            Tree::all_tidy(self.kids),
            self.op == Op::Binary(BinaryOp::In) && self.kids[1].op == Op::SetLit ==> forall|j: int|
                0 <= j < self.kids[1].kids.len() ==> (#[trigger] self.kids[1].kids[j]).op
                    != Op::SetLit,
        ensures
            match self.rewrite() {
                Some(r) => r.tidy(),
                None => self.tidy(),
            },
    {
        assert(self.rewrite() is Some == self.hides_literal());
        if self.rewrite() is Some {
            match self.op {
                Op::GetAttr(attr) => {
                    let rec = self.kids[0];
                    assert(rec.wf() && rec.tidy());
                    Tree::lemma_key_index_range(rec.op->Record_0, attr);
                    let i = Tree::key_index(rec.op->Record_0, attr)->0;
                    assert(rec.kids[i].tidy());
                },
                Op::Binary(op) => {
                    let a = self.kids[0];
                    let b = self.kids[1];
                    assert(a.tidy() && b.tidy());
                    match op {
                        BinaryOp::Eq => {
                            Tree::lemma_elim_eq_tidy(a, b);
                        },
                        BinaryOp::Contains => {
                            Tree::lemma_elim_contains_tidy(a, b);
                        },
                        BinaryOp::ContainsAll => {
                            Tree::lemma_elim_contains_all_tidy(a, b);
                        },
                        BinaryOp::ContainsAny => {
                            if b.op == Op::SetLit {
                                Tree::lemma_contains_each_tidy(a, b);
                            } else {
                                Tree::lemma_contains_each_tidy(b, a);
                            }
                        },
                        BinaryOp::In => {
                            let terms = b.kids.map_values(
                                |x: Tree| Tree::binary(BinaryOp::In, a, x),
                            );
                            assert forall|i: int| 0 <= i < terms.len() implies (
                            #[trigger] terms[i]).tidy() by {
                                assert(b.kids[i].tidy() && b.kids[i].op != Op::SetLit);
                                Tree::lemma_two_tidy(Op::Binary(BinaryOp::In), a, b.kids[i]);
                            }
                            Tree::lemma_chains_tidy(terms);
                        },
                        _ => {},
                    }
                },
                _ => {},
            }
        }
    }

    /// What a clean term becomes is tidy.
    proof fn lemma_elim_tidy(self)
        requires
            self.wf(),
            self.clean(),
            !self.op.is_offender(),
            self.in_entities(),
        ensures
            self.elim().term.tidy(),
            Tree::all_plain(self.elim().guards),
        decreases self,
    {
        if self.is_iferror() {
            self.lemma_fold_tidy();
            self.fold().lemma_guards_plain();
        } else {
            assert forall|i: int| 0 <= i < self.kids.len() implies (#[trigger] self.kids[i]).wf()
                && self.kids[i].clean() && !self.kids[i].op.is_offender()
                && self.kids[i].in_entities() by {}
            Tree::lemma_elim_all_tidy(self.kids);
            Tree::lemma_elim_all_shape(self.kids);
            let (changed, guards, terms) = Tree::elim_all(self.kids);
            let rebuilt = Tree { op: self.op, kids: terms };
            assert(rebuilt.wf());
            if self.op == Op::Binary(BinaryOp::In) {
                assert(terms[1] == self.kids[1].elim().term);
            }
            rebuilt.lemma_rewrite_tidy();
            match rebuilt.rewrite() {
                Some(_) => {},
                None => {
                    if !changed {
                        rebuilt.lemma_fold_tidy();
                        rebuilt.fold().lemma_guards_plain();
                    } else if !self.op.never_errs() {
                        assert(rebuilt.plain());
                        assert forall|i: int| 0 <= i < guards.push(rebuilt).len() implies (
                        #[trigger] guards.push(rebuilt)[i]).plain() by {
                            if i < guards.len() {
                                assert(guards[i].plain());
                            }
                        }
                    }
                },
            }
        }
    }

    proof fn lemma_elim_all_tidy(ts: Seq<Tree>)
        requires
            forall|i: int|
                0 <= i < ts.len() ==> (#[trigger] ts[i]).wf() && ts[i].clean()
                    && !ts[i].op.is_offender() && ts[i].in_entities(),
        ensures
            Tree::elim_all(ts).2.len() == ts.len(),
            Tree::all_tidy(Tree::elim_all(ts).2),
            Tree::all_plain(Tree::elim_all(ts).1),
            forall|i: int|
                0 <= i < ts.len() ==> (#[trigger] Tree::elim_all(ts).2[i]) == ts[i].elim().term,
        decreases ts,
    {
        if ts.len() > 0 {
            let front = ts.drop_last();
            let (_, guards, terms) = Tree::elim_all(front);
            assert forall|i: int| 0 <= i < front.len() implies (#[trigger] front[i]).wf()
                && front[i].clean() && !front[i].op.is_offender() && front[i].in_entities() by {
                assert(ts[i].wf());
            }
            let last = ts[ts.len() - 1];
            assert(last.wf());
            Tree::lemma_elim_all_tidy(front);
            last.lemma_elim_tidy();
            Tree::lemma_plain_append(guards, last.elim().guards);
            let all = Tree::elim_all(ts).2;
            assert(all == terms.push(last.elim().term));
            assert forall|i: int| 0 <= i < all.len() implies (#[trigger] all[i]).tidy() && all[i]
                == ts[i].elim().term by {
                if i < front.len() {
                    assert(all[i] == terms[i]);
                    assert(terms[i].tidy());
                    assert(front[i] == ts[i]);
                }
            }
        }
    }

    /// Elimination in a tree whose atoms are clean leaves them tidy, and the
    /// tree as it is where nothing was rewritten.
    proof fn lemma_elim_structure_tidy(self, ctx: Seq<Tree>, budget: int)
        requires
            self.wf(),
            self.atoms_clean(),
            self.in_entities(),
        ensures
            self.elim_structure(ctx, budget) matches Some((t, changed, _)) ==> t.atoms_tidy() && (
            !changed ==> t == self),
        decreases self,
    {
        let no_tree = Tree::bool(false);
        if self.op is Lit && self.op->Lit_0 is Bool {
            assert(self.kids =~= seq![]);
        } else if self.op == Op::And && self.kids.len() == 2 {
            let k = self.kids[0];
            let l = self.kids[1];
            assert(k.atoms_clean() && k.in_entities() && k.wf());
            assert(l.atoms_clean() && l.in_entities() && l.wf());
            k.lemma_elim_structure_tidy(ctx, budget);
            if let Some((a, _, b)) = k.elim_structure(ctx, budget) {
                l.lemma_elim_structure_tidy(ctx + k.learn(true), b);
                if let Some((c, _, _)) = l.elim_structure(ctx + k.learn(true), b) {
                    Tree::lemma_ite_tidy(no_tree, a, c);
                    assert(Tree::and(k, l).kids =~= self.kids);
                }
            }
        } else if self.op == Op::Or && self.kids.len() == 2 {
            let k = self.kids[0];
            let l = self.kids[1];
            assert(k.atoms_clean() && k.in_entities() && k.wf());
            assert(l.atoms_clean() && l.in_entities() && l.wf());
            k.lemma_elim_structure_tidy(ctx, budget);
            if let Some((a, _, b)) = k.elim_structure(ctx, budget) {
                l.lemma_elim_structure_tidy(ctx + k.learn(false), b);
                if let Some((c, _, _)) = l.elim_structure(ctx + k.learn(false), b) {
                    Tree::lemma_ite_tidy(no_tree, a, c);
                    assert(Tree::or(k, l).kids =~= self.kids);
                }
            }
        } else if self.op == Op::Unary(UnaryOp::Not) && self.kids.len() == 1 {
            let k = self.kids[0];
            assert(k.atoms_clean() && k.in_entities() && k.wf());
            k.lemma_elim_structure_tidy(ctx, budget);
            if let Some((a, _, _)) = k.elim_structure(ctx, budget) {
                Tree::lemma_ite_tidy(no_tree, a, a);
                assert(Tree::not(k).kids =~= self.kids);
            }
        } else if self.op == Op::If && self.kids.len() == 3 {
            let k = self.kids[0];
            let l = self.kids[1];
            let m = self.kids[2];
            assert(k.atoms_clean() && k.in_entities() && k.wf());
            assert(l.atoms_clean() && l.in_entities() && l.wf());
            assert(m.atoms_clean() && m.in_entities() && m.wf());
            k.lemma_elim_structure_tidy(ctx, budget);
            if let Some((c, _, b)) = k.elim_structure(ctx, budget) {
                l.lemma_elim_structure_tidy(ctx + k.learn(true), b);
                if let Some((t, _, b)) = l.elim_structure(ctx + k.learn(true), b) {
                    m.lemma_elim_structure_tidy(ctx + k.learn(false), b);
                    if let Some((e, _, _)) = m.elim_structure(ctx + k.learn(false), b) {
                        Tree::lemma_ite_tidy(c, t, e);
                        assert(Tree::ite(k, l, m).kids =~= self.kids);
                    }
                }
            }
        } else {
            reveal(Tree::elim_atom);
            let e = self.elim();
            self.lemma_elim_tidy();
            self.lemma_elim_shape();
            e.term.lemma_tidy_atoms();
            if e.changed {
                let fresh = Tree::new_guards(ctx, e.guards);
                Tree::lemma_new_guards_plain(ctx, e.guards);
                let order = e.term.eval_list().0;
                Tree::lemma_repeated_from(fresh, order, 0);
                let guards = Tree::drop_repeated(fresh, e.term);
                assert forall|i: int| 0 <= i < guards.len() implies (
                #[trigger] guards[i]).plain() by {
                    assert(fresh[i].plain());
                }
                Tree::lemma_guarded_tidy(guards, e.term);
            }
        }
    }
}

/// Where no atom holds boolean structure, as after splitting, elimination
/// leaves no literal hidden under an operator, outside `iferror` calls.
pub proof fn law_elimination_leaves_no_literal(expr: &Expr<()>, max_nodes: nat)
    requires
        expr.tree().wf(),
        expr.tree().atoms_clean(),
        expr.tree().in_entities(),
    ensures
        expr.tree().elim_structure(seq![], max_nodes as int) matches Some((t, _, _))
            ==> t.literal_free(),
{
    expr.tree().lemma_elim_structure_tidy(seq![], max_nodes as int);
    if let Some((t, _, _)) = expr.tree().elim_structure(seq![], max_nodes as int) {
        t.lemma_atoms_tidy_free();
    }
}

/// Normalizing the atoms of an expression leaves no literal hidden under an
/// operator, outside `iferror` calls.
pub proof fn law_normalization_leaves_no_literal<T>(expr: &Expr<T>, max_nodes: usize)
    requires
        expr.tree().wf(),
        expr.tree().split(seq![], max_nodes as int) matches Some((t, _)) ==> t.in_entities(),
    ensures
        expr.tree().normalized(max_nodes) matches Ok(t) ==> t.literal_free(),
{
    let n = max_nodes as int;
    let t = expr.tree();
    t.lemma_split_clean(seq![], n);
    if let Some((split, _)) = t.split(seq![], n) {
        split.lemma_elim_structure_tidy(seq![], n);
        split.lemma_elim_structure_wf(seq![], n);
        if let Some((eliminated, changed, _)) = split.elim_structure(seq![], n) {
            if changed {
                eliminated.lemma_split_tidy(seq![], n);
                if let Some((r, _)) = eliminated.split(seq![], n) {
                    r.lemma_atoms_tidy_free();
                }
            } else {
                split.lemma_atoms_tidy_free();
            }
        }
    }
}

} // verus!
