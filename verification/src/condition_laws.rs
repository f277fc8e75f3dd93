//! How the condition of a policy is written as one expression.

use vstd::prelude::*;

use crate::ast::{SlotId, Var};
use crate::policy::{Policy, PolicyView};
use crate::tree::{Atomic, Op, Tree};

verus! {

/// `&&` of two expressions is written as it is, unless both are boolean
/// literals: then it is one.
pub proof fn law_only_literals_are_joined(a: Tree, b: Tree)
    ensures
        ({
            let t = Tree::and(a, b).fold_literals();
            if (a.op matches Op::Lit(Atomic::Bool(_))) && (b.op matches Op::Lit(Atomic::Bool(_))) {
                (t.op matches Op::Lit(Atomic::Bool(_))) && t.kids.len() == 0
            } else {
                t.op == Op::And && t.kids == seq![a, b]
            }
        }),
{
    let t = Tree::and(a, b);
    assert(t.kids[0] == a && t.kids[1] == b);
    assert(t.kids =~= seq![a, b]);
}

/// The conjuncts of `a && b` are those of `a` and then those of `b`, also where
/// two literals are joined, unless both are `false`.
proof fn lemma_spine_of_joined(a: Tree, b: Tree)
    requires
        a.op != Op::Lit(Atomic::Bool(false)),
        b.op matches Op::Lit(Atomic::Bool(_)) ==> b.kids.len() == 0,
    ensures
        Tree::and(a, b).fold_literals().spine(true) == a.spine(true) + b.spine(true),
{
    let t = Tree::and(a, b);
    assert(t.kids[0] == a && t.kids[1] == b);
    if (a.op matches Op::Lit(Atomic::Bool(_))) && (b.op matches Op::Lit(Atomic::Bool(_))) {
        let v = b.op->Lit_0->Bool_0;
        assert(a.op == Op::Lit(Atomic::Bool(true)));
        assert(a.spine(true) =~= seq![]);
        assert(t.fold_literals() == Tree::bool(v));
        if v {
            assert(b.spine(true) =~= seq![]);
            assert(Tree::bool(v).spine(true) =~= seq![]);
        } else {
            assert(b.op == Op::Lit(Atomic::Bool(false)));
            assert(b.kids =~= Tree::bool(false).kids);
            assert(b == Tree::bool(false));
        }
    }
    assert(t.fold_literals().spine(true) =~= a.spine(true) + b.spine(true));
}

impl Policy {
    /// The condition has the conjuncts of the constraints on the principal, the
    /// action and the resource and then those of the `when` clause, in this
    /// order.
    pub proof fn law_condition_is_in_order(&self)
        requires
            self.when matches Some(e) ==> (e.tree().op matches Op::Lit(Atomic::Bool(_))
                ==> e.tree().kids.len() == 0),
        ensures
            self.condition_tree().spine(true) == self.principal.tree(
                Var::Principal,
                SlotId::Principal,
                None,
            ).spine(true) + self.action.tree().spine(true) + self.resource.tree(
                Var::Resource,
                SlotId::Resource,
                None,
            ).spine(true) + match self.when {
                Some(e) => e.tree().spine(true),
                None => seq![],
            },
    {
        let p = self.principal.tree(Var::Principal, SlotId::Principal, None);
        let a = self.action.tree();
        let r = self.resource.tree(Var::Resource, SlotId::Resource, None);
        let when = match self.when {
            Some(e) => e.tree(),
            None => Tree::bool(true),
        };
        let inner = Tree::and(r, when).fold_literals();
        let below = Tree::and(a, inner).fold_literals();
        lemma_spine_of_joined(r, when);
        lemma_spine_of_joined(a, inner);
        lemma_spine_of_joined(p, below);
        assert(Tree::bool(true).spine(true) =~= seq![]);
        let (ps, xs, rs, ws) = (p.spine(true), a.spine(true), r.spine(true), when.spine(true));
        assert(ps + (xs + (rs + ws)) =~= ps + xs + rs + ws);
    }
}

impl PolicyView {
    /// A policy as one expression has the conjuncts of its scope and then those
    /// of its condition, in their order.
    pub proof fn law_whole_is_in_order(self)
        ensures
            self.whole().spine(true) == self.principal.spine(true) + self.action.spine(true)
                + self.resource.spine(true) + match self.when {
                Some(t) => t.spine(true),
                None => seq![],
            },
    {
        let c = self.condition();
        let r = Tree::and(self.resource, c);
        let a = Tree::and(self.action, r);
        let t = Tree::and(self.principal, a);
        assert(r.kids[0] == self.resource && r.kids[1] == c);
        assert(a.kids[0] == self.action && a.kids[1] == r);
        assert(t.kids[0] == self.principal && t.kids[1] == a);
        reveal_with_fuel(Tree::spine, 4);
        assert(Tree::bool(true).spine(true) =~= seq![]);
        assert(t.spine(true) =~= self.principal.spine(true) + self.action.spine(true)
            + self.resource.spine(true) + c.spine(true));
    }
}

} // verus!
