//! Slots of templates, and what they are bound to.

use vstd::prelude::*;

use crate::ast::{Data, EntityUid, Expr, ExprKind, Prim, SlotId};
use crate::expr_util::rebuild;
use crate::policy::has_slot;
use crate::tree::{Op, Tree};
use crate::typechecked::TypecheckError;

verus! {

/// What the slots of a template are bound to.
#[derive(Debug)]
pub struct SlotEnv {
    pub principal: Option<EntityUid>,
    pub resource: Option<EntityUid>,
}

impl SlotEnv {
    /// What `slot` is bound to.
    pub open spec fn binding(&self, slot: SlotId) -> Option<EntityUid> {
        match slot {
            SlotId::Principal => self.principal,
            SlotId::Resource => self.resource,
        }
    }

    /// What `slot` is bound to.
    pub fn get(&self, slot: SlotId) -> (r: &Option<EntityUid>)
        ensures
            *r == self.binding(slot),
    {
        match slot {
            SlotId::Principal => &self.principal,
            SlotId::Resource => &self.resource,
        }
    }
}

impl SlotEnv {
    /// No slot is bound.
    pub open spec fn none() -> SlotEnv {
        SlotEnv { principal: None, resource: None }
    }

    /// No slot is bound.
    pub fn new() -> (r: SlotEnv)
        ensures
            r == SlotEnv::none(),
    {
        SlotEnv { principal: None, resource: None }
    }
}

impl Tree {
    /// The expression with every bound slot replaced by its entity.
    pub open spec fn filled(self, env: SlotEnv) -> Tree
        decreases self,
    {
        if self.op is Slot && env.binding(self.op->Slot_0) is Some {
            Tree::entity(env.binding(self.op->Slot_0)->Some_0@)
        } else {
            Tree {
                op: self.op,
                kids: Seq::new(
                    self.kids.len(),
                    |i: int|
                        if 0 <= i < self.kids.len() {
                            self.kids[i].filled(env)
                        } else {
                            arbitrary()
                        },
                ),
            }
        }
    }

    /// The first slot that is not bound, in evaluation order.
    pub open spec fn unbound(self, env: SlotEnv) -> Option<SlotId>
        decreases self,
    {
        match self.op {
            Op::Slot(s) => if env.binding(s) is None {
                Some(s)
            } else {
                None
            },
            _ => Tree::first_unbound(self.kids, env),
        }
    }

    /// The first slot in `ts` that is not bound.
    pub open spec fn first_unbound(ts: Seq<Tree>, env: SlotEnv) -> Option<SlotId>
        decreases ts,
    {
        if ts.len() == 0 {
            None
        } else {
            match Tree::first_unbound(ts.drop_last(), env) {
                Some(s) => Some(s),
                None => ts.last().unbound(env),
            }
        }
    }

    /// An expression without slots is filled as it is.
    pub proof fn lemma_filled_no_slot(self, env: SlotEnv)
        requires
            !self.has_slot(),
        ensures
            self.filled(env) == self,
            self.unbound(env) is None,
        decreases self, 1nat,
    {
        assert forall|i: int| 0 <= i < self.kids.len() implies (#[trigger] self.kids[i]).filled(env)
            == self.kids[i] by {
            assert(!self.kids[i].has_slot());
            self.kids[i].lemma_filled_no_slot(env);
        }
        assert(self.filled(env).kids =~= self.kids);
        assert forall|i: int| 0 <= i < self.kids.len() implies !(
        #[trigger] self.kids[i]).has_slot() by {}
        Tree::lemma_first_unbound_none(self.kids, env);
    }

    proof fn lemma_first_unbound_none(ts: Seq<Tree>, env: SlotEnv)
        requires
            forall|i: int| 0 <= i < ts.len() ==> !(#[trigger] ts[i]).has_slot(),
        ensures
            Tree::first_unbound(ts, env) is None,
        decreases ts, 0nat,
    {
        if ts.len() > 0 {
            assert forall|i: int| 0 <= i < ts.drop_last().len() implies !(
            #[trigger] ts.drop_last()[i]).has_slot() by {
                assert(!ts[i].has_slot());
            }
            Tree::lemma_first_unbound_none(ts.drop_last(), env);
            assert(!ts[ts.len() - 1].has_slot());
            ts.last().lemma_filled_no_slot(env);
        }
    }

    /// A prefix with an unbound slot decides which one is first.
    proof fn lemma_first_unbound_prefix(ts: Seq<Tree>, n: int, env: SlotEnv)
        requires
            0 <= n <= ts.len(),
            Tree::first_unbound(ts.take(n), env) is Some,
        ensures
            Tree::first_unbound(ts, env) == Tree::first_unbound(ts.take(n), env),
        decreases ts.len(),
    {
        if n == ts.len() {
            assert(ts.take(n) =~= ts);
        } else {
            assert(ts.drop_last().take(n) =~= ts.take(n));
            Tree::lemma_first_unbound_prefix(ts.drop_last(), n, env);
        }
    }

    /// Filling slots in keeps expressions well formed.
    pub proof fn law_filled_stays_in_order(self, env: SlotEnv)
        requires
            self.wf(),
        ensures
            self.filled(env).wf(),
        decreases self,
    {
        let t = self.filled(env);
        if t.op == self.op {
            assert forall|i: int| 0 <= i < t.kids.len() implies (#[trigger] t.kids[i]).wf() by {
                assert(self.kids[i].wf());
                self.kids[i].law_filled_stays_in_order(env);
            }
        }
    }

    /// Once every slot is bound and filled in, none is left.
    pub proof fn law_filled_has_no_slot(self, env: SlotEnv)
        requires
            self.unbound(env) is None,
        ensures
            !self.filled(env).has_slot(),
        decreases self, 1nat,
    {
        if self.op is Slot {
            let t = self.filled(env);
            assert(t.kids =~= Seq::empty());
        } else {
            Tree::lemma_all_filled(self.kids, env);
            let t = self.filled(env);
            assert forall|i: int| 0 <= i < t.kids.len() implies !(
            #[trigger] t.kids[i]).has_slot() by {
                assert(!self.kids[i].filled(env).has_slot());
            }
        }
    }

    proof fn lemma_all_filled(ts: Seq<Tree>, env: SlotEnv)
        requires
            Tree::first_unbound(ts, env) is None,
        ensures
            forall|i: int| 0 <= i < ts.len() ==> !(#[trigger] ts[i]).filled(env).has_slot(),
        decreases ts, 0nat,
    {
        if ts.len() > 0 {
            Tree::lemma_all_filled(ts.drop_last(), env);
            ts.last().law_filled_has_no_slot(env);
            assert forall|i: int| 0 <= i < ts.len() implies !(#[trigger] ts[i]).filled(
                env,
            ).has_slot() by {
                if i < ts.len() - 1 {
                    assert(!ts.drop_last()[i].filled(env).has_slot());
                }
            }
        }
    }
}

impl<T> Expr<T> {
    /// `r` is the expression with its slots replaced and the data and the
    /// source location of every node kept.
    pub open spec fn filled_as(&self, r: Expr<T>, env: SlotEnv) -> bool
        decreases self,
        via Self::filled_as_terminates
    {
        &&& r.data == self.data
        &&& r.loc == self.loc
        &&& r.kids().len() == self.kids().len()
        &&& forall|i: int|
            0 <= i < self.kids().len() ==> (#[trigger] self.kids()[i]).filled_as(r.kids()[i], env)
    }

    #[via_fn]
    proof fn filled_as_terminates(&self, r: Expr<T>, env: SlotEnv) {
        assert forall|i: int| 0 <= i < self.kids().len() implies decreases_to!(
            self => #[trigger] self.kids()[i]
        ) by {
            self.lemma_kid_decreases(i);
        }
    }

    /// A copy keeps everything.
    proof fn lemma_filled_as_self(&self, env: SlotEnv)
        ensures
            self.filled_as(*self, env),
        decreases self,
    {
        assert forall|i: int| 0 <= i < self.kids().len() implies (
        #[trigger] self.kids()[i]).filled_as(self.kids()[i], env) by {
            self.lemma_kid_decreases(i);
            self.kids()[i].lemma_filled_as_self(env);
        }
    }
}

/// Replaces every slot of `expr` by the entity it is bound to in `env`,
/// keeping the data and the source location of every node.
pub fn substitute_slots<T: Data>(expr: &Expr<T>, env: &SlotEnv) -> (r: Result<
    Expr<T>,
    TypecheckError,
>)
    ensures
        match r {
            Ok(x) => {
                &&& expr.tree().unbound(*env) is None
                &&& x.tree() == expr.tree().filled(*env)
                &&& expr.filled_as(x, *env)
            },
            Err(TypecheckError::UnboundSlot(s)) => expr.tree().unbound(*env) == Some(s),
            Err(_) => false,
        },
    decreases expr,
{
    if !has_slot(expr) {
        proof {
            expr.tree().lemma_filled_no_slot(*env);
            expr.lemma_filled_as_self(*env);
        }
        return Ok(expr.dup());
    }
    if let ExprKind::Slot(slot) = &expr.kind {
        return match env.get(*slot) {
            Some(u) => {
                let x = Expr {
                    kind: ExprKind::Lit(Prim::EntityUid(u.dup())),
                    loc: expr.loc,
                    data: expr.data.dup(),
                };
                assert(x.tree().kids =~= Seq::empty());
                Ok(x)
            },
            None => Err(TypecheckError::UnboundSlot(*slot)),
        };
    }
    let ghost kids = expr.tree().kids;
    let n = expr.kid_count();
    let mut new: Vec<Expr<T>> = Vec::new();
    let mut i: usize = 0;
    while i < n
        invariant
            i <= n,
            n == expr.kids().len(),
            kids == expr.tree().kids,
            !(expr.kind is Slot),
            new@.len() == i,
            Tree::first_unbound(kids.take(i as int), *env) is None,
            forall|j: int|
                0 <= j < i ==> (#[trigger] expr.kids()[j]).filled_as(new@[j], *env),
            forall|j: int| 0 <= j < i ==> (#[trigger] new@[j]).tree() == kids[j].filled(*env),
        decreases n - i,
    {
        proof {
            assert(kids.take(i + 1).drop_last() =~= kids.take(i as int));
            assert(kids.take(i + 1).last() == kids[i as int]);
        }
        match substitute_slots(expr.kid(i), env) {
            Ok(x) => {
                new.push(x);
            },
            Err(e) => {
                proof {
                    Tree::lemma_first_unbound_prefix(kids, i + 1, *env);
                }
                return Err(e);
            },
        }
        i += 1;
    }
    assert(kids.take(n as int) =~= kids);
    let x = rebuild(expr, new, expr.data.dup());
    assert(x.tree().kids =~= expr.tree().filled(*env).kids);
    Ok(x)
}

} // verus!
