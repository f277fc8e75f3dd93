//! What the scope and the condition of a policy mean, in terms of the request
//! and the entities.

use vstd::prelude::*;

use crate::ast::{BinaryOp, EntityUid, SlotId, Var};
use crate::model::{Value, World};
use crate::policy::{ActionConstraint, Effect, EntityRef, Policy, PolicyView, ScopeConstraint};
use crate::slots::SlotEnv;
use crate::tree::{Op, Tree};

verus! {

/// An entity store, as far as scopes look into it: who the ancestors of an
/// entity are.
pub struct Hierarchy {
    pub ancestors: spec_fn((Seq<char>, Seq<char>)) -> Set<(Seq<char>, Seq<char>)>,
}

impl Hierarchy {
    /// `a in b`: `a` is `b` or has it among its ancestors.
    pub open spec fn has_in(self, a: (Seq<char>, Seq<char>), b: (Seq<char>, Seq<char>)) -> bool {
        a == b || (self.ancestors)(a).contains(b)
    }
}

impl World {
    /// What `v is ty` evaluates to.
    pub open spec fn is_of(self, v: Value, ty: Seq<char>) -> Result<Value, int> {
        (self.opaque)(Op::Is(ty), seq![v])
    }

    /// What the slot evaluates to.
    pub open spec fn slot(self, slot: SlotId) -> Result<Value, int> {
        (self.opaque)(Op::Slot(slot), seq![])
    }

    /// The evaluation is on the store `h`: `in` asks for its ancestors, and
    /// `is` for the type of an entity.
    pub open spec fn is_on(self, h: Hierarchy) -> bool {
        &&& forall|a: (Seq<char>, Seq<char>), b: (Seq<char>, Seq<char>)| #[trigger]
            (self.within)(a, b) <==> h.has_in(a, b)
        &&& forall|t: Seq<char>, e: Seq<char>, ty: Seq<char>| #[trigger]
            self.is_of(Value::Uid(t, e), ty) == Ok::<Value, int>(Value::Bool(t == ty))
    }

    /// A slot that is linked evaluates to what it is linked to.
    pub open spec fn links(self, principal: Option<EntityUid>, resource: Option<EntityUid>) -> bool {
        &&& principal matches Some(u) ==> self.slot(SlotId::Principal) == Ok::<Value, int>(
            Value::Uid(u.ty@, u.eid@),
        )
        &&& resource matches Some(u) ==> self.slot(SlotId::Resource) == Ok::<Value, int>(
            Value::Uid(u.ty@, u.eid@),
        )
    }
}

impl EntityRef {
    /// The entity that is meant: the slot means what it is linked to.
    pub open spec fn meant(self, link: Option<EntityUid>) -> Option<(Seq<char>, Seq<char>)> {
        match (self, link) {
            (EntityRef::Uid(u), _) => Some((u.ty@, u.eid@)),
            (EntityRef::Slot, Some(u)) => Some((u.ty@, u.eid@)),
            (EntityRef::Slot, None) => None,
        }
    }
}

impl ScopeConstraint {
    /// Every slot of the constraint is linked.
    pub open spec fn grounded(self, link: Option<EntityUid>) -> bool {
        match self {
            ScopeConstraint::Any | ScopeConstraint::Is(_) => true,
            ScopeConstraint::Eq(r) => r.meant(link) is Some,
            ScopeConstraint::In(r) => r.meant(link) is Some,
            ScopeConstraint::IsIn(_, r) => r.meant(link) is Some,
        }
    }

    /// The entity `a` meets the constraint.
    pub open spec fn met_by(
        self,
        a: (Seq<char>, Seq<char>),
        link: Option<EntityUid>,
        h: Hierarchy,
    ) -> bool {
        match self {
            ScopeConstraint::Any => true,
            ScopeConstraint::Eq(r) => a == r.meant(link)->Some_0,
            ScopeConstraint::In(r) => h.has_in(a, r.meant(link)->Some_0),
            ScopeConstraint::Is(ty) => a.0 == ty@,
            ScopeConstraint::IsIn(ty, r) => a.0 == ty@ && h.has_in(a, r.meant(link)->Some_0),
        }
    }
}

impl ActionConstraint {
    /// The action `a` meets the constraint.
    pub open spec fn met_by(self, a: (Seq<char>, Seq<char>), h: Hierarchy) -> bool {
        match self {
            ActionConstraint::Any => true,
            ActionConstraint::Eq(u) => a == (u.ty@, u.eid@),
            ActionConstraint::In(us) => exists|i: int|
                0 <= i < us@.len() && h.has_in(a, ((#[trigger] us@[i]).ty@, us@[i].eid@)),
        }
    }
}

/// A request: its principal, action and resource.
pub struct Asked {
    pub principal: (Seq<char>, Seq<char>),
    pub action: (Seq<char>, Seq<char>),
    pub resource: (Seq<char>, Seq<char>),
}

impl World {
    /// The request is `a`.
    pub open spec fn asks(self, a: Asked) -> bool {
        &&& (self.var)(Var::Principal) == Value::Uid(a.principal.0, a.principal.1)
        &&& (self.var)(Var::Action) == Value::Uid(a.action.0, a.action.1)
        &&& (self.var)(Var::Resource) == Value::Uid(a.resource.0, a.resource.1)
    }
}

impl Policy {
    /// Every slot in the scope is linked.
    pub open spec fn grounded(&self) -> bool {
        &&& self.principal.grounded(self.principal_slot)
        &&& self.resource.grounded(self.resource_slot)
    }

    /// The request is in the scope of the policy.
    pub open spec fn scope_met(&self, a: Asked, h: Hierarchy) -> bool {
        &&& self.principal.met_by(a.principal, self.principal_slot, h)
        &&& self.action.met_by(a.action, h)
        &&& self.resource.met_by(a.resource, self.resource_slot, h)
    }

    /// The policy applies to the request: the request is in its scope, and its
    /// `when` clause, if it has one, is true.
    pub open spec fn applies(&self, a: Asked, h: Hierarchy, w: World) -> bool {
        &&& self.scope_met(a, h)
        &&& self.when matches Some(e) ==> e.tree().eval(w) == Ok::<Value, int>(Value::Bool(true))
    }
}

/// The values of no operand, of one, or of two.
proof fn lemma_eval_few(k: Seq<Tree>, w: World)
    ensures
        k.len() == 0 ==> Tree::eval_all(k, w) == Ok::<Seq<Value>, int>(seq![]),
        k.len() == 1 ==> (k[0].eval(w) matches Ok(a) ==> Tree::eval_all(k, w) == Ok::<
            Seq<Value>,
            int,
        >(seq![a])),
        k.len() == 2 ==> (k[0].eval(w) matches Ok(a) ==> (k[1].eval(w) matches Ok(b)
            ==> Tree::eval_all(k, w) == Ok::<Seq<Value>, int>(seq![a, b]))),
    decreases k.len(),
{
    if 0 < k.len() <= 2 {
        lemma_eval_few(k.drop_last(), w);
        if k.len() == 1 {
            if let Ok(a) = k[0].eval(w) {
                assert(Seq::<Value>::empty().push(a) =~= seq![a]);
            }
        } else {
            assert(k.drop_last()[0] == k[0]);
            if let (Ok(a), Ok(b)) = (k[0].eval(w), k[1].eval(w)) {
                assert(seq![a].push(b) =~= seq![a, b]);
            }
        }
    }
}

/// A node with an operator that evaluates its one operand, or its two.
proof fn lemma_eval_kids(t: Tree, w: World)
    requires
        t.op is Binary || t.op is Is,
    ensures
        t.kids.len() == 1 ==> (t.kids[0].eval(w) matches Ok(a) ==> t.eval(w) == w.apply(
            t.op,
            seq![a],
        )),
        t.kids.len() == 2 ==> (t.kids[0].eval(w) matches Ok(a) ==> (t.kids[1].eval(
            w,
        ) matches Ok(b) ==> t.eval(w) == w.apply(t.op, seq![a, b]))),
{
    lemma_eval_few(t.kids, w);
}

/// `a && b`, where both are boolean.
pub(crate) proof fn lemma_and(a: Tree, b: Tree, w: World)
    ensures
        a.eval(w) == Ok::<Value, int>(Value::Bool(true)) ==> Tree::and(a, b).eval(w) == w.as_bool(
            b.eval(w),
        ),
        a.eval(w) == Ok::<Value, int>(Value::Bool(false)) ==> Tree::and(a, b).eval(w) == Ok::<
            Value,
            int,
        >(Value::Bool(false)),
        Tree::and(a, b).fold_literals().eval(w) == Tree::and(a, b).eval(w),
{
    let t = Tree::and(a, b);
    assert(t.kids[0] == a && t.kids[1] == b);
    if a.op is Lit && b.op is Lit {
        assert(a.eval(w) == Ok::<Value, int>(a.op->Lit_0.value()));
        assert(b.eval(w) == Ok::<Value, int>(b.op->Lit_0.value()));
    }
}

/// What `t op e` evaluates to for a variable `t` that is an entity and an
/// entity `e`.
proof fn lemma_compares(op: BinaryOp, v: Tree, r: Tree, a: Value, b: Value, w: World)
    requires
        v.eval(w) == Ok::<Value, int>(a),
        r.eval(w) == Ok::<Value, int>(b),
    ensures
        Tree::binary(op, v, r).eval(w) == w.apply_binary(op, a, b),
{
    let t = Tree::binary(op, v, r);
    assert(t.kids[0] == v && t.kids[1] == r);
    lemma_eval_kids(t, w);
    assert(seq![a, b][0] == a && seq![a, b][1] == b);
}

/// What the entity, or the slot that is linked, evaluates to.
proof fn lemma_meant(
    r: EntityRef,
    slot: SlotId,
    link: Option<EntityUid>,
    fill: Option<EntityUid>,
    w: World,
)
    requires
        r.meant(link) is Some,
        fill == link || (fill is None && (link matches Some(u) ==> w.slot(slot) == Ok::<Value, int>(
            Value::Uid(u.ty@, u.eid@),
        ))),
    ensures
        r.tree(slot, fill).eval(w) == Ok::<Value, int>(
            Value::Uid(r.meant(link)->Some_0.0, r.meant(link)->Some_0.1),
        ),
{
    let t = r.tree(slot, fill);
    lemma_eval_few(t.kids, w);
}

/// What a constraint on the principal or the resource evaluates to, whether
/// the slot is filled in or evaluates to what it is linked to.
proof fn lemma_scope(
    c: ScopeConstraint,
    var: Var,
    slot: SlotId,
    link: Option<EntityUid>,
    fill: Option<EntityUid>,
    a: (Seq<char>, Seq<char>),
    h: Hierarchy,
    w: World,
)
    requires
        c.grounded(link),
        w.is_on(h),
        (w.var)(var) == Value::Uid(a.0, a.1),
        fill == link || (fill is None && (link matches Some(u) ==> w.slot(slot) == Ok::<Value, int>(
            Value::Uid(u.ty@, u.eid@),
        ))),
    ensures
        c.tree(var, slot, fill).eval(w) == Ok::<Value, int>(Value::Bool(c.met_by(a, link, h))),
{
    let v = Tree::leaf(Op::Var(var));
    let x = Value::Uid(a.0, a.1);
    assert(v.eval(w) == Ok::<Value, int>(x));
    assert((a.0, a.1) == a);
    match c {
        ScopeConstraint::Any => {},
        ScopeConstraint::Eq(r) => {
            lemma_meant(r, slot, link, fill, w);
            let m = r.meant(link)->Some_0;
            lemma_compares(BinaryOp::Eq, v, r.tree(slot, fill), x, Value::Uid(m.0, m.1), w);
            assert((m.0, m.1) == m);
        },
        ScopeConstraint::In(r) => {
            lemma_meant(r, slot, link, fill, w);
            let m = r.meant(link)->Some_0;
            lemma_compares(BinaryOp::In, v, r.tree(slot, fill), x, Value::Uid(m.0, m.1), w);
            assert((m.0, m.1) == m);
        },
        ScopeConstraint::Is(ty) => {
            let t = Tree::is_type(v, ty@);
            assert(t.kids[0] == v);
            lemma_eval_kids(t, w);
            assert(w.is_of(x, ty@) == Ok::<Value, int>(Value::Bool(a.0 == ty@)));
        },
        ScopeConstraint::IsIn(ty, r) => {
            lemma_meant(r, slot, link, fill, w);
            let m = r.meant(link)->Some_0;
            let t = Tree::is_type(v, ty@);
            assert(t.kids[0] == v);
            lemma_eval_kids(t, w);
            assert(w.is_of(x, ty@) == Ok::<Value, int>(Value::Bool(a.0 == ty@)));
            let i = Tree::binary(BinaryOp::In, v, r.tree(slot, fill));
            lemma_compares(BinaryOp::In, v, r.tree(slot, fill), x, Value::Uid(m.0, m.1), w);
            assert((m.0, m.1) == m);
            lemma_and(t, i, w);
        },
    }
}

/// A constraint on the principal or the resource, as an expression, is true on
/// exactly the entities that meet it: `== e` on `e` alone, `in e` on `e` and
/// its descendants, `is T` on the entities of type `T`, and `is T in e` on the
/// entities of type `T` among those; with a slot for what it is linked to.
pub proof fn law_scope_constraint_means(
    c: ScopeConstraint,
    var: Var,
    slot: SlotId,
    link: Option<EntityUid>,
    a: (Seq<char>, Seq<char>),
    h: Hierarchy,
    w: World,
)
    requires
        c.grounded(link),
        w.is_on(h),
        (w.var)(var) == Value::Uid(a.0, a.1),
    ensures
        c.tree(var, slot, link).eval(w) == Ok::<Value, int>(Value::Bool(c.met_by(a, link, h))),
{
    lemma_scope(c, var, slot, link, link, a, h, w);
}

/// The entities of a list evaluate to themselves.
proof fn lemma_entities(us: Seq<EntityUid>, w: World)
    ensures
        Tree::eval_all(us.map_values(|u: EntityUid| Tree::entity(u@)), w) == Ok::<Seq<Value>, int>(
            us.map_values(|u: EntityUid| Value::Uid(u.ty@, u.eid@)),
        ),
    decreases us.len(),
{
    let ts = us.map_values(|u: EntityUid| Tree::entity(u@));
    let vs = us.map_values(|u: EntityUid| Value::Uid(u.ty@, u.eid@));
    if us.len() == 0 {
        lemma_eval_few(ts, w);
        assert(vs =~= seq![]);
    } else {
        let f = us.drop_last();
        lemma_entities(f, w);
        assert(ts.drop_last() =~= f.map_values(|u: EntityUid| Tree::entity(u@)));
        assert(ts.last() == Tree::entity(us.last()@));
        assert(ts.last().eval(w) == Ok::<Value, int>(Value::Uid(us.last().ty@, us.last().eid@)));
        assert(Tree::eval_all(ts.drop_last(), w) is Ok);
        assert(vs =~= f.map_values(|u: EntityUid| Value::Uid(u.ty@, u.eid@)).push(
            Value::Uid(us.last().ty@, us.last().eid@),
        ));
    }
}

/// A constraint on the action, as an expression, is true on exactly the actions
/// that meet it: `== e` on `e` alone, and `in [..]` on the entities of the list
/// and their descendants.
pub proof fn law_action_constraint_means(
    c: ActionConstraint,
    a: (Seq<char>, Seq<char>),
    h: Hierarchy,
    w: World,
)
    requires
        w.is_on(h),
        (w.var)(Var::Action) == Value::Uid(a.0, a.1),
    ensures
        c.tree().eval(w) == Ok::<Value, int>(Value::Bool(c.met_by(a, h))),
{
    let v = Tree::leaf(Op::Var(Var::Action));
    let x = Value::Uid(a.0, a.1);
    assert(v.eval(w) == Ok::<Value, int>(x));
    assert((a.0, a.1) == a);
    match c {
        ActionConstraint::Any => {},
        ActionConstraint::Eq(u) => {
            let y = Value::Uid(u.ty@, u.eid@);
            assert(Tree::entity(u@).eval(w) == Ok::<Value, int>(y));
            lemma_compares(BinaryOp::Eq, v, Tree::entity(u@), x, y, w);
        },
        ActionConstraint::In(us) => {
            let ts = us@.map_values(|u: EntityUid| Tree::entity(u@));
            let vs = us@.map_values(|u: EntityUid| Value::Uid(u.ty@, u.eid@));
            let s = Tree { op: Op::SetLit, kids: ts };
            lemma_entities(us@, w);
            assert(s.eval(w) == Ok::<Value, int>(Value::SetOf(vs)));
            lemma_compares(BinaryOp::In, v, s, x, Value::SetOf(vs), w);
            assert forall|i: int| 0 <= i < vs.len() implies (#[trigger] vs[i]) is Uid by {}
            if c.met_by(a, h) {
                let i = choose|i: int|
                    0 <= i < us@.len() && h.has_in(a, ((#[trigger] us@[i]).ty@, us@[i].eid@));
                assert((w.within)(a, (vs[i]->Uid_0, vs[i]->Uid_1)));
            }
            if exists|i: int|
                0 <= i < vs.len() && (w.within)(
                    a,
                    ((#[trigger] vs[i])->Uid_0, vs[i]->Uid_1),
                ) {
                let i = choose|i: int|
                    0 <= i < vs.len() && (w.within)(
                        a,
                        ((#[trigger] vs[i])->Uid_0, vs[i]->Uid_1),
                    );
                assert(h.has_in(a, (us@[i].ty@, us@[i].eid@)));
            }
        },
    }
}

impl Policy {
    /// A policy matches exactly the requests that it applies to: those whose
    /// principal, action and resource meet its constraints and on which its
    /// `when` clause is true.
    pub proof fn law_policy_matches_what_it_applies_to(&self, a: Asked, h: Hierarchy, w: World)
        requires
            self.grounded(),
            w.is_on(h),
            w.asks(a),
        ensures
            self@.in_scope(w) <==> self.scope_met(a, h),
            self@.matches_on(w) <==> self.applies(a, h, w),
    {
        lemma_scope(
            self.principal,
            Var::Principal,
            SlotId::Principal,
            self.principal_slot,
            self.principal_slot,
            a.principal,
            h,
            w,
        );
        lemma_scope(
            self.resource,
            Var::Resource,
            SlotId::Resource,
            self.resource_slot,
            self.resource_slot,
            a.resource,
            h,
            w,
        );
        law_action_constraint_means(self.action, a.action, h, w);
    }

    /// The condition of a policy, with its slots standing for what they are
    /// linked to, is false on requests out of its scope, and on others what
    /// its `when` clause is.
    pub proof fn law_condition_means(&self, a: Asked, h: Hierarchy, w: World)
        requires
            self.grounded(),
            w.is_on(h),
            w.asks(a),
            w.links(self.principal_slot, self.resource_slot),
        ensures
            self.condition_tree().eval(w) == if self.scope_met(a, h) {
                match self.when {
                    Some(e) => w.as_bool(e.tree().eval(w)),
                    None => Ok::<Value, int>(Value::Bool(true)),
                }
            } else {
                Ok::<Value, int>(Value::Bool(false))
            },
    {
        lemma_scope(
            self.principal,
            Var::Principal,
            SlotId::Principal,
            self.principal_slot,
            None,
            a.principal,
            h,
            w,
        );
        lemma_scope(
            self.resource,
            Var::Resource,
            SlotId::Resource,
            self.resource_slot,
            None,
            a.resource,
            h,
            w,
        );
        law_action_constraint_means(self.action, a.action, h, w);
        let when = match self.when {
            Some(e) => e.tree(),
            None => Tree::bool(true),
        };
        let r = self.resource.tree(Var::Resource, SlotId::Resource, None);
        let c = self.action.tree();
        let p = self.principal.tree(Var::Principal, SlotId::Principal, None);
        let inner = Tree::and(r, when).fold_literals();
        let below = Tree::and(c, inner).fold_literals();
        lemma_and(r, when, w);
        lemma_and(c, inner, w);
        lemma_and(p, below, w);
    }

    /// The same of the condition with its slots filled in.
    pub proof fn law_filled_condition_means(&self, a: Asked, h: Hierarchy, w: World)
        requires
            self.grounded(),
            self.condition_tree().shaped(),
            w.is_on(h),
            w.asks(a),
            w.links(self.principal_slot, self.resource_slot),
        ensures
            self.condition_tree().filled(self.bindings()).eval(w) == if self.scope_met(a, h) {
                match self.when {
                    Some(e) => w.as_bool(e.tree().eval(w)),
                    None => Ok::<Value, int>(Value::Bool(true)),
                }
            } else {
                Ok::<Value, int>(Value::Bool(false))
            },
    {
        self.law_condition_means(a, h, w);
        law_filled_evaluates_alike(self.condition_tree(), self.bindings(), w);
    }
}

/// An expression with its slots filled in evaluates as the expression does
/// where every slot evaluates to what it is bound to.
pub proof fn law_filled_evaluates_alike(t: Tree, env: SlotEnv, w: World)
    requires
        t.shaped(),
        w.links(env.principal, env.resource),
    ensures
        t.filled(env).eval(w) == t.eval(w),
    decreases t,
{
    let f = t.filled(env);
    if t.op is Slot && env.binding(t.op->Slot_0) is Some {
        lemma_eval_few(t.kids, w);
        assert(w.slot(t.op->Slot_0) == t.eval(w));
    } else {
        assert forall|i: int| 0 <= i < f.kids.len() implies (#[trigger] f.kids[i]).eval(w)
            == t.kids[i].eval(w) by {
            assert(t.kids[i].shaped());
            law_filled_evaluates_alike(t.kids[i], env, w);
        }
        Tree::lemma_eval_congr(f, t, w);
    }
}

/// A slot of the expression is found unbound only if none of its kind is bound,
/// and if no slot is found, each that occurs is bound.
pub proof fn law_unbound_slot_occurs(t: Tree, env: SlotEnv)
    requires
        t.shaped(),
    ensures
        match t.unbound(env) {
            Some(SlotId::Principal) => env.principal is None && mentions(t, SlotId::Principal),
            Some(SlotId::Resource) => env.resource is None && mentions(t, SlotId::Resource),
            None => {
                &&& mentions(t, SlotId::Principal) ==> env.principal is Some
                &&& mentions(t, SlotId::Resource) ==> env.resource is Some
            },
        },
    decreases t, 1nat,
{
    lemma_first_unbound_occurs(t.kids, env);
}

/// The slot occurs in the expression.
pub open spec fn mentions(t: Tree, slot: SlotId) -> bool
    decreases t,
{
    t.op == Op::Slot(slot) || exists|i: int|
        0 <= i < t.kids.len() && mentions(#[trigger] t.kids[i], slot)
}

proof fn lemma_first_unbound_occurs(ts: Seq<Tree>, env: SlotEnv)
    requires
        forall|i: int| 0 <= i < ts.len() ==> (#[trigger] ts[i]).shaped(),
    ensures
        match Tree::first_unbound(ts, env) {
            Some(SlotId::Principal) => env.principal is None && exists|i: int|
                0 <= i < ts.len() && mentions(#[trigger] ts[i], SlotId::Principal),
            Some(SlotId::Resource) => env.resource is None && exists|i: int|
                0 <= i < ts.len() && mentions(#[trigger] ts[i], SlotId::Resource),
            None => forall|i: int|
                0 <= i < ts.len() ==> {
                    &&& mentions(#[trigger] ts[i], SlotId::Principal) ==> env.principal is Some
                    &&& mentions(ts[i], SlotId::Resource) ==> env.resource is Some
                },
        },
    decreases ts, 0nat,
{
    if ts.len() > 0 {
        let f = ts.drop_last();
        let n = ts.len() - 1;
        assert forall|i: int| 0 <= i < f.len() implies (#[trigger] f[i]).shaped() by {
            assert(ts[i].shaped());
        }
        lemma_first_unbound_occurs(f, env);
        assert(ts[n].shaped());
        law_unbound_slot_occurs(ts.last(), env);
        assert(ts[n] == ts.last());
        match Tree::first_unbound(f, env) {
            Some(s) => {
                let i = choose|i: int| 0 <= i < f.len() && mentions(#[trigger] f[i], s);
                assert(mentions(ts[i], s));
            },
            None => {
                assert forall|i: int|
                    0 <= i < ts.len() && Tree::first_unbound(ts, env) is None implies {
                    &&& mentions(#[trigger] ts[i], SlotId::Principal) ==> env.principal is Some
                    &&& mentions(ts[i], SlotId::Resource) ==> env.resource is Some
                } by {
                    if i < n {
                        assert(f[i] == ts[i]);
                    }
                }
            },
        }
    }
}

/// A request is allowed exactly if some permit applies to it and no forbid
/// does.
pub proof fn law_decision_by_what_applies(ps: Seq<Policy>, a: Asked, h: Hierarchy, w: World)
    requires
        forall|i: int| 0 <= i < ps.len() ==> (#[trigger] ps[i]).grounded(),
        w.is_on(h),
        w.asks(a),
    ensures
        PolicyView::decision(ps.map_values(|p: Policy| p@), w) is Allow <==> {
            &&& exists|i: int|
                0 <= i < ps.len() && (#[trigger] ps[i]).effect is Permit && ps[i].applies(a, h, w)
            &&& forall|i: int|
                0 <= i < ps.len() && (#[trigger] ps[i]).effect is Forbid ==> !ps[i].applies(a, h, w)
        },
{
    let vs = ps.map_values(|p: Policy| p@);
    assert forall|i: int| 0 <= i < ps.len() implies ((#[trigger] ps[i])@.matches_on(w)
        <==> ps[i].applies(a, h, w)) by {
        ps[i].law_policy_matches_what_it_applies_to(a, h, w);
    }
    assert forall|i: int| 0 <= i < ps.len() implies #[trigger] vs[i] == ps[i]@ by {}
    if PolicyView::any_matches(vs, Effect::Permit, w) {
        let i = choose|i: int|
            0 <= i < vs.len() && (#[trigger] vs[i]).effect == Effect::Permit && vs[i].matches_on(w);
        assert(ps[i].effect is Permit && ps[i].applies(a, h, w));
    }
    if exists|i: int|
        0 <= i < ps.len() && (#[trigger] ps[i]).effect is Permit && ps[i].applies(a, h, w) {
        let i = choose|i: int|
            0 <= i < ps.len() && (#[trigger] ps[i]).effect is Permit && ps[i].applies(a, h, w);
        assert(vs[i].effect == Effect::Permit && vs[i].matches_on(w));
    }
    assert forall|i: int|
        0 <= i < ps.len() && (#[trigger] ps[i]).effect is Forbid && !PolicyView::any_matches(
            vs,
            Effect::Forbid,
            w,
        ) implies !ps[i].applies(a, h, w) by {
        assert(vs[i].effect == Effect::Forbid);
    }
    if PolicyView::any_matches(vs, Effect::Forbid, w) {
        let i = choose|i: int|
            0 <= i < vs.len() && (#[trigger] vs[i]).effect == Effect::Forbid && vs[i].matches_on(w);
        assert(ps[i].effect is Forbid && ps[i].applies(a, h, w));
    }
}

} // verus!
