//! Policies and policy sets.

use std::sync::Arc;

use vstd::prelude::*;

use crate::ast::{share, BinaryOp, Data, EntityUid, Expr, ExprKind, Loc, Prim, SlotId, Var};
use crate::dnf::{and, bool_lit, node};
use crate::model::{Value, World};
use crate::slots::SlotEnv;
use crate::tree::{Atomic, Op, Tree};

verus! {

/// What a policy does with the requests it matches.
#[derive(Clone, Copy, Debug, PartialEq, Eq, Structural)]
pub enum Effect {
    Permit,
    Forbid,
}

/// What an authorization request is answered.
#[derive(Clone, Copy, Debug, PartialEq, Eq, Structural)]
pub enum Decision {
    Allow,
    Deny,
}

/// An entity in a scope constraint, or the slot it is linked in.
#[derive(Debug)]
pub enum EntityRef {
    Uid(EntityUid),
    Slot,
}

/// A constraint on the principal or the resource.
#[derive(Debug)]
pub enum ScopeConstraint {
    Any,
    Eq(EntityRef),
    In(EntityRef),
    Is(String),
    IsIn(String, EntityRef),
}

/// A constraint on the action.
#[derive(Debug)]
pub enum ActionConstraint {
    Any,
    Eq(EntityUid),
    In(Arc<Vec<EntityUid>>),
}

/// A static or template-linked policy.
#[derive(Debug)]
pub struct Policy {
    pub id: String,
    pub effect: Effect,
    pub annotations: Arc<Vec<(String, String)>>,
    pub loc: Option<Loc>,
    pub principal: ScopeConstraint,
    pub action: ActionConstraint,
    pub resource: ScopeConstraint,
    /// The `when` clause; `None` (distinct from `when { true }`) if there is
    /// none.
    pub when: Option<Arc<Expr<()>>>,
    /// What the principal slot is linked to.
    pub principal_slot: Option<EntityUid>,
    /// What the resource slot is linked to.
    pub resource_slot: Option<EntityUid>,
}

/// What a [`Policy`] is: its scope constraints as expressions, with the slots
/// filled.
#[verifier::ext_equal]
pub struct PolicyView {
    pub id: Seq<char>,
    pub effect: Effect,
    pub annotations: Arc<Vec<(String, String)>>,
    pub loc: Option<Loc>,
    pub principal: Tree,
    pub action: Tree,
    pub resource: Tree,
    pub when: Option<Tree>,
}

impl Tree {
    /// A leaf.
    pub open spec fn leaf(op: Op) -> Tree {
        Tree { op, kids: seq![] }
    }

    /// The entity `uid`.
    pub open spec fn entity(uid: (Seq<char>, Seq<char>)) -> Tree {
        Tree::leaf(Op::Lit(Atomic::Uid(uid.0, uid.1)))
    }

    /// `t is ty`
    pub open spec fn is_type(t: Tree, ty: Seq<char>) -> Tree {
        Tree { op: Op::Is(ty), kids: seq![t] }
    }

    /// Some node is a slot.
    pub open spec fn has_slot(self) -> bool
        decreases self,
    {
        self.op is Slot || exists|i: int|
            0 <= i < self.kids.len() && (#[trigger] self.kids[i]).has_slot()
    }
}

impl EntityRef {
    /// The entity, or the slot, that is meant, where `fill` is what the slot
    /// is linked to.
    pub open spec fn tree(&self, slot: SlotId, fill: Option<EntityUid>) -> Tree {
        match self {
            EntityRef::Uid(u) => Tree::entity(u@),
            EntityRef::Slot => match fill {
                Some(u) => Tree::entity(u@),
                None => Tree::leaf(Op::Slot(slot)),
            },
        }
    }

    /// The slot is not linked.
    pub open spec fn unfilled(&self, fill: Option<EntityUid>) -> bool {
        self is Slot && fill is None
    }

    fn filled(&self, fill: &Option<EntityUid>) -> (r: EntityRef)
        ensures
            forall|slot: SlotId| r.tree(slot, None) == #[trigger] self.tree(slot, *fill),
            r.unfilled(None) == self.unfilled(*fill),
    {
        match self {
            EntityRef::Uid(u) => EntityRef::Uid(u.dup()),
            EntityRef::Slot => match fill {
                Some(u) => EntityRef::Uid(u.dup()),
                None => EntityRef::Slot,
            },
        }
    }

    fn as_expr(&self, slot: SlotId) -> (r: Expr<()>)
        ensures
            r.tree() == self.tree(slot, None),
    {
        let r = match self {
            EntityRef::Uid(u) => node(ExprKind::Lit(Prim::EntityUid(u.dup()))),
            EntityRef::Slot => node(ExprKind::Slot(slot)),
        };
        assert(r.tree().kids =~= seq![]);
        r
    }
}

/// The application of a binary operator to a variable.
fn var_op(op: BinaryOp, var: Var, arg: Expr<()>) -> (r: Expr<()>)
    ensures
        r.tree() == Tree::binary(op, Tree::leaf(Op::Var(var)), arg.tree()),
{
    let v = node(ExprKind::Var(var));
    assert(v.tree().kids =~= seq![]);
    let r = node(ExprKind::BinaryApp { op, arg1: Arc::new(v), arg2: Arc::new(arg) });
    assert(r.tree().kids =~= seq![v.tree(), arg.tree()]);
    r
}

/// `var is ty`
fn var_is(var: Var, ty: &String) -> (r: Expr<()>)
    ensures
        r.tree() == Tree::is_type(Tree::leaf(Op::Var(var)), ty@),
{
    let v = node(ExprKind::Var(var));
    assert(v.tree().kids =~= seq![]);
    let r = node(ExprKind::Is { expr: Arc::new(v), entity_type: ty.clone() });
    assert(r.tree().kids =~= seq![v.tree()]);
    r
}

impl ScopeConstraint {
    /// The constraint as an expression, where `fill` is what the slot is
    /// linked to.
    pub open spec fn tree(&self, var: Var, slot: SlotId, fill: Option<EntityUid>) -> Tree {
        let v = Tree::leaf(Op::Var(var));
        match self {
            ScopeConstraint::Any => Tree::bool(true),
            ScopeConstraint::Eq(r) => Tree::binary(BinaryOp::Eq, v, r.tree(slot, fill)),
            ScopeConstraint::In(r) => Tree::binary(BinaryOp::In, v, r.tree(slot, fill)),
            ScopeConstraint::Is(ty) => Tree::is_type(v, ty@),
            ScopeConstraint::IsIn(ty, r) => Tree::and(
                Tree::is_type(v, ty@),
                Tree::binary(BinaryOp::In, v, r.tree(slot, fill)),
            ),
        }
    }

    /// The constraint has a slot that is not linked.
    pub open spec fn unfilled(&self, fill: Option<EntityUid>) -> bool {
        match self {
            ScopeConstraint::Eq(r) | ScopeConstraint::In(r) | ScopeConstraint::IsIn(_, r) =>
                r.unfilled(fill),
            _ => false,
        }
    }

    /// The constraint with its slot filled.
    fn filled(&self, fill: &Option<EntityUid>) -> (r: ScopeConstraint)
        ensures
            forall|var: Var, slot: SlotId|
                r.tree(var, slot, None) == #[trigger] self.tree(var, slot, *fill),
            r.unfilled(None) == self.unfilled(*fill),
    {
        match self {
            ScopeConstraint::Any => ScopeConstraint::Any,
            ScopeConstraint::Eq(r) => ScopeConstraint::Eq(r.filled(fill)),
            ScopeConstraint::In(r) => ScopeConstraint::In(r.filled(fill)),
            ScopeConstraint::Is(ty) => ScopeConstraint::Is(ty.clone()),
            ScopeConstraint::IsIn(ty, r) => ScopeConstraint::IsIn(ty.clone(), r.filled(fill)),
        }
    }

    /// Whether the constraint has a slot.
    fn has_slot(&self) -> (r: bool)
        ensures
            r == self.unfilled(None),
    {
        match self {
            ScopeConstraint::Eq(EntityRef::Slot) | ScopeConstraint::In(EntityRef::Slot)
            | ScopeConstraint::IsIn(_, EntityRef::Slot) => true,
            _ => false,
        }
    }

    /// The constraint on `var` as an expression.
    fn as_expr(&self, var: Var, slot: SlotId) -> (r: Expr<()>)
        ensures
            r.tree() == self.tree(var, slot, None),
    {
        match self {
            ScopeConstraint::Any => bool_lit(true),
            ScopeConstraint::Eq(r) => var_op(BinaryOp::Eq, var, r.as_expr(slot)),
            ScopeConstraint::In(r) => var_op(BinaryOp::In, var, r.as_expr(slot)),
            ScopeConstraint::Is(ty) => var_is(var, ty),
            ScopeConstraint::IsIn(ty, r) => and(
                var_is(var, ty),
                var_op(BinaryOp::In, var, r.as_expr(slot)),
            ),
        }
    }
}

impl ActionConstraint {
    /// The constraint as an expression.
    pub open spec fn tree(&self) -> Tree {
        let v = Tree::leaf(Op::Var(Var::Action));
        match self {
            ActionConstraint::Any => Tree::bool(true),
            ActionConstraint::Eq(u) => Tree::binary(BinaryOp::Eq, v, Tree::entity(u@)),
            ActionConstraint::In(us) => Tree::binary(
                BinaryOp::In,
                v,
                Tree { op: Op::SetLit, kids: us@.map_values(|u: EntityUid| Tree::entity(u@)) },
            ),
        }
    }

    fn dup(&self) -> (r: ActionConstraint)
        ensures
            r == *self,
    {
        match self {
            ActionConstraint::Any => ActionConstraint::Any,
            ActionConstraint::Eq(u) => ActionConstraint::Eq(u.dup()),
            ActionConstraint::In(us) => ActionConstraint::In(share(us)),
        }
    }

    /// The constraint as an expression.
    fn as_expr(&self) -> (r: Expr<()>)
        ensures
            r.tree() == self.tree(),
    {
        match self {
            ActionConstraint::Any => bool_lit(true),
            ActionConstraint::Eq(u) => {
                let e = node(ExprKind::Lit(Prim::EntityUid(u.dup())));
                assert(e.tree().kids =~= seq![]);
                var_op(BinaryOp::Eq, Var::Action, e)
            },
            ActionConstraint::In(us) => {
                let mut elems: Vec<Expr<()>> = Vec::new();
                let mut i: usize = 0;
                let ghost all = us@.map_values(|u: EntityUid| Tree::entity(u@));
                while i < us.len()
                    invariant
                        i <= us@.len(),
                        all == us@.map_values(|u: EntityUid| Tree::entity(u@)),
                        crate::ast::trees(elems@) =~= all.take(i as int),
                    decreases us@.len() - i,
                {
                    let ghost before = crate::ast::trees(elems@);
                    let e = node(ExprKind::Lit(Prim::EntityUid(us[i].dup())));
                    assert(e.tree().kids =~= seq![]);
                    elems.push(e);
                    assert(crate::ast::trees(elems@) =~= before.push(e.tree()));
                    i += 1;
                }
                let set = node(ExprKind::SetLit(Arc::new(elems)));
                assert(all.take(i as int) =~= all);
                assert(set.tree().kids =~= all);
                var_op(BinaryOp::In, Var::Action, set)
            },
        }
    }
}

impl View for Policy {
    type V = PolicyView;

    open spec fn view(&self) -> PolicyView {
        PolicyView {
            id: self.id@,
            effect: self.effect,
            annotations: self.annotations,
            loc: self.loc,
            principal: self.principal.tree(
                Var::Principal,
                SlotId::Principal,
                self.principal_slot,
            ),
            action: self.action.tree(),
            resource: self.resource.tree(Var::Resource, SlotId::Resource, self.resource_slot),
            when: match self.when {
                Some(e) => Some(e.tree()),
                None => None,
            },
        }
    }
}

impl PolicyView {
    /// The scope of the policy is true on the request.
    pub open spec fn in_scope(self, w: World) -> bool {
        &&& self.principal.eval(w) == Ok::<Value, int>(Value::Bool(true))
        &&& self.action.eval(w) == Ok::<Value, int>(Value::Bool(true))
        &&& self.resource.eval(w) == Ok::<Value, int>(Value::Bool(true))
    }

    /// The policy matches the request: its scope and its condition are true.
    pub open spec fn matches_on(self, w: World) -> bool {
        &&& self.principal.eval(w) == Ok::<Value, int>(Value::Bool(true))
        &&& self.action.eval(w) == Ok::<Value, int>(Value::Bool(true))
        &&& self.resource.eval(w) == Ok::<Value, int>(Value::Bool(true))
        &&& self.when matches Some(t) ==> t.eval(w) == Ok::<Value, int>(Value::Bool(true))
    }

    /// Some policy of the set with the effect `effect` matches the request.
    pub open spec fn any_matches(ps: Seq<PolicyView>, effect: Effect, w: World) -> bool {
        exists|i: int|
            0 <= i < ps.len() && (#[trigger] ps[i]).effect == effect && ps[i].matches_on(w)
    }

    /// The decision on the request: allowed if some permit and no forbid
    /// matches.
    pub open spec fn decision(ps: Seq<PolicyView>, w: World) -> Decision {
        if Self::any_matches(ps, Effect::Permit, w) && !Self::any_matches(ps, Effect::Forbid, w) {
            Decision::Allow
        } else {
            Decision::Deny
        }
    }
}

impl Policy {
    /// The scope has a slot that is not linked.
    pub open spec fn unfilled(&self) -> bool {
        self.principal.unfilled(self.principal_slot) || self.resource.unfilled(self.resource_slot)
    }

    /// Whether the policy is not linked from a template.
    pub fn is_static(&self) -> (r: bool)
        ensures
            r == self.unlinked(),
    {
        self.principal_slot.is_none() && self.resource_slot.is_none()
    }

    /// The constraint on the principal, with its slot filled.
    pub fn principal_constraint(&self) -> (r: ScopeConstraint)
        ensures
            r.tree(Var::Principal, SlotId::Principal, None) == self@.principal,
            r.unfilled(None) == self.principal.unfilled(self.principal_slot),
    {
        self.principal.filled(&self.principal_slot)
    }

    /// The constraint on the action.
    pub fn action_constraint(&self) -> (r: ActionConstraint)
        ensures
            r == self.action,
    {
        self.action.dup()
    }

    /// The constraint on the resource, with its slot filled.
    pub fn resource_constraint(&self) -> (r: ScopeConstraint)
        ensures
            r.tree(Var::Resource, SlotId::Resource, None) == self@.resource,
            r.unfilled(None) == self.resource.unfilled(self.resource_slot),
    {
        self.resource.filled(&self.resource_slot)
    }

    /// The constraint on the principal as an expression, with its slot filled.
    pub fn principal_expr(&self) -> (r: Expr<()>)
        ensures
            r.tree() == self@.principal,
    {
        self.principal_constraint().as_expr(Var::Principal, SlotId::Principal)
    }

    /// The constraint on the action as an expression.
    pub fn action_expr(&self) -> (r: Expr<()>)
        ensures
            r.tree() == self@.action,
    {
        self.action.as_expr()
    }

    /// The constraint on the resource as an expression, with its slot filled.
    pub fn resource_expr(&self) -> (r: Expr<()>)
        ensures
            r.tree() == self@.resource,
    {
        self.resource_constraint().as_expr(Var::Resource, SlotId::Resource)
    }

    /// The condition as an expression: the scope and the `when` clause, with
    /// the slots left in. `&&` of two boolean literals is written as the
    /// literal that it is.
    pub open spec fn condition_tree(&self) -> Tree {
        let when = match self.when {
            Some(e) => e.tree(),
            None => Tree::bool(true),
        };
        let r = self.resource.tree(Var::Resource, SlotId::Resource, None);
        let a = self.action.tree();
        let p = self.principal.tree(Var::Principal, SlotId::Principal, None);
        let below = Tree::and(a, Tree::and(r, when).fold_literals()).fold_literals();
        Tree::and(p, below).fold_literals()
    }

    /// The condition as an expression, with the slots left in. The `&&` that
    /// join the scope and the `when` clause are where the policy is.
    pub fn condition(&self) -> (r: Expr<()>)
        ensures
            r.tree() == self.condition_tree(),
            joined_at(r, self.loc, 3),
    {
        let when = match &self.when {
            Some(e) => (**e).dup(),
            None => bool_lit(true),
        };
        let resource = self.resource.as_expr(Var::Resource, SlotId::Resource);
        let action = self.action.as_expr();
        let principal = self.principal.as_expr(Var::Principal, SlotId::Principal);
        let inner = folded_and(resource, when, &self.loc);
        let middle = folded_and(action, inner, &self.loc);
        proof {
            reveal_with_fuel(joined_at, 4);
        }
        folded_and(principal, middle, &self.loc)
    }

    /// What the slots are bound to.
    pub open spec fn bindings(&self) -> SlotEnv {
        SlotEnv { principal: self.principal_slot, resource: self.resource_slot }
    }

    /// What the slots are bound to.
    pub fn env(&self) -> (r: SlotEnv)
        ensures
            r.principal == self.principal_slot,
            r.resource == self.resource_slot,
    {
        SlotEnv { principal: dup_uid(&self.principal_slot), resource: dup_uid(&self.resource_slot) }
    }

    /// The policy is not linked: no slot of a template is bound in it.
    pub open spec fn unlinked(&self) -> bool {
        self.principal_slot is None && self.resource_slot is None
    }

    /// The policies are not linked.
    pub open spec fn all_unlinked(ps: Seq<Policy>) -> bool {
        forall|i: int| 0 <= i < ps.len() ==> (#[trigger] ps[i]).unlinked()
    }

    /// The policies are static: not linked, and with no slot in their scope.
    pub open spec fn all_static(ps: Seq<Policy>) -> bool {
        forall|i: int| 0 <= i < ps.len() ==> (#[trigger] ps[i]).unlinked() && !ps[i].unfilled()
    }

    /// A policy that applies `effect` where `when` is true: its scope is
    /// unconstrained.
    pub fn from_when_clause(effect: Effect, when: Expr<()>, id: String, loc: Option<Loc>) -> (r:
        Policy)
        ensures
            r.id == id,
            r.effect == effect,
            r.annotations@.len() == 0,
            r.loc == loc,
            r.principal is Any && r.action is Any && r.resource is Any,
            r.principal_slot is None && r.resource_slot is None,
            r.when == Some(Arc::new(when)),
    {
        Policy {
            id,
            effect,
            annotations: Arc::new(Vec::new()),
            loc,
            principal: ScopeConstraint::Any,
            action: ActionConstraint::Any,
            resource: ScopeConstraint::Any,
            when: Some(Arc::new(when)),
            principal_slot: None,
            resource_slot: None,
        }
    }

    /// A static policy with the scope (slots filled), annotations and source
    /// location of `self`, and the given id, effect and condition; `None` if a
    /// slot is left.
    pub fn instance(&self, id: String, effect: Effect, condition: Option<Expr<()>>) -> (r: Option<
        Policy,
    >)
        ensures
            match r {
                Some(p) => {
                    &&& !self.unfilled()
                    &&& !(condition matches Some(c) && c.tree().has_slot())
                    &&& p.unlinked() && !p.unfilled()
                    &&& p@ == (PolicyView {
                        id: id@,
                        effect,
                        when: match condition {
                            Some(c) => Some(c.tree()),
                            None => None,
                        },
                        ..self@
                    })
                },
                None => self.unfilled() || (condition matches Some(c) && c.tree().has_slot()),
            },
    {
        let principal = self.principal_constraint();
        let resource = self.resource_constraint();
        if principal.has_slot() || resource.has_slot() {
            return None;
        }
        let when = match condition {
            Some(c) => {
                if has_slot(&c) {
                    return None;
                }
                Some(Arc::new(c))
            },
            None => None,
        };
        Some(
            Policy {
                id,
                effect,
                annotations: share(&self.annotations),
                loc: self.loc,
                principal,
                action: self.action.dup(),
                resource,
                when,
                principal_slot: None,
                resource_slot: None,
            },
        )
    }

    /// A copy of the policy.
    pub fn dup(&self) -> (r: Policy)
        ensures
            r == *self,
    {
        Policy {
            id: self.id.clone(),
            effect: self.effect,
            annotations: share(&self.annotations),
            loc: self.loc,
            principal: dup_scope(&self.principal),
            action: self.action.dup(),
            resource: dup_scope(&self.resource),
            when: match &self.when {
                Some(e) => Some(share(e)),
                None => None,
            },
            principal_slot: dup_uid(&self.principal_slot),
            resource_slot: dup_uid(&self.resource_slot),
        }
    }
}

/// The node is at `loc`, and so are its right operand, and so on, `n` nodes in
/// all (fewer if a literal comes first).
pub open spec fn joined_at(e: Expr<()>, loc: Option<Loc>, n: nat) -> bool
    decreases n,
{
    n > 0 ==> e.loc == loc && (e.kind matches ExprKind::And { right, .. } ==> joined_at(
        *right,
        loc,
        (n - 1) as nat,
    ))
}

/// `left && right` at `loc`, or the literal that it is if both are literals.
fn folded_and(left: Expr<()>, right: Expr<()>, loc: &Option<Loc>) -> (r: Expr<()>)
    ensures
        r.tree() == Tree::and(left.tree(), right.tree()).fold_literals(),
        r.loc == *loc,
        r.kind matches ExprKind::And { right: x, .. } ==> *x == right,
{
    proof {
        assert(left.tree().op == left.op());
        assert(right.tree().op == right.op());
        let t = Tree::and(left.tree(), right.tree());
        assert(t.kids[0] == left.tree() && t.kids[1] == right.tree());
    }
    match (&left.kind, &right.kind) {
        (ExprKind::Lit(Prim::Bool(a)), ExprKind::Lit(Prim::Bool(b))) => {
            let e = bool_lit(*a && *b);
            let r = Expr { kind: e.kind, loc: *loc, data: () };
            assert(r.tree().kids =~= e.tree().kids);
            assert(r.tree().op == e.tree().op);
            assert(!(r.kind is And));
            r
        },
        _ => {
            let ghost t = Tree::and(left.tree(), right.tree());
            let r = Expr {
                kind: ExprKind::And { left: Arc::new(left), right: Arc::new(right) },
                loc: *loc,
                data: (),
            };
            assert(r.tree().kids =~= t.kids);
            r
        },
    }
}

fn dup_uid(u: &Option<EntityUid>) -> (r: Option<EntityUid>)
    ensures
        r == *u,
{
    match u {
        Some(u) => Some(u.dup()),
        None => None,
    }
}

fn dup_ref(e: &EntityRef) -> (r: EntityRef)
    ensures
        r == *e,
{
    match e {
        EntityRef::Uid(u) => EntityRef::Uid(u.dup()),
        EntityRef::Slot => EntityRef::Slot,
    }
}

fn dup_scope(c: &ScopeConstraint) -> (r: ScopeConstraint)
    ensures
        r == *c,
{
    match c {
        ScopeConstraint::Any => ScopeConstraint::Any,
        ScopeConstraint::Eq(e) => ScopeConstraint::Eq(dup_ref(e)),
        ScopeConstraint::In(e) => ScopeConstraint::In(dup_ref(e)),
        ScopeConstraint::Is(ty) => ScopeConstraint::Is(ty.clone()),
        ScopeConstraint::IsIn(ty, e) => ScopeConstraint::IsIn(ty.clone(), dup_ref(e)),
    }
}

/// Whether some node of `e` is a slot.
pub fn has_slot<T>(e: &Expr<T>) -> (r: bool)
    ensures
        r == e.tree().has_slot(),
    decreases e,
{
    if let ExprKind::Slot(_) = &e.kind {
        return true;
    }
    let n = e.kid_count();
    let mut i: usize = 0;
    while i < n
        invariant
            i <= n,
            n == e.kids().len(),
            forall|j: int| 0 <= j < i ==> !(#[trigger] e.tree().kids[j]).has_slot(),
        decreases n - i,
    {
        if has_slot(e.kid(i)) {
            return true;
        }
        i += 1;
    }
    false
}

/// Policies with distinct ids, in the order they were added.
#[derive(Debug)]
pub struct PolicySet {
    policies: Vec<Policy>,
}

impl View for PolicySet {
    type V = Seq<PolicyView>;

    closed spec fn view(&self) -> Seq<PolicyView> {
        self.policies@.map_values(|p: Policy| p@)
    }
}

impl PolicyView {
    /// No two of `ps` have the same id.
    pub open spec fn distinct_ids(ps: Seq<PolicyView>) -> bool {
        forall|i: int, j: int|
            0 <= i < j < ps.len() ==> (#[trigger] ps[i]).id != (#[trigger] ps[j]).id
    }
}

impl PolicySet {
    /// The policies, in the order they were added.
    pub closed spec fn items(&self) -> Seq<Policy> {
        self.policies@
    }

    /// Ids are distinct.
    #[verifier::type_invariant]
    spec fn ids_are_distinct(self) -> bool {
        PolicyView::distinct_ids(self.policies@.map_values(|p: Policy| p@))
    }

    /// No policies.
    pub fn new() -> (r: Self)
        ensures
            r@ == Seq::<PolicyView>::empty(),
            r.items() == Seq::<Policy>::empty(),
    {
        let policies: Vec<Policy> = Vec::new();
        let r = PolicySet { policies };
        assert(r@ =~= Seq::<PolicyView>::empty());
        r
    }

    /// The policies, in the order they were added.
    pub fn policies(&self) -> (r: &Vec<Policy>)
        ensures
            r@ == self.items(),
            r@.map_values(|p: Policy| p@) == self@,
            PolicyView::distinct_ids(self@),
    {
        proof {
            use_type_invariant(&*self);
        }
        &self.policies
    }

    /// The policy with `id`.
    pub fn policy(&self, id: &String) -> (r: Option<&Policy>)
        ensures
            match r {
                Some(p) => p.id@ == id@ && self.items().contains(*p),
                None => forall|i: int| 0 <= i < self@.len() ==> (#[trigger] self@[i]).id != id@,
            },
    {
        let mut i: usize = 0;
        while i < self.policies.len()
            invariant
                i <= self.policies@.len(),
                forall|j: int| 0 <= j < i ==> (#[trigger] self@[j]).id != id@,
            decreases self.policies@.len() - i,
        {
            assert(self@[i as int] == self.policies@[i as int]@);
            if self.policies[i].id == *id {
                assert(self.items()[i as int] == self.policies@[i as int]);
                return Some(&self.policies[i]);
            }
            i += 1;
        }
        None
    }

    /// Adds `policy`; fails, and adds nothing, if there is one with its id.
    pub fn add(&mut self, policy: Policy) -> (r: Result<(), ()>)
        ensures
            match r {
                Ok(_) => {
                    &&& forall|i: int| 0 <= i < old(self)@.len() ==> (#[trigger] old(self)@[i]).id
                        != policy@.id
                    &&& final(self)@ == old(self)@.push(policy@)
                    &&& final(self).items() == old(self).items().push(policy)
                },
                Err(_) => {
                    &&& exists|i: int| 0 <= i < old(self)@.len() && (#[trigger] old(self)@[i]).id
                        == policy@.id
                    &&& final(self)@ == old(self)@
                    &&& final(self).items() == old(self).items()
                },
            },
    {
        proof {
            use_type_invariant(&*self);
        }
        let ghost before = self@;
        let mut i: usize = 0;
        while i < self.policies.len()
            invariant
                i <= self.policies@.len(),
                before == self@,
                *self == *old(self),
                forall|j: int| 0 <= j < i ==> (#[trigger] before[j]).id != policy@.id,
            decreases self.policies@.len() - i,
        {
            assert(before[i as int] == self.policies@[i as int]@);
            if self.policies[i].id == policy.id {
                assert(before[i as int].id == policy@.id);
                return Err(());
            }
            i += 1;
        }
        let mut all: Vec<Policy> = Vec::new();
        std::mem::swap(&mut all, &mut self.policies);
        all.push(policy);
        assert(all@.map_values(|p: Policy| p@) =~= before.push(policy@));
        *self = PolicySet { policies: all };
        Ok(())
    }
}

} // verus!
