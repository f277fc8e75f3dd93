//! Residuals: what is left of a typed expression once the values that are
//! known have been put in.

use std::sync::Arc;

use vstd::prelude::*;

use crate::ast::{
    share, BinaryOp, Data, EntityUid, Expr, ExprKind, Loc, PatternElem, Prim, SlotId, UnaryOp, Var,
};
use crate::expr_util::{one, rename, three, two};
use crate::outcome::{EvaluationOutcome, Outcomes};
use crate::policy::{ActionConstraint, Effect, Policy, ScopeConstraint};
use crate::slots::SlotEnv;
use crate::tree::{Atomic, Op, Tree};
use crate::types::{BoolType, Type};

verus! {

/// A value.
#[derive(Debug)]
pub enum Val {
    Lit(Prim),
    SetOf(Arc<Vec<Val>>),
    /// The fields, in the order of their names.
    RecordOf(Arc<Vec<(String, Val)>>),
    /// A value of an extension type, as the call that makes it.
    Ext { fn_name: String, args: Arc<Vec<Val>> },
}

/// A residual.
#[derive(Debug)]
pub enum Residual {
    /// A partial expression.
    Partial { kind: ResidualKind, ty: Type },
    /// A concrete value.
    Concrete { value: Val, ty: Type },
    /// An error: evaluating the residual always errs.
    Error(Type),
}

/// The kind of a partial expression.
#[allow(inconsistent_fields)]
#[derive(Debug)]
pub enum ResidualKind {
    /// A request variable.
    Var(Var),
    /// `if .. then .. else ..`
    If { test_expr: Arc<Residual>, then_expr: Arc<Residual>, else_expr: Arc<Residual> },
    /// `&&`
    And { left: Arc<Residual>, right: Arc<Residual> },
    /// `||`
    Or { left: Arc<Residual>, right: Arc<Residual> },
    /// `!`, `-`, `.isEmpty()`
    UnaryApp { op: UnaryOp, arg: Arc<Residual> },
    /// A binary operator.
    BinaryApp { op: BinaryOp, arg1: Arc<Residual>, arg2: Arc<Residual> },
    /// A call of an extension function.
    ExtensionFunctionApp { fn_name: String, args: Arc<Vec<Residual>> },
    /// `.attr`
    GetAttr { expr: Arc<Residual>, attr: String },
    /// `has attr`
    HasAttr { expr: Arc<Residual>, attr: String },
    /// `like "pattern"`
    Like { expr: Arc<Residual>, pattern: Arc<Vec<PatternElem>> },
    /// `is type`
    Is { expr: Arc<Residual>, entity_type: String },
    /// A set literal.
    SetLit(Arc<Vec<Residual>>),
    /// A record literal: its fields, in the order of their names.
    Record(Arc<Vec<(String, Residual)>>),
}

/// Why a typed expression has no residual.
#[derive(Debug)]
pub enum ExprToResidualError {
    /// A node has no type.
    MissingTypeAnnotation,
    /// A slot is not bound.
    UnlinkedSlot { slot: SlotId, loc: Option<Loc> },
    /// The expression has an unknown.
    UnknownNotSupported,
}

/// What a node of a residual is, without its children.
#[verifier::ext_equal]
pub enum RNode {
    /// A partial expression with this operator.
    Partial(Op),
    /// The value of this expression.
    Concrete(Tree),
    Error,
}

/// What a residual is: its root, the type of its root, and its children.
#[verifier::ext_equal]
pub struct RTree {
    pub node: RNode,
    pub ty: Type,
    pub kids: Seq<RTree>,
}

impl Val {
    /// The operator that makes the value.
    pub open spec fn op(&self) -> Op {
        match self {
            Val::Lit(l) => Op::Lit(l@),
            Val::SetOf(_) => Op::SetLit,
            Val::RecordOf(fields) => Op::Record(Seq::new(fields@.len(), |i: int| fields@[i].0@)),
            Val::Ext { fn_name, .. } => Op::Call(fn_name@),
        }
    }

    /// The values it is made of.
    pub open spec fn kids(&self) -> Seq<Val> {
        match self {
            Val::Lit(_) => Seq::empty(),
            Val::SetOf(elems) => elems@,
            Val::RecordOf(fields) => Seq::new(fields@.len(), |i: int| fields@[i].1),
            Val::Ext { args, .. } => args@,
        }
    }

    /// A part is smaller than the whole.
    proof fn lemma_kid_decreases(&self, i: int)
        requires
            0 <= i < self.kids().len(),
        ensures
            decreases_to!(self => self.kids()[i]),
    {
        match self {
            Val::Lit(_) => {},
            Val::SetOf(elems) => {
                assert(decreases_to!(self => elems@));
                assert(decreases_to!(elems@ => elems@[i]));
            },
            Val::RecordOf(fields) => {
                assert(decreases_to!(self => fields@));
                assert(decreases_to!(fields@ => fields@[i]));
                assert(decreases_to!(fields@[i] => fields@[i].1));
            },
            Val::Ext { args, .. } => {
                assert(decreases_to!(self => args@));
                assert(decreases_to!(args@ => args@[i]));
            },
        }
    }

    /// The expression that makes the value.
    pub open spec fn tree(&self) -> Tree
        decreases self,
        via Self::tree_terminates
    {
        Tree {
            op: self.op(),
            kids: Seq::new(
                self.kids().len(),
                |i: int|
                    if 0 <= i < self.kids().len() {
                        self.kids()[i].tree()
                    } else {
                        arbitrary()
                    },
            ),
        }
    }

    #[via_fn]
    proof fn tree_terminates(&self) {
        assert forall|i: int| 0 <= i < self.kids().len() implies decreases_to!(
            self => #[trigger] self.kids()[i]
        ) by {
            self.lemma_kid_decreases(i);
        }
    }

    /// The number of values it is made of.
    fn kid_count(&self) -> (n: usize)
        ensures
            n == self.kids().len(),
    {
        match self {
            Val::Lit(_) => 0,
            Val::SetOf(elems) => elems.len(),
            Val::RecordOf(fields) => fields.len(),
            Val::Ext { args, .. } => args.len(),
        }
    }

    /// The part at position `i`.
    fn kid(&self, i: usize) -> (r: &Val)
        requires
            i < self.kids().len(),
        ensures
            *r == self.kids()[i as int],
            decreases_to!(*self => *r),
            r.tree() == self.tree().kids[i as int],
    {
        proof {
            self.lemma_kid_decreases(i as int);
        }
        match self {
            Val::Lit(_) => self,
            Val::SetOf(elems) => &elems[i],
            Val::RecordOf(fields) => &fields[i].1,
            Val::Ext { args, .. } => &args[i],
        }
    }

    /// The value as an expression.
    pub fn to_expr(&self) -> (r: Expr<()>)
        ensures
            r.tree() == self.tree(),
        decreases self,
    {
        let n = self.kid_count();
        let mut new: Vec<Expr<()>> = Vec::new();
        let mut i: usize = 0;
        while i < n
            invariant
                i <= n,
                n == self.kids().len(),
                new@.len() == i,
                forall|j: int| 0 <= j < i ==> (#[trigger] new@[j]).tree() == self.tree().kids[j],
            decreases n - i,
        {
            let k = self.kid(i);
            new.push(k.to_expr());
            i += 1;
        }
        let ghost all = new@;
        let kind = match self {
            Val::Lit(l) => ExprKind::Lit(l.dup()),
            Val::SetOf(_) => ExprKind::SetLit(Arc::new(new)),
            Val::RecordOf(fields) => ExprKind::Record(Arc::new(rename(fields, new))),
            Val::Ext { fn_name, .. } => ExprKind::ExtensionFunctionApp {
                fn_name: fn_name.clone(),
                args: Arc::new(new),
            },
        };
        let r = Expr { kind, loc: None, data: () };
        assert(r.kids() =~= all);
        assert(r.op() =~= self.op());
        assert(r.tree().kids =~= self.tree().kids);
        r
    }
}

impl Data for Val {
    fn dup(&self) -> (r: Self) {
        match self {
            Val::Lit(l) => Val::Lit(l.dup()),
            Val::SetOf(elems) => Val::SetOf(share(elems)),
            Val::RecordOf(fields) => Val::RecordOf(share(fields)),
            Val::Ext { fn_name, args } => Val::Ext {
                fn_name: fn_name.clone(),
                args: share(args),
            },
        }
    }
}

impl ResidualKind {
    /// The operator.
    pub open spec fn op(&self) -> Op {
        match self {
            ResidualKind::Var(v) => Op::Var(*v),
            ResidualKind::If { .. } => Op::If,
            ResidualKind::And { .. } => Op::And,
            ResidualKind::Or { .. } => Op::Or,
            ResidualKind::UnaryApp { op, .. } => Op::Unary(*op),
            ResidualKind::BinaryApp { op, .. } => Op::Binary(*op),
            ResidualKind::ExtensionFunctionApp { fn_name, .. } => Op::Call(fn_name@),
            ResidualKind::GetAttr { attr, .. } => Op::GetAttr(attr@),
            ResidualKind::HasAttr { attr, .. } => Op::HasAttr(attr@),
            ResidualKind::Like { pattern, .. } => Op::Like(pattern@),
            ResidualKind::Is { entity_type, .. } => Op::Is(entity_type@),
            ResidualKind::SetLit(_) => Op::SetLit,
            ResidualKind::Record(fields) => Op::Record(
                Seq::new(fields@.len(), |i: int| fields@[i].0@),
            ),
        }
    }

    /// The children, in evaluation order.
    pub open spec fn kids(&self) -> Seq<Residual> {
        match self {
            ResidualKind::Var(_) => Seq::empty(),
            ResidualKind::If { test_expr, then_expr, else_expr } =>
                seq![**test_expr, **then_expr, **else_expr],
            ResidualKind::And { left, right } | ResidualKind::Or { left, right } =>
                seq![**left, **right],
            ResidualKind::UnaryApp { arg, .. } => seq![**arg],
            ResidualKind::BinaryApp { arg1, arg2, .. } => seq![**arg1, **arg2],
            ResidualKind::ExtensionFunctionApp { args, .. } => args@,
            ResidualKind::GetAttr { expr, .. } | ResidualKind::HasAttr { expr, .. }
            | ResidualKind::Like { expr, .. } | ResidualKind::Is { expr, .. } => seq![**expr],
            ResidualKind::SetLit(elems) => elems@,
            ResidualKind::Record(fields) => Seq::new(fields@.len(), |i: int| fields@[i].1),
        }
    }

    /// A child is smaller than its parent.
    proof fn lemma_kid_decreases(&self, i: int)
        requires
            0 <= i < self.kids().len(),
        ensures
            decreases_to!(self => self.kids()[i]),
    {
        match self {
            ResidualKind::Var(_) => {},
            ResidualKind::If { test_expr, then_expr, else_expr } => {
                assert(decreases_to!(self => **test_expr));
                assert(decreases_to!(self => **then_expr));
                assert(decreases_to!(self => **else_expr));
            },
            ResidualKind::And { left, right } | ResidualKind::Or { left, right } => {
                assert(decreases_to!(self => **left));
                assert(decreases_to!(self => **right));
            },
            ResidualKind::UnaryApp { arg, .. } => {
                assert(decreases_to!(self => **arg));
            },
            ResidualKind::BinaryApp { arg1, arg2, .. } => {
                assert(decreases_to!(self => **arg1));
                assert(decreases_to!(self => **arg2));
            },
            ResidualKind::ExtensionFunctionApp { args, .. } => {
                assert(decreases_to!(self => args@));
                assert(decreases_to!(args@ => args@[i]));
            },
            ResidualKind::GetAttr { expr, .. } | ResidualKind::HasAttr { expr, .. }
            | ResidualKind::Like { expr, .. } | ResidualKind::Is { expr, .. } => {
                assert(decreases_to!(self => **expr));
            },
            ResidualKind::SetLit(elems) => {
                assert(decreases_to!(self => elems@));
                assert(decreases_to!(elems@ => elems@[i]));
            },
            ResidualKind::Record(fields) => {
                assert(decreases_to!(self => fields@));
                assert(decreases_to!(fields@ => fields@[i]));
                assert(decreases_to!(fields@[i] => fields@[i].1));
            },
        }
    }

    /// The children, in evaluation order.
    fn children(&self) -> (r: Vec<&Residual>)
        ensures
            r@.len() == self.kids().len(),
            forall|i: int|
                #![trigger r@[i]]
                0 <= i < r@.len() ==> *r@[i] == self.kids()[i] && decreases_to!(*self => *r@[i]),
    {
        let mut r: Vec<&Residual> = Vec::new();
        match self {
            ResidualKind::Var(_) => {},
            ResidualKind::If { test_expr, then_expr, else_expr } => {
                r.push(&**test_expr);
                r.push(&**then_expr);
                r.push(&**else_expr);
            },
            ResidualKind::And { left, right } | ResidualKind::Or { left, right } => {
                r.push(&**left);
                r.push(&**right);
            },
            ResidualKind::UnaryApp { arg, .. } => {
                r.push(&**arg);
            },
            ResidualKind::BinaryApp { arg1, arg2, .. } => {
                r.push(&**arg1);
                r.push(&**arg2);
            },
            ResidualKind::GetAttr { expr, .. } | ResidualKind::HasAttr { expr, .. }
            | ResidualKind::Like { expr, .. } | ResidualKind::Is { expr, .. } => {
                r.push(&**expr);
            },
            ResidualKind::ExtensionFunctionApp { args, .. } => {
                let mut i: usize = 0;
                while i < args.len()
                    invariant
                        i <= args@.len(),
                        r@.len() == i,
                        forall|j: int| 0 <= j < i ==> *(#[trigger] r@[j]) == args@[j],
                    decreases args@.len() - i,
                {
                    r.push(&args[i]);
                    i += 1;
                }
            },
            ResidualKind::SetLit(elems) => {
                let mut i: usize = 0;
                while i < elems.len()
                    invariant
                        i <= elems@.len(),
                        r@.len() == i,
                        forall|j: int| 0 <= j < i ==> *(#[trigger] r@[j]) == elems@[j],
                    decreases elems@.len() - i,
                {
                    r.push(&elems[i]);
                    i += 1;
                }
            },
            ResidualKind::Record(fields) => {
                let mut i: usize = 0;
                while i < fields.len()
                    invariant
                        i <= fields@.len(),
                        r@.len() == i,
                        forall|j: int| 0 <= j < i ==> *(#[trigger] r@[j]) == fields@[j].1,
                    decreases fields@.len() - i,
                {
                    r.push(&fields[i].1);
                    i += 1;
                }
            },
        }
        proof {
            assert forall|i: int| 0 <= i < r@.len() implies *(#[trigger] r@[i]) == self.kids()[i]
                && decreases_to!(*self => *r@[i]) by {
                self.lemma_kid_decreases(i);
            }
        }
        r
    }
}

impl Residual {
    /// What the root is.
    pub open spec fn node(&self) -> RNode {
        match self {
            Residual::Partial { kind, .. } => RNode::Partial(kind.op()),
            Residual::Concrete { value, .. } => RNode::Concrete(value.tree()),
            Residual::Error(_) => RNode::Error,
        }
    }

    /// The type of the root.
    pub open spec fn type_of(&self) -> Type {
        match self {
            Residual::Partial { ty, .. } => *ty,
            Residual::Concrete { ty, .. } => *ty,
            Residual::Error(ty) => *ty,
        }
    }

    /// The children, in evaluation order.
    pub open spec fn kids(&self) -> Seq<Residual> {
        match self {
            Residual::Partial { kind, .. } => kind.kids(),
            _ => Seq::empty(),
        }
    }

    /// What the residual is.
    pub open spec fn view(&self) -> RTree
        decreases self,
        via Self::view_terminates
    {
        RTree {
            node: self.node(),
            ty: self.type_of(),
            kids: Seq::new(
                self.kids().len(),
                |i: int|
                    if 0 <= i < self.kids().len() {
                        self.kids()[i]@
                    } else {
                        arbitrary()
                    },
            ),
        }
    }

    #[via_fn]
    proof fn view_terminates(&self) {
        match self {
            Residual::Partial { kind, .. } => {
                assert forall|i: int| 0 <= i < self.kids().len() implies decreases_to!(
                    self => #[trigger] self.kids()[i]
                ) by {
                    kind.lemma_kid_decreases(i);
                    assert(decreases_to!(self => kind));
                }
            },
            _ => {},
        }
    }

    /// The type of the residual.
    pub fn ty(&self) -> (r: &Type)
        ensures
            *r == self.type_of(),
            *r == self@.ty,
    {
        match self {
            Residual::Partial { ty, .. } => ty,
            Residual::Concrete { ty, .. } => ty,
            Residual::Error(ty) => ty,
        }
    }
}

/// An operator can fail although its operands have values of the right types.
pub open spec fn can_fail(op: Op) -> bool {
    match op {
        // Overflow, or a tag that the entity does not have.
        Op::Binary(b) => b == BinaryOp::Add || b == BinaryOp::Sub || b == BinaryOp::Mul || b
            == BinaryOp::GetTag,
        Op::Unary(u) => u == UnaryOp::Neg,
        Op::Call(_) => true,
        // An entity that does not exist.
        Op::GetAttr(_) => true,
        _ => false,
    }
}

impl RTree {
    /// The residual can err, if it is well formed.
    pub open spec fn can_error(self) -> bool
        decreases self,
    {
        match self.node {
            RNode::Concrete(_) => false,
            RNode::Error => true,
            RNode::Partial(op) => can_fail(op) || exists|i: int|
                0 <= i < self.kids.len() && (#[trigger] self.kids[i]).can_error(),
        }
    }

    /// The boolean outcomes of an expression of type `ty` of which only that
    /// is known.
    pub open spec fn outcomes_of_type(ty: Type, can_error: bool) -> Set<EvaluationOutcome> {
        match ty {
            Type::Bool(b) => Outcomes::flags(
                b != BoolType::False,
                b != BoolType::True,
                can_error,
            ),
            _ => set![EvaluationOutcome::Error],
        }
    }

    /// The outcomes that evaluation can have, as far as the structure of the
    /// residual and the types of its leaves tell. A value that is not a
    /// boolean counts as an error.
    pub open spec fn outcomes(self) -> Set<EvaluationOutcome>
        decreases self,
    {
        match self.node {
            RNode::Concrete(t) => match t.op {
                Op::Lit(Atomic::Bool(b)) => set![EvaluationOutcome::of_bool(b)],
                _ => set![EvaluationOutcome::Error],
            },
            RNode::Error => set![EvaluationOutcome::Error],
            RNode::Partial(op) => if op == Op::And && self.kids.len() == 2 {
                Outcomes::and_of(self.kids[0].outcomes(), self.kids[1].outcomes())
            } else if op == Op::Or && self.kids.len() == 2 {
                Outcomes::or_of(self.kids[0].outcomes(), self.kids[1].outcomes())
            } else if op == Op::If && self.kids.len() == 3 {
                Outcomes::ite_of(
                    self.kids[0].outcomes(),
                    self.kids[1].outcomes(),
                    self.kids[2].outcomes(),
                )
            } else if op == Op::Unary(UnaryOp::Not) && self.kids.len() == 1 {
                Outcomes::not_of(self.kids[0].outcomes())
            } else {
                Self::outcomes_of_type(self.ty, self.can_error())
            },
        }
    }
}

impl ResidualKind {
    /// Whether the operator can fail although its operands have values of the
    /// right types.
    fn can_fail(&self) -> (r: bool)
        ensures
            r == can_fail(self.op()),
    {
        match self {
            ResidualKind::BinaryApp { op, .. } => match op {
                BinaryOp::Add | BinaryOp::Sub | BinaryOp::Mul | BinaryOp::GetTag => true,
                BinaryOp::Contains | BinaryOp::ContainsAll | BinaryOp::ContainsAny | BinaryOp::Eq
                | BinaryOp::HasTag | BinaryOp::In | BinaryOp::Less | BinaryOp::LessEq => false,
            },
            ResidualKind::UnaryApp { op, .. } => match op {
                UnaryOp::Neg => true,
                UnaryOp::IsEmpty | UnaryOp::Not => false,
            },
            ResidualKind::ExtensionFunctionApp { .. } | ResidualKind::GetAttr { .. } => true,
            _ => false,
        }
    }
}

impl Residual {
    /// Whether the residual can err at run time, if it is well formed, that
    /// is, if the expression it comes from has been validated.
    pub fn can_error_assuming_well_formed(&self) -> (r: bool)
        ensures
            r == self@.can_error(),
        decreases self,
    {
        match self {
            Residual::Concrete { .. } => false,
            Residual::Error(_) => true,
            Residual::Partial { kind, .. } => {
                if kind.can_fail() {
                    return true;
                }
                let kids = kind.children();
                let mut i: usize = 0;
                while i < kids.len()
                    invariant
                        i <= kids@.len(),
                        kids@.len() == kind.kids().len(),
                        self.kids() == kind.kids(),
                        decreases_to!(self => kind),
                        forall|j: int|
                            #![trigger kids@[j]]
                            0 <= j < kids@.len() ==> *kids@[j] == kind.kids()[j] && decreases_to!(
                            *kind => *kids@[j]),
                        forall|j: int| 0 <= j < i ==> !(#[trigger] self@.kids[j]).can_error(),
                    decreases kids@.len() - i,
                {
                    let kid = kids[i];
                    if kid.can_error_assuming_well_formed() {
                        assert(self@.kids[i as int].can_error());
                        return true;
                    }
                    i += 1;
                }
                false
            },
        }
    }

    /// The outcomes of evaluating the residual and taking the result as a
    /// boolean. Every outcome that evaluation can have is in the set; the set
    /// is exact on `&&`, `||`, `if` and `!`, and goes by the type and by
    /// [`Residual::can_error_assuming_well_formed`] elsewhere.
    pub fn possible_bool_outcomes(&self) -> (r: Outcomes)
        ensures
            r@ == self@.outcomes(),
        decreases self,
    {
        match self {
            Residual::Concrete { value, .. } => match value {
                Val::Lit(Prim::Bool(b)) => Outcomes::literal(*b),
                _ => Outcomes::of(EvaluationOutcome::Error),
            },
            Residual::Error(_) => Outcomes::of(EvaluationOutcome::Error),
            Residual::Partial { kind, ty } => match kind {
                ResidualKind::And { left, right } => {
                    let l = left.possible_bool_outcomes();
                    let r = right.possible_bool_outcomes();
                    l.and(&r)
                },
                ResidualKind::Or { left, right } => {
                    let l = left.possible_bool_outcomes();
                    let r = right.possible_bool_outcomes();
                    l.or(&r)
                },
                ResidualKind::If { test_expr, then_expr, else_expr } => {
                    let c = test_expr.possible_bool_outcomes();
                    let t = then_expr.possible_bool_outcomes();
                    let e = else_expr.possible_bool_outcomes();
                    Outcomes::ite(&c, &t, &e)
                },
                ResidualKind::UnaryApp { op: UnaryOp::Not, arg } => {
                    arg.possible_bool_outcomes().negated()
                },
                _ => match ty {
                    Type::Bool(b) => {
                        let outcomes = match b {
                            BoolType::True => Outcomes::literal(true),
                            BoolType::False => Outcomes::literal(false),
                            BoolType::AnyBool => Outcomes::of(EvaluationOutcome::True).with(
                                EvaluationOutcome::False,
                            ),
                        };
                        let r = if self.can_error_assuming_well_formed() {
                            outcomes.with(EvaluationOutcome::Error)
                        } else {
                            outcomes
                        };
                        assert(r@ =~= RTree::outcomes_of_type(*ty, self@.can_error()));
                        r
                    },
                    _ => Outcomes::of(EvaluationOutcome::Error),
                },
            },
        }
    }
}

impl Tree {
    /// The value that the expression makes refers to the entity `u`. What an
    /// extension value is made of is not looked into.
    pub open spec fn value_mentions(self, u: (Seq<char>, Seq<char>)) -> bool
        decreases self,
    {
        match self.op {
            Op::Lit(Atomic::Uid(ty, eid)) => u == (ty, eid),
            Op::SetLit | Op::Record(_) => exists|i: int|
                0 <= i < self.kids.len() && (#[trigger] self.kids[i]).value_mentions(u),
            _ => false,
        }
    }
}

impl RTree {
    /// A literal of the residual refers to the entity `u`.
    pub open spec fn mentions(self, u: (Seq<char>, Seq<char>)) -> bool
        decreases self,
    {
        match self.node {
            RNode::Concrete(t) => t.value_mentions(u),
            RNode::Error => false,
            RNode::Partial(_) => Self::any_mentions(self.kids, u),
        }
    }

    /// One of `ts` refers to the entity `u`.
    pub open spec fn any_mentions(ts: Seq<RTree>, u: (Seq<char>, Seq<char>)) -> bool
        decreases ts,
    {
        exists|i: int| 0 <= i < ts.len() && (#[trigger] ts[i]).mentions(u)
    }
}

/// The names of the entities in `v`.
pub open spec fn names(v: Seq<EntityUid>) -> Seq<(Seq<char>, Seq<char>)> {
    v.map_values(|u: EntityUid| u@)
}

/// Adds `u` to `uids` unless it is there.
fn add_uid(uids: &mut Vec<EntityUid>, u: &EntityUid)
    requires
        names(old(uids)@).no_duplicates(),
    ensures
        names(final(uids)@).no_duplicates(),
        forall|x: (Seq<char>, Seq<char>)| #[trigger]
            names(final(uids)@).contains(x) <==> names(old(uids)@).contains(x) || x == u@,
{
    let mut i: usize = 0;
    while i < uids.len()
        invariant
            i <= uids@.len(),
            uids@ == old(uids)@,
            names(uids@).no_duplicates(),
            forall|j: int| 0 <= j < i ==> (#[trigger] uids@[j])@ != u@,
        decreases uids@.len() - i,
    {
        if uids[i] == *u {
            assert(names(uids@)[i as int] == u@);
            return ;
        }
        i += 1;
    }
    let ghost before = uids@;
    uids.push(u.dup());
    proof {
        let ns = names(before);
        assert(names(uids@) =~= ns.push(u@));
        assert forall|j: int| 0 <= j < ns.len() implies #[trigger] ns[j] != u@ by {
            assert(before[j]@ == ns[j]);
        }
        assert forall|x: (Seq<char>, Seq<char>)| #[trigger]
            names(uids@).contains(x) <==> ns.contains(x) || x == u@ by {
            if ns.contains(x) {
                let j = choose|j: int| 0 <= j < ns.len() && ns[j] == x;
                assert(names(uids@)[j] == x);
            }
            assert(names(uids@)[ns.len() as int] == u@);
        }
    }
}

impl Val {
    /// Adds to `uids` the entities that the value refers to.
    fn collect_uids(&self, uids: &mut Vec<EntityUid>)
        requires
            names(old(uids)@).no_duplicates(),
        ensures
            names(final(uids)@).no_duplicates(),
            forall|x: (Seq<char>, Seq<char>)| #[trigger]
                names(final(uids)@).contains(x) <==> names(old(uids)@).contains(x)
                    || self.tree().value_mentions(x),
        decreases self,
    {
        match self {
            Val::Lit(Prim::EntityUid(u)) => add_uid(uids, u),
            Val::Lit(_) | Val::Ext { .. } => {},
            Val::SetOf(_) | Val::RecordOf(_) => {
                let n = self.kid_count();
                let mut i: usize = 0;
                while i < n
                    invariant
                        i <= n,
                        n == self.kids().len(),
                        names(uids@).no_duplicates(),
                        forall|x: (Seq<char>, Seq<char>)| #[trigger]
                            names(uids@).contains(x) <==> names(old(uids)@).contains(x) || exists|
                                j: int,
                            |
                                0 <= j < i && (#[trigger] self.tree().kids[j]).value_mentions(x),
                    decreases n - i,
                {
                    let kid = self.kid(i);
                    kid.collect_uids(uids);
                    i += 1;
                }
            },
        }
    }

    /// The entities that the value refers to, each once.
    pub fn all_literal_uids(&self) -> (r: Vec<EntityUid>)
        ensures
            names(r@).no_duplicates(),
            forall|x: (Seq<char>, Seq<char>)| #[trigger]
                names(r@).contains(x) <==> self.tree().value_mentions(x),
    {
        let mut uids: Vec<EntityUid> = Vec::new();
        self.collect_uids(&mut uids);
        uids
    }
}

impl ResidualKind {
    /// What the children are.
    pub open spec fn parts(&self) -> Seq<RTree> {
        self.kids().map_values(|r: Residual| r@)
    }

    /// Adds to `uids` the entities that the children refer to.
    fn collect_uids(&self, uids: &mut Vec<EntityUid>)
        requires
            names(old(uids)@).no_duplicates(),
        ensures
            names(final(uids)@).no_duplicates(),
            forall|x: (Seq<char>, Seq<char>)| #[trigger]
                names(final(uids)@).contains(x) <==> names(old(uids)@).contains(x)
                    || RTree::any_mentions(self.parts(), x),
        decreases self,
    {
        let kids = self.children();
        let mut i: usize = 0;
        while i < kids.len()
            invariant
                i <= kids@.len(),
                kids@.len() == self.kids().len(),
                forall|j: int|
                    #![trigger kids@[j]]
                    0 <= j < kids@.len() ==> *kids@[j] == self.kids()[j] && decreases_to!(
                    *self => *kids@[j]),
                names(uids@).no_duplicates(),
                forall|x: (Seq<char>, Seq<char>)| #[trigger]
                    names(uids@).contains(x) <==> names(old(uids)@).contains(x) || exists|j: int|
                        0 <= j < i && (#[trigger] self.parts()[j]).mentions(x),
            decreases kids@.len() - i,
        {
            let kid = kids[i];
            assert(kid@ == self.parts()[i as int]);
            kid.collect_uids(uids);
            i += 1;
        }
    }

    /// The entities that the children refer to, each once.
    pub fn all_literal_uids(&self) -> (r: Vec<EntityUid>)
        ensures
            names(r@).no_duplicates(),
            forall|x: (Seq<char>, Seq<char>)| #[trigger]
                names(r@).contains(x) <==> RTree::any_mentions(self.parts(), x),
    {
        let mut uids: Vec<EntityUid> = Vec::new();
        self.collect_uids(&mut uids);
        uids
    }
}

impl Residual {
    /// Adds to `uids` the entities that the residual refers to.
    fn collect_uids(&self, uids: &mut Vec<EntityUid>)
        requires
            names(old(uids)@).no_duplicates(),
        ensures
            names(final(uids)@).no_duplicates(),
            forall|x: (Seq<char>, Seq<char>)| #[trigger]
                names(final(uids)@).contains(x) <==> names(old(uids)@).contains(x)
                    || self@.mentions(x),
        decreases self,
    {
        match self {
            Residual::Partial { kind, .. } => {
                assert(self@.kids =~= kind.parts());
                kind.collect_uids(uids);
            },
            Residual::Concrete { value, .. } => {
                value.collect_uids(uids);
            },
            Residual::Error(_) => {},
        }
    }

    /// The entities that the residual refers to, each once.
    pub fn all_literal_uids(&self) -> (r: Vec<EntityUid>)
        ensures
            names(r@).no_duplicates(),
            forall|x: (Seq<char>, Seq<char>)| #[trigger]
                names(r@).contains(x) <==> self@.mentions(x),
    {
        let mut uids: Vec<EntityUid> = Vec::new();
        self.collect_uids(&mut uids);
        uids
    }

    /// Whether the residual is the value `true`.
    pub fn is_true(&self) -> (r: bool)
        ensures
            r == (self@.node == RNode::Concrete(Tree::bool(true))),
    {
        match self {
            Residual::Concrete { value: Val::Lit(Prim::Bool(b)), .. } => {
                proof {
                    let t = self@.node->Concrete_0;
                    assert(t.kids =~= Seq::empty());
                    assert(t == Tree::bool(*b));
                    assert(Tree::bool(true).op != Tree::bool(false).op);
                }
                *b
            },
            _ => false,
        }
    }

    /// Whether the residual is the value `false`.
    pub fn is_false(&self) -> (r: bool)
        ensures
            r == (self@.node == RNode::Concrete(Tree::bool(false))),
    {
        match self {
            Residual::Concrete { value: Val::Lit(Prim::Bool(b)), .. } => {
                proof {
                    let t = self@.node->Concrete_0;
                    assert(t.kids =~= Seq::empty());
                    assert(t == Tree::bool(*b));
                    assert(Tree::bool(true).op != Tree::bool(false).op);
                }
                !*b
            },
            _ => false,
        }
    }

    /// Whether the residual is an error.
    pub fn is_error(&self) -> (r: bool)
        ensures
            r == (self@.node is Error),
    {
        match self {
            Residual::Error(_) => true,
            _ => false,
        }
    }

    /// Whether the residual is a value.
    pub fn is_concrete(&self) -> (r: bool)
        ensures
            r == (self@.node is Concrete),
    {
        match self {
            Residual::Concrete { .. } => true,
            _ => false,
        }
    }

    /// Whether the residual is partial.
    pub fn is_partial(&self) -> (r: bool)
        ensures
            r == (self@.node is Partial),
    {
        match self {
            Residual::Partial { .. } => true,
            _ => false,
        }
    }

    /// The value that the residual is, if it is one.
    pub fn into_value(self) -> (r: Result<Val, ()>)
        ensures
            match r {
                Ok(v) => self matches Residual::Concrete { value, .. } && v == value,
                Err(()) => !(self is Concrete),
            },
    {
        match self {
            Residual::Concrete { value, .. } => Ok(value),
            _ => Err(()),
        }
    }
}

impl Expr<Option<Type>> {
    /// The residual of the expression: literals and bound slots become
    /// values. The type of a node is looked at before its children, and the
    /// children from left to right.
    pub open spec fn residual(&self, env: SlotEnv) -> Result<RTree, ExprToResidualError>
        decreases self, 1nat, 0nat,
    {
        match self.data {
            None => Err(ExprToResidualError::MissingTypeAnnotation),
            Some(ty) => match self.kind {
                ExprKind::Lit(l) => Ok(
                    RTree { node: RNode::Concrete(Tree::leaf(Op::Lit(l@))), ty, kids: seq![] },
                ),
                ExprKind::Slot(slot) => match env.binding(slot) {
                    Some(u) => Ok(
                        RTree { node: RNode::Concrete(Tree::entity(u@)), ty, kids: seq![] },
                    ),
                    None => Err(ExprToResidualError::UnlinkedSlot { slot, loc: self.loc }),
                },
                ExprKind::Unknown(_) => Err(ExprToResidualError::UnknownNotSupported),
                _ => match self.residuals(env, self.kids().len()) {
                    Ok(kids) => Ok(RTree { node: RNode::Partial(self.op()), ty, kids }),
                    Err(e) => Err(e),
                },
            },
        }
    }

    /// The residuals of the first `n` children, or the first error.
    pub open spec fn residuals(&self, env: SlotEnv, n: nat) -> Result<
        Seq<RTree>,
        ExprToResidualError,
    >
        decreases self, 0nat, n,
        via Self::residuals_terminates
    {
        if n == 0 || n > self.kids().len() {
            Ok(seq![])
        } else {
            match self.residuals(env, (n - 1) as nat) {
                Ok(rs) => match self.kids()[n - 1].residual(env) {
                    Ok(r) => Ok(rs.push(r)),
                    Err(e) => Err(e),
                },
                Err(e) => Err(e),
            }
        }
    }

    #[via_fn]
    proof fn residuals_terminates(&self, env: SlotEnv, n: nat) {
        if n == 0 || n > self.kids().len() {
        } else {
            self.lemma_kid_decreases(n - 1);
        }
    }

    /// Once there is an error it stays.
    proof fn lemma_residuals_err(&self, env: SlotEnv, i: nat, n: nat)
        requires
            i <= n <= self.kids().len(),
            self.residuals(env, i) is Err,
        ensures
            self.residuals(env, n) == self.residuals(env, i),
        decreases n,
    {
        if i < n {
            self.lemma_residuals_err(env, i, (n - 1) as nat);
        }
    }
}

/// The partial expression with the operator of `e` and the children `new`.
fn partial(e: &Expr<Option<Type>>, new: Vec<Residual>) -> (r: ResidualKind)
    requires
        new@.len() == e.kids().len(),
        !(e.kind is Lit || e.kind is Slot || e.kind is Unknown),
    ensures
        r.op() == e.op(),
        r.kids() == new@,
{
    let ghost all = new@;
    let kind = match &e.kind {
        ExprKind::If { .. } => {
            let (test_expr, then_expr, else_expr) = three(new);
            ResidualKind::If { test_expr, then_expr, else_expr }
        },
        ExprKind::And { .. } => {
            let (left, right) = two(new);
            ResidualKind::And { left, right }
        },
        ExprKind::Or { .. } => {
            let (left, right) = two(new);
            ResidualKind::Or { left, right }
        },
        ExprKind::UnaryApp { op, .. } => ResidualKind::UnaryApp { op: *op, arg: one(new) },
        ExprKind::BinaryApp { op, .. } => {
            let (arg1, arg2) = two(new);
            ResidualKind::BinaryApp { op: *op, arg1, arg2 }
        },
        ExprKind::ExtensionFunctionApp { fn_name, .. } => ResidualKind::ExtensionFunctionApp {
            fn_name: fn_name.clone(),
            args: Arc::new(new),
        },
        ExprKind::GetAttr { attr, .. } => ResidualKind::GetAttr {
            expr: one(new),
            attr: attr.clone(),
        },
        ExprKind::HasAttr { attr, .. } => ResidualKind::HasAttr {
            expr: one(new),
            attr: attr.clone(),
        },
        ExprKind::Like { pattern, .. } => ResidualKind::Like {
            expr: one(new),
            pattern: share(pattern),
        },
        ExprKind::Is { entity_type, .. } => ResidualKind::Is {
            expr: one(new),
            entity_type: entity_type.clone(),
        },
        ExprKind::SetLit(_) => ResidualKind::SetLit(Arc::new(new)),
        ExprKind::Record(fields) => ResidualKind::Record(Arc::new(rename(fields, new))),
        ExprKind::Var(v) => ResidualKind::Var(*v),
        ExprKind::Lit(_) | ExprKind::Slot(_) | ExprKind::Unknown(_) => ResidualKind::SetLit(
            Arc::new(new),
        ),
    };
    assert(kind.kids() =~= all);
    assert(kind.op() =~= e.op());
    kind
}

impl Residual {
    /// The residual of a typed expression. Each slot becomes the entity that
    /// `env` binds it to.
    pub fn try_from_typed_expr(expr: &Expr<Option<Type>>, env: &SlotEnv) -> (r: Result<
        Residual,
        ExprToResidualError,
    >)
        ensures
            match r {
                Ok(x) => expr.residual(*env) == Ok::<RTree, ExprToResidualError>(x@),
                Err(e) => expr.residual(*env) == Err::<RTree, ExprToResidualError>(e),
            },
        decreases expr,
    {
        let ty = match &expr.data {
            Some(ty) => ty.dup(),
            None => return Err(ExprToResidualError::MissingTypeAnnotation),
        };
        match &expr.kind {
            ExprKind::Lit(l) => {
                let r = Residual::Concrete { value: Val::Lit(l.dup()), ty };
                proof {
                    let t = r@.node->Concrete_0;
                    assert(t.kids =~= Seq::empty());
                    assert(r@.kids =~= Seq::empty());
                }
                Ok(r)
            },
            ExprKind::Slot(slot) => match env.get(*slot) {
                Some(u) => {
                    let r = Residual::Concrete {
                        value: Val::Lit(Prim::EntityUid(u.dup())),
                        ty,
                    };
                    proof {
                        let t = r@.node->Concrete_0;
                        assert(t.kids =~= Seq::empty());
                        assert(r@.kids =~= Seq::empty());
                    }
                    Ok(r)
                },
                None => Err(ExprToResidualError::UnlinkedSlot { slot: *slot, loc: expr.loc }),
            },
            ExprKind::Unknown(_) => Err(ExprToResidualError::UnknownNotSupported),
            _ => {
                let n = expr.kid_count();
                let mut new: Vec<Residual> = Vec::new();
                assert(new@.map_values(|r: Residual| r@) =~= Seq::empty());
                let mut i: usize = 0;
                while i < n
                    invariant
                        i <= n,
                        n == expr.kids().len(),
                        new@.len() == i,
                        expr.residuals(*env, i as nat) == Ok::<Seq<RTree>, ExprToResidualError>(
                            new@.map_values(|r: Residual| r@),
                        ),
                        expr.data == Some(ty),
                        !(expr.kind is Lit || expr.kind is Slot || expr.kind is Unknown),
                    decreases n - i,
                {
                    match Self::try_from_typed_expr(expr.kid(i), env) {
                        Ok(r) => {
                            let ghost before = new@;
                            new.push(r);
                            assert(new@.map_values(|r: Residual| r@) =~= before.map_values(
                                |r: Residual| r@,
                            ).push(r@));
                        },
                        Err(e) => {
                            proof {
                                expr.lemma_residuals_err(*env, (i + 1) as nat, n as nat);
                            }
                            return Err(e);
                        },
                    }
                    i += 1;
                }
                let ghost all = new@;
                let r = Residual::Partial { kind: partial(expr, new), ty };
                assert(r@.kids =~= all.map_values(|r: Residual| r@));
                Ok(r)
            },
        }
    }
}

impl Tree {
    /// `&&` and `||` of two boolean literals is the literal that they give.
    pub open spec fn fold_literals(self) -> Tree {
        if (self.op == Op::And || self.op == Op::Or) && self.kids.len() == 2 {
            match (self.kids[0].op, self.kids[1].op) {
                (Op::Lit(Atomic::Bool(a)), Op::Lit(Atomic::Bool(b))) => Tree::bool(
                    if self.op == Op::And {
                        a && b
                    } else {
                        a || b
                    },
                ),
                _ => self,
            }
        } else {
            self
        }
    }
}

impl RTree {
    /// The residual as an expression. An error is a call of a function that
    /// does not exist.
    pub open spec fn expr_tree(self) -> Tree
        decreases self, 1nat,
    {
        match self.node {
            RNode::Concrete(t) => t,
            RNode::Error => Tree::leaf(Op::Call("error"@)),
            RNode::Partial(op) => self.apply(op).fold_literals(),
        }
    }

    /// `op` on the children as expressions.
    pub open spec fn apply(self, op: Op) -> Tree
        decreases self, 0nat,
    {
        Tree {
            op,
            kids: Seq::new(
                self.kids.len(),
                |i: int|
                    if 0 <= i < self.kids.len() {
                        self.kids[i].expr_tree()
                    } else {
                        arbitrary()
                    },
            ),
        }
    }
}

impl ResidualKind {
    /// The expression with the operator of `self` and the children `new`.
    fn rebuilt(&self, new: Vec<Expr<()>>) -> (r: Expr<()>)
        requires
            new@.len() == self.kids().len(),
        ensures
            r.tree() == (Tree { op: self.op(), kids: crate::ast::trees(new@) }).fold_literals(),
    {
        let ghost all = new@;
        let kind = match self {
            ResidualKind::Var(v) => ExprKind::Var(*v),
            ResidualKind::If { .. } => {
                let (test_expr, then_expr, else_expr) = three(new);
                ExprKind::If { test_expr, then_expr, else_expr }
            },
            ResidualKind::And { .. } => {
                let (left, right) = two(new);
                match (&left.kind, &right.kind) {
                    (ExprKind::Lit(Prim::Bool(a)), ExprKind::Lit(Prim::Bool(b))) => {
                        ExprKind::Lit(Prim::Bool(*a && *b))
                    },
                    _ => ExprKind::And { left, right },
                }
            },
            ResidualKind::Or { .. } => {
                let (left, right) = two(new);
                match (&left.kind, &right.kind) {
                    (ExprKind::Lit(Prim::Bool(a)), ExprKind::Lit(Prim::Bool(b))) => {
                        ExprKind::Lit(Prim::Bool(*a || *b))
                    },
                    _ => ExprKind::Or { left, right },
                }
            },
            ResidualKind::UnaryApp { op, .. } => ExprKind::UnaryApp { op: *op, arg: one(new) },
            ResidualKind::BinaryApp { op, .. } => {
                let (arg1, arg2) = two(new);
                ExprKind::BinaryApp { op: *op, arg1, arg2 }
            },
            ResidualKind::ExtensionFunctionApp { fn_name, .. } => ExprKind::ExtensionFunctionApp {
                fn_name: fn_name.clone(),
                args: Arc::new(new),
            },
            ResidualKind::GetAttr { attr, .. } => ExprKind::GetAttr {
                expr: one(new),
                attr: attr.clone(),
            },
            ResidualKind::HasAttr { attr, .. } => ExprKind::HasAttr {
                expr: one(new),
                attr: attr.clone(),
            },
            ResidualKind::Like { pattern, .. } => ExprKind::Like {
                expr: one(new),
                pattern: share(pattern),
            },
            ResidualKind::Is { entity_type, .. } => ExprKind::Is {
                expr: one(new),
                entity_type: entity_type.clone(),
            },
            ResidualKind::SetLit(_) => ExprKind::SetLit(Arc::new(new)),
            ResidualKind::Record(fields) => ExprKind::Record(Arc::new(rename(fields, new))),
        };
        let r = Expr { kind, loc: None, data: () };
        proof {
            let whole = Tree { op: self.op(), kids: crate::ast::trees(all) };
            if r.kids().len() == all.len() {
                assert(r.kids() =~= all);
                assert(r.op() =~= self.op());
                assert(r.tree().kids =~= whole.kids);
                assert(all.len() == 2 ==> whole.kids[0].op == all[0].op() && whole.kids[1].op
                    == all[1].op());
            } else {
                assert(all.len() == 2);
                assert(whole.kids[0].op == all[0].op());
                assert(whole.kids[1].op == all[1].op());
                assert(r.tree().kids =~= Seq::empty());
            }
        }
        r
    }
}

impl Residual {
    /// The residual as an expression.
    pub fn to_expr(&self) -> (r: Expr<()>)
        ensures
            r.tree() == self@.expr_tree(),
        decreases self,
    {
        match self {
            Residual::Partial { kind, .. } => {
                let kids = kind.children();
                let mut new: Vec<Expr<()>> = Vec::new();
                let mut i: usize = 0;
                while i < kids.len()
                    invariant
                        i <= kids@.len(),
                        kids@.len() == kind.kids().len(),
                        self.kids() == kind.kids(),
                        decreases_to!(self => kind),
                        forall|j: int|
                            #![trigger kids@[j]]
                            0 <= j < kids@.len() ==> *kids@[j] == kind.kids()[j] && decreases_to!(
                            *kind => *kids@[j]),
                        new@.len() == i,
                        forall|j: int|
                            0 <= j < i ==> (#[trigger] new@[j]).tree() == self@.kids[j].expr_tree(),
                    decreases kids@.len() - i,
                {
                    let kid = kids[i];
                    let e = kid.to_expr();
                    assert(kid@ == self@.kids[i as int]);
                    new.push(e);
                    i += 1;
                }
                assert(crate::ast::trees(new@) =~= self@.apply(kind.op()).kids);
                kind.rebuilt(new)
            },
            Residual::Concrete { value, .. } => value.to_expr(),
            Residual::Error(_) => {
                let r = Expr {
                    kind: ExprKind::ExtensionFunctionApp {
                        fn_name: "error".to_owned(),
                        args: Arc::new(Vec::new()),
                    },
                    loc: None,
                    data: (),
                };
                assert(r.tree().kids =~= Seq::empty());
                r
            },
        }
    }

    /// The policy whose condition is the residual, with an unconstrained
    /// scope.
    pub fn to_policy(
        self,
        id: String,
        effect: Effect,
        annotations: Arc<Vec<(String, String)>>,
    ) -> (r: Policy)
        ensures
            r.id == id,
            r.effect == effect,
            r.annotations == annotations,
            r.loc is None,
            r.principal is Any && r.action is Any && r.resource is Any,
            r.principal_slot is None && r.resource_slot is None,
            r@.when == Some(self@.expr_tree()),
    {
        Policy {
            id,
            effect,
            annotations,
            loc: None,
            principal: ScopeConstraint::Any,
            action: ActionConstraint::Any,
            resource: ScopeConstraint::Any,
            when: Some(Arc::new(self.to_expr())),
            principal_slot: None,
            resource_slot: None,
        }
    }
}

} // verus!
