//! Expressions.

use std::sync::Arc;

use vstd::prelude::*;

use crate::tree::{Atomic, Op, Tree};

verus! {

/// The request variables.
#[derive(Clone, Copy, Debug, PartialEq, Eq, Structural)]
pub enum Var {
    Principal,
    Action,
    Resource,
    Context,
}

/// The slots of a template.
#[derive(Clone, Copy, Debug, PartialEq, Eq, Structural)]
pub enum SlotId {
    Principal,
    Resource,
}

/// The unary operators.
#[derive(Clone, Copy, Debug, PartialEq, Eq, Structural)]
pub enum UnaryOp {
    Not,
    Neg,
    IsEmpty,
}

/// The binary operators.
#[derive(Clone, Copy, Debug, PartialEq, Eq, Structural)]
pub enum BinaryOp {
    Eq,
    Less,
    LessEq,
    Add,
    Sub,
    Mul,
    In,
    Contains,
    ContainsAll,
    ContainsAny,
    GetTag,
    HasTag,
}

/// One element of a `like` pattern.
#[derive(Clone, Copy, Debug, PartialEq, Eq, Structural)]
pub enum PatternElem {
    Char(char),
    Wildcard,
}

/// A range of the source text.
#[derive(Clone, Copy, Debug, PartialEq, Eq, Structural)]
pub struct Loc {
    pub start: usize,
    pub end: usize,
}

/// The name of an entity: its type and its id.
#[derive(Debug)]
pub struct EntityUid {
    pub ty: String,
    pub eid: String,
}

/// A literal constant.
#[derive(Debug)]
pub enum Prim {
    Bool(bool),
    Long(i64),
    String(String),
    EntityUid(EntityUid),
}

/// An expression whose nodes carry data of type `T`.
#[derive(Debug)]
pub struct Expr<T> {
    pub kind: ExprKind<T>,
    pub loc: Option<Loc>,
    pub data: T,
}

/// The node kinds of an [`Expr`].
#[allow(inconsistent_fields)]
#[derive(Debug)]
pub enum ExprKind<T> {
    /// A constant.
    Lit(Prim),
    /// A request variable.
    Var(Var),
    /// A template slot.
    Slot(SlotId),
    /// A value that is not known yet.
    Unknown(String),
    /// `if .. then .. else ..`
    If { test_expr: Arc<Expr<T>>, then_expr: Arc<Expr<T>>, else_expr: Arc<Expr<T>> },
    /// `&&`
    And { left: Arc<Expr<T>>, right: Arc<Expr<T>> },
    /// `||`
    Or { left: Arc<Expr<T>>, right: Arc<Expr<T>> },
    /// `!`, `-`, `.isEmpty()`
    UnaryApp { op: UnaryOp, arg: Arc<Expr<T>> },
    /// A binary operator.
    BinaryApp { op: BinaryOp, arg1: Arc<Expr<T>>, arg2: Arc<Expr<T>> },
    /// A call of an extension function.
    ExtensionFunctionApp { fn_name: String, args: Arc<Vec<Expr<T>>> },
    /// `.attr`
    GetAttr { expr: Arc<Expr<T>>, attr: String },
    /// `has attr`
    HasAttr { expr: Arc<Expr<T>>, attr: String },
    /// `like "pattern"`
    Like { expr: Arc<Expr<T>>, pattern: Arc<Vec<PatternElem>> },
    /// `is type`
    Is { expr: Arc<Expr<T>>, entity_type: String },
    /// A set literal.
    SetLit(Arc<Vec<Expr<T>>>),
    /// A record literal: its fields, in the order of their names, which are
    /// distinct (see [`ExprKind::record`]).
    Record(Arc<Vec<(String, Expr<T>)>>),
}

impl View for EntityUid {
    type V = (Seq<char>, Seq<char>);

    open spec fn view(&self) -> (Seq<char>, Seq<char>) {
        (self.ty@, self.eid@)
    }
}

impl View for Prim {
    type V = Atomic;

    open spec fn view(&self) -> Atomic {
        match self {
            Prim::Bool(b) => Atomic::Bool(*b),
            Prim::Long(i) => Atomic::Long(*i as int),
            Prim::String(s) => Atomic::Str(s@),
            Prim::EntityUid(u) => Atomic::Uid(u.ty@, u.eid@),
        }
    }
}

impl<T> Expr<T> {
    /// The operator at the root.
    pub open spec fn op(&self) -> Op {
        match self.kind {
            ExprKind::Lit(l) => Op::Lit(l@),
            ExprKind::Var(v) => Op::Var(v),
            ExprKind::Slot(s) => Op::Slot(s),
            ExprKind::Unknown(u) => Op::Unknown(u@),
            ExprKind::If { .. } => Op::If,
            ExprKind::And { .. } => Op::And,
            ExprKind::Or { .. } => Op::Or,
            ExprKind::UnaryApp { op, .. } => Op::Unary(op),
            ExprKind::BinaryApp { op, .. } => Op::Binary(op),
            ExprKind::ExtensionFunctionApp { fn_name, .. } => Op::Call(fn_name@),
            ExprKind::GetAttr { attr, .. } => Op::GetAttr(attr@),
            ExprKind::HasAttr { attr, .. } => Op::HasAttr(attr@),
            ExprKind::Like { pattern, .. } => Op::Like(pattern@),
            ExprKind::Is { entity_type, .. } => Op::Is(entity_type@),
            ExprKind::SetLit(_) => Op::SetLit,
            ExprKind::Record(fields) => Op::Record(
                Seq::new(fields@.len(), |i: int| fields@[i].0@),
            ),
        }
    }

    /// The children, in evaluation order.
    pub open spec fn kids(&self) -> Seq<Expr<T>> {
        match self.kind {
            ExprKind::Lit(_) | ExprKind::Var(_) | ExprKind::Slot(_) | ExprKind::Unknown(_) =>
                Seq::empty(),
            ExprKind::If { test_expr, then_expr, else_expr } =>
                seq![*test_expr, *then_expr, *else_expr],
            ExprKind::And { left, right } | ExprKind::Or { left, right } => seq![*left, *right],
            ExprKind::UnaryApp { arg, .. } => seq![*arg],
            ExprKind::BinaryApp { arg1, arg2, .. } => seq![*arg1, *arg2],
            ExprKind::ExtensionFunctionApp { args, .. } => args@,
            ExprKind::GetAttr { expr, .. } | ExprKind::HasAttr { expr, .. }
            | ExprKind::Like { expr, .. } | ExprKind::Is { expr, .. } => seq![*expr],
            ExprKind::SetLit(elems) => elems@,
            ExprKind::Record(fields) => Seq::new(fields@.len(), |i: int| fields@[i].1),
        }
    }

    /// A child is smaller than its parent.
    pub proof fn lemma_kid_decreases(&self, i: int)
        requires
            0 <= i < self.kids().len(),
        ensures
            decreases_to!(self => self.kids()[i]),
    {
        match self.kind {
            ExprKind::Lit(_) | ExprKind::Var(_) | ExprKind::Slot(_) | ExprKind::Unknown(_) => {},
            ExprKind::If { test_expr, then_expr, else_expr } => {
                assert(decreases_to!(self => *test_expr));
                assert(decreases_to!(self => *then_expr));
                assert(decreases_to!(self => *else_expr));
            },
            ExprKind::And { left, right } | ExprKind::Or { left, right } => {
                assert(decreases_to!(self => *left));
                assert(decreases_to!(self => *right));
            },
            ExprKind::UnaryApp { arg, .. } => {
                assert(decreases_to!(self => *arg));
            },
            ExprKind::BinaryApp { arg1, arg2, .. } => {
                assert(decreases_to!(self => *arg1));
                assert(decreases_to!(self => *arg2));
            },
            ExprKind::ExtensionFunctionApp { args, .. } => {
                assert(decreases_to!(self => args@));
                assert(decreases_to!(args@ => args@[i]));
            },
            ExprKind::GetAttr { expr, .. } | ExprKind::HasAttr { expr, .. }
            | ExprKind::Like { expr, .. } | ExprKind::Is { expr, .. } => {
                assert(decreases_to!(self => *expr));
            },
            ExprKind::SetLit(elems) => {
                assert(decreases_to!(self => elems@));
                assert(decreases_to!(elems@ => elems@[i]));
            },
            ExprKind::Record(fields) => {
                assert(decreases_to!(self => fields@));
                assert(decreases_to!(fields@ => fields@[i]));
                assert(decreases_to!(fields@[i] => fields@[i].1));
            },
        }
    }

    /// The tree of the expression.
    pub open spec fn tree(&self) -> Tree
        decreases self,
        via Self::tree_terminates
    {
        Tree {
            op: self.op(),
            kids: Seq::new(
                self.kids().len(),
                |i: int|
                    if 0 <= i < self.kids().len() {
                        self.kids()[i].tree()
                    } else {
                        arbitrary()
                    },
            ),
        }
    }

    #[via_fn]
    proof fn tree_terminates(&self) {
        assert forall|i: int| 0 <= i < self.kids().len() implies decreases_to!(
            self => #[trigger] self.kids()[i]
        ) by {
            self.lemma_kid_decreases(i);
        }
    }
}

/// The trees of `es`.
pub open spec fn trees<T>(es: Seq<Expr<T>>) -> Seq<Tree> {
    es.map_values(|e: Expr<T>| e.tree())
}

/// The trees of the expressions that `es` refers to.
pub open spec fn trees_of<T>(es: Seq<&Expr<T>>) -> Seq<Tree> {
    es.map_values(|e: &Expr<T>| e.tree())
}

/// Another handle on the value `a` points to.
///
/// Calls `Arc::clone`, which the standard library documents as making another
/// pointer to the same allocation; so the two handles hold the same value.
#[verifier::external_body]
pub(crate) fn share<V>(a: &Arc<V>) -> (r: Arc<V>)
    ensures
        r == *a,
{
    Arc::clone(a)
}

/// Per-node data that can be copied exactly.
pub trait Data: Sized {
    /// An exact copy.
    fn dup(&self) -> (r: Self)
        ensures
            r == *self,
    ;
}

impl Data for () {
    fn dup(&self) -> (r: Self) {
    }
}

impl EntityUid {
    /// The entity of type `ty` with id `eid`.
    pub fn new(ty: &str, eid: &str) -> (r: Self)
        ensures
            r@ == (ty@, eid@),
    {
        EntityUid { ty: ty.to_owned(), eid: eid.to_owned() }
    }
}

impl Data for EntityUid {
    fn dup(&self) -> (r: Self) {
        EntityUid { ty: self.ty.clone(), eid: self.eid.clone() }
    }
}

impl Data for Prim {
    fn dup(&self) -> (r: Self) {
        match self {
            Prim::Bool(b) => Prim::Bool(*b),
            Prim::Long(i) => Prim::Long(*i),
            Prim::String(s) => Prim::String(s.clone()),
            Prim::EntityUid(u) => Prim::EntityUid(u.dup()),
        }
    }
}

impl PartialEq for EntityUid {
    fn eq(&self, other: &Self) -> (r: bool) {
        self.ty == other.ty && self.eid == other.eid
    }
}

impl vstd::std_specs::cmp::PartialEqSpecImpl for EntityUid {
    open spec fn obeys_eq_spec() -> bool {
        true
    }

    open spec fn eq_spec(&self, other: &Self) -> bool {
        self@ == other@
    }
}

impl PartialEq for Prim {
    fn eq(&self, other: &Self) -> (r: bool) {
        match (self, other) {
            (Prim::Bool(a), Prim::Bool(b)) => *a == *b,
            (Prim::Long(a), Prim::Long(b)) => *a == *b,
            (Prim::String(a), Prim::String(b)) => *a == *b,
            (Prim::EntityUid(a), Prim::EntityUid(b)) => *a == *b,
            _ => false,
        }
    }
}

impl vstd::std_specs::cmp::PartialEqSpecImpl for Prim {
    open spec fn obeys_eq_spec() -> bool {
        true
    }

    open spec fn eq_spec(&self, other: &Self) -> bool {
        self@ == other@
    }
}

impl<T: Data> Data for ExprKind<T> {
    fn dup(&self) -> (r: Self) {
        match self {
            ExprKind::Lit(l) => ExprKind::Lit(l.dup()),
            ExprKind::Var(v) => ExprKind::Var(*v),
            ExprKind::Slot(s) => ExprKind::Slot(*s),
            ExprKind::Unknown(u) => ExprKind::Unknown(u.clone()),
            ExprKind::If { test_expr, then_expr, else_expr } => ExprKind::If {
                test_expr: share(test_expr),
                then_expr: share(then_expr),
                else_expr: share(else_expr),
            },
            ExprKind::And { left, right } => ExprKind::And {
                left: share(left),
                right: share(right),
            },
            ExprKind::Or { left, right } => ExprKind::Or { left: share(left), right: share(right) },
            ExprKind::UnaryApp { op, arg } => ExprKind::UnaryApp { op: *op, arg: share(arg) },
            ExprKind::BinaryApp { op, arg1, arg2 } => ExprKind::BinaryApp {
                op: *op,
                arg1: share(arg1),
                arg2: share(arg2),
            },
            ExprKind::ExtensionFunctionApp { fn_name, args } => ExprKind::ExtensionFunctionApp {
                fn_name: fn_name.clone(),
                args: share(args),
            },
            ExprKind::GetAttr { expr, attr } => ExprKind::GetAttr {
                expr: share(expr),
                attr: attr.clone(),
            },
            ExprKind::HasAttr { expr, attr } => ExprKind::HasAttr {
                expr: share(expr),
                attr: attr.clone(),
            },
            ExprKind::Like { expr, pattern } => ExprKind::Like {
                expr: share(expr),
                pattern: share(pattern),
            },
            ExprKind::Is { expr, entity_type } => ExprKind::Is {
                expr: share(expr),
                entity_type: entity_type.clone(),
            },
            ExprKind::SetLit(elems) => ExprKind::SetLit(share(elems)),
            ExprKind::Record(fields) => ExprKind::Record(share(fields)),
        }
    }
}

impl<T: Data> Data for Expr<T> {
    fn dup(&self) -> (r: Self) {
        Expr { kind: self.kind.dup(), loc: self.loc, data: self.data.dup() }
    }
}

impl<T> Expr<T> {
    /// The node kind.
    pub fn expr_kind(&self) -> (r: &ExprKind<T>)
        ensures
            *r == self.kind,
    {
        &self.kind
    }

    /// The data of the root.
    pub fn data(&self) -> (r: &T)
        ensures
            *r == self.data,
    {
        &self.data
    }

    /// The source location of the root, if known.
    pub fn source_loc(&self) -> (r: Option<Loc>)
        ensures
            r == self.loc,
    {
        self.loc
    }

    /// The number of children.
    pub fn kid_count(&self) -> (n: usize)
        ensures
            n == self.kids().len(),
    {
        match &self.kind {
            ExprKind::Lit(_) | ExprKind::Var(_) | ExprKind::Slot(_) | ExprKind::Unknown(_) => 0,
            ExprKind::If { .. } => 3,
            ExprKind::And { .. } | ExprKind::Or { .. } | ExprKind::BinaryApp { .. } => 2,
            ExprKind::UnaryApp { .. } | ExprKind::GetAttr { .. } | ExprKind::HasAttr { .. }
            | ExprKind::Like { .. } | ExprKind::Is { .. } => 1,
            ExprKind::ExtensionFunctionApp { args, .. } => args.len(),
            ExprKind::SetLit(elems) => elems.len(),
            ExprKind::Record(fields) => fields.len(),
        }
    }

    /// The child at position `i`.
    pub fn kid(&self, i: usize) -> (r: &Expr<T>)
        requires
            i < self.kids().len(),
        ensures
            *r == self.kids()[i as int],
            decreases_to!(*self => *r),
            r.tree() == self.tree().kids[i as int],
    {
        proof {
            self.lemma_kid_decreases(i as int);
        }
        match &self.kind {
            ExprKind::If { test_expr, then_expr, else_expr } => if i == 0 {
                &**test_expr
            } else if i == 1 {
                &**then_expr
            } else {
                &**else_expr
            },
            ExprKind::And { left, right } | ExprKind::Or { left, right } => if i == 0 {
                &**left
            } else {
                &**right
            },
            ExprKind::UnaryApp { arg, .. } => &**arg,
            ExprKind::BinaryApp { arg1, arg2, .. } => if i == 0 {
                &**arg1
            } else {
                &**arg2
            },
            ExprKind::ExtensionFunctionApp { args, .. } => &args[i],
            ExprKind::GetAttr { expr, .. } | ExprKind::HasAttr { expr, .. }
            | ExprKind::Like { expr, .. } | ExprKind::Is { expr, .. } => &**expr,
            ExprKind::SetLit(elems) => &elems[i],
            ExprKind::Record(fields) => &fields[i].1,
            ExprKind::Lit(_) | ExprKind::Var(_) | ExprKind::Slot(_) | ExprKind::Unknown(_) => self,
        }
    }
}

/// Whether the patterns `a` and `b` are the same.
fn same_pattern(a: &Vec<PatternElem>, b: &Vec<PatternElem>) -> (r: bool)
    ensures
        r == (a@ == b@),
{
    if a.len() != b.len() {
        return false;
    }
    let mut i: usize = 0;
    while i < a.len()
        invariant
            i <= a.len(),
            a.len() == b.len(),
            forall|j: int| 0 <= j < i ==> a@[j] == b@[j],
        decreases a.len() - i,
    {
        if a[i] != b[i] {
            return false;
        }
        i += 1;
    }
    assert(a@ =~= b@);
    true
}

/// Whether the fields `a` and `b` have the same names.
fn same_keys<T, U>(a: &Vec<(String, Expr<T>)>, b: &Vec<(String, Expr<U>)>) -> (r: bool)
    ensures
        r == (Seq::new(a@.len(), |i: int| a@[i].0@) == Seq::new(b@.len(), |i: int| b@[i].0@)),
{
    let ghost ka = Seq::new(a@.len(), |i: int| a@[i].0@);
    let ghost kb = Seq::new(b@.len(), |i: int| b@[i].0@);
    if a.len() != b.len() {
        assert(ka.len() != kb.len());
        return false;
    }
    let mut i: usize = 0;
    while i < a.len()
        invariant
            i <= a.len(),
            a.len() == b.len(),
            ka == Seq::new(a@.len(), |i: int| a@[i].0@),
            kb == Seq::new(b@.len(), |i: int| b@[i].0@),
            forall|j: int| 0 <= j < i ==> ka[j] == kb[j],
        decreases a.len() - i,
    {
        if a[i].0 != b[i].0 {
            assert(ka[i as int] != kb[i as int]);
            return false;
        }
        i += 1;
    }
    assert(ka =~= kb);
    true
}

/// Whether the roots of `a` and `b` have the same operator.
fn same_op<T, U>(a: &Expr<T>, b: &Expr<U>) -> (r: bool)
    ensures
        r == (a.op() == b.op()),
{
    match (&a.kind, &b.kind) {
        (ExprKind::Lit(x), ExprKind::Lit(y)) => *x == *y,
        (ExprKind::Var(x), ExprKind::Var(y)) => *x == *y,
        (ExprKind::Slot(x), ExprKind::Slot(y)) => *x == *y,
        (ExprKind::Unknown(x), ExprKind::Unknown(y)) => *x == *y,
        (ExprKind::If { .. }, ExprKind::If { .. }) => true,
        (ExprKind::And { .. }, ExprKind::And { .. }) => true,
        (ExprKind::Or { .. }, ExprKind::Or { .. }) => true,
        (ExprKind::UnaryApp { op: x, .. }, ExprKind::UnaryApp { op: y, .. }) => *x == *y,
        (ExprKind::BinaryApp { op: x, .. }, ExprKind::BinaryApp { op: y, .. }) => *x == *y,
        (
            ExprKind::ExtensionFunctionApp { fn_name: x, .. },
            ExprKind::ExtensionFunctionApp { fn_name: y, .. },
        ) => *x == *y,
        (ExprKind::GetAttr { attr: x, .. }, ExprKind::GetAttr { attr: y, .. }) => *x == *y,
        (ExprKind::HasAttr { attr: x, .. }, ExprKind::HasAttr { attr: y, .. }) => *x == *y,
        (ExprKind::Like { pattern: x, .. }, ExprKind::Like { pattern: y, .. }) => same_pattern(
            x,
            y,
        ),
        (ExprKind::Is { entity_type: x, .. }, ExprKind::Is { entity_type: y, .. }) => *x == *y,
        (ExprKind::SetLit(_), ExprKind::SetLit(_)) => true,
        (ExprKind::Record(x), ExprKind::Record(y)) => same_keys(x, y),
        _ => false,
    }
}

/// Whether `a` and `b` are structurally equal, ignoring data and source
/// locations.
pub fn same<T, U>(a: &Expr<T>, b: &Expr<U>) -> (r: bool)
    ensures
        r == (a.tree() == b.tree()),
    decreases a,
{
    if !same_op(a, b) {
        return false;
    }
    let n = a.kid_count();
    if n != b.kid_count() {
        assert(a.tree().kids.len() != b.tree().kids.len());
        return false;
    }
    let mut i: usize = 0;
    while i < n
        invariant
            i <= n,
            n == a.kids().len(),
            n == b.kids().len(),
            forall|j: int| 0 <= j < i ==> a.tree().kids[j] == b.tree().kids[j],
        decreases n - i,
    {
        let x = a.kid(i);
        let y = b.kid(i);
        if !same(x, y) {
            return false;
        }
        i += 1;
    }
    assert(a.tree().kids =~= b.tree().kids);
    true
}

impl<T> PartialEq for Expr<T> {
    /// Structural equality, ignoring data and source locations.
    fn eq(&self, other: &Self) -> (r: bool) {
        same(self, other)
    }
}

impl<T> vstd::std_specs::cmp::PartialEqSpecImpl for Expr<T> {
    open spec fn obeys_eq_spec() -> bool {
        true
    }

    open spec fn eq_spec(&self, other: &Self) -> bool {
        self.tree() == other.tree()
    }
}

/// The names of `fields`.
pub open spec fn names_of<A>(fields: Seq<(String, A)>) -> Seq<Seq<char>> {
    Seq::new(fields.len(), |i: int| fields[i].0@)
}

impl<T> ExprKind<T> {
    /// The record literal with `fields`, which it lists in the order of their
    /// names; a name that two of them have, if there is one.
    pub fn record(fields: Vec<(String, Expr<T>)>) -> (r: Result<ExprKind<T>, String>)
        ensures
            match r {
                Ok(k) => {
                    &&& k is Record
                    &&& crate::tree::in_order(names_of(k->Record_0@))
                    &&& k->Record_0@.to_multiset() == fields@.to_multiset()
                },
                Err(name) => exists|i: int, j: int|
                    0 <= i < j < fields@.len() && (#[trigger] fields@[i]).0@ == name@ && (
                    #[trigger] fields@[j]).0@ == name@,
            },
    {
        let ghost all = fields@;
        let mut rest = fields;
        let mut out: Vec<(String, Expr<T>)> = Vec::new();
        let ghost mut done: int = 0;
        assert(all.skip(0) =~= all);
        assert(all.take(0) =~= out@);
        while rest.len() > 0
            invariant
                all == fields@,
                0 <= done <= all.len(),
                rest@ == all.skip(done),
                crate::tree::in_order(names_of(out@)),
                out@.to_multiset() == all.take(done).to_multiset(),
            decreases rest@.len(),
        {
            let field = rest.remove(0);
            assert(field == all[done]);
            let mut at: usize = out.len();
            while at > 0 && crate::text::before(&field.0, &out[at - 1].0)
                invariant
                    at <= out@.len(),
                    forall|i: int|
                        at <= i < out@.len() ==> crate::text::comes_before(
                            field.0@,
                            (#[trigger] out@[i]).0@,
                        ),
                decreases at,
            {
                at -= 1;
            }
            if at > 0 && out[at - 1].0 == field.0 {
                proof {
                    let seen = out@[at - 1];
                    out@.to_multiset_ensures();
                    all.take(done).to_multiset_ensures();
                    assert(out@.contains(seen));
                    assert(out@.to_multiset().count(seen) > 0);
                    assert(all.take(done).contains(seen));
                    let i = choose|i: int| 0 <= i < done && all.take(done)[i] == seen;
                    assert(all[i].0@ == field.0@);
                    assert(all[done].0@ == field.0@);
                }
                return Err(field.0);
            }
            proof {
                lemma_insert_in_order(out@, at as int, field);
                vstd::seq_lib::to_multiset_insert(out@, at as int, field);
                vstd::seq_lib::to_multiset_build(all.take(done), field);
                assert(all.take(done + 1) =~= all.take(done).push(field));
                assert(rest@ =~= all.skip(done + 1));
                done = done + 1;
            }
            out.insert(at, field);
        }
        assert(all.take(done) =~= all);
        Ok(ExprKind::Record(Arc::new(out)))
    }
}

/// A field put after those whose names come before its own, and before those
/// whose names come after, keeps the order.
proof fn lemma_insert_in_order<A>(fields: Seq<(String, A)>, at: int, field: (String, A))
    requires
        crate::tree::in_order(names_of(fields)),
        0 <= at <= fields.len(),
        forall|i: int|
            at <= i < fields.len() ==> crate::text::comes_before(
                field.0@,
                (#[trigger] fields[i]).0@,
            ),
        at > 0 ==> !crate::text::comes_before(field.0@, fields[at - 1].0@) && fields[at - 1].0@
            != field.0@,
    ensures
        crate::tree::in_order(names_of(fields.insert(at, field))),
{
    let names = names_of(fields);
    let r = names_of(fields.insert(at, field));
    assert forall|i: int, j: int| 0 <= i < j < r.len() implies crate::text::comes_before(
        #[trigger] r[i],
        #[trigger] r[j],
    ) by {
        let a = if i < at {
            i
        } else {
            i - 1
        };
        let b = if j < at {
            j
        } else {
            j - 1
        };
        if i == at {
            assert(r[j] == fields[b].0@);
        } else if j == at {
            crate::text::lemma_before_total(field.0@, fields[at - 1].0@);
            assert(names[at - 1] == fields[at - 1].0@);
            assert(r[i] == names[i]);
            if i < at - 1 {
                assert(crate::text::comes_before(names[i], names[at - 1]));
                crate::text::lemma_before_trans(names[i], names[at - 1], field.0@);
            }
        } else {
            assert(r[i] == names[a] && r[j] == names[b]);
        }
    }
}

} // verus!
