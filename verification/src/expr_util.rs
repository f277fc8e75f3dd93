//! Structure-preserving rebuilds of [`Expr`] trees, shared by the modules
//! that carry their own per-node data.

use std::sync::Arc;

use vstd::prelude::*;

use crate::ast::{share, Data, Expr, ExprKind};
use crate::tree::Tree;

verus! {

/// The deepest expression the recursive conversions accept.
pub const MAX_NESTING: usize = 1_000;

/// Errors of the rebuild helpers.
#[derive(Clone, Copy, Debug)]
pub enum RebuildError {
    /// The children do not fit the node.
    Unsupported(&'static str),
}

/// Data with a value for nodes that nothing is known about.
pub trait Blank: Data {
    /// The value.
    spec fn blank_spec() -> Self;

    /// The value.
    fn blank() -> (r: Self)
        ensures
            r == Self::blank_spec(),
    ;
}

impl Blank for () {
    open spec fn blank_spec() -> () {
        ()
    }

    fn blank() -> (r: Self) {
    }
}

impl<V: Data> Blank for Option<V> {
    open spec fn blank_spec() -> Self {
        None
    }

    fn blank() -> (r: Self) {
        None
    }
}

impl<T> Expr<T> {
    /// `r` has the structure and the source locations of `self`, and `rel`
    /// holds between the data of corresponding nodes.
    pub open spec fn rebuilt_as<U>(&self, r: Expr<U>, rel: spec_fn(T, U) -> bool) -> bool
        decreases self,
        via Self::rebuilt_as_terminates::<U>
    {
        &&& r.op() == self.op()
        &&& r.loc == self.loc
        &&& rel(self.data, r.data)
        &&& r.kids().len() == self.kids().len()
        &&& forall|i: int|
            0 <= i < self.kids().len() ==> (#[trigger] self.kids()[i]).rebuilt_as(r.kids()[i], rel)
    }

    #[via_fn]
    proof fn rebuilt_as_terminates<U>(&self, r: Expr<U>, rel: spec_fn(T, U) -> bool) {
        assert forall|i: int| 0 <= i < self.kids().len() implies decreases_to!(
            self => #[trigger] self.kids()[i]
        ) by {
            self.lemma_kid_decreases(i);
        }
    }

    /// A rebuilt expression has the tree of the original.
    pub proof fn lemma_rebuilt_tree<U>(&self, r: Expr<U>, rel: spec_fn(T, U) -> bool)
        requires
            self.rebuilt_as(r, rel),
        ensures
            r.tree() == self.tree(),
        decreases self,
    {
        assert forall|i: int| 0 <= i < self.kids().len() implies r.tree().kids[i]
            == self.tree().kids[i] by {
            self.lemma_kid_decreases(i);
            self.kids()[i].lemma_rebuilt_tree(r.kids()[i], rel);
        }
        assert(r.tree().kids =~= self.tree().kids);
    }
}

/// Whatever `c` answers about an expression is what `f` says of it.
pub open spec fn computes<T, O, C: Fn(&Expr<T>) -> O>(c: &C, f: spec_fn(Expr<T>) -> O) -> bool {
    forall|e: Expr<T>, o: O| #[trigger] call_ensures(c, (&e,), o) ==> o == f(e)
}

/// The direct children of an expression, in evaluation order.
pub fn children<T>(e: &Expr<T>) -> (r: Vec<&Expr<T>>)
    ensures
        r@.len() == e.kids().len(),
        forall|i: int| 0 <= i < r@.len() ==> *(#[trigger] r@[i]) == e.kids()[i],
{
    let n = e.kid_count();
    let mut out: Vec<&Expr<T>> = Vec::new();
    let mut i: usize = 0;
    while i < n
        invariant
            i <= n,
            n == e.kids().len(),
            out@.len() == i,
            forall|j: int| 0 <= j < i ==> *(#[trigger] out@[j]) == e.kids()[j],
        decreases n - i,
    {
        out.push(e.kid(i));
        i += 1;
    }
    out
}

/// Pairs the names of `fields` with `values`, in order.
pub(crate) fn rename<A, V>(fields: &Vec<(String, A)>, values: Vec<V>) -> (r: Vec<(String, V)>)
    requires
        fields@.len() == values@.len(),
    ensures
        r@.len() == fields@.len(),
        forall|i: int| 0 <= i < r@.len() ==> (#[trigger] r@[i]).0 == fields@[i].0,
        forall|i: int| 0 <= i < r@.len() ==> (#[trigger] r@[i]).1 == values@[i],
{
    let ghost all = values@;
    let mut values = values;
    let mut out: Vec<(String, V)> = Vec::new();
    let mut i: usize = 0;
    while i < fields.len()
        invariant
            i <= fields@.len(),
            all.len() == fields@.len(),
            values@ == all.subrange(i as int, all.len() as int),
            out@.len() == i,
            forall|j: int| 0 <= j < i ==> (#[trigger] out@[j]).0 == fields@[j].0,
            forall|j: int| 0 <= j < i ==> (#[trigger] out@[j]).1 == all[j],
        decreases fields@.len() - i,
    {
        let v = values.remove(0);
        out.push((fields[i].0.clone(), v));
        i += 1;
        assert(values@ =~= all.subrange(i as int, all.len() as int));
    }
    out
}

/// The only element.
pub(crate) fn one<V>(new: Vec<V>) -> (r: Arc<V>)
    requires
        new@.len() == 1,
    ensures
        seq![*r] == new@,
{
    let mut new = new;
    let ghost all = new@;
    let a = new.remove(0);
    assert(seq![a] =~= all);
    Arc::new(a)
}

/// The only two elements.
pub(crate) fn two<V>(new: Vec<V>) -> (r: (Arc<V>, Arc<V>))
    requires
        new@.len() == 2,
    ensures
        seq![*r.0, *r.1] == new@,
{
    let mut new = new;
    let ghost all = new@;
    let b = new.remove(1);
    let a = new.remove(0);
    assert(seq![a, b] =~= all);
    (Arc::new(a), Arc::new(b))
}

/// The only three elements.
pub(crate) fn three<V>(new: Vec<V>) -> (r: (Arc<V>, Arc<V>, Arc<V>))
    requires
        new@.len() == 3,
    ensures
        seq![*r.0, *r.1, *r.2] == new@,
{
    let mut new = new;
    let ghost all = new@;
    let c = new.remove(2);
    let b = new.remove(1);
    let a = new.remove(0);
    assert(seq![a, b, c] =~= all);
    (Arc::new(a), Arc::new(b), Arc::new(c))
}

/// Rebuilds `e` with the children `new` and `data` at the root, preserving
/// the node's non-child parts and source location.
pub fn rebuild<T, U>(e: &Expr<T>, new: Vec<Expr<U>>, data: U) -> (x: Expr<U>)
    requires
        new@.len() == e.kids().len(),
    ensures
        x.op() == e.op(),
        x.kids() == new@,
        x.loc == e.loc,
        x.data == data,
        x.tree() == (Tree { op: e.op(), kids: new@.map_values(|c: Expr<U>| c.tree()) }),
{
    let ghost all = new@;
    let kind = match &e.kind {
        ExprKind::Lit(l) => ExprKind::Lit(l.dup()),
        ExprKind::Var(v) => ExprKind::Var(*v),
        ExprKind::Slot(s) => ExprKind::Slot(*s),
        ExprKind::Unknown(u) => ExprKind::Unknown(u.clone()),
        ExprKind::If { .. } => {
            let (test_expr, then_expr, else_expr) = three(new);
            ExprKind::If { test_expr, then_expr, else_expr }
        },
        ExprKind::And { .. } => {
            let (left, right) = two(new);
            ExprKind::And { left, right }
        },
        ExprKind::Or { .. } => {
            let (left, right) = two(new);
            ExprKind::Or { left, right }
        },
        ExprKind::UnaryApp { op, .. } => ExprKind::UnaryApp { op: *op, arg: one(new) },
        ExprKind::BinaryApp { op, .. } => {
            let (arg1, arg2) = two(new);
            ExprKind::BinaryApp { op: *op, arg1, arg2 }
        },
        ExprKind::ExtensionFunctionApp { fn_name, .. } => ExprKind::ExtensionFunctionApp {
            fn_name: fn_name.clone(),
            args: Arc::new(new),
        },
        ExprKind::GetAttr { attr, .. } => ExprKind::GetAttr { expr: one(new), attr: attr.clone() },
        ExprKind::HasAttr { attr, .. } => ExprKind::HasAttr { expr: one(new), attr: attr.clone() },
        ExprKind::Like { pattern, .. } => ExprKind::Like {
            expr: one(new),
            pattern: share(pattern),
        },
        ExprKind::Is { entity_type, .. } => ExprKind::Is {
            expr: one(new),
            entity_type: entity_type.clone(),
        },
        ExprKind::SetLit(_) => ExprKind::SetLit(Arc::new(new)),
        ExprKind::Record(fields) => ExprKind::Record(Arc::new(rename(fields, new))),
    };
    let x = Expr { kind, loc: e.loc, data };
    assert(x.kids() =~= all);
    assert(x.op() =~= e.op());
    assert(x.tree().kids =~= all.map_values(|c: Expr<U>| c.tree()));
    x
}

/// Rebuilds `e` with the given children, which must be as many as `e` has,
/// and `data` at the root, preserving the node's non-child parts and source
/// location.
pub fn with_children<T, U>(e: &Expr<T>, new: Vec<Expr<U>>, data: U) -> (r: Result<
    Expr<U>,
    RebuildError,
>)
    ensures
        match r {
            Ok(x) => {
                &&& new@.len() == e.kids().len()
                &&& x.op() == e.op()
                &&& x.kids() == new@
                &&& x.loc == e.loc
                &&& x.data == data
                &&& x.tree() == (Tree { op: e.op(), kids: new@.map_values(|c: Expr<U>| c.tree()) })
            },
            Err(RebuildError::Unsupported(what)) => if new@.len() < e.kids().len() {
                what == "missing child in rebuild"
            } else {
                new@.len() > e.kids().len() && what == "extra child in rebuild"
            },
        },
{
    let n = e.kid_count();
    if new.len() < n {
        Err(RebuildError::Unsupported("missing child in rebuild"))
    } else if new.len() > n {
        Err(RebuildError::Unsupported("extra child in rebuild"))
    } else {
        Ok(rebuild(e, new, data))
    }
}

/// Rebuilds `expr` with `data` at the root and the blank value at every other
/// node, preserving structure and source locations exactly.
pub fn with_data<T, U: Blank>(expr: &Expr<T>, data: U) -> (r: Expr<U>)
    ensures
        r.tree() == expr.tree(),
        r.data == data,
        expr.rebuilt_as(r, |t: T, u: U| true),
        forall|i: int|
            0 <= i < expr.kids().len() ==> (#[trigger] expr.kids()[i]).rebuilt_as(
                r.kids()[i],
                |t: T, u: U| u == U::blank_spec(),
            ),
    decreases expr,
{
    let n = expr.kid_count();
    let mut new: Vec<Expr<U>> = Vec::new();
    let mut i: usize = 0;
    while i < n
        invariant
            i <= n,
            n == expr.kids().len(),
            new@.len() == i,
            forall|j: int|
                0 <= j < i ==> (#[trigger] expr.kids()[j]).rebuilt_as(
                    new@[j],
                    |t: T, u: U| u == U::blank_spec(),
                ),
            forall|j: int|
                0 <= j < i ==> (#[trigger] expr.kids()[j]).rebuilt_as(new@[j], |t: T, u: U| true),
        decreases n - i,
    {
        let c = with_data(expr.kid(i), U::blank());
        new.push(c);
        i += 1;
    }
    let r = rebuild(expr, new, data);
    proof {
        expr.lemma_rebuilt_tree(r, |t: T, u: U| true);
    }
    r
}

/// Rebuilds `expr` with `f` applied to every node's data, preserving
/// structure and source locations exactly.
pub fn map_data<T, U, F: Fn(&T) -> U>(expr: &Expr<T>, f: &F) -> (r: Expr<U>)
    requires
        forall|t: T| call_requires(f, (&t,)),
    ensures
        r.tree() == expr.tree(),
        expr.rebuilt_as(r, |t: T, u: U| call_ensures(f, (&t,), u)),
    decreases expr,
{
    let ghost rel = |t: T, u: U| call_ensures(f, (&t,), u);
    let n = expr.kid_count();
    let mut new: Vec<Expr<U>> = Vec::new();
    let mut i: usize = 0;
    while i < n
        invariant
            i <= n,
            n == expr.kids().len(),
            new@.len() == i,
            forall|t: T| call_requires(f, (&t,)),
            rel == (|t: T, u: U| call_ensures(f, (&t,), u)),
            forall|j: int|
                0 <= j < i ==> (#[trigger] expr.kids()[j]).rebuilt_as(new@[j], rel),
        decreases n - i,
    {
        let c = map_data(expr.kid(i), f);
        new.push(c);
        i += 1;
    }
    let d = f(&expr.data);
    let r = rebuild(expr, new, d);
    assert(rel(expr.data, d));
    proof {
        expr.lemma_rebuilt_tree(r, rel);
    }
    r
}

/// Strips the data from an expression.
pub fn erase<T>(expr: &Expr<T>) -> (r: Expr<()>)
    ensures
        r.tree() == expr.tree(),
        expr.rebuilt_as(r, |t: T, u: ()| true),
{
    with_data(expr, ())
}

/// Whether `e` is at most `limit` nodes deep.
pub fn fits<T>(e: &Expr<T>, limit: usize) -> (r: bool)
    ensures
        r == e.tree().fits(limit as nat),
    decreases limit,
{
    if limit == 0 {
        return false;
    }
    let n = e.kid_count();
    let mut i: usize = 0;
    while i < n
        invariant
            i <= n,
            n == e.kids().len(),
            limit > 0,
            forall|j: int| 0 <= j < i ==> (#[trigger] e.tree().kids[j]).fits((limit - 1) as nat),
        decreases n - i,
    {
        if !fits(e.kid(i), limit - 1) {
            return false;
        }
        i += 1;
    }
    true
}

/// What is left of `budget` after the nodes of `e`; `None` if there are more
/// of them than that.
pub fn spend<T>(e: &Expr<T>, budget: usize) -> (r: Option<usize>)
    ensures
        match r {
            Some(rest) => e.tree().size() <= budget && rest == budget - e.tree().size(),
            None => e.tree().size() > budget,
        },
    decreases e,
{
    if budget == 0 {
        return None;
    }
    let mut rest: usize = budget - 1;
    let n = e.kid_count();
    let mut i: usize = 0;
    assert(e.tree().kids.subrange(0, n as int) =~= e.tree().kids);
    while i < n
        invariant
            i <= n,
            n == e.kids().len(),
            n == e.tree().kids.len(),
            e.tree().size() == budget - rest + Tree::sizes(
                e.tree().kids.subrange(i as int, n as int),
            ),
            rest < budget,
        decreases n - i,
    {
        let ghost tail = e.tree().kids.subrange(i as int, n as int);
        assert(tail.subrange(1, tail.len() as int) =~= e.tree().kids.subrange(
            i + 1,
            n as int,
        ));
        match spend(e.kid(i), rest) {
            Some(left) => {
                rest = left;
            },
            None => {
                return None;
            },
        }
        i += 1;
    }
    Some(rest)
}

} // verus!
