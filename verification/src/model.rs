//! What expressions evaluate to.
//!
//! The meaning of an expression is given relative to a [`World`]: the
//! request, the entities, and whatever of the operators the analyses treat as
//! opaque. A node evaluates its children from left to right and errs with the
//! first error; only `&&`, `||`, `if` and `iferror` leave children out.

use vstd::prelude::*;

use crate::ast::{BinaryOp, PatternElem, UnaryOp, Var};
use crate::outcome::EvaluationOutcome;
use crate::tree::{Atomic, Op, Tree};

verus! {

/// A value.
#[verifier::ext_equal]
pub enum Value {
    Bool(bool),
    Long(int),
    Str(Seq<char>),
    Uid(Seq<char>, Seq<char>),
    SetOf(Seq<Value>),
    RecordOf(Seq<(Seq<char>, Value)>),
    Ext(int),
}

/// What evaluation depends on besides the expression. Errors are told apart
/// by numbers.
pub struct World {
    /// The request variables.
    pub var: spec_fn(Var) -> Value,
    /// Whether the first entity is the second or one of its descendants.
    pub within: spec_fn((Seq<char>, Seq<char>), (Seq<char>, Seq<char>)) -> bool,
    /// The error of a value that has the wrong type for where it stands.
    pub type_error: spec_fn(Value) -> int,
    /// The error of an attribute that the record does not have.
    pub no_attr: spec_fn(Seq<char>) -> int,
    /// Whether the entity is in the store.
    pub there: spec_fn(Seq<char>, Seq<char>) -> bool,
    /// The operators that the analyses do not look into.
    pub opaque: spec_fn(Op, Seq<Value>) -> Result<Value, int>,
}

impl Atomic {
    /// The value of the literal.
    pub open spec fn value(self) -> Value {
        match self {
            Atomic::Bool(b) => Value::Bool(b),
            Atomic::Long(i) => Value::Long(i),
            Atomic::Str(s) => Value::Str(s),
            Atomic::Uid(t, e) => Value::Uid(t, e),
        }
    }
}

impl Value {
    /// `==` on values: total, across all types. Sets are equal when each
    /// element of one is equal to one of the other.
    pub open spec fn same(self, other: Value) -> bool
        decreases self, 0nat,
    {
        match (self, other) {
            (Value::Bool(a), Value::Bool(b)) => a == b,
            (Value::Long(a), Value::Long(b)) => a == b,
            (Value::Str(a), Value::Str(b)) => a == b,
            (Value::Uid(a, x), Value::Uid(b, y)) => a == b && x == y,
            (Value::SetOf(a), Value::SetOf(b)) => {
                &&& forall|i: int| 0 <= i < a.len() ==> (#[trigger] a[i]).has_equal(b)
                &&& forall|j: int| 0 <= j < b.len() ==> (#[trigger] b[j]).among(a)
            },
            (Value::RecordOf(a), Value::RecordOf(b)) => {
                &&& a.len() == b.len()
                &&& forall|i: int|
                    0 <= i < a.len() ==> (#[trigger] a[i]).0 == b[i].0 && a[i].1.same(b[i].1)
            },
            (Value::Ext(a), Value::Ext(b)) => a == b,
            _ => false,
        }
    }

    /// The value is equal to one of `elems`.
    pub open spec fn has_equal(self, elems: Seq<Value>) -> bool
        decreases self, 1nat,
    {
        exists|i: int| 0 <= i < elems.len() && self.same(#[trigger] elems[i])
    }

    /// One of `elems` is equal to the value.
    pub open spec fn among(self, elems: Seq<Value>) -> bool
        decreases elems, 0nat,
    {
        exists|i: int| 0 <= i < elems.len() && (#[trigger] elems[i]).same(self)
    }

    /// The values could have one type: they are of one kind, the elements of
    /// sets are alike across the two, and so are the fields of records that
    /// have the same name.
    pub open spec fn alike(self, other: Value) -> bool
        decreases self,
    {
        match (self, other) {
            (Value::Bool(_), Value::Bool(_)) => true,
            (Value::Long(_), Value::Long(_)) => true,
            (Value::Str(_), Value::Str(_)) => true,
            (Value::Uid(..), Value::Uid(..)) => true,
            (Value::SetOf(a), Value::SetOf(b)) => forall|i: int, j: int|
                0 <= i < a.len() && 0 <= j < b.len() ==> (#[trigger] a[i]).alike(#[trigger] b[j]),
            (Value::RecordOf(a), Value::RecordOf(b)) => forall|i: int, j: int|
                0 <= i < a.len() && 0 <= j < b.len() && (#[trigger] a[i]).0 == (#[trigger] b[j]).0
                    ==> a[i].1.alike(b[j].1),
            (Value::Ext(_), Value::Ext(_)) => true,
            _ => false,
        }
    }

    /// The value of the first field named `attr`, if there is one.
    pub open spec fn field(fields: Seq<(Seq<char>, Value)>, attr: Seq<char>) -> Option<Value>
        decreases fields.len(),
    {
        if fields.len() == 0 {
            None
        } else if fields[0].0 == attr {
            Some(fields[0].1)
        } else {
            Self::field(fields.drop_first(), attr)
        }
    }
}

/// The pattern matches the string: a wildcard stands for any characters, and
/// a character for itself.
pub open spec fn pattern_matches(p: Seq<PatternElem>, s: Seq<char>) -> bool
    decreases p.len() + s.len(),
{
    if p.len() == 0 {
        s.len() == 0
    } else {
        match p[0] {
            PatternElem::Char(c) => s.len() > 0 && s[0] == c && pattern_matches(
                p.drop_first(),
                s.drop_first(),
            ),
            PatternElem::Wildcard => pattern_matches(p.drop_first(), s) || (s.len() > 0
                && pattern_matches(p, s.drop_first())),
        }
    }
}

impl World {
    /// The boolean that `r` is; an error where it is another value.
    pub open spec fn as_bool(self, r: Result<Value, int>) -> Result<Value, int> {
        match r {
            Ok(Value::Bool(b)) => Ok(Value::Bool(b)),
            Ok(v) => Err((self.type_error)(v)),
            Err(e) => Err(e),
        }
    }

    /// The result of an operator on the values of its operands.
    pub open spec fn apply(self, op: Op, vs: Seq<Value>) -> Result<Value, int> {
        match op {
            Op::SetLit => Ok(Value::SetOf(vs)),
            Op::Record(keys) => Ok(
                Value::RecordOf(Seq::new(vs.len(), |i: int| (keys[i], vs[i]))),
            ),
            Op::Binary(b) => if vs.len() == 2 {
                self.apply_binary(b, vs[0], vs[1])
            } else {
                (self.opaque)(op, vs)
            },
            Op::Unary(UnaryOp::IsEmpty) => match vs[0] {
                Value::SetOf(s) => Ok(Value::Bool(s.len() == 0)),
                v => Err((self.type_error)(v)),
            },
            Op::GetAttr(a) => match vs[0] {
                Value::RecordOf(fs) => match Value::field(fs, a) {
                    Some(v) => Ok(v),
                    None => Err((self.no_attr)(a)),
                },
                _ => (self.opaque)(op, vs),
            },
            Op::HasAttr(a) => match vs[0] {
                Value::RecordOf(fs) => Ok(Value::Bool(Value::field(fs, a) is Some)),
                _ => (self.opaque)(op, vs),
            },
            Op::Like(p) => match vs[0] {
                Value::Str(s) => Ok(Value::Bool(pattern_matches(p, s))),
                v => Err((self.type_error)(v)),
            },
            _ => (self.opaque)(op, vs),
        }
    }

    /// The result of a binary operator.
    pub open spec fn apply_binary(self, b: BinaryOp, x: Value, y: Value) -> Result<Value, int> {
        match b {
            BinaryOp::Eq => Ok(Value::Bool(x.same(y))),
            BinaryOp::Contains => match x {
                Value::SetOf(s) => Ok(Value::Bool(y.among(s))),
                v => Err((self.type_error)(v)),
            },
            BinaryOp::ContainsAll => match (x, y) {
                (Value::SetOf(s), Value::SetOf(t)) => Ok(
                    Value::Bool(
                        forall|j: int| 0 <= j < t.len() ==> (#[trigger] t[j]).among(s),
                    ),
                ),
                (Value::SetOf(_), v) => Err((self.type_error)(v)),
                (v, _) => Err((self.type_error)(v)),
            },
            BinaryOp::ContainsAny => match (x, y) {
                (Value::SetOf(s), Value::SetOf(t)) => Ok(
                    Value::Bool(
                        exists|j: int| 0 <= j < t.len() && (#[trigger] t[j]).among(s),
                    ),
                ),
                (Value::SetOf(_), v) => Err((self.type_error)(v)),
                (v, _) => Err((self.type_error)(v)),
            },
            BinaryOp::In => match (x, y) {
                (Value::Uid(t, e), Value::Uid(u, f)) => Ok(
                    Value::Bool((self.within)((t, e), (u, f))),
                ),
                (Value::Uid(t, e), Value::SetOf(s)) => if forall|i: int|
                    0 <= i < s.len() ==> (#[trigger] s[i]) is Uid {
                    Ok(
                        Value::Bool(
                            exists|i: int|
                                0 <= i < s.len() && (self.within)(
                                    (t, e),
                                    ((#[trigger] s[i])->Uid_0, s[i]->Uid_1),
                                ),
                        ),
                    )
                } else {
                    Err((self.type_error)(y))
                },
                (Value::Uid(..), v) => Err((self.type_error)(v)),
                (v, _) => Err((self.type_error)(v)),
            },
            _ => (self.opaque)(Op::Binary(b), seq![x, y]),
        }
    }
}

impl Tree {
    /// What the expression evaluates to: a value or an error.
    pub open spec fn eval(self, w: World) -> Result<Value, int>
        decreases self,
    {
        if self.op is Lit {
            Ok(self.op->Lit_0.value())
        } else if self.op is Var {
            Ok((w.var)(self.op->Var_0))
        } else if self.op == Op::And && self.kids.len() == 2 {
            match self.kids[0].eval(w) {
                Ok(Value::Bool(true)) => w.as_bool(self.kids[1].eval(w)),
                r => w.as_bool(r),
            }
        } else if self.op == Op::Or && self.kids.len() == 2 {
            match self.kids[0].eval(w) {
                Ok(Value::Bool(false)) => w.as_bool(self.kids[1].eval(w)),
                r => w.as_bool(r),
            }
        } else if self.op == Op::Unary(UnaryOp::Not) && self.kids.len() == 1 {
            match self.kids[0].eval(w) {
                Ok(Value::Bool(b)) => Ok(Value::Bool(!b)),
                r => w.as_bool(r),
            }
        } else if self.op == Op::If && self.kids.len() == 3 {
            match self.kids[0].eval(w) {
                Ok(Value::Bool(true)) => self.kids[1].eval(w),
                Ok(Value::Bool(false)) => self.kids[2].eval(w),
                r => w.as_bool(r),
            }
        } else if self.is_iferror() && self.kids.len() == 2 {
            match self.kids[0].eval(w) {
                Err(_) => w.as_bool(self.kids[1].eval(w)),
                r => w.as_bool(r),
            }
        } else {
            match Tree::eval_all(self.kids, w) {
                Ok(vs) => w.apply(self.op, vs),
                Err(e) => Err(e),
            }
        }
    }

    /// The values of all of `ts`, or the first error.
    pub open spec fn eval_all(ts: Seq<Tree>, w: World) -> Result<Seq<Value>, int>
        decreases ts,
    {
        if ts.len() == 0 {
            Ok(seq![])
        } else {
            match Tree::eval_all(ts.drop_last(), w) {
                Ok(vs) => match ts.last().eval(w) {
                    Ok(v) => Ok(vs.push(v)),
                    Err(e) => Err(e),
                },
                Err(e) => Err(e),
            }
        }
    }

    /// The outcome of a boolean evaluation; a value of another type counts as
    /// an error.
    pub open spec fn outcome(self, w: World) -> EvaluationOutcome {
        match self.eval(w) {
            Ok(Value::Bool(b)) => EvaluationOutcome::of_bool(b),
            _ => EvaluationOutcome::Error,
        }
    }
}

impl World {
    /// The operands fit the operator: what is compared could have one type,
    /// and what should be a set, an entity or a string is one.
    pub open spec fn operands_fit(self, op: Op, vs: Seq<Value>) -> bool {
        match op {
            Op::Binary(BinaryOp::Eq) => vs[0].alike(vs[1]),
            Op::Binary(BinaryOp::Contains) => {
                &&& vs[0] is SetOf
                &&& forall|i: int|
                    0 <= i < vs[0]->SetOf_0.len() ==> (#[trigger] vs[0]->SetOf_0[i]).alike(vs[1])
            },
            Op::Binary(BinaryOp::ContainsAll) | Op::Binary(BinaryOp::ContainsAny) => {
                &&& vs[0] is SetOf
                &&& vs[1] is SetOf
                &&& vs[0].alike(vs[1])
            },
            Op::Binary(BinaryOp::In) => {
                &&& vs[0] is Uid
                &&& vs[1] is Uid || (vs[1] is SetOf && forall|i: int|
                    0 <= i < vs[1]->SetOf_0.len() ==> (#[trigger] vs[1]->SetOf_0[i]) is Uid)
            },
            Op::Like(_) => vs[0] is Str,
            _ => true,
        }
    }
}

impl Tree {
    /// The evaluation of the tree is well typed: wherever it applies an
    /// operator the operands fit it, and every value that comes up could be
    /// compared with itself (the elements of a set are of one type).
    pub open spec fn typed(self, w: World) -> bool
        decreases self,
    {
        &&& self.eval(w) matches Ok(v) ==> v.alike(v)
        &&& if self.op is Lit || self.op is Var {
            true
        } else if self.op == Op::And && self.kids.len() == 2 {
            &&& self.kids[0].typed(w)
            &&& self.kids[0].eval(w) == Ok::<Value, int>(Value::Bool(true)) ==> self.kids[1].typed(w)
        } else if self.op == Op::Or && self.kids.len() == 2 {
            &&& self.kids[0].typed(w)
            &&& self.kids[0].eval(w) == Ok::<Value, int>(Value::Bool(false)) ==> self.kids[1].typed(
                w,
            )
        } else if self.op == Op::Unary(UnaryOp::Not) && self.kids.len() == 1 {
            self.kids[0].typed(w)
        } else if self.op == Op::If && self.kids.len() == 3 {
            &&& self.kids[0].typed(w)
            &&& self.kids[0].eval(w) == Ok::<Value, int>(Value::Bool(true)) ==> self.kids[1].typed(w)
            &&& self.kids[0].eval(w) == Ok::<Value, int>(Value::Bool(false)) ==> self.kids[2].typed(
                w,
            )
        } else if self.is_iferror() && self.kids.len() == 2 {
            &&& self.kids[0].typed(w)
            &&& self.kids[0].eval(w) is Err ==> self.kids[1].typed(w)
        } else {
            &&& Tree::typed_all(self.kids, w)
            &&& Tree::eval_all(self.kids, w) matches Ok(vs) ==> w.operands_fit(self.op, vs)
        }
    }

    /// The evaluation of `ts`, one after the other up to the first error, is
    /// well typed.
    pub open spec fn typed_all(ts: Seq<Tree>, w: World) -> bool
        decreases ts,
    {
        ts.len() > 0 ==> {
            &&& Tree::typed_all(ts.drop_last(), w)
            &&& Tree::eval_all(ts.drop_last(), w) is Ok ==> ts.last().typed(w)
        }
    }
}

} // verus!
