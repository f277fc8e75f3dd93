//! What the outcomes of a residual say of its evaluation.

use vstd::prelude::*;

use crate::ast::{BinaryOp, Expr, ExprKind, UnaryOp};
use crate::model::{Value, World};
use crate::outcome::EvaluationOutcome;
use crate::residual::{ExprToResidualError, RNode, RTree};
use crate::slots::SlotEnv;
use crate::tree::{Atomic, Op, Tree};
use crate::types::{BoolType, Type};

verus! {

impl Value {
    /// The value has the type.
    pub open spec fn has_type(self, ty: Type) -> bool
        decreases self,
    {
        match ty {
            Type::Never => false,
            Type::Bool(b) => self is Bool && match b {
                BoolType::AnyBool => true,
                BoolType::True => self->Bool_0,
                BoolType::False => !self->Bool_0,
            },
            Type::Long => self is Long,
            Type::String => self is Str,
            Type::SetOf(elem) => match self {
                Value::SetOf(vs) => match elem {
                    Some(t) => forall|i: int| 0 <= i < vs.len() ==> (#[trigger] vs[i]).has_type(*t),
                    None => vs.len() == 0,
                },
                _ => false,
            },
            Type::Entity(tys) => match self {
                Value::Uid(t, _) => exists|i: int| 0 <= i < tys@.len() && (#[trigger] tys@[i])@ == t,
                _ => false,
            },
            Type::RecordOf(attrs) => match self {
                Value::RecordOf(fs) => {
                    &&& forall|i: int|
                        0 <= i < fs.len() ==> exists|j: int|
                            0 <= j < attrs@.len() && (#[trigger] attrs@[j]).0@ == (#[trigger] fs[i]).0
                                && fs[i].1.has_type(attrs@[j].1)
                    &&& forall|j: int|
                        0 <= j < attrs@.len() && (#[trigger] attrs@[j]).2 ==> Value::field(
                            fs,
                            attrs@[j].0@,
                        ) is Some
                },
                _ => false,
            },
            Type::Extension(_) => self is Ext,
        }
    }
}

impl World {
    /// The operators that the analyses do not look into give a value where the
    /// language says that they do: two integers can be compared, an entity
    /// can be asked for its type, its attributes and its tags, whether it
    /// exists or not. There is no function `error`.
    pub open spec fn operators_work(self) -> bool {
        &&& forall|op: Op, vs: Seq<Value>|
            Value::answered(op, vs) ==> (#[trigger] (self.opaque)(op, vs)) is Ok
        &&& (self.opaque)(Op::Call("error"@), seq![]) is Err
    }
}

impl Value {
    /// `op` is an operator that always has an answer on operands like `vs`.
    pub open spec fn answered(op: Op, vs: Seq<Value>) -> bool {
        match op {
            Op::Binary(BinaryOp::Less) | Op::Binary(BinaryOp::LessEq) => vs.len() == 2 && vs[0]
                is Long && vs[1] is Long,
            Op::Binary(BinaryOp::HasTag) => vs.len() == 2 && vs[0] is Uid && vs[1] is Str,
            Op::HasAttr(_) | Op::Is(_) => vs.len() == 1 && vs[0] is Uid,
            _ => false,
        }
    }
}

impl RTree {
    /// The root is `&&`, `||`, `!` or `if`, with its operands.
    pub open spec fn is_structure(self) -> bool {
        match self.node {
            RNode::Partial(op) => {
                ||| (op == Op::And || op == Op::Or) && self.kids.len() == 2
                ||| op == Op::If && self.kids.len() == 3
                ||| op == Op::Unary(UnaryOp::Not) && self.kids.len() == 1
            },
            _ => false,
        }
    }

    /// The outcome of the expression on an input.
    pub open spec fn outcome(self, w: World) -> EvaluationOutcome {
        self.expr_tree().outcome(w)
    }

    /// The types of the operands are those that validation asks of the
    /// operator.
    pub open spec fn operands_validate(self, op: Op) -> bool {
        let k = self.kids;
        &&& op.takes(k.len())
        &&& match op {
            Op::And | Op::Or => k[0].ty is Bool && k[1].ty is Bool,
            Op::If => k[0].ty is Bool,
            Op::Unary(UnaryOp::Not) => k[0].ty is Bool,
            Op::Unary(UnaryOp::IsEmpty) => k[0].ty is SetOf,
            Op::Binary(BinaryOp::Less) | Op::Binary(BinaryOp::LessEq) => {
                ||| k[0].ty is Long && k[1].ty is Long
                ||| k[0].ty is Extension && k[1].ty is Extension
            },
            Op::Binary(BinaryOp::In) => k[0].ty is Entity && match k[1].ty {
                Type::Entity(_) => true,
                Type::SetOf(Some(t)) => *t is Entity,
                Type::SetOf(None) => true,
                _ => false,
            },
            Op::Binary(BinaryOp::Contains) => k[0].ty is SetOf,
            Op::Binary(BinaryOp::ContainsAll) | Op::Binary(BinaryOp::ContainsAny) => k[0].ty
                is SetOf && k[1].ty is SetOf,
            Op::Binary(BinaryOp::HasTag) => k[0].ty is Entity && k[1].ty is String,
            Op::HasAttr(_) => k[0].ty is Entity || k[0].ty is RecordOf,
            Op::Like(_) => k[0].ty is String,
            Op::Is(_) => k[0].ty is Entity,
            Op::Slot(_) | Op::Unknown(_) => false,
            _ => true,
        }
    }

    /// The residual is well typed on the input, as validation promises: the
    /// operands of every operator that evaluation reaches have the types that
    /// it asks for, and where such a part evaluates to a value, the value has
    /// the type of the part. Which values of extension types can be compared
    /// is up to those types: the comparison of two that validates gives a
    /// value.
    pub open spec fn well_typed(self, w: World) -> bool
        decreases self,
    {
        &&& self.expr_tree().eval(w) matches Ok(v) ==> v.has_type(self.ty)
        &&& match self.node {
            RNode::Concrete(t) => t.eval(w) matches Ok(v) && (v is Bool ==> t.op is Lit),
            RNode::Error => true,
            RNode::Partial(op) => {
                &&& self.operands_validate(op)
                &&& if op == Op::And {
                    &&& self.kids[0].well_typed(w)
                    &&& self.kids[0].outcome(w) is True ==> self.kids[1].well_typed(w)
                } else if op == Op::Or {
                    &&& self.kids[0].well_typed(w)
                    &&& self.kids[0].outcome(w) is False ==> self.kids[1].well_typed(w)
                } else if op == Op::If {
                    &&& self.kids[0].well_typed(w)
                    &&& self.kids[0].outcome(w) is True ==> self.kids[1].well_typed(w)
                    &&& self.kids[0].outcome(w) is False ==> self.kids[2].well_typed(w)
                } else if op is Call {
                    true
                } else {
                    &&& forall|i: int|
                        0 <= i < self.kids.len() && self.evaluates_upto(i, w) ==> (
                        #[trigger] self.kids[i]).well_typed(w)
                    &&& (op == Op::Binary(BinaryOp::Less) || op == Op::Binary(BinaryOp::LessEq))
                        && self.kids[0].ty is Extension ==> (Tree::eval_all(
                        self.apply(op).kids,
                        w,
                    ) matches Ok(vs) ==> w.apply(op, vs) is Ok)
                }
            },
        }
    }

    /// The operands before the `i`th evaluate to values.
    pub open spec fn evaluates_upto(self, i: int, w: World) -> bool {
        forall|j: int| 0 <= j < i ==> (#[trigger] self.kids[j]).expr_tree().eval(w) is Ok
    }

    /// Folding literals does not change the value.
    proof fn lemma_fold_literals(t: Tree, w: World)
        ensures
            t.fold_literals().eval(w) == t.eval(w),
    {
        if t.kids.len() == 2 && t.kids[0].op is Lit && t.kids[1].op is Lit {
            assert(t.kids[0].eval(w) == Ok::<Value, int>(t.kids[0].op->Lit_0.value()));
            assert(t.kids[1].eval(w) == Ok::<Value, int>(t.kids[1].op->Lit_0.value()));
            assert(t.fold_literals().op is Lit ==> t.fold_literals().eval(w) == Ok::<Value, int>(
                t.fold_literals().op->Lit_0.value(),
            ));
        }
    }

    /// What the children of `&&`, `||`, `!` and `if` are as expressions.
    proof fn lemma_apply(self, op: Op)
        ensures
            self.apply(op).op == op,
            self.apply(op).kids.len() == self.kids.len(),
            forall|i: int|
                0 <= i < self.kids.len() ==> #[trigger] self.apply(op).kids[i]
                    == self.kids[i].expr_tree(),
    {
    }

    /// The possible outcomes are an over-approximation: where the residual is
    /// well typed, the outcome of evaluation is one of them.
    pub proof fn law_outcomes_are_sound(self, w: World)
        requires
            w.operators_work(),
            self.well_typed(w),
        ensures
            self.outcomes().contains(self.outcome(w)),
        decreases self,
    {
        if self.is_structure() {
            let op = self.node->Partial_0;
            let t = self.apply(op);
            self.lemma_apply(op);
            Self::lemma_fold_literals(t, w);
            assert(t.kids[0] == self.kids[0].expr_tree());
            self.kids[0].law_outcomes_are_sound(w);
            let first = self.kids[0].outcome(w);
            if op == Op::If {
                assert(t.kids[1] == self.kids[1].expr_tree());
                assert(t.kids[2] == self.kids[2].expr_tree());
                if first is True {
                    self.kids[1].law_outcomes_are_sound(w);
                } else if first is False {
                    self.kids[2].law_outcomes_are_sound(w);
                }
            } else if op == Op::And {
                assert(t.kids[1] == self.kids[1].expr_tree());
                if first is True {
                    self.kids[1].law_outcomes_are_sound(w);
                }
            } else if op == Op::Or {
                assert(t.kids[1] == self.kids[1].expr_tree());
                if first is False {
                    self.kids[1].law_outcomes_are_sound(w);
                }
            } else {
                assert(self.outcome(w) == first.flip());
                assert(first.flip().flip() == first);
            }
        } else {
            match self.node {
                RNode::Concrete(t) => {},
                RNode::Error => {
                    assert(Tree::eval_all(self.expr_tree().kids, w) == Ok::<Seq<Value>, int>(
                        seq![],
                    ));
                    reveal_strlit("error");
                    reveal_strlit("iferror");
                },
                RNode::Partial(_) => {
                    if !self.can_error() {
                        self.law_no_error_if_it_cannot(w);
                    }
                },
            }
        }
    }

    /// The outcome when the leaf at each position, given as the path to it
    /// from the root, has the outcome that `f` gives it.
    pub open spec fn run(self, path: Seq<int>, f: spec_fn(Seq<int>) -> EvaluationOutcome) ->
        EvaluationOutcome
        decreases self,
    {
        match self.node {
            RNode::Partial(op) => if op == Op::And && self.kids.len() == 2 {
                match self.kids[0].run(path.push(0), f) {
                    EvaluationOutcome::True => self.kids[1].run(path.push(1), f),
                    o => o,
                }
            } else if op == Op::Or && self.kids.len() == 2 {
                match self.kids[0].run(path.push(0), f) {
                    EvaluationOutcome::False => self.kids[1].run(path.push(1), f),
                    o => o,
                }
            } else if op == Op::If && self.kids.len() == 3 {
                match self.kids[0].run(path.push(0), f) {
                    EvaluationOutcome::True => self.kids[1].run(path.push(1), f),
                    EvaluationOutcome::False => self.kids[2].run(path.push(2), f),
                    o => o,
                }
            } else if op == Op::Unary(UnaryOp::Not) && self.kids.len() == 1 {
                self.kids[0].run(path.push(0), f).flip()
            } else {
                f(path)
            },
            _ => f(path),
        }
    }

    /// `f` gives each leaf an outcome that is possible for it.
    pub open spec fn allows(self, path: Seq<int>, f: spec_fn(Seq<int>) -> EvaluationOutcome) -> bool
        decreases self,
    {
        if self.is_structure() {
            forall|i: int|
                0 <= i < self.kids.len() ==> (#[trigger] self.kids[i]).allows(path.push(i), f)
        } else {
            self.outcomes().contains(f(path))
        }
    }

    /// Some outcome is possible.
    proof fn lemma_some_outcome(self) -> (o: EvaluationOutcome)
        ensures
            self.outcomes().contains(o),
        decreases self,
    {
        if self.is_structure() {
            let op = self.node->Partial_0;
            let a = self.kids[0].lemma_some_outcome();
            if op == Op::If {
                let b = self.kids[1].lemma_some_outcome();
                let c = self.kids[2].lemma_some_outcome();
                match a {
                    EvaluationOutcome::True => b,
                    EvaluationOutcome::False => c,
                    EvaluationOutcome::Error => a,
                }
            } else if op == Op::And {
                let b = self.kids[1].lemma_some_outcome();
                if a is True {
                    b
                } else {
                    a
                }
            } else if op == Op::Or {
                let b = self.kids[1].lemma_some_outcome();
                if a is False {
                    b
                } else {
                    a
                }
            } else {
                assert(a.flip().flip() == a);
                a.flip()
            }
        } else {
            match self.node {
                RNode::Concrete(t) => match t.op {
                    Op::Lit(Atomic::Bool(b)) => EvaluationOutcome::of_bool(b),
                    _ => EvaluationOutcome::Error,
                },
                RNode::Error => EvaluationOutcome::Error,
                RNode::Partial(_) => match self.ty {
                    Type::Bool(b) => if b == BoolType::False {
                        EvaluationOutcome::False
                    } else {
                        EvaluationOutcome::True
                    },
                    _ => EvaluationOutcome::Error,
                },
            }
        }
    }

    /// Only what `f` says of the positions below `path` matters.
    proof fn lemma_agree(
        self,
        path: Seq<int>,
        f: spec_fn(Seq<int>) -> EvaluationOutcome,
        g: spec_fn(Seq<int>) -> EvaluationOutcome,
    )
        requires
            forall|p: Seq<int>| path.is_prefix_of(p) ==> #[trigger] f(p) == g(p),
        ensures
            self.run(path, f) == self.run(path, g),
            self.allows(path, f) == self.allows(path, g),
        decreases self,
    {
        assert(path.is_prefix_of(path));
        assert(f(path) == g(path));
        assert forall|i: int| 0 <= i < self.kids.len() implies (#[trigger] self.kids[i]).allows(
            path.push(i),
            f,
        ) == self.kids[i].allows(path.push(i), g) && self.kids[i].run(path.push(i), f)
            == self.kids[i].run(path.push(i), g) by {
            assert forall|p: Seq<int>| path.push(i).is_prefix_of(p) implies #[trigger] f(p) == g(
                p,
            ) by {
                assert(path =~= path.push(i).take(path.len() as int));
                assert(path.is_prefix_of(p));
            }
            self.kids[i].lemma_agree(path.push(i), f, g);
        }
        if self.is_structure() {
            assert(self.kids[0].run(path.push(0), f) == self.kids[0].run(path.push(0), g));
            if self.kids.len() > 1 {
                assert(self.kids[1].run(path.push(1), f) == self.kids[1].run(path.push(1), g));
            }
            if self.kids.len() > 2 {
                assert(self.kids[2].run(path.push(2), f) == self.kids[2].run(path.push(2), g));
            }
        }
    }

    /// What is run over possible outcomes of the leaves is possible.
    proof fn lemma_run_is_possible(
        self,
        path: Seq<int>,
        f: spec_fn(Seq<int>) -> EvaluationOutcome,
    )
        requires
            self.allows(path, f),
        ensures
            self.outcomes().contains(self.run(path, f)),
        decreases self,
    {
        if self.is_structure() {
            assert(self.kids[0].allows(path.push(0), f));
            self.kids[0].lemma_run_is_possible(path.push(0), f);
            let a = self.kids[0].run(path.push(0), f);
            assert(a.flip().flip() == a);
            if self.kids.len() > 1 {
                assert(self.kids[1].allows(path.push(1), f));
                self.kids[1].lemma_run_is_possible(path.push(1), f);
            }
            if self.kids.len() > 2 {
                assert(self.kids[2].allows(path.push(2), f));
                self.kids[2].lemma_run_is_possible(path.push(2), f);
            }
        }
    }

    /// Three assignments below the three children, put together.
    spec fn joined(
        path: Seq<int>,
        f0: spec_fn(Seq<int>) -> EvaluationOutcome,
        f1: spec_fn(Seq<int>) -> EvaluationOutcome,
        f2: spec_fn(Seq<int>) -> EvaluationOutcome,
    ) -> spec_fn(Seq<int>) -> EvaluationOutcome {
        |p: Seq<int>|
            if p.len() > path.len() && p[path.len() as int] == 0 {
                f0(p)
            } else if p.len() > path.len() && p[path.len() as int] == 1 {
                f1(p)
            } else {
                f2(p)
            }
    }

    /// A possible outcome comes from possible outcomes of the leaves.
    proof fn lemma_possible_is_run(self, path: Seq<int>, o: EvaluationOutcome) -> (f: spec_fn(
        Seq<int>,
    ) -> EvaluationOutcome)
        requires
            self.outcomes().contains(o),
        ensures
            self.allows(path, f),
            self.run(path, f) == o,
        decreases self,
    {
        if self.is_structure() {
            let op = self.node->Partial_0;
            let k = self.kids;
            let any = |i: int| k[i].some_outcome();
            let (a, b, c): (EvaluationOutcome, EvaluationOutcome, EvaluationOutcome) = if op
                == Op::And {
                if k[0].outcomes().contains(EvaluationOutcome::True) && k[1].outcomes().contains(
                    o,
                ) {
                    (EvaluationOutcome::True, o, o)
                } else {
                    (o, any(1), o)
                }
            } else if op == Op::Or {
                if k[0].outcomes().contains(EvaluationOutcome::False) && k[1].outcomes().contains(
                    o,
                ) {
                    (EvaluationOutcome::False, o, o)
                } else {
                    (o, any(1), o)
                }
            } else if op == Op::If {
                if k[0].outcomes().contains(EvaluationOutcome::True) && k[1].outcomes().contains(
                    o,
                ) {
                    (EvaluationOutcome::True, o, any(2))
                } else if k[0].outcomes().contains(EvaluationOutcome::False)
                    && k[2].outcomes().contains(o) {
                    (EvaluationOutcome::False, any(1), o)
                } else {
                    (o, any(1), any(2))
                }
            } else {
                (o.flip(), o, o)
            };
            assert(o.flip().flip() == o);
            if k.len() > 1 {
                k[1].lemma_some_outcome_holds();
            }
            if k.len() > 2 {
                k[2].lemma_some_outcome_holds();
            }
            let f0 = k[0].lemma_possible_is_run(path.push(0), a);
            let f1 = if k.len() > 1 {
                k[1].lemma_possible_is_run(path.push(1), b)
            } else {
                f0
            };
            let f2 = if k.len() > 2 {
                k[2].lemma_possible_is_run(path.push(2), c)
            } else {
                f0
            };
            let f = Self::joined(path, f0, f1, f2);
            let fs = seq![f0, f1, f2];
            assert forall|i: int| 0 <= i < k.len() implies (#[trigger] k[i]).allows(
                path.push(i),
                f,
            ) == k[i].allows(path.push(i), fs[i]) && k[i].run(path.push(i), f) == k[i].run(
                path.push(i),
                fs[i],
            ) by {
                assert forall|p: Seq<int>| path.push(i).is_prefix_of(p) implies #[trigger] f(p)
                    == fs[i](p) by {
                    assert(path.push(i)[path.len() as int] == p[path.len() as int]);
                }
                k[i].lemma_agree(path.push(i), f, fs[i]);
            }
            assert(k[0].run(path.push(0), f) == a);
            if k.len() > 1 {
                assert(k[1].run(path.push(1), f) == b);
            }
            if k.len() > 2 {
                assert(k[2].run(path.push(2), f) == c);
            }
            f
        } else {
            |p: Seq<int>| o
        }
    }

    /// One of the possible outcomes.
    spec fn some_outcome(self) -> EvaluationOutcome {
        choose|o: EvaluationOutcome| self.outcomes().contains(o)
    }

    proof fn lemma_some_outcome_holds(self)
        ensures
            self.outcomes().contains(self.some_outcome()),
    {
        let o = self.lemma_some_outcome();
        assert(self.outcomes().contains(o));
    }

    /// The possible outcomes are exact on the boolean structure: they are
    /// those of evaluating it with each leaf, independently of the others,
    /// having any outcome that is possible for it.
    pub proof fn law_outcomes_are_exact_on_structure(self, o: EvaluationOutcome)
        ensures
            self.outcomes().contains(o) <==> exists|f: spec_fn(Seq<int>) -> EvaluationOutcome|
                self.allows(seq![], f) && #[trigger] self.run(seq![], f) == o,
    {
        if self.outcomes().contains(o) {
            let f = self.lemma_possible_is_run(seq![], o);
            assert(self.allows(seq![], f) && self.run(seq![], f) == o);
        }
        assert forall|f: spec_fn(Seq<int>) -> EvaluationOutcome|
            self.allows(seq![], f) && #[trigger] self.run(seq![], f)
                == o implies self.outcomes().contains(o) by {
            self.lemma_run_is_possible(seq![], f);
        }
    }

    /// Every leaf of the boolean structure is a boolean.
    pub open spec fn leaves_are_boolean(self) -> bool
        decreases self,
    {
        if self.is_structure() {
            forall|i: int| 0 <= i < self.kids.len() ==> (#[trigger] self.kids[i]).leaves_are_boolean()
        } else {
            match self.node {
                RNode::Concrete(t) => t.op is Lit && t.op->Lit_0 is Bool,
                RNode::Error => true,
                RNode::Partial(_) => self.ty is Bool,
            }
        }
    }

    /// A boolean residual has the outcome `Error` only if it can err.
    pub proof fn law_error_outcome_needs_can_error(self)
        requires
            self.leaves_are_boolean(),
            self.outcomes().contains(EvaluationOutcome::Error),
        ensures
            self.can_error(),
        decreases self,
    {
        if self.is_structure() {
            assert(self.kids[0].leaves_are_boolean());
            if self.kids[0].outcomes().contains(EvaluationOutcome::Error) {
                self.kids[0].law_error_outcome_needs_can_error();
                assert(self.kids[0].can_error());
            } else if self.kids[1].outcomes().contains(EvaluationOutcome::Error) {
                assert(self.kids[1].leaves_are_boolean());
                self.kids[1].law_error_outcome_needs_can_error();
                assert(self.kids[1].can_error());
            } else {
                assert(self.kids[2].leaves_are_boolean());
                self.kids[2].law_error_outcome_needs_can_error();
                assert(self.kids[2].can_error());
            }
        }
    }

    /// The value of a well-typed residual has its type.
    proof fn lemma_value_has_type(self, w: World)
        requires
            self.well_typed(w),
        ensures
            self.expr_tree().eval(w) matches Ok(v) ==> v.has_type(self.ty),
    {
    }

    /// A well-typed residual that cannot err evaluates to a value.
    pub proof fn law_no_error_if_it_cannot(self, w: World)
        requires
            w.operators_work(),
            self.well_typed(w),
            !self.can_error(),
        ensures
            self.expr_tree().eval(w) is Ok,
        decreases self, 1nat,
    {
        if let RNode::Partial(op) = self.node {
            let t = self.apply(op);
            self.lemma_apply(op);
            Self::lemma_fold_literals(t, w);
            assert(!crate::residual::can_fail(op));
            assert forall|i: int| 0 <= i < self.kids.len() implies !(
            #[trigger] self.kids[i]).can_error() by {}
            if op == Op::And || op == Op::Or || op == Op::If {
                assert(t.kids[0] == self.kids[0].expr_tree());
                assert(t.kids[1] == self.kids[1].expr_tree());
                self.kids[0].law_no_error_if_it_cannot(w);
                let first = self.kids[0].outcome(w);
                let v = self.kids[0].expr_tree().eval(w)->Ok_0;
                self.kids[0].lemma_value_has_type(w);
                assert(v is Bool);
                if op == Op::If {
                    assert(t.kids[2] == self.kids[2].expr_tree());
                    if first is True {
                        self.kids[1].law_no_error_if_it_cannot(w);
                    } else {
                        self.kids[2].law_no_error_if_it_cannot(w);
                    }
                } else if op == Op::And && first is True || op == Op::Or && first is False {
                    self.kids[1].law_no_error_if_it_cannot(w);
                    let u = self.kids[1].expr_tree().eval(w)->Ok_0;
                    self.kids[1].lemma_value_has_type(w);
                    assert(u is Bool);
                }
            } else {
                self.lemma_operands(op, self.kids.len(), w);
                assert forall|i: int| 0 <= i < t.kids.len() implies (#[trigger] t.kids[i]).eval(
                    w,
                ) is Ok by {
                    assert(t.kids[i] == self.kids[i].expr_tree());
                }
                Tree::lemma_eval_all_ok(t.kids, w);
                let vs = Tree::eval_all(t.kids, w)->Ok_0;
                assert forall|i: int| 0 <= i < vs.len() implies (#[trigger] vs[i]).has_type(
                    self.kids[i].ty,
                ) by {
                    assert(t.kids[i] == self.kids[i].expr_tree());
                    assert(t.kids[i].eval(w) == Ok::<Value, int>(vs[i]));
                    self.kids[i].lemma_value_has_type(w);
                }
                self.lemma_operator_works(op, vs, w);
                if op == Op::Unary(UnaryOp::Not) {
                    assert(t.kids[0] == self.kids[0].expr_tree());
                    assert(vs[0].has_type(self.kids[0].ty));
                }
            }
        }
    }

    /// The operands of an operator that evaluates all of them evaluate to
    /// values, if none of them can err.
    proof fn lemma_operands(self, op: Op, n: nat, w: World)
        requires
            w.operators_work(),
            self.well_typed(w),
            self.node == RNode::Partial(op),
            op != Op::And && op != Op::Or && op != Op::If && !(op is Call),
            forall|i: int| 0 <= i < self.kids.len() ==> !(#[trigger] self.kids[i]).can_error(),
            n <= self.kids.len(),
        ensures
            forall|i: int| 0 <= i < n ==> (#[trigger] self.kids[i]).well_typed(w),
            forall|i: int| 0 <= i < n ==> (#[trigger] self.kids[i]).expr_tree().eval(w) is Ok,
        decreases self, 0nat, n,
    {
        if n > 0 {
            self.lemma_operands(op, (n - 1) as nat, w);
            assert(self.evaluates_upto(n - 1, w));
            assert(self.kids[n - 1].well_typed(w));
            self.kids[n - 1].law_no_error_if_it_cannot(w);
        }
    }

    /// An operator that cannot fail gives a value on operands of the types
    /// that validation asks for.
    proof fn lemma_operator_works(self, op: Op, vs: Seq<Value>, w: World)
        requires
            w.operators_work(),
            self.well_typed(w),
            self.node == RNode::Partial(op),
            !crate::residual::can_fail(op),
            op != Op::And && op != Op::Or && op != Op::If,
            vs.len() == self.kids.len(),
            Tree::eval_all(self.apply(op).kids, w) == Ok::<Seq<Value>, int>(vs),
            forall|i: int| 0 <= i < vs.len() ==> (#[trigger] vs[i]).has_type(self.kids[i].ty),
        ensures
            !(op is Lit || op is Var) && op != Op::Unary(UnaryOp::Not) ==> w.apply(op, vs) is Ok,
    {
        let k = self.kids;
        if vs.len() > 0 {
            assert(vs[0].has_type(k[0].ty));
        }
        if vs.len() > 1 {
            assert(vs[1].has_type(k[1].ty));
        }
        match op {
            Op::Binary(b) => {
                assert(vs =~= seq![vs[0], vs[1]]);
                if b == BinaryOp::In {
                    if let Value::SetOf(es) = vs[1] {
                        assert forall|i: int| 0 <= i < es.len() implies (#[trigger] es[i])
                            is Uid by {
                            if let Type::SetOf(Some(t)) = k[1].ty {
                                assert(es[i].has_type(*t));
                            }
                        }
                    }
                }
            },
            Op::HasAttr(_) | Op::Is(_) => {
                assert(vs =~= seq![vs[0]]);
            },
            _ => {},
        }
    }

    /// A residual that is a boolean has that outcome alone, and so has an
    /// error.
    pub proof fn law_known_residuals_have_one_outcome(self, b: bool)
        ensures
            self.node == RNode::Concrete(Tree::bool(b)) ==> self.outcomes()
                == set![EvaluationOutcome::of_bool(b)],
            self.node is Error ==> self.outcomes() == set![EvaluationOutcome::Error],
    {
    }
}

impl Expr<Option<Type>> {
    /// Every node has a type.
    pub open spec fn fully_typed(&self) -> bool
        decreases self,
        via Self::fully_typed_terminates
    {
        &&& self.data is Some
        &&& forall|i: int| 0 <= i < self.kids().len() ==> (#[trigger] self.kids()[i]).fully_typed()
    }

    #[via_fn]
    proof fn fully_typed_terminates(&self) {
        assert forall|i: int| 0 <= i < self.kids().len() implies decreases_to!(
            self => #[trigger] self.kids()[i]
        ) by {
            self.lemma_kid_decreases(i);
        }
    }

    /// An expression has a residual exactly if every node has a type, every
    /// slot is bound and nothing is unknown.
    pub proof fn law_residual_exists(&self, env: SlotEnv)
        ensures
            self.residual(env) is Ok <==> self.fully_typed() && self.tree().unbound(env) is None
                && !self.tree().has_unknown(),
        decreases self,
    {
        let t = self.tree();
        match &self.kind {
            ExprKind::Lit(_) | ExprKind::Slot(_) | ExprKind::Unknown(_) => {
                assert(t.kids =~= Seq::empty());
            },
            _ => {
                let n = self.kids().len();
                assert forall|i: int| 0 <= i < n implies ((#[trigger] self.kids()[i]).residual(
                    env,
                ) is Ok <==> self.kids()[i].fully_typed() && t.kids[i].unbound(env) is None
                    && !t.kids[i].has_unknown()) by {
                    self.lemma_kid_decreases(i);
                    self.kids()[i].law_residual_exists(env);
                }
                self.lemma_residuals_ok(env, n);
                Tree::lemma_first_unbound_iff(t.kids, env);
                if self.residual(env) is Ok {
                    assert forall|i: int| 0 <= i < n implies (
                    #[trigger] self.kids()[i]).fully_typed() by {}
                    assert forall|i: int| 0 <= i < t.kids.len() implies (
                    #[trigger] t.kids[i]).unbound(env) is None && !t.kids[i].has_unknown() by {
                        assert(self.kids()[i].residual(env) is Ok);
                    }
                }
                if self.fully_typed() && t.unbound(env) is None && !t.has_unknown() {
                    assert forall|i: int| 0 <= i < n implies (#[trigger] self.kids()[i]).residual(
                        env,
                    ) is Ok by {
                        assert(t.kids[i].unbound(env) is None);
                        assert(!t.kids[i].has_unknown());
                    }
                }
            },
        }
    }

    /// All children have residuals if each has one.
    proof fn lemma_residuals_ok(&self, env: SlotEnv, n: nat)
        requires
            n <= self.kids().len(),
        ensures
            self.residuals(env, n) is Ok <==> forall|i: int|
                0 <= i < n ==> (#[trigger] self.kids()[i]).residual(env) is Ok,
        decreases n,
    {
        if n > 0 {
            self.lemma_residuals_ok(env, (n - 1) as nat);
        }
    }

    /// The residual of a typed expression keeps the type of the root, and
    /// evaluates on every input as the expression does with its slots filled.
    pub proof fn law_residual_preserves_evaluation(&self, env: SlotEnv, w: World)
        requires
            self.residual(env) is Ok,
        ensures
            self.residual(env)->Ok_0.expr_tree().eval(w) == self.tree().filled(env).eval(w),
            self.data == Some(self.residual(env)->Ok_0.ty),
            self.tree().unbound(env) is None,
        decreases self,
    {
        let r = self.residual(env)->Ok_0;
        let t = self.tree();
        match &self.kind {
            ExprKind::Lit(_) => {
                assert(t.filled(env).kids =~= Seq::empty());
                assert(t.kids =~= Seq::empty());
            },
            ExprKind::Slot(_) => {},
            ExprKind::Unknown(_) => {},
            _ => {
                let n = self.kids().len();
                self.lemma_residuals(env, n);
                let ks = self.residuals(env, n)->Ok_0;
                assert forall|i: int| 0 <= i < n implies (#[trigger] ks[i]).expr_tree().eval(w)
                    == t.kids[i].filled(env).eval(w) && t.kids[i].unbound(env) is None by {
                    self.lemma_kid_decreases(i);
                    self.kids()[i].law_residual_preserves_evaluation(env, w);
                }
                let a = r.apply(self.op());
                let b = t.filled(env);
                RTree::lemma_fold_literals(a, w);
                r.lemma_apply(self.op());
                assert forall|i: int| 0 <= i < a.kids.len() implies (#[trigger] a.kids[i]).eval(w)
                    == b.kids[i].eval(w) by {
                    assert(ks[i].expr_tree().eval(w) == t.kids[i].filled(env).eval(w));
                }
                Tree::lemma_eval_congr(a, b, w);
                assert forall|i: int| 0 <= i < t.kids.len() implies (#[trigger] t.kids[i]).unbound(
                    env,
                ) is None by {
                    assert(ks[i].expr_tree().eval(w) == t.kids[i].filled(env).eval(w));
                }
                Tree::lemma_first_unbound_iff(t.kids, env);
            },
        }
    }

    /// Converting a typed expression to a residual and back gives the
    /// expression with its slots filled, and so the expression itself where
    /// nothing is bound: the conversions undo each other, but for an `&&` or
    /// `||` of two boolean literals, which comes back as the literal it is.
    pub proof fn law_residual_round_trip(&self, env: SlotEnv)
        requires
            self.residual(env) is Ok,
            !self.tree().joins_literals(),
        ensures
            self.residual(env)->Ok_0.expr_tree() == self.tree().filled(env),
            env == SlotEnv::none() ==> self.residual(env)->Ok_0.expr_tree() == self.tree(),
        decreases self,
    {
        let r = self.residual(env)->Ok_0;
        let t = self.tree();
        let b = t.filled(env);
        t.lemma_filled_none();
        match &self.kind {
            ExprKind::Lit(_) => {
                assert(b.kids =~= Seq::empty());
                assert(t.kids =~= Seq::empty());
            },
            ExprKind::Slot(_) => {},
            ExprKind::Unknown(_) => {},
            _ => {
                let n = self.kids().len();
                self.lemma_residuals(env, n);
                let ks = self.residuals(env, n)->Ok_0;
                assert forall|i: int| 0 <= i < n implies (#[trigger] ks[i]).expr_tree()
                    == b.kids[i] by {
                    self.lemma_kid_decreases(i);
                    assert(t.kids[i] == self.kids()[i].tree());
                    self.kids()[i].law_residual_round_trip(env);
                }
                let a = r.apply(self.op());
                r.lemma_apply(self.op());
                assert(a.kids =~= b.kids) by {
                    assert forall|i: int| 0 <= i < n implies a.kids[i] == #[trigger] b.kids[i] by {
                        assert(ks[i].expr_tree() == b.kids[i]);
                    }
                }
                assert(a == b);
                if (b.op == Op::And || b.op == Op::Or) && b.kids.len() == 2 {
                    assert(b.kids[0] == t.kids[0].filled(env));
                    assert(b.kids[1] == t.kids[1].filled(env));
                }
            },
        }
    }

    /// The residuals of the children, one by one.
    proof fn lemma_residuals(&self, env: SlotEnv, n: nat)
        requires
            n <= self.kids().len(),
            self.residuals(env, n) is Ok,
        ensures
            self.residuals(env, n)->Ok_0.len() == n,
            forall|i: int|
                0 <= i < n ==> self.kids()[i].residual(env) == Ok::<RTree, ExprToResidualError>(
                    #[trigger] self.residuals(env, n)->Ok_0[i],
                ),
        decreases n,
    {
        if n > 0 {
            self.lemma_residuals(env, (n - 1) as nat);
        }
    }
}

impl Tree {
    /// Some `&&` or `||` has two boolean literals as its operands.
    pub open spec fn joins_literals(self) -> bool
        decreases self,
    {
        ||| (self.op == Op::And || self.op == Op::Or) && self.kids.len() == 2 && self.kids[0].op
            is Lit && self.kids[0].op->Lit_0 is Bool && self.kids[1].op is Lit
            && self.kids[1].op->Lit_0 is Bool
        ||| exists|i: int| 0 <= i < self.kids.len() && (#[trigger] self.kids[i]).joins_literals()
    }

    /// Some node is an unknown.
    pub open spec fn has_unknown(self) -> bool
        decreases self,
    {
        self.op is Unknown || exists|i: int|
            0 <= i < self.kids.len() && (#[trigger] self.kids[i]).has_unknown()
    }

    proof fn lemma_first_unbound_iff(ts: Seq<Tree>, env: SlotEnv)
        ensures
            Tree::first_unbound(ts, env) is None <==> forall|i: int|
                0 <= i < ts.len() ==> (#[trigger] ts[i]).unbound(env) is None,
        decreases ts.len(),
    {
        if ts.len() > 0 {
            let front = ts.drop_last();
            Tree::lemma_first_unbound_iff(front, env);
            if Tree::first_unbound(ts, env) is None {
                assert forall|i: int| 0 <= i < ts.len() implies (#[trigger] ts[i]).unbound(
                    env,
                ) is None by {
                    if i < front.len() {
                        assert(front[i].unbound(env) is None);
                    }
                }
            } else if Tree::first_unbound(front, env) is Some {
                let i = choose|i: int|
                    0 <= i < front.len() && (#[trigger] front[i]).unbound(env) is Some;
                assert(ts[i].unbound(env) is Some);
            } else {
                assert(ts[ts.len() - 1].unbound(env) is Some);
            }
        }
    }
}

} // verus!
