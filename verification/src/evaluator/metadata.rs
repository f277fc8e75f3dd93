//! What the evaluator knows of the nodes of an expression.

use vstd::prelude::*;

use crate::ast::{Data, Expr, ExprKind, Loc, Prim};
use crate::evaluator::err::EvaluationError;
use crate::expr_util::{erase, map_data, rebuild};
use crate::outcome::{EvaluationOutcome, Outcomes};
use crate::tree::{Atomic, Op, Tree};
use crate::types::Type;

verus! {

/// The set of outcomes that a boolean (sub-)expression can still take,
/// attached to every node of an evaluated expression.
///
/// Only nodes the evaluator visited carry precise information; every other
/// node carries all three outcomes.
#[derive(Debug)]
pub struct EvaluationMetadata {
    outcomes: Outcomes,
    /// The type the typechecker gave the node, when the node comes from an
    /// evaluation; not part of equality.
    ty: Option<Type>,
}

impl EvaluationMetadata {
    /// The possible outcomes.
    pub closed spec fn can_be(&self) -> Set<EvaluationOutcome> {
        self.outcomes@
    }

    /// The type of the node, when known.
    pub closed spec fn type_of(&self) -> Option<Type> {
        self.ty
    }

    /// Metadata with the given outcomes (and no type).
    pub fn new(outcomes: Outcomes) -> (r: Self)
        ensures
            r.can_be() == outcomes@,
            r.type_of() is None,
    {
        EvaluationMetadata { outcomes, ty: None }
    }

    /// The possible outcomes.
    pub fn outcomes(&self) -> (r: &Outcomes)
        ensures
            r@ == self.can_be(),
    {
        &self.outcomes
    }

    /// The type the typechecker gave the node, when known.
    pub fn ty(&self) -> (r: Option<&Type>)
        ensures
            match r {
                Some(t) => self.type_of() == Some(*t),
                None => self.type_of() is None,
            },
    {
        match &self.ty {
            Some(t) => Some(t),
            None => None,
        }
    }

    /// The same outcomes, with `ty` as the node's type.
    pub fn with_ty(self, ty: Option<Type>) -> (r: Self)
        ensures
            r.can_be() == self.can_be(),
            r.type_of() == ty,
    {
        EvaluationMetadata { outcomes: self.outcomes, ty }
    }

    /// Whether `o` is a possible outcome.
    pub fn can(&self, o: EvaluationOutcome) -> (r: bool)
        ensures
            r == self.can_be().contains(o),
    {
        self.outcomes.contains(o)
    }

    /// Whether the only possible outcome is an error.
    pub fn is_error(&self) -> (r: bool)
        ensures
            r == (self.can_be() == set![EvaluationOutcome::Error]),
    {
        let r = self.outcomes.len() == 1 && self.can(EvaluationOutcome::Error);
        proof {
            if r {
                let s = self.can_be();
                Set::lemma_is_singleton(s);
                assert(s =~= set![EvaluationOutcome::Error]);
            } else if self.can_be() == set![EvaluationOutcome::Error] {
                assert(set![EvaluationOutcome::Error].len() == 1);
            }
        }
        r
    }

    /// Whether an error is impossible.
    pub fn is_error_free(&self) -> (r: bool)
        ensures
            r == !self.can_be().contains(EvaluationOutcome::Error),
    {
        !self.can(EvaluationOutcome::Error)
    }

    /// Whether the only possible outcome is the boolean `b`.
    pub fn is_literal(&self, b: bool) -> (r: bool)
        ensures
            r == (self.can_be() == set![EvaluationOutcome::of_bool(b)]),
    {
        self.outcomes.same(&Outcomes::literal(b))
    }

    /// Metadata of the boolean `b`.
    pub fn literal(b: bool) -> (r: Self)
        ensures
            r.can_be() == set![EvaluationOutcome::of_bool(b)],
            r.type_of() is None,
    {
        Self::new(Outcomes::literal(b))
    }

    /// Metadata with the given outcomes, if there is one.
    pub fn from_flags(can_true: bool, can_false: bool, can_error: bool) -> (r: Option<Self>)
        ensures
            match r {
                Some(m) => {
                    &&& can_true || can_false || can_error
                    &&& m.can_be() == Outcomes::flags(can_true, can_false, can_error)
                    &&& m.type_of() is None
                },
                None => !can_true && !can_false && !can_error,
            },
    {
        match Outcomes::from_flags(can_true, can_false, can_error) {
            Some(o) => Some(Self::new(o)),
            None => None,
        }
    }

    /// Outcomes of `!x` given those of `x`.
    pub fn negated(&self) -> (r: Self)
        ensures
            r.can_be() == Outcomes::not_of(self.can_be()),
            r.type_of() is None,
    {
        Self::new(self.outcomes.negated())
    }

    /// Outcomes of `l && r`, where `r`'s outcomes were computed under the
    /// assumption that `l` is true.
    pub fn and(&self, right: &Self) -> (r: Self)
        ensures
            r.can_be() == Outcomes::and_of(self.can_be(), right.can_be()),
            r.type_of() is None,
    {
        Self::new(self.outcomes.and(&right.outcomes))
    }

    /// Outcomes of `l || r`, where `r`'s outcomes were computed under the
    /// assumption that `l` is false.
    pub fn or(&self, right: &Self) -> (r: Self)
        ensures
            r.can_be() == Outcomes::or_of(self.can_be(), right.can_be()),
            r.type_of() is None,
    {
        Self::new(self.outcomes.or(&right.outcomes))
    }

    /// The outcomes of `if c then a else b`, where a branch that was not
    /// looked at has none.
    pub open spec fn ite_of(
        c: Set<EvaluationOutcome>,
        a: Option<Set<EvaluationOutcome>>,
        b: Option<Set<EvaluationOutcome>>,
    ) -> Set<EvaluationOutcome> {
        let none = Set::empty();
        let set = Outcomes::ite_of(
            c,
            match a {
                Some(s) => s,
                None => none,
            },
            match b {
                Some(s) => s,
                None => none,
            },
        );
        if set == none {
            Outcomes::flags(true, true, true)
        } else {
            set
        }
    }

    /// Outcomes of `if c then a else b`, where `a`/`b` were computed under the
    /// assumption that `c` is true/false. A branch is `None` when `c` cannot
    /// take the value that reaches it.
    pub fn ite(&self, then: Option<&Self>, els: Option<&Self>) -> (r: Self)
        ensures
            r.can_be() == Self::ite_of(
                self.can_be(),
                match then {
                    Some(m) => Some(m.can_be()),
                    None => None,
                },
                match els {
                    Some(m) => Some(m.can_be()),
                    None => None,
                },
            ),
            r.type_of() is None,
    {
        let c_true = self.can(EvaluationOutcome::True);
        let c_false = self.can(EvaluationOutcome::False);
        let c_error = self.can(EvaluationOutcome::Error);
        let (a_true, a_false, a_error) = match then {
            Some(m) => (
                c_true && m.can(EvaluationOutcome::True),
                c_true && m.can(EvaluationOutcome::False),
                c_true && m.can(EvaluationOutcome::Error),
            ),
            None => (false, false, false),
        };
        let (b_true, b_false, b_error) = match els {
            Some(m) => (
                c_false && m.can(EvaluationOutcome::True),
                c_false && m.can(EvaluationOutcome::False),
                c_false && m.can(EvaluationOutcome::Error),
            ),
            None => (false, false, false),
        };
        let can_true = a_true || b_true;
        let can_false = a_false || b_false;
        let can_error = a_error || b_error || c_error;
        proof {
            let none = Set::<EvaluationOutcome>::empty();
            let set = Outcomes::ite_of(
                self.can_be(),
                match then {
                    Some(m) => m.can_be(),
                    None => none,
                },
                match els {
                    Some(m) => m.can_be(),
                    None => none,
                },
            );
            assert(set =~= Outcomes::flags(can_true, can_false, can_error));
            if can_true {
                assert(set.contains(EvaluationOutcome::True));
            }
            if can_false {
                assert(set.contains(EvaluationOutcome::False));
            }
            if can_error {
                assert(set.contains(EvaluationOutcome::Error));
            }
            if !can_true && !can_false && !can_error {
                assert(set =~= none);
            } else {
                assert(set != none);
            }
        }
        match Self::from_flags(can_true, can_false, can_error) {
            Some(m) => m,
            None => Self::default(),
        }
    }

    /// The names of the possible outcomes, in braces.
    pub open spec fn text(s: Set<EvaluationOutcome>) -> Seq<char> {
        let t = s.contains(EvaluationOutcome::True);
        let f = s.contains(EvaluationOutcome::False);
        let e = s.contains(EvaluationOutcome::Error);
        "{"@ + (if t {
            "True"@
        } else {
            ""@
        }) + (if t && f {
            ", "@
        } else {
            ""@
        }) + (if f {
            "False"@
        } else {
            ""@
        }) + (if (t || f) && e {
            ", "@
        } else {
            ""@
        }) + (if e {
            "Error"@
        } else {
            ""@
        }) + "}"@
    }

    /// The names of the possible outcomes, in braces.
    pub fn describe(&self) -> (r: String)
        ensures
            r@ == Self::text(self.can_be()),
    {
        let t = self.can(EvaluationOutcome::True);
        let f = self.can(EvaluationOutcome::False);
        let e = self.can(EvaluationOutcome::Error);
        "{".to_owned().concat(
            if t {
                "True"
            } else {
                ""
            },
        ).concat(
            if t && f {
                ", "
            } else {
                ""
            },
        ).concat(
            if f {
                "False"
            } else {
                ""
            },
        ).concat(
            if (t || f) && e {
                ", "
            } else {
                ""
            },
        ).concat(
            if e {
                "Error"
            } else {
                ""
            },
        ).concat("}")
    }
}

impl Data for EvaluationMetadata {
    fn dup(&self) -> (r: Self) {
        EvaluationMetadata { outcomes: self.outcomes.dup(), ty: self.ty.dup() }
    }
}

impl PartialEq for EvaluationMetadata {
    /// Equality is on the outcomes: the type is a fact about the node, not a
    /// result of the evaluation.
    fn eq(&self, other: &Self) -> (r: bool) {
        self.outcomes.same(&other.outcomes)
    }
}

impl vstd::std_specs::cmp::PartialEqSpecImpl for EvaluationMetadata {
    open spec fn obeys_eq_spec() -> bool {
        true
    }

    open spec fn eq_spec(&self, other: &Self) -> bool {
        self.can_be() == other.can_be()
    }
}

impl Default for EvaluationMetadata {
    /// All three outcomes: the least informative value, and the only one that
    /// is sound for a node the evaluator did not look at.
    fn default() -> (r: Self)
        ensures
            r.can_be() == Outcomes::flags(true, true, true),
            r.type_of() is None,
    {
        Self::new(Outcomes::all())
    }
}

/// What an evaluated expression is: a tree whose nodes have a source location,
/// possible outcomes and a type.
#[verifier::ext_equal]
pub struct ETree {
    pub op: Op,
    pub loc: Option<Loc>,
    pub outcomes: Set<EvaluationOutcome>,
    pub ty: Option<Type>,
    pub kids: Seq<ETree>,
}

impl ETree {
    /// The expression alone.
    pub open spec fn tree(self) -> Tree
        decreases self,
    {
        Tree {
            op: self.op,
            kids: Seq::new(
                self.kids.len(),
                |i: int|
                    if 0 <= i < self.kids.len() {
                        self.kids[i].tree()
                    } else {
                        arbitrary()
                    },
            ),
        }
    }

    /// The boolean that the expression is, if it is a literal.
    pub open spec fn literal(self) -> Option<bool> {
        match self.op {
            Op::Lit(Atomic::Bool(b)) => Some(b),
            _ => None,
        }
    }
}

impl Expr<EvaluationMetadata> {
    /// What the evaluated expression is.
    pub open spec fn full(&self) -> ETree
        decreases self,
        via Self::full_terminates
    {
        ETree {
            op: self.op(),
            loc: self.loc,
            outcomes: self.data.can_be(),
            ty: self.data.type_of(),
            kids: Seq::new(
                self.kids().len(),
                |i: int|
                    if 0 <= i < self.kids().len() {
                        self.kids()[i].full()
                    } else {
                        arbitrary()
                    },
            ),
        }
    }

    #[via_fn]
    proof fn full_terminates(&self) {
        assert forall|i: int| 0 <= i < self.kids().len() implies decreases_to!(
            self => #[trigger] self.kids()[i]
        ) by {
            self.lemma_kid_decreases(i);
        }
    }

    /// The two ways to the expression alone agree.
    pub proof fn lemma_full_tree(&self)
        ensures
            self.full().tree() == self.tree(),
        decreases self,
    {
        assert forall|i: int| 0 <= i < self.kids().len() implies (
        #[trigger] self.kids()[i]).full().tree() == self.kids()[i].tree() by {
            self.lemma_kid_decreases(i);
            self.kids()[i].lemma_full_tree();
        }
        assert(self.full().tree().kids =~= self.tree().kids);
    }

    /// Every node has a type.
    pub open spec fn every_node_typed(&self) -> bool
        decreases self,
        via Self::every_node_typed_terminates
    {
        &&& self.data.type_of() is Some
        &&& forall|i: int|
            0 <= i < self.kids().len() ==> (#[trigger] self.kids()[i]).every_node_typed()
    }

    #[via_fn]
    proof fn every_node_typed_terminates(&self) {
        assert forall|i: int| 0 <= i < self.kids().len() implies decreases_to!(
            self => #[trigger] self.kids()[i]
        ) by {
            self.lemma_kid_decreases(i);
        }
    }

    /// `t` has the types of the nodes.
    pub open spec fn types_are(&self, t: Expr<Option<Type>>) -> bool
        decreases self,
        via Self::types_are_terminates
    {
        &&& t.data == self.data.type_of()
        &&& t.loc == self.loc
        &&& t.kids().len() == self.kids().len()
        &&& forall|i: int|
            0 <= i < self.kids().len() ==> (#[trigger] self.kids()[i]).types_are(t.kids()[i])
    }

    #[via_fn]
    proof fn types_are_terminates(&self, t: Expr<Option<Type>>) {
        assert forall|i: int| 0 <= i < self.kids().len() implies decreases_to!(
            self => #[trigger] self.kids()[i]
        ) by {
            self.lemma_kid_decreases(i);
        }
    }

    proof fn lemma_types_are(
        &self,
        t: Expr<Option<Type>>,
        rel: spec_fn(EvaluationMetadata, Option<Type>) -> bool,
    )
        requires
            self.rebuilt_as(t, rel),
            forall|m: EvaluationMetadata, u: Option<Type>| #[trigger]
                rel(m, u) ==> u == m.type_of(),
        ensures
            self.types_are(t),
            t.fully_typed() == self.every_node_typed(),
        decreases self,
    {
        assert(rel(self.data, t.data));
        assert forall|i: int| 0 <= i < self.kids().len() implies (
        #[trigger] self.kids()[i]).types_are(t.kids()[i]) && t.kids()[i].fully_typed()
            == self.kids()[i].every_node_typed() by {
            self.lemma_kid_decreases(i);
            self.kids()[i].lemma_types_are(t.kids()[i], rel);
        }
        if t.fully_typed() {
            assert forall|i: int| 0 <= i < self.kids().len() implies (
            #[trigger] self.kids()[i]).every_node_typed() by {
                assert(t.kids()[i].fully_typed());
            }
        }
        if self.every_node_typed() {
            assert forall|i: int| 0 <= i < t.kids().len() implies (
            #[trigger] t.kids()[i]).fully_typed() by {
                assert(self.kids()[i].every_node_typed());
            }
        }
    }
}

/// The literal boolean value of an evaluated expression, if it is one.
pub fn literal_of(expr: &Expr<EvaluationMetadata>) -> (r: Option<bool>)
    ensures
        r == expr.full().literal(),
{
    match &expr.kind {
        ExprKind::Lit(Prim::Bool(b)) => Some(*b),
        _ => None,
    }
}

/// Strips the metadata from an evaluated expression; every node keeps its
/// source location.
pub fn erase_metadata(expr: &Expr<EvaluationMetadata>) -> (r: Expr<()>)
    ensures
        r.tree() == expr.tree(),
        expr.rebuilt_as(r, |m: EvaluationMetadata, u: ()| true),
{
    erase(expr)
}

/// Whether every node of `e` has a type.
pub fn all_typed(e: &Expr<Option<Type>>) -> (r: bool)
    ensures
        r == e.fully_typed(),
    decreases e,
{
    if e.data.is_none() {
        return false;
    }
    let n = e.kid_count();
    let mut i: usize = 0;
    while i < n
        invariant
            i <= n,
            n == e.kids().len(),
            e.data is Some,
            forall|j: int| 0 <= j < i ==> (#[trigger] e.kids()[j]).fully_typed(),
        decreases n - i,
    {
        if !all_typed(e.kid(i)) {
            return false;
        }
        i += 1;
    }
    true
}

/// The typed form of an evaluated expression: every node with the type the
/// typechecker gave it, preserving structure exactly. Fails on an expression
/// with a node without a type.
pub fn typed_of(expr: &Expr<EvaluationMetadata>) -> (r: Result<Expr<Option<Type>>, EvaluationError>)
    ensures
        match r {
            Ok(t) => {
                &&& expr.every_node_typed()
                &&& t.tree() == expr.tree()
                &&& t.fully_typed()
                &&& expr.types_are(t)
            },
            Err(e) => !expr.every_node_typed() && e == EvaluationError::Internal(
                "an evaluated expression has a node without a type",
            ),
        },
{
    let f = |m: &EvaluationMetadata| -> (u: Option<Type>)
        ensures
            u == m.type_of(),
        { m.ty.dup() };
    let typed = map_data(expr, &f);
    proof {
        expr.lemma_types_are(
            typed,
            |m: EvaluationMetadata, u: Option<Type>| call_ensures(&f, (&m,), u),
        );
    }
    if !all_typed(&typed) {
        return Err(
            EvaluationError::Internal("an evaluated expression has a node without a type"),
        );
    }
    Ok(typed)
}

impl Expr<Option<Type>> {
    /// The expression as an evaluated one: `root` at the root and all outcomes
    /// at every other node, each node with its own type.
    pub open spec fn annotated(&self, root: Set<EvaluationOutcome>) -> ETree
        decreases self,
        via Self::annotated_terminates
    {
        ETree {
            op: self.op(),
            loc: self.loc,
            outcomes: root,
            ty: self.data,
            kids: Seq::new(
                self.kids().len(),
                |i: int|
                    if 0 <= i < self.kids().len() {
                        self.kids()[i].annotated(Outcomes::flags(true, true, true))
                    } else {
                        arbitrary()
                    },
            ),
        }
    }

    #[via_fn]
    proof fn annotated_terminates(&self, root: Set<EvaluationOutcome>) {
        assert forall|i: int| 0 <= i < self.kids().len() implies decreases_to!(
            self => #[trigger] self.kids()[i]
        ) by {
            self.lemma_kid_decreases(i);
        }
    }

    /// Annotating keeps the expression.
    pub proof fn lemma_annotated_tree(&self, root: Set<EvaluationOutcome>)
        ensures
            self.annotated(root).tree() == self.tree(),
        decreases self,
    {
        let all = Outcomes::flags(true, true, true);
        assert forall|i: int| 0 <= i < self.kids().len() implies (
        #[trigger] self.kids()[i]).annotated(all).tree() == self.kids()[i].tree() by {
            self.lemma_kid_decreases(i);
            self.kids()[i].lemma_annotated_tree(all);
        }
        assert(self.annotated(root).tree().kids =~= self.tree().kids);
    }
}

/// Rebuilds a typed expression with `root` at the root and the default
/// metadata at every other node, each node carrying its own type.
pub fn zip_types(expr: &Expr<Option<Type>>, root: EvaluationMetadata) -> (r: Expr<
    EvaluationMetadata,
>)
    ensures
        r.full() == expr.annotated(root.can_be()),
    decreases expr,
{
    let n = expr.kid_count();
    let mut new: Vec<Expr<EvaluationMetadata>> = Vec::new();
    let mut i: usize = 0;
    while i < n
        invariant
            i <= n,
            n == expr.kids().len(),
            new@.len() == i,
            forall|j: int|
                0 <= j < i ==> (#[trigger] new@[j]).full() == expr.kids()[j].annotated(
                    Outcomes::flags(true, true, true),
                ),
        decreases n - i,
    {
        new.push(zip_types(expr.kid(i), EvaluationMetadata::default()));
        i += 1;
    }
    let r = rebuild(expr, new, root.with_ty(expr.data.dup()));
    assert(r.full().kids =~= expr.annotated(root.can_be()).kids);
    r
}

impl Expr<EvaluationMetadata> {
    /// Every node has all outcomes, and no type.
    pub open spec fn is_blank(&self) -> bool
        decreases self,
        via Self::is_blank_terminates
    {
        &&& self.data.can_be() == Outcomes::flags(true, true, true)
        &&& self.data.type_of() is None
        &&& forall|i: int| 0 <= i < self.kids().len() ==> (#[trigger] self.kids()[i]).is_blank()
    }

    #[via_fn]
    proof fn is_blank_terminates(&self) {
        assert forall|i: int| 0 <= i < self.kids().len() implies decreases_to!(
            self => #[trigger] self.kids()[i]
        ) by {
            self.lemma_kid_decreases(i);
        }
    }
}

/// Annotates every node of `expr` with all three outcomes, preserving its
/// structure exactly.
pub fn with_default_metadata(expr: &Expr<()>) -> (r: Expr<EvaluationMetadata>)
    ensures
        r.tree() == expr.tree(),
        r.loc == expr.loc,
        r.is_blank(),
    decreases expr,
{
    let n = expr.kid_count();
    let mut new: Vec<Expr<EvaluationMetadata>> = Vec::new();
    let mut i: usize = 0;
    while i < n
        invariant
            i <= n,
            n == expr.kids().len(),
            new@.len() == i,
            forall|j: int|
                0 <= j < i ==> (#[trigger] new@[j]).tree() == expr.tree().kids[j]
                    && new@[j].is_blank(),
        decreases n - i,
    {
        new.push(with_default_metadata(expr.kid(i)));
        i += 1;
    }
    let r = rebuild(expr, new, EvaluationMetadata::default());
    assert(r.tree().kids =~= expr.tree().kids);
    r
}

} // verus!
