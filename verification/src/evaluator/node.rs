//! The boolean structure of an expression, with every node compiled to a
//! term.

use std::sync::Arc;

use vstd::prelude::*;

use crate::ast::{same, share, Data, Expr, ExprKind, UnaryOp};
use crate::evaluator::compile::{Compiled, Existence, Mode, Sym, SymEnv};
use crate::evaluator::err::EvaluationError;
use crate::evaluator::term::{term_literal, Term};
use crate::expr_util::erase;
use crate::outcome::EvaluationOutcome;
use crate::tree::Tree;
use crate::types::Type;

verus! {

/// A node's existence facts by what it evaluated to.
#[derive(Debug)]
pub struct Facts {
    pub on_true: Vec<Existence>,
    pub on_false: Vec<Existence>,
    pub any: Vec<Existence>,
}

/// A node of the boolean structure.
#[derive(Debug)]
pub struct Node {
    /// The typed expression this node was built from.
    pub expr: Arc<Expr<Option<Type>>>,
    /// The term for the whole sub-expression, an optional boolean.
    pub term: Term,
    /// What kind of node this is.
    pub kind: NodeKind,
    /// The existence facts that hold when this node evaluates to `true`, to
    /// `false`, or to either.
    pub facts: Facts,
}

/// Node kinds. A child that is `None` could not be compiled, which does not
/// matter because the sibling on its left makes it dead.
#[derive(Debug)]
pub enum NodeKind {
    And(Box<Node>, Option<Box<Node>>),
    Or(Box<Node>, Option<Box<Node>>),
    If(Box<Node>, Option<Box<Node>>, Option<Box<Node>>),
    Not(Box<Node>),
    /// Anything that is not boolean structure. Compiled as a whole, with its
    /// existence-sensitive accesses in evaluation order. `keep` marks a
    /// `has`/`hasTag` guard the evaluator never folds to `true`.
    Atom { checks: Vec<Existence>, keep: bool },
}

/// What [`Facts`] are.
#[verifier::ext_equal]
pub struct FView {
    pub on_true: Seq<Existence>,
    pub on_false: Seq<Existence>,
    pub any: Seq<Existence>,
}

/// What a [`Node`] is.
pub struct NTree {
    pub expr: Expr<Option<Type>>,
    pub term: Term,
    pub kind: NKind,
    pub facts: FView,
}

/// What a [`NodeKind`] is.
pub enum NKind {
    And(Box<NTree>, Option<Box<NTree>>),
    Or(Box<NTree>, Option<Box<NTree>>),
    If(Box<NTree>, Option<Box<NTree>>, Option<Box<NTree>>),
    Not(Box<NTree>),
    Atom { checks: Seq<Existence>, keep: bool },
}

impl NKind {
    /// A child is not compiled although the sibling on its left is not the
    /// literal that makes it dead.
    pub open spec fn lacks(self) -> bool {
        match self {
            NKind::And(l, r) => r is None && l.term.literal() != Some(EvaluationOutcome::False),
            NKind::Or(l, r) => r is None && l.term.literal() != Some(EvaluationOutcome::True),
            NKind::If(c, a, b) => {
                ||| a is None && c.term.literal() != Some(EvaluationOutcome::False)
                ||| b is None && c.term.literal() != Some(EvaluationOutcome::True)
            },
            NKind::Not(_) | NKind::Atom { .. } => false,
        }
    }
}

impl FView {
    /// The facts when the node evaluated to `truth` (or to either).
    pub open spec fn given(self, truth: Option<bool>) -> Seq<Existence> {
        match truth {
            Some(true) => self.on_true,
            Some(false) => self.on_false,
            None => self.any,
        }
    }

    /// The facts of a structure node from its children's: an `&&` that is true
    /// ran both operands to `true`, an `||` that is false both to `false`;
    /// otherwise only the left operand (or the `if` test) is known to have run.
    pub open spec fn of_structure(kind: NKind) -> FView {
        match kind {
            NKind::And(l, r) => FView {
                on_true: l.facts.on_true + match r {
                    Some(r) => r.facts.on_true,
                    None => seq![],
                },
                on_false: l.facts.any,
                any: l.facts.any,
            },
            NKind::Or(l, r) => FView {
                on_true: l.facts.any,
                on_false: l.facts.on_false + match r {
                    Some(r) => r.facts.on_false,
                    None => seq![],
                },
                any: l.facts.any,
            },
            NKind::Not(x) => FView {
                on_true: x.facts.on_false,
                on_false: x.facts.on_true,
                any: x.facts.any,
            },
            NKind::If(c, _, _) => FView {
                on_true: c.facts.any,
                on_false: c.facts.any,
                any: c.facts.any,
            },
            NKind::Atom { .. } => FView { on_true: seq![], on_false: seq![], any: seq![] },
        }
    }
}

impl Facts {
    /// What the facts are.
    pub open spec fn view(&self) -> FView {
        FView { on_true: self.on_true@, on_false: self.on_false@, any: self.any@ }
    }

    /// The facts when the node evaluated to `truth` (`None`: to either).
    pub fn get(&self, truth: Option<bool>) -> (r: &Vec<Existence>)
        ensures
            r@ == self@.given(truth),
    {
        match truth {
            Some(true) => &self.on_true,
            Some(false) => &self.on_false,
            None => &self.any,
        }
    }
}

impl Node {
    /// What the node is.
    pub open spec fn view(&self) -> NTree
        decreases self,
    {
        NTree {
            expr: *self.expr,
            term: self.term,
            kind: match self.kind {
                NodeKind::And(l, r) => NKind::And(
                    Box::new(l@),
                    match r {
                        Some(r) => Some(Box::new(r@)),
                        None => None,
                    },
                ),
                NodeKind::Or(l, r) => NKind::Or(
                    Box::new(l@),
                    match r {
                        Some(r) => Some(Box::new(r@)),
                        None => None,
                    },
                ),
                NodeKind::If(c, a, b) => NKind::If(
                    Box::new(c@),
                    match a {
                        Some(a) => Some(Box::new(a@)),
                        None => None,
                    },
                    match b {
                        Some(b) => Some(Box::new(b@)),
                        None => None,
                    },
                ),
                NodeKind::Not(x) => NKind::Not(Box::new(x@)),
                NodeKind::Atom { checks, keep } => NKind::Atom { checks: checks@, keep },
            },
            facts: self.facts@,
        }
    }
}

/// Why an expression cannot be compiled into nodes.
pub enum BuildError {
    /// A node has no type.
    NotTyped,
    /// The compiler's error.
    Compile(String),
}

impl BuildError {
    /// `e` reports this error.
    pub open spec fn reported_as(self, e: EvaluationError) -> bool {
        match self {
            BuildError::NotTyped => e matches EvaluationError::NotWellTyped { errs } && errs@.len()
                == 0,
            BuildError::Compile(m) => e == EvaluationError::SymCC(m),
        }
    }
}

impl Expr<Option<Type>> {
    /// The expression is boolean.
    pub open spec fn is_bool(&self) -> bool {
        self.data matches Some(Type::Bool(_))
    }

    /// The expression as nodes: `&&`, `||`, `!` and boolean `if` are
    /// structure, everything else is an atom.
    pub open spec fn nodes(&self, s: Sym) -> Result<NTree, BuildError>
        decreases self,
    {
        if self.data is None {
            Err(BuildError::NotTyped)
        } else {
            match self.kind {
                ExprKind::And { left, right } => match left.nodes(s) {
                    Err(e) => Err(e),
                    Ok(l) => self.joined(
                        s,
                        NKind::And(
                            Box::new(l),
                            match right.nodes(s) {
                                Ok(r) => Some(Box::new(r)),
                                Err(_) => None,
                            },
                        ),
                        match right.nodes(s) {
                            Ok(_) => None,
                            Err(e) => Some(e),
                        },
                    ),
                },
                ExprKind::Or { left, right } => match left.nodes(s) {
                    Err(e) => Err(e),
                    Ok(l) => self.joined(
                        s,
                        NKind::Or(
                            Box::new(l),
                            match right.nodes(s) {
                                Ok(r) => Some(Box::new(r)),
                                Err(_) => None,
                            },
                        ),
                        match right.nodes(s) {
                            Ok(_) => None,
                            Err(e) => Some(e),
                        },
                    ),
                },
                ExprKind::UnaryApp { op, arg } => if op == UnaryOp::Not {
                    match arg.nodes(s) {
                        Err(e) => Err(e),
                        Ok(x) => self.joined(s, NKind::Not(Box::new(x)), None),
                    }
                } else {
                    self.atom(s)
                },
                ExprKind::If { test_expr, then_expr, else_expr } => if self.is_bool() {
                    match test_expr.nodes(s) {
                        Err(e) => Err(e),
                        Ok(c) => self.joined(
                            s,
                            NKind::If(
                                Box::new(c),
                                match then_expr.nodes(s) {
                                    Ok(a) => Some(Box::new(a)),
                                    Err(_) => None,
                                },
                                match else_expr.nodes(s) {
                                    Ok(b) => Some(Box::new(b)),
                                    Err(_) => None,
                                },
                            ),
                            match then_expr.nodes(s) {
                                Err(e) => Some(e),
                                Ok(_) => match else_expr.nodes(s) {
                                    Err(e) => Some(e),
                                    Ok(_) => None,
                                },
                            },
                        ),
                    }
                } else {
                    self.atom(s)
                },
                _ => self.atom(s),
            }
        }
    }

    /// A structure node. Where a child is lacking, or the node does not compile,
    /// the error is that of a child, if there is one, or the compiler's own.
    pub open spec fn joined(&self, s: Sym, kind: NKind, below: Option<BuildError>) -> Result<
        NTree,
        BuildError,
    > {
        match (s.compile)(self.tree()) {
            Ok(c) => if kind.lacks() && below is Some {
                Err(below->Some_0)
            } else {
                Ok(NTree { expr: *self, term: c.term, kind, facts: FView::of_structure(kind) })
            },
            Err(m) => match below {
                Some(e) => Err(e),
                None => Err(BuildError::Compile(m)),
            },
        }
    }

    /// An atom, with its accesses and facts.
    pub open spec fn atom(&self, s: Sym) -> Result<NTree, BuildError> {
        match (s.compile)(self.tree()) {
            Ok(c) => Ok(
                NTree {
                    expr: *self,
                    term: c.term,
                    kind: NKind::Atom {
                        checks: self.tree().accesses(s, true, Mode::Plain, None, true),
                        keep: false,
                    },
                    facts: FView {
                        on_true: self.tree().facts(s, Some(true)),
                        on_false: self.tree().facts(s, Some(false)),
                        any: self.tree().facts(s, None),
                    },
                },
            ),
            Err(m) => Err(BuildError::Compile(m)),
        }
    }

    /// The terms of the entities that the atoms mention, as far as the
    /// compiler gets.
    pub open spec fn touched(&self, s: Sym) -> Set<Term>
        decreases self,
    {
        if self.data is None {
            Set::empty()
        } else {
            match self.kind {
                ExprKind::And { left, right } | ExprKind::Or { left, right } => left.touched(s) + (
                if left.nodes(s) is Ok {
                    right.touched(s)
                } else {
                    Set::empty()
                }),
                ExprKind::UnaryApp { op, arg } => if op == UnaryOp::Not {
                    arg.touched(s)
                } else {
                    self.atom_touched(s)
                },
                ExprKind::If { test_expr, then_expr, else_expr } => if self.is_bool() {
                    test_expr.touched(s) + (if test_expr.nodes(s) is Ok {
                        then_expr.touched(s) + else_expr.touched(s)
                    } else {
                        Set::empty()
                    })
                } else {
                    self.atom_touched(s)
                },
                _ => self.atom_touched(s),
            }
        }
    }

    /// The terms of the entities that an atom mentions.
    pub open spec fn atom_touched(&self, s: Sym) -> Set<Term> {
        match (s.compile)(self.tree()) {
            Ok(c) => c.footprint@.to_set(),
            Err(_) => Set::empty(),
        }
    }
}

impl NTree {
    /// The term of every node is the one that compiling its expression gives,
    /// the checks and facts of every atom are those of its accesses, and the
    /// facts of the other nodes are those of their structure.
    pub open spec fn compiled_by(self, s: Sym) -> bool
        decreases self,
    {
        &&& (s.compile)(self.expr.tree()) matches Ok(c) && self.term == c.term
        &&& self.kind matches NKind::Atom { checks, .. } ==> {
            let t = self.expr.tree();
            &&& checks == t.accesses(s, true, Mode::Plain, None, true)
            &&& self.facts == FView {
                on_true: t.facts(s, Some(true)),
                on_false: t.facts(s, Some(false)),
                any: t.facts(s, None),
            }
        }
        &&& !(self.kind is Atom) ==> self.facts == FView::of_structure(self.kind)
        &&& match self.kind {
            NKind::And(l, r) | NKind::Or(l, r) => {
                &&& l.compiled_by(s)
                &&& r matches Some(r) ==> r.compiled_by(s)
            },
            NKind::If(c, a, b) => {
                &&& c.compiled_by(s)
                &&& a matches Some(a) ==> a.compiled_by(s)
                &&& b matches Some(b) ==> b.compiled_by(s)
            },
            NKind::Not(x) => x.compiled_by(s),
            NKind::Atom { .. } => true,
        }
    }
}

impl Expr<Option<Type>> {
    /// Every node of a typed expression, the root among them, has exactly the
    /// term that compiling its sub-expression on its own gives, and the checks
    /// and facts of its accesses.
    pub proof fn law_nodes_have_their_terms(&self, s: Sym)
        requires
            self.nodes(s) is Ok,
        ensures
            self.nodes(s)->Ok_0.expr == *self,
            self.nodes(s)->Ok_0.compiled_by(s),
        decreases self,
    {
        match self.kind {
            ExprKind::And { left, right } | ExprKind::Or { left, right } => {
                left.law_nodes_have_their_terms(s);
                if right.nodes(s) is Ok {
                    right.law_nodes_have_their_terms(s);
                }
            },
            ExprKind::UnaryApp { op, arg } => {
                if op == UnaryOp::Not {
                    arg.law_nodes_have_their_terms(s);
                }
            },
            ExprKind::If { test_expr, then_expr, else_expr } => {
                if self.is_bool() {
                    test_expr.law_nodes_have_their_terms(s);
                    if then_expr.nodes(s) is Ok {
                        then_expr.law_nodes_have_their_terms(s);
                    }
                    if else_expr.nodes(s) is Ok {
                        else_expr.law_nodes_have_their_terms(s);
                    }
                }
            },
            _ => {},
        }
    }
}

/// Copies of `v` followed by `w`.
fn both(v: &Vec<Existence>, w: Option<&Vec<Existence>>) -> (r: Vec<Existence>)
    ensures
        r@ == v@ + match w {
            Some(w) => w@,
            None => seq![],
        },
{
    let mut r: Vec<Existence> = Vec::new();
    copy_into(v, &mut r);
    match w {
        Some(w) => copy_into(w, &mut r),
        None => {},
    }
    assert(r@ =~= v@ + match w {
        Some(w) => w@,
        None => seq![],
    });
    r
}

/// Adds copies of `v` to `out`.
pub fn copy_into<T: Data>(v: &Vec<T>, out: &mut Vec<T>)
    ensures
        final(out)@ == old(out)@ + v@,
{
    let mut i: usize = 0;
    assert(out@ =~= old(out)@ + v@.take(0));
    while i < v.len()
        invariant
            i <= v@.len(),
            out@ == old(out)@ + v@.take(i as int),
        decreases v@.len() - i,
    {
        let ghost before = out@;
        out.push(v[i].dup());
        i += 1;
        assert(v@.take(i as int) =~= v@.take(i - 1).push(v@[i - 1]));
        assert(out@ =~= old(out)@ + v@.take(i as int));
    }
    assert(v@.take(i as int) =~= v@);
}

/// A copy of `v`.
pub fn copy_of<T: Data>(v: &Vec<T>) -> (r: Vec<T>)
    ensures
        r@ == v@,
{
    let mut r: Vec<T> = Vec::new();
    copy_into(v, &mut r);
    assert(r@ =~= v@);
    r
}

/// The facts of a structure node from its children's.
fn structure_facts(kind: &NodeKind) -> (r: Facts)
    ensures
        r@ == FView::of_structure(
            match kind {
                NodeKind::And(l, r) => NKind::And(
                    Box::new(l@),
                    match r {
                        Some(r) => Some(Box::new(r@)),
                        None => None,
                    },
                ),
                NodeKind::Or(l, r) => NKind::Or(
                    Box::new(l@),
                    match r {
                        Some(r) => Some(Box::new(r@)),
                        None => None,
                    },
                ),
                NodeKind::If(c, a, b) => NKind::If(
                    Box::new(c@),
                    match a {
                        Some(a) => Some(Box::new(a@)),
                        None => None,
                    },
                    match b {
                        Some(b) => Some(Box::new(b@)),
                        None => None,
                    },
                ),
                NodeKind::Not(x) => NKind::Not(Box::new(x@)),
                NodeKind::Atom { checks, keep } => NKind::Atom { checks: checks@, keep: *keep },
            },
        ),
{
    match kind {
        NodeKind::And(l, r) => Facts {
            on_true: match r {
                Some(r) => both(&l.facts.on_true, Some(&r.facts.on_true)),
                None => both(&l.facts.on_true, None),
            },
            on_false: copy_of(&l.facts.any),
            any: copy_of(&l.facts.any),
        },
        NodeKind::Or(l, r) => Facts {
            on_true: copy_of(&l.facts.any),
            on_false: match r {
                Some(r) => both(&l.facts.on_false, Some(&r.facts.on_false)),
                None => both(&l.facts.on_false, None),
            },
            any: copy_of(&l.facts.any),
        },
        NodeKind::Not(x) => Facts {
            on_true: copy_of(&x.facts.on_false),
            on_false: copy_of(&x.facts.on_true),
            any: copy_of(&x.facts.any),
        },
        NodeKind::If(c, _, _) => Facts {
            on_true: copy_of(&c.facts.any),
            on_false: copy_of(&c.facts.any),
            any: copy_of(&c.facts.any),
        },
        NodeKind::Atom { .. } => Facts {
            on_true: Vec::new(),
            on_false: Vec::new(),
            any: Vec::new(),
        },
    }
}

/// Adds the terms of `v` to the set that `out` lists.
fn extend_footprint(v: &Vec<Term>, out: &mut Vec<Term>)
    ensures
        final(out)@.to_set() == old(out)@.to_set() + v@.to_set(),
{
    let ghost before = out@;
    copy_into(v, out);
    proof {
        let all = before + v@;
        assert forall|t: Term| #[trigger] all.to_set().contains(t) <==> (before.to_set()
            + v@.to_set()).contains(t) by {
            if before.contains(t) {
                let i = choose|i: int| 0 <= i < before.len() && before[i] == t;
                assert(all[i] == t);
            }
            if v@.contains(t) {
                let i = choose|i: int| 0 <= i < v@.len() && v@[i] == t;
                assert(all[before.len() + i] == t);
            }
            if all.contains(t) {
                let i = choose|i: int| 0 <= i < all.len() && all[i] == t;
                if i < before.len() {
                    assert(before.contains(t));
                } else {
                    assert(v@[i - before.len()] == t);
                    assert(v@.contains(t));
                }
            }
        }
        assert(all.to_set() =~= before.to_set() + v@.to_set());
    }
}

/// The nodes of a typed boolean expression. The terms of entity type that its
/// atoms mention are added to `footprint`.
pub fn build_tree<C: Fn(&Expr<()>) -> Result<Compiled, String>>(
    typed: &Arc<Expr<Option<Type>>>,
    env: &SymEnv<C>,
    footprint: &mut Vec<Term>,
) -> (r: Result<Node, EvaluationError>)
    requires
        env.callable(),
    ensures
        forall|s: Sym| #[trigger]
            env.computes(s) ==> {
                &&& final(footprint)@.to_set() == old(footprint)@.to_set() + typed.touched(s)
                &&& match r {
                    Ok(n) => typed.nodes(s) matches Ok(t) && t == n@,
                    Err(e) => typed.nodes(s) matches Err(b) && b.reported_as(e),
                }
            },
    decreases typed,
{
    let ghost start = footprint@.to_set();
    if typed.data.is_none() {
        assert forall|s: Sym| #[trigger] env.computes(s) implies footprint@.to_set() == start
            + typed.touched(s) by {
            assert(footprint@.to_set() =~= start + typed.touched(s));
        }
        return Err(EvaluationError::NotWellTyped { errs: Vec::new() });
    }
    match &typed.kind {
        ExprKind::And { left, right } => {
            let l = match build_tree(left, env, footprint) {
                Ok(l) => l,
                Err(e) => {
                    assert forall|s: Sym| #[trigger] env.computes(s) implies footprint@.to_set()
                        == start + typed.touched(s) by {
                        assert(footprint@.to_set() =~= start + typed.touched(s));
                    }
                    return Err(e);
                },
            };
            let (r, below) = match build_tree(right, env, footprint) {
                Ok(r) => (Some(Box::new(r)), None),
                Err(e) => (None, Some(e)),
            };
            assert forall|s: Sym| #[trigger] env.computes(s) implies footprint@.to_set() == start
                + typed.touched(s) by {
                assert(footprint@.to_set() =~= start + typed.touched(s));
            }
            join(typed, env, NodeKind::And(Box::new(l), r), below)
        },
        ExprKind::Or { left, right } => {
            let l = match build_tree(left, env, footprint) {
                Ok(l) => l,
                Err(e) => {
                    assert forall|s: Sym| #[trigger] env.computes(s) implies footprint@.to_set()
                        == start + typed.touched(s) by {
                        assert(footprint@.to_set() =~= start + typed.touched(s));
                    }
                    return Err(e);
                },
            };
            let (r, below) = match build_tree(right, env, footprint) {
                Ok(r) => (Some(Box::new(r)), None),
                Err(e) => (None, Some(e)),
            };
            assert forall|s: Sym| #[trigger] env.computes(s) implies footprint@.to_set() == start
                + typed.touched(s) by {
                assert(footprint@.to_set() =~= start + typed.touched(s));
            }
            join(typed, env, NodeKind::Or(Box::new(l), r), below)
        },
        ExprKind::UnaryApp { op: UnaryOp::Not, arg } => {
            let x = match build_tree(arg, env, footprint) {
                Ok(x) => x,
                Err(e) => return Err(e),
            };
            join(typed, env, NodeKind::Not(Box::new(x)), None)
        },
        ExprKind::If { test_expr, then_expr, else_expr } => {
            let is_bool = match &typed.data {
                Some(Type::Bool(_)) => true,
                _ => false,
            };
            if !is_bool {
                return build_atom(typed, env, footprint);
            }
            let c = match build_tree(test_expr, env, footprint) {
                Ok(c) => c,
                Err(e) => {
                    assert forall|s: Sym| #[trigger] env.computes(s) implies footprint@.to_set()
                        == start + typed.touched(s) by {
                        assert(footprint@.to_set() =~= start + typed.touched(s));
                    }
                    return Err(e);
                },
            };
            let (a, a_err) = match build_tree(then_expr, env, footprint) {
                Ok(a) => (Some(Box::new(a)), None),
                Err(e) => (None, Some(e)),
            };
            let (b, b_err) = match build_tree(else_expr, env, footprint) {
                Ok(b) => (Some(Box::new(b)), None),
                Err(e) => (None, Some(e)),
            };
            let below = match a_err {
                Some(e) => Some(e),
                None => b_err,
            };
            assert forall|s: Sym| #[trigger] env.computes(s) implies footprint@.to_set() == start
                + typed.touched(s) by {
                assert(footprint@.to_set() =~= start + typed.touched(s));
            }
            join(typed, env, NodeKind::If(Box::new(c), a, b), below)
        },
        _ => build_atom(typed, env, footprint),
    }
}

impl NodeKind {
    /// What the kind is.
    pub open spec fn view(&self) -> NKind {
        match self {
            NodeKind::And(l, r) => NKind::And(
                Box::new(l@),
                match r {
                    Some(r) => Some(Box::new(r@)),
                    None => None,
                },
            ),
            NodeKind::Or(l, r) => NKind::Or(
                Box::new(l@),
                match r {
                    Some(r) => Some(Box::new(r@)),
                    None => None,
                },
            ),
            NodeKind::If(c, a, b) => NKind::If(
                Box::new(c@),
                match a {
                    Some(a) => Some(Box::new(a@)),
                    None => None,
                },
                match b {
                    Some(b) => Some(Box::new(b@)),
                    None => None,
                },
            ),
            NodeKind::Not(x) => NKind::Not(Box::new(x@)),
            NodeKind::Atom { checks, keep } => NKind::Atom { checks: checks@, keep: *keep },
        }
    }
}

/// Whether `t` is the literal `some(b)`.
fn is_literally(t: &Term, b: bool) -> (r: bool)
    ensures
        r == (t.literal() == Some(EvaluationOutcome::of_bool(b))),
{
    match term_literal(t) {
        Some(EvaluationOutcome::True) => b,
        Some(EvaluationOutcome::False) => !b,
        _ => false,
    }
}

impl NodeKind {
    /// Whether a child is not compiled although the sibling on its left is not
    /// the literal that makes it dead.
    fn lacks(&self) -> (r: bool)
        ensures
            r == self@.lacks(),
    {
        match self {
            NodeKind::And(l, r) => r.is_none() && !is_literally(&l.term, false),
            NodeKind::Or(l, r) => r.is_none() && !is_literally(&l.term, true),
            NodeKind::If(c, a, b) => {
                (a.is_none() && !is_literally(&c.term, false)) || (b.is_none() && !is_literally(
                    &c.term,
                    true,
                ))
            },
            NodeKind::Not(_) | NodeKind::Atom { .. } => false,
        }
    }
}

/// The structure node of `typed` with the kind `kind`; `below` is the error of
/// a child that could not be compiled.
fn join<C: Fn(&Expr<()>) -> Result<Compiled, String>>(
    typed: &Arc<Expr<Option<Type>>>,
    env: &SymEnv<C>,
    kind: NodeKind,
    below: Option<EvaluationError>,
) -> (r: Result<Node, EvaluationError>)
    requires
        env.callable(),
    ensures
        forall|s: Sym, b: Option<BuildError>|
            env.computes(s) && (match (below, b) {
                (Some(e), Some(b)) => b.reported_as(e),
                (None, None) => true,
                _ => false,
            }) ==> match r {
                Ok(n) => #[trigger] typed.joined(s, kind@, b) matches Ok(t) && t == n@,
                Err(e) => typed.joined(s, kind@, b) matches Err(x) && x.reported_as(e),
            },
{
    let erased = erase(typed);
    match (env.compile)(&erased) {
        Ok(c) => {
            if kind.lacks() {
                if let Some(e) = below {
                    return Err(e);
                }
            }
            let facts = structure_facts(&kind);
            Ok(Node { expr: share(typed), term: c.term, kind, facts })
        },
        Err(m) => match below {
            Some(e) => Err(e),
            None => Err(EvaluationError::SymCC(m)),
        },
    }
}

/// The atom of `typed`.
fn build_atom<C: Fn(&Expr<()>) -> Result<Compiled, String>>(
    typed: &Arc<Expr<Option<Type>>>,
    env: &SymEnv<C>,
    footprint: &mut Vec<Term>,
) -> (r: Result<Node, EvaluationError>)
    requires
        env.callable(),
    ensures
        forall|s: Sym| #[trigger]
            env.computes(s) ==> {
                &&& final(footprint)@.to_set() == old(footprint)@.to_set() + typed.atom_touched(s)
                &&& match r {
                    Ok(n) => typed.atom(s) matches Ok(t) && t == n@,
                    Err(e) => typed.atom(s) matches Err(b) && b.reported_as(e),
                }
            },
{
    let ghost start = footprint@.to_set();
    let erased = erase(typed);
    match (env.compile)(&erased) {
        Ok(c) => {
            extend_footprint(&c.footprint, footprint);
            let checks = env.existence_checks(&**typed);
            let facts = Facts {
                on_true: env.existence_facts(&**typed, Some(true)),
                on_false: env.existence_facts(&**typed, Some(false)),
                any: env.existence_facts(&**typed, None),
            };
            Ok(
                Node {
                    expr: share(typed),
                    term: c.term,
                    kind: NodeKind::Atom { checks, keep: false },
                    facts,
                },
            )
        },
        Err(m) => {
            assert forall|s: Sym| #[trigger] env.computes(s) implies footprint@.to_set() == start
                + typed.atom_touched(s) by {
                assert(footprint@.to_set() =~= start + typed.atom_touched(s));
            }
            Err(EvaluationError::SymCC(m))
        },
    }
}

impl NTree {
    /// The nodes with the atoms among `kept` marked.
    pub open spec fn marked(self, kept: Seq<Tree>) -> NTree
        decreases self,
    {
        NTree {
            kind: match self.kind {
                NKind::Atom { checks, .. } => NKind::Atom {
                    checks,
                    keep: kept.contains(self.expr.tree()),
                },
                NKind::Not(x) => NKind::Not(Box::new(x.marked(kept))),
                NKind::And(l, r) => NKind::And(
                    Box::new(l.marked(kept)),
                    match r {
                        Some(r) => Some(Box::new(r.marked(kept))),
                        None => None,
                    },
                ),
                NKind::Or(l, r) => NKind::Or(
                    Box::new(l.marked(kept)),
                    match r {
                        Some(r) => Some(Box::new(r.marked(kept))),
                        None => None,
                    },
                ),
                NKind::If(c, a, b) => NKind::If(
                    Box::new(c.marked(kept)),
                    match a {
                        Some(a) => Some(Box::new(a.marked(kept))),
                        None => None,
                    },
                    match b {
                        Some(b) => Some(Box::new(b.marked(kept))),
                        None => None,
                    },
                ),
            },
            ..self
        }
    }
}

/// Whether one of `kept` has the shape of `e`.
fn is_kept(kept: &Vec<Expr<()>>, e: &Expr<Option<Type>>) -> (r: bool)
    ensures
        r == crate::ast::trees(kept@).contains(e.tree()),
{
    let mut i: usize = 0;
    while i < kept.len()
        invariant
            i <= kept@.len(),
            forall|j: int| 0 <= j < i ==> (#[trigger] crate::ast::trees(kept@)[j]) != e.tree(),
        decreases kept@.len() - i,
    {
        if same(&kept[i], e) {
            assert(crate::ast::trees(kept@)[i as int] == e.tree());
            return true;
        }
        i += 1;
    }
    false
}

/// Marks the atoms of `node` that are among `kept` (structurally).
pub fn mark_kept(node: Node, kept: &Vec<Expr<()>>) -> (r: Node)
    ensures
        r@ == node@.marked(crate::ast::trees(kept@)),
    decreases node,
{
    let Node { expr, term, kind, facts } = node;
    let kind = match kind {
        NodeKind::Atom { checks, .. } => {
            let keep = is_kept(kept, &expr);
            NodeKind::Atom { checks, keep }
        },
        NodeKind::Not(x) => NodeKind::Not(Box::new(mark_kept(*x, kept))),
        NodeKind::And(l, r) => NodeKind::And(
            Box::new(mark_kept(*l, kept)),
            match r {
                Some(r) => Some(Box::new(mark_kept(*r, kept))),
                None => None,
            },
        ),
        NodeKind::Or(l, r) => NodeKind::Or(
            Box::new(mark_kept(*l, kept)),
            match r {
                Some(r) => Some(Box::new(mark_kept(*r, kept))),
                None => None,
            },
        ),
        NodeKind::If(c, a, b) => NodeKind::If(
            Box::new(mark_kept(*c, kept)),
            match a {
                Some(a) => Some(Box::new(mark_kept(*a, kept))),
                None => None,
            },
            match b {
                Some(b) => Some(Box::new(mark_kept(*b, kept))),
                None => None,
            },
        ),
    };
    Node { expr, term, kind, facts }
}

} // verus!
