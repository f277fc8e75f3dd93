//! Compiling a typed boolean expression into a tree of terms that mirrors its
//! boolean structure.
//!
//! The symbolic compiler is a parameter: a function from expressions to
//! terms.

use std::sync::Arc;

use vstd::prelude::*;

use crate::ast::{same, share, BinaryOp, Data, Expr, ExprKind, Prim, UnaryOp};
use crate::evaluator::err::EvaluationError;
use crate::evaluator::term::Term;
use crate::expr_util::erase;
use crate::iferror::is_iferror;
use crate::outcome::EvaluationOutcome;
use crate::policy::Policy;
use crate::tree::{Atomic, Op, Tree};
use crate::typechecked::{Checked, TypecheckError, Typecheckable};
use crate::types::{RequestEnv, Schema, Type};

verus! {

/// The type of what an expression compiles to, as far as it is read.
#[derive(Debug)]
pub enum TermType {
    /// An entity of this type.
    Entity(String),
    /// A record: its attributes, and whether each is optional.
    RecordOf(Arc<Vec<(String, bool)>>),
    Other,
}

/// What the symbolic compiler makes of an expression.
#[derive(Debug)]
pub struct Compiled {
    pub term: Term,
    /// The type of the value, where there is one.
    pub ty: TermType,
    /// The terms of entity type that occur.
    pub footprint: Vec<Term>,
}

/// The entity types, each with its attributes and whether they are optional.
#[derive(Debug)]
pub struct EntityAttrs {
    pub types: Vec<(String, Arc<Vec<(String, bool)>>)>,
}

/// A request environment as the compiler sees it: the compiler, and the
/// attributes of the entity types.
#[derive(Debug)]
pub struct SymEnv<C> {
    pub compile: C,
    pub entities: EntityAttrs,
}

/// What a [`SymEnv`] computes.
pub struct Sym {
    pub compile: spec_fn(Tree) -> Result<Compiled, String>,
    pub entities: EntityAttrs,
}

/// Whether the first of `attrs` that is named `attr` is optional.
pub open spec fn attr_optional(attrs: Seq<(String, bool)>, attr: Seq<char>) -> Option<bool>
    decreases attrs.len(),
{
    if attrs.len() == 0 {
        None
    } else if attrs[0].0@ == attr {
        Some(attrs[0].1)
    } else {
        attr_optional(attrs.drop_first(), attr)
    }
}

/// The attributes of the first of `types` that is named `ety`.
pub open spec fn attrs_of(types: Seq<(String, Arc<Vec<(String, bool)>>)>, ety: Seq<char>) -> Option<
    Arc<Vec<(String, bool)>>,
>
    decreases types.len(),
{
    if types.len() == 0 {
        None
    } else if types[0].0@ == ety {
        Some(types[0].1)
    } else {
        attrs_of(types.drop_first(), ety)
    }
}

fn find_attr(attrs: &Vec<(String, bool)>, attr: &String) -> (r: Option<bool>)
    ensures
        r == attr_optional(attrs@, attr@),
{
    let mut i: usize = 0;
    assert(attrs@.skip(0) =~= attrs@);
    while i < attrs.len()
        invariant
            i <= attrs@.len(),
            attr_optional(attrs@, attr@) == attr_optional(attrs@.skip(i as int), attr@),
        decreases attrs@.len() - i,
    {
        assert(attrs@.skip(i as int).drop_first() =~= attrs@.skip(i + 1));
        if attrs[i].0 == *attr {
            return Some(attrs[i].1);
        }
        i += 1;
    }
    None
}

impl EntityAttrs {
    fn attrs(&self, ety: &String) -> (r: Option<Arc<Vec<(String, bool)>>>)
        ensures
            r == attrs_of(self.types@, ety@),
    {
        let mut i: usize = 0;
        assert(self.types@.skip(0) =~= self.types@);
        while i < self.types.len()
            invariant
                i <= self.types@.len(),
                attrs_of(self.types@, ety@) == attrs_of(self.types@.skip(i as int), ety@),
            decreases self.types@.len() - i,
        {
            assert(self.types@.skip(i as int).drop_first() =~= self.types@.skip(i + 1));
            if self.types[i].0 == *ety {
                return Some(share(&self.types[i].1));
            }
            i += 1;
        }
        None
    }
}

impl<C: Fn(&Expr<()>) -> Result<Compiled, String>> SymEnv<C> {
    /// The compiler can be called on every expression.
    pub open spec fn callable(&self) -> bool {
        forall|e: Expr<()>| call_requires(self.compile, (&e,))
    }

    /// The compiler computes `s` from the expression alone.
    pub open spec fn computes(&self, s: Sym) -> bool {
        &&& s.entities == self.entities
        &&& forall|e: Expr<()>, o: Result<Compiled, String>| #[trigger]
            call_ensures(self.compile, (&e,), o) ==> o == (s.compile)(e.tree())
    }

    /// What `x` compiles to, without its data.
    pub fn compiled<T>(&self, x: &Expr<T>) -> (r: Result<Compiled, String>)
        requires
            self.callable(),
        ensures
            forall|s: Sym| #[trigger] self.computes(s) ==> r == (s.compile)(x.tree()),
    {
        let erased = erase(x);
        (self.compile)(&erased)
    }
}

impl Sym {
    /// The term of an entity-typed expression, and its entity type.
    pub open spec fn receiver(self, t: Tree) -> Option<(Term, String)> {
        match (self.compile)(t) {
            Ok(c) => match c.ty {
                TermType::Entity(ety) => Some((c.term, ety)),
                _ => None,
            },
            Err(_) => None,
        }
    }

    /// The schema requires the attribute on the entity type.
    pub open spec fn required(self, ety: Seq<char>, attr: Seq<char>) -> bool {
        match attrs_of(self.entities.types@, ety) {
            Some(attrs) => attr_optional(attrs@, attr) == Some(false),
            None => false,
        }
    }

    /// The guard is needed for its access to validate: a `has` of an attribute
    /// that is optional on the receiver's type, or any `hasTag`.
    pub open spec fn optional_guard(self, g: Tree) -> bool {
        match g.op {
            Op::HasAttr(attr) => match (self.compile)(g.kids[0]) {
                Ok(c) => match c.ty {
                    TermType::Entity(ety) => match attrs_of(self.entities.types@, ety@) {
                        Some(attrs) => attr_optional(attrs@, attr) == Some(true),
                        None => false,
                    },
                    TermType::RecordOf(attrs) => attr_optional(attrs@, attr) == Some(true),
                    TermType::Other => false,
                },
                Err(_) => false,
            },
            Op::Binary(op) => op == BinaryOp::HasTag,
            _ => false,
        }
    }
}

/// `r` is the typed form of `expr` in `env`, or why there is none; `check` is
/// the typechecker of `schema`.
pub open spec fn typecheck_gives<T: Typecheckable, K: Fn(&Policy, &RequestEnv) -> Checked>(
    expr: &T,
    env: &RequestEnv,
    schema: &Schema,
    check: &K,
    r: Result<Arc<Expr<Option<Type>>>, EvaluationError>,
) -> bool {
    match r {
        Ok(t) => {
            &&& crate::types::env_views(schema.envs()).contains(env@)
            &&& match expr.known(env, schema) {
                Some(k) => t == k,
                None => crate::typechecked::checks_expr(check, expr.untyped_expr(), *env, Ok(*t)),
            }
        },
        Err(EvaluationError::RequestEnvNotFound(e)) => e@ == env@
            && !crate::types::env_views(schema.envs()).contains(env@),
        Err(EvaluationError::NotWellTyped { errs }) => {
            &&& crate::types::env_views(schema.envs()).contains(env@)
            &&& expr.known(env, schema) is None
            &&& exists|e: TypecheckError| #[trigger]
                crate::typechecked::checks_expr(check, expr.untyped_expr(), *env, Err(e))
                    && match e {
                    TypecheckError::NotWellTyped { errs: es } => es == errs,
                    _ => errs@.len() == 0,
                }
        },
        Err(_) => false,
    }
}

/// The typed form of `expr` in `env`; `check` is the typechecker of `schema`.
pub fn typecheck<T: Typecheckable, K: Fn(&Policy, &RequestEnv) -> Checked>(
    expr: &T,
    env: &RequestEnv,
    schema: &Schema,
    check: &K,
) -> (r: Result<Arc<Expr<Option<Type>>>, EvaluationError>)
    requires
        forall|p: Policy, e: RequestEnv| call_requires(check, (&p, &e)),
    ensures
        typecheck_gives(expr, env, schema, check, r),
{
    if !schema.has_env(env) {
        return Err(EvaluationError::RequestEnvNotFound(env.dup()));
    }
    match expr.typechecked(env, schema, check) {
        Ok(t) => Ok(t),
        Err(e) => {
            assert(crate::typechecked::checks_expr(check, expr.untyped_expr(), *env, Err(e)));
            match e {
                TypecheckError::NotWellTyped { errs } => Err(EvaluationError::NotWellTyped { errs }),
                TypecheckError::MissingType | TypecheckError::UnboundSlot(_) => Err(
                    EvaluationError::NotWellTyped { errs: Vec::new() },
                ),
            }
        },
    }
}

/// The error of an assumption, for the error of a target expression.
pub open spec fn as_assumption_error(e: EvaluationError, env: RequestEnv, r: EvaluationError) ->
    bool {
    match e {
        EvaluationError::NotWellTyped { errs } => r matches EvaluationError::AssumptionNotWellTyped {
            env: en,
            errs: es,
        } && en@ == env@ && es == errs,
        other => r == other,
    }
}

/// Reports that an expression is not well typed as the failure of an
/// assumption.
pub fn assumption_error(e: EvaluationError, env: &RequestEnv) -> (r: EvaluationError)
    ensures
        as_assumption_error(e, *env, r),
{
    match e {
        EvaluationError::NotWellTyped { errs } => EvaluationError::AssumptionNotWellTyped {
            env: env.dup(),
            errs,
        },
        other => other,
    }
}

/// Requires the root of a typed expression to be boolean.
pub fn require_boolean(typed: &Expr<Option<Type>>) -> (r: Result<(), EvaluationError>)
    ensures
        match r {
            Ok(_) => typed.data matches Some(Type::Bool(_)),
            Err(EvaluationError::NotBoolean { ty }) => typed.data == Some(ty) && !(ty is Bool),
            Err(EvaluationError::NotWellTyped { errs }) => typed.data is None && errs@.len() == 0,
            Err(_) => false,
        },
{
    match &typed.data {
        Some(Type::Bool(_)) => Ok(()),
        Some(ty) => Err(EvaluationError::NotBoolean { ty: ty.dup() }),
        None => Err(EvaluationError::NotWellTyped { errs: Vec::new() }),
    }
}

/// Outcomes that join those of an atom.
#[derive(Clone, Copy, Debug, PartialEq, Eq, Structural)]
pub struct Adds {
    pub can_true: bool,
    pub can_false: bool,
    pub can_error: bool,
}

impl Adds {
    /// The outcomes.
    pub open spec fn set(self) -> Set<EvaluationOutcome> {
        crate::outcome::Outcomes::flags(self.can_true, self.can_false, self.can_error)
    }

    /// No outcome.
    pub open spec fn none() -> Adds {
        Adds { can_true: false, can_false: false, can_error: false }
    }

    /// All outcomes.
    pub open spec fn all() -> Adds {
        Adds { can_true: true, can_false: true, can_error: true }
    }
}

/// An access inside an atom whose concrete result depends on the receiver
/// entity *existing*, which the symbolic encoding does not model: `getAttr`
/// and `getTag` err on a missing entity, `has` of a required attribute is
/// `false`.
#[derive(Debug)]
pub struct Existence {
    /// The receiver.
    pub receiver: Term,
    /// Its entity type.
    pub ety: String,
    /// The outcomes the *atom* may take when the receiver is missing (none for
    /// an access that only serves as a fact).
    pub adds: Adds,
    /// Whether the receiver is known to exist whenever the enclosing
    /// expression evaluates as assumed.
    pub fact: bool,
}

impl Data for Existence {
    fn dup(&self) -> (r: Self) {
        Existence {
            receiver: self.receiver.dup(),
            ety: self.ety.clone(),
            adds: self.adds,
            fact: self.fact,
        }
    }
}

/// Where an access sits with respect to `iferror`: plainly, or under the first
/// argument of one, whose fallback, when the `iferror` is the atom itself and
/// the fallback a boolean literal, is what the atom takes when the access hits
/// a missing entity.
#[derive(Clone, Copy, Debug, PartialEq, Eq, Structural)]
pub enum Mode {
    Plain,
    Coalesced(Option<bool>),
}

impl Mode {
    /// The outcomes that an access which errs on a missing entity gives the
    /// atom.
    pub open spec fn erring(self) -> Adds {
        match self {
            Mode::Plain => Adds { can_error: true, ..Adds::none() },
            Mode::Coalesced(Some(b)) => Adds { can_true: b, can_false: !b, ..Adds::none() },
            Mode::Coalesced(None) => Adds::all(),
        }
    }

    fn erring_adds(self) -> (r: Adds)
        ensures
            r == self.erring(),
    {
        match self {
            Mode::Plain => Adds { can_true: false, can_false: false, can_error: true },
            Mode::Coalesced(Some(b)) => Adds { can_true: b, can_false: !b, can_error: false },
            Mode::Coalesced(None) => Adds { can_true: true, can_false: true, can_error: true },
        }
    }

    /// The outcomes that a `has` of a required attribute gives the atom when
    /// the entity is missing.
    pub open spec fn absent(self, root: bool) -> Adds {
        match self {
            Mode::Plain => if root {
                Adds { can_false: true, ..Adds::none() }
            } else {
                Adds::all()
            },
            Mode::Coalesced(Some(_)) => Adds { can_true: true, can_false: true, ..Adds::none() },
            Mode::Coalesced(None) => Adds::all(),
        }
    }

    fn absent_adds(self, root: bool) -> (r: Adds)
        ensures
            r == self.absent(root),
    {
        match self {
            Mode::Plain => if root {
                Adds { can_true: false, can_false: true, can_error: false }
            } else {
                Adds { can_true: true, can_false: true, can_error: true }
            },
            Mode::Coalesced(Some(_)) => Adds { can_true: true, can_false: true, can_error: false },
            Mode::Coalesced(None) => Adds { can_true: true, can_false: true, can_error: true },
        }
    }
}

impl Tree {
    /// The symbolic value may differ from the concrete one without an error on
    /// a missing entity: an `iferror` or a `has` occurs. No fact is derived
    /// from an access on such a receiver.
    pub open spec fn phantom(self) -> bool
        decreases self,
    {
        self.op is HasAttr || self.is_iferror() || exists|i: int|
            0 <= i < self.kids.len() && (#[trigger] self.kids[i]).phantom()
    }

    /// The boolean that the expression is, if it is a literal.
    pub open spec fn bool_literal(self) -> Option<bool> {
        match self.op {
            Op::Lit(Atomic::Bool(b)) => Some(b),
            _ => None,
        }
    }

    /// The existence-sensitive accesses of an expression, in evaluation order:
    /// a receiver's own accesses before the access on it.
    ///
    /// `strict` says whether the expression is evaluated whenever the
    /// enclosing one is; `truth` what the enclosing evaluation is assumed to
    /// have produced (some value, or the value `b`); `root` whether it is the
    /// atom itself. A fact is an access whose receiver must exist under that
    /// assumption: a strict plain `getAttr`/`getTag`, or a `has`/`hasTag` that
    /// is true, on a receiver that is not phantom.
    pub open spec fn accesses(
        self,
        s: Sym,
        strict: bool,
        mode: Mode,
        truth: Option<bool>,
        root: bool,
    ) -> Seq<Existence>
        decreases self,
    {
        let plain_strict = strict && mode == Mode::Plain;
        let n = self.kids.len();
        if self.op is GetAttr && n == 1 {
            self.kids[0].accesses(s, strict, mode, None, false) + match s.receiver(self.kids[0]) {
                Some((receiver, ety)) => seq![
                    Existence {
                        receiver,
                        ety,
                        adds: mode.erring(),
                        fact: plain_strict && !self.kids[0].phantom(),
                    },
                ],
                None => seq![],
            }
        } else if self.op is HasAttr && n == 1 {
            self.kids[0].accesses(s, strict, mode, None, false) + match s.receiver(self.kids[0]) {
                Some((receiver, ety)) => {
                    let required = s.required(ety@, self.op->HasAttr_0);
                    let fact = plain_strict && truth == Some(true) && !self.kids[0].phantom();
                    if required || fact {
                        seq![
                            Existence {
                                receiver,
                                ety,
                                adds: if required {
                                    mode.absent(root)
                                } else {
                                    Adds::none()
                                },
                                fact,
                            },
                        ]
                    } else {
                        seq![]
                    }
                },
                None => seq![],
            }
        } else if self.op == Op::Binary(BinaryOp::GetTag) && n == 2 {
            self.kids[0].accesses(s, strict, mode, None, false) + self.kids[1].accesses(
                s,
                strict,
                mode,
                None,
                false,
            ) + match s.receiver(self.kids[0]) {
                Some((receiver, ety)) => seq![
                    Existence {
                        receiver,
                        ety,
                        adds: mode.erring(),
                        fact: plain_strict && !self.kids[0].phantom(),
                    },
                ],
                None => seq![],
            }
        } else if self.op == Op::Binary(BinaryOp::HasTag) && n == 2 {
            self.kids[0].accesses(s, strict, mode, None, false) + self.kids[1].accesses(
                s,
                strict,
                mode,
                None,
                false,
            ) + if plain_strict && truth == Some(true) && !self.kids[0].phantom() {
                match s.receiver(self.kids[0]) {
                    Some((receiver, ety)) => seq![
                        Existence { receiver, ety, adds: Adds::none(), fact: true },
                    ],
                    None => seq![],
                }
            } else {
                seq![]
            }
        } else if self.is_iferror() && n == 2 {
            let fallback = if root {
                self.kids[1].bool_literal()
            } else {
                None
            };
            self.kids[0].accesses(s, false, Mode::Coalesced(fallback), None, false)
                + self.kids[1].accesses(s, false, mode, None, false)
        } else if (self.op == Op::And || self.op == Op::Or) && n == 2 {
            let on = self.op == Op::And;
            let decided = truth == Some(on);
            let passes = self.kids[0].bool_literal() == Some(on);
            self.kids[0].accesses(
                s,
                strict,
                mode,
                if decided {
                    truth
                } else {
                    None
                },
                false,
            ) + self.kids[1].accesses(
                s,
                strict && (decided || passes),
                mode,
                if decided || passes {
                    truth
                } else {
                    None
                },
                false,
            )
        } else if self.op == Op::Unary(UnaryOp::Not) && n == 1 {
            self.kids[0].accesses(
                s,
                strict,
                mode,
                match truth {
                    Some(b) => Some(!b),
                    None => None,
                },
                false,
            )
        } else if self.op == Op::If && n == 3 {
            self.kids[0].accesses(s, strict, mode, None, false) + self.kids[1].accesses(
                s,
                false,
                mode,
                None,
                false,
            ) + self.kids[2].accesses(s, false, mode, None, false)
        } else {
            Tree::all_accesses(self.kids, s, strict, mode)
        }
    }

    /// The accesses of `ts`, one after the other.
    pub open spec fn all_accesses(ts: Seq<Tree>, s: Sym, strict: bool, mode: Mode) -> Seq<Existence>
        decreases ts,
    {
        if ts.len() == 0 {
            seq![]
        } else {
            Tree::all_accesses(ts.drop_last(), s, strict, mode) + ts.last().accesses(
                s,
                strict,
                mode,
                None,
                false,
            )
        }
    }

    /// The facts of the expression under `truth`: the accesses whose receivers
    /// must exist when it evaluates as `truth` says.
    pub open spec fn facts(self, s: Sym, truth: Option<bool>) -> Seq<Existence> {
        self.accesses(s, true, Mode::Plain, truth, true).filter(|c: Existence| c.fact)
    }
}

/// Whether the symbolic value of `x` may differ from its concrete value
/// without an error on a missing entity.
pub fn phantom<T>(x: &Expr<T>) -> (r: bool)
    ensures
        r == x.tree().phantom(),
    decreases x,
{
    match &x.kind {
        ExprKind::HasAttr { .. } => return true,
        ExprKind::ExtensionFunctionApp { fn_name, .. } => {
            if is_iferror(fn_name) {
                return true;
            }
        },
        _ => {},
    }
    let n = x.kid_count();
    let mut i: usize = 0;
    while i < n
        invariant
            i <= n,
            n == x.kids().len(),
            forall|j: int| 0 <= j < i ==> !(#[trigger] x.tree().kids[j]).phantom(),
        decreases n - i,
    {
        if phantom(x.kid(i)) {
            return true;
        }
        i += 1;
    }
    false
}

fn bool_literal<T>(x: &Expr<T>) -> (r: Option<bool>)
    ensures
        r == x.tree().bool_literal(),
{
    match &x.kind {
        ExprKind::Lit(Prim::Bool(b)) => Some(*b),
        _ => None,
    }
}

impl<C: Fn(&Expr<()>) -> Result<Compiled, String>> SymEnv<C> {
    /// The term of an entity-typed expression, and its entity type.
    fn receiver<T>(&self, x: &Expr<T>) -> (r: Option<(Term, String)>)
        requires
            self.callable(),
        ensures
            forall|s: Sym| #[trigger] self.computes(s) ==> r == s.receiver(x.tree()),
    {
        match self.compiled(x) {
            Ok(c) => match c.ty {
                TermType::Entity(ety) => Some((c.term, ety)),
                _ => None,
            },
            Err(_) => None,
        }
    }

    fn required(&self, ety: &String, attr: &String) -> (r: bool)
        ensures
            forall|s: Sym| #[trigger] self.computes(s) ==> r == s.required(ety@, attr@),
    {
        match self.entities.attrs(ety) {
            Some(attrs) => match find_attr(&attrs, attr) {
                Some(optional) => !optional,
                None => false,
            },
            None => false,
        }
    }

    /// Whether the guard `g` is needed for its access to validate.
    pub fn optional_guard<T>(&self, g: &Expr<T>) -> (r: bool)
        requires
            self.callable(),
        ensures
            forall|s: Sym| #[trigger] self.computes(s) ==> r == s.optional_guard(g.tree()),
    {
        match &g.kind {
            ExprKind::HasAttr { expr, attr } => {
                assert(g.tree().kids[0] == expr.tree());
                match self.compiled(&**expr) {
                    Ok(c) => match &c.ty {
                        TermType::Entity(ety) => match self.entities.attrs(ety) {
                            Some(attrs) => match find_attr(&attrs, attr) {
                                Some(optional) => optional,
                                None => false,
                            },
                            None => false,
                        },
                        TermType::RecordOf(attrs) => match find_attr(attrs, attr) {
                            Some(optional) => optional,
                            None => false,
                        },
                        TermType::Other => false,
                    },
                    Err(_) => false,
                }
            },
            ExprKind::BinaryApp { op, .. } => *op == BinaryOp::HasTag,
            _ => false,
        }
    }
}

impl<C: Fn(&Expr<()>) -> Result<Compiled, String>> SymEnv<C> {
    /// Adds an access on `x` to `out`, if `x` is an entity.
    fn push_access<T>(&self, x: &Expr<T>, adds: Adds, fact: bool, out: &mut Vec<Existence>)
        requires
            self.callable(),
        ensures
            forall|s: Sym| #[trigger]
                self.computes(s) ==> final(out)@ == old(out)@ + match s.receiver(x.tree()) {
                    Some((receiver, ety)) => seq![Existence { receiver, ety, adds, fact }],
                    None => seq![],
                },
    {
        let ghost before = out@;
        match self.receiver(x) {
            Some((receiver, ety)) => {
                out.push(Existence { receiver, ety, adds, fact });
                assert(out@ =~= before + seq![Existence { receiver, ety, adds, fact }]);
            },
            None => {
                assert(out@ =~= before + seq![]);
            },
        }
    }

    /// Adds to `out` the existence-sensitive accesses of `x`; see
    /// [`Tree::accesses`].
    fn walk<T>(
        &self,
        x: &Expr<T>,
        strict: bool,
        mode: Mode,
        truth: Option<bool>,
        root: bool,
        out: &mut Vec<Existence>,
    )
        requires
            self.callable(),
        ensures
            forall|s: Sym| #[trigger]
                self.computes(s) ==> final(out)@ == old(out)@ + x.tree().accesses(
                    s,
                    strict,
                    mode,
                    truth,
                    root,
                ),
        decreases x, 1nat,
    {
        let plain_strict = strict && mode == Mode::Plain;
        let ghost before = out@;
        let ghost t = x.tree();
        match &x.kind {
            ExprKind::GetAttr { expr, .. } => {
                assert(t.kids[0] == expr.tree() && t.kids.len() == 1);
                self.walk(&**expr, strict, mode, None, false, out);
                let fact = plain_strict && !phantom(&**expr);
                self.push_access(&**expr, mode.erring_adds(), fact, out);
                assert forall|s: Sym| #[trigger] self.computes(s) implies out@ == before
                    + t.accesses(s, strict, mode, truth, root) by {
                    assert(out@ =~= before + t.accesses(s, strict, mode, truth, root));
                }
            },
            ExprKind::HasAttr { expr, attr } => {
                assert(t.kids[0] == expr.tree() && t.kids.len() == 1);
                self.walk(&**expr, strict, mode, None, false, out);
                let ghost mid = out@;
                if let Some((receiver, ety)) = self.receiver(&**expr) {
                    let required = self.required(&ety, attr);
                    let fact = plain_strict && truth == Some(true) && !phantom(&**expr);
                    if required || fact {
                        let adds = if required {
                            mode.absent_adds(root)
                        } else {
                            Adds { can_true: false, can_false: false, can_error: false }
                        };
                        out.push(Existence { receiver, ety, adds, fact });
                        assert(out@ =~= mid + seq![Existence { receiver, ety, adds, fact }]);
                    }
                }
                assert forall|s: Sym| #[trigger] self.computes(s) implies out@ == before
                    + t.accesses(s, strict, mode, truth, root) by {
                    assert(out@ =~= before + t.accesses(s, strict, mode, truth, root));
                }
            },
            ExprKind::BinaryApp { op: BinaryOp::GetTag, arg1, arg2 } => {
                assert(t.kids[0] == arg1.tree() && t.kids[1] == arg2.tree() && t.kids.len() == 2);
                self.walk(&**arg1, strict, mode, None, false, out);
                self.walk(&**arg2, strict, mode, None, false, out);
                let fact = plain_strict && !phantom(&**arg1);
                self.push_access(&**arg1, mode.erring_adds(), fact, out);
                assert forall|s: Sym| #[trigger] self.computes(s) implies out@ == before
                    + t.accesses(s, strict, mode, truth, root) by {
                    assert(out@ =~= before + t.accesses(s, strict, mode, truth, root));
                }
            },
            ExprKind::BinaryApp { op: BinaryOp::HasTag, arg1, arg2 } => {
                assert(t.kids[0] == arg1.tree() && t.kids[1] == arg2.tree() && t.kids.len() == 2);
                self.walk(&**arg1, strict, mode, None, false, out);
                self.walk(&**arg2, strict, mode, None, false, out);
                if plain_strict && truth == Some(true) && !phantom(&**arg1) {
                    let none = Adds { can_true: false, can_false: false, can_error: false };
                    self.push_access(&**arg1, none, true, out);
                }
                assert forall|s: Sym| #[trigger] self.computes(s) implies out@ == before
                    + t.accesses(s, strict, mode, truth, root) by {
                    assert(out@ =~= before + t.accesses(s, strict, mode, truth, root));
                }
            },
            ExprKind::ExtensionFunctionApp { fn_name, args } => {
                if is_iferror(fn_name) && args.len() == 2 {
                    let e = &args[0];
                    let d = &args[1];
                    assert(t.kids[0] == e.tree() && t.kids[1] == d.tree() && t.kids.len() == 2);
                    let fallback = if root {
                        bool_literal(d)
                    } else {
                        None
                    };
                    proof {
                        x.lemma_kid_decreases(0);
                        x.lemma_kid_decreases(1);
                    }
                    self.walk(e, false, Mode::Coalesced(fallback), None, false, out);
                    self.walk(d, false, mode, None, false, out);
                    assert forall|s: Sym| #[trigger] self.computes(s) implies out@ == before
                        + t.accesses(s, strict, mode, truth, root) by {
                        assert(out@ =~= before + t.accesses(s, strict, mode, truth, root));
                    }
                } else {
                    self.walk_all(x, strict, mode, out);
                }
            },
            ExprKind::And { left, right } => {
                assert(t.kids[0] == left.tree() && t.kids[1] == right.tree() && t.kids.len() == 2);
                self.walk_pair(x, &**left, &**right, true, strict, mode, truth, out);
            },
            ExprKind::Or { left, right } => {
                assert(t.kids[0] == left.tree() && t.kids[1] == right.tree() && t.kids.len() == 2);
                self.walk_pair(x, &**left, &**right, false, strict, mode, truth, out);
            },
            ExprKind::UnaryApp { op: UnaryOp::Not, arg } => {
                assert(t.kids[0] == arg.tree() && t.kids.len() == 1);
                let flipped = match truth {
                    Some(b) => Some(!b),
                    None => None,
                };
                self.walk(&**arg, strict, mode, flipped, false, out);
            },
            ExprKind::If { test_expr, then_expr, else_expr } => {
                assert(t.kids[0] == test_expr.tree() && t.kids[1] == then_expr.tree() && t.kids[2]
                    == else_expr.tree() && t.kids.len() == 3);
                self.walk(&**test_expr, strict, mode, None, false, out);
                self.walk(&**then_expr, false, mode, None, false, out);
                self.walk(&**else_expr, false, mode, None, false, out);
                assert forall|s: Sym| #[trigger] self.computes(s) implies out@ == before
                    + t.accesses(s, strict, mode, truth, root) by {
                    assert(out@ =~= before + t.accesses(s, strict, mode, truth, root));
                }
            },
            _ => {
                self.walk_all(x, strict, mode, out);
            },
        }
    }

    /// The accesses of `left && right` (`on`) or `left || right`.
    fn walk_pair<T>(
        &self,
        x: &Expr<T>,
        left: &Expr<T>,
        right: &Expr<T>,
        on: bool,
        strict: bool,
        mode: Mode,
        truth: Option<bool>,
        out: &mut Vec<Existence>,
    )
        requires
            self.callable(),
            decreases_to!(x => left),
            decreases_to!(x => right),
            x.tree().op == if on {
                Op::And
            } else {
                Op::Or
            },
            x.tree().kids.len() == 2,
            x.tree().kids[0] == left.tree(),
            x.tree().kids[1] == right.tree(),
        ensures
            forall|s: Sym, root: bool| #[trigger]
                self.computes(s) ==> final(out)@ == old(out)@ + #[trigger] x.tree().accesses(
                    s,
                    strict,
                    mode,
                    truth,
                    root,
                ),
        decreases x, 0nat,
    {
        let ghost before = out@;
        let decided = truth == Some(on);
        let passes = bool_literal(left) == Some(on);
        self.walk(
            left,
            strict,
            mode,
            if decided {
                truth
            } else {
                None
            },
            false,
            out,
        );
        self.walk(
            right,
            strict && (decided || passes),
            mode,
            if decided || passes {
                truth
            } else {
                None
            },
            false,
            out,
        );
        assert forall|s: Sym, root: bool| #[trigger] self.computes(s) implies out@ == before
            + #[trigger] x.tree().accesses(s, strict, mode, truth, root) by {
            assert(out@ =~= before + x.tree().accesses(s, strict, mode, truth, root));
        }
    }

    /// The accesses of the children of `x`, one after the other.
    fn walk_all<T>(&self, x: &Expr<T>, strict: bool, mode: Mode, out: &mut Vec<Existence>)
        requires
            self.callable(),
        ensures
            forall|s: Sym| #[trigger]
                self.computes(s) ==> final(out)@ == old(out)@ + Tree::all_accesses(
                    x.tree().kids,
                    s,
                    strict,
                    mode,
                ),
        decreases x, 0nat,
    {
        let ghost kids = x.tree().kids;
        let n = x.kid_count();
        let mut i: usize = 0;
        assert forall|s: Sym| #[trigger] self.computes(s) implies out@ == old(out)@
            + Tree::all_accesses(kids.take(0), s, strict, mode) by {
            assert(out@ =~= old(out)@ + Tree::all_accesses(kids.take(0), s, strict, mode));
        }
        while i < n
            invariant
                i <= n,
                n == x.kids().len(),
                kids == x.tree().kids,
                self.callable(),
                forall|s: Sym| #[trigger]
                    self.computes(s) ==> out@ == old(out)@ + Tree::all_accesses(
                        kids.take(i as int),
                        s,
                        strict,
                        mode,
                    ),
            decreases n - i,
        {
            let ghost before = out@;
            let kid = x.kid(i);
            self.walk(kid, strict, mode, None, false, out);
            proof {
                assert(kids.take(i + 1).drop_last() =~= kids.take(i as int));
                assert forall|s: Sym| #[trigger] self.computes(s) implies out@ == old(out)@
                    + Tree::all_accesses(kids.take(i + 1), s, strict, mode) by {
                    assert(out@ =~= old(out)@ + Tree::all_accesses(
                        kids.take(i + 1),
                        s,
                        strict,
                        mode,
                    ));
                }
            }
            i += 1;
        }
        assert(kids.take(n as int) =~= kids);
    }
}

impl<C: Fn(&Expr<()>) -> Result<Compiled, String>> SymEnv<C> {
    /// The existence-sensitive accesses of an atom.
    pub fn existence_checks<T>(&self, x: &Expr<T>) -> (r: Vec<Existence>)
        requires
            self.callable(),
        ensures
            forall|s: Sym| #[trigger]
                self.computes(s) ==> r@ == x.tree().accesses(s, true, Mode::Plain, None, true),
    {
        let mut out: Vec<Existence> = Vec::new();
        self.walk(x, true, Mode::Plain, None, true, &mut out);
        proof {
            assert forall|s: Sym| #[trigger] self.computes(s) implies out@ == x.tree().accesses(
                s,
                true,
                Mode::Plain,
                None,
                true,
            ) by {
                assert(out@ =~= x.tree().accesses(s, true, Mode::Plain, None, true));
            }
        }
        out
    }

    /// The facts of `x` under `truth`: the accesses whose receivers must exist
    /// when `x` evaluates as `truth` says.
    pub fn existence_facts<T>(&self, x: &Expr<T>, truth: Option<bool>) -> (r: Vec<Existence>)
        requires
            self.callable(),
        ensures
            forall|s: Sym| #[trigger] self.computes(s) ==> r@ == x.tree().facts(s, truth),
    {
        let mut all: Vec<Existence> = Vec::new();
        self.walk(x, true, Mode::Plain, truth, true, &mut all);
        proof {
            assert forall|s: Sym| #[trigger] self.computes(s) implies all@ == x.tree().accesses(
                s,
                true,
                Mode::Plain,
                truth,
                true,
            ) by {
                assert(all@ =~= x.tree().accesses(s, true, Mode::Plain, truth, true));
            }
        }
        keep_facts(&all)
    }
}

/// The facts among `all`.
fn keep_facts(all: &Vec<Existence>) -> (r: Vec<Existence>)
    ensures
        r@ == all@.filter(|c: Existence| c.fact),
{
    let ghost keep = |c: Existence| c.fact;
    let mut r: Vec<Existence> = Vec::new();
    let mut i: usize = 0;
    proof {
        reveal_with_fuel(Seq::filter, 1);
        assert(all@.take(0).filter(keep) =~= seq![]);
    }
    while i < all.len()
        invariant
            i <= all@.len(),
            keep == (|c: Existence| c.fact),
            r@ == all@.take(i as int).filter(keep),
        decreases all@.len() - i,
    {
        proof {
            let t = all@.take(i + 1);
            reveal(Seq::filter);
            assert(t.drop_last() =~= all@.take(i as int));
            assert(t.last() == all@[i as int]);
        }
        if all[i].fact {
            r.push(all[i].dup());
        }
        i += 1;
    }
    assert(all@.take(i as int) =~= all@);
    r
}

impl Tree {
    /// `t` is the expression or one inside it.
    pub open spec fn occurs(self, t: Tree) -> bool
        decreases self,
    {
        self == t || exists|i: int| 0 <= i < self.kids.len() && (#[trigger] self.kids[i]).occurs(t)
    }

    /// The access that a `has`/`hasTag` guard makes safe.
    pub open spec fn guard_access(self) -> Option<Tree> {
        match self.op {
            Op::HasAttr(attr) => Some(Tree { op: Op::GetAttr(attr), kids: self.kids }),
            Op::Binary(op) => if op == BinaryOp::HasTag {
                Some(Tree { op: Op::Binary(BinaryOp::GetTag), kids: self.kids })
            } else {
                None
            },
            _ => None,
        }
    }
}

impl Sym {
    /// `g` is a guard inside `guarding` that is needed for its access to
    /// validate, and its access occurs in `guarded`.
    pub open spec fn guards(self, guarding: Tree, guarded: Tree, g: Tree) -> bool {
        &&& guarding.occurs(g)
        &&& g.guard_access() matches Some(access) && guarded.occurs(access)
        &&& self.optional_guard(g)
    }

    /// `g` guards an access at the node `n`: from the left operand of `&&` to
    /// the right one, or from the test of an `if` to its `then` branch.
    pub open spec fn guards_at(self, n: Tree, g: Tree) -> bool {
        (n.op == Op::And || n.op == Op::If) && self.guards(n.kids[0], n.kids[1], g)
    }

    /// `g` is one of the guards of `root` that the evaluator keeps.
    pub open spec fn keeps(self, root: Tree, g: Tree) -> bool {
        exists|n: Tree| #[trigger] root.occurs(n) && self.guards_at(n, g)
    }
}

impl Tree {
    /// The sub-expressions, itself included: a node comes before its operands,
    /// and those from left to right.
    pub open spec fn subtrees(self) -> Seq<Tree>
        decreases self, self.kids.len() + 1,
    {
        seq![self] + self.subtrees_below(self.kids.len())
    }

    /// The sub-expressions of the first `n` operands.
    pub open spec fn subtrees_below(self, n: nat) -> Seq<Tree>
        decreases self, n,
    {
        if n == 0 || n > self.kids.len() {
            seq![]
        } else {
            self.subtrees_below((n - 1) as nat) + self.kids[n - 1].subtrees()
        }
    }
}

impl Sym {
    /// `out`, followed by the guards among `inside` for the accesses in `b`
    /// that lie inside `a`, each listed once.
    pub open spec fn guard_list(self, inside: Seq<Tree>, a: Tree, b: Tree, out: Seq<Tree>) -> Seq<
        Tree,
    >
        decreases inside.len(),
    {
        if inside.len() == 0 {
            out
        } else {
            let sofar = self.guard_list(inside.drop_last(), a, b, out);
            let g = inside.last();
            if self.guards(a, b, g) && !sofar.contains(g) {
                sofar.push(g)
            } else {
                sofar
            }
        }
    }

    /// The guards of the `&&`s and `if`s among `nodes`, in order, each listed
    /// once.
    pub open spec fn kept_list(self, nodes: Seq<Tree>) -> Seq<Tree>
        decreases nodes.len(),
    {
        if nodes.len() == 0 {
            seq![]
        } else {
            let sofar = self.kept_list(nodes.drop_last());
            let n = nodes.last();
            if n.op == Op::And || n.op == Op::If {
                self.guard_list(n.kids[0].subtrees(), n.kids[0], n.kids[1], sofar)
            } else {
                sofar
            }
        }
    }
}

/// What the expressions that `r` refers to are.
pub open spec fn trees_at<T>(r: Seq<&Expr<T>>) -> Seq<Tree> {
    r.map_values(|e: &Expr<T>| e.tree())
}

/// `r` lists the sub-expressions of a tree.
pub open spec fn lists<T>(r: Seq<&Expr<T>>, t: Tree) -> bool {
    &&& forall|i: int| 0 <= i < r.len() ==> t.occurs(#[trigger] r[i].tree())
    &&& forall|x: Tree| #[trigger]
        t.occurs(x) ==> exists|i: int| 0 <= i < r.len() && #[trigger] r[i].tree() == x
}

/// All sub-expressions of `e`, itself included: a node comes before its
/// operands, and those from left to right.
pub fn subexpressions<T>(e: &Expr<T>) -> (r: Vec<&Expr<T>>)
    ensures
        lists(r@, e.tree()),
        trees_at(r@) == e.tree().subtrees(),
    decreases e,
{
    let mut r: Vec<&Expr<T>> = Vec::new();
    r.push(e);
    let ghost t = e.tree();
    let n = e.kid_count();
    let mut i: usize = 0;
    assert(r@[0].tree() == t);
    assert(trees_at(r@) =~= seq![t] + t.subtrees_below(0));
    while i < n
        invariant
            i <= n,
            n == e.kids().len(),
            t == e.tree(),
            r@.len() > 0,
            r@[0].tree() == t,
            trees_at(r@) == seq![t] + t.subtrees_below(i as nat),
            forall|j: int| 0 <= j < r@.len() ==> t.occurs(#[trigger] r@[j].tree()),
            forall|k: int, x: Tree|
                0 <= k < i && #[trigger] t.kids[k].occurs(x) ==> exists|j: int|
                    0 <= j < r@.len() && #[trigger] r@[j].tree() == x,
        decreases n - i,
    {
        let kid = e.kid(i);
        let mut below = subexpressions(kid);
        let ghost before = r@;
        let ghost added = below@;
        r.append(&mut below);
        proof {
            assert(trees_at(r@) =~= trees_at(before) + trees_at(added));
            assert(trees_at(r@) =~= seq![t] + t.subtrees_below((i + 1) as nat));
            assert forall|j: int| 0 <= j < r@.len() implies t.occurs(#[trigger] r@[j].tree()) by {
                if j < before.len() {
                    assert(r@[j] == before[j]);
                } else {
                    assert(r@[j] == added[j - before.len()]);
                    assert(t.kids[i as int].occurs(added[j - before.len()].tree()));
                }
            }
            assert forall|k: int, x: Tree|
                0 <= k < i + 1 && #[trigger] t.kids[k].occurs(x) implies exists|j: int|
                0 <= j < r@.len() && #[trigger] r@[j].tree() == x by {
                if k < i {
                    let j = choose|j: int|
                        0 <= j < before.len() && #[trigger] before[j].tree() == x;
                    assert(r@[j].tree() == x);
                } else {
                    let j = choose|j: int| 0 <= j < added.len() && #[trigger] added[j].tree() == x;
                    assert(r@[before.len() + j].tree() == x);
                }
            }
            assert(r@[0] == before[0]);
        }
        i += 1;
    }
    proof {
        assert forall|x: Tree| #[trigger] t.occurs(x) implies exists|j: int|
            0 <= j < r@.len() && #[trigger] r@[j].tree() == x by {
            if x == t {
                assert(r@[0].tree() == x);
            } else {
                let k = choose|k: int| 0 <= k < t.kids.len() && (#[trigger] t.kids[k]).occurs(x);
                assert(t.kids[k].occurs(x));
            }
        }
    }
    r
}

/// The access that the guard `g` makes safe.
pub fn guard_access<T>(g: &Expr<T>) -> (r: Option<Expr<()>>)
    ensures
        match r {
            Some(a) => g.tree().guard_access() == Some(a.tree()),
            None => g.tree().guard_access() is None,
        },
{
    match &g.kind {
        ExprKind::HasAttr { expr, attr } => {
            let kind = ExprKind::GetAttr { expr: Arc::new(erase(&**expr)), attr: attr.clone() };
            let a = Expr { kind, loc: None, data: () };
            assert(a.tree().kids =~= g.tree().kids);
            Some(a)
        },
        ExprKind::BinaryApp { op: BinaryOp::HasTag, arg1, arg2 } => {
            let kind = ExprKind::BinaryApp {
                op: BinaryOp::GetTag,
                arg1: Arc::new(erase(&**arg1)),
                arg2: Arc::new(erase(&**arg2)),
            };
            let a = Expr { kind, loc: None, data: () };
            assert(a.tree().kids =~= g.tree().kids);
            Some(a)
        },
        _ => None,
    }
}

/// Whether one of `es` has the shape of `x`.
fn any_same<T, U>(es: &Vec<Expr<T>>, x: &Expr<U>) -> (r: bool)
    ensures
        r == crate::ast::trees(es@).contains(x.tree()),
{
    let mut i: usize = 0;
    while i < es.len()
        invariant
            i <= es@.len(),
            forall|j: int| 0 <= j < i ==> (#[trigger] crate::ast::trees(es@)[j]) != x.tree(),
        decreases es@.len() - i,
    {
        if same(&es[i], x) {
            assert(crate::ast::trees(es@)[i as int] == x.tree());
            return true;
        }
        i += 1;
    }
    false
}

/// Whether one of the listed expressions has the shape of `x`.
fn any_shape<T, U>(es: &Vec<&Expr<T>>, x: &Expr<U>) -> (r: bool)
    ensures
        r == exists|i: int| 0 <= i < es@.len() && #[trigger] es@[i].tree() == x.tree(),
{
    let mut i: usize = 0;
    while i < es.len()
        invariant
            i <= es@.len(),
            forall|j: int| 0 <= j < i ==> #[trigger] es@[j].tree() != x.tree(),
        decreases es@.len() - i,
    {
        if same(es[i], x) {
            return true;
        }
        i += 1;
    }
    false
}

impl<C: Fn(&Expr<()>) -> Result<Compiled, String>> SymEnv<C> {
    /// Adds to `out` the guards inside `guarding` for accesses in `guarded`.
    fn guards_of(
        &self,
        guarding: &Expr<Option<Type>>,
        guarded: &Expr<Option<Type>>,
        out: &mut Vec<Expr<()>>,
    )
        requires
            self.callable(),
        ensures
            forall|s: Sym, g: Tree| #[trigger]
                self.computes(s) ==> (#[trigger] crate::ast::trees(final(out)@).contains(g) <==> (
                crate::ast::trees(old(out)@).contains(g) || s.guards(
                    guarding.tree(),
                    guarded.tree(),
                    g,
                ))),
            forall|s: Sym| #[trigger]
                self.computes(s) ==> crate::ast::trees(final(out)@) == s.guard_list(
                    guarding.tree().subtrees(),
                    guarding.tree(),
                    guarded.tree(),
                    crate::ast::trees(old(out)@),
                ),
            crate::ast::trees(old(out)@).no_duplicates() ==> crate::ast::trees(
                final(out)@,
            ).no_duplicates(),
    {
        let inside = subexpressions(guarding);
        let reached = subexpressions(guarded);
        let ghost a = guarding.tree();
        let ghost b = guarded.tree();
        let ghost start = crate::ast::trees(out@);
        let mut i: usize = 0;
        assert(a.subtrees().take(0) =~= seq![]);
        while i < inside.len()
            invariant
                i <= inside@.len(),
                self.callable(),
                lists(inside@, a),
                lists(reached@, b),
                start == crate::ast::trees(old(out)@),
                trees_at(inside@) == a.subtrees(),
                start.no_duplicates() ==> crate::ast::trees(out@).no_duplicates(),
                forall|s: Sym| #[trigger]
                    self.computes(s) ==> crate::ast::trees(out@) == s.guard_list(
                        a.subtrees().take(i as int),
                        a,
                        b,
                        start,
                    ),
                forall|s: Sym, g: Tree| #[trigger]
                    self.computes(s) ==> (#[trigger] crate::ast::trees(out@).contains(g) <==> (
                    start.contains(g) || exists|j: int|
                        0 <= j < i && #[trigger] inside@[j].tree() == g && s.guards(a, b, g))),
            decreases inside@.len() - i,
        {
            let g = inside[i];
            let ghost before = crate::ast::trees(out@);
            let ghost gt = g.tree();
            assert(a.occurs(inside@[i as int].tree()));
            let mut add = false;
            if let Some(access) = guard_access(g) {
                if !any_same(out, g) && self.optional_guard(g) {
                    add = any_shape(&reached, &access);
                    proof {
                        if add {
                            let j = choose|j: int|
                                0 <= j < reached@.len() && #[trigger] reached@[j].tree()
                                    == access.tree();
                            assert(b.occurs(reached@[j].tree()));
                        } else {
                            assert(!b.occurs(access.tree()));
                        }
                    }
                }
            }
            if add {
                let e = erase(g);
                out.push(e);
                assert(crate::ast::trees(out@) =~= before.push(gt));
            }
            proof {
                let now = crate::ast::trees(out@);
                assert forall|x: Tree| #[trigger] now.contains(x) <==> (before.contains(x) || (add
                    && x == gt)) by {
                    if add {
                        assert(now =~= before.push(gt));
                        assert(now[before.len() as int] == gt);
                        if before.contains(x) {
                            let k = choose|k: int| 0 <= k < before.len() && before[k] == x;
                            assert(now[k] == x);
                        }
                    }
                }
                assert forall|s: Sym, x: Tree| #[trigger] self.computes(s) implies (
                #[trigger] now.contains(x) <==> (start.contains(x) || exists|j: int|
                    0 <= j < i + 1 && #[trigger] inside@[j].tree() == x && s.guards(a, b, x))) by {
                    assert(before.contains(x) <==> (start.contains(x) || exists|j: int|
                        0 <= j < i && #[trigger] inside@[j].tree() == x && s.guards(a, b, x)));
                    if add {
                        assert(s.guards(a, b, gt));
                    }
                    if x == gt && s.guards(a, b, gt) {
                        assert(inside@[i as int].tree() == x);
                        assert(add || before.contains(gt));
                    }
                }
                let all = a.subtrees();
                assert(all.take(i + 1).drop_last() =~= all.take(i as int));
                assert(trees_at(inside@)[i as int] == gt);
                assert(all.take(i + 1).last() == gt);
                assert(add ==> !before.contains(gt));
                assert forall|s: Sym| #[trigger] self.computes(s) implies now == s.guard_list(
                    all.take(i + 1),
                    a,
                    b,
                    start,
                ) by {
                    assert(now.contains(gt) <==> (before.contains(gt) || add));
                    assert(add ==> s.guards(a, b, gt));
                    assert(s.guards(a, b, gt) && !before.contains(gt) ==> add);
                }
            }
            i += 1;
        }
        assert(a.subtrees().take(i as int) =~= a.subtrees());
        proof {
            assert forall|s: Sym, g: Tree| #[trigger] self.computes(s) implies (
            #[trigger] crate::ast::trees(out@).contains(g) <==> (start.contains(g) || s.guards(
                a,
                b,
                g,
            ))) by {
                if s.guards(a, b, g) {
                    let j = choose|j: int| 0 <= j < inside@.len() && #[trigger] inside@[j].tree()
                        == g;
                    assert(inside@[j].tree() == g);
                }
            }
        }
    }

    /// The guards of `root` that the evaluator keeps: a `has`/`hasTag` that is
    /// needed for its access to validate and whose access occurs in the scope
    /// that it guards.
    pub fn kept_guards(&self, root: &Expr<Option<Type>>) -> (r: Vec<Expr<()>>)
        requires
            self.callable(),
        ensures
            forall|s: Sym, g: Tree| #[trigger]
                self.computes(s) ==> (#[trigger] crate::ast::trees(r@).contains(g) <==> s.keeps(
                    root.tree(),
                    g,
                )),
            forall|s: Sym| #[trigger]
                self.computes(s) ==> crate::ast::trees(r@) == s.kept_list(root.tree().subtrees()),
            crate::ast::trees(r@).no_duplicates(),
    {
        let mut out: Vec<Expr<()>> = Vec::new();
        let nodes = subexpressions(root);
        let ghost t = root.tree();
        let mut i: usize = 0;
        assert(crate::ast::trees(out@) =~= seq![]);
        assert(t.subtrees().take(0) =~= seq![]);
        while i < nodes.len()
            invariant
                i <= nodes@.len(),
                self.callable(),
                lists(nodes@, t),
                trees_at(nodes@) == t.subtrees(),
                crate::ast::trees(out@).no_duplicates(),
                forall|s: Sym| #[trigger]
                    self.computes(s) ==> crate::ast::trees(out@) == s.kept_list(
                        t.subtrees().take(i as int),
                    ),
                forall|s: Sym, g: Tree| #[trigger]
                    self.computes(s) ==> (#[trigger] crate::ast::trees(out@).contains(g)
                        <==> exists|j: int|
                        0 <= j < i && s.guards_at(#[trigger] nodes@[j].tree(), g)),
            decreases nodes@.len() - i,
        {
            let n = nodes[i];
            let ghost before = crate::ast::trees(out@);
            let ghost nt = n.tree();
            assert(t.subtrees().take(i + 1).drop_last() =~= t.subtrees().take(i as int));
            assert(trees_at(nodes@)[i as int] == nt);
            assert(t.subtrees().take(i + 1).last() == nt);
            match &n.kind {
                ExprKind::And { left, right } => {
                    assert(nt.kids[0] == left.tree() && nt.kids[1] == right.tree());
                    self.guards_of(&**left, &**right, &mut out);
                },
                ExprKind::If { test_expr, then_expr, .. } => {
                    assert(nt.kids[0] == test_expr.tree() && nt.kids[1] == then_expr.tree());
                    self.guards_of(&**test_expr, &**then_expr, &mut out);
                },
                _ => {},
            }
            proof {
                let now = crate::ast::trees(out@);
                assert forall|s: Sym, g: Tree| #[trigger] self.computes(s) implies (
                #[trigger] now.contains(g) <==> exists|j: int|
                    0 <= j < i + 1 && s.guards_at(#[trigger] nodes@[j].tree(), g)) by {
                    assert(before.contains(g) <==> exists|j: int|
                        0 <= j < i && s.guards_at(#[trigger] nodes@[j].tree(), g));
                    assert(now.contains(g) <==> (before.contains(g) || s.guards_at(nt, g)));
                    if s.guards_at(nt, g) {
                        assert(s.guards_at(nodes@[i as int].tree(), g));
                    }
                }
            }
            i += 1;
        }
        assert(t.subtrees().take(i as int) =~= t.subtrees());
        proof {
            assert forall|s: Sym, g: Tree| #[trigger] self.computes(s) implies (
            #[trigger] crate::ast::trees(out@).contains(g) <==> s.keeps(t, g)) by {
                if s.keeps(t, g) {
                    let n = choose|n: Tree| #[trigger] t.occurs(n) && s.guards_at(n, g);
                    let j = choose|j: int| 0 <= j < nodes@.len() && #[trigger] nodes@[j].tree()
                        == n;
                    assert(s.guards_at(nodes@[j].tree(), g));
                }
                if crate::ast::trees(out@).contains(g) {
                    let j = choose|j: int|
                        0 <= j < nodes@.len() && s.guards_at(#[trigger] nodes@[j].tree(), g);
                    assert(t.occurs(nodes@[j].tree()));
                }
            }
        }
        out
    }
}

} // verus!
