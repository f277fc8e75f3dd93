//! What the existence analysis is for.
//!
//! The symbolic store cannot express that an entity is absent: to the compiler
//! every entity has its required attributes. An input in whose store entities
//! are missing is seen as its *completion*, in which they are there. The laws
//! of this module say that the existence-sensitive accesses of an expression
//! make up for the difference: where the expression evaluates otherwise than
//! on the completion, one of them is on a missing entity and allows for the
//! outcome; and where it evaluates to a boolean, the receivers of its facts
//! exist. It follows that what is asserted of an assumption holds on every input
//! that meets it.

use std::sync::Arc;

use vstd::prelude::*;

use crate::ast::{BinaryOp, EntityUid, Expr, UnaryOp};
use crate::evaluator::assumptions::EntityInfo;
use crate::evaluator::compile::{Adds, Compiled, Existence, Mode, Sym};
use crate::evaluator::err::EvaluationError;
use crate::evaluator::laws::Setting;
use crate::evaluator::node::{NKind, NTree};
use crate::evaluator::state::{Backend, CompiledSet, PolicyError, Terms};
use crate::evaluator::term::{Model, Term};
use crate::model::{Value, World};
use crate::outcome::EvaluationOutcome;
use crate::policy::{Decision, Effect, Policy, PolicySet, PolicyView};
use crate::tree::{Op, Tree};
use crate::typechecked::Checked;
use crate::types::{RequestEnv, Schema, Type};

verus! {

impl Op {
    /// The operator looks an entity up in the store.
    pub open spec fn looks_up(self) -> bool {
        self is GetAttr || self is HasAttr || self == Op::Binary(BinaryOp::GetTag) || self
            == Op::Binary(BinaryOp::HasTag)
    }
}

impl World {
    /// The first of `vs` is an entity that is not in the store.
    pub open spec fn misses(self, vs: Seq<Value>) -> bool {
        vs.len() > 0 && (vs[0] matches Value::Uid(ty, id) && !(self.there)(ty, id))
    }

    /// An entity that is not in the store has no attributes and no tags: they
    /// cannot be read, and `has` and `hasTag` are false.
    pub open spec fn open_store(self) -> bool {
        forall|op: Op, vs: Seq<Value>|
            self.misses(vs) ==> {
                let r = #[trigger] (self.opaque)(op, vs);
                match op {
                    Op::GetAttr(_) => r is Err,
                    Op::HasAttr(_) => r == Ok::<Value, int>(Value::Bool(false)),
                    Op::Binary(BinaryOp::GetTag) => r is Err,
                    Op::Binary(BinaryOp::HasTag) => r == Ok::<Value, int>(Value::Bool(false)),
                    _ => true,
                }
            }
    }

    /// `v` is the input with the missing entities put in: they have the
    /// attributes that the schema requires, no optional ones and no tags.
    /// Everything else is the same.
    pub open spec fn completed_by(self, v: World, s: Sym) -> bool {
        &&& v.var == self.var
        &&& v.within == self.within
        &&& v.type_error == self.type_error
        &&& v.no_attr == self.no_attr
        &&& forall|op: Op, vs: Seq<Value>|
            {
                let r = #[trigger] (v.opaque)(op, vs);
                if self.misses(vs) && op.looks_up() {
                    match op {
                        Op::GetAttr(a) => (r is Ok) == s.required(vs[0]->Uid_0, a),
                        Op::HasAttr(a) => r == Ok::<Value, int>(
                            Value::Bool(s.required(vs[0]->Uid_0, a)),
                        ),
                        Op::Binary(BinaryOp::GetTag) => r is Err,
                        _ => r == Ok::<Value, int>(Value::Bool(false)),
                    }
                } else {
                    r == (self.opaque)(op, vs)
                }
            }
    }
}

impl Sym {
    /// The terms of entity-typed expressions denote in `m` what the
    /// expressions evaluate to on `v`, and the terms that say that an entity
    /// exists hold in `m` of the entities in the store of `w`.
    pub open spec fn receivers_denote(self, m: Model, v: World, w: World) -> bool {
        forall|k: Tree|
            #![trigger self.receiver(k)]
            self.receiver(k) matches Some((t, ety)) ==> (k.eval(v) matches Ok(u) ==> {
                &&& u is Uid
                &&& u->Uid_0 == ety@
                &&& Term::IsSome(Arc::new(t)).holds(m)
                &&& Term::Exists(
                    ety,
                    Arc::new(Term::OptionGet(Arc::new(t))),
                ).holds(m) == (w.there)(u->Uid_0, u->Uid_1)
            })
    }

    /// The compiler sees the input `w`, some of whose entities may be missing,
    /// as its completion `v`, and gives the terms their meaning in `m`.
    pub open spec fn sees(self, m: Model, v: World, w: World) -> bool {
        &&& w.open_store()
        &&& w.completed_by(v, self)
        &&& self.receivers_denote(m, v, w)
    }
}

impl Tree {
    /// What is looked up in the store, as far as evaluation on `v` gets,
    /// compiles to a term of entity type.
    pub open spec fn receivers_compile(self, s: Sym, v: World) -> bool
        decreases self,
    {
        let k = self.kids;
        if self.op == Op::And && k.len() == 2 {
            &&& k[0].receivers_compile(s, v)
            &&& k[0].eval(v) == Ok::<Value, int>(Value::Bool(true)) ==> k[1].receivers_compile(s, v)
        } else if self.op == Op::Or && k.len() == 2 {
            &&& k[0].receivers_compile(s, v)
            &&& k[0].eval(v) == Ok::<Value, int>(Value::Bool(false)) ==> k[1].receivers_compile(
                s,
                v,
            )
        } else if self.op == Op::If && k.len() == 3 {
            &&& k[0].receivers_compile(s, v)
            &&& k[0].eval(v) == Ok::<Value, int>(Value::Bool(true)) ==> k[1].receivers_compile(s, v)
            &&& k[0].eval(v) == Ok::<Value, int>(Value::Bool(false)) ==> k[2].receivers_compile(
                s,
                v,
            )
        } else if self.is_iferror() && k.len() == 2 {
            &&& k[0].receivers_compile(s, v)
            &&& k[0].eval(v) is Err ==> k[1].receivers_compile(s, v)
        } else {
            &&& forall|i: int| 0 <= i < k.len() ==> (#[trigger] k[i]).receivers_compile(s, v)
            &&& self.op.looks_up() && k[0].eval(v) is Ok && k[0].eval(v)->Ok_0 is Uid
                ==> s.receiver(k[0]) is Some
        }
    }

    /// What an `iferror` takes the place of is a boolean, or errs: what
    /// validation promises of its first argument.
    pub open spec fn coalesces_booleans(self, w: World) -> bool {
        self.is_iferror() && self.kids.len() == 2 ==> (self.kids[0].eval(w) matches Ok(u) ==> u
            is Bool)
    }
}

/// Both are the same value, or both are errors.
spec fn agree(a: Result<Value, int>, b: Result<Value, int>) -> bool {
    a is Err && b is Err || a == b
}

/// `adds` allow for what an access on a missing entity makes of the atom that
/// it stands in: the error that reaches the expression it was found in, or
/// anything.
spec fn allows(adds: Adds, errs: bool, mode: Mode) -> bool {
    ||| errs && adds == mode.erring()
    ||| adds == Adds::all()
    ||| mode is Coalesced && mode->Coalesced_0 is Some && adds == mode.absent(false)
}

/// One of `cs` is on a missing entity, and allows for what comes of it.
spec fn covers(cs: Seq<Existence>, m: Model, errs: bool, mode: Mode) -> bool {
    exists|i: int|
        0 <= i < cs.len() && (#[trigger] cs[i]).missing().holds(m) && allows(
            cs[i].adds,
            errs,
            mode,
        )
}

/// What covers part of a list covers the list.
proof fn lemma_covers_more(
    a: Seq<Existence>,
    cs: Seq<Existence>,
    at: int,
    m: Model,
    errs: bool,
    more: bool,
    mode: Mode,
)
    requires
        covers(a, m, errs, mode),
        errs ==> more,
        0 <= at,
        at + a.len() <= cs.len(),
        forall|i: int| 0 <= i < a.len() ==> #[trigger] a[i] == cs[at + i],
    ensures
        covers(cs, m, more, mode),
{
    let i = choose|i: int|
        0 <= i < a.len() && (#[trigger] a[i]).missing().holds(m) && allows(a[i].adds, errs, mode);
    assert(cs[at + i] == a[i]);
}

/// The access on `k` is on a missing entity.
proof fn lemma_missing(
    k: Tree,
    s: Sym,
    m: Model,
    v: World,
    w: World,
    adds: Adds,
    fact: bool,
)
    requires
        s.sees(m, v, w),
        s.receiver(k) is Some,
        k.eval(v) matches Ok(u) && w.misses(seq![u]),
    ensures
        (Existence {
            receiver: s.receiver(k)->Some_0.0,
            ety: s.receiver(k)->Some_0.1,
            adds,
            fact,
        }).missing().holds(m),
{
    reveal_with_fuel(Term::holds, 3);
    let (t, ety) = s.receiver(k)->Some_0;
    let u = k.eval(v)->Ok_0;
    assert(seq![u][0] == u);
    assert(u is Uid);
    let c = Existence { receiver: t, ety, adds, fact };
    assert(!c.present().holds(m));
}

/// The values of one operand, or of two.
proof fn lemma_eval_few(k: Seq<Tree>, w: World)
    ensures
        k.len() == 1 ==> Tree::eval_all(k, w) == match k[0].eval(w) {
            Ok(a) => Ok::<Seq<Value>, int>(seq![a]),
            Err(e) => Err(e),
        },
        k.len() == 2 ==> Tree::eval_all(k, w) == match k[0].eval(w) {
            Ok(a) => match k[1].eval(w) {
                Ok(b) => Ok::<Seq<Value>, int>(seq![a, b]),
                Err(e) => Err(e),
            },
            Err(e) => Err(e),
        },
{
    reveal_with_fuel(Tree::eval_all, 3);
    if k.len() == 1 {
        assert(k.drop_last() =~= seq![]);
        assert(Tree::eval_all(k.drop_last(), w) == Ok::<Seq<Value>, int>(seq![]));
        if let Ok(a) = k[0].eval(w) {
            assert(Seq::<Value>::empty().push(a) =~= seq![a]);
        }
    }
    if k.len() == 2 {
        let f = k.drop_last();
        assert(f.drop_last() =~= seq![]);
        assert(f.last() == k[0]);
        assert(Tree::eval_all(f.drop_last(), w) == Ok::<Seq<Value>, int>(seq![]));
        if let (Ok(a), Ok(b)) = (k[0].eval(w), k[1].eval(w)) {
            assert(Seq::<Value>::empty().push(a).push(b) =~= seq![a, b]);
        }
    }
}

/// An operator that does not look an entity up gives the same on the
/// completion, and so does one whose operand is there.
proof fn lemma_apply(op: Op, vs: Seq<Value>, s: Sym, m: Model, v: World, w: World)
    requires
        s.sees(m, v, w),
        op.takes(vs.len()),
        !(op.looks_up() && w.misses(vs)),
    ensures
        v.apply(op, vs) == w.apply(op, vs),
{
    assert((v.opaque)(op, vs) == (w.opaque)(op, vs));
    if let Op::Binary(b) = op {
        assert(vs =~= seq![vs[0], vs[1]]);
    }
}

/// As many values as there are operands.
proof fn lemma_eval_len(ts: Seq<Tree>, w: World)
    ensures
        Tree::eval_all(ts, w) matches Ok(vs) ==> vs.len() == ts.len(),
    decreases ts.len(),
{
    if ts.len() > 0 {
        lemma_eval_len(ts.drop_last(), w);
    }
}

/// Where an expression evaluates otherwise than on the completion, one of its
/// accesses is on a missing entity, and allows for what comes of it.
proof fn lemma_covered(
    t: Tree,
    s: Sym,
    m: Model,
    v: World,
    w: World,
    strict: bool,
    mode: Mode,
    truth: Option<bool>,
)
    requires
        s.sees(m, v, w),
        t.shaped(),
        t.receivers_compile(s, v),
    ensures
        agree(t.eval(w), t.eval(v)) || covers(
            t.accesses(s, strict, mode, truth, false),
            m,
            t.eval(w) is Err,
            mode,
        ),
    decreases t, 1nat,
{
    let k = t.kids;
    if t.op is Lit || t.op is Var {
    } else if t.op.looks_up() {
        lemma_lookup_covered(t, s, m, v, w, strict, mode, truth, false);
    } else if t.op == Op::And || t.op == Op::Or {
        lemma_junction_covered(t, s, m, v, w, strict, mode, truth);
    } else if t.op == Op::Unary(UnaryOp::Not) {
        let inner = match truth {
            Some(b) => Some(!b),
            None => None,
        };
        lemma_covered(k[0], s, m, v, w, strict, mode, inner);
        if !agree(k[0].eval(w), k[0].eval(v)) {
            lemma_covers_more(
                k[0].accesses(s, strict, mode, inner, false),
                t.accesses(s, strict, mode, truth, false),
                0,
                m,
                k[0].eval(w) is Err,
                t.eval(w) is Err,
                mode,
            );
        }
    } else if t.op == Op::If {
        lemma_if_covered(t, s, m, v, w, strict, mode, truth);
    } else if t.is_iferror() && k.len() == 2 {
        lemma_iferror_covered(t, s, m, v, w, strict, mode, truth);
    } else {
        lemma_all_covered(k, s, m, v, w, strict, mode);
        lemma_eval_len(k, w);
        lemma_eval_len(k, v);
        if Tree::eval_all(k, w) is Ok && Tree::eval_all(k, w) == Tree::eval_all(k, v) {
            lemma_apply(t.op, Tree::eval_all(k, w)->Ok_0, s, m, v, w);
        }
    }
}

/// The operands of an operator that evaluates them all.
proof fn lemma_all_covered(
    ts: Seq<Tree>,
    s: Sym,
    m: Model,
    v: World,
    w: World,
    strict: bool,
    mode: Mode,
)
    requires
        s.sees(m, v, w),
        forall|i: int| 0 <= i < ts.len() ==> (#[trigger] ts[i]).shaped() && ts[i].receivers_compile(s, v),
    ensures
        (Tree::eval_all(ts, w) is Err && Tree::eval_all(ts, v) is Err) || Tree::eval_all(ts, w)
            == Tree::eval_all(ts, v) || covers(
            Tree::all_accesses(ts, s, strict, mode),
            m,
            Tree::eval_all(ts, w) is Err,
            mode,
        ),
    decreases ts, 0nat,
{
    if ts.len() > 0 {
        let first = ts.drop_last();
        let last = ts.last();
        assert(last == ts[ts.len() - 1]);
        assert forall|i: int| 0 <= i < first.len() implies (#[trigger] first[i]).shaped()
            && first[i].receivers_compile(s, v) by {
            assert(first[i] == ts[i]);
        }
        lemma_all_covered(first, s, m, v, w, strict, mode);
        let a = Tree::all_accesses(first, s, strict, mode);
        let b = last.accesses(s, strict, mode, None, false);
        let all = Tree::all_accesses(ts, s, strict, mode);
        let errs = Tree::eval_all(ts, w) is Err;
        if covers(a, m, Tree::eval_all(first, w) is Err, mode) {
            lemma_covers_more(a, all, 0, m, Tree::eval_all(first, w) is Err, errs, mode);
        } else if Tree::eval_all(first, w) is Ok {
            lemma_covered(last, s, m, v, w, strict, mode, None);
            if covers(b, m, last.eval(w) is Err, mode) {
                lemma_covers_more(b, all, a.len() as int, m, last.eval(w) is Err, errs, mode);
            }
        }
    }
}

/// `getAttr`, `has`, `getTag` and `hasTag`.
proof fn lemma_lookup_covered(
    t: Tree,
    s: Sym,
    m: Model,
    v: World,
    w: World,
    strict: bool,
    mode: Mode,
    truth: Option<bool>,
    root: bool,
)
    requires
        s.sees(m, v, w),
        t.shaped(),
        t.receivers_compile(s, v),
        t.op.looks_up(),
        root ==> mode == Mode::Plain,
    ensures
        ({
            let cs = t.accesses(s, strict, mode, truth, root);
            ||| agree(t.eval(w), t.eval(v))
            ||| covers(cs, m, t.eval(w) is Err, mode)
            ||| root && t.eval(w) == Ok::<Value, int>(Value::Bool(false)) && exists|i: int|
                0 <= i < cs.len() && (#[trigger] cs[i]).missing().holds(m) && cs[i].adds
                    == mode.absent(true)
        }),
    decreases t, 0nat,
{
    let k = t.kids;
    let cs = t.accesses(s, strict, mode, truth, root);
    let errs = t.eval(w) is Err;
    let a = k[0].accesses(s, strict, mode, None, false);
    lemma_eval_few(k, w);
    lemma_eval_few(k, v);
    lemma_covered(k[0], s, m, v, w, strict, mode, None);
    if covers(a, m, k[0].eval(w) is Err, mode) {
        lemma_covers_more(a, cs, 0, m, k[0].eval(w) is Err, errs, mode);
    } else if k[0].eval(w) is Ok {
        let u = k[0].eval(w)->Ok_0;
        if t.op is GetAttr || t.op is HasAttr {
            let vs = seq![u];
            if w.misses(vs) {
                assert(vs[0] == u);
                assert((w.opaque)(t.op, vs) == t.eval(w));
                assert((v.opaque)(t.op, vs) == t.eval(v));
                assert(s.receiver(k[0]) is Some);
                let last = cs.len() - 1;
                if t.op is GetAttr {
                    lemma_missing(k[0], s, m, v, w, cs[last].adds, cs[last].fact);
                    assert(cs[last].missing().holds(m));
                } else if s.required(u->Uid_0, t.op->HasAttr_0) {
                    assert(s.required(s.receiver(k[0])->Some_0.1@, t.op->HasAttr_0));
                    lemma_missing(k[0], s, m, v, w, cs[last].adds, cs[last].fact);
                    assert(cs[last].missing().holds(m));
                }
            } else {
                lemma_apply(t.op, vs, s, m, v, w);
            }
        } else {
            let b = k[1].accesses(s, strict, mode, None, false);
            lemma_covered(k[1], s, m, v, w, strict, mode, None);
            if covers(b, m, k[1].eval(w) is Err, mode) {
                lemma_covers_more(b, cs, a.len() as int, m, k[1].eval(w) is Err, errs, mode);
            } else if k[1].eval(w) is Ok {
                let vs = seq![u, k[1].eval(w)->Ok_0];
                if w.misses(vs) {
                    assert((w.opaque)(t.op, vs) == t.eval(w));
                    assert((v.opaque)(t.op, vs) == t.eval(v));
                } else {
                    lemma_apply(t.op, vs, s, m, v, w);
                }
            }
        }
    }
}

/// `&&` and `||`.
proof fn lemma_junction_covered(
    t: Tree,
    s: Sym,
    m: Model,
    v: World,
    w: World,
    strict: bool,
    mode: Mode,
    truth: Option<bool>,
)
    requires
        s.sees(m, v, w),
        t.shaped(),
        t.receivers_compile(s, v),
        t.op == Op::And || t.op == Op::Or,
    ensures
        agree(t.eval(w), t.eval(v)) || covers(
            t.accesses(s, strict, mode, truth, false),
            m,
            t.eval(w) is Err,
            mode,
        ),
    decreases t, 0nat,
{
    let k = t.kids;
    let on = t.op == Op::And;
    let decided = truth == Some(on);
    let passes = k[0].bool_literal() == Some(on);
    let ltruth = if decided {
        truth
    } else {
        None
    };
    let rtruth = if decided || passes {
        truth
    } else {
        None
    };
    let a = k[0].accesses(s, strict, mode, ltruth, false);
    let b = k[1].accesses(s, strict && (decided || passes), mode, rtruth, false);
    let cs = t.accesses(s, strict, mode, truth, false);
    assert(cs == a + b);
    let errs = t.eval(w) is Err;
    lemma_covered(k[0], s, m, v, w, strict, mode, ltruth);
    if covers(a, m, k[0].eval(w) is Err, mode) {
        lemma_covers_more(a, cs, 0, m, k[0].eval(w) is Err, errs, mode);
    } else if k[0].eval(w) == Ok::<Value, int>(Value::Bool(on)) {
        lemma_covered(k[1], s, m, v, w, strict && (decided || passes), mode, rtruth);
        if covers(b, m, k[1].eval(w) is Err, mode) {
            lemma_covers_more(b, cs, a.len() as int, m, k[1].eval(w) is Err, errs, mode);
        }
    }
}

/// `if`.
proof fn lemma_if_covered(
    t: Tree,
    s: Sym,
    m: Model,
    v: World,
    w: World,
    strict: bool,
    mode: Mode,
    truth: Option<bool>,
)
    requires
        s.sees(m, v, w),
        t.shaped(),
        t.receivers_compile(s, v),
        t.op == Op::If,
    ensures
        agree(t.eval(w), t.eval(v)) || covers(
            t.accesses(s, strict, mode, truth, false),
            m,
            t.eval(w) is Err,
            mode,
        ),
    decreases t, 0nat,
{
    let k = t.kids;
    let a = k[0].accesses(s, strict, mode, None, false);
    let b = k[1].accesses(s, false, mode, None, false);
    let c = k[2].accesses(s, false, mode, None, false);
    let cs = t.accesses(s, strict, mode, truth, false);
    assert(cs == a + b + c);
    let errs = t.eval(w) is Err;
    lemma_covered(k[0], s, m, v, w, strict, mode, None);
    if covers(a, m, k[0].eval(w) is Err, mode) {
        lemma_covers_more(a, cs, 0, m, k[0].eval(w) is Err, errs, mode);
    } else if k[0].eval(w) == Ok::<Value, int>(Value::Bool(true)) {
        lemma_covered(k[1], s, m, v, w, false, mode, None);
        if covers(b, m, k[1].eval(w) is Err, mode) {
            lemma_covers_more(b, cs, a.len() as int, m, k[1].eval(w) is Err, errs, mode);
        }
    } else if k[0].eval(w) == Ok::<Value, int>(Value::Bool(false)) {
        lemma_covered(k[2], s, m, v, w, false, mode, None);
        if covers(c, m, k[2].eval(w) is Err, mode) {
            lemma_covers_more(
                c,
                cs,
                (a.len() + b.len()) as int,
                m,
                k[2].eval(w) is Err,
                errs,
                mode,
            );
        }
    }
}

/// An `iferror` that is not the atom itself.
proof fn lemma_iferror_covered(
    t: Tree,
    s: Sym,
    m: Model,
    v: World,
    w: World,
    strict: bool,
    mode: Mode,
    truth: Option<bool>,
)
    requires
        s.sees(m, v, w),
        t.shaped(),
        t.receivers_compile(s, v),
        t.is_iferror(),
        t.kids.len() == 2,
    ensures
        agree(t.eval(w), t.eval(v)) || covers(
            t.accesses(s, strict, mode, truth, false),
            m,
            t.eval(w) is Err,
            mode,
        ),
    decreases t, 0nat,
{
    let k = t.kids;
    let under = Mode::Coalesced(None);
    let a = k[0].accesses(s, false, under, None, false);
    let b = k[1].accesses(s, false, mode, None, false);
    let cs = t.accesses(s, strict, mode, truth, false);
    assert(cs == a + b);
    let errs = t.eval(w) is Err;
    lemma_covered(k[0], s, m, v, w, false, under, None);
    if covers(a, m, k[0].eval(w) is Err, under) {
        let i = choose|i: int|
            0 <= i < a.len() && (#[trigger] a[i]).missing().holds(m) && allows(
                a[i].adds,
                k[0].eval(w) is Err,
                under,
            );
        assert(cs[i] == a[i]);
        assert(allows(cs[i].adds, errs, mode));
    } else if k[0].eval(w) is Err {
        lemma_covered(k[1], s, m, v, w, false, mode, None);
        if covers(b, m, k[1].eval(w) is Err, mode) {
            lemma_covers_more(b, cs, a.len() as int, m, k[1].eval(w) is Err, errs, mode);
        }
    }
}

/// The values of the operands, where there are values.
proof fn lemma_eval_each(ts: Seq<Tree>, w: World)
    ensures
        Tree::eval_all(ts, w) is Ok ==> forall|i: int|
            0 <= i < ts.len() ==> (#[trigger] ts[i]).eval(w) is Ok,
    decreases ts.len(),
{
    if ts.len() > 0 && Tree::eval_all(ts, w) is Ok {
        lemma_eval_each(ts.drop_last(), w);
        assert forall|i: int| 0 <= i < ts.len() implies (#[trigger] ts[i]).eval(w) is Ok by {
            if i < ts.len() - 1 {
                assert(ts[i] == ts.drop_last()[i]);
            }
        }
    }
}

/// The operands have the same values where each has.
proof fn lemma_eval_same(ts: Seq<Tree>, v: World, w: World)
    requires
        forall|i: int| 0 <= i < ts.len() ==> (#[trigger] ts[i]).eval(v) == ts[i].eval(w),
    ensures
        Tree::eval_all(ts, v) == Tree::eval_all(ts, w),
    decreases ts.len(),
{
    if ts.len() > 0 {
        let first = ts.drop_last();
        assert forall|i: int| 0 <= i < first.len() implies (#[trigger] first[i]).eval(v)
            == first[i].eval(w) by {
            assert(first[i] == ts[i]);
        }
        lemma_eval_same(first, v, w);
        assert(ts.last() == ts[ts.len() - 1]);
    }
}

/// An expression that is not phantom has on the completion the value that it
/// has on the input, if it has one.
proof fn lemma_not_phantom(t: Tree, s: Sym, m: Model, v: World, w: World)
    requires
        s.sees(m, v, w),
        t.shaped(),
        !t.phantom(),
        t.eval(w) is Ok,
    ensures
        t.eval(v) == t.eval(w),
    decreases t,
{
    let k = t.kids;
    assert forall|i: int| 0 <= i < k.len() && (#[trigger] k[i]).eval(w) is Ok implies k[i].eval(v)
        == k[i].eval(w) by {
        lemma_not_phantom(k[i], s, m, v, w);
    }
    if t.op is Lit || t.op is Var || t.op == Op::And || t.op == Op::Or || t.op == Op::Unary(
        UnaryOp::Not,
    ) || t.op == Op::If {
    } else {
        lemma_eval_each(k, w);
        lemma_eval_same(k, v, w);
        lemma_eval_len(k, w);
        let vs = Tree::eval_all(k, w)->Ok_0;
        if t.op.looks_up() && w.misses(vs) {
            if let Op::Binary(_) = t.op {
                assert(vs =~= seq![vs[0], vs[1]]);
            }
            assert((w.opaque)(t.op, vs) == t.eval(w));
            assert((v.opaque)(t.op, vs) == t.eval(v));
        } else {
            lemma_apply(t.op, vs, s, m, v, w);
        }
    }
}

/// The receivers of all the facts among `cs` exist.
spec fn facts_hold(cs: Seq<Existence>, m: Model) -> bool {
    forall|i: int| 0 <= i < cs.len() && (#[trigger] cs[i]).fact ==> cs[i].present().holds(m)
}

/// What holds of the facts of two lists holds of those of both.
proof fn lemma_facts_append(a: Seq<Existence>, b: Seq<Existence>, m: Model)
    requires
        facts_hold(a, m),
        facts_hold(b, m),
    ensures
        facts_hold(a + b, m),
{
    let cs = a + b;
    assert forall|i: int| 0 <= i < cs.len() && (#[trigger] cs[i]).fact implies cs[i].present().holds(
        m,
    ) by {
        if i < a.len() {
            assert(cs[i] == a[i]);
        } else {
            assert(cs[i] == b[i - a.len()]);
        }
    }
}

/// The receiver of a lookup on `k` that found the entity exists.
proof fn lemma_present(
    k: Tree,
    s: Sym,
    m: Model,
    v: World,
    w: World,
    adds: Adds,
)
    requires
        s.sees(m, v, w),
        k.shaped(),
        s.receiver(k) is Some,
        !k.phantom(),
        k.eval(w) matches Ok(u) && !w.misses(seq![u]),
    ensures
        (Existence {
            receiver: s.receiver(k)->Some_0.0,
            ety: s.receiver(k)->Some_0.1,
            adds,
            fact: true,
        }).present().holds(m),
{
    lemma_not_phantom(k, s, m, v, w);
    let (t, ety) = s.receiver(k)->Some_0;
    let u = k.eval(w)->Ok_0;
    assert(u is Uid);
    assert(seq![u][0] == u);
}

/// Where an expression that is evaluated plainly and always has a value, and
/// the boolean that is assumed, the receivers of its facts exist. One that is
/// not evaluated so has no facts.
proof fn lemma_facts(
    t: Tree,
    s: Sym,
    m: Model,
    v: World,
    w: World,
    strict: bool,
    mode: Mode,
    truth: Option<bool>,
    root: bool,
)
    requires
        s.sees(m, v, w),
        t.shaped(),
        strict && mode == Mode::Plain ==> t.eval(w) is Ok && (truth matches Some(b) ==> t.eval(w)
            == Ok::<Value, int>(Value::Bool(b))),
    ensures
        facts_hold(t.accesses(s, strict, mode, truth, root), m),
    decreases t, 1nat,
{
    let k = t.kids;
    if t.op.looks_up() {
        lemma_lookup_facts(t, s, m, v, w, strict, mode, truth, root);
    } else if t.is_iferror() && k.len() == 2 {
        let fallback = if root {
            k[1].bool_literal()
        } else {
            None
        };
        lemma_facts(k[0], s, m, v, w, false, Mode::Coalesced(fallback), None, false);
        lemma_facts(k[1], s, m, v, w, false, mode, None, false);
        lemma_facts_append(
            k[0].accesses(s, false, Mode::Coalesced(fallback), None, false),
            k[1].accesses(s, false, mode, None, false),
            m,
        );
    } else if t.op == Op::And || t.op == Op::Or {
        let on = t.op == Op::And;
        let decided = truth == Some(on);
        let passes = k[0].bool_literal() == Some(on);
        let ltruth = if decided {
            truth
        } else {
            None
        };
        let rtruth = if decided || passes {
            truth
        } else {
            None
        };
        lemma_facts(k[0], s, m, v, w, strict, mode, ltruth, false);
        lemma_facts(k[1], s, m, v, w, strict && (decided || passes), mode, rtruth, false);
        lemma_facts_append(
            k[0].accesses(s, strict, mode, ltruth, false),
            k[1].accesses(s, strict && (decided || passes), mode, rtruth, false),
            m,
        );
    } else if t.op == Op::Unary(UnaryOp::Not) {
        let inner = match truth {
            Some(b) => Some(!b),
            None => None,
        };
        lemma_facts(k[0], s, m, v, w, strict, mode, inner, false);
    } else if t.op == Op::If {
        lemma_facts(k[0], s, m, v, w, strict, mode, None, false);
        lemma_facts(k[1], s, m, v, w, false, mode, None, false);
        lemma_facts(k[2], s, m, v, w, false, mode, None, false);
        let a = k[0].accesses(s, strict, mode, None, false);
        let b = k[1].accesses(s, false, mode, None, false);
        lemma_facts_append(a, b, m);
        lemma_facts_append(a + b, k[2].accesses(s, false, mode, None, false), m);
    } else {
        if strict && mode == Mode::Plain {
            lemma_eval_each(k, w);
        }
        lemma_all_facts(k, s, m, v, w, strict, mode);
    }
}

/// The operands of an operator that evaluates them all.
proof fn lemma_all_facts(
    ts: Seq<Tree>,
    s: Sym,
    m: Model,
    v: World,
    w: World,
    strict: bool,
    mode: Mode,
)
    requires
        s.sees(m, v, w),
        forall|i: int| 0 <= i < ts.len() ==> (#[trigger] ts[i]).shaped(),
        strict && mode == Mode::Plain ==> forall|i: int|
            0 <= i < ts.len() ==> (#[trigger] ts[i]).eval(w) is Ok,
    ensures
        facts_hold(Tree::all_accesses(ts, s, strict, mode), m),
    decreases ts, 0nat,
{
    if ts.len() > 0 {
        let first = ts.drop_last();
        let last = ts.last();
        assert(last == ts[ts.len() - 1]);
        assert forall|i: int| 0 <= i < first.len() implies (#[trigger] first[i]) == ts[i] by {}
        lemma_all_facts(first, s, m, v, w, strict, mode);
        lemma_facts(last, s, m, v, w, strict, mode, None, false);
        lemma_facts_append(
            Tree::all_accesses(first, s, strict, mode),
            last.accesses(s, strict, mode, None, false),
            m,
        );
    }
}

/// `getAttr`, `has`, `getTag` and `hasTag`.
proof fn lemma_lookup_facts(
    t: Tree,
    s: Sym,
    m: Model,
    v: World,
    w: World,
    strict: bool,
    mode: Mode,
    truth: Option<bool>,
    root: bool,
)
    requires
        s.sees(m, v, w),
        t.shaped(),
        t.op.looks_up(),
        strict && mode == Mode::Plain ==> t.eval(w) is Ok && (truth matches Some(b) ==> t.eval(w)
            == Ok::<Value, int>(Value::Bool(b))),
    ensures
        facts_hold(t.accesses(s, strict, mode, truth, root), m),
    decreases t, 0nat,
{
    let k = t.kids;
    let cs = t.accesses(s, strict, mode, truth, root);
    let plain_strict = strict && mode == Mode::Plain;
    lemma_eval_few(k, w);
    lemma_facts(k[0], s, m, v, w, strict, mode, None, false);
    let a = k[0].accesses(s, strict, mode, None, false);
    let first = if k.len() == 2 {
        lemma_facts(k[1], s, m, v, w, strict, mode, None, false);
        let b = k[1].accesses(s, strict, mode, None, false);
        lemma_facts_append(a, b, m);
        a + b
    } else {
        a
    };
    let last = cs.skip(first.len() as int);
    assert(cs =~= first + last);
    assert forall|i: int| 0 <= i < last.len() && (#[trigger] last[i]).fact implies last[i].present().holds(
        m,
    ) by {
        let u = k[0].eval(w)->Ok_0;
        let vs = if k.len() == 2 {
            seq![u, k[1].eval(w)->Ok_0]
        } else {
            seq![u]
        };
        assert(vs[0] == u && seq![u][0] == u);
        if w.misses(vs) {
            assert((w.opaque)(t.op, vs) == t.eval(w));
        }
        lemma_present(k[0], s, m, v, w, last[i].adds);
    }
    lemma_facts_append(first, last, m);
}

/// What the accesses of an expression are for. On an input in whose store
/// entities may be missing, the expression has the outcome that it has on the
/// completion, which is what the compiler sees; or one of its
/// existence-sensitive accesses is on a missing entity, and the outcome is
/// among those that it adds. And where the expression evaluates to a boolean,
/// the receivers of its facts exist.
pub proof fn law_accesses_cover_missing_entities(
    x: &Expr<Option<Type>>,
    s: Sym,
    m: Model,
    v: World,
    w: World,
)
    requires
        s.sees(m, v, w),
        x.tree().receivers_compile(s, v),
        x.tree().coalesces_booleans(w),
    ensures
        x.tree().outcome(w) == x.tree().outcome(v) || exists|i: int|
            0 <= i < x.tree().accesses(s, true, Mode::Plain, None, true).len() && (
            #[trigger] x.tree().accesses(s, true, Mode::Plain, None, true)[i]).missing().holds(m)
                && x.tree().accesses(s, true, Mode::Plain, None, true)[i].adds.set().contains(
                x.tree().outcome(w),
            ),
        forall|b: bool, i: int|
            x.tree().outcome(w) == EvaluationOutcome::of_bool(b) && 0 <= i < x.tree().facts(
                s,
                Some(b),
            ).len() ==> (#[trigger] x.tree().facts(s, Some(b))[i]).present().holds(m),
        forall|i: int|
            !(x.tree().outcome(w) is Error) && 0 <= i < x.tree().facts(s, None).len() ==> (
            #[trigger] x.tree().facts(s, None)[i]).present().holds(m),
{
    x.lemma_tree_shaped();
    let t = x.tree();
    lemma_atom_covered(t, s, m, v, w);
    assert forall|b: bool, i: int|
        t.outcome(w) == EvaluationOutcome::of_bool(b) && 0 <= i < t.facts(s, Some(b)).len() implies (
    #[trigger] t.facts(s, Some(b))[i]).present().holds(m) by {
        lemma_facts(t, s, m, v, w, true, Mode::Plain, Some(b), true);
        lemma_filtered(t.accesses(s, true, Mode::Plain, Some(b), true), m);
    }
    if !(t.outcome(w) is Error) {
        lemma_facts(t, s, m, v, w, true, Mode::Plain, None, true);
        lemma_filtered(t.accesses(s, true, Mode::Plain, None, true), m);
    }
}

/// An assumption that is met holds: where `x` has one of the assumed outcomes,
/// whatever entities are missing, its asserts hold, those that receivers exist
/// among them; provided that the compiler is right about the input.
pub proof fn law_assumed_outcomes_hold(
    x: &Expr<Option<Type>>,
    c: Compiled,
    outcomes: Set<EvaluationOutcome>,
    s: Sym,
    m: Model,
    v: World,
    w: World,
)
    requires
        s.sees(m, v, w),
        x.nodes(s) is Ok,
        x.nodes(s)->Ok_0.denoted(s, m, v, w),
        outcomes.contains(x.tree().outcome(w)),
    ensures
        Term::all_hold(crate::evaluator::state::outcome_terms(*x, c, outcomes, s), m),
{
    let t = x.tree();
    let n = x.nodes(s)->Ok_0;
    let terms = crate::evaluator::state::outcome_terms(*x, c, outcomes, s);
    let facts = crate::evaluator::state::outcome_facts(t, outcomes, s);
    x.lemma_nodes_mirror(s);
    x.law_nodes_have_their_terms(s);
    n.lemma_took(s, m, v, w, t.outcome(w));
    let yes = n.took(EvaluationOutcome::True);
    let no = n.took(EvaluationOutcome::False);
    let err = n.took(EvaluationOutcome::Error);
    let a = if outcomes.contains(EvaluationOutcome::True) {
        yes
    } else {
        Term::Bool(false)
    };
    let b = if outcomes.contains(EvaluationOutcome::False) {
        Term::or_of(a, no)
    } else {
        a
    };
    Term::lemma_or(a, no, m);
    Term::lemma_or(b, err, m);
    lemma_assumed_facts(x, outcomes, s, m, v, w);
    assert forall|i: int| 0 <= i < terms.len() implies (#[trigger] terms[i]).holds(m) by {
        if i > 0 {
            assert(terms[i] == facts[i - 1]);
        }
    }
}

/// The input meets the assumption that `expr` takes one of `outcomes`: so does
/// its typed form, about which the compiler is right.
pub open spec fn meets<
    K: Fn(&Policy, &RequestEnv) -> Checked,
    C: Fn(&Expr<()>) -> Result<Compiled, String>,
    P: Fn(&PolicySet, &RequestEnv) -> Result<CompiledSet, PolicyError>,
    I: Fn(&EntityUid) -> EntityInfo,
>(
    backend: &Backend<K, C, P, I>,
    expr: Expr<()>,
    outcomes: Set<EvaluationOutcome>,
    env: RequestEnv,
    schema: Schema,
    s: Sym,
    m: Model,
    v: World,
    w: World,
) -> bool {
    forall|x: Arc<Expr<Option<Type>>>| #[trigger]
        crate::evaluator::compile::typecheck_gives(&expr, &env, &schema, &backend.check, Ok(x))
            ==> {
            &&& x.nodes(s) is Ok
            &&& x.nodes(s)->Ok_0.denoted(s, m, v, w)
            &&& outcomes.contains(x.tree().outcome(w))
        }
}

/// Compiling an assumption about an expression keeps the asserts true on every
/// input that meets it, whatever entities are missing.
pub proof fn law_met_assumption_holds<
    K: Fn(&Policy, &RequestEnv) -> Checked,
    C: Fn(&Expr<()>) -> Result<Compiled, String>,
    P: Fn(&PolicySet, &RequestEnv) -> Result<CompiledSet, PolicyError>,
    I: Fn(&EntityUid) -> EntityInfo,
>(
    backend: &Backend<K, C, P, I>,
    expr: Expr<()>,
    outcomes: Set<EvaluationOutcome>,
    env: RequestEnv,
    schema: Schema,
    s: Sym,
    before: Terms,
    after: Terms,
    m: Model,
    v: World,
    w: World,
)
    requires
        backend.expr_outcomes_gives(expr, outcomes, env, schema, s, before, Ok(()), after),
        meets(backend, expr, outcomes, env, schema, s, m, v, w),
        s.sees(m, v, w),
        Term::all_hold(before.asserts, m),
    ensures
        Term::all_hold(after.asserts, m),
{
    let t = choose|t: Result<Arc<Expr<Option<Type>>>, EvaluationError>| #[trigger]
        crate::evaluator::compile::typecheck_gives(&expr, &env, &schema, &backend.check, t)
            && match t {
            Ok(typed) => match (s.compile)(typed.tree()) {
                Ok(c) => after == before.plus_open(
                    crate::evaluator::state::outcome_terms(*typed, c, outcomes, s),
                    crate::evaluator::state::closed_terms(c, outcomes),
                    c.footprint@.to_set(),
                ),
                Err(_) => false,
            },
            Err(_) => false,
        };
    let x = t->Ok_0;
    let c = (s.compile)(x.tree())->Ok_0;
    let added = after.asserts.skip(before.asserts.len() as int);
    law_assumed_outcomes_hold(&*x, c, outcomes, s, m, v, w);
    assert(added =~= crate::evaluator::state::outcome_terms(*x, c, outcomes, s));
    assert(after.asserts =~= before.asserts + added);
    Term::lemma_all_hold_append(before.asserts, added, m);
}

/// So do the extra assumptions of an evaluation, each of which is met where it
/// is true.
pub proof fn law_met_extras_hold<
    K: Fn(&Policy, &RequestEnv) -> Checked,
    C: Fn(&Expr<()>) -> Result<Compiled, String>,
    P: Fn(&PolicySet, &RequestEnv) -> Result<CompiledSet, PolicyError>,
    I: Fn(&EntityUid) -> EntityInfo,
>(
    backend: &Backend<K, C, P, I>,
    extras: Seq<Expr<()>>,
    states: Seq<Terms>,
    env: RequestEnv,
    schema: Schema,
    s: Sym,
    m: Model,
    v: World,
    w: World,
)
    requires
        crate::evaluator::session::extras_give(backend, extras, states, env, schema, s),
        forall|k: int|
            0 <= k < extras.len() ==> meets(
                backend,
                #[trigger] extras[k],
                set![EvaluationOutcome::True],
                env,
                schema,
                s,
                m,
                v,
                w,
            ),
        s.sees(m, v, w),
        Term::all_hold(states[0].asserts, m),
    ensures
        Term::all_hold(states.last().asserts, m),
    decreases states.len(),
{
    if states.len() > 1 {
        let k = states.len() - 1;
        let front = states.drop_last();
        assert forall|j: int| 1 <= j < front.len() implies backend.expr_outcomes_gives(
            extras[j - 1],
            set![EvaluationOutcome::True],
            env,
            schema,
            s,
            front[j - 1],
            Ok(()),
            #[trigger] front[j],
        ) by {
            assert(front[j] == states[j] && front[j - 1] == states[j - 1]);
        }
        law_met_extras_hold(backend, extras, front, env, schema, s, m, v, w);
        assert(states[k] == states.last());
        law_met_assumption_holds(
            backend,
            extras[k - 1],
            set![EvaluationOutcome::True],
            env,
            schema,
            s,
            states[k - 1],
            states[k],
            m,
            v,
            w,
        );
    }
}

/// What an assumption says more where no entity is missing: where `x` has an
/// assumed outcome on the input and the same on the completion, its term takes
/// one of the outcomes.
pub proof fn law_closed_outcomes_hold(
    x: &Expr<Option<Type>>,
    c: Compiled,
    outcomes: Set<EvaluationOutcome>,
    m: Model,
    v: World,
    w: World,
)
    requires
        c.term.outcome(m) == x.tree().outcome(v),
        x.tree().outcome(v) == x.tree().outcome(w),
        outcomes.contains(x.tree().outcome(w)),
    ensures
        Term::takes(c.term, outcomes).holds(m),
{
    c.term.lemma_questions(m);
    let yes = if outcomes.contains(EvaluationOutcome::True) {
        Term::or_of(Term::Bool(false), Term::is_bool(c.term, true))
    } else {
        Term::Bool(false)
    };
    let no = if outcomes.contains(EvaluationOutcome::False) {
        Term::or_of(yes, Term::is_bool(c.term, false))
    } else {
        yes
    };
    Term::lemma_or(yes, Term::is_bool(c.term, false), m);
    Term::lemma_or(no, Term::is_none_of(c.term), m);
}

/// The existence facts of an assumption hold where it is met.
proof fn lemma_assumed_facts(
    x: &Expr<Option<Type>>,
    outcomes: Set<EvaluationOutcome>,
    s: Sym,
    m: Model,
    v: World,
    w: World,
)
    requires
        s.sees(m, v, w),
        outcomes.contains(x.tree().outcome(w)),
    ensures
        Term::all_hold(crate::evaluator::state::outcome_facts(x.tree(), outcomes, s), m),
{
    x.lemma_tree_shaped();
    let t = x.tree();
    let truth = crate::evaluator::state::truth_of(outcomes);
    let facts = t.facts(s, truth);
    let terms = crate::evaluator::state::outcome_facts(t, outcomes, s);
    if !outcomes.contains(EvaluationOutcome::Error) {
        assert(set![EvaluationOutcome::True].contains(EvaluationOutcome::True));
        assert(truth matches Some(b) ==> t.outcome(w) == EvaluationOutcome::of_bool(b));
        lemma_facts(t, s, m, v, w, true, Mode::Plain, truth, true);
        lemma_filtered(t.accesses(s, true, Mode::Plain, truth, true), m);
        assert forall|i: int| 0 <= i < terms.len() implies (#[trigger] terms[i]).holds(m) by {
            assert(terms[i] == facts[i].present());
        }
    }
}

/// An assumed decision that is met holds: where the policies come to the
/// decision, whatever entities are missing, its assert holds; provided that the
/// typed condition of each policy is true exactly where the policy matches, and
/// that the compiler is right about the input.
pub proof fn law_assumed_decision_holds(
    ps: Seq<Policy>,
    xs: Seq<Expr<Option<Type>>>,
    ns: Seq<NTree>,
    decision: Decision,
    s: Sym,
    m: Model,
    v: World,
    w: World,
)
    requires
        s.sees(m, v, w),
        xs.len() == ps.len(),
        ns.len() == ps.len(),
        forall|i: int|
            0 <= i < ns.len() ==> (xs[i].nodes(s) matches Ok(n) && n == #[trigger] ns[i])
                && ns[i].denoted(s, m, v, w) && (xs[i].tree().outcome(w) is True
                == ps[i]@.matches_on(w)),
        PolicyView::decision(crate::dnf::policy::policy_views(ps), w) == decision,
    ensures
        crate::evaluator::state::decided(ps, ns, decision).holds(m),
{
    let views = crate::dnf::policy::policy_views(ps);
    lemma_effect(ps, xs, ns, Effect::Permit, s, m, v, w, ns.len());
    lemma_effect(ps, xs, ns, Effect::Forbid, s, m, v, w, ns.len());
    assert forall|effect: Effect| #[trigger]
        PolicyView::any_matches(views, effect, w) == matches_before(ps, effect, w, ns.len()) by {
        if PolicyView::any_matches(views, effect, w) {
            let i = choose|i: int|
                0 <= i < views.len() && (#[trigger] views[i]).effect == effect
                    && views[i].matches_on(w);
            assert(ps[i].effect == effect);
        }
        if matches_before(ps, effect, w, ns.len()) {
            let i = choose|i: int|
                0 <= i < ns.len() && (#[trigger] ps[i]).effect == effect && ps[i]@.matches_on(w);
            assert(views[i].effect == effect);
        }
    }
}

/// One of the first `n` of `ps` with the effect matches.
spec fn matches_before(ps: Seq<Policy>, effect: Effect, w: World, n: nat) -> bool {
    exists|i: int| 0 <= i < n && (#[trigger] ps[i]).effect == effect && ps[i]@.matches_on(w)
}

/// That a policy with the effect is true, or that none is, holds where it is
/// so.
proof fn lemma_effect(
    ps: Seq<Policy>,
    xs: Seq<Expr<Option<Type>>>,
    ns: Seq<NTree>,
    effect: Effect,
    s: Sym,
    m: Model,
    v: World,
    w: World,
    n: nat,
)
    requires
        s.sees(m, v, w),
        n <= ns.len(),
        xs.len() == ps.len(),
        ns.len() == ps.len(),
        forall|i: int|
            0 <= i < ns.len() ==> (xs[i].nodes(s) matches Ok(n) && n == #[trigger] ns[i])
                && ns[i].denoted(s, m, v, w) && (xs[i].tree().outcome(w) is True
                == ps[i]@.matches_on(w)),
    ensures
        matches_before(ps, effect, w, n) ==> crate::evaluator::state::some_true(
            ps,
            ns,
            effect,
            n,
        ).holds(m),
        !matches_before(ps, effect, w, n) ==> crate::evaluator::state::none_true(
            ps,
            ns,
            effect,
            n,
        ).holds(m),
    decreases n,
{
    if n > 0 {
        lemma_effect(ps, xs, ns, effect, s, m, v, w, (n - 1) as nat);
        let x = xs[n - 1];
        let node = ns[n - 1];
        x.lemma_nodes_mirror(s);
        x.law_nodes_have_their_terms(s);
        node.lemma_took(s, m, v, w, x.tree().outcome(w));
        let yes = node.took(EvaluationOutcome::True);
        let no = node.took(EvaluationOutcome::False);
        let err = node.took(EvaluationOutcome::Error);
        Term::lemma_or(
            crate::evaluator::state::some_true(ps, ns, effect, (n - 1) as nat),
            yes,
            m,
        );
        Term::lemma_or(no, err, m);
        if matches_before(ps, effect, w, n) {
            let i = choose|i: int|
                0 <= i < n && (#[trigger] ps[i]).effect == effect && ps[i]@.matches_on(w);
            if i < n - 1 {
                assert(matches_before(ps, effect, w, (n - 1) as nat));
            }
        } else {
            assert(!matches_before(ps, effect, w, (n - 1) as nat)) by {
                if matches_before(ps, effect, w, (n - 1) as nat) {
                    let i = choose|i: int|
                        0 <= i < n - 1 && (#[trigger] ps[i]).effect == effect
                            && ps[i]@.matches_on(w);
                    assert(matches_before(ps, effect, w, n));
                }
            }
            assert(ps[n - 1].effect == effect ==> !ps[n - 1]@.matches_on(w));
        }
    }
}

/// The facts of a list are those that are marked so.
proof fn lemma_filtered(cs: Seq<Existence>, m: Model)
    requires
        facts_hold(cs, m),
    ensures
        ({
            let fs = cs.filter(|c: Existence| c.fact);
            forall|i: int| 0 <= i < fs.len() ==> (#[trigger] fs[i]).present().holds(m)
        }),
    decreases cs.len(),
{
    reveal(Seq::filter);
    if cs.len() > 0 {
        let first = cs.drop_last();
        assert forall|i: int| 0 <= i < first.len() && (
        #[trigger] first[i]).fact implies first[i].present().holds(m) by {
            assert(first[i] == cs[i]);
        }
        lemma_filtered(first, m);
        assert(cs.last() == cs[cs.len() - 1]);
    }
}

/// The atom itself: what covers the difference adds the outcome.
proof fn lemma_atom_covered(t: Tree, s: Sym, m: Model, v: World, w: World)
    requires
        s.sees(m, v, w),
        t.shaped(),
        t.receivers_compile(s, v),
        t.coalesces_booleans(w),
    ensures
        t.outcome(w) == t.outcome(v) || exists|i: int|
            0 <= i < t.accesses(s, true, Mode::Plain, None, true).len() && (#[trigger] t.accesses(
                s,
                true,
                Mode::Plain,
                None,
                true,
            )[i]).missing().holds(m) && t.accesses(
                s,
                true,
                Mode::Plain,
                None,
                true,
            )[i].adds.set().contains(t.outcome(w)),
{
    let cs = t.accesses(s, true, Mode::Plain, None, true);
    let k = t.kids;
    if t.op.looks_up() {
        lemma_lookup_covered(t, s, m, v, w, true, Mode::Plain, None, true);
    } else if t.is_iferror() && k.len() == 2 && k[1].bool_literal() is Some {
        reveal_with_fuel(Tree::eval, 2);
        let b = k[1].bool_literal()->Some_0;
        assert(k[1].eval(w) == Ok::<Value, int>(Value::Bool(b)));
        let under = Mode::Coalesced(Some(b));
        let a = k[0].accesses(s, false, under, None, false);
        lemma_covered(k[0], s, m, v, w, false, under, None);
        if covers(a, m, k[0].eval(w) is Err, under) {
            let i = choose|i: int|
                0 <= i < a.len() && (#[trigger] a[i]).missing().holds(m) && allows(
                    a[i].adds,
                    k[0].eval(w) is Err,
                    under,
                );
            assert(cs[i] == a[i]);
            assert(cs[i].adds.set().contains(t.outcome(w)));
        }
    } else {
        lemma_covered(t, s, m, v, w, true, Mode::Plain, None);
        assert(cs == t.accesses(s, true, Mode::Plain, None, false));
    }
}

impl NTree {
    /// In every atom, the term denotes in `m` what the atom evaluates to on
    /// the completion `v`, what is looked up compiles, and what an `iferror`
    /// takes the place of is a boolean.
    pub open spec fn denoted(self, s: Sym, m: Model, v: World, w: World) -> bool
        decreases self,
    {
        match self.kind {
            NKind::Atom { .. } => {
                &&& self.term.outcome(m) == self.outcome(v)
                &&& self.expr.tree().receivers_compile(s, v)
                &&& self.expr.tree().coalesces_booleans(w)
            },
            NKind::Not(x) => x.denoted(s, m, v, w),
            NKind::And(l, r) | NKind::Or(l, r) => {
                &&& l.denoted(s, m, v, w)
                &&& r matches Some(r) ==> r.denoted(s, m, v, w)
            },
            NKind::If(c, a, b) => {
                &&& c.denoted(s, m, v, w)
                &&& a matches Some(a) ==> a.denoted(s, m, v, w)
                &&& b matches Some(b) ==> b.denoted(s, m, v, w)
            },
        }
    }

    /// The nodes are those of the expression, and the compiler is right about
    /// the input.
    spec fn understood(self, s: Sym, m: Model, v: World, w: World) -> bool {
        &&& self.mirrors()
        &&& self.compiled_by(s)
        &&& self.denoted(s, m, v, w)
        &&& s.sees(m, v, w)
    }

    /// What is said to hold where the node has an outcome holds there.
    proof fn lemma_took(self, s: Sym, m: Model, v: World, w: World, o: EvaluationOutcome)
        requires
            self.understood(s, m, v, w),
            self.outcome(w) == o,
        ensures
            self.took(o).holds(m),
        decreases self,
    {
        let yes = EvaluationOutcome::True;
        let no = EvaluationOutcome::False;
        self.lemma_shape();
        match self.kind {
            NKind::Atom { checks, .. } => {
                law_accesses_cover_missing_entities(&self.expr, s, m, v, w);
                match o {
                    EvaluationOutcome::True => self.lemma_known(s, m, v, w, true),
                    EvaluationOutcome::False => self.lemma_known(s, m, v, w, false),
                    EvaluationOutcome::Error => {},
                }
                self.facts.lemma_asked(self.term, o, m);
                Existence::lemma_or_missing(
                    self.facts.asked(self.term, o),
                    checks,
                    checks.len(),
                    o,
                    m,
                );
            },
            NKind::Not(x) => {
                Tree::lemma_not_outcome(x.expr.tree(), w);
                x.lemma_took(s, m, v, w, o.flip());
            },
            NKind::And(l, r) => {
                Tree::lemma_and_outcome(l.expr.tree(), self.expr.kind->And_right.tree(), w);
                let t = match r {
                    Some(r) => Some(r.took(o)),
                    None => None,
                };
                Term::lemma_both(l.took(yes), t, m);
                Term::lemma_or(l.took(o), Term::both_of(l.took(yes), t), m);
                if l.outcome(w) is True {
                    l.lemma_took(s, m, v, w, yes);
                    if r is Some {
                        r->Some_0.lemma_took(s, m, v, w, o);
                    }
                } else {
                    l.lemma_took(s, m, v, w, o);
                }
            },
            NKind::Or(l, r) => {
                Tree::lemma_or_outcome(l.expr.tree(), self.expr.kind->Or_right.tree(), w);
                let t = match r {
                    Some(r) => Some(r.took(o)),
                    None => None,
                };
                Term::lemma_both(l.took(no), t, m);
                Term::lemma_or(l.took(o), Term::both_of(l.took(no), t), m);
                if l.outcome(w) is False {
                    l.lemma_took(s, m, v, w, no);
                    if r is Some {
                        r->Some_0.lemma_took(s, m, v, w, o);
                    }
                } else {
                    l.lemma_took(s, m, v, w, o);
                }
            },
            NKind::If(c, a, b) => {
                Tree::lemma_ite_outcome(
                    c.expr.tree(),
                    self.expr.kind->then_expr.tree(),
                    self.expr.kind->else_expr.tree(),
                    w,
                );
                let t = match a {
                    Some(a) => Some(a.took(o)),
                    None => None,
                };
                let f = match b {
                    Some(b) => Some(b.took(o)),
                    None => None,
                };
                let then = Term::both_of(c.took(yes), t);
                let els = Term::both_of(c.took(no), f);
                Term::lemma_both(c.took(yes), t, m);
                Term::lemma_both(c.took(no), f, m);
                Term::lemma_or(then, els, m);
                Term::lemma_or(c.took(o), Term::or_of(then, els), m);
                c.lemma_took(s, m, v, w, c.outcome(w));
                if c.outcome(w) is True && a is Some {
                    a->Some_0.lemma_took(s, m, v, w, o);
                }
                if c.outcome(w) is False && b is Some {
                    b->Some_0.lemma_took(s, m, v, w, o);
                }
            },
        }
    }

    /// Where the node evaluates as `truth` says, the receivers of its facts
    /// exist.
    proof fn lemma_node_facts(self, s: Sym, m: Model, v: World, w: World, truth: Option<bool>)
        requires
            self.understood(s, m, v, w),
            !(self.outcome(w) is Error),
            truth matches Some(b) ==> self.outcome(w) == EvaluationOutcome::of_bool(b),
        ensures
            all_present(self.facts.given(truth), m),
        decreases self,
    {
        self.lemma_shape();
        match self.kind {
            NKind::Atom { .. } => {
                law_accesses_cover_missing_entities(&self.expr, s, m, v, w);
                assert(self.facts.given(truth) == self.expr.tree().facts(s, truth));
            },
            NKind::Not(x) => {
                Tree::lemma_not_outcome(x.expr.tree(), w);
                x.lemma_node_facts(
                    s,
                    m,
                    v,
                    w,
                    match truth {
                        Some(b) => Some(!b),
                        None => None,
                    },
                );
            },
            NKind::And(l, r) => {
                Tree::lemma_and_outcome(l.expr.tree(), self.expr.kind->And_right.tree(), w);
                if truth == Some(true) {
                    l.lemma_node_facts(s, m, v, w, truth);
                    if r is Some {
                        r->Some_0.lemma_node_facts(s, m, v, w, truth);
                        lemma_present_append(l.facts.on_true, r->Some_0.facts.on_true, m);
                    } else {
                        lemma_present_append(l.facts.on_true, seq![], m);
                    }
                } else {
                    l.lemma_node_facts(s, m, v, w, None);
                }
            },
            NKind::Or(l, r) => {
                Tree::lemma_or_outcome(l.expr.tree(), self.expr.kind->Or_right.tree(), w);
                if truth == Some(false) {
                    l.lemma_node_facts(s, m, v, w, truth);
                    if r is Some {
                        r->Some_0.lemma_node_facts(s, m, v, w, truth);
                        lemma_present_append(l.facts.on_false, r->Some_0.facts.on_false, m);
                    } else {
                        lemma_present_append(l.facts.on_false, seq![], m);
                    }
                } else {
                    l.lemma_node_facts(s, m, v, w, None);
                }
            },
            NKind::If(c, _, _) => {
                Tree::lemma_ite_outcome(
                    c.expr.tree(),
                    self.expr.kind->then_expr.tree(),
                    self.expr.kind->else_expr.tree(),
                    w,
                );
                c.lemma_node_facts(s, m, v, w, None);
            },
        }
    }

    /// What is put on the trail for the value that the node takes holds.
    proof fn lemma_trail_follows(self, s: Sym, m: Model, v: World, w: World, b: bool)
        requires
            self.understood(s, m, v, w),
            self.outcome(w) == EvaluationOutcome::of_bool(b),
        ensures
            Term::all_hold(self.trail(b), m),
    {
        self.lemma_took(s, m, v, w, EvaluationOutcome::of_bool(b));
        self.lemma_known(s, m, v, w, b);
        self.lemma_trail_holds(b, m);
    }

    /// The existence facts of the value that the node takes hold.
    proof fn lemma_known(self, s: Sym, m: Model, v: World, w: World, b: bool)
        requires
            self.understood(s, m, v, w),
            self.outcome(w) == EvaluationOutcome::of_bool(b),
        ensures
            Term::all_hold(self.facts.known(b), m),
    {
        self.lemma_node_facts(s, m, v, w, Some(b));
        let facts = self.facts.given(Some(b));
        assert forall|i: int| 0 <= i < self.facts.known(b).len() implies (
        #[trigger] self.facts.known(b)[i]).holds(m) by {
            assert(self.facts.known(b)[i] == facts[i].present());
        }
    }

    /// Where the compiler is right about the input, so are the nodes.
    pub proof fn lemma_faithful(self, set: Setting, s: Sym, v: World, w: World)
        requires
            self.mirrors(),
            self.compiled_by(s),
            self.denoted(s, (set.model)(w), v, w),
            s.sees((set.model)(w), v, w),
        ensures
            self.faithful(set, w),
        decreases self,
    {
        let m = (set.model)(w);
        match self.kind {
            NKind::Atom { .. } => {
                law_accesses_cover_missing_entities(&self.expr, s, m, v, w);
                if self.outcome(w) is True {
                    self.lemma_known(s, m, v, w, true);
                }
                if self.outcome(w) is False {
                    self.lemma_known(s, m, v, w, false);
                }
            },
            NKind::Not(x) => x.lemma_faithful(set, s, v, w),
            NKind::And(l, r) => {
                l.lemma_faithful(set, s, v, w);
                if l.outcome(w) is True {
                    l.lemma_trail_follows(s, m, v, w, true);
                }
                if r is Some {
                    r->Some_0.lemma_faithful(set, s, v, w);
                }
            },
            NKind::Or(l, r) => {
                l.lemma_faithful(set, s, v, w);
                if l.outcome(w) is False {
                    l.lemma_trail_follows(s, m, v, w, false);
                }
                if r is Some {
                    r->Some_0.lemma_faithful(set, s, v, w);
                }
            },
            NKind::If(c, a, b) => {
                c.lemma_faithful(set, s, v, w);
                if c.outcome(w) is True {
                    c.lemma_trail_follows(s, m, v, w, true);
                }
                if c.outcome(w) is False {
                    c.lemma_trail_follows(s, m, v, w, false);
                }
                if a is Some {
                    a->Some_0.lemma_faithful(set, s, v, w);
                }
                if b is Some {
                    b->Some_0.lemma_faithful(set, s, v, w);
                }
            },
        }
    }
}

/// The receivers of all of `cs` exist.
spec fn all_present(cs: Seq<Existence>, m: Model) -> bool {
    forall|i: int| 0 <= i < cs.len() ==> (#[trigger] cs[i]).present().holds(m)
}

/// The receivers of two lists exist.
proof fn lemma_present_append(a: Seq<Existence>, b: Seq<Existence>, m: Model)
    requires
        all_present(a, m),
        all_present(b, m),
    ensures
        all_present(a + b, m),
{
    let cs = a + b;
    assert forall|i: int| 0 <= i < cs.len() implies (#[trigger] cs[i]).present().holds(m) by {
        if i < a.len() {
            assert(cs[i] == a[i]);
        } else {
            assert(cs[i] == b[i - a.len()]);
        }
    }
}

} // verus!
